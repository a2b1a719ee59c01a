//! The bundle stage: partitions the reachable modules of a linked graph into
//! output chunks and generates their content. Policy: one chunk per entry
//! point holding the entry module itself, plus one shared chunk holding every
//! other reachable module, hoisted in canonical order. Unreachable modules are
//! excluded (dead-code elimination). Running the stage twice over one linked
//! graph yields byte-identical assets.
use vstd::prelude::*;
use crate::bytes::{base_of, base_name, copy_bytes, contains_bytes, lemma_has_bytes_views, views};
use crate::errors::BuildError;
use crate::graph::ModuleNode;
use crate::link::{find_mod, lemma_find_mod, LinkStageOutput};
use crate::options::OutputOptions;

verus! {

/// One output asset: a file name relative to the output directory, and its
/// generated content.
pub struct Output {
    pub file_name: Vec<u8>,
    pub content: Vec<u8>,
}

/// Views of an asset list: (file name, content) pairs.
pub open spec fn asset_views(assets: Seq<Output>) -> Seq<(Seq<u8>, Seq<u8>)> {
    assets.map_values(|o: Output| (o.file_name@, o.content@))
}

/// The name of the shared chunk: the bytes of `shared.js`.
pub open spec fn shared_name() -> Seq<u8> {
    seq![115u8, 104u8, 97u8, 114u8, 101u8, 100u8, 46u8, 106u8, 115u8]
}

/// Decimal digits of a number.
pub open spec fn dec_rep(n: nat) -> Seq<u8>
    decreases n,
{
    if n < 10 {
        seq![(48 + n) as u8]
    } else {
        dec_rep(n / 10).push((48 + n % 10) as u8)
    }
}

/// The file name of the chunk for the entry at ordinal `k`: the ordinal, a
/// dash, and the entry module's file name. The ordinal keeps two entries with
/// one base name apart, and keeps every entry chunk apart from the shared
/// chunk, so persisted output is complete.
pub open spec fn entry_chunk_name(k: int, id: Seq<u8>) -> Seq<u8> {
    dec_rep(k as nat) + seq![45u8] + base_of(id)
}

/// The entry chunks from ordinal `k` on: one per entry whose module is in
/// the graph.
pub open spec fn entry_assets(ms: Seq<ModuleNode>, ev: Seq<Seq<u8>>, k: int) -> Seq<
    (Seq<u8>, Seq<u8>),
>
    decreases ev.len() - k,
{
    if k < 0 || k >= ev.len() {
        Seq::empty()
    } else {
        (if find_mod(ms, ev[k]) >= 0 {
            seq![(entry_chunk_name(k, ev[k]), ms[find_mod(ms, ev[k])].content@)]
        } else {
            Seq::empty()
        }) + entry_assets(ms, ev, k + 1)
    }
}

/// The decimal digits as a byte vector.
pub fn dec_vec(n: usize) -> (r: Vec<u8>)
    ensures
        r@ == dec_rep(n as nat),
    decreases n,
{
    if n < 10 {
        let mut r: Vec<u8> = Vec::new();
        r.push(48 + (n as u8));
        proof {
            assert(r@ =~= dec_rep(n as nat));
        }
        r
    } else {
        let mut r = dec_vec(n / 10);
        r.push(48 + ((n % 10) as u8));
        r
    }
}

/// The shared chunk's content from position `k` on: the reachable non-entry
/// modules' contents, concatenated in canonical order.
pub open spec fn shared_content(
    ms: Seq<ModuleNode>,
    included: Seq<bool>,
    ev: Seq<Seq<u8>>,
    k: int,
) -> Seq<u8>
    decreases ms.len() - k,
{
    if k < 0 || k >= ms.len() {
        Seq::empty()
    } else {
        (if k < included.len() && included[k] && !ev.contains(ms[k].id@) {
            ms[k].content@
        } else {
            Seq::empty()
        }) + shared_content(ms, included, ev, k + 1)
    }
}

/// Whether any module belongs to the shared chunk.
pub open spec fn has_shared(ms: Seq<ModuleNode>, included: Seq<bool>, ev: Seq<Seq<u8>>) -> bool {
    exists|k: int|
        0 <= k < ms.len() && k < included.len() && included[k] && !ev.contains(ms[k].id@)
}

/// All assets of one bundling run.
pub open spec fn bundle_assets(ms: Seq<ModuleNode>, included: Seq<bool>, ev: Seq<Seq<u8>>) -> Seq<
    (Seq<u8>, Seq<u8>),
> {
    entry_assets(ms, ev, 0) + (if has_shared(ms, included, ev) {
        seq![(shared_name(), shared_content(ms, included, ev, 0))]
    } else {
        Seq::empty()
    })
}

/// The shared chunk's name as a byte vector.
pub fn shared_name_vec() -> (r: Vec<u8>)
    ensures
        r@ == shared_name(),
{
    let mut r: Vec<u8> = Vec::new();
    r.push(115u8);
    r.push(104u8);
    r.push(97u8);
    r.push(114u8);
    r.push(101u8);
    r.push(100u8);
    r.push(46u8);
    r.push(106u8);
    r.push(115u8);
    proof {
        assert(r@ =~= shared_name());
    }
    r
}

/// Generate the assets of a linked graph. The linked graph itself is read,
/// never changed: bundling is repeatable.
pub fn bundle(linked: &LinkStageOutput, output_options: &OutputOptions) -> (r: Result<
    Vec<Output>,
    BuildError,
>)
    ensures
        output_options.dir@.len() == 0 ==> (r matches Err(e) && e@
            == crate::errors::ErrView::InvalidOutputDir),
        output_options.dir@.len() > 0 ==> (r matches Ok(assets) && asset_views(assets@)
            == bundle_assets(linked.graph@, linked.included@, views(linked.entries@))),
{
    if output_options.dir.len() == 0 {
        return Err(BuildError::InvalidOutputDir);
    }
    let ghost ev = views(linked.entries@);
    let mut assets: Vec<Output> = Vec::new();
    proof {
        assert(asset_views(assets@) =~= Seq::<(Seq<u8>, Seq<u8>)>::empty());
        assert(asset_views(assets@) + entry_assets(linked.graph@, ev, 0) =~= entry_assets(
            linked.graph@,
            ev,
            0,
        ));
    }
    let mut k: usize = 0;
    while k < linked.entries.len()
        invariant
            k <= linked.entries.len(),
            ev == views(linked.entries@),
            entry_assets(linked.graph@, ev, 0) == asset_views(assets@) + entry_assets(
                linked.graph@,
                ev,
                k as int,
            ),
        decreases linked.entries.len() - k,
    {
        proof {
            assert(ev[k as int] == linked.entries@[k as int]@);
            lemma_find_mod(linked.graph@, linked.entries@[k as int]@);
        }
        match crate::link::find_module(&linked.graph, &linked.entries[k]) {
            Some(j) => {
                let mut name = dec_vec(k);
                name.push(45u8);
                crate::bytes::append_bytes(&mut name, &base_name(&linked.entries[k]));
                proof {
                    assert(name@ =~= entry_chunk_name(k as int, ev[k as int]));
                }
                assets.push(
                    Output {
                        file_name: name,
                        content: copy_bytes(&linked.graph[j].content),
                    },
                );
                proof {
                    assert(asset_views(assets@) =~= asset_views(assets@.drop_last()).push(
                        (assets@.last().file_name@, assets@.last().content@),
                    ));
                    assert(asset_views(assets@.drop_last()).push(
                        (assets@.last().file_name@, assets@.last().content@),
                    ) + entry_assets(linked.graph@, ev, k as int + 1) =~= asset_views(
                        assets@.drop_last(),
                    ) + (seq![(assets@.last().file_name@, assets@.last().content@)]
                        + entry_assets(linked.graph@, ev, k as int + 1)));
                }
            },
            None => {},
        }
        k = k + 1;
    }
    proof {
        assert(entry_assets(linked.graph@, ev, ev.len() as int) =~= Seq::<
            (Seq<u8>, Seq<u8>),
        >::empty());
        assert(asset_views(assets@) + Seq::<(Seq<u8>, Seq<u8>)>::empty() =~= asset_views(
            assets@,
        ));
        assert(asset_views(assets@) == entry_assets(linked.graph@, ev, 0));
    }
    let mut shared: Vec<u8> = Vec::new();
    let mut any: bool = false;
    proof {
        assert(shared@ + shared_content(linked.graph@, linked.included@, ev, 0) =~= shared_content(
            linked.graph@,
            linked.included@,
            ev,
            0,
        ));
    }
    let mut j: usize = 0;
    while j < linked.graph.len()
        invariant
            j <= linked.graph.len(),
            ev == views(linked.entries@),
            shared@ + shared_content(linked.graph@, linked.included@, ev, j as int)
                == shared_content(linked.graph@, linked.included@, ev, 0),
            any == exists|t: int|
                0 <= t < j && t < linked.included@.len() && linked.included@[t] && !ev.contains(
                    linked.graph@[t].id@,
                ),
        decreases linked.graph.len() - j,
    {
        let in_graph_entry = contains_bytes(&linked.entries, &linked.graph[j].id);
        proof {
            lemma_has_bytes_views(linked.entries@, linked.graph@[j as int].id@);
        }
        if j < linked.included.len() && linked.included[j] && !in_graph_entry {
            crate::bytes::append_bytes(&mut shared, &linked.graph[j].content);
            any = true;
            proof {
                let ghost w: int = j as int;
                assert(0 <= w && w < j + 1 && w < linked.included@.len() && linked.included@[w]
                    && !ev.contains(linked.graph@[w].id@));
            }
        }
        proof {
            assert(shared@ + shared_content(linked.graph@, linked.included@, ev, j as int + 1)
                =~= shared_content(linked.graph@, linked.included@, ev, 0));
        }
        j = j + 1;
    }
    proof {
        assert(shared_content(linked.graph@, linked.included@, ev, linked.graph@.len() as int)
            =~= Seq::<u8>::empty());
        assert(shared@ + Seq::<u8>::empty() =~= shared@);
        assert(shared@ == shared_content(linked.graph@, linked.included@, ev, 0));
    }
    if any {
        assets.push(Output { file_name: shared_name_vec(), content: shared });
        proof {
            assert(asset_views(assets@) =~= asset_views(assets@.drop_last()).push(
                (shared_name(), shared_content(linked.graph@, linked.included@, ev, 0)),
            ));
            assert(asset_views(assets@) =~= bundle_assets(
                linked.graph@,
                linked.included@,
                ev,
            ));
        }
    } else {
        proof {
            assert(asset_views(assets@) + Seq::<(Seq<u8>, Seq<u8>)>::empty() =~= asset_views(
                assets@,
            ));
            assert(asset_views(assets@) =~= bundle_assets(
                linked.graph@,
                linked.included@,
                ev,
            ));
        }
    }
    Ok(assets)
}

} // verus!
