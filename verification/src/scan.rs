//! The scan stage: starting from the entry specifiers, concurrently-shaped
//! worklist discovery of the whole module graph. Each pending identifier is
//! loaded (load hooks first, storage as fallback), run through the transform
//! chain, its imports extracted and resolved, and its node inserted — exactly
//! once per identifier, however many importers reference it. Failures are
//! collected per module and scanning continues on other branches; entry
//! specifiers that cannot be resolved are collected separately.
use vstd::prelude::*;
use vstd::seq_lib::seq_to_set_is_finite;
use vstd::set_lib::lemma_len_subset;
use crate::bytes::{contains_bytes, copy_bytes, dir_name, dir_of, has_bytes, opt_bytes, views};
use crate::errors::{err_views, has_err, has_module_failure, is_scan_warning, names_module_failure,
    BuildError, ErrView};
use crate::graph::{distinct_ids, has_module, ImportRecord, ModuleNode};
use crate::options::InputOptions;
use crate::plugin::{plugin_load, plugin_resolution, chain_outcome, Plugin, PluginDriver};
use crate::resolver::{coherent, resolve_spec, Resolver};
use crate::source::{extract_imports, import_list};
use crate::store::{lemma_lookup_in_paths, FileStore};

verus! {

/// Everything the scan returns: the best-effort graph, the resolved entry
/// identifiers, the per-module failures, the entry-resolution failures, and
/// the discovery log — every module identifier that entered the scan, in
/// discovery order, each exactly once.
pub struct ScanStageOutput {
    pub modules: Vec<ModuleNode>,
    pub entries: Vec<Vec<u8>>,
    pub warnings: Vec<BuildError>,
    pub errors: Vec<BuildError>,
    pub visited: Vec<Vec<u8>>,
}

/// Content for a module: the first load hook that answers, else storage.
pub open spec fn loaded_content(ps: Seq<Plugin>, fs: FileStore, id: Seq<u8>) -> Option<Seq<u8>> {
    match plugin_load(ps, id) {
        Some(c) => Some(c),
        None => fs.lookup(id),
    }
}

/// Resolution of a specifier: the first resolve hook that answers, else the
/// resolver's underlying lookup against the importing directory.
pub open spec fn resolution_of(ps: Seq<Plugin>, fs: FileStore, dir: Seq<u8>, s: Seq<u8>) -> Option<
    Seq<u8>,
> {
    match plugin_resolution(ps, s) {
        Some(id) => Some(id),
        None => resolve_spec(fs, dir, s),
    }
}

/// A module identifier scans successfully when content is available and the
/// transform chain accepts it.
pub open spec fn scan_ok(ps: Seq<Plugin>, fs: FileStore, id: Seq<u8>) -> bool {
    match loaded_content(ps, fs, id) {
        Some(c) => chain_outcome(ps, id, c) is Ok,
        None => false,
    }
}

/// The transformed content of a successfully scanned module.
pub open spec fn scanned_content(ps: Seq<Plugin>, fs: FileStore, id: Seq<u8>) -> Seq<u8> {
    chain_outcome(ps, id, loaded_content(ps, fs, id).unwrap())->Ok_0
}

/// A graph node is exactly what scanning one identifier produces.
pub open spec fn node_ok(ps: Seq<Plugin>, fs: FileStore, node: ModuleNode) -> bool {
    &&& scan_ok(ps, fs, node.id@)
    &&& node.content@ == scanned_content(ps, fs, node.id@)
    &&& node.imports@.len() == import_list(node.content@).len()
    &&& forall|e: int|
        0 <= e < node.imports@.len() ==> (#[trigger] node.imports@[e]).specifier@ == import_list(
            node.content@,
        )[e]
    &&& forall|e: int|
        0 <= e < node.imports@.len() ==> opt_bytes((#[trigger] node.imports@[e]).resolved)
            == resolution_of(ps, fs, dir_of(node.id@), node.imports@[e].specifier@)
}

/// The entry identifiers that resolve, in entry order.
pub open spec fn resolved_entries(
    ps: Seq<Plugin>,
    fs: FileStore,
    cwd: Seq<u8>,
    es: Seq<Seq<u8>>,
) -> Seq<Seq<u8>>
    decreases es.len(),
{
    if es.len() == 0 {
        Seq::empty()
    } else {
        (match resolution_of(ps, fs, cwd, es[0]) {
            Some(id) => seq![id],
            None => Seq::empty(),
        }) + resolved_entries(ps, fs, cwd, es.drop_first())
    }
}

/// The entry-resolution failures: one per entry specifier that does not
/// resolve.
pub open spec fn entry_failures(
    ps: Seq<Plugin>,
    fs: FileStore,
    cwd: Seq<u8>,
    es: Seq<Seq<u8>>,
) -> Seq<ErrView>
    decreases es.len(),
{
    if es.len() == 0 {
        Seq::empty()
    } else {
        (match resolution_of(ps, fs, cwd, es[0]) {
            Some(id) => Seq::empty(),
            None => seq![ErrView::Unresolved { specifier: es[0], importer: None }],
        }) + entry_failures(ps, fs, cwd, es.drop_first())
    }
}

/// All module identifiers any plugin's resolve table can produce.
pub open spec fn plugin_targets(ps: Seq<Plugin>) -> Seq<Seq<u8>>
    decreases ps.len(),
{
    if ps.len() == 0 {
        Seq::empty()
    } else {
        ps[0].resolutions@.map_values(|p: (Vec<u8>, Vec<u8>)| p.1@) + plugin_targets(
            ps.drop_first(),
        )
    }
}

/// Every module identifier a scan can ever discover lies in this finite set:
/// the stored paths plus the plugins' resolve targets. This is what bounds
/// the worklist and lets a cyclic graph complete without unbounded work.
pub open spec fn scan_universe(ps: Seq<Plugin>, fs: FileStore) -> Set<Seq<u8>> {
    fs.path_list().to_set().union(plugin_targets(ps).to_set())
}

proof fn lemma_assoc_value_in(t: Seq<(Vec<u8>, Vec<u8>)>, key: Seq<u8>)
    requires
        crate::bytes::assoc_lookup(t, key).is_some(),
    ensures
        t.map_values(|p: (Vec<u8>, Vec<u8>)| p.1@).contains(
            crate::bytes::assoc_lookup(t, key).unwrap(),
        ),
    decreases t.len(),
{
    let mv = t.map_values(|p: (Vec<u8>, Vec<u8>)| p.1@);
    if t[0].0@ == key {
        assert(mv[0] == t[0].1@);
    } else {
        lemma_assoc_value_in(t.drop_first(), key);
        let mv2 = t.drop_first().map_values(|p: (Vec<u8>, Vec<u8>)| p.1@);
        let w = choose|w: int| 0 <= w < mv2.len() && mv2[w] == crate::bytes::assoc_lookup(
            t.drop_first(),
            key,
        ).unwrap();
        assert(mv[w + 1] == mv2[w]);
    }
}

proof fn lemma_plugin_target(ps: Seq<Plugin>, s: Seq<u8>)
    requires
        plugin_resolution(ps, s).is_some(),
    ensures
        plugin_targets(ps).contains(plugin_resolution(ps, s).unwrap()),
    decreases ps.len(),
{
    let head = ps[0].resolutions@.map_values(|p: (Vec<u8>, Vec<u8>)| p.1@);
    if crate::bytes::assoc_lookup(ps[0].resolutions@, s).is_some() {
        lemma_assoc_value_in(ps[0].resolutions@, s);
        let w = choose|w: int| 0 <= w < head.len() && head[w] == plugin_resolution(ps, s).unwrap();
        assert(plugin_targets(ps)[w] == head[w]);
    } else {
        lemma_plugin_target(ps.drop_first(), s);
        let tail = plugin_targets(ps.drop_first());
        let w = choose|w: int| 0 <= w < tail.len() && tail[w] == plugin_resolution(
            ps.drop_first(),
            s,
        ).unwrap();
        assert(plugin_targets(ps)[head.len() + w] == tail[w]);
    }
}

/// A successful resolution lands inside the scan universe.
pub proof fn lemma_resolution_in_universe(ps: Seq<Plugin>, fs: FileStore, dir: Seq<u8>, s: Seq<u8>)
    requires
        resolution_of(ps, fs, dir, s).is_some(),
    ensures
        scan_universe(ps, fs).contains(resolution_of(ps, fs, dir, s).unwrap()),
{
    let id = resolution_of(ps, fs, dir, s).unwrap();
    if plugin_resolution(ps, s).is_some() {
        lemma_plugin_target(ps, s);
        assert(plugin_targets(ps).to_set().contains(id));
    } else {
        lemma_lookup_in_paths(fs.files@, id);
        let w = choose|w: int| 0 <= w < fs.files@.len() && fs.files@[w].path@ == id;
        assert(fs.path_list()[w] == id);
        assert(fs.path_list().to_set().contains(id));
    }
}

/// The scan universe is finite.
pub proof fn lemma_universe_finite(ps: Seq<Plugin>, fs: FileStore)
    ensures
        scan_universe(ps, fs).finite(),
{
    seq_to_set_is_finite(fs.path_list());
    seq_to_set_is_finite(plugin_targets(ps));
}

/// A duplicate-free sequence drawn from a finite set is no longer than it.
proof fn lemma_visited_bound(q: Seq<Seq<u8>>, u: Set<Seq<u8>>)
    requires
        q.no_duplicates(),
        forall|k: int| 0 <= k < q.len() ==> u.contains(#[trigger] q[k]),
        u.finite(),
    ensures
        q.len() <= u.len(),
{
    q.unique_seq_to_set();
    assert forall|x: Seq<u8>| q.to_set().contains(x) implies u.contains(x) by {
        let k = choose|k: int| 0 <= k < q.len() && q[k] == x;
        assert(u.contains(q[k]));
    }
    lemma_len_subset(q.to_set(), u);
}

proof fn lemma_has_bytes_push(s: Seq<Vec<u8>>, v: Vec<u8>, x: Seq<u8>)
    requires
        has_bytes(s, x),
    ensures
        has_bytes(s.push(v), x),
{
    let k = choose|k: int| 0 <= k < s.len() && s[k]@ == x;
    assert(s.push(v)[k]@ == x);
}

proof fn lemma_has_bytes_prefix(s: Seq<Vec<u8>>, p: Seq<Vec<u8>>, x: Seq<u8>)
    requires
        p.len() <= s.len(),
        s.take(p.len() as int) == p,
        has_bytes(p, x),
    ensures
        has_bytes(s, x),
{
    let k = choose|k: int| 0 <= k < p.len() && p[k]@ == x;
    assert(s[k] == s.take(p.len() as int)[k]);
}

proof fn lemma_err_prefix(s: Seq<BuildError>, p: Seq<BuildError>, e: ErrView)
    requires
        p.len() <= s.len(),
        s.take(p.len() as int) == p,
        has_err(p, e),
    ensures
        has_err(s, e),
{
    let w = choose|w: int| 0 <= w < p.len() && p[w]@ == e;
    assert(s[w] == s.take(p.len() as int)[w]);
}

proof fn lemma_failure_prefix(s: Seq<BuildError>, p: Seq<BuildError>, id: Seq<u8>)
    requires
        p.len() <= s.len(),
        s.take(p.len() as int) == p,
        has_module_failure(p, id),
    ensures
        has_module_failure(s, id),
{
    let w = choose|w: int| 0 <= w < p.len() && names_module_failure(p[w]@, id);
    assert(s[w] == s.take(p.len() as int)[w]);
}

/// The transform chain only ever fails with a transform failure.
proof fn lemma_chain_err_kind(ps: Seq<Plugin>, id: Seq<u8>, c: Seq<u8>)
    requires
        chain_outcome(ps, id, c) is Err,
    ensures
        is_scan_warning(chain_outcome(ps, id, c)->Err_0),
        names_module_failure(chain_outcome(ps, id, c)->Err_0, id),
        chain_outcome(ps, id, c)->Err_0 matches ErrView::TransformFailed { .. },
    decreases ps.len(),
{
    if ps.len() == 0 {
    } else if has_bytes(ps[0].transform_fails@, id) {
    } else {
        let c2 = match crate::bytes::assoc_lookup(ps[0].banners@, id) {
            Some(b) => b + c,
            None => c,
        };
        lemma_chain_err_kind(ps.drop_first(), id, c2);
    }
}

/// A collected warning reports an actual failure of this scan: a load or
/// transform failure of a discovered module (with the exact transform error
/// the chain produces), or an unresolved import edge of a node in the graph.
pub open spec fn warning_justified(
    ps: Seq<Plugin>,
    fs: FileStore,
    ms: Seq<ModuleNode>,
    visited: Seq<Vec<u8>>,
    w: ErrView,
) -> bool {
    match w {
        ErrView::LoadFailed { id } => has_bytes(visited, id) && loaded_content(ps, fs, id) is None,
        ErrView::TransformFailed { id, .. } => has_bytes(visited, id) && loaded_content(
            ps,
            fs,
            id,
        ) is Some && chain_outcome(ps, id, loaded_content(ps, fs, id).unwrap()) == Err::<
            Seq<u8>,
            ErrView,
        >(w),
        ErrView::Unresolved { specifier, importer } => match importer {
            Some(imp) => exists|m: int, e: int|
                0 <= m < ms.len() && 0 <= e < ms[m].imports@.len() && ms[m].id@ == imp && (
                #[trigger] ms[m].imports@[e]).specifier@ == specifier
                    && ms[m].imports@[e].resolved is None,
            None => false,
        },
        _ => false,
    }
}

/// Justification survives growing the graph and the discovery log.
proof fn lemma_justified_grow(
    ps: Seq<Plugin>,
    fs: FileStore,
    ms0: Seq<ModuleNode>,
    ms: Seq<ModuleNode>,
    vis0: Seq<Vec<u8>>,
    vis: Seq<Vec<u8>>,
    w: ErrView,
)
    requires
        warning_justified(ps, fs, ms0, vis0, w),
        ms0.len() <= ms.len(),
        forall|i: int| 0 <= i < ms0.len() ==> ms[i] == ms0[i],
        vis0.len() <= vis.len(),
        vis.take(vis0.len() as int) == vis0,
    ensures
        warning_justified(ps, fs, ms, vis, w),
{
    match w {
        ErrView::LoadFailed { id } => {
            lemma_has_bytes_prefix(vis, vis0, id);
        },
        ErrView::TransformFailed { id, .. } => {
            lemma_has_bytes_prefix(vis, vis0, id);
        },
        ErrView::Unresolved { specifier, importer } => {
            match importer {
                Some(imp) => {
                    let (m, e) = choose|m: int, e: int|
                        0 <= m < ms0.len() && 0 <= e < ms0[m].imports@.len() && ms0[m].id@ == imp
                            && (#[trigger] ms0[m].imports@[e]).specifier@ == specifier
                            && ms0[m].imports@[e].resolved is None;
                    assert(ms[m] == ms0[m]);
                    assert(0 <= m < ms.len() && 0 <= e < ms[m].imports@.len() && ms[m].id@ == imp
                        && ms[m].imports@[e].specifier@ == specifier && ms[m].imports@[e].resolved is None);
                },
                None => {},
            }
        },
        _ => {},
    }
}

/// Resolve one specifier: resolve hooks first (first result wins), then the
/// caching resolver.
fn resolve_one(
    driver: &PluginDriver,
    resolver: &mut Resolver,
    fs: &FileStore,
    specifier: &Vec<u8>,
    dir: &Vec<u8>,
) -> (r: Option<Vec<u8>>)
    requires
        coherent(*old(resolver), *fs),
    ensures
        coherent(*final(resolver), *fs),
        final(resolver).cwd == old(resolver).cwd,
        opt_bytes(r) == resolution_of(driver.plugins@, *fs, dir@, specifier@),
{
    match driver.resolve_hook(specifier) {
        Some(id) => Some(id),
        None => resolver.resolve(fs, specifier, dir),
    }
}

/// Scan the whole graph from the entry points.
pub fn scan(
    opts: &InputOptions,
    driver: &PluginDriver,
    fs: &FileStore,
    resolver: &mut Resolver,
) -> (out: ScanStageOutput)
    requires
        coherent(*old(resolver), *fs),
    ensures
        coherent(*final(resolver), *fs),
        final(resolver).cwd == old(resolver).cwd,
        views(out.entries@) == resolved_entries(
            driver.plugins@,
            *fs,
            opts.cwd@,
            views(opts.entries@),
        ),
        err_views(out.errors@) == entry_failures(
            driver.plugins@,
            *fs,
            opts.cwd@,
            views(opts.entries@),
        ),
        views(out.visited@).no_duplicates(),
        distinct_ids(out.modules@),
        forall|m: int| 0 <= m < out.modules@.len() ==> (#[trigger] out.modules@[m]).ord == m,
        forall|m: int|
            0 <= m < out.modules@.len() ==> node_ok(driver.plugins@, *fs, #[trigger] out.modules@[m]),
        forall|k: int|
            0 <= k < out.visited@.len() ==> (scan_ok(driver.plugins@, *fs, (#[trigger] out.visited@[k])@)
                <==> has_module(out.modules@, out.visited@[k]@)),
        forall|m: int, e: int|
            0 <= m < out.modules@.len() && 0 <= e < out.modules@[m].imports@.len() && (
            #[trigger] out.modules@[m].imports@[e]).resolved is Some ==> has_bytes(
                out.visited@,
                out.modules@[m].imports@[e].resolved.unwrap()@,
            ),
        forall|k: int|
            0 <= k < out.entries@.len() ==> has_bytes(out.visited@, (#[trigger] out.entries@[k])@),
        forall|w: int| 0 <= w < out.warnings@.len() ==> is_scan_warning((#[trigger] out.warnings@[w])@),
        forall|w: int|
            0 <= w < out.warnings@.len() ==> warning_justified(
                driver.plugins@,
                *fs,
                out.modules@,
                out.visited@,
                (#[trigger] out.warnings@[w])@,
            ),
        forall|k: int|
            0 <= k < out.visited@.len() && !scan_ok(driver.plugins@, *fs, (#[trigger] out.visited@[k])@)
                ==> has_module_failure(out.warnings@, out.visited@[k]@),
        forall|m: int|
            0 <= m < out.modules@.len() ==> has_bytes(out.visited@, (#[trigger] out.modules@[m]).id@),
        forall|k: int|
            0 <= k < out.visited@.len() ==> (has_bytes(out.entries@, (#[trigger] out.visited@[k])@)
                || exists|m: int, e: int|
                0 <= m < out.modules@.len() && 0 <= e < out.modules@[m].imports@.len() && (
                #[trigger] out.modules@[m].imports@[e]).resolved is Some
                    && out.modules@[m].imports@[e].resolved.unwrap()@ == out.visited@[k]@),
        forall|m: int|
            0 <= m < out.modules@.len() ==> (has_bytes(
                out.entries@,
                (#[trigger] out.modules@[m]).id@,
            ) || exists|m2: int, e: int|
                0 <= m2 < m && 0 <= e < out.modules@[m2].imports@.len() && (
                #[trigger] out.modules@[m2].imports@[e]).resolved is Some
                    && out.modules@[m2].imports@[e].resolved.unwrap()@ == out.modules@[m].id@),
        forall|m: int, e: int|
            0 <= m < out.modules@.len() && 0 <= e < out.modules@[m].imports@.len() && (
            #[trigger] out.modules@[m].imports@[e]).resolved is None ==> has_err(
                out.warnings@,
                ErrView::Unresolved {
                    specifier: out.modules@[m].imports@[e].specifier@,
                    importer: Some(out.modules@[m].id@),
                },
            ),
{
    let ghost ps = driver.plugins@;
    let mut modules: Vec<ModuleNode> = Vec::new();
    let mut entries: Vec<Vec<u8>> = Vec::new();
    let mut warnings: Vec<BuildError> = Vec::new();
    let mut errors: Vec<BuildError> = Vec::new();
    let mut visited: Vec<Vec<u8>> = Vec::new();
    proof {
        lemma_universe_finite(ps, *fs);
        assert(views(opts.entries@).skip(0) =~= views(opts.entries@));
        assert(views(entries@) =~= Seq::<Seq<u8>>::empty());
        assert(err_views(errors@) =~= Seq::<ErrView>::empty());
    }
    let mut e: usize = 0;
    while e < opts.entries.len()
        invariant
            e <= opts.entries.len(),
            coherent(*resolver, *fs),
            resolver.cwd == old(resolver).cwd,
            resolved_entries(ps, *fs, opts.cwd@, views(opts.entries@)) == views(entries@)
                + resolved_entries(ps, *fs, opts.cwd@, views(opts.entries@).skip(e as int)),
            entry_failures(ps, *fs, opts.cwd@, views(opts.entries@)) == err_views(errors@)
                + entry_failures(ps, *fs, opts.cwd@, views(opts.entries@).skip(e as int)),
            views(visited@).no_duplicates(),
            forall|k: int|
                0 <= k < visited@.len() ==> scan_universe(ps, *fs).contains(
                    (#[trigger] visited@[k])@,
                ),
            forall|k: int|
                0 <= k < entries@.len() ==> has_bytes(visited@, (#[trigger] entries@[k])@),
            forall|k: int|
                0 <= k < visited@.len() ==> has_bytes(entries@, (#[trigger] visited@[k])@),
        decreases opts.entries.len() - e,
    {
        let ghost pre = views(opts.entries@).skip(e as int);
        proof {
            assert(pre[0] == opts.entries@[e as int]@);
            assert(pre.drop_first() =~= views(opts.entries@).skip(e as int + 1));
        }
        let r = resolve_one(driver, resolver, fs, &opts.entries[e], &opts.cwd);
        match r {
            Some(id) => {
                proof {
                    lemma_resolution_in_universe(ps, *fs, opts.cwd@, opts.entries@[e as int]@);
                }
                let ghost vb = visited@;
                if !contains_bytes(&visited, &id) {
                    let cp = copy_bytes(&id);
                    proof {
                        assert forall|a: int, b: int|
                            0 <= a < b < views(visited@.push(cp)).len() implies views(
                            visited@.push(cp),
                        )[a] != views(visited@.push(cp))[b] by {
                            if b < visited@.len() {
                                assert(views(visited@)[a] != views(visited@)[b]);
                            } else {
                                assert(visited@[a]@ != id@);
                            }
                        }
                    }
                    visited.push(cp);
                    proof {
                        assert(visited@ =~= vb.push(visited@.last()));
                        assert forall|k: int|
                            0 <= k < entries@.len() implies has_bytes(
                            visited@,
                            (#[trigger] entries@[k])@,
                        ) by {
                            lemma_has_bytes_push(vb, visited@.last(), entries@[k]@);
                        }
                    }
                }
                proof {
                    assert(visited@[visited@.len() - 1]@ == visited@.last()@);
                    assert(has_bytes(visited@, id@));
                }
                let ghost eb = entries@;
                entries.push(id);
                proof {
                    assert forall|k: int|
                        0 <= k < visited@.len() implies has_bytes(
                        entries@,
                        (#[trigger] visited@[k])@,
                    ) by {
                        if k < vb.len() {
                            assert(visited@[k] == vb[k]);
                            assert(has_bytes(eb, vb[k]@));
                            lemma_has_bytes_push(eb, entries@.last(), vb[k]@);
                            assert(entries@ =~= eb.push(entries@.last()));
                        } else {
                            assert(visited@[k]@ == id@);
                            assert(entries@[entries@.len() - 1]@ == id@);
                        }
                    }
                    assert(views(entries@) =~= views(entries@.drop_last()).push(
                        entries@.last()@,
                    ));
                    assert(views(entries@.drop_last()).push(entries@.last()@) + resolved_entries(
                        ps,
                        *fs,
                        opts.cwd@,
                        pre.drop_first(),
                    ) =~= views(entries@.drop_last()) + (seq![entries@.last()@]
                        + resolved_entries(ps, *fs, opts.cwd@, pre.drop_first())));
                }
            },
            None => {
                errors.push(
                    BuildError::Unresolved {
                        specifier: copy_bytes(&opts.entries[e]),
                        importer: None,
                    },
                );
                proof {
                    assert(err_views(errors@) =~= err_views(errors@.drop_last()).push(
                        errors@.last()@,
                    ));
                    assert(err_views(errors@.drop_last()).push(errors@.last()@) + entry_failures(
                        ps,
                        *fs,
                        opts.cwd@,
                        pre.drop_first(),
                    ) =~= err_views(errors@.drop_last()) + (seq![errors@.last()@]
                        + entry_failures(ps, *fs, opts.cwd@, pre.drop_first())));
                }
            },
        }
        e = e + 1;
    }
    proof {
        assert(views(opts.entries@).skip(opts.entries@.len() as int) =~= Seq::<Seq<u8>>::empty());
        assert(views(entries@) + Seq::<Seq<u8>>::empty() =~= views(entries@));
        assert(err_views(errors@) + Seq::<ErrView>::empty() =~= err_views(errors@));
        lemma_visited_bound(views(visited@), scan_universe(ps, *fs));
    }
    let mut i: usize = 0;
    while i < visited.len()
        invariant
            i <= visited.len(),
            coherent(*resolver, *fs),
            resolver.cwd == old(resolver).cwd,
            scan_universe(ps, *fs).finite(),
            views(visited@).no_duplicates(),
            forall|k: int|
                0 <= k < visited@.len() ==> scan_universe(ps, *fs).contains(
                    (#[trigger] visited@[k])@,
                ),
            views(visited@).len() <= scan_universe(ps, *fs).len(),
            distinct_ids(modules@),
            forall|m: int| 0 <= m < modules@.len() ==> (#[trigger] modules@[m]).ord == m,
            forall|m: int| 0 <= m < modules@.len() ==> node_ok(ps, *fs, #[trigger] modules@[m]),
            forall|m: int|
                0 <= m < modules@.len() ==> exists|k: int|
                    0 <= k < i && visited@[k]@ == (#[trigger] modules@[m]).id@,
            forall|k: int|
                0 <= k < i ==> (scan_ok(ps, *fs, (#[trigger] visited@[k])@) <==> has_module(
                    modules@,
                    visited@[k]@,
                )),
            forall|m: int, e2: int|
                0 <= m < modules@.len() && 0 <= e2 < modules@[m].imports@.len() && (
                #[trigger] modules@[m].imports@[e2]).resolved is Some ==> has_bytes(
                    visited@,
                    modules@[m].imports@[e2].resolved.unwrap()@,
                ),
            forall|k: int|
                0 <= k < entries@.len() ==> has_bytes(visited@, (#[trigger] entries@[k])@),
            forall|w: int|
                0 <= w < warnings@.len() ==> is_scan_warning((#[trigger] warnings@[w])@),
            forall|w: int|
                0 <= w < warnings@.len() ==> warning_justified(
                    ps,
                    *fs,
                    modules@,
                    visited@,
                    (#[trigger] warnings@[w])@,
                ),
            forall|k: int|
                0 <= k < i && !scan_ok(ps, *fs, (#[trigger] visited@[k])@) ==> has_module_failure(
                    warnings@,
                    visited@[k]@,
                ),
            forall|m: int, e2: int|
                0 <= m < modules@.len() && 0 <= e2 < modules@[m].imports@.len() && (
                #[trigger] modules@[m].imports@[e2]).resolved is None ==> has_err(
                    warnings@,
                    ErrView::Unresolved {
                        specifier: modules@[m].imports@[e2].specifier@,
                        importer: Some(modules@[m].id@),
                    },
                ),
            forall|k: int|
                0 <= k < visited@.len() ==> (has_bytes(entries@, (#[trigger] visited@[k])@)
                    || exists|m: int, e2: int|
                    0 <= m < modules@.len() && 0 <= e2 < modules@[m].imports@.len() && (
                    #[trigger] modules@[m].imports@[e2]).resolved is Some
                        && modules@[m].imports@[e2].resolved.unwrap()@ == visited@[k]@),
            forall|m: int|
                0 <= m < modules@.len() ==> (has_bytes(
                    entries@,
                    (#[trigger] modules@[m]).id@,
                ) || exists|m2: int, e2: int|
                    0 <= m2 < m && 0 <= e2 < modules@[m2].imports@.len() && (
                    #[trigger] modules@[m2].imports@[e2]).resolved is Some
                        && modules@[m2].imports@[e2].resolved.unwrap()@ == modules@[m].id@),
        decreases
                scan_universe(ps, *fs).len() - views(visited@).len(),
                visited.len() - i,
    {
        let id = copy_bytes(&visited[i]);
        proof {
            assert forall|m: int| 0 <= m < modules@.len() implies (#[trigger] modules@[m]).id@
                != id@ by {
                let k = choose|k: int| 0 <= k < i && visited@[k]@ == modules@[m].id@;
                assert(views(visited@)[k] != views(visited@)[i as int]);
            }
            assert(!has_module(modules@, id@));
        }
        let lc = match driver.load_hook(&id) {
            Some(c) => Some(c),
            None => fs.read_file(&id),
        };
        proof {
            assert(opt_bytes(lc) == loaded_content(ps, *fs, id@));
        }
        match lc {
            None => {
                proof {
                    assert(!scan_ok(ps, *fs, id@));
                }
                let ghost wb = warnings@;
                warnings.push(BuildError::LoadFailed { id });
                proof {
                    assert(warnings@.take(wb.len() as int) =~= wb);
                    assert(warnings@[warnings@.len() - 1]@ == ErrView::LoadFailed { id: id@ });
                    assert(has_bytes(visited@, id@));
                    assert forall|w: int|
                        0 <= w < warnings@.len() implies warning_justified(
                        ps,
                        *fs,
                        modules@,
                        visited@,
                        (#[trigger] warnings@[w])@,
                    ) by {
                        if w < wb.len() {
                            assert(warnings@[w] == wb[w]);
                        }
                    }
                    assert(names_module_failure(
                        warnings@[warnings@.len() - 1]@,
                        visited@[i as int]@,
                    ));
                    assert forall|k: int|
                        0 <= k < i + 1 && !scan_ok(ps, *fs, (#[trigger] visited@[k])@) implies has_module_failure(
                        warnings@,
                        visited@[k]@,
                    ) by {
                        if k < i {
                            lemma_failure_prefix(warnings@, wb, visited@[k]@);
                        }
                    }
                    assert forall|m: int, e2: int|
                        0 <= m < modules@.len() && 0 <= e2 < modules@[m].imports@.len() && (
                        #[trigger] modules@[m].imports@[e2]).resolved is None implies has_err(
                        warnings@,
                        ErrView::Unresolved {
                            specifier: modules@[m].imports@[e2].specifier@,
                            importer: Some(modules@[m].id@),
                        },
                    ) by {
                        lemma_err_prefix(
                            warnings@,
                            wb,
                            ErrView::Unresolved {
                                specifier: modules@[m].imports@[e2].specifier@,
                                importer: Some(modules@[m].id@),
                            },
                        );
                    }
                }
            },
            Some(c0) => {
                let ghost c0v: Seq<u8> = c0@;
                match driver.transform_chain(&id, c0) {
                    Err(err) => {
                        proof {
                            lemma_chain_err_kind(ps, id@, c0v);
                            assert(!scan_ok(ps, *fs, id@));
                            assert(names_module_failure(err@, id@));
                        }
                        let ghost wb = warnings@;
                        warnings.push(err);
                        proof {
                            assert(warnings@.take(wb.len() as int) =~= wb);
                            assert(names_module_failure(
                                warnings@[warnings@.len() - 1]@,
                                visited@[i as int]@,
                            ));
                            assert(has_bytes(visited@, id@));
                            assert(loaded_content(ps, *fs, id@) == Some(c0v));
                            assert(chain_outcome(ps, id@, c0v) == Err::<Seq<u8>, ErrView>(err@));
                            assert(warning_justified(ps, *fs, modules@, visited@, err@));
                            assert forall|w: int|
                                0 <= w < warnings@.len() implies warning_justified(
                                ps,
                                *fs,
                                modules@,
                                visited@,
                                (#[trigger] warnings@[w])@,
                            ) by {
                                if w < wb.len() {
                                    assert(warnings@[w] == wb[w]);
                                }
                            }
                            assert forall|k: int|
                                0 <= k < i + 1 && !scan_ok(ps, *fs, (#[trigger] visited@[k])@) implies has_module_failure(
                                warnings@,
                                visited@[k]@,
                            ) by {
                                if k < i {
                                    lemma_failure_prefix(warnings@, wb, visited@[k]@);
                                }
                            }
                            assert forall|m: int, e2: int|
                                0 <= m < modules@.len() && 0 <= e2 < modules@[m].imports@.len() && (
                                #[trigger] modules@[m].imports@[e2]).resolved is None implies has_err(
                                warnings@,
                                ErrView::Unresolved {
                                    specifier: modules@[m].imports@[e2].specifier@,
                                    importer: Some(modules@[m].id@),
                                },
                            ) by {
                                lemma_err_prefix(
                                    warnings@,
                                    wb,
                                    ErrView::Unresolved {
                                        specifier: modules@[m].imports@[e2].specifier@,
                                        importer: Some(modules@[m].id@),
                                    },
                                );
                            }
                        }
                    },
                    Ok(content) => {
                        let specs = extract_imports(&content);
                        let idir = dir_name(&id);
                        let mut imports: Vec<ImportRecord> = Vec::new();
                        let ghost vis0 = visited@;
                        let ghost w0 = warnings@;
                        let mut t: usize = 0;
                        while t < specs.len()
                            invariant
                                t <= specs.len(),
                                w0.len() <= warnings@.len(),
                                warnings@.take(w0.len() as int) == w0,
                                forall|e2: int|
                                    0 <= e2 < t && (#[trigger] imports@[e2]).resolved is None
                                        ==> has_err(
                                        warnings@,
                                        ErrView::Unresolved {
                                            specifier: imports@[e2].specifier@,
                                            importer: Some(id@),
                                        },
                                    ),
                                forall|kk: int|
                                    vis0.len() <= kk < visited@.len() ==> exists|e2: int|
                                        0 <= e2 < t && (#[trigger] imports@[e2]).resolved is Some
                                            && imports@[e2].resolved.unwrap()@ == (
                                        #[trigger] visited@[kk])@,
                                forall|w: int|
                                    w0.len() <= w < warnings@.len() ==> exists|e2: int|
                                        0 <= e2 < t && (#[trigger] warnings@[w])@
                                            == (ErrView::Unresolved {
                                            specifier: (#[trigger] imports@[e2]).specifier@,
                                            importer: Some(id@),
                                        }) && imports@[e2].resolved is None,
                                coherent(*resolver, *fs),
                                resolver.cwd == old(resolver).cwd,
                                views(specs@) == import_list(content@),
                                idir@ == dir_of(id@),
                                visited@.len() >= vis0.len(),
                                visited@.take(vis0.len() as int) == vis0,
                                views(visited@).no_duplicates(),
                                forall|k: int|
                                    0 <= k < visited@.len() ==> scan_universe(ps, *fs).contains(
                                        (#[trigger] visited@[k])@,
                                    ),
                                views(visited@).len() <= scan_universe(ps, *fs).len(),
                                imports@.len() == t,
                                forall|e2: int|
                                    0 <= e2 < t ==> (#[trigger] imports@[e2]).specifier@
                                        == specs@[e2]@,
                                forall|e2: int|
                                    0 <= e2 < t ==> opt_bytes((#[trigger] imports@[e2]).resolved)
                                        == resolution_of(ps, *fs, idir@, specs@[e2]@),
                                forall|e2: int|
                                    0 <= e2 < t && (#[trigger] imports@[e2]).resolved is Some
                                        ==> has_bytes(
                                        visited@,
                                        imports@[e2].resolved.unwrap()@,
                                    ),
                                forall|w: int|
                                    0 <= w < warnings@.len() ==> is_scan_warning(
                                        (#[trigger] warnings@[w])@,
                                    ),
                            decreases specs.len() - t,
                        {
                            let ghost vpre = visited@;
                            let ghost imp0 = imports@;
                            let r = resolve_one(driver, resolver, fs, &specs[t], &idir);
                            match r {
                                Some(tid) => {
                                    proof {
                                        lemma_resolution_in_universe(
                                            ps,
                                            *fs,
                                            idir@,
                                            specs@[t as int]@,
                                        );
                                    }
                                    if !contains_bytes(&visited, &tid) {
                                        let cp = copy_bytes(&tid);
                                        proof {
                                            assert forall|a: int, b: int|
                                                0 <= a < b < views(visited@.push(cp)).len() implies views(
                                                visited@.push(cp),
                                            )[a] != views(visited@.push(cp))[b] by {
                                                if b < visited@.len() {
                                                    assert(views(visited@)[a] != views(
                                                        visited@,
                                                    )[b]);
                                                } else {
                                                    assert(visited@[a]@ != tid@);
                                                }
                                            }
                                        }
                                        visited.push(cp);
                                        proof {
                                            assert(visited@.take(vis0.len() as int) =~= vis0);
                                            lemma_visited_bound(
                                                views(visited@),
                                                scan_universe(ps, *fs),
                                            );
                                            assert(visited@.last()@ == tid@);
                                            assert(has_bytes(visited@, tid@));
                                            assert forall|e2: int|
                                                0 <= e2 < t && (
                                                #[trigger] imports@[e2]).resolved is Some implies has_bytes(
                                                visited@,
                                                imports@[e2].resolved.unwrap()@,
                                            ) by {
                                                lemma_has_bytes_push(
                                                    vpre,
                                                    visited@.last(),
                                                    imports@[e2].resolved.unwrap()@,
                                                );
                                                assert(visited@ =~= vpre.push(visited@.last()));
                                            }
                                        }
                                    }
                                    imports.push(
                                        ImportRecord {
                                            specifier: copy_bytes(&specs[t]),
                                            resolved: Some(tid),
                                        },
                                    );
                                    proof {
                                        assert forall|w: int|
                                            w0.len() <= w < warnings@.len() implies exists|e2: int|
                                            0 <= e2 < t + 1 && (#[trigger] warnings@[w])@
                                                == (ErrView::Unresolved {
                                                specifier: (#[trigger] imports@[e2]).specifier@,
                                                importer: Some(id@),
                                            }) && imports@[e2].resolved is None by {
                                            let e2 = choose|e2: int|
                                                0 <= e2 < t && warnings@[w]@ == (ErrView::Unresolved {
                                                    specifier: (#[trigger] imp0[e2]).specifier@,
                                                    importer: Some(id@),
                                                }) && imp0[e2].resolved is None;
                                            assert(imports@[e2] == imp0[e2]);
                                        }
                                    }
                                },
                                None => {
                                    let ghost wb = warnings@;
                                    warnings.push(
                                        BuildError::Unresolved {
                                            specifier: copy_bytes(&specs[t]),
                                            importer: Some(copy_bytes(&id)),
                                        },
                                    );
                                    imports.push(
                                        ImportRecord {
                                            specifier: copy_bytes(&specs[t]),
                                            resolved: None,
                                        },
                                    );
                                    proof {
                                        assert(warnings@.take(wb.len() as int) =~= wb);
                                        assert(warnings@.take(w0.len() as int) =~= w0);
                                        assert(warnings@[warnings@.len() - 1]@
                                            == ErrView::Unresolved {
                                            specifier: specs@[t as int]@,
                                            importer: Some(id@),
                                        });
                                        assert forall|w: int|
                                            w0.len() <= w < warnings@.len() implies exists|e2: int|
                                            0 <= e2 < t + 1 && (#[trigger] warnings@[w])@
                                                == (ErrView::Unresolved {
                                                specifier: (#[trigger] imports@[e2]).specifier@,
                                                importer: Some(id@),
                                            }) && imports@[e2].resolved is None by {
                                            if w < warnings@.len() - 1 {
                                                let e2 = choose|e2: int|
                                                    0 <= e2 < t && wb[w]@ == (ErrView::Unresolved {
                                                        specifier: (
                                                        #[trigger] imp0[e2]).specifier@,
                                                        importer: Some(id@),
                                                    }) && imp0[e2].resolved is None;
                                                assert(warnings@[w] == wb[w]);
                                                assert(imports@[e2] == imp0[e2]);
                                            } else {
                                                assert((imports@[t as int]).specifier@
                                                    == specs@[t as int]@);
                                                assert(imports@[t as int].resolved is None);
                                            }
                                        }
                                        assert forall|e2: int|
                                            0 <= e2 < t + 1 && (
                                            #[trigger] imports@[e2]).resolved is None implies has_err(
                                            warnings@,
                                            ErrView::Unresolved {
                                                specifier: imports@[e2].specifier@,
                                                importer: Some(id@),
                                            },
                                        ) by {
                                            if e2 < t {
                                                assert(imports@[e2] == imports@.drop_last()[e2]);
                                                lemma_err_prefix(
                                                    warnings@,
                                                    wb,
                                                    ErrView::Unresolved {
                                                        specifier: imports@[e2].specifier@,
                                                        importer: Some(id@),
                                                    },
                                                );
                                            } else {
                                                assert(imports@[e2].specifier@
                                                    == specs@[t as int]@);
                                            }
                                        }
                                    }
                                },
                            }
                            proof {
                                assert forall|kk: int|
                                    vis0.len() <= kk < visited@.len() implies exists|e2: int|
                                    0 <= e2 < t + 1 && (#[trigger] imports@[e2]).resolved is Some
                                        && imports@[e2].resolved.unwrap()@ == (
                                    #[trigger] visited@[kk])@ by {
                                    if kk < vpre.len() {
                                        let e2 = choose|e2: int|
                                            0 <= e2 < t && (#[trigger] imp0[e2]).resolved is Some
                                                && imp0[e2].resolved.unwrap()@ == vpre[kk]@;
                                        assert(imports@[e2] == imp0[e2]);
                                        assert(visited@[kk] == vpre[kk]);
                                    } else {
                                        assert((imports@[t as int]).resolved is Some);
                                        assert(imports@[t as int].resolved.unwrap()@
                                            == visited@[kk]@);
                                    }
                                }
                            }
                            t = t + 1;
                        }
                        let ord = modules.len();
                        let node = ModuleNode { id, ord, content, imports };
                        proof {
                            assert forall|e2: int|
                                0 <= e2 < node.imports@.len() implies (
                            #[trigger] node.imports@[e2]).specifier@ == import_list(
                                node.content@,
                            )[e2] by {
                                assert(views(specs@)[e2] == specs@[e2]@);
                            }
                            assert(node_ok(ps, *fs, node));
                            assert(visited@[i as int] == vis0[i as int]);
                            assert(visited@[i as int]@ == node.id@);
                        }
                        let ghost ms0 = modules@;
                        modules.push(node);
                        proof {
                            let ms = modules@;
                            assert(ms.drop_last() =~= ms0);
                            assert forall|k: int|
                                0 <= k < i + 1 && !scan_ok(ps, *fs, (#[trigger] visited@[k])@) implies has_module_failure(
                                warnings@,
                                visited@[k]@,
                            ) by {
                                assert(visited@[k] == vis0[k]);
                                if k < i {
                                    assert(has_module_failure(w0, visited@[k]@));
                                    lemma_failure_prefix(warnings@, w0, visited@[k]@);
                                } else {
                                    assert(scan_ok(ps, *fs, visited@[k]@));
                                }
                            }
                            assert forall|k: int|
                                0 <= k < visited@.len() implies (has_bytes(
                                entries@,
                                (#[trigger] visited@[k])@,
                            ) || exists|m: int, e2: int|
                                0 <= m < ms.len() && 0 <= e2 < ms[m].imports@.len() && (
                            #[trigger] ms[m].imports@[e2]).resolved is Some
                                && ms[m].imports@[e2].resolved.unwrap()@ == visited@[k]@) by {
                                if k < vis0.len() {
                                    assert(visited@[k] == vis0[k]);
                                    if !has_bytes(entries@, visited@[k]@) {
                                        let (m2, e3) = choose|m2: int, e3: int|
                                            0 <= m2 < ms0.len() && 0 <= e3
                                                < ms0[m2].imports@.len() && (
                                            #[trigger] ms0[m2].imports@[e3]).resolved is Some
                                                && ms0[m2].imports@[e3].resolved.unwrap()@
                                                == vis0[k]@;
                                        assert(ms[m2] == ms0[m2]);
                                        assert((ms[m2].imports@[e3]).resolved is Some
                                            && ms[m2].imports@[e3].resolved.unwrap()@
                                            == visited@[k]@);
                                    }
                                } else {
                                    let e3 = choose|e3: int|
                                        0 <= e3 < node.imports@.len() && (
                                        #[trigger] node.imports@[e3]).resolved is Some
                                            && node.imports@[e3].resolved.unwrap()@
                                            == visited@[k]@;
                                    assert(ms[ms.len() - 1].imports@[e3] == node.imports@[e3]);
                                    assert((ms[ms.len() - 1].imports@[e3]).resolved is Some
                                        && ms[ms.len() - 1].imports@[e3].resolved.unwrap()@
                                        == visited@[k]@);
                                }
                            }
                            assert forall|m: int|
                                0 <= m < ms.len() implies (has_bytes(
                                entries@,
                                (#[trigger] ms[m]).id@,
                            ) || exists|m2: int, e2: int|
                                0 <= m2 < m && 0 <= e2 < ms[m2].imports@.len() && (
                            #[trigger] ms[m2].imports@[e2]).resolved is Some
                                && ms[m2].imports@[e2].resolved.unwrap()@ == ms[m].id@) by {
                                if m < ms.len() - 1 {
                                    assert(ms[m] == ms0[m]);
                                    if !has_bytes(entries@, ms0[m].id@) {
                                        let (m2, e2) = choose|m2: int, e2: int|
                                            0 <= m2 < m && 0 <= e2 < ms0[m2].imports@.len() && (
                                            #[trigger] ms0[m2].imports@[e2]).resolved is Some
                                                && ms0[m2].imports@[e2].resolved.unwrap()@
                                                == ms0[m].id@;
                                        assert(ms[m2] == ms0[m2]);
                                        assert((ms[m2].imports@[e2]).resolved is Some
                                            && ms[m2].imports@[e2].resolved.unwrap()@
                                            == ms[m].id@);
                                    }
                                } else {
                                    assert(ms[m].id@ == vis0[i as int]@);
                                    if !has_bytes(entries@, ms[m].id@) {
                                        let (m2, e2) = choose|m2: int, e2: int|
                                            0 <= m2 < ms0.len() && 0 <= e2
                                                < ms0[m2].imports@.len() && (
                                            #[trigger] ms0[m2].imports@[e2]).resolved is Some
                                                && ms0[m2].imports@[e2].resolved.unwrap()@
                                                == vis0[i as int]@;
                                        assert(ms[m2] == ms0[m2]);
                                        assert(0 <= m2 < m);
                                        assert((ms[m2].imports@[e2]).resolved is Some
                                            && ms[m2].imports@[e2].resolved.unwrap()@
                                            == ms[m].id@);
                                    }
                                }
                            }
                            assert forall|w: int|
                                0 <= w < warnings@.len() implies warning_justified(
                                ps,
                                *fs,
                                ms,
                                visited@,
                                (#[trigger] warnings@[w])@,
                            ) by {
                                if w < w0.len() {
                                    assert(warnings@[w] == warnings@.take(w0.len() as int)[w]);
                                    assert(warning_justified(ps, *fs, ms0, vis0, w0[w]@));
                                    lemma_justified_grow(ps, *fs, ms0, ms, vis0, visited@, w0[w]@);
                                } else {
                                    let e2 = choose|e2: int|
                                        0 <= e2 < node.imports@.len() && warnings@[w]@
                                            == (ErrView::Unresolved {
                                            specifier: (
                                            #[trigger] node.imports@[e2]).specifier@,
                                            importer: Some(id@),
                                        }) && node.imports@[e2].resolved is None;
                                    assert(ms[ms.len() - 1].imports@[e2] == node.imports@[e2]);
                                    assert(ms[ms.len() - 1].id@ == id@);
                                }
                            }
                            assert forall|m: int, e2: int|
                                0 <= m < ms.len() && 0 <= e2 < ms[m].imports@.len() && (
                            #[trigger] ms[m].imports@[e2]).resolved is None implies has_err(
                                warnings@,
                                ErrView::Unresolved {
                                    specifier: ms[m].imports@[e2].specifier@,
                                    importer: Some(ms[m].id@),
                                },
                            ) by {
                                if m < ms.len() - 1 {
                                    assert(ms[m] == ms0[m]);
                                    lemma_err_prefix(
                                        warnings@,
                                        w0,
                                        ErrView::Unresolved {
                                            specifier: ms[m].imports@[e2].specifier@,
                                            importer: Some(ms[m].id@),
                                        },
                                    );
                                } else {
                                    assert(ms[m].imports@[e2].resolved is None ==> has_err(
                                        warnings@,
                                        ErrView::Unresolved {
                                            specifier: ms[m].imports@[e2].specifier@,
                                            importer: Some(id@),
                                        },
                                    ));
                                }
                            }
                            assert forall|k: int|
                                0 <= k < entries@.len() implies has_bytes(
                                visited@,
                                (#[trigger] entries@[k])@,
                            ) by {
                                lemma_has_bytes_prefix(visited@, vis0, entries@[k]@);
                            }
                            assert forall|m: int, e2: int|
                                0 <= m < ms.len() && 0 <= e2 < ms[m].imports@.len() && (
                            #[trigger] ms[m].imports@[e2]).resolved is Some implies has_bytes(
                                visited@,
                                ms[m].imports@[e2].resolved.unwrap()@,
                            ) by {
                                if m < ms.len() - 1 {
                                    assert(ms[m] == ms0[m]);
                                    lemma_has_bytes_prefix(
                                        visited@,
                                        vis0,
                                        ms[m].imports@[e2].resolved.unwrap()@,
                                    );
                                }
                            }
                            assert forall|m: int|
                                0 <= m < ms.len() implies exists|k: int|
                                0 <= k < i + 1 && visited@[k]@ == (#[trigger] ms[m]).id@ by {
                                if m < ms.len() - 1 {
                                    let k = choose|k: int|
                                        0 <= k < i && vis0[k]@ == ms0[m].id@;
                                    assert(visited@[k] == vis0[k]);
                                    assert(visited@[k]@ == ms[m].id@);
                                } else {
                                    assert(visited@[i as int]@ == ms[m].id@);
                                }
                            }
                            assert forall|k: int|
                                0 <= k < i + 1 implies (scan_ok(
                                ps,
                                *fs,
                                (#[trigger] visited@[k])@,
                            ) <==> has_module(ms, visited@[k]@)) by {
                                assert(visited@[k] == vis0[k]);
                                if k < i {
                                    if scan_ok(ps, *fs, visited@[k]@) {
                                        assert(has_module(ms0, visited@[k]@));
                                        let m = choose|m: int|
                                            0 <= m < ms0.len() && ms0[m].id@ == visited@[k]@;
                                        assert(ms[m].id@ == visited@[k]@);
                                    } else {
                                        if has_module(ms, visited@[k]@) {
                                            let m = choose|m: int|
                                                0 <= m < ms.len() && ms[m].id@ == visited@[k]@;
                                            if m < ms.len() - 1 {
                                                assert(ms0[m].id@ == visited@[k]@);
                                                assert(has_module(ms0, visited@[k]@));
                                            } else {
                                                assert(views(visited@)[k] != views(
                                                    visited@,
                                                )[i as int]);
                                            }
                                            assert(false);
                                        }
                                    }
                                } else {
                                    assert(scan_ok(ps, *fs, visited@[k]@));
                                    assert(ms[ms.len() - 1].id@ == visited@[i as int]@);
                                }
                            }
                        }
                    },
                }
            },
        }
        i = i + 1;
    }
    ScanStageOutput { modules, entries, warnings, errors, visited }
}

} // verus!
