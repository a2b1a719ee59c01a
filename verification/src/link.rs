//! The link stage: freezes the scanned graph into a deterministically ordered
//! representation. Modules are ordered canonically by their discovery number
//! (never by the order the scan happened to complete them in), every resolved
//! import is bound to the node that satisfies it or reported as a structured
//! failure, and reachability from the entry points is computed for dead-code
//! elimination. Linking never silently drops a module.
use vstd::prelude::*;
use vstd::seq_lib::group_to_multiset_ensures;
use vstd::multiset::Multiset;
use crate::bytes::{copy_bytes, contains_bytes, views};
use crate::errors::{err_views, BuildError, ErrView};
use crate::graph::{distinct_ids, distinct_ords, has_module, ImportRecord, ModuleNode};
use crate::scan::ScanStageOutput;

verus! {

/// The immutable result of linking, owned by the orchestrator between a
/// successful build and later generate/write calls. `graph` is the canonically
/// ordered module table; `deps[i]` are the bound import targets of `graph[i]`;
/// `included[i]` is its reachability marker.
pub struct LinkStageOutput {
    pub graph: Vec<ModuleNode>,
    pub deps: Vec<Vec<Vec<u8>>>,
    pub included: Vec<bool>,
    pub entries: Vec<Vec<u8>>,
    pub warnings: Vec<BuildError>,
}

/// Strictly increasing discovery numbers.
pub open spec fn strict_by_ord(ms: Seq<ModuleNode>) -> bool {
    forall|a: int, b: int| 0 <= a < b < ms.len() ==> ms[a].ord < ms[b].ord
}

pub open spec fn sorted_leq(ms: Seq<ModuleNode>) -> bool {
    forall|a: int, b: int| 0 <= a < b < ms.len() ==> ms[a].ord <= ms[b].ord
}

/// First index holding a module identifier, or -1.
pub open spec fn find_mod(ms: Seq<ModuleNode>, id: Seq<u8>) -> int
    decreases ms.len(),
{
    if ms.len() == 0 {
        -1
    } else if ms[0].id@ == id {
        0
    } else {
        let r = find_mod(ms.drop_first(), id);
        if r == -1 {
            -1
        } else {
            r + 1
        }
    }
}

pub proof fn lemma_find_mod(ms: Seq<ModuleNode>, id: Seq<u8>)
    ensures
        -1 <= find_mod(ms, id) < ms.len(),
        find_mod(ms, id) >= 0 ==> ms[find_mod(ms, id)].id@ == id,
        (find_mod(ms, id) == -1) <==> !has_module(ms, id),
    decreases ms.len(),
{
    if ms.len() == 0 {
    } else if ms[0].id@ == id {
    } else {
        lemma_find_mod(ms.drop_first(), id);
        if find_mod(ms.drop_first(), id) == -1 {
            if has_module(ms, id) {
                let k = choose|k: int| 0 <= k < ms.len() && ms[k].id@ == id;
                assert(ms.drop_first()[k - 1].id@ == id);
            }
        } else {
            assert(ms.drop_first()[find_mod(ms.drop_first(), id)].id@ == id);
        }
    }
}

/// The import targets of a node that are bound by the graph: the resolved
/// identifiers whose module exists, in import order.
pub open spec fn bound_targets(imports: Seq<ImportRecord>, ms: Seq<ModuleNode>) -> Seq<Seq<u8>>
    decreases imports.len(),
{
    if imports.len() == 0 {
        Seq::empty()
    } else {
        (match imports[0].resolved {
            Some(t) => if has_module(ms, t@) {
                seq![t@]
            } else {
                Seq::empty()
            },
            None => Seq::empty(),
        }) + bound_targets(imports.drop_first(), ms)
    }
}

/// Binding failures of one node: resolved imports whose target module never
/// made it into the graph.
pub open spec fn node_failures(
    imports: Seq<ImportRecord>,
    importer: Seq<u8>,
    ms: Seq<ModuleNode>,
) -> Seq<ErrView>
    decreases imports.len(),
{
    if imports.len() == 0 {
        Seq::empty()
    } else {
        (match imports[0].resolved {
            Some(t) => if has_module(ms, t@) {
                Seq::empty()
            } else {
                seq![
                    ErrView::UnboundImport {
                        importer: importer,
                        specifier: imports[0].specifier@,
                        target: t@,
                    },
                ]
            },
            None => Seq::empty(),
        }) + node_failures(imports.drop_first(), importer, ms)
    }
}

/// All binding failures of the graph from position `k` on, in canonical order.
pub open spec fn all_failures(ms: Seq<ModuleNode>, k: int) -> Seq<ErrView>
    decreases ms.len() - k,
{
    if k < 0 || k >= ms.len() {
        Seq::empty()
    } else {
        node_failures(ms[k].imports@, ms[k].id@, ms) + all_failures(ms, k + 1)
    }
}

/// Every binding failure of one node names an actual unbound resolved edge.
pub proof fn lemma_node_failures_real(
    imports: Seq<ImportRecord>,
    importer: Seq<u8>,
    ms: Seq<ModuleNode>,
)
    ensures
        forall|j: int|
            0 <= j < node_failures(imports, importer, ms).len() ==> exists|e: int|
                0 <= e < imports.len() && (#[trigger] imports[e]).resolved is Some && !has_module(
                    ms,
                    imports[e].resolved.unwrap()@,
                ) && #[trigger] node_failures(imports, importer, ms)[j] == (ErrView::UnboundImport {
                    importer: importer,
                    specifier: imports[e].specifier@,
                    target: imports[e].resolved.unwrap()@,
                }),
    decreases imports.len(),
{
    if imports.len() == 0 {
    } else {
        lemma_node_failures_real(imports.drop_first(), importer, ms);
        let nf = node_failures(imports, importer, ms);
        let rest = node_failures(imports.drop_first(), importer, ms);
        let hd = nf.len() - rest.len();
        assert forall|j: int| 0 <= j < nf.len() implies exists|e: int|
            0 <= e < imports.len() && (#[trigger] imports[e]).resolved is Some && !has_module(
                ms,
                imports[e].resolved.unwrap()@,
            ) && #[trigger] nf[j] == (ErrView::UnboundImport {
                importer: importer,
                specifier: imports[e].specifier@,
                target: imports[e].resolved.unwrap()@,
            }) by {
            if j < hd {
                assert((imports[0]).resolved is Some);
                assert(!has_module(ms, imports[0].resolved.unwrap()@));
                assert(nf[j] == (ErrView::UnboundImport {
                    importer: importer,
                    specifier: imports[0].specifier@,
                    target: imports[0].resolved.unwrap()@,
                }));
            } else {
                assert(nf[j] == rest[j - hd]);
                let e = choose|e: int|
                    0 <= e < imports.drop_first().len() && (
                    #[trigger] imports.drop_first()[e]).resolved is Some && !has_module(
                        ms,
                        imports.drop_first()[e].resolved.unwrap()@,
                    ) && rest[j - hd] == (ErrView::UnboundImport {
                        importer: importer,
                        specifier: imports.drop_first()[e].specifier@,
                        target: imports.drop_first()[e].resolved.unwrap()@,
                    });
                assert(imports[e + 1] == imports.drop_first()[e]);
            }
        }
    }
}

/// Every binding failure of the graph names an actual unbound resolved edge.
pub proof fn lemma_all_failures_real(ms: Seq<ModuleNode>, k: int)
    ensures
        forall|j: int|
            0 <= j < all_failures(ms, k).len() ==> exists|m: int, e: int|
                0 <= m < ms.len() && 0 <= e < ms[m].imports@.len() && (
                #[trigger] ms[m].imports@[e]).resolved is Some && !has_module(
                    ms,
                    ms[m].imports@[e].resolved.unwrap()@,
                ) && #[trigger] all_failures(ms, k)[j] == (ErrView::UnboundImport {
                    importer: ms[m].id@,
                    specifier: ms[m].imports@[e].specifier@,
                    target: ms[m].imports@[e].resolved.unwrap()@,
                }),
    decreases ms.len() - k,
{
    if k < 0 || k >= ms.len() {
    } else {
        lemma_all_failures_real(ms, k + 1);
        lemma_node_failures_real(ms[k].imports@, ms[k].id@, ms);
        let af = all_failures(ms, k);
        let hd = node_failures(ms[k].imports@, ms[k].id@, ms);
        let rest = all_failures(ms, k + 1);
        assert forall|j: int| 0 <= j < af.len() implies exists|m: int, e: int|
            0 <= m < ms.len() && 0 <= e < ms[m].imports@.len() && (
            #[trigger] ms[m].imports@[e]).resolved is Some && !has_module(
                ms,
                ms[m].imports@[e].resolved.unwrap()@,
            ) && #[trigger] af[j] == (ErrView::UnboundImport {
                importer: ms[m].id@,
                specifier: ms[m].imports@[e].specifier@,
                target: ms[m].imports@[e].resolved.unwrap()@,
            }) by {
            if j < hd.len() {
                assert(af[j] == hd[j]);
                let e = choose|e: int|
                    0 <= e < ms[k].imports@.len() && (#[trigger] ms[k].imports@[e]).resolved is Some
                        && !has_module(ms, ms[k].imports@[e].resolved.unwrap()@) && hd[j] == (
                    ErrView::UnboundImport {
                        importer: ms[k].id@,
                        specifier: ms[k].imports@[e].specifier@,
                        target: ms[k].imports@[e].resolved.unwrap()@,
                    });
                assert(0 <= k < ms.len());
            } else {
                assert(af[j] == rest[j - hd.len()]);
            }
        }
    }
}

/// Initial reachability: exactly the entry modules.
pub open spec fn seed_marks(ms: Seq<ModuleNode>, ev: Seq<Seq<u8>>) -> Seq<bool> {
    Seq::new(ms.len(), |i: int| ev.contains(ms[i].id@))
}

/// Mark the target of one import, when it resolved into the graph.
pub open spec fn mark_one(ms: Seq<ModuleNode>, marks: Seq<bool>, t: Option<Vec<u8>>) -> Seq<
    bool,
> {
    match t {
        Some(v) => if find_mod(ms, v@) >= 0 {
            marks.update(find_mod(ms, v@), true)
        } else {
            marks
        },
        None => marks,
    }
}

/// Mark the targets of a node's imports, in order.
pub open spec fn mark_imports(
    ms: Seq<ModuleNode>,
    marks: Seq<bool>,
    imports: Seq<ImportRecord>,
) -> Seq<bool>
    decreases imports.len(),
{
    if imports.len() == 0 {
        marks
    } else {
        mark_imports(ms, mark_one(ms, marks, imports[0].resolved), imports.drop_first())
    }
}

/// One marking pass over the first `j` modules, in canonical order.
pub open spec fn pass_upto(ms: Seq<ModuleNode>, marks: Seq<bool>, j: int) -> Seq<bool>
    decreases j,
{
    if j <= 0 {
        marks
    } else {
        let m2 = pass_upto(ms, marks, j - 1);
        if m2[j - 1] {
            mark_imports(ms, m2, ms[j - 1].imports@)
        } else {
            m2
        }
    }
}

/// `n` full passes; `ms.len()` passes reach the fixpoint on any graph,
/// cyclic imports included.
pub open spec fn rounds(ms: Seq<ModuleNode>, ev: Seq<Seq<u8>>, n: nat) -> Seq<bool>
    decreases n,
{
    if n == 0 {
        seed_marks(ms, ev)
    } else {
        pass_upto(ms, rounds(ms, ev, (n - 1) as nat), ms.len() as int)
    }
}

/// The reachability markers of the linked graph.
pub open spec fn marks_spec(ms: Seq<ModuleNode>, ev: Seq<Seq<u8>>) -> Seq<bool> {
    rounds(ms, ev, ms.len())
}

pub proof fn lemma_mark_imports_len(ms: Seq<ModuleNode>, marks: Seq<bool>, imports: Seq<ImportRecord>)
    requires
        marks.len() == ms.len(),
    ensures
        mark_imports(ms, marks, imports).len() == marks.len(),
    decreases imports.len(),
{
    if imports.len() == 0 {
    } else {
        match imports[0].resolved {
            Some(v) => {
                lemma_find_mod(ms, v@);
            },
            None => {},
        }
        assert(mark_one(ms, marks, imports[0].resolved).len() == marks.len());
        lemma_mark_imports_len(ms, mark_one(ms, marks, imports[0].resolved), imports.drop_first());
    }
}

pub proof fn lemma_pass_upto_len(ms: Seq<ModuleNode>, marks: Seq<bool>, j: int)
    requires
        marks.len() == ms.len(),
    ensures
        pass_upto(ms, marks, j).len() == marks.len(),
    decreases j,
{
    if j <= 0 {
    } else {
        lemma_pass_upto_len(ms, marks, j - 1);
        if pass_upto(ms, marks, j - 1)[j - 1] {
            lemma_mark_imports_len(ms, pass_upto(ms, marks, j - 1), ms[j - 1].imports@);
        }
    }
}

pub proof fn lemma_rounds_len(ms: Seq<ModuleNode>, ev: Seq<Seq<u8>>, n: nat)
    ensures
        rounds(ms, ev, n).len() == ms.len(),
    decreases n,
{
    if n == 0 {
    } else {
        lemma_rounds_len(ms, ev, (n - 1) as nat);
        lemma_pass_upto_len(ms, rounds(ms, ev, (n - 1) as nat), ms.len() as int);
    }
}

/// A permutation holds a module identifier exactly when the original does.
pub proof fn lemma_perm_has_module(a: Seq<ModuleNode>, b: Seq<ModuleNode>, id: Seq<u8>)
    requires
        a.to_multiset() == b.to_multiset(),
    ensures
        has_module(a, id) <==> has_module(b, id),
{
    broadcast use group_to_multiset_ensures;

    if has_module(a, id) {
        let i = choose|i: int| 0 <= i < a.len() && a[i].id@ == id;
        assert(a.contains(a[i]));
        assert(b.to_multiset().count(a[i]) > 0);
        assert(b.contains(a[i]));
        let j = choose|j: int| 0 <= j < b.len() && b[j] == a[i];
        assert(b[j].id@ == id);
    }
    if has_module(b, id) {
        let i = choose|i: int| 0 <= i < b.len() && b[i].id@ == id;
        assert(b.contains(b[i]));
        assert(a.to_multiset().count(b[i]) > 0);
        assert(a.contains(b[i]));
        let j = choose|j: int| 0 <= j < a.len() && a[j] == b[i];
        assert(a[j].id@ == id);
    }
}

/// A permutation of a graph with one node per identifier keeps one node per
/// identifier.
pub proof fn lemma_perm_distinct_ids(a: Seq<ModuleNode>, b: Seq<ModuleNode>)
    requires
        a.to_multiset() == b.to_multiset(),
        distinct_ids(a),
    ensures
        distinct_ids(b),
{
    broadcast use group_to_multiset_ensures;

    assert forall|x: int, y: int| 0 <= x < y < b.len() implies b[x].id@ != b[y].id@ by {
        if b[x].id@ == b[y].id@ {
            if b[x] == b[y] {
                let brm = b.remove(x);
                assert(brm[y - 1] == b[y]);
                assert(brm.contains(b[x]));
                assert(brm.to_multiset().count(b[x]) > 0);
                assert(b.to_multiset().count(b[x]) >= 2);
                assert(a.to_multiset().count(b[x]) >= 2);
                assert(a.contains(b[x]));
                let p = choose|p: int| 0 <= p < a.len() && a[p] == b[x];
                let arm = a.remove(p);
                assert(arm.to_multiset().count(b[x]) >= 1);
                assert(arm.contains(b[x]));
                let q = choose|q: int| 0 <= q < arm.len() && arm[q] == b[x];
                if q < p {
                    assert(a[q] == b[x]);
                    assert(a[q].id@ == a[p].id@);
                } else {
                    assert(a[q + 1] == b[x]);
                    assert(a[q + 1].id@ == a[p].id@);
                }
            } else {
                assert(b.contains(b[x]));
                assert(a.to_multiset().count(b[x]) > 0);
                assert(a.contains(b[x]));
                assert(b.contains(b[y]));
                assert(a.to_multiset().count(b[y]) > 0);
                assert(a.contains(b[y]));
                let p = choose|p: int| 0 <= p < a.len() && a[p] == b[x];
                let q = choose|q: int| 0 <= q < a.len() && a[q] == b[y];
                assert(a[p].id@ == a[q].id@);
            }
        }
    }
}

/// A permutation of a graph with pairwise distinct discovery numbers has them
/// pairwise distinct too.
pub proof fn lemma_perm_distinct_ords(a: Seq<ModuleNode>, b: Seq<ModuleNode>)
    requires
        a.to_multiset() == b.to_multiset(),
        distinct_ords(a),
    ensures
        distinct_ords(b),
{
    broadcast use group_to_multiset_ensures;

    assert forall|x: int, y: int| 0 <= x < y < b.len() implies b[x].ord != b[y].ord by {
        if b[x].ord == b[y].ord {
            if b[x] == b[y] {
                let brm = b.remove(x);
                assert(brm[y - 1] == b[y]);
                assert(brm.contains(b[x]));
                assert(brm.to_multiset().count(b[x]) > 0);
                assert(b.to_multiset().count(b[x]) >= 2);
                assert(a.to_multiset().count(b[x]) >= 2);
                assert(a.contains(b[x]));
                let p = choose|p: int| 0 <= p < a.len() && a[p] == b[x];
                let arm = a.remove(p);
                assert(arm.to_multiset().count(b[x]) >= 1);
                assert(arm.contains(b[x]));
                let q = choose|q: int| 0 <= q < arm.len() && arm[q] == b[x];
                if q < p {
                    assert(a[q] == b[x]);
                    assert(a[q].ord == a[p].ord);
                } else {
                    assert(a[q + 1] == b[x]);
                    assert(a[q + 1].ord == a[p].ord);
                }
            } else {
                assert(b.contains(b[x]));
                assert(a.to_multiset().count(b[x]) > 0);
                assert(a.contains(b[x]));
                assert(b.contains(b[y]));
                assert(a.to_multiset().count(b[y]) > 0);
                assert(a.contains(b[y]));
                let p = choose|p: int| 0 <= p < a.len() && a[p] == b[x];
                let q = choose|q: int| 0 <= q < a.len() && a[q] == b[y];
                assert(a[p].ord == a[q].ord);
            }
        }
    }
}

/// Sort the module table by discovery number.
fn sort_nodes(v: Vec<ModuleNode>) -> (r: Vec<ModuleNode>)
    ensures
        r@.to_multiset() == v@.to_multiset(),
        sorted_leq(r@),
{
    proof {
        broadcast use group_to_multiset_ensures;
    }
    let mut rest = v;
    let mut out: Vec<ModuleNode> = Vec::new();
    proof {
        assert(out@.to_multiset().add(rest@.to_multiset()) =~= v@.to_multiset());
    }
    while rest.len() > 0
        invariant
            out@.to_multiset().add(rest@.to_multiset()) == v@.to_multiset(),
            sorted_leq(out@),
        decreases rest.len(),
    {
        let ghost rest0 = rest@;
        let n = match rest.pop() {
            Some(n) => n,
            None => {
                proof {
                    assert(false);
                }
                unreached()
            },
        };
        proof {
            broadcast use group_to_multiset_ensures;

            assert(rest0.drop_last() =~= rest0.remove(rest0.len() - 1));
            assert(rest@.to_multiset() == rest0.to_multiset().remove(n));
            assert(rest0.to_multiset().contains(n));
        }
        let mut j: usize = 0;
        while j < out.len() && out[j].ord <= n.ord
            invariant
                j <= out.len(),
                forall|k: int| 0 <= k < j ==> out@[k].ord <= n.ord,
            decreases out.len() - j,
        {
            j = j + 1;
        }
        let ghost out0 = out@;
        out.insert(j, n);
        proof {
            broadcast use group_to_multiset_ensures;

            assert(out@ == out0.insert(j as int, n));
            assert(out@.to_multiset() =~= out0.to_multiset().insert(n));
            assert forall|a: int, b: int| 0 <= a < b < out@.len() implies out@[a].ord
                <= out@[b].ord by {
                if a < j && b < j {
                    assert(out@[a] == out0[a]);
                    assert(out@[b] == out0[b]);
                } else if a < j && b == j {
                    assert(out@[a] == out0[a]);
                } else if a < j && b > j {
                    assert(out@[a] == out0[a]);
                    assert(out@[b] == out0[b - 1]);
                } else if a == j && b > j {
                    assert(out@[b] == out0[b - 1]);
                    assert(out0[b - 1].ord > n.ord || b - 1 >= j);
                    if j < out0.len() {
                        assert(out0[j as int].ord > n.ord);
                        assert(out0[b - 1].ord >= out0[j as int].ord || b - 1 == j);
                    }
                } else {
                    assert(out@[a] == out0[a - 1]);
                    assert(out@[b] == out0[b - 1]);
                }
            }
            assert(out@.to_multiset().add(rest@.to_multiset()) =~= v@.to_multiset());
        }
    }
    proof {
        assert(rest@.to_multiset() =~= Multiset::<ModuleNode>::empty());
        assert(out@.to_multiset().add(Multiset::<ModuleNode>::empty()) =~= out@.to_multiset());
    }
    out
}

/// Find the node holding a module identifier.
pub fn find_module(ms: &Vec<ModuleNode>, id: &Vec<u8>) -> (r: Option<usize>)
    ensures
        match r {
            Some(j) => find_mod(ms@, id@) == j && j < ms@.len(),
            None => find_mod(ms@, id@) == -1,
        },
{
    proof {
        assert(ms@.skip(0) =~= ms@);
    }
    let mut i: usize = 0;
    while i < ms.len()
        invariant
            i <= ms.len(),
            find_mod(ms@, id@) == if find_mod(ms@.skip(i as int), id@) == -1 {
                -1int
            } else {
                find_mod(ms@.skip(i as int), id@) + i
            },
        decreases ms.len() - i,
    {
        if crate::bytes::bytes_eq(&ms[i].id, id) {
            return Some(i);
        }
        proof {
            lemma_find_mod(ms@.skip(i as int + 1), id@);
            assert(ms@.skip(i as int)[0] == ms@[i as int]);
            assert(ms@.skip(i as int).drop_first() =~= ms@.skip(i as int + 1));
            assert(find_mod(ms@.skip(i as int), id@) == if find_mod(
                ms@.skip(i as int + 1),
                id@,
            ) == -1 {
                -1int
            } else {
                find_mod(ms@.skip(i as int + 1), id@) + 1
            });
        }
        i = i + 1;
    }
    None
}

/// Link the scanned graph.
pub fn link(g: ScanStageOutput) -> (r: LinkStageOutput)
    requires
        distinct_ords(g.modules@),
    ensures
        r.graph@.to_multiset() == g.modules@.to_multiset(),
        strict_by_ord(r.graph@),
        distinct_ids(g.modules@) ==> distinct_ids(r.graph@),
        r.deps@.len() == r.graph@.len(),
        forall|i: int|
            0 <= i < r.graph@.len() ==> views((#[trigger] r.deps@[i])@) == bound_targets(
                r.graph@[i].imports@,
                r.graph@,
            ),
        r.included@ == marks_spec(r.graph@, views(r.entries@)),
        r.included@.len() == r.graph@.len(),
        err_views(r.warnings@) == err_views(g.warnings@) + all_failures(r.graph@, 0),
        r.entries == g.entries,
{
    let sorted = sort_nodes(g.modules);
    proof {
        lemma_perm_distinct_ords(g.modules@, sorted@);
        if distinct_ids(g.modules@) {
            lemma_perm_distinct_ids(g.modules@, sorted@);
        }
    }
    let mut warnings = g.warnings;
    let ghost w0 = warnings@;
    let mut deps: Vec<Vec<Vec<u8>>> = Vec::new();
    proof {
        assert(err_views(warnings@) + Seq::<ErrView>::empty() =~= err_views(warnings@));
    }
    let mut i: usize = 0;
    while i < sorted.len()
        invariant
            i <= sorted.len(),
            deps@.len() == i,
            forall|k: int|
                0 <= k < i ==> views((#[trigger] deps@[k])@) == bound_targets(
                    sorted@[k].imports@,
                    sorted@,
                ),
            err_views(w0) + all_failures(sorted@, 0) == err_views(warnings@) + all_failures(
                sorted@,
                i as int,
            ),
        decreases sorted.len() - i,
    {
        let node_imports_len = sorted[i].imports.len();
        let mut d: Vec<Vec<u8>> = Vec::new();
        let ghost wpre = warnings@;
        proof {
            assert(sorted@[i as int].imports@.skip(0) =~= sorted@[i as int].imports@);
            assert(views(d@) =~= Seq::<Seq<u8>>::empty());
            assert(views(d@) + bound_targets(sorted@[i as int].imports@, sorted@) =~= bound_targets(
                sorted@[i as int].imports@,
                sorted@,
            ));
            assert(err_views(warnings@) + node_failures(
                sorted@[i as int].imports@,
                sorted@[i as int].id@,
                sorted@,
            ) =~= err_views(wpre) + node_failures(
                sorted@[i as int].imports@,
                sorted@[i as int].id@,
                sorted@,
            ));
        }
        let mut t: usize = 0;
        while t < node_imports_len
            invariant
                t <= node_imports_len,
                node_imports_len == sorted@[i as int].imports@.len(),
                i < sorted@.len(),
                views(d@) + bound_targets(
                    sorted@[i as int].imports@.skip(t as int),
                    sorted@,
                ) == bound_targets(sorted@[i as int].imports@, sorted@),
                err_views(warnings@) + node_failures(
                    sorted@[i as int].imports@.skip(t as int),
                    sorted@[i as int].id@,
                    sorted@,
                ) == err_views(wpre) + node_failures(
                    sorted@[i as int].imports@,
                    sorted@[i as int].id@,
                    sorted@,
                ),
            decreases node_imports_len - t,
        {
            let ghost imps = sorted@[i as int].imports@;
            proof {
                assert(imps.skip(t as int)[0] == imps[t as int]);
                assert(imps.skip(t as int).drop_first() =~= imps.skip(t as int + 1));
            }
            match &sorted[i].imports[t].resolved {
                Some(target) => {
                    proof {
                        lemma_find_mod(sorted@, target@);
                    }
                    match find_module(&sorted, target) {
                        Some(_) => {
                            d.push(copy_bytes(target));
                            proof {
                                assert(views(d@) =~= views(d@.drop_last()).push(target@));
                                assert(views(d@.drop_last()).push(target@) + bound_targets(
                                    imps.skip(t as int + 1),
                                    sorted@,
                                ) =~= views(d@.drop_last()) + (seq![target@] + bound_targets(
                                    imps.skip(t as int + 1),
                                    sorted@,
                                )));
                            }
                        },
                        None => {
                            warnings.push(
                                BuildError::UnboundImport {
                                    importer: copy_bytes(&sorted[i].id),
                                    specifier: copy_bytes(&sorted[i].imports[t].specifier),
                                    target: copy_bytes(target),
                                },
                            );
                            proof {
                                assert(err_views(warnings@) =~= err_views(
                                    warnings@.drop_last(),
                                ).push(warnings@.last()@));
                                assert(err_views(warnings@.drop_last()).push(warnings@.last()@)
                                    + node_failures(
                                    imps.skip(t as int + 1),
                                    sorted@[i as int].id@,
                                    sorted@,
                                ) =~= err_views(warnings@.drop_last()) + (seq![warnings@.last()@]
                                    + node_failures(
                                    imps.skip(t as int + 1),
                                    sorted@[i as int].id@,
                                    sorted@,
                                )));
                            }
                        },
                    }
                },
                None => {},
            }
            t = t + 1;
        }
        proof {
            assert(sorted@[i as int].imports@.skip(sorted@[i as int].imports@.len() as int)
                =~= Seq::<ImportRecord>::empty());
            assert(views(d@) + Seq::<Seq<u8>>::empty() =~= views(d@));
            assert(err_views(warnings@) + Seq::<ErrView>::empty() =~= err_views(warnings@));
        }
        deps.push(d);
        i = i + 1;
    }
    proof {
        assert(all_failures(sorted@, sorted@.len() as int) =~= Seq::<ErrView>::empty());
        assert(err_views(warnings@) + Seq::<ErrView>::empty() =~= err_views(warnings@));
    }
    let included = compute_marks(&sorted, &g.entries);
    proof {
        lemma_rounds_len(sorted@, views(g.entries@), sorted@.len());
    }
    LinkStageOutput { graph: sorted, deps, included, entries: g.entries, warnings }
}

/// Compute the reachability markers.
fn compute_marks(ms: &Vec<ModuleNode>, entries: &Vec<Vec<u8>>) -> (marks: Vec<bool>)
    ensures
        marks@ == marks_spec(ms@, views(entries@)),
{
    let mut marks: Vec<bool> = Vec::new();
    let mut i: usize = 0;
    while i < ms.len()
        invariant
            i <= ms.len(),
            marks@.len() == i,
            forall|k: int| 0 <= k < i ==> marks@[k] == views(entries@).contains(ms@[k].id@),
        decreases ms.len() - i,
    {
        let m = contains_bytes(entries, &ms[i].id);
        proof {
            if m {
                let k = choose|k: int| 0 <= k < entries@.len() && entries@[k]@ == ms@[i as int].id@;
                assert(views(entries@)[k] == ms@[i as int].id@);
            } else {
                if views(entries@).contains(ms@[i as int].id@) {
                    let k = choose|k: int|
                        0 <= k < views(entries@).len() && views(entries@)[k] == ms@[i as int].id@;
                    assert(entries@[k]@ == ms@[i as int].id@);
                }
            }
        }
        marks.push(m);
        i = i + 1;
    }
    proof {
        assert(marks@ =~= seed_marks(ms@, views(entries@)));
    }
    let mut round: usize = 0;
    while round < ms.len()
        invariant
            round <= ms.len(),
            marks@ == rounds(ms@, views(entries@), round as nat),
            marks@.len() == ms@.len(),
        decreases ms.len() - round,
    {
        let ghost mr = marks@;
        let mut j: usize = 0;
        while j < ms.len()
            invariant
                j <= ms.len(),
                marks@ == pass_upto(ms@, mr, j as int),
                marks@.len() == ms@.len(),
            decreases ms.len() - j,
        {
            let ghost mj = marks@;
            if marks[j] {
                let ghost imps = ms@[j as int].imports@;
                let node_imports_len = ms[j].imports.len();
                let mut t: usize = 0;
                proof {
                    assert(imps.skip(0) =~= imps);
                }
                while t < node_imports_len
                    invariant
                        t <= node_imports_len,
                        node_imports_len == imps.len(),
                        j < ms@.len(),
                        imps == ms@[j as int].imports@,
                        marks@.len() == ms@.len(),
                        mark_imports(ms@, mj, imps) == mark_imports(
                            ms@,
                            marks@,
                            imps.skip(t as int),
                        ),
                    decreases node_imports_len - t,
                {
                    proof {
                        assert(imps.skip(t as int)[0] == imps[t as int]);
                        assert(imps.skip(t as int).drop_first() =~= imps.skip(t as int + 1));
                        lemma_find_mod(ms@, match imps[t as int].resolved {
                            Some(v) => v@,
                            None => Seq::empty(),
                        });
                    }
                    match &ms[j].imports[t].resolved {
                        Some(target) => {
                            match find_module(ms, target) {
                                Some(k) => {
                                    marks[k] = true;
                                },
                                None => {},
                            }
                        },
                        None => {},
                    }
                    t = t + 1;
                }
                proof {
                    assert(imps.skip(imps.len() as int) =~= Seq::<ImportRecord>::empty());
                    assert(marks@ == mark_imports(ms@, mj, imps));
                    assert(marks@ == pass_upto(ms@, mr, j as int + 1));
                }
            } else {
                proof {
                    assert(marks@ == pass_upto(ms@, mr, j as int + 1));
                }
            }
            j = j + 1;
        }
        proof {
            assert(marks@ == rounds(ms@, views(entries@), (round + 1) as nat));
        }
        round = round + 1;
    }
    proof {
        lemma_rounds_len(ms@, views(entries@), ms@.len());
    }
    marks
}

} // verus!
