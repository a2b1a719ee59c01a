//! Cross-cutting laws of the pipeline, proved over the same specification
//! functions the stage contracts use.
use vstd::prelude::*;
use vstd::seq_lib::group_to_multiset_ensures;
use crate::bundle::bundle_assets;
use crate::bytes::views;
use crate::graph::ModuleNode;
use crate::link::{marks_spec, strict_by_ord, LinkStageOutput};

verus! {

/// Idempotence of output generation: bundling reads only the graph, the
/// reachability markers and the entries of the linked output — never its
/// warnings. Since `generate` drains warnings but leaves graph, markers and
/// entries untouched, two `generate` calls with one output configuration
/// against one successful build produce identical asset names and bytes; only
/// the warnings differ, drained by the first call.
pub proof fn lemma_generate_idempotent(l1: LinkStageOutput, l2: LinkStageOutput)
    requires
        l2.graph == l1.graph,
        l2.included == l1.included,
        l2.entries == l1.entries,
    ensures
        bundle_assets(l2.graph@, l2.included@, views(l2.entries@)) == bundle_assets(
            l1.graph@,
            l1.included@,
            views(l1.entries@),
        ),
{
}

/// The canonical order is unique: a module table strictly ordered by
/// discovery number is fully determined by which nodes it holds, not by the
/// order they arrived in.
pub proof fn lemma_canonical_order_unique(a: Seq<ModuleNode>, b: Seq<ModuleNode>)
    requires
        a.to_multiset() == b.to_multiset(),
        strict_by_ord(a),
        strict_by_ord(b),
    ensures
        a == b,
    decreases a.len(),
{
    broadcast use group_to_multiset_ensures;

    assert(a.len() == a.to_multiset().len());
    assert(b.len() == b.to_multiset().len());
    if a.len() == 0 {
        assert(b.len() == 0);
        assert(a =~= b);
    } else {
        assert(b.len() == a.len());
        assert(a.contains(a.last()));
        assert(a.to_multiset().count(a.last()) > 0);
        assert(b.contains(a.last()));
        let k = choose|k: int| 0 <= k < b.len() && b[k] == a.last();
        assert(b.contains(b.last()));
        assert(a.to_multiset().count(b.last()) > 0);
        assert(a.contains(b.last()));
        let k2 = choose|k2: int| 0 <= k2 < a.len() && a[k2] == b.last();
        if k < b.len() - 1 {
            assert(b[k].ord < b[b.len() - 1].ord);
            if k2 < a.len() - 1 {
                assert(a[k2].ord < a[a.len() - 1].ord);
            }
            assert(false);
        }
        assert(b[b.len() - 1] == a.last());
        assert(a.drop_last() =~= a.remove(a.len() - 1));
        assert(b.drop_last() =~= b.remove(b.len() - 1));
        assert(a.drop_last().to_multiset() == a.to_multiset().remove(a.last()));
        assert(b.drop_last().to_multiset() == b.to_multiset().remove(b.last()));
        lemma_canonical_order_unique(a.drop_last(), b.drop_last());
        assert forall|i: int| 0 <= i < a.len() implies a[i] == b[i] by {
            if i < a.len() - 1 {
                assert(a.drop_last()[i] == b.drop_last()[i]);
            }
        }
        assert(a =~= b);
    }
}

/// Determinism: reordering how concurrent scanning happened to complete
/// permutes the module table but changes neither the nodes nor their recorded
/// discovery numbers. Two linked outputs built from tables holding the same
/// modules therefore carry the identical canonical graph, identical
/// reachability markers, and byte-identical chunk names and contents.
pub proof fn lemma_link_deterministic(
    m1: Seq<ModuleNode>,
    m2: Seq<ModuleNode>,
    r1: LinkStageOutput,
    r2: LinkStageOutput,
)
    requires
        m1.to_multiset() == m2.to_multiset(),
        r1.graph@.to_multiset() == m1.to_multiset(),
        r2.graph@.to_multiset() == m2.to_multiset(),
        strict_by_ord(r1.graph@),
        strict_by_ord(r2.graph@),
        views(r1.entries@) == views(r2.entries@),
        r1.included@ == marks_spec(r1.graph@, views(r1.entries@)),
        r2.included@ == marks_spec(r2.graph@, views(r2.entries@)),
    ensures
        r1.graph@ == r2.graph@,
        r1.included@ == r2.included@,
        bundle_assets(r1.graph@, r1.included@, views(r1.entries@)) == bundle_assets(
            r2.graph@,
            r2.included@,
            views(r2.entries@),
        ),
{
    lemma_canonical_order_unique(r1.graph@, r2.graph@);
}

} // verus!
