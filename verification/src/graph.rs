//! The module graph built by scanning: one node per module identifier,
//! holding transformed content and the ordered, resolved import edges.
use vstd::prelude::*;

verus! {

/// One import edge: the original specifier and the module identifier it
/// resolved to, when resolution succeeded.
pub struct ImportRecord {
    pub specifier: Vec<u8>,
    pub resolved: Option<Vec<u8>>,
}

/// One module: created exactly once during scanning. `ord` is the discovery
/// sequence number recorded at scan time; linking orders by it.
pub struct ModuleNode {
    pub id: Vec<u8>,
    pub ord: usize,
    pub content: Vec<u8>,
    pub imports: Vec<ImportRecord>,
}

/// Some node carries this module identifier.
pub open spec fn has_module(ms: Seq<ModuleNode>, id: Seq<u8>) -> bool {
    exists|i: int| 0 <= i < ms.len() && ms[i].id@ == id
}

/// Exactly one node per module identifier.
pub open spec fn distinct_ids(ms: Seq<ModuleNode>) -> bool {
    forall|a: int, b: int| 0 <= a < b < ms.len() ==> ms[a].id@ != ms[b].id@
}

/// Pairwise distinct discovery numbers.
pub open spec fn distinct_ords(ms: Seq<ModuleNode>) -> bool {
    forall|a: int, b: int| 0 <= a < b < ms.len() ==> ms[a].ord != ms[b].ord
}

} // verus!
