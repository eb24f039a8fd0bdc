//! Building blocks of storage designs.
use vstd::prelude::*;

verus! {

/// A hardware or software accelerator attached to a structure (for instance
/// a cache or a buffer), with its settings as (name, value) pairs.
pub struct Accelerator {
    pub kind: String,
    pub config: Vec<(String, String)>,
}

impl Accelerator {
    /// No setting is named twice.
    pub open spec fn settings_distinct(&self) -> bool {
        forall|i: int, j: int|
            0 <= i < j < self.config@.len() ==> #[trigger] self.config@[i].0@
                != #[trigger] self.config@[j].0@
    }
}

/// A learned index described by the name of its model (for instance
/// "PiecewiseLinear").
pub struct LearnedIndex {
    pub model: String,
}

/// A log-structured merge tree described by its compaction policy (for
/// instance "Tiered"), with its accelerators.
pub struct LSMTree {
    pub compaction: String,
    pub accelerators: Vec<Accelerator>,
}

/// A learned structure layered over a classical one, with its accelerators.
pub struct ClearnedStructure {
    pub learned: String,
    pub classical: String,
    pub accelerators: Vec<Accelerator>,
}

/// One data structure of a design's layout.
pub enum DataStructure {
    /// A learned index, by model name.
    Learned { kind: String },
    /// A learned structure combined with a classical one.
    Cleared { kind: String },
    /// A classical structure, by name.
    Classical { kind: String },
}

} // verus!
