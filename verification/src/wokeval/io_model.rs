//! The layout-dependent part of the distribution-aware I/O model.
use vstd::prelude::*;
use crate::wok::wokcore::design::DataStructure;

verus! {

/// Which latency profile a layout falls under.
#[derive(PartialEq, Eq, Structural, Clone, Copy, Debug)]
pub enum LayoutClass {
    /// The layout holds a learned index.
    Learned,
    /// The layout holds a combined learned and classical structure, and no
    /// learned index.
    Cleared,
    /// Only classical structures.
    Classical,
}

/// The layout holds a learned index.
pub open spec fn has_learned(layout: Seq<DataStructure>) -> bool {
    exists|i: int| 0 <= i < layout.len() && #[trigger] layout[i] is Learned
}

/// The layout holds a combined structure.
pub open spec fn has_cleared(layout: Seq<DataStructure>) -> bool {
    exists|i: int| 0 <= i < layout.len() && #[trigger] layout[i] is Cleared
}

/// The class of a layout: a learned index decides first, then a combined
/// structure.
pub open spec fn class_of(layout: Seq<DataStructure>) -> LayoutClass {
    if has_learned(layout) {
        LayoutClass::Learned
    } else if has_cleared(layout) {
        LayoutClass::Cleared
    } else {
        LayoutClass::Classical
    }
}

/// A layout holding a learned index is in the learned class; one holding a
/// combined structure and no learned index is in the combined class; one of
/// classical structures only is in the classical class. The class does not
/// depend on the order of the structures.
pub proof fn lemma_layout_class(layout: Seq<DataStructure>, front: Seq<DataStructure>, back: Seq<DataStructure>)
    ensures
        (exists|i: int| 0 <= i < layout.len() && #[trigger] layout[i] is Learned) ==> class_of(layout)
            == LayoutClass::Learned,
        (forall|i: int| 0 <= i < layout.len() ==> !(#[trigger] layout[i] is Learned)) && (exists|i: int|
            0 <= i < layout.len() && #[trigger] layout[i] is Cleared) ==> class_of(layout)
            == LayoutClass::Cleared,
        (forall|i: int| 0 <= i < layout.len() ==> #[trigger] layout[i] is Classical) ==> class_of(
            layout,
        ) == LayoutClass::Classical,
        class_of(front + back) == class_of(back + front),
{
    let fb = front + back;
    let bf = back + front;
    assert(has_learned(fb) == has_learned(bf)) by {
        if has_learned(fb) {
            let i = choose|i: int| 0 <= i < fb.len() && #[trigger] fb[i] is Learned;
            if i < front.len() {
                assert(bf[back.len() + i] is Learned);
            } else {
                assert(bf[i - front.len()] is Learned);
            }
        }
        if has_learned(bf) {
            let i = choose|i: int| 0 <= i < bf.len() && #[trigger] bf[i] is Learned;
            if i < back.len() {
                assert(fb[front.len() + i] is Learned);
            } else {
                assert(fb[i - back.len()] is Learned);
            }
        }
    }
    assert(has_cleared(fb) == has_cleared(bf)) by {
        if has_cleared(fb) {
            let i = choose|i: int| 0 <= i < fb.len() && #[trigger] fb[i] is Cleared;
            if i < front.len() {
                assert(bf[back.len() + i] is Cleared);
            } else {
                assert(bf[i - front.len()] is Cleared);
            }
        }
        if has_cleared(bf) {
            let i = choose|i: int| 0 <= i < bf.len() && #[trigger] bf[i] is Cleared;
            if i < back.len() {
                assert(fb[front.len() + i] is Cleared);
            } else {
                assert(fb[i - back.len()] is Cleared);
            }
        }
    }
    if forall|i: int| 0 <= i < layout.len() ==> #[trigger] layout[i] is Classical {
        assert(!has_learned(layout));
        assert(!has_cleared(layout));
    }
}

/// The I/O model; it keeps no parameters.
pub struct DistributionAwareIOModel {}

impl DistributionAwareIOModel {
    /// The model.
    pub fn new() -> (model: Self) {
        DistributionAwareIOModel {}
    }

    /// The latency profile of `layout`.
    pub fn classify(&self, layout: &Vec<DataStructure>) -> (class: LayoutClass)
        ensures
            class == class_of(layout@),
    {
        let mut learned = false;
        let mut cleared = false;
        let mut i: usize = 0;
        while i < layout.len()
            invariant
                i <= layout@.len(),
                learned == exists|j: int| 0 <= j < i && #[trigger] layout@[j] is Learned,
                cleared == exists|j: int| 0 <= j < i && #[trigger] layout@[j] is Cleared,
            decreases layout@.len() - i,
        {
            match &layout[i] {
                DataStructure::Learned { .. } => {
                    learned = true;
                },
                DataStructure::Cleared { .. } => {
                    cleared = true;
                },
                DataStructure::Classical { .. } => {},
            }
            i = i + 1;
        }
        if learned {
            LayoutClass::Learned
        } else if cleared {
            LayoutClass::Cleared
        } else {
            LayoutClass::Classical
        }
    }
}

} // verus!
