//! Shared per-node free lists.
use crate::freelist::TreiberStack;
use crate::size_class::NUM_SIZE_CLASSES;
use vstd::prelude::*;

verus! {

/// Shared per-node heap.  Each size class has a stack of its own, so that
/// remote deallocations and per-thread refills of different classes never
/// compete.
#[derive(Clone, Copy)]
pub struct PerNodeHeap {
    freelists: [TreiberStack; 16],
}

impl PerNodeHeap {
    /// The stack of class `c`.
    pub closed spec fn stack(&self, c: int) -> TreiberStack {
        self.freelists@[c]
    }

    /// A heap with every stack empty.
    pub fn new() -> (heap: Self)
        ensures
            forall|c: int|
                0 <= c < NUM_SIZE_CLASSES ==> (#[trigger] heap.stack(c)).history() == seq![
                    Seq::<usize>::empty(),
                ] && heap.stack(c).word() == 0,
    {
        PerNodeHeap { freelists: [TreiberStack::new();16] }
    }

    /// The stack of a size class.
    pub fn freelist(&self, class_index: usize) -> (stack: &TreiberStack)
        requires
            class_index < NUM_SIZE_CLASSES,
        ensures
            *stack == self.stack(class_index as int),
    {
        &self.freelists[class_index]
    }

    /// The stack of a size class, for a change of that stack alone.
    pub fn freelist_mut(&mut self, class_index: usize) -> (stack: &mut TreiberStack)
        requires
            class_index < NUM_SIZE_CLASSES,
        ensures
            *stack == old(self).stack(class_index as int),
            final(self).stack(class_index as int) == *final(stack),
            forall|c: int|
                0 <= c < NUM_SIZE_CLASSES && c != class_index ==> #[trigger] final(self).stack(c)
                    == old(self).stack(c),
    {
        &mut self.freelists[class_index]
    }
}

} // verus!
