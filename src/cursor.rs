//! A cursor over a sequence that keeps its current item in view.
use vstd::prelude::*;

verus! {

/// A one-item-lookahead cursor: `value` is the current item, `advance` moves past it.
pub struct ClingyIter<T> {
    items: Vec<T>,
    pos: usize,
}

impl<T> ClingyIter<T> {
    /// The items the cursor walks over.
    pub closed spec fn items(&self) -> Seq<T> {
        self.items@
    }

    /// The index of the current item; at the length when all are consumed.
    pub closed spec fn pos(&self) -> nat {
        self.pos as nat
    }

    pub open spec fn wf(&self) -> bool {
        self.pos() <= self.items().len()
    }

    pub fn new(items: Vec<T>) -> (r: ClingyIter<T>)
        ensures
            r.wf(),
            r.items() == items@,
            r.pos() == 0,
    {
        ClingyIter { items, pos: 0 }
    }

    pub fn advance(&mut self)
        requires
            old(self).wf(),
        ensures
            final(self).wf(),
            final(self).items() == old(self).items(),
            final(self).pos() == if old(self).pos() < old(self).items().len() {
                old(self).pos() + 1nat
            } else {
                old(self).pos()
            },
    {
        if self.pos < self.items.len() {
            self.pos = self.pos + 1;
        }
    }

    pub fn value(&self) -> (r: Option<&T>)
        requires
            self.wf(),
        ensures
            self.pos() < self.items().len() ==> r == Some(&self.items()[self.pos() as int]),
            self.pos() >= self.items().len() ==> r is None,
    {
        if self.pos < self.items.len() {
            Some(&self.items[self.pos])
        } else {
            None
        }
    }
}

} // verus!
