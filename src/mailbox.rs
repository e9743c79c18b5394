//! A single-slot mailbox: a value that is put replaces one that has not been
//! taken yet, so the reader only ever sees the latest one.
use vstd::prelude::*;

verus! {

pub struct Mailbox<T> {
    pub slot: Option<T>,
}

impl<T> Mailbox<T> {
    pub fn new() -> (m: Mailbox<T>)
        ensures
            m.slot is None,
    {
        Mailbox { slot: None }
    }

    /// Leaves `v` in the mailbox, dropping any value not yet taken.
    pub fn put(&mut self, v: T)
        ensures
            final(self).slot == Some(v),
    {
        self.slot = Some(v);
    }

    /// The value in the mailbox, if any, leaving it empty.
    pub fn take(&mut self) -> (r: Option<T>)
        ensures
            r == old(self).slot,
            final(self).slot is None,
    {
        let mut r = None;
        std::mem::swap(&mut self.slot, &mut r);
        r
    }

    pub fn is_empty(&self) -> (r: bool)
        ensures
            r == self.slot is None,
    {
        self.slot.is_none()
    }
}

} // verus!
