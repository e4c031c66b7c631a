//! One item in, one item out.
use vstd::prelude::*;

verus! {

/// Why nothing can be taken.
#[derive(Debug, Clone, Copy, PartialEq, Eq, Structural)]
pub enum Empty {
    /// More has to be put in first.
    NeedMore,
    /// Nothing more will come.
    Eof,
}

/// Holds at most one item between the one who puts it in and the one who takes it out.
#[derive(Debug)]
pub struct Mailbox<T> {
    pending: Option<T>,
    eof: bool,
}

impl<T> Mailbox<T> {
    /// The item that waits to be taken.
    pub closed spec fn waiting(&self) -> Option<T> {
        self.pending
    }

    /// Whether nothing more will come.
    pub closed spec fn ended(&self) -> bool {
        self.eof
    }

    /// Empty, and more may come.
    pub fn new() -> (m: Self)
        ensures
            m.waiting() is None,
            !m.ended(),
    {
        Mailbox { pending: None, eof: false }
    }

    /// Whether an item waits to be taken.
    pub fn is_full(&self) -> (b: bool)
        ensures
            b == (self.waiting() is Some),
    {
        self.pending.is_some()
    }

    /// Puts an item in. Where one waits already, it is handed back.
    pub fn put(&mut self, item: T) -> (r: Result<(), T>)
        ensures
            final(self).ended() == old(self).ended(),
            if old(self).waiting() is Some {
                r == Err::<(), T>(item) && final(self).waiting() == old(self).waiting()
            } else {
                r is Ok && final(self).waiting() == Some(item)
            },
    {
        if self.pending.is_some() {
            return Err(item);
        }
        self.pending = Some(item);
        Ok(())
    }

    /// Takes the item that waits, or says why there is none.
    pub fn take(&mut self) -> (r: Result<T, Empty>)
        ensures
            final(self).ended() == old(self).ended(),
            final(self).waiting() is None,
            match old(self).waiting() {
                Some(item) => r == Ok::<T, Empty>(item),
                None => r == Err::<T, Empty>(
                    if old(self).ended() {
                        Empty::Eof
                    } else {
                        Empty::NeedMore
                    },
                ),
            },
    {
        match self.pending.take() {
            Some(item) => Ok(item),
            None => if self.eof {
                Err(Empty::Eof)
            } else {
                Err(Empty::NeedMore)
            },
        }
    }

    /// Says that nothing more will come. What waits can still be taken.
    pub fn flush(&mut self)
        ensures
            final(self).ended(),
            final(self).waiting() == old(self).waiting(),
    {
        self.eof = true;
    }
}

} // verus!
