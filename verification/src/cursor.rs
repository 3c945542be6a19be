//! A forward cursor over a sequence of items with one item of lookahead, and
//! the "take while the next item matches" adaptor built on it.

use vstd::prelude::*;

verus! {

/// A cursor over owned items. Its view is the sequence of items not yet
/// consumed.
pub struct Cursor<T> {
    items: Vec<T>,
    pos: usize,
}

impl<T> View for Cursor<T> {
    type V = Seq<T>;

    /// The items not yet consumed, next first.
    closed spec fn view(&self) -> Seq<T> {
        self.items@.skip(self.pos as int)
    }
}

impl<T> Cursor<T> {
    /// The position never passes the end of the items.
    #[verifier::type_invariant]
    spec fn inv(&self) -> bool {
        self.pos <= self.items.len()
    }
}

impl<T: Copy> Cursor<T> {
    /// A cursor positioned before the first of `items`.
    pub fn new(items: Vec<T>) -> (c: Self)
        ensures
            c@ == items@,
    {
        let c = Cursor { items, pos: 0 };
        assert(c.items@.skip(0) =~= c.items@);
        c
    }

    /// The next item, without consuming it.
    pub fn peek(&self) -> (r: Option<T>)
        ensures
            r == if self@.len() > 0 { Some(self@[0]) } else { None },
    {
        proof {
            use_type_invariant(self);
        }
        if self.pos < self.items.len() {
            Some(self.items[self.pos])
        } else {
            None
        }
    }

    /// Consumes and returns the next item, if any.
    pub fn next(&mut self) -> (r: Option<T>)
        ensures
            r == if old(self)@.len() > 0 { Some(old(self)@[0]) } else { None },
            final(self)@ == if old(self)@.len() > 0 { old(self)@.skip(1) } else { old(self)@ },
    {
        proof {
            use_type_invariant(&*self);
        }
        if self.pos < self.items.len() {
            let x = self.items[self.pos];
            assert(self.items@.skip(self.pos as int).skip(1) =~= self.items@.skip(self.pos + 1));
            self.pos = self.pos + 1;
            Some(x)
        } else {
            None
        }
    }
}

/// The items at the front of a cursor for which a predicate holds. Taking
/// stops at the first item that fails the predicate, and that item stays in the
/// cursor.
pub struct PeekWhile<'a, T, F> {
    pub iter: &'a mut Cursor<T>,
    pub f: F,
}

impl<'a, T: Copy, F: Fn(&T) -> bool> PeekWhile<'a, T, F> {
    /// Consumes the cursor's next item if the predicate accepts it.
    pub fn next(&mut self) -> (r: Option<T>)
        requires
            forall|x: T| call_requires(old(self).f, (&x,)),
        ensures
            final(self).f == old(self).f,
            *final(final(self).iter) == *final(old(self).iter),
            r is None ==> final(self).iter@ == old(self).iter@ && (old(self).iter@.len() == 0
                || call_ensures(old(self).f, (&old(self).iter@[0],), false)),
            r is Some ==> old(self).iter@.len() > 0 && r == Some(old(self).iter@[0])
                && final(self).iter@ == old(self).iter@.skip(1)
                && call_ensures(old(self).f, (&old(self).iter@[0],), true),
    {
        match self.iter.peek() {
            Some(x) => {
                if (self.f)(&x) {
                    self.iter.next()
                } else {
                    None
                }
            },
            None => None,
        }
    }

    /// Takes items until the predicate rejects one or the cursor is empty, and
    /// returns them in order.
    pub fn collect(self) -> (taken: Vec<T>)
        requires
            forall|x: T| call_requires(self.f, (&x,)),
        ensures
            taken@.len() <= old(self.iter)@.len(),
            taken@ == old(self.iter)@.take(taken@.len() as int),
            final(self.iter)@ == old(self.iter)@.skip(taken@.len() as int),
            forall|i: int| 0 <= i < taken@.len() ==> call_ensures(self.f, (&old(self.iter)@[i],), true),
            taken@.len() == old(self.iter)@.len() || call_ensures(
                self.f,
                (&old(self.iter)@[taken@.len() as int],),
                false,
            ),
    {
        let mut this = self;
        let ghost all = this.iter@;
        let mut taken: Vec<T> = Vec::new();
        loop
            invariant
                this.f == self.f,
                *final(this.iter) == *final(self.iter),
                forall|x: T| call_requires(this.f, (&x,)),
                all == self.iter@,
                taken@.len() <= all.len(),
                taken@ == all.take(taken@.len() as int),
                this.iter@ == all.skip(taken@.len() as int),
                forall|i: int| 0 <= i < taken@.len() ==> call_ensures(self.f, (&all[i],), true),
            decreases this.iter@.len(),
        {
            match this.next() {
                Some(x) => {
                    assert(all.skip(taken@.len() as int).skip(1) =~= all.skip(taken@.len() + 1 as int));
                    assert(all.take(taken@.len() + 1 as int) =~= all.take(taken@.len() as int).push(x));
                    taken.push(x);
                },
                None => {
                    return taken;
                },
            }
        }
    }
}

/// Starts taking from `iter` the items that `f` accepts.
pub fn peek_while<'a, T: Copy, F: Fn(&T) -> bool>(iter: &'a mut Cursor<T>, f: F) -> (r: PeekWhile<'a, T, F>)
    ensures
        r.f == f,
        r.iter@ == old(iter)@,
        *final(r.iter) == *final(iter),
{
    PeekWhile { iter, f }
}

} // verus!
