//! Callbacks, and the record of the calls that were made of them.

use vstd::prelude::*;

verus! {

/// What the record of a call keeps of an argument.
pub trait Noted: Sized {
    type Note;

    spec fn note(self) -> Self::Note;
}

/// Whether a callback takes an argument, without a word on how it is called.
pub closed spec fn takes<F, A, R>(f: F, a: A) -> bool where F: FnMut(A) -> R {
    call_requires(f, (a,))
}

/// A callback may be called with an argument. Who makes a callback knows that it may. Who is handed
/// one knows no more than this, which is enough to hand it on to `Calls` and not enough to call it.
pub open spec fn callable<F, A, R>(f: F, a: A) -> bool where F: FnMut(A) -> R {
    call_requires(f, (a,)) || takes::<F, A, R>(f, a)
}

/// As `takes`, for a callback of two arguments.
pub closed spec fn takes_both<F, A, B, R>(f: F, a: A, b: B) -> bool where F: FnMut(A, B) -> R {
    call_requires(f, (a, b))
}

/// As `callable`, for a callback of two arguments.
pub open spec fn callable_with<F, A, B, R>(f: F, a: A, b: B) -> bool where F: FnMut(A, B) -> R {
    call_requires(f, (a, b)) || takes_both::<F, A, B, R>(f, a, b)
}

/// A callback that can be called only through here, and the calls that were made of it, in their
/// order.
pub struct Calls<F, N> {
    f: F,
    made: Ghost<Seq<N>>,
}

/// These are all calls that were made of a callback: it is gone, and none can follow. Only who has
/// given up the callback knows this.
pub closed spec fn all_calls<F, N>(f: F, made: Seq<N>) -> bool {
    exists|calls: Calls<F, N>| calls.callback() == f && #[trigger] calls.made() == made
}

impl<F, N> Calls<F, N> {
    /// The callback.
    pub closed spec fn callback(&self) -> F {
        self.f
    }

    /// The calls that were made, each with what it was called with and what it returned.
    pub closed spec fn made(&self) -> Seq<N> {
        self.made@
    }

    pub fn new(f: F) -> (calls: Calls<F, N>)
        ensures
            calls.callback() == f,
            calls.made() == Seq::<N>::empty(),
    {
        Calls { f, made: Ghost(Seq::empty()) }
    }

    /// Gives up the callback: what is recorded is all that it was called with.
    pub fn finish(self)
        ensures
            all_calls(self.callback(), self.made()),
    {
    }
}

impl<F, X, R> Calls<F, (X, R)> {
    /// Calls the callback once: of the argument nothing is known but that it can be passed on, so
    /// there is no other way to come by a result, and no second call to make.
    pub fn call<A: Noted<Note = X>>(&mut self, a: A) -> (out: R) where F: FnMut(A) -> R
        requires
            callable::<F, A, R>(old(self).callback(), a),
        ensures
            final(self).callback() == old(self).callback(),
            final(self).made() == old(self).made().push((a.note(), out)),
            call_ensures(old(self).callback(), (a,), out),
    {
        let ghost x = a.note();
        let out = (self.f)(a);
        self.made = Ghost(self.made@.push((x, out)));
        out
    }
}

impl<F, X, Y, R> Calls<F, (X, Y, R)> {
    /// As `call`, for a callback of two arguments.
    pub fn call_with<A: Noted<Note = X>, B: Noted<Note = Y>>(&mut self, a: A, b: B) -> (out: R)
        where F: FnMut(A, B) -> R
        requires
            callable_with::<F, A, B, R>(old(self).callback(), a, b),
        ensures
            final(self).callback() == old(self).callback(),
            final(self).made() == old(self).made().push((a.note(), b.note(), out)),
            call_ensures(old(self).callback(), (a, b), out),
    {
        let ghost (x, y) = (a.note(), b.note());
        let out = (self.f)(a, b);
        self.made = Ghost(self.made@.push((x, y, out)));
        out
    }
}

impl Noted for u64 {
    type Note = u64;

    open spec fn note(self) -> u64 {
        self
    }
}

impl<'a> Noted for &'a [u8] {
    type Note = Seq<u8>;

    open spec fn note(self) -> Seq<u8> {
        self@
    }
}

} // verus!
