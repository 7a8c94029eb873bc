//! Anchors: what keeps a receive buffer alive while a request fills it, and
//! gives the same buffer back once the request has completed.
//!
//! An anchor owns the buffer's storage for the whole time that the request is
//! outstanding, so nothing else can reach or free it.  Moving an anchor does
//! not move the storage.  Dropping an anchor without giving the buffer back
//! (on teardown) frees the storage.

use vstd::prelude::*;

verus! {

/// An owned buffer that can be taken back from its anchor.
pub trait Unanchor: Sized {
    /// What holds the buffer while a request uses it.
    type Anchor;

    /// `owner` is the buffer that `anchor` holds, with the contents that the
    /// anchor holds.
    spec fn reassembles(anchor: Self::Anchor, owner: Self) -> bool;

    /// Gives back the buffer that the anchor holds.
    fn unanchor(anchor: Self::Anchor) -> (r: Self)
        ensures
            Self::reassembles(anchor, r),
    ;
}

/// The anchor of a vector: it holds the vector whole, with its length and
/// capacity.
pub struct AnchoredVec<T> {
    vec: Vec<T>,
}

impl<T> View for AnchoredVec<T> {
    type V = Seq<T>;

    closed spec fn view(&self) -> Seq<T> {
        self.vec@
    }
}

impl<T> AnchoredVec<T> {
    /// Anchors `vec` for the time that a request uses it.
    pub fn anchor(vec: Vec<T>) -> (r: Self)
        ensures
            r@ == vec@,
    {
        AnchoredVec { vec }
    }

    /// The number of elements of the anchored buffer.
    pub fn len(&self) -> (r: usize)
        ensures
            r == self@.len(),
    {
        self.vec.len()
    }

    /// Gives the anchored vector back.
    pub fn into_vec(self) -> (r: Vec<T>)
        ensures
            r@ == self@,
    {
        self.vec
    }
}

impl<T> Unanchor for Vec<T> {
    type Anchor = AnchoredVec<T>;

    open spec fn reassembles(anchor: AnchoredVec<T>, owner: Vec<T>) -> bool {
        owner@ == anchor@
    }

    fn unanchor(anchor: AnchoredVec<T>) -> (r: Vec<T>) {
        anchor.into_vec()
    }
}

/// The anchor of a boxed value.
pub struct AnchoredBox<T> {
    boxed: Box<T>,
}

impl<T> View for AnchoredBox<T> {
    type V = T;

    closed spec fn view(&self) -> T {
        *self.boxed
    }
}

impl<T> AnchoredBox<T> {
    /// Anchors `boxed` for the time that a request uses it.
    pub fn anchor(boxed: Box<T>) -> (r: Self)
        ensures
            r@ == *boxed,
    {
        AnchoredBox { boxed }
    }

    /// Gives the anchored box back.
    pub fn into_box(self) -> (r: Box<T>)
        ensures
            *r == self@,
    {
        self.boxed
    }
}

impl<T> Unanchor for Box<T> {
    type Anchor = AnchoredBox<T>;

    open spec fn reassembles(anchor: AnchoredBox<T>, owner: Box<T>) -> bool {
        *owner == anchor@
    }

    fn unanchor(anchor: AnchoredBox<T>) -> (r: Box<T>) {
        anchor.into_box()
    }
}

/// The anchor of a boxed slice: it holds the slice whole, with its length.
pub struct AnchoredBoxedSlice<T> {
    boxed: Box<[T]>,
}

impl<T> View for AnchoredBoxedSlice<T> {
    type V = Seq<T>;

    closed spec fn view(&self) -> Seq<T> {
        self.boxed@
    }
}

impl<T> AnchoredBoxedSlice<T> {
    /// Anchors `boxed` for the time that a request uses it.
    pub fn anchor(boxed: Box<[T]>) -> (r: Self)
        ensures
            r@ == boxed@,
    {
        AnchoredBoxedSlice { boxed }
    }

    /// The number of elements of the anchored slice.
    pub fn len(&self) -> (r: usize)
        ensures
            r == self@.len(),
    {
        self.boxed.len()
    }

    /// Gives the anchored boxed slice back.
    pub fn into_boxed_slice(self) -> (r: Box<[T]>)
        ensures
            r@ == self@,
    {
        self.boxed
    }
}

impl<T> Unanchor for Box<[T]> {
    type Anchor = AnchoredBoxedSlice<T>;

    open spec fn reassembles(anchor: AnchoredBoxedSlice<T>, owner: Box<[T]>) -> bool {
        owner@ == anchor@
    }

    fn unanchor(anchor: AnchoredBoxedSlice<T>) -> (r: Box<[T]>) {
        anchor.into_boxed_slice()
    }
}

} // verus!
