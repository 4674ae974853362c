//! Edges seen as pairs of endpoints, optionally with a weight.
use vstd::prelude::*;
use core::ops::{Deref, DerefMut};

verus! {

/// Something with a source and a sink.
pub trait Edge {
    spec fn source_of(&self) -> u64;

    spec fn sink_of(&self) -> u64;

    fn source(&self) -> (r: u64)
        ensures
            r == self.source_of(),
    ;

    fn sink(&self) -> (r: u64)
        ensures
            r == self.sink_of(),
    ;

    /// Whether source and sink are the same vertex.
    fn is_loop(&self) -> (r: bool)
        ensures
            r == (self.source_of() == self.sink_of()),
    {
        self.source() == self.sink()
    }
}

/// An edge that carries a weight.
pub trait EdgeWeighted<W>: Edge + Sized {
    spec fn weight_of(&self) -> W;

    fn weight_owned(self) -> (r: W)
        ensures
            r == self.weight_of(),
    ;

    fn weight_ref(&self) -> (r: &W)
        ensures
            *r == self.weight_of(),
    ;

    /// The endpoints and the weight, taken apart.
    fn split(self) -> (r: ((u64, u64), W))
        ensures
            r == ((self.source_of(), self.sink_of()), self.weight_of()),
    {
        let s = self.source();
        let t = self.sink();
        ((s, t), self.weight_owned())
    }
}

impl Edge for (u64, u64) {
    open spec fn source_of(&self) -> u64 {
        self.0
    }

    open spec fn sink_of(&self) -> u64 {
        self.1
    }

    fn source(&self) -> (r: u64) {
        self.0
    }

    fn sink(&self) -> (r: u64) {
        self.1
    }
}

impl<W> Edge for (u64, u64, W) {
    open spec fn source_of(&self) -> u64 {
        self.0
    }

    open spec fn sink_of(&self) -> u64 {
        self.1
    }

    fn source(&self) -> (r: u64) {
        self.0
    }

    fn sink(&self) -> (r: u64) {
        self.1
    }
}

impl<W> EdgeWeighted<W> for (u64, u64, W) {
    open spec fn weight_of(&self) -> W {
        self.2
    }

    fn weight_owned(self) -> (r: W) {
        self.2
    }

    fn weight_ref(&self) -> (r: &W) {
        &self.2
    }
}

/// An edge whose weight is a pointer, read through to what it points at.
pub trait EdgeDeref<W: core::ops::Deref>: Edge {
    fn weight(&self) -> &W::Target;
}

/// An edge whose pointer weight can also be written through.
pub trait EdgeDerefMut<W: core::ops::DerefMut>: EdgeDeref<W> {
    fn weight_mut(&mut self) -> &mut W::Target;
}

impl<W: core::ops::Deref> EdgeDeref<W> for (u64, u64, W) {
    fn weight(&self) -> &W::Target {
        self.2.deref()
    }
}

impl<W: core::ops::DerefMut> EdgeDerefMut<W> for (u64, u64, W) {
    fn weight_mut(&mut self) -> &mut W::Target {
        self.2.deref_mut()
    }
}

} // verus!
