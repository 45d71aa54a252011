//! A `std::io::Write` sink with a record of what was handed to it.
//!
//! The record changes only through the two calls below, each of which makes
//! exactly one call on the sink: nothing else in the crate can touch it.

use vstd::prelude::*;

verus! {

/// One call made on a sink.
pub enum SinkCall {
    /// `write_all` with these bytes.
    Write(Seq<u8>),
    /// `flush`.
    Flush,
}

/// A sink, the calls made on it, the bytes it accepted and the result of the
/// last call.
pub struct Sink<W> {
    inner: W,
    calls: Ghost<Seq<SinkCall>>,
    accepted: Ghost<Seq<u8>>,
    last: Ghost<std::io::Result<()>>,
}

impl<W> Sink<W> {
    /// The sink itself.
    pub closed spec fn inner(&self) -> W {
        self.inner
    }

    /// Every call made on the sink, in order.
    pub closed spec fn calls(&self) -> Seq<SinkCall> {
        self.calls@
    }

    /// The bytes of every `write_all` that succeeded, in order.
    pub closed spec fn accepted(&self) -> Seq<u8> {
        self.accepted@
    }

    /// What the last call returned.
    pub closed spec fn last(&self) -> std::io::Result<()> {
        self.last@
    }

    pub fn new(inner: W) -> (r: Self)
        ensures
            r.inner() == inner,
            r.calls() == Seq::<SinkCall>::empty(),
            r.accepted() == Seq::<u8>::empty(),
    {
        Sink { inner, calls: Ghost(Seq::empty()), accepted: Ghost(Seq::empty()), last: Ghost(Ok(())) }
    }

    /// Give the sink back.
    pub fn into_inner(self) -> (r: W)
        ensures
            r == self.inner(),
    {
        self.inner
    }
}

impl<W: std::io::Write> Sink<W> {
    /// Hands exactly `bytes` to `std::io::Write::write_all` and returns what
    /// it returns. Its documentation promises that `Ok` means every byte was
    /// written, so on `Ok` the bytes count as accepted. Nothing is claimed of
    /// what the sink does with them, nor of which error comes back.
    #[verifier::external_body]
    pub fn write_all(&mut self, bytes: &[u8]) -> (r: std::io::Result<()>)
        ensures
            final(self).calls() == old(self).calls().push(SinkCall::Write(bytes@)),
            final(self).accepted() == (if r is Ok {
                old(self).accepted() + bytes@
            } else {
                old(self).accepted()
            }),
            final(self).last() == r,
    {
        self.inner.write_all(bytes)
    }

    /// Calls `std::io::Write::flush` and returns what it returns. Nothing is
    /// claimed of the sink.
    #[verifier::external_body]
    pub fn flush(&mut self) -> (r: std::io::Result<()>)
        ensures
            final(self).calls() == old(self).calls().push(SinkCall::Flush),
            final(self).accepted() == old(self).accepted(),
            final(self).last() == r,
    {
        self.inner.flush()
    }
}

} // verus!
