//! Byte sinks: the destinations an encoding is written to.

use vstd::prelude::*;

verus! {

/// The failure a sink reports: a write did not complete. The encoder
/// aborts on the first such failure and hands it back unchanged; bytes
/// already accepted stay in the sink.
#[derive(Clone, Copy, Debug, PartialEq, Eq, Structural)]
pub struct SinkError;

/// The store grew by exactly `bytes`: `after` is `before` with `bytes`
/// appended.
pub open spec fn appended(before: Seq<u8>, after: Seq<u8>, bytes: Seq<u8>) -> bool {
    after == before + bytes
}

/// The store grew by some prefix of `bytes` — possibly none of it,
/// possibly all — and by nothing else.
pub open spec fn appended_prefix(before: Seq<u8>, after: Seq<u8>, bytes: Seq<u8>) -> bool {
    exists|taken: int| 0 <= taken <= bytes.len() && after == before + bytes.subrange(0, taken)
}

/// A destination accepting sequential byte writes.
///
/// `contents` is every byte the sink has accepted so far, oldest first.
/// A write either appends its whole argument and reports success, or
/// appends some prefix of it and reports failure; a sink never rewrites
/// or drops what it already holds.
pub trait Sink {
    /// Every byte the sink has accepted, in the order it arrived.
    /// The default, an empty view, is only a placeholder: a verified
    /// implementation overrides it with its real store, since with the
    /// placeholder no successful write of a nonempty slice could meet
    /// its contract. Implementations outside the verified world leave
    /// it be; no executable code ever calls it.
    open spec fn contents(&self) -> Seq<u8> {
        Seq::empty()
    }

    /// Whether this sink can never fail a write. On an infallible sink
    /// every write returns `Ok`, and the sink stays infallible; success
    /// of a whole encode is owed exactly there. The cautious default,
    /// `false`, promises nothing; a sink that cannot fail overrides it,
    /// as `VecSink` does. Implementations outside the verified world
    /// leave both defaults be.
    open spec fn infallible(&self) -> bool {
        false
    }

    /// Append all of `bytes` to the sink.
    fn write_bytes(&mut self, bytes: &[u8]) -> (outcome: Result<(), SinkError>)
        ensures
            outcome is Ok ==> appended(old(self).contents(), final(self).contents(), bytes@),
            outcome is Err ==> appended_prefix(
                old(self).contents(),
                final(self).contents(),
                bytes@,
            ),
            old(self).infallible() ==> outcome is Ok && final(self).infallible(),
    ;

    /// Append the single byte `byte` to the sink.
    fn write_byte(&mut self, byte: u8) -> (outcome: Result<(), SinkError>)
        ensures
            outcome is Ok ==> final(self).contents() == old(self).contents().push(byte),
            outcome is Err ==> final(self).contents() == old(self).contents()
                || final(self).contents() == old(self).contents().push(byte),
            old(self).infallible() ==> outcome is Ok && final(self).infallible(),
    ;
}

/// A sink that accumulates bytes in memory and never fails.
pub struct VecSink {
    /// The bytes accepted so far.
    pub bytes: Vec<u8>,
}

impl VecSink {
    /// An empty in-memory sink.
    pub fn new() -> (sink: VecSink)
        ensures
            sink.contents() == Seq::<u8>::empty(),
    {
        VecSink { bytes: Vec::new() }
    }
}

impl Sink for VecSink {
    open spec fn contents(&self) -> Seq<u8> {
        self.bytes@
    }

    open spec fn infallible(&self) -> bool {
        true
    }

    fn write_bytes(&mut self, bytes: &[u8]) -> (outcome: Result<(), SinkError>)
        ensures
            outcome is Ok,
    {
        let ghost start = self.bytes@;
        proof {
            assert(self.bytes@ =~= start + bytes@.subrange(0, 0));
        }
        let mut index: usize = 0;
        while index < bytes.len()
            invariant
                index <= bytes@.len(),
                self.bytes@ == start + bytes@.subrange(0, index as int),
            decreases bytes@.len() - index,
        {
            self.bytes.push(bytes[index]);
            index = index + 1;
            proof {
                assert(self.bytes@ =~= start + bytes@.subrange(0, index as int));
            }
        }
        proof {
            assert(start + bytes@.subrange(0, bytes@.len() as int) =~= start + bytes@);
        }
        Ok(())
    }

    fn write_byte(&mut self, byte: u8) -> (outcome: Result<(), SinkError>)
        ensures
            outcome is Ok,
    {
        self.bytes.push(byte);
        Ok(())
    }
}

} // verus!
