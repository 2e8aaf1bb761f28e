//! The encoder: streams one image to a sink in the ASCII (`P3`) PPM layout.

use vstd::prelude::*;
use vstd::arithmetic::div_mod::lemma_fundamental_div_mod;
use vstd::arithmetic::div_mod::lemma_mod_bound;
use crate::format::magic_bytes;
use crate::format::metadata_bytes;
use crate::format::pixel_bytes;
use crate::format::ppm_output;
use crate::format::sample_bits;
use crate::format::magic_line;
use crate::format::metadata_line;
use crate::format::pixel_section;
use crate::quantize::Sample;
use crate::quantize::quantize;
use crate::sink::Sink;
use crate::sink::SinkError;
use crate::sink::appended;
use crate::sink::appended_prefix;

verus! {

/// Name one witness for a growth by a prefix.
proof fn lemma_prefix_witness(before: Seq<u8>, after: Seq<u8>, bytes: Seq<u8>, taken: int)
    requires
        0 <= taken <= bytes.len(),
        after == before + bytes.subrange(0, taken),
    ensures
        appended_prefix(before, after, bytes),
{
    assert(0 <= taken <= bytes.len() && after == before + bytes.subrange(0, taken));
}

/// A prefix of one piece, put after everything before that piece, is a
/// prefix of the whole concatenation.
proof fn lemma_prefix_through_concat(head: Seq<u8>, tail: Seq<u8>, taken: int)
    requires
        0 <= taken <= tail.len(),
    ensures
        (head + tail).subrange(0, head.len() + taken) == head + tail.subrange(0, taken),
{
    assert((head + tail).subrange(0, head.len() + taken) =~= head + tail.subrange(0, taken));
}

/// A store that grew by a prefix of `tail` after already gaining `head`
/// has grown by a prefix of `head + tail`.
proof fn lemma_prefix_extends(base: Seq<u8>, after: Seq<u8>, head: Seq<u8>, tail: Seq<u8>)
    requires
        appended_prefix(base + head, after, tail),
    ensures
        appended_prefix(base, after, head + tail),
{
    let taken = choose|taken: int|
        0 <= taken <= tail.len() && after == (base + head) + tail.subrange(0, taken);
    lemma_prefix_through_concat(head, tail, taken);
    assert(after =~= base + (head + tail).subrange(0, head.len() + taken));
}

/// Writes images in the ASCII (`P3`) PPM format to the sink it owns.
/// The writer keeps no state of its own between calls: every operation
/// only appends bytes to the sink.
pub struct PPMWriter<TWrite> {
    /// The destination every write goes to.
    pub writer: TWrite,
}

impl<TWrite: Sink> PPMWriter<TWrite> {
    /// Wrap a sink. Nothing is validated and nothing is written yet.
    pub fn new(writer: TWrite) -> (ppm_writer: Self)
        ensures
            ppm_writer.writer == writer,
    {
        PPMWriter { writer }
    }

    /// Encode one image against a single output cursor: the magic line,
    /// then the metadata block with maximum channel value 255, then one
    /// quantized byte per channel of every complete sample group.
    ///
    /// On success the sink has gained exactly the encoding of the input.
    /// The first sink failure aborts the encode and is handed back; the
    /// sink then holds what it held before plus some prefix of the
    /// encoding — nothing is retried, rolled back, or written after the
    /// failing call.
    pub fn write(&mut self, image_data: &[Sample], width: u32, height: u32) -> (outcome: Result<
        (),
        SinkError,
    >)
        ensures
            outcome is Ok ==> appended(
                old(self).writer.contents(),
                final(self).writer.contents(),
                ppm_output(sample_bits(image_data@), width, height),
            ),
            outcome is Err ==> appended_prefix(
                old(self).writer.contents(),
                final(self).writer.contents(),
                ppm_output(sample_bits(image_data@), width, height),
            ),
            old(self).writer.infallible() ==> outcome is Ok && final(self).writer.infallible(),
    {
        let ghost base = self.writer.contents();
        let ghost magic = magic_bytes();
        let ghost metadata = metadata_bytes(width, height, 255);
        let ghost pixels = pixel_bytes(sample_bits(image_data@));
        let ghost total = ppm_output(sample_bits(image_data@), width, height);
        match self.write_magic_number() {
            Ok(()) => {},
            Err(failure) => {
                proof {
                    let taken = choose|taken: int|
                        0 <= taken <= magic.len() && self.writer.contents() == base
                            + magic.subrange(0, taken);
                    assert(total.subrange(0, taken) =~= magic.subrange(0, taken));
                    lemma_prefix_witness(base, self.writer.contents(), total, taken);
                }
                return Err(failure);
            },
        }
        match self.write_metadata(width, height, 255) {
            Ok(()) => {},
            Err(failure) => {
                proof {
                    lemma_prefix_extends(base, self.writer.contents(), magic, metadata);
                    let taken = choose|taken: int|
                        0 <= taken <= (magic + metadata).len() && self.writer.contents() == base
                            + (magic + metadata).subrange(0, taken);
                    assert(total.subrange(0, taken) =~= (magic + metadata).subrange(0, taken));
                    lemma_prefix_witness(base, self.writer.contents(), total, taken);
                }
                return Err(failure);
            },
        }
        let ghost mid = self.writer.contents();
        proof {
            assert(mid =~= base + (magic + metadata));
        }
        let outcome = self.write_image_data(image_data);
        proof {
            if outcome is Ok {
                assert(mid + pixels =~= base + total);
            } else {
                lemma_prefix_extends(base, self.writer.contents(), magic + metadata, pixels);
                assert(total == (magic + metadata) + pixels);
            }
        }
        outcome
    }

    /// Write the magic line: `P3` and a newline, declaring the format.
    pub fn write_magic_number(&mut self) -> (outcome: Result<(), SinkError>)
        ensures
            outcome is Ok ==> appended(
                old(self).writer.contents(),
                final(self).writer.contents(),
                magic_bytes(),
            ),
            outcome is Err ==> appended_prefix(
                old(self).writer.contents(),
                final(self).writer.contents(),
                magic_bytes(),
            ),
            old(self).writer.infallible() ==> outcome is Ok && final(self).writer.infallible(),
    {
        let line = magic_line();
        self.writer.write_bytes(line.as_slice())
    }

    /// Write the metadata block: width, a space, height, a newline, the
    /// maximum channel value, a newline, in decimal ASCII.
    pub fn write_metadata(&mut self, width: u32, height: u32, max_pixel_val: u32) -> (outcome:
        Result<(), SinkError>)
        ensures
            outcome is Ok ==> appended(
                old(self).writer.contents(),
                final(self).writer.contents(),
                metadata_bytes(width, height, max_pixel_val),
            ),
            outcome is Err ==> appended_prefix(
                old(self).writer.contents(),
                final(self).writer.contents(),
                metadata_bytes(width, height, max_pixel_val),
            ),
            old(self).writer.infallible() ==> outcome is Ok && final(self).writer.infallible(),
    {
        let line = metadata_line(width, height, max_pixel_val);
        self.writer.write_bytes(line.as_slice())
    }

    /// Write the pixel section: each complete group of three samples
    /// becomes three quantized bytes, written one sink call per byte in
    /// buffer order; a trailing incomplete group is silently dropped.
    pub fn write_image_data(&mut self, image_data: &[Sample]) -> (outcome: Result<(), SinkError>)
        ensures
            outcome is Ok ==> appended(
                old(self).writer.contents(),
                final(self).writer.contents(),
                pixel_bytes(sample_bits(image_data@)),
            ),
            outcome is Err ==> appended_prefix(
                old(self).writer.contents(),
                final(self).writer.contents(),
                pixel_bytes(sample_bits(image_data@)),
            ),
            old(self).writer.infallible() ==> outcome is Ok && final(self).writer.infallible(),
    {
        let ghost base = self.writer.contents();
        let ghost target = pixel_bytes(sample_bits(image_data@));
        let length: usize = image_data.len();
        proof {
            lemma_fundamental_div_mod(image_data@.len() as int, 3);
            lemma_mod_bound(image_data@.len() as int, 3);
        }
        let limit: usize = (length / 3) * 3;
        let mut index: usize = 0;
        proof {
            assert(self.writer.contents() =~= base + target.subrange(0, 0));
        }
        while index < limit
            invariant
                base == old(self).writer.contents(),
                old(self).writer.infallible() ==> self.writer.infallible(),
                index <= limit,
                limit == (image_data@.len() / 3) * 3,
                limit <= image_data@.len(),
                target == pixel_bytes(sample_bits(image_data@)),
                target.len() == limit,
                self.writer.contents() == base + target.subrange(0, index as int),
            decreases limit - index,
        {
            let byte = quantize(image_data[index]);
            match self.writer.write_byte(byte) {
                Ok(()) => {},
                Err(failure) => {
                    proof {
                        assert((base + target.subrange(0, index as int)).push(byte) =~= base
                            + target.subrange(0, index as int + 1));
                        if self.writer.contents() == base + target.subrange(0, index as int) {
                            lemma_prefix_witness(base, self.writer.contents(), target, index as int);
                        } else {
                            lemma_prefix_witness(
                                base,
                                self.writer.contents(),
                                target,
                                index as int + 1,
                            );
                        }
                    }
                    return Err(failure);
                },
            }
            index = index + 1;
            proof {
                assert(self.writer.contents() =~= base + target.subrange(0, index as int));
            }
        }
        proof {
            assert(base + target.subrange(0, target.len() as int) =~= base + target);
        }
        Ok(())
    }
}

/// Encode one image into fresh memory: the same bytes a fault-free sink
/// would receive. A buffer always encodes completely here — failure can
/// only come from a sink, and there is none.
pub fn encode_to_vec(image_data: &[Sample], width: u32, height: u32) -> (encoding: Vec<u8>)
    ensures
        encoding@ == ppm_output(sample_bits(image_data@), width, height),
{
    let mut encoding = magic_line();
    let mut metadata = metadata_line(width, height, 255);
    encoding.append(&mut metadata);
    let mut pixels = pixel_section(image_data);
    encoding.append(&mut pixels);
    proof {
        assert(encoding@ =~= ppm_output(sample_bits(image_data@), width, height));
    }
    encoding
}

} // verus!
