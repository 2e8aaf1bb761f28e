//! The byte layout of an encoded image.
//!
//! An encoding is three parts laid end to end against one output cursor:
//! the magic line `P3` with a newline, a metadata block giving the
//! dimensions and the maximum channel value in decimal ASCII, and the
//! pixel section of one raw quantized byte per channel, row-major and
//! channel-interleaved with no separators. The raw single-byte pixel
//! layout is the contract to match here, even though the `P3` magic
//! nominally names a whitespace-delimited textual format.

use vstd::prelude::*;
use vstd::arithmetic::div_mod::lemma_fundamental_div_mod;
use vstd::arithmetic::div_mod::lemma_mod_bound;
use vstd::arithmetic::div_mod::lemma_div_multiples_vanish;
use crate::quantize::Sample;
use crate::quantize::quantize;
use crate::quantize::quantize_spec;

verus! {

/// The decimal ASCII rendering of `n`, most significant digit first,
/// without sign or padding.
pub open spec fn dec_digits(n: nat) -> Seq<u8>
    decreases n,
{
    if n < 10 {
        seq![(48 + n) as u8]
    } else {
        dec_digits(n / 10).push((48 + n % 10) as u8)
    }
}

/// The bytes of the magic line: `P`, `3`, a newline.
pub open spec fn magic_bytes() -> Seq<u8> {
    seq![80u8, 51u8, 10u8]
}

/// The bytes of the metadata block: width, a space, height, a newline,
/// the maximum channel value, a newline.
pub open spec fn metadata_bytes(width: u32, height: u32, max_pixel_val: u32) -> Seq<u8> {
    dec_digits(width as nat) + seq![32u8] + dec_digits(height as nat) + seq![10u8]
        + dec_digits(max_pixel_val as nat) + seq![10u8]
}

/// The bit patterns a buffer of samples holds, in buffer order.
pub open spec fn sample_bits(samples: Seq<Sample>) -> Seq<u32> {
    samples.map_values(|sample: Sample| sample.bits)
}

/// The pixel section: one quantized byte per sample for every sample
/// inside a complete group of three; a trailing incomplete group
/// contributes nothing.
pub open spec fn pixel_bytes(samples: Seq<u32>) -> Seq<u8> {
    Seq::new((samples.len() / 3) * 3, |i: int| quantize_spec(samples[i]))
}

/// The whole encoding of one image: the magic line, the metadata block
/// with maximum channel value 255, and the pixel section.
pub open spec fn ppm_output(samples: Seq<u32>, width: u32, height: u32) -> Seq<u8> {
    magic_bytes() + metadata_bytes(width, height, 255) + pixel_bytes(samples)
}

/// The pixel section holds exactly three bytes per complete group of
/// three samples and never exceeds the sample count: a trailing
/// incomplete group is dropped, not padded or emitted.
pub proof fn lemma_pixel_byte_count(samples: Seq<u32>)
    ensures
        pixel_bytes(samples).len() == 3 * (samples.len() / 3),
        pixel_bytes(samples).len() <= samples.len(),
{
    lemma_fundamental_div_mod(samples.len() as int, 3);
    lemma_mod_bound(samples.len() as int, 3);
}

/// A buffer that matches the declared dimensions — three samples for
/// each of `width * height` pixels — yields a pixel section of exactly
/// one byte per sample, and so an encoding of exactly the header and
/// `width * height * 3` pixel bytes.
pub proof fn lemma_pixel_bytes_match_dimensions(samples: Seq<u32>, width: u32, height: u32)
    requires
        samples.len() == width * height * 3,
    ensures
        pixel_bytes(samples).len() == width * height * 3,
        ppm_output(samples, width, height).len() == magic_bytes().len() + metadata_bytes(
            width,
            height,
            255,
        ).len() + width * height * 3,
{
    lemma_div_multiples_vanish((width * height) as int, 3);
}

/// Every encoding opens with the header: the three magic bytes `P`,
/// `3`, newline, then the metadata block rendering the declared
/// dimensions and the maximum channel value in decimal ASCII, ahead of
/// any pixel byte.
pub proof fn lemma_header_leads(samples: Seq<u32>, width: u32, height: u32)
    ensures
        ppm_output(samples, width, height).subrange(0, 3) == magic_bytes(),
        ppm_output(samples, width, height).subrange(
            0,
            magic_bytes().len() + metadata_bytes(width, height, 255).len() as int,
        ) == magic_bytes() + metadata_bytes(width, height, 255),
{
    assert(ppm_output(samples, width, height).subrange(0, 3) =~= magic_bytes());
    assert(ppm_output(samples, width, height).subrange(
        0,
        magic_bytes().len() + metadata_bytes(width, height, 255).len() as int,
    ) =~= magic_bytes() + metadata_bytes(width, height, 255));
}

/// Encoding is pure: the bytes of an encoding are a function of the
/// sample buffer and the declared dimensions alone, so any two encodings
/// of the same input are identical, whatever sinks they go to.
pub proof fn lemma_encoding_deterministic(
    samples: Seq<u32>,
    width: u32,
    height: u32,
    first: Seq<u8>,
    second: Seq<u8>,
)
    requires
        first == ppm_output(samples, width, height),
        second == ppm_output(samples, width, height),
    ensures
        first == second,
{
}

/// The decimal ASCII rendering of `n`.
pub fn dec_bytes(n: u32) -> (digits: Vec<u8>)
    ensures
        digits@ == dec_digits(n as nat),
    decreases n,
{
    if n < 10 {
        let mut digits: Vec<u8> = Vec::new();
        digits.push(48 + n as u8);
        proof {
            assert(digits@ =~= dec_digits(n as nat));
        }
        digits
    } else {
        let mut digits = dec_bytes(n / 10);
        digits.push(48 + (n % 10) as u8);
        proof {
            assert(digits@ =~= dec_digits(n as nat));
        }
        digits
    }
}

/// The magic line as bytes.
pub fn magic_line() -> (line: Vec<u8>)
    ensures
        line@ == magic_bytes(),
{
    let mut line: Vec<u8> = Vec::new();
    line.push(80);  // 'P'
    line.push(51);  // '3'
    line.push(10);  // newline
    proof {
        assert(line@ =~= magic_bytes());
    }
    line
}

/// The metadata block as bytes.
pub fn metadata_line(width: u32, height: u32, max_pixel_val: u32) -> (line: Vec<u8>)
    ensures
        line@ == metadata_bytes(width, height, max_pixel_val),
{
    let mut line = dec_bytes(width);
    line.push(32);  // space
    let mut rest = dec_bytes(height);
    line.append(&mut rest);
    line.push(10);  // newline
    let mut max_digits = dec_bytes(max_pixel_val);
    line.append(&mut max_digits);
    line.push(10);  // newline
    proof {
        assert(line@ =~= metadata_bytes(width, height, max_pixel_val));
    }
    line
}

/// The pixel section as bytes: quantize each sample of every complete
/// group of three, in buffer order.
pub fn pixel_section(image_data: &[Sample]) -> (section: Vec<u8>)
    ensures
        section@ == pixel_bytes(sample_bits(image_data@)),
{
    let ghost target = pixel_bytes(sample_bits(image_data@));
    let length: usize = image_data.len();
    proof {
        lemma_fundamental_div_mod(image_data@.len() as int, 3);
        lemma_mod_bound(image_data@.len() as int, 3);
    }
    let limit: usize = (length / 3) * 3;
    let mut section: Vec<u8> = Vec::new();
    let mut index: usize = 0;
    while index < limit
        invariant
            index <= limit,
            limit == (image_data@.len() / 3) * 3,
            limit <= image_data@.len(),
            target == pixel_bytes(sample_bits(image_data@)),
            target.len() == limit,
            section@ == target.subrange(0, index as int),
        decreases limit - index,
    {
        let byte = quantize(image_data[index]);
        section.push(byte);
        index = index + 1;
        proof {
            assert(section@ =~= target.subrange(0, index as int));
        }
    }
    proof {
        assert(target.subrange(0, target.len() as int) =~= target);
    }
    section
}

} // verus!
