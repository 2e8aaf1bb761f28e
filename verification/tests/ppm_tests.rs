use ppm::PPMWriter;
use ppm::Sample;
use ppm::Sink;
use ppm::SinkError;
use ppm::VecSink;
use ppm::encode_to_vec;
use ppm::quantize;

fn sample(value: f32) -> Sample {
    Sample { bits: value.to_bits() }
}

fn samples(values: &[f32]) -> Vec<Sample> {
    values.iter().map(|v| sample(*v)).collect()
}

fn reference_quantize(value: f32) -> u8 {
    (255.0 * value) as u8
}

const EXAMPLE_IMAGE: [f32; 18] = [
    1.0, 0.0, 0.0, 0.0, 1.0, 0.0, 0.0, 0.0, 1.0, 1.0, 1.0, 0.0, 1.0, 1.0, 1.0, 0.0, 0.0, 0.0,
];

#[test]
fn test_write_ppm() {
    let writer = VecSink::new();

    let mut ppm_writer = PPMWriter::new(writer);

    let image_data = samples(&EXAMPLE_IMAGE);

    ppm_writer.write(&image_data, 3, 2).unwrap();

    println!("{:?}", ppm_writer.writer.bytes);
}

#[test]
fn header_is_exact_for_small_dimensions() {
    let image_data = samples(&EXAMPLE_IMAGE);
    let encoding = encode_to_vec(&image_data, 3, 2);
    assert_eq!(&encoding[..11], b"P3\n3 2\n255\n");
}

#[test]
fn header_renders_dimensions_in_decimal() {
    let empty: Vec<Sample> = Vec::new();
    for (width, height) in [
        (0u32, 0u32),
        (1, 9),
        (10, 10),
        (99, 100),
        (640, 480),
        (u32::MAX, u32::MAX - 1),
    ] {
        let encoding = encode_to_vec(&empty, width, height);
        let expected = format!("P3\n{} {}\n255\n", width, height);
        assert_eq!(encoding, expected.as_bytes());
    }
}

#[test]
fn boundary_samples_quantize_to_extremes() {
    assert_eq!(quantize(sample(1.0)), 255);
    assert_eq!(quantize(sample(0.0)), 0);
}

#[test]
fn quantization_truncates_instead_of_rounding() {
    // 255.0 * 0.999 = 254.745, so the byte is 254, not 255
    assert_eq!(quantize(sample(0.999)), 254);
    assert_eq!(quantize(sample(0.999)), reference_quantize(0.999));
}

#[test]
fn quantization_matches_float_narrowing() {
    let edge_cases = [
        0.0f32,
        -0.0,
        1.0,
        -1.0,
        0.5,
        0.999,
        0.9999999,
        1.0000001,
        2.0,
        100.0,
        255.0,
        256.0,
        1.0e38,
        -1.0e38,
        1.0e-38,
        1.0e-45,
        f32::MIN_POSITIVE,
        f32::EPSILON,
        f32::MAX,
        f32::MIN,
        f32::NAN,
        -f32::NAN,
        f32::INFINITY,
        f32::NEG_INFINITY,
    ];
    for value in edge_cases {
        assert_eq!(
            quantize(sample(value)),
            reference_quantize(value),
            "sample {value} (bits {:#010x})",
            value.to_bits()
        );
    }
    // every step of the output scale, a little below and a little above
    for step in 0..=255u32 {
        let value = step as f32 / 255.0;
        for nudge in -2i32..=2 {
            let nudged = f32::from_bits(value.to_bits().wrapping_add(nudge as u32));
            assert_eq!(
                quantize(sample(nudged)),
                reference_quantize(nudged),
                "sample {nudged} (bits {:#010x})",
                nudged.to_bits()
            );
        }
    }
    // every exponent, both signs, with characteristic fractions:
    // zeros, subnormals, normals, infinities and NaN all pass through
    for exponent in 0..=255u32 {
        for fraction in [0u32, 1, 2, 0x155555, 0x400000, 0x7ffffe, 0x7fffff] {
            for sign in [0u32, 1] {
                let bits = (sign << 31) | (exponent << 23) | fraction;
                let value = f32::from_bits(bits);
                assert_eq!(
                    quantize(Sample { bits }),
                    reference_quantize(value),
                    "sample {value} (bits {bits:#010x})"
                );
            }
        }
    }
    // dense coverage where the product lands near the 0..=255 scale,
    // so rounding and ties to even decide the byte
    for exponent in 112..=135u32 {
        for step in 0..5000u32 {
            let fraction = step.wrapping_mul(2654435761) & 0x7fffff;
            let bits = (exponent << 23) | fraction;
            let value = f32::from_bits(bits);
            assert_eq!(
                quantize(Sample { bits }),
                reference_quantize(value),
                "sample {value} (bits {bits:#010x})"
            );
        }
    }
    // a spread of arbitrary bit patterns, NaN and infinities included
    for index in 0..20000u32 {
        let bits = index.wrapping_mul(2654435761).wrapping_add(97);
        let value = f32::from_bits(bits);
        assert_eq!(
            quantize(Sample { bits }),
            reference_quantize(value),
            "sample {value} (bits {bits:#010x})"
        );
    }
}

#[test]
fn incomplete_group_is_dropped() {
    let image_data = samples(&[1.0, 0.0, 1.0, 0.5]);
    let encoding = encode_to_vec(&image_data, 1, 1);
    // one complete group of three: exactly three pixel bytes follow the header
    assert_eq!(&encoding[..11], b"P3\n1 1\n255\n");
    assert_eq!(encoding.len(), 11 + 3);
    assert_eq!(&encoding[11..], &[255, 0, 255]);
}

#[test]
fn end_to_end_example() {
    let image_data = samples(&EXAMPLE_IMAGE);
    let mut ppm_writer = PPMWriter::new(VecSink::new());
    ppm_writer.write(&image_data, 3, 2).unwrap();
    let mut expected: Vec<u8> = b"P3\n3 2\n255\n".to_vec();
    expected.extend_from_slice(&[
        255, 0, 0, 0, 255, 0, 0, 0, 255, 255, 255, 0, 255, 255, 255, 0, 0, 0,
    ]);
    assert_eq!(ppm_writer.writer.bytes, expected);
}

#[test]
fn encoding_is_deterministic() {
    let image_data = samples(&EXAMPLE_IMAGE);
    let mut first = PPMWriter::new(VecSink::new());
    let mut second = PPMWriter::new(VecSink::new());
    first.write(&image_data, 3, 2).unwrap();
    second.write(&image_data, 3, 2).unwrap();
    assert_eq!(first.writer.bytes, second.writer.bytes);
    assert_eq!(first.writer.bytes, encode_to_vec(&image_data, 3, 2));
}

struct FailingSink {
    accepted: Vec<u8>,
    calls_before_failure: usize,
    calls_made: usize,
}

impl FailingSink {
    fn new(calls_before_failure: usize) -> FailingSink {
        FailingSink { accepted: Vec::new(), calls_before_failure, calls_made: 0 }
    }

    fn note_call(&mut self) -> Result<(), SinkError> {
        self.calls_made += 1;
        if self.calls_made > self.calls_before_failure {
            Err(SinkError)
        } else {
            Ok(())
        }
    }
}

impl Sink for FailingSink {
    fn write_bytes(&mut self, bytes: &[u8]) -> Result<(), SinkError> {
        self.note_call()?;
        self.accepted.extend_from_slice(bytes);
        Ok(())
    }

    fn write_byte(&mut self, byte: u8) -> Result<(), SinkError> {
        self.note_call()?;
        self.accepted.push(byte);
        Ok(())
    }
}

#[test]
fn sink_failure_aborts_the_encode() {
    let image_data = samples(&EXAMPLE_IMAGE);
    let full_encoding = encode_to_vec(&image_data, 3, 2);
    // the encode makes twenty sink calls for this image: the magic line,
    // the metadata block, and one call per pixel byte
    for calls_before_failure in 0..20usize {
        let mut ppm_writer = PPMWriter::new(FailingSink::new(calls_before_failure));
        let outcome = ppm_writer.write(&image_data, 3, 2);
        assert_eq!(outcome, Err(SinkError));
        // the failing call is the last one: nothing is written after it
        assert_eq!(ppm_writer.writer.calls_made, calls_before_failure + 1);
        // the sink holds a prefix of the encoding and nothing else
        let accepted = &ppm_writer.writer.accepted;
        assert_eq!(accepted.as_slice(), &full_encoding[..accepted.len()]);
    }
    let mut ppm_writer = PPMWriter::new(FailingSink::new(20));
    assert_eq!(ppm_writer.write(&image_data, 3, 2), Ok(()));
    assert_eq!(ppm_writer.writer.accepted, full_encoding);
}
