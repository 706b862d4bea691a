use qoi_decoder::opcode::{two_bit_op_end, two_bit_op_start, DIFF, INDEX, LUMA, RUN};
use qoi_decoder::{read_header, read_op, ColorCache, DecodeError, Header, ImageData, Op, Pixel};

const END: [u8; 8] = [0, 0, 0, 0, 0, 0, 0, 1];

fn header(width: u32, height: u32, channels: u8, colorspace: u8) -> Vec<u8> {
    let mut v = b"qoif".to_vec();
    v.extend_from_slice(&width.to_be_bytes());
    v.extend_from_slice(&height.to_be_bytes());
    v.push(channels);
    v.push(colorspace);
    v
}

fn image(width: u32, height: u32, stream: &[u8]) -> Vec<u8> {
    let mut v = header(width, height, 4, 0);
    v.extend_from_slice(stream);
    v.extend_from_slice(&END);
    v
}

fn pixels(bytes: &[u8]) -> Vec<u8> {
    ImageData::decode(bytes).expect("decodes").image_data().to_vec()
}

#[test]
fn single_rgba_pixel() {
    assert_eq!(pixels(&image(1, 1, &[0xFF, 10, 20, 30, 40])), vec![10, 20, 30, 40]);
}

#[test]
fn run_repeats_previous_pixel() {
    let out = pixels(&image(3, 1, &[0xFF, 10, 20, 30, 40, 0b1100_0001]));
    assert_eq!(out, [10, 20, 30, 40].repeat(3));
}

#[test]
fn index_before_any_pixel_reads_initial_cache() {
    assert_eq!(pixels(&image(1, 1, &[0x05])), vec![0, 0, 0, 0]);
}

#[test]
fn diff_wraps_below_zero() {
    assert_eq!(pixels(&image(1, 1, &[0b0100_0000])), vec![254, 254, 254, 255]);
}

#[test]
fn header_without_stream_is_truncated() {
    let bytes = header(2, 2, 4, 0);
    assert_eq!(ImageData::decode(&bytes).err(), Some(DecodeError::TruncatedInput));
}

#[test]
fn wrong_magic_is_refused_whatever_follows() {
    let mut bytes = image(1, 1, &[0xFF, 10, 20, 30, 40]);
    bytes[0] = b'p';
    assert_eq!(ImageData::decode(&bytes).err(), Some(DecodeError::MagicMismatch));
    assert_eq!(ImageData::decode(b"abcd").err(), Some(DecodeError::MagicMismatch));
    assert_eq!(ImageData::decode(b"QOIF\0\0").err(), Some(DecodeError::MagicMismatch));
}

#[test]
fn short_buffers_are_truncated() {
    assert_eq!(ImageData::decode(&[]).err(), Some(DecodeError::TruncatedInput));
    assert_eq!(ImageData::decode(b"qoi").err(), Some(DecodeError::TruncatedInput));
    let mut bytes = header(1, 1, 4, 0);
    bytes.truncate(13);
    assert_eq!(ImageData::decode(&bytes).err(), Some(DecodeError::TruncatedInput));
}

#[test]
fn every_prefix_of_an_image_is_refused() {
    let bytes = image(3, 1, &[0xFF, 10, 20, 30, 40, 0b1100_0001]);
    assert!(ImageData::decode(&bytes).is_ok());
    for k in 0..bytes.len() {
        assert!(ImageData::decode(&bytes[..k]).is_err(), "prefix of {} bytes", k);
    }
}

#[test]
fn truncated_operands() {
    let mut rgba = header(1, 1, 4, 0);
    rgba.extend_from_slice(&[0xFF, 1, 2, 3]);
    assert_eq!(ImageData::decode(&rgba).err(), Some(DecodeError::TruncatedInput));
    let mut rgb = header(1, 1, 4, 0);
    rgb.extend_from_slice(&[0xFE, 1, 2]);
    assert_eq!(ImageData::decode(&rgb).err(), Some(DecodeError::TruncatedInput));
    let mut luma = header(1, 1, 4, 0);
    luma.push(0x80);
    assert_eq!(ImageData::decode(&luma).err(), Some(DecodeError::TruncatedInput));
}

#[test]
fn end_marker_must_be_exact() {
    let mut extra = image(1, 1, &[0xFF, 1, 2, 3, 4]);
    extra.push(0);
    assert_eq!(ImageData::decode(&extra).err(), Some(DecodeError::InvalidEndMarker));
    let mut short = image(1, 1, &[0xFF, 1, 2, 3, 4]);
    short.pop();
    assert_eq!(ImageData::decode(&short).err(), Some(DecodeError::InvalidEndMarker));
    let mut wrong = image(1, 1, &[0xFF, 1, 2, 3, 4]);
    let n = wrong.len();
    wrong[n - 1] = 2;
    assert_eq!(ImageData::decode(&wrong).err(), Some(DecodeError::InvalidEndMarker));
    let mut none = header(1, 1, 4, 0);
    none.extend_from_slice(&[0xFF, 1, 2, 3, 4]);
    assert_eq!(ImageData::decode(&none).err(), Some(DecodeError::InvalidEndMarker));
}

#[test]
fn empty_image_needs_only_the_end_marker() {
    let img = ImageData::decode(&image(0, 5, &[])).expect("decodes");
    assert!(img.image_data().is_empty());
    assert_eq!(img.header().height, 5);
}

#[test]
fn rgb_inherits_alpha() {
    let out = pixels(&image(2, 1, &[0xFF, 1, 2, 3, 77, 0xFE, 9, 8, 7]));
    assert_eq!(out, vec![1, 2, 3, 77, 9, 8, 7, 77]);
}

#[test]
fn luma_applies_green_relative_deltas() {
    // green delta 40 - 32 = 8; red 9 - 8 = 1, blue 10 - 8 = 2 beyond it
    assert_eq!(pixels(&image(1, 1, &[0x80 | 40, 0x9A])), vec![9, 8, 10, 255]);
}

#[test]
fn luma_wraps_below_zero() {
    assert_eq!(pixels(&image(1, 1, &[0x80, 0x00])), vec![216, 224, 216, 255]);
}

#[test]
fn diff_wraps_above_255() {
    let out = pixels(&image(2, 1, &[0xFF, 255, 255, 255, 9, 0b0111_1111]));
    assert_eq!(out, vec![255, 255, 255, 9, 0, 0, 0, 9]);
}

#[test]
fn produced_pixel_is_cached_in_its_slot() {
    // (10, 20, 30, 40) hashes to slot 12; the diff pixel (11, 21, 31, 40) to slot 27
    let out = pixels(&image(3, 1, &[0xFF, 10, 20, 30, 40, 0b0111_1111, 12]));
    assert_eq!(out, vec![10, 20, 30, 40, 11, 21, 31, 40, 10, 20, 30, 40]);
}

#[test]
fn index_result_is_written_back() {
    // slot 0 holds (0, 0, 0, 0), which hashes to slot 0 and is stored there again
    let out = pixels(&image(2, 1, &[0x00, 0x00]));
    assert_eq!(out, vec![0; 8]);
}

#[test]
fn run_leaves_previous_pixel_and_cache() {
    let out = pixels(&image(5, 1, &[0xFF, 10, 20, 30, 40, 0b1100_0001, 0b0111_1111, 12]));
    let mut expected = [10, 20, 30, 40].repeat(3);
    expected.extend_from_slice(&[11, 21, 31, 40, 10, 20, 30, 40]);
    assert_eq!(out, expected);
}

#[test]
fn run_at_start_repeats_default_pixel() {
    assert_eq!(pixels(&image(2, 1, &[0b1100_0001])), [0, 0, 0, 255].repeat(2));
}

#[test]
fn run_past_the_image_is_cut() {
    let bytes = image(2, 1, &[0xFF, 1, 2, 3, 4, 0b1100_0101]);
    let img = ImageData::decode(&bytes).expect("decodes");
    assert_eq!(img.image_data(), &[1, 2, 3, 4, 1, 2, 3, 4][..]);
}

#[test]
fn longest_runs() {
    let out = pixels(&image(62, 1, &[0b1111_1101]));
    assert_eq!(out.len(), 62 * 4);
    assert!(out.chunks(4).all(|p| p == [0, 0, 0, 255]));
    let two = pixels(&image(124, 1, &[0b1111_1101, 0b1111_1101]));
    assert_eq!(two.len(), 124 * 4);
}

#[test]
fn output_size_is_width_times_height_times_four() {
    let img = ImageData::decode(&image(3, 2, &[0b1100_0101])).expect("decodes");
    assert_eq!(img.image_data().len(), 3 * 2 * 4);
}

#[test]
fn header_fields_are_big_endian_and_unchecked() {
    let mut bytes = header(0x0102_0304, 0x0A0B_0C0D, 7, 9);
    bytes.extend_from_slice(&END);
    let h = read_header(&bytes).expect("header");
    assert_eq!(
        h,
        Header { width: 0x0102_0304, height: 0x0A0B_0C0D, channels: 7, colorspace: 9 }
    );
    let img = ImageData::decode(&image(0, 0, &[])).expect("decodes");
    assert_eq!(img.header(), Header { width: 0, height: 0, channels: 4, colorspace: 0 });
}

#[test]
fn opcodes_are_read_by_priority() {
    assert_eq!(read_op(&[0xFE, 1, 2, 3], 0), Some(Op::Rgb { r: 1, g: 2, b: 3 }));
    assert_eq!(read_op(&[0xFF, 1, 2, 3, 4], 0), Some(Op::Rgba { r: 1, g: 2, b: 3, a: 4 }));
    assert_eq!(read_op(&[0x3F], 0), Some(Op::Index { index: 63 }));
    assert_eq!(read_op(&[0b0110_1101], 0), Some(Op::Diff { dr: 2, dg: 3, db: 1 }));
    assert_eq!(read_op(&[0xAB, 0x5C], 0), Some(Op::Luma { dg: 0x2B, dr_dg: 5, db_dg: 12 }));
    assert_eq!(read_op(&[0xFD], 0), Some(Op::Run { run: 61 }));
    assert_eq!(read_op(&[0xFE, 1, 2], 0), None);
    assert_eq!(read_op(&[0x00], 1), None);
}

#[test]
fn pixel_hash_and_arithmetic() {
    let p = Pixel::new(10, 20, 30, 40);
    assert_eq!(p.hash(), 12);
    assert_eq!(Pixel::new(255, 255, 255, 255).hash(), (26 * 255) % 64);
    assert_eq!(p.flat(), [10, 20, 30, 40]);
    assert_eq!(p.wrapping_add(250, 1, 0), Pixel::new(4, 21, 30, 40));
}

#[test]
fn color_cache_overwrites_by_hash() {
    let mut cache = ColorCache::new();
    assert_eq!(cache.get(5), Pixel::new(0, 0, 0, 0));
    let p = Pixel::new(10, 20, 30, 40);
    cache.put(p);
    assert_eq!(cache.get(12), p);
    // (74, 20, 30, 40) collides with p in slot 12 and replaces it
    let q = Pixel::new(74, 20, 30, 40);
    assert_eq!(q.hash(), 12);
    cache.put(q);
    assert_eq!(cache.get(12), q);
}

#[test]
fn two_bit_tag_ranges() {
    assert_eq!((two_bit_op_start(INDEX), two_bit_op_end(INDEX)), (0x00, 0x3F));
    assert_eq!((two_bit_op_start(DIFF), two_bit_op_end(DIFF)), (0x40, 0x7F));
    assert_eq!((two_bit_op_start(LUMA), two_bit_op_end(LUMA)), (0x80, 0xBF));
    assert_eq!((two_bit_op_start(RUN), two_bit_op_end(RUN)), (0xC0, 0xFF));
}

#[test]
fn two_bit_tags_keep_only_the_low_bits() {
    assert_eq!(two_bit_op_start(5), 0x40);
    assert_eq!(two_bit_op_end(7), 0xFF);
    assert_eq!((two_bit_op_start(255), two_bit_op_end(255)), (0xC0, 0xFF));
    assert_eq!((two_bit_op_start(4), two_bit_op_end(4)), (0x00, 0x3F));
}

#[test]
fn inserting_a_run_splices_copies() {
    let stream = [0xFF, 10, 20, 30, 40, 0b0111_1111, 0x80 | 40, 0x9A, 12];
    let before = pixels(&image(4, 1, &stream));
    for cut in [0usize, 5, 6, 8, 9] {
        let mut with_run = stream[..cut].to_vec();
        with_run.push(0b1100_0010);
        with_run.extend_from_slice(&stream[cut..]);
        let after = pixels(&image(7, 1, &with_run));
        let done = match cut {
            0 => 0,
            5 => 1,
            6 => 2,
            8 => 3,
            _ => 4,
        };
        // the pixel decoded last before the run, or the default one
        let copy = if done == 0 { vec![0, 0, 0, 255] } else { before[4 * (done - 1)..4 * done].to_vec() };
        let mut expected = before[..4 * done].to_vec();
        for _ in 0..3 {
            expected.extend_from_slice(&copy);
        }
        expected.extend_from_slice(&before[4 * done..]);
        assert_eq!(after, expected, "run put in at byte {}", cut);
    }
}
