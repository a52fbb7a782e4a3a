use imgformat::model::Pixel;
use imgformat::qoi::{self, Qoi, QoiDecoder, QoiHeader, QoiHeaderChannels, QoiHeaderColorspace};
use imgformat::Format;

/// A 4x4 RGBA/sRGB image: black, with green at 5, blue at 7 and red at 13.
const IMAGE_SMALL: [u8; 31] = [
    0x71, 0x6f, 0x69, 0x66, 0, 0, 0, 4, 0, 0, 0, 4, 4, 0, // header
    0xc4, 0x66, 0x6e, 0x69, 0x35, 0xc3, 0x5a, 0x35, 0xc0, // opcodes
    0, 0, 0, 0, 0, 0, 0, 1, // end marker
];

const END: [u8; 8] = [0, 0, 0, 0, 0, 0, 0, 1];

fn collect(iter: &mut QoiDecoder) -> Vec<Pixel> {
    let mut v = Vec::new();
    while let Some(p) = iter.next() {
        v.push(p);
    }
    v
}

fn header(width: u32, height: u32) -> QoiHeader {
    QoiHeader {
        width,
        height,
        channels: QoiHeaderChannels::RGBA,
        colorspace: QoiHeaderColorspace::SRGB,
    }
}

fn encode_to_vec(data: &[Pixel], h: QoiHeader) -> Vec<u8> {
    let mut out = vec![];
    Qoi.encode(data, h, &mut out);
    out
}

/// The opcode bytes of a stream, between header and end marker.
fn opcodes(stream: &[u8]) -> Vec<u8> {
    assert!(stream.len() >= 22);
    assert_eq!(&stream[stream.len() - 8..], &END[..]);
    stream[14..stream.len() - 8].to_vec()
}

fn round_trip(data: &[Pixel], h: QoiHeader) {
    let out = encode_to_vec(data, h);
    let (header_read, mut iter) = Qoi.decode(&out).expect("error?");
    assert_eq!(header_read, h);
    assert_eq!(collect(&mut iter), data.to_vec());
    assert_eq!(iter.next(), None);
}

#[test]
fn decode() {
    let image = &IMAGE_SMALL[..];

    let (header, mut iter) = qoi::Qoi.decode(image).expect("error?");

    let data = collect(&mut iter);

    assert_eq!(header.width, 4);
    assert_eq!(header.height, 4);
    assert_eq!(header.channels, qoi::QoiHeaderChannels::RGBA);
    assert_eq!(header.colorspace, qoi::QoiHeaderColorspace::SRGB);

    assert_eq!(data.len(), 16);
    assert_eq!(data[0], (0, 0, 0, 255));
    assert_eq!(data[5], (0, 255, 0, 255));
    assert_eq!(data[7], (0, 0, 255, 255));
    assert_eq!(data[13], (255, 0, 0, 255));
}

#[test]
fn encode() {
    let data = &[
        (255, 255, 255, 255),
        (255, 255, 255, 255),
        (0, 255, 255, 255),
        (255, 0, 255, 255),
        (255, 255, 0, 255),
        (255, 255, 255, 255),
    ];

    let header = qoi::QoiHeader {
        width: 3,
        height: 2,
        channels: qoi::QoiHeaderChannels::RGB,
        colorspace: qoi::QoiHeaderColorspace::Linear,
    };

    let mut out = vec![];

    qoi::Qoi.encode(&data[..], header.clone(), &mut out);

    let data_write = &out[..];

    let (header_read, mut iter) = qoi::Qoi.decode(data_write).expect("error?");

    assert_eq!(header.width, header_read.width);
    assert_eq!(header.height, header_read.height);
    assert_eq!(header.channels, header_read.channels);
    assert_eq!(header.colorspace, header_read.colorspace);

    let data_read = collect(&mut iter);

    assert_eq!(&data[..], &data_read[..]);
}

#[test]
fn hash_values() {
    assert_eq!(qoi::hash((0, 0, 0, 255)), 53);
    assert_eq!(qoi::hash((1, 2, 3, 4)), 14);
    assert_eq!(qoi::hash((0, 0, 0, 0)), 0);
    assert_eq!(qoi::hash((255, 255, 255, 255)), (255 * 26) % 64);
}

#[test]
fn header_bytes_written() {
    let h = QoiHeader {
        width: 0x0102_0304,
        height: 7,
        channels: QoiHeaderChannels::RGB,
        colorspace: QoiHeaderColorspace::Linear,
    };
    let out = encode_to_vec(&[], h);
    assert_eq!(
        out,
        vec![0x71, 0x6f, 0x69, 0x66, 1, 2, 3, 4, 0, 0, 0, 7, 3, 1, 0, 0, 0, 0, 0, 0, 0, 1]
    );
}

#[test]
fn encode_appends_to_output() {
    let mut out = vec![9u8, 9];
    Qoi.encode(&[(0, 0, 0, 255)], header(1, 1), &mut out);
    assert_eq!(&out[..2], &[9, 9]);
    assert_eq!(&out[2..6], b"qoif");
    assert_eq!(opcodes(&out[2..]), vec![0xc0]);
}

#[test]
fn round_trip_edge_values() {
    let data: Vec<Pixel> = vec![
        (255, 255, 255, 255),
        (0, 0, 0, 255),
        (0, 0, 0, 0),
        (255, 0, 255, 0),
        (254, 1, 255, 0),
        (128, 127, 129, 0),
        (0, 255, 0, 128),
        (0, 255, 0, 128),
        (255, 255, 255, 255),
        (0, 0, 0, 255),
        (1, 0, 0, 255),
    ];
    round_trip(&data, header(11, 1));
}

#[test]
fn round_trip_mixed_image() {
    let mut data: Vec<Pixel> = Vec::new();
    let mut seed: u32 = 12345;
    for i in 0..300u32 {
        seed = seed.wrapping_mul(1_103_515_245).wrapping_add(12345);
        let v = (seed >> 16) as u8;
        let p = match i % 5 {
            0 => (v, v, v, 255),
            1 => (v, v.wrapping_add(3), v.wrapping_sub(2), 255),
            2 => (v, 0, 255 - v, v),
            _ => (i as u8, (i / 2) as u8, 7, 255),
        };
        let repeats = if i % 7 == 0 { 70 } else { 1 };
        for _ in 0..repeats {
            data.push(p);
        }
    }
    let n = data.len() as u32;
    round_trip(&data, header(n, 1));
    let h = QoiHeader {
        width: 2,
        height: n / 2,
        channels: QoiHeaderChannels::RGB,
        colorspace: QoiHeaderColorspace::Linear,
    };
    round_trip(&data[..(n as usize / 2) * 2], h);
}

#[test]
fn cached_pixel_uses_index() {
    let a = (10, 20, 30, 255);
    let b = (200, 100, 50, 255);
    let out = encode_to_vec(&[a, b, a], header(3, 1));
    assert_eq!(
        opcodes(&out),
        vec![0xfe, 10, 20, 30, 0xfe, 200, 100, 50, qoi::hash(a) as u8]
    );
    assert_eq!(qoi::hash(a), 9);
}

#[test]
fn transparent_black_first_is_index_zero() {
    let out = encode_to_vec(&[(0, 0, 0, 0)], header(1, 1));
    assert_eq!(opcodes(&out), vec![0x00]);
}

#[test]
fn run_of_sixty_two() {
    let data = vec![(0u8, 0u8, 0u8, 255u8); 62];
    let out = encode_to_vec(&data, header(62, 1));
    assert_eq!(opcodes(&out), vec![0xfd]);
    round_trip(&data, header(62, 1));
}

#[test]
fn run_of_sixty_three() {
    let data = vec![(0u8, 0u8, 0u8, 255u8); 63];
    let out = encode_to_vec(&data, header(63, 1));
    assert_eq!(opcodes(&out), vec![0xfd, 0xc0]);
    round_trip(&data, header(63, 1));
}

#[test]
fn run_after_resolved_pixel() {
    let p = (5, 6, 7, 255);
    let data = vec![p; 63];
    let out = encode_to_vec(&data, header(63, 1));
    assert_eq!(opcodes(&out), vec![0xa6, 0x79, 0xfd]);
}

#[test]
fn run_flushed_before_new_pixel() {
    let data = vec![(0, 0, 0, 255), (0, 0, 0, 255), (0, 0, 0, 255), (1, 1, 1, 255)];
    let out = encode_to_vec(&data, header(4, 1));
    assert_eq!(opcodes(&out), vec![0xc2, 0x7f]);
}

#[test]
fn alpha_change_uses_full_rgba() {
    let out = encode_to_vec(&[(0, 0, 0, 254)], header(1, 1));
    assert_eq!(opcodes(&out), vec![0xff, 0, 0, 0, 254]);
    let out = encode_to_vec(&[(1, 1, 1, 255), (1, 1, 1, 200)], header(2, 1));
    assert_eq!(opcodes(&out), vec![0x7f, 0xff, 1, 1, 1, 200]);
}

#[test]
fn small_diff_boundaries() {
    let out = encode_to_vec(&[(1, 1, 1, 255)], header(1, 1));
    assert_eq!(opcodes(&out), vec![0x7f]);
    let out = encode_to_vec(&[(254, 254, 254, 255)], header(1, 1));
    assert_eq!(opcodes(&out), vec![0x40]);
    let out = encode_to_vec(&[(255, 0, 1, 255)], header(1, 1));
    assert_eq!(opcodes(&out), vec![0x40 | (1 << 4) | (2 << 2) | 3]);
}

#[test]
fn luma_diff_boundaries() {
    let out = encode_to_vec(&[(2, 3, 4, 255)], header(1, 1));
    assert_eq!(opcodes(&out), vec![0xa3, 0x79]);
    let out = encode_to_vec(&[(2, 0, 0, 255)], header(1, 1));
    assert_eq!(opcodes(&out), vec![0xa0, 0xa8]);
    let out = encode_to_vec(&[(0xe0, 0xe0, 0xe0, 255)], header(1, 1));
    assert_eq!(opcodes(&out), vec![0x80, 0x88]);
}

#[test]
fn large_delta_uses_full_colour() {
    let out = encode_to_vec(&[(100, 0, 0, 255)], header(1, 1));
    assert_eq!(opcodes(&out), vec![0xfe, 100, 0, 0]);
    let out = encode_to_vec(&[(100, 0, 0, 10)], header(1, 1));
    assert_eq!(opcodes(&out), vec![0xff, 100, 0, 0, 10]);
    let out = encode_to_vec(&[(0, 32, 0, 255)], header(1, 1));
    assert_eq!(opcodes(&out), vec![0xfe, 0, 32, 0]);
}

#[test]
fn extra_pixels_ignored() {
    let data = vec![(1, 2, 3, 4), (5, 6, 7, 8), (9, 10, 11, 12)];
    let out = encode_to_vec(&data, header(2, 1));
    assert_eq!(out, encode_to_vec(&data[..2], header(2, 1)));
    round_trip(&data[..2], header(2, 1));
}

#[test]
fn fewer_pixels_give_shorter_stream() {
    let data = vec![(1, 2, 3, 4)];
    let out = encode_to_vec(&data, header(3, 1));
    assert_eq!(opcodes(&out), vec![0xff, 1, 2, 3, 4]);
    let (_, mut iter) = Qoi.decode(&out).expect("error?");
    assert_eq!(iter.next(), Some((1, 2, 3, 4)));
    assert_eq!(iter.next(), Some((0, 0, 0, 0)));
}

#[test]
fn header_rejection() {
    let mut bad_magic = IMAGE_SMALL.to_vec();
    bad_magic[0] = b'Q';
    assert!(Qoi.decode(&bad_magic).is_none());
    let mut zero_width = IMAGE_SMALL.to_vec();
    zero_width[7] = 0;
    assert!(Qoi.decode(&zero_width).is_none());
    let mut zero_height = IMAGE_SMALL.to_vec();
    zero_height[11] = 0;
    assert!(Qoi.decode(&zero_height).is_none());
    let mut channels = IMAGE_SMALL.to_vec();
    channels[12] = 5;
    assert!(Qoi.decode(&channels).is_none());
    let mut colorspace = IMAGE_SMALL.to_vec();
    colorspace[13] = 2;
    assert!(Qoi.decode(&colorspace).is_none());
    assert!(Qoi.decode(&IMAGE_SMALL[..13]).is_none());
    assert!(Qoi.decode(&[]).is_none());
}

#[test]
fn header_tags_read() {
    let mut linear_rgb = IMAGE_SMALL.to_vec();
    linear_rgb[12] = 3;
    linear_rgb[13] = 1;
    let (h, _) = Qoi.decode(&linear_rgb).expect("error?");
    assert_eq!(h.channels, QoiHeaderChannels::RGB);
    assert_eq!(h.colorspace, QoiHeaderColorspace::Linear);
}

#[test]
fn truncated_stream_ends_pass() {
    let (_, mut iter) = Qoi.decode(&IMAGE_SMALL[..16]).expect("error?");
    let data = collect(&mut iter);
    assert_eq!(data.len(), 6);
    assert_eq!(data[5], (0, 255, 0, 255));
    assert_eq!(iter.next(), None);

    let cut = [0x71, 0x6f, 0x69, 0x66, 0, 0, 0, 1, 0, 0, 0, 1, 4, 0, 0xff, 1, 2];
    let (_, mut iter) = Qoi.decode(&cut).expect("error?");
    assert_eq!(iter.next(), None);
    assert_eq!(iter.next(), None);
}

#[test]
fn decoding_stops_at_pixel_count() {
    let (_, mut iter) = Qoi.decode(&IMAGE_SMALL[..23]).expect("error?");
    assert_eq!(collect(&mut iter).len(), 16);
    assert_eq!(iter.next(), None);
}

#[test]
fn decode_luma_and_rgb() {
    let stream = [
        0x71, 0x6f, 0x69, 0x66, 0, 0, 0, 3, 0, 0, 0, 1, 3, 0, // header
        0xa3, 0x79, // luma: +2, +3, +4
        0xfe, 9, 8, 7, // rgb
        0xff, 1, 2, 3, 4, // rgba
    ];
    let (_, mut iter) = Qoi.decode(&stream).expect("error?");
    assert_eq!(collect(&mut iter), vec![(2, 3, 4, 255), (9, 8, 7, 255), (1, 2, 3, 4)]);
}

#[test]
fn default_codec() {
    let c: Qoi = Default::default();
    let out = encode_to_vec(&[(0, 0, 0, 255)], header(1, 1));
    let (h, _) = c.decode(&out).expect("error?");
    assert_eq!(h, header(1, 1));
}
