//! The mathematical model of the pixel stream: hashing, the wire bytes of each
//! opcode, and the encoder and decoder as state machines over sequences.
use vstd::prelude::*;

use crate::qoi::{QoiHeader, QoiHeaderChannels, QoiHeaderColorspace};

verus! {

/// A pixel: red, green, blue and alpha, eight bits each.
pub type Pixel = (u8, u8, u8, u8);

/// The slot of the prediction cache that a pixel belongs to.
pub open spec fn hash_of(p: Pixel) -> int {
    (p.0 * 3 + p.1 * 5 + p.2 * 7 + p.3 * 11) % 64
}

/// The pixel that both sides start from.
pub open spec fn start_pixel() -> Pixel {
    (0u8, 0u8, 0u8, 255u8)
}

/// The prediction cache at the start of a pass: 64 transparent black pixels.
pub open spec fn blank_cache() -> Seq<Pixel> {
    Seq::new(64, |i: int| (0u8, 0u8, 0u8, 0u8))
}

/// The signed difference `a - b` taken modulo 256, in -128..=127.
pub open spec fn wrap_delta(a: u8, b: u8) -> int {
    let d = (a - b) % 256;
    if d >= 128 { d - 256 } else { d }
}

/// `a + d` modulo 256.
pub open spec fn wrap_add(a: u8, d: int) -> u8 {
    ((a + d) % 256) as u8
}

/// The big-endian bytes of a 32-bit word.
pub open spec fn be32(v: u32) -> Seq<u8> {
    seq![(v / 0x100_0000) as u8, ((v / 0x1_0000) % 256) as u8, ((v / 0x100) % 256) as u8, (v % 256) as u8]
}

/// The 32-bit word read big-endian from `b` at `at`.
pub open spec fn read_be32(b: Seq<u8>, at: int) -> int {
    b[at] * 0x100_0000 + b[at + 1] * 0x1_0000 + b[at + 2] * 0x100 + b[at + 3]
}

/// The magic word "qoif".
pub open spec fn magic_bytes() -> Seq<u8> {
    seq![0x71u8, 0x6fu8, 0x69u8, 0x66u8]
}

pub open spec fn channels_tag(c: QoiHeaderChannels) -> u8 {
    match c {
        QoiHeaderChannels::RGB => 3,
        QoiHeaderChannels::RGBA => 4,
    }
}

pub open spec fn colorspace_tag(c: QoiHeaderColorspace) -> u8 {
    match c {
        QoiHeaderColorspace::SRGB => 0,
        QoiHeaderColorspace::Linear => 1,
    }
}

/// The 14 bytes of a header.
pub open spec fn header_bytes(h: QoiHeader) -> Seq<u8> {
    magic_bytes() + be32(h.width) + be32(h.height) + seq![channels_tag(h.channels), colorspace_tag(h.colorspace)]
}

pub open spec fn channels_of(t: u8) -> Option<QoiHeaderChannels> {
    if t == 3 {
        Some(QoiHeaderChannels::RGB)
    } else if t == 4 {
        Some(QoiHeaderChannels::RGBA)
    } else {
        None
    }
}

pub open spec fn colorspace_of(t: u8) -> Option<QoiHeaderColorspace> {
    if t == 0 {
        Some(QoiHeaderColorspace::SRGB)
    } else if t == 1 {
        Some(QoiHeaderColorspace::Linear)
    } else {
        None
    }
}

/// The header that the first 14 bytes of `b` hold, if they hold a valid one:
/// the magic word, a width and a height above zero, and known tags.
pub open spec fn parse_header(b: Seq<u8>) -> Option<QoiHeader> {
    if b.len() >= 14 && b.subrange(0, 4) == magic_bytes() && read_be32(b, 4) > 0 && read_be32(b, 8)
        > 0 && channels_of(b[12]) is Some && colorspace_of(b[13]) is Some {
        Some(
            QoiHeader {
                width: read_be32(b, 4) as u32,
                height: read_be32(b, 8) as u32,
                channels: channels_of(b[12])->0,
                colorspace: colorspace_of(b[13])->0,
            },
        )
    } else {
        None
    }
}

/// The number of pixels that a header declares.
pub open spec fn pixel_count(h: QoiHeader) -> nat {
    (h.width * h.height) as nat
}

/// The run opcode for `n` repeats, 1..=62.
pub open spec fn run_op(n: int) -> u8 {
    (0xc0 + n - 1) as u8
}

/// The run opcode, if any, that flushes `run` pending repeats.
pub open spec fn flush(run: nat) -> Seq<u8> {
    if run > 0 { seq![run_op(run as int)] } else { seq![] }
}

/// Whether `d` fits the small-diff opcode.
pub open spec fn small(d: int) -> bool {
    -2 <= d <= 1
}

/// The bytes that resolve `p` after `prev`, with the cache as it stands: the
/// cache index if the slot holds `p`; else, with alpha unchanged, a small diff,
/// a luma diff or full RGB, the first that fits; else full RGBA.
pub open spec fn pixel_op(prev: Pixel, cache: Seq<Pixel>, p: Pixel) -> Seq<u8> {
    let i = hash_of(p);
    if cache[i] == p {
        seq![i as u8]
    } else if p.3 == prev.3 {
        let dr = wrap_delta(p.0, prev.0);
        let dg = wrap_delta(p.1, prev.1);
        let db = wrap_delta(p.2, prev.2);
        if small(dr) && small(dg) && small(db) {
            seq![(0x40 + (dr + 2) * 16 + (dg + 2) * 4 + (db + 2)) as u8]
        } else if -8 <= dr - dg <= 7 && -32 <= dg <= 31 && -8 <= db - dg <= 7 {
            seq![(0x80 + dg + 32) as u8, ((dr - dg + 8) * 16 + (db - dg + 8)) as u8]
        } else {
            seq![0xfeu8, p.0, p.1, p.2]
        }
    } else {
        seq![0xffu8, p.0, p.1, p.2, p.3]
    }
}

/// What the encoder carries from one pixel to the next.
pub struct EncState {
    pub prev: Pixel,
    pub cache: Seq<Pixel>,
    pub run: nat,
}

pub open spec fn enc_start() -> EncState {
    EncState { prev: start_pixel(), cache: blank_cache(), run: 0 }
}

/// One pixel through the encoder: the next state and the bytes written.
pub open spec fn enc_step(s: EncState, p: Pixel) -> (EncState, Seq<u8>) {
    if p == s.prev {
        if s.run + 1 == 62 {
            (EncState { run: 0, ..s }, seq![run_op(62)])
        } else {
            (EncState { run: s.run + 1, ..s }, seq![])
        }
    } else {
        (
            EncState { prev: p, cache: s.cache.update(hash_of(p), p), run: 0 },
            flush(s.run) + pixel_op(s.prev, s.cache, p),
        )
    }
}

/// The encoder after the pixels `ps`, and the bytes it wrote for them.
pub open spec fn enc_fold(ps: Seq<Pixel>) -> (EncState, Seq<u8>)
    decreases ps.len(),
{
    if ps.len() == 0 {
        (enc_start(), seq![])
    } else {
        let (s, b) = enc_fold(ps.drop_last());
        let (s2, b2) = enc_step(s, ps.last());
        (s2, b + b2)
    }
}

/// The eight bytes after the last opcode.
pub open spec fn end_marker() -> Seq<u8> {
    seq![0u8, 0u8, 0u8, 0u8, 0u8, 0u8, 0u8, 1u8]
}

/// The whole stream for `h` and the pixels `ps`, of which at most as many as
/// the header declares are taken.
pub open spec fn encoded(h: QoiHeader, ps: Seq<Pixel>) -> Seq<u8> {
    let n = if ps.len() < pixel_count(h) { ps.len() as int } else { pixel_count(h) as int };
    let (s, b) = enc_fold(ps.take(n));
    header_bytes(h) + b + flush(s.run) + end_marker()
}

/// What the decoder carries from one pixel to the next; `pos` indexes the
/// whole stream, header included.
pub struct DecState {
    pub pos: int,
    pub px: Pixel,
    pub cache: Seq<Pixel>,
    pub run: nat,
    pub remaining: nat,
}

pub open spec fn dec_start(h: QoiHeader) -> DecState {
    DecState { pos: 14, px: start_pixel(), cache: blank_cache(), run: 0, remaining: pixel_count(h) }
}

/// The pixel that the opcode at `pos` resolves, and the opcode's length, or
/// `None` where the stream ends inside it; the run opcode is not handled here.
pub open spec fn resolve(b: Seq<u8>, pos: int, px: Pixel, cache: Seq<Pixel>) -> Option<(Pixel, int)> {
    let op = b[pos];
    if op == 0xfe {
        if pos + 4 <= b.len() {
            Some(((b[pos + 1], b[pos + 2], b[pos + 3], px.3), 4))
        } else {
            None
        }
    } else if op == 0xff {
        if pos + 5 <= b.len() {
            Some(((b[pos + 1], b[pos + 2], b[pos + 3], b[pos + 4]), 5))
        } else {
            None
        }
    } else if op < 0x40 {
        Some((cache[op as int], 1))
    } else if op < 0x80 {
        let dr = (op / 16) % 4 - 2;
        let dg = (op / 4) % 4 - 2;
        let db = op % 4 - 2;
        Some(((wrap_add(px.0, dr), wrap_add(px.1, dg), wrap_add(px.2, db), px.3), 1))
    } else if op < 0xc0 {
        if pos + 2 <= b.len() {
            let b1 = b[pos + 1];
            let dg = op - 0x80 - 32;
            let dr = dg + b1 / 16 - 8;
            let db = dg + b1 % 16 - 8;
            Some(((wrap_add(px.0, dr), wrap_add(px.1, dg), wrap_add(px.2, db), px.3), 2))
        } else {
            None
        }
    } else {
        None
    }
}

/// One pull from the decoder: the next state and the pixel, or `None` when
/// the declared pixels are all out or the stream fails.
pub open spec fn dec_step(b: Seq<u8>, s: DecState) -> Option<(DecState, Pixel)> {
    if s.remaining == 0 {
        None
    } else if s.run > 0 {
        Some((DecState { run: (s.run - 1) as nat, remaining: (s.remaining - 1) as nat, ..s }, s.px))
    } else if s.pos < 0 || s.pos >= b.len() {
        None
    } else if 0xc0 <= b[s.pos] < 0xfe {
        Some(
            (
                DecState {
                    pos: s.pos + 1,
                    run: (b[s.pos] - 0xc0) as nat,
                    remaining: (s.remaining - 1) as nat,
                    ..s
                },
                s.px,
            ),
        )
    } else {
        match resolve(b, s.pos, s.px, s.cache) {
            Some((p, len)) => Some(
                (
                    DecState {
                        pos: s.pos + len,
                        px: p,
                        cache: s.cache.update(hash_of(p), p),
                        run: 0,
                        remaining: (s.remaining - 1) as nat,
                    },
                    p,
                ),
            ),
            None => None,
        }
    }
}

/// `n` pulls from the decoder: the state after them and the pixels they gave,
/// or `None` if one of them failed.
pub open spec fn dec_steps(b: Seq<u8>, s: DecState, n: nat) -> Option<(DecState, Seq<Pixel>)>
    decreases n,
{
    if n == 0 {
        Some((s, seq![]))
    } else {
        match dec_steps(b, s, (n - 1) as nat) {
            Some((s1, ps)) => match dec_step(b, s1) {
                Some((s2, p)) => Some((s2, ps.push(p))),
                None => None,
            },
            None => None,
        }
    }
}

/// The header and every pixel it declares, decoded from `b`, or `None` if
/// the header is invalid or the stream fails before the last pixel.
pub open spec fn decoded(b: Seq<u8>) -> Option<(QoiHeader, Seq<Pixel>)> {
    match parse_header(b) {
        Some(h) => match dec_steps(b, dec_start(h), pixel_count(h)) {
            Some((_, ps)) => Some((h, ps)),
            None => None,
        },
        None => None,
    }
}

} // verus!
