//! The QOI image format: a 14-byte header, a stream of opcodes, an end marker.
use vstd::prelude::*;

use crate::model::{
    DecState, EncState, Pixel, be32, blank_cache, dec_start, dec_step, enc_fold, enc_step, encoded,
    hash_of, header_bytes, parse_header, pixel_count, pixel_op, read_be32, resolve, wrap_add,
    wrap_delta,
};

verus! {

/// The channel count that a header declares; informational only.
#[derive(Debug, Clone, Copy, PartialEq, Eq, Structural)]
pub enum QoiHeaderChannels {
    RGB,
    RGBA,
}

/// The colorspace that a header declares; informational only.
#[derive(Debug, Clone, Copy, PartialEq, Eq, Structural)]
pub enum QoiHeaderColorspace {
    Linear,
    SRGB,
}

/// The fixed preamble of a stream: the image's dimensions and two tags.
#[derive(Debug, Clone, Copy, PartialEq, Eq, Structural)]
pub struct QoiHeader {
    pub width: u32,
    pub height: u32,
    pub channels: QoiHeaderChannels,
    pub colorspace: QoiHeaderColorspace,
}

/// The slot of the prediction cache for `px`.
pub fn hash(px: Pixel) -> (r: usize)
    ensures
        r == hash_of(px),
        r < 64,
{
    let s: u32 = (px.0 as u32) * 3 + (px.1 as u32) * 5 + (px.2 as u32) * 7 + (px.3 as u32) * 11;
    (s % 64) as usize
}

/// `a + d` with eight-bit wraparound.
fn add_wrapped(a: u8, d: i8) -> (r: u8)
    ensures
        r == wrap_add(a, d as int),
{
    a.wrapping_add_signed(d)
}

/// The 32-bit big-endian word at `at`.
fn read_u32_at(data: &[u8], at: usize) -> (r: u32)
    requires
        at + 4 <= data@.len(),
    ensures
        r == read_be32(data@, at as int),
{
    (data[at] as u32) * 0x100_0000 + (data[at + 1] as u32) * 0x1_0000 + (data[at + 2] as u32) * 0x100
        + (data[at + 3] as u32)
}

/// The header at the start of `data`, if it is a valid one.
fn read_header(data: &[u8]) -> (r: Option<QoiHeader>)
    ensures
        r == parse_header(data@),
{
    if data.len() < 14 {
        return None;
    }
    if !(data[0] == 0x71 && data[1] == 0x6f && data[2] == 0x69 && data[3] == 0x66) {
        assert(data@.subrange(0, 4)[0] == data@[0]);
        assert(data@.subrange(0, 4)[1] == data@[1]);
        assert(data@.subrange(0, 4)[2] == data@[2]);
        assert(data@.subrange(0, 4)[3] == data@[3]);
        return None;
    }
    assert(data@.subrange(0, 4) =~= crate::model::magic_bytes());
    let width = read_u32_at(data, 4);
    let height = read_u32_at(data, 8);
    if width == 0 || height == 0 {
        return None;
    }
    let channels = match data[12] {
        3 => QoiHeaderChannels::RGB,
        4 => QoiHeaderChannels::RGBA,
        _ => return None,
    };
    let colorspace = match data[13] {
        0 => QoiHeaderColorspace::SRGB,
        1 => QoiHeaderColorspace::Linear,
        _ => return None,
    };
    Some(QoiHeader { width, height, channels, colorspace })
}

/// `px` moved by the small-diff opcode `op`.
fn small_diff(px: Pixel, op: u8) -> (r: Pixel)
    requires
        0x40 <= op < 0x80,
    ensures
        r == (
            wrap_add(px.0, (op / 16) % 4 - 2),
            wrap_add(px.1, (op / 4) % 4 - 2),
            wrap_add(px.2, op % 4 - 2),
            px.3,
        ),
{
    let dr: i8 = ((op / 16) % 4) as i8 - 2;
    let dg: i8 = ((op / 4) % 4) as i8 - 2;
    let db: i8 = (op % 4) as i8 - 2;
    (add_wrapped(px.0, dr), add_wrapped(px.1, dg), add_wrapped(px.2, db), px.3)
}

/// `px` moved by the luma-diff opcode `op` and its second byte `b1`.
fn luma_diff(px: Pixel, op: u8, b1: u8) -> (r: Pixel)
    requires
        0x80 <= op < 0xc0,
    ensures
        r == (
            wrap_add(px.0, op - 0x80 - 32 + b1 / 16 - 8),
            wrap_add(px.1, op - 0x80 - 32),
            wrap_add(px.2, op - 0x80 - 32 + b1 % 16 - 8),
            px.3,
        ),
{
    let dg: i8 = (op % 64) as i8 - 32;
    let dr: i8 = dg + (b1 / 16) as i8 - 8;
    let db: i8 = dg + (b1 % 16) as i8 - 8;
    (add_wrapped(px.0, dr), add_wrapped(px.1, dg), add_wrapped(px.2, db), px.3)
}

/// The pixel that the opcode at `pos` resolves, and the opcode's length.
fn resolve_at(data: &Vec<u8>, pos: usize, px: Pixel, cache: &[Pixel; 64]) -> (r: Option<(Pixel, usize)>)
    requires
        pos < data@.len(),
        !(0xc0 <= data@[pos as int] < 0xfe),
    ensures
        match resolve(data@, pos as int, px, cache@) {
            Some((p, len)) => r == Some((p, len as usize)) && 1 <= len <= 5 && pos + len <= data@.len(),
            None => r is None,
        },
{
    let op = data[pos];
    let left = data.len() - pos;
    if op == 0xfe {
        if left < 4 {
            return None;
        }
        Some(((data[pos + 1], data[pos + 2], data[pos + 3], px.3), 4))
    } else if op == 0xff {
        if left < 5 {
            return None;
        }
        Some(((data[pos + 1], data[pos + 2], data[pos + 3], data[pos + 4]), 5))
    } else if op < 0x40 {
        Some((cache[op as usize], 1))
    } else if op < 0x80 {
        Some((small_diff(px, op), 1))
    } else {
        if left < 2 {
            return None;
        }
        Some((luma_diff(px, op, data[pos + 1]), 2))
    }
}

/// The decoder's state as the model sees it: the whole stream, the state of
/// the pass, and whether the pass has ended.
pub struct DecoderView {
    pub bytes: Seq<u8>,
    pub state: DecState,
    pub ended: bool,
}

/// A single pass over a QOI pixel stream, pulled one pixel at a time.
pub struct QoiDecoder {
    data: Vec<u8>,
    pos: usize,
    px: Pixel,
    cache: [Pixel; 64],
    run: u8,
    remaining: u64,
    ended: bool,
}

impl View for QoiDecoder {
    type V = DecoderView;

    closed spec fn view(&self) -> DecoderView {
        DecoderView {
            bytes: self.data@,
            state: DecState {
                pos: self.pos as int,
                px: self.px,
                cache: self.cache@,
                run: self.run as nat,
                remaining: self.remaining as nat,
            },
            ended: self.ended,
        }
    }
}

impl QoiDecoder {
    /// The decoder's position lies within its stream and its run is below 62.
    pub closed spec fn wf(&self) -> bool {
        self.pos <= self.data@.len() && self.run < 62
    }

    /// The next pixel of the pass. Once a pull gives `None` (all declared
    /// pixels are out, or the stream failed), every later pull does too.
    pub fn next(&mut self) -> (r: Option<Pixel>)
        requires
            old(self).wf(),
        ensures
            final(self).wf(),
            final(self)@.bytes == old(self)@.bytes,
            old(self)@.ended ==> r is None && final(self)@ == old(self)@,
            !old(self)@.ended ==> match dec_step(old(self)@.bytes, old(self)@.state) {
                Some((s, p)) => r == Some(p) && final(self)@.state == s && !final(self)@.ended,
                None => r is None && final(self)@.ended,
            },
    {
        if self.ended {
            return None;
        }
        if self.remaining == 0 {
            self.ended = true;
            return None;
        }
        if self.run > 0 {
            self.run -= 1;
            self.remaining -= 1;
            return Some(self.px);
        }
        if self.pos >= self.data.len() {
            self.ended = true;
            return None;
        }
        let op = self.data[self.pos];
        if 0xc0 <= op && op < 0xfe {
            self.run = op - 0xc0;
            self.pos += 1;
            self.remaining -= 1;
            return Some(self.px);
        }
        let (p, len) = match resolve_at(&self.data, self.pos, self.px, &self.cache) {
            Some(x) => x,
            None => {
                self.ended = true;
                return None;
            },
        };
        let ghost cache0 = self.cache@;
        self.cache[hash(p)] = p;
        assert(self.cache@ =~= cache0.update(hash_of(p), p));
        self.px = p;
        self.pos += len;
        self.remaining -= 1;
        Some(p)
    }
}

/// Whether two pixels are the same.
fn same_pixel(a: Pixel, b: Pixel) -> (r: bool)
    ensures
        r == (a == b),
{
    a.0 == b.0 && a.1 == b.1 && a.2 == b.2 && a.3 == b.3
}

/// The signed difference `a - b` with eight-bit wraparound, in -128..=127.
fn delta(a: u8, b: u8) -> (r: i16)
    ensures
        r == wrap_delta(a, b),
        -128 <= r <= 127,
{
    let w = a.wrapping_sub(b);
    if w >= 128 {
        w as i16 - 256
    } else {
        w as i16
    }
}

/// Appends the big-endian bytes of `v`.
fn write_u32(out: &mut Vec<u8>, v: u32)
    ensures
        final(out)@ == old(out)@ + be32(v),
{
    out.push((v / 0x100_0000) as u8);
    out.push(((v / 0x1_0000) % 256) as u8);
    out.push(((v / 0x100) % 256) as u8);
    out.push((v % 256) as u8);
    assert(final(out)@ =~= old(out)@ + be32(v));
}

/// Appends the 14 bytes of `h`.
fn write_header(h: &QoiHeader, out: &mut Vec<u8>)
    ensures
        final(out)@ == old(out)@ + header_bytes(*h),
{
    let ghost out0 = out@;
    out.push(0x71);
    out.push(0x6f);
    out.push(0x69);
    out.push(0x66);
    write_u32(out, h.width);
    write_u32(out, h.height);
    out.push(
        match h.channels {
            QoiHeaderChannels::RGB => 3,
            QoiHeaderChannels::RGBA => 4,
        },
    );
    out.push(
        match h.colorspace {
            QoiHeaderColorspace::SRGB => 0,
            QoiHeaderColorspace::Linear => 1,
        },
    );
    assert(out@ =~= out0 + header_bytes(*h));
}

/// Appends the opcode that resolves `p` after `prev` with the cache as it stands.
fn write_pixel_op(prev: Pixel, cache: &[Pixel; 64], p: Pixel, out: &mut Vec<u8>)
    ensures
        final(out)@ == old(out)@ + pixel_op(prev, cache@, p),
{
    let ghost out0 = out@;
    let i = hash(p);
    if same_pixel(cache[i], p) {
        out.push(i as u8);
    } else if p.3 == prev.3 {
        let dr = delta(p.0, prev.0);
        let dg = delta(p.1, prev.1);
        let db = delta(p.2, prev.2);
        if -2 <= dr && dr <= 1 && -2 <= dg && dg <= 1 && -2 <= db && db <= 1 {
            out.push((0x40 + (dr + 2) * 16 + (dg + 2) * 4 + (db + 2)) as u8);
        } else if -8 <= dr - dg && dr - dg <= 7 && -32 <= dg && dg <= 31 && -8 <= db - dg && db - dg
            <= 7 {
            out.push((0x80 + dg + 32) as u8);
            out.push(((dr - dg + 8) * 16 + (db - dg + 8)) as u8);
        } else {
            out.push(0xfe);
            out.push(p.0);
            out.push(p.1);
            out.push(p.2);
        }
    } else {
        out.push(0xff);
        out.push(p.0);
        out.push(p.1);
        out.push(p.2);
        out.push(p.3);
    }
    assert(out@ =~= out0 + pixel_op(prev, cache@, p));
}

/// The QOI format.
#[derive(Debug, Clone, Copy)]
pub struct Qoi;

impl Default for Qoi {
    fn default() -> (r: Self)
        ensures
            r == Qoi,
    {
        Qoi
    }
}

impl crate::Format for Qoi {
    type Header = QoiHeader;

    type Pixels = QoiDecoder;

    /// Reads the header at the start of `data`; on success, returns it with a
    /// decoder that gives, pull by pull, the pixels it declares.
    fn decode(self, data: &[u8]) -> (r: Option<(QoiHeader, QoiDecoder)>)
        ensures
            match parse_header(data@) {
                Some(h) => r matches Some((h2, d)) && h2 == h && d.wf() && d@ == (DecoderView {
                    bytes: data@,
                    state: dec_start(h),
                    ended: false,
                }),
                None => r is None,
            },
    {
        let header = match read_header(data) {
            Some(h) => h,
            None => return None,
        };
        assert(header.width * header.height <= 0xffff_ffff * 0xffff_ffffint) by (nonlinear_arith)
            requires
                header.width <= 0xffff_ffff,
                header.height <= 0xffff_ffff,
        ;
        let decoder = QoiDecoder {
            data: vstd::slice::slice_to_vec(data),
            pos: 14,
            px: (0, 0, 0, 255),
            cache: [(0, 0, 0, 0); 64],
            run: 0,
            remaining: header.width as u64 * header.height as u64,
            ended: false,
        };
        assert(decoder.cache@ =~= blank_cache());
        Some((header, decoder))
    }

    /// Writes the stream for `header` and `data` to `out`: the header, the
    /// opcodes of the first `width * height` pixels (all of them, where there
    /// are fewer), a last pending run, and the end marker.
    fn encode(self, data: &[Pixel], header: QoiHeader, out: &mut Vec<u8>)
        ensures
            final(out)@ == old(out)@ + encoded(header, data@),
    {
        let ghost out0 = out@;
        write_header(&header, out);
        assert(header.width * header.height <= 0xffff_ffff * 0xffff_ffffint) by (nonlinear_arith)
            requires
                header.width <= 0xffff_ffff,
                header.height <= 0xffff_ffff,
        ;
        let total: u64 = header.width as u64 * header.height as u64;
        let n: usize = if (data.len() as u64) < total {
            data.len()
        } else {
            total as usize
        };
        let mut prev: Pixel = (0, 0, 0, 255);
        let mut cache: [Pixel; 64] = [(0, 0, 0, 0); 64];
        let mut run: u8 = 0;
        let mut i: usize = 0;
        assert(cache@ =~= blank_cache());
        assert(data@.take(0) =~= Seq::<Pixel>::empty());
        while i < n
            invariant
                0 <= i <= n <= data@.len(),
                n == (if data@.len() < pixel_count(header) { data@.len() as int } else { pixel_count(header) as int }),
                enc_fold(data@.take(i as int)).0 == (EncState { prev, cache: cache@, run: run as nat }),
                out@ == out0 + header_bytes(header) + enc_fold(data@.take(i as int)).1,
                run < 62,
            decreases n - i,
        {
            let p = data[i];
            let ghost s = enc_fold(data@.take(i as int)).0;
            let ghost out1 = out@;
            if same_pixel(p, prev) {
                run += 1;
                if run == 62 {
                    out.push(0xc0 + 61);
                    run = 0;
                }
            } else {
                if run > 0 {
                    out.push(0xc0 + run - 1);
                    run = 0;
                }
                write_pixel_op(prev, &cache, p, out);
                let ghost cache0 = cache@;
                cache[hash(p)] = p;
                assert(cache@ =~= cache0.update(hash_of(p), p));
                prev = p;
            }
            proof {
                let ps = data@.take(i + 1);
                assert(ps.drop_last() =~= data@.take(i as int));
                assert(ps.last() == p);
                let (s2, b2) = enc_step(s, p);
                assert(s2 == (EncState { prev, cache: cache@, run: run as nat }));
                assert(out@ =~= out1 + b2);
            }
            i += 1;
        }
        if run > 0 {
            out.push(0xc0 + run - 1);
        }
        write_u32(out, 0);
        write_u32(out, 1);
        assert(data@.take(n as int) == data@.take(i as int));
        assert(out@ =~= out0 + encoded(header, data@));
    }
}

} // verus!
