//! What holds of the encoder and the decoder together, and of the opcodes the
//! encoder picks.
use vstd::prelude::*;

use crate::model::{
    DecState, EncState, Pixel, be32, channels_of, colorspace_of, dec_start, dec_step, dec_steps,
    decoded, enc_fold, enc_step, encoded, end_marker, flush, hash_of, header_bytes, magic_bytes,
    parse_header, pixel_count, pixel_op, read_be32, resolve, run_op, small, wrap_add, wrap_delta,
};
use crate::qoi::QoiHeader;

verus! {

proof fn lemma_wrap_inverse(a: u8, b: u8)
    ensures
        wrap_add(a, wrap_delta(b, a)) == b,
        -128 <= wrap_delta(b, a) <= 127,
{
}

/// A small-diff byte brings `prev` to `p`.
proof fn lemma_small_diff(prev: Pixel, p: Pixel, o: u8)
    requires
        p.3 == prev.3,
        small(wrap_delta(p.0, prev.0)),
        small(wrap_delta(p.1, prev.1)),
        small(wrap_delta(p.2, prev.2)),
        o == 0x40 + (wrap_delta(p.0, prev.0) + 2) * 16 + (wrap_delta(p.1, prev.1) + 2) * 4 + (
        wrap_delta(p.2, prev.2) + 2),
    ensures
        0x40 <= o < 0x80,
        p == (
            wrap_add(prev.0, (o / 16) % 4 - 2),
            wrap_add(prev.1, (o / 4) % 4 - 2),
            wrap_add(prev.2, o % 4 - 2),
            prev.3,
        ),
{
    let dr = wrap_delta(p.0, prev.0);
    let dg = wrap_delta(p.1, prev.1);
    let db = wrap_delta(p.2, prev.2);
    lemma_wrap_inverse(prev.0, p.0);
    lemma_wrap_inverse(prev.1, p.1);
    lemma_wrap_inverse(prev.2, p.2);
    assert((o / 16) % 4 == dr + 2 && (o / 4) % 4 == dg + 2 && o % 4 == db + 2) by (nonlinear_arith)
        requires
            o == 0x40 + (dr + 2) * 16 + (dg + 2) * 4 + (db + 2),
            small(dr),
            small(dg),
            small(db),
    ;
}

/// A luma-diff pair of bytes brings `prev` to `p`.
proof fn lemma_luma_diff(prev: Pixel, p: Pixel, o: u8, b1: u8)
    requires
        p.3 == prev.3,
        -8 <= wrap_delta(p.0, prev.0) - wrap_delta(p.1, prev.1) <= 7,
        -32 <= wrap_delta(p.1, prev.1) <= 31,
        -8 <= wrap_delta(p.2, prev.2) - wrap_delta(p.1, prev.1) <= 7,
        o == 0x80 + wrap_delta(p.1, prev.1) + 32,
        b1 == (wrap_delta(p.0, prev.0) - wrap_delta(p.1, prev.1) + 8) * 16 + (wrap_delta(p.2, prev.2)
            - wrap_delta(p.1, prev.1) + 8),
    ensures
        0x80 <= o < 0xc0,
        p == (
            wrap_add(prev.0, o - 0x80 - 32 + b1 / 16 - 8),
            wrap_add(prev.1, o - 0x80 - 32),
            wrap_add(prev.2, o - 0x80 - 32 + b1 % 16 - 8),
            prev.3,
        ),
{
    let dr = wrap_delta(p.0, prev.0);
    let dg = wrap_delta(p.1, prev.1);
    let db = wrap_delta(p.2, prev.2);
    lemma_wrap_inverse(prev.0, p.0);
    lemma_wrap_inverse(prev.1, p.1);
    lemma_wrap_inverse(prev.2, p.2);
    assert(b1 / 16 == dr - dg + 8 && b1 % 16 == db - dg + 8) by (nonlinear_arith)
        requires
            b1 == (dr - dg + 8) * 16 + (db - dg + 8),
            -8 <= dr - dg <= 7,
            -8 <= db - dg <= 7,
    ;
}

/// The decoder reads back, from the bytes the encoder wrote for `p`, the pixel
/// `p` itself.
proof fn lemma_resolve_pixel_op(b: Seq<u8>, pos: int, prev: Pixel, cache: Seq<Pixel>, p: Pixel)
    requires
        cache.len() == 64,
        0 <= pos,
        pos + pixel_op(prev, cache, p).len() <= b.len(),
        b.subrange(pos, pos + pixel_op(prev, cache, p).len()) == pixel_op(prev, cache, p),
    ensures
        pixel_op(prev, cache, p).len() >= 1,
        !(0xc0 <= b[pos] < 0xfe),
        resolve(b, pos, prev, cache) == Some((p, pixel_op(prev, cache, p).len() as int)),
{
    let op = pixel_op(prev, cache, p);
    assert forall|k: int| 0 <= k < op.len() implies b[pos + k] == op[k] by {
        assert(b.subrange(pos, pos + op.len())[k] == b[pos + k]);
    }
    assert(b[pos + 0] == op[0]);
    let i = hash_of(p);
    if cache[i] == p {
        assert(b[pos] == i);
    } else if p.3 == prev.3 {
        let dr = wrap_delta(p.0, prev.0);
        let dg = wrap_delta(p.1, prev.1);
        let db = wrap_delta(p.2, prev.2);
        if small(dr) && small(dg) && small(db) {
            assert(0x40 <= 0x40 + (dr + 2) * 16 + (dg + 2) * 4 + (db + 2) < 0x80);
            lemma_small_diff(prev, p, b[pos]);
        } else if -8 <= dr - dg <= 7 && -32 <= dg <= 31 && -8 <= db - dg <= 7 {
            assert(b[pos + 1] == op[1]);
            assert(0 <= (dr - dg + 8) * 16 + (db - dg + 8) < 256);
            lemma_luma_diff(prev, p, b[pos], b[pos + 1]);
        } else {
        }
    } else {
    }
}

/// `k` copies of `p`.
pub open spec fn repeated(p: Pixel, k: nat) -> Seq<Pixel> {
    Seq::new(k, |_i: int| p)
}

/// A decoder with `k` repeats queued gives `k` copies of its pixel and reads
/// nothing.
proof fn lemma_run_steps(b: Seq<u8>, s0: DecState, j: nat, s: DecState, qs: Seq<Pixel>, k: nat)
    requires
        dec_steps(b, s0, j) == Some((s, qs)),
        s.run == k,
        s.remaining >= k,
    ensures
        dec_steps(b, s0, j + k) == Some(
            (DecState { run: 0, remaining: (s.remaining - k) as nat, ..s }, qs + repeated(s.px, k)),
        ),
    decreases k,
{
    if k == 0 {
        assert(qs + repeated(s.px, 0) =~= qs);
    } else {
        let s1 = DecState { run: (k - 1) as nat, remaining: (s.remaining - 1) as nat, ..s };
        assert(dec_steps(b, s0, j + 1) == Some((s1, qs.push(s.px))));
        lemma_run_steps(b, s0, j + 1, s1, qs.push(s.px), (k - 1) as nat);
        assert(qs.push(s.px) + repeated(s.px, (k - 1) as nat) =~= qs + repeated(s.px, k));
    }
}

/// A run opcode for `k` gives `k` copies of the decoder's pixel.
proof fn lemma_flush_steps(b: Seq<u8>, s0: DecState, j: nat, s: DecState, qs: Seq<Pixel>, k: nat)
    requires
        dec_steps(b, s0, j) == Some((s, qs)),
        s.run == 0,
        1 <= k <= 62,
        s.remaining >= k,
        0 <= s.pos < b.len(),
        b[s.pos] == run_op(k as int),
    ensures
        dec_steps(b, s0, j + k) == Some(
            (
                DecState { pos: s.pos + 1, remaining: (s.remaining - k) as nat, ..s },
                qs + repeated(s.px, k),
            ),
        ),
{
    let s1 = DecState {
        pos: s.pos + 1,
        run: (k - 1) as nat,
        remaining: (s.remaining - 1) as nat,
        ..s
    };
    assert(dec_steps(b, s0, j + 1) == Some((s1, qs.push(s.px))));
    lemma_run_steps(b, s0, j + 1, s1, qs.push(s.px), (k - 1) as nat);
    assert(qs.push(s.px) + repeated(s.px, (k - 1) as nat) =~= qs + repeated(s.px, k));
}

/// The bytes the encoder wrote for `p` give the decoder `p`.
proof fn lemma_pixel_step(b: Seq<u8>, s0: DecState, j: nat, s: DecState, qs: Seq<Pixel>, p: Pixel)
    requires
        dec_steps(b, s0, j) == Some((s, qs)),
        s.run == 0,
        s.remaining >= 1,
        s.cache.len() == 64,
        0 <= s.pos,
        s.pos + pixel_op(s.px, s.cache, p).len() <= b.len(),
        b.subrange(s.pos, s.pos + pixel_op(s.px, s.cache, p).len()) == pixel_op(s.px, s.cache, p),
    ensures
        dec_steps(b, s0, j + 1) == Some(
            (
                DecState {
                    pos: s.pos + pixel_op(s.px, s.cache, p).len(),
                    px: p,
                    cache: s.cache.update(hash_of(p), p),
                    run: 0,
                    remaining: (s.remaining - 1) as nat,
                },
                qs.push(p),
            ),
        ),
{
    lemma_resolve_pixel_op(b, s.pos, s.px, s.cache, p);
}

/// Where `pre + mid` begins `b`, `mid` stands in `b` right after `pre`.
proof fn lemma_prefix_split(pre: Seq<u8>, mid: Seq<u8>, b: Seq<u8>)
    requires
        (pre + mid).is_prefix_of(b),
    ensures
        pre.is_prefix_of(b),
        b.subrange(pre.len() as int, (pre.len() + mid.len()) as int) == mid,
{
    assert forall|k: int| 0 <= k < pre.len() implies pre[k] == b[k] by {
        assert((pre + mid)[k] == b.subrange(0, (pre + mid).len() as int)[k]);
    }
    assert(pre =~= b.subrange(0, pre.len() as int));
    assert forall|k: int| 0 <= k < mid.len() implies mid[k] == b[pre.len() + k] by {
        assert((pre + mid)[pre.len() + k] == b.subrange(0, (pre + mid).len() as int)[pre.len() + k]);
    }
    assert(b.subrange(pre.len() as int, (pre.len() + mid.len()) as int) =~= mid);
}

/// The encoder's fold over one more pixel.
proof fn lemma_fold_next(ps: Seq<Pixel>, i: int)
    requires
        0 <= i < ps.len(),
    ensures
        enc_fold(ps.take(i + 1)) == ({
            let (s, b) = enc_fold(ps.take(i));
            let (s2, b2) = enc_step(s, ps[i]);
            (s2, b + b2)
        }),
{
    assert(ps.take(i + 1).drop_last() =~= ps.take(i));
    assert(ps.take(i + 1).last() == ps[i]);
}

/// The decoder state that matches the encoder state `s` after `bs` was
/// written, with `done` pixels given out.
pub open spec fn matching_state(h: QoiHeader, s: EncState, bs: Seq<u8>, done: int) -> DecState {
    DecState {
        pos: 14 + bs.len() as int,
        px: s.prev,
        cache: s.cache,
        run: 0,
        remaining: (pixel_count(h) - done) as nat,
    }
}

/// The encoder's step over a pixel that ends a run, seen from the decoder.
proof fn lemma_lockstep_new_pixel(
    h: QoiHeader,
    ps: Seq<Pixel>,
    b: Seq<u8>,
    i0: int,
    s: EncState,
    bs: Seq<u8>,
)
    requires
        0 <= i0 < ps.len() <= pixel_count(h),
        ps[i0] != s.prev,
        s.run < 62,
        s.run <= i0,
        s.cache.len() == 64,
        forall|j: int| i0 - s.run <= j < i0 ==> ps[j] == s.prev,
        dec_steps(b, dec_start(h), (i0 - s.run) as nat) == Some(
            (matching_state(h, s, bs, i0 - s.run), ps.take(i0 - s.run)),
        ),
        14 + bs.len() as int + enc_step(s, ps[i0]).1.len() <= b.len(),
        b.subrange(14 + bs.len() as int, 14 + bs.len() as int + enc_step(s, ps[i0]).1.len()) == enc_step(s, ps[i0]).1,
    ensures
        dec_steps(b, dec_start(h), (i0 + 1) as nat) == Some(
            (
                matching_state(h, enc_step(s, ps[i0]).0, bs + enc_step(s, ps[i0]).1, i0 + 1),
                ps.take(i0 + 1),
            ),
        ),
{
    let p = ps[i0];
    let b2 = enc_step(s, p).1;
    let k = s.run as int;
    let st = matching_state(h, s, bs, i0 - k);
    let op = pixel_op(s.prev, s.cache, p);
    let fl = flush(s.run);
    assert(b2 == fl + op);
    let st1 = DecState { pos: st.pos + fl.len(), remaining: (pixel_count(h) - i0) as nat, ..st };
    if k > 0 {
        assert(b2[0] == b.subrange(st.pos, st.pos + b2.len())[0]);
        lemma_flush_steps(b, dec_start(h), (i0 - k) as nat, st, ps.take(i0 - k), k as nat);
        assert(ps.take(i0 - k) + repeated(s.prev, k as nat) =~= ps.take(i0));
    } else {
        assert(fl =~= Seq::<u8>::empty());
    }
    assert(dec_steps(b, dec_start(h), i0 as nat) == Some((st1, ps.take(i0))));
    assert(b.subrange(st1.pos, st1.pos + op.len()) =~= op) by {
        assert forall|t: int| 0 <= t < op.len() implies b.subrange(st1.pos, st1.pos + op.len())[t]
            == op[t] by {
            assert(b.subrange(st.pos, st.pos + b2.len())[fl.len() + t] == b2[fl.len() + t]);
        }
    }
    lemma_pixel_step(b, dec_start(h), i0 as nat, st1, ps.take(i0), p);
    assert(ps.take(i0).push(p) =~= ps.take(i0 + 1));
}

/// The encoder's step over the 62nd repeat, seen from the decoder.
proof fn lemma_lockstep_full_run(
    h: QoiHeader,
    ps: Seq<Pixel>,
    b: Seq<u8>,
    i0: int,
    s: EncState,
    bs: Seq<u8>,
)
    requires
        0 <= i0 < ps.len() <= pixel_count(h),
        ps[i0] == s.prev,
        s.run == 61,
        s.run <= i0,
        forall|j: int| i0 - s.run <= j < i0 ==> ps[j] == s.prev,
        dec_steps(b, dec_start(h), (i0 - s.run) as nat) == Some(
            (matching_state(h, s, bs, i0 - s.run), ps.take(i0 - s.run)),
        ),
        14 + bs.len() < b.len(),
        b[14 + bs.len() as int] == run_op(62),
    ensures
        dec_steps(b, dec_start(h), (i0 + 1) as nat) == Some(
            (
                matching_state(h, enc_step(s, ps[i0]).0, bs + enc_step(s, ps[i0]).1, i0 + 1),
                ps.take(i0 + 1),
            ),
        ),
{
    let st = matching_state(h, s, bs, i0 - 61);
    lemma_flush_steps(b, dec_start(h), (i0 - 61) as nat, st, ps.take(i0 - 61), 62);
    assert(ps.take(i0 - 61) + repeated(s.prev, 62) =~= ps.take(i0 + 1));
}

/// After the encoder has taken the first `i` pixels with `k` repeats pending,
/// the decoder, pulled `i - k` times over a stream that begins with what the
/// encoder wrote, stands where the encoder's bytes end, with the encoder's
/// pixel and cache; the `k` pending pixels repeat that pixel.
proof fn lemma_lockstep(h: QoiHeader, ps: Seq<Pixel>, b: Seq<u8>, i: int)
    requires
        0 <= i <= ps.len() <= pixel_count(h),
        (header_bytes(h) + enc_fold(ps.take(i)).1).is_prefix_of(b),
    ensures
        ({
            let (s, bs) = enc_fold(ps.take(i));
            &&& s.run < 62 && s.run <= i
            &&& s.cache.len() == 64
            &&& forall|j: int| i - s.run <= j < i ==> ps[j] == s.prev
            &&& dec_steps(b, dec_start(h), (i - s.run) as nat) == Some(
                (matching_state(h, s, bs, i - s.run), ps.take(i - s.run)),
            )
        }),
    decreases i,
{
    let hb = header_bytes(h);
    if i == 0 {
        assert(ps.take(0) =~= Seq::<Pixel>::empty());
        assert(crate::model::blank_cache().len() == 64);
    } else {
        let i0 = i - 1;
        let p = ps[i0];
        let (s, bs) = enc_fold(ps.take(i0));
        let (s2, b2) = enc_step(s, p);
        lemma_fold_next(ps, i0);
        assert(hb + (bs + b2) =~= (hb + bs) + b2);
        lemma_prefix_split(hb + bs, b2, b);
        lemma_lockstep(h, ps, b, i0);
        assert(hb.len() == 14);
        if p == s.prev {
            if s.run + 1 == 62 {
                assert(b[14 + bs.len() as int] == b.subrange(14 + bs.len() as int, 14 + bs.len() as int + b2.len())[0]);
                lemma_lockstep_full_run(h, ps, b, i0, s, bs);
            } else {
                assert(bs + b2 =~= bs);
            }
        } else {
            lemma_lockstep_new_pixel(h, ps, b, i0, s, bs);
        }
    }
}

proof fn lemma_be32(v: u32)
    ensures
        be32(v).len() == 4,
        be32(v)[0] * 0x100_0000 + be32(v)[1] * 0x1_0000 + be32(v)[2] * 0x100 + be32(v)[3] == v,
{
    assert(v / 0x100_0000 < 256 && (v / 0x100_0000) * 0x100_0000 + ((v / 0x1_0000) % 256) * 0x1_0000
        + ((v / 0x100) % 256) * 0x100 + v % 256 == v) by (bit_vector);
}

/// A stream that begins with the bytes of a header with nonzero dimensions
/// holds that header.
proof fn lemma_header_round_trip(h: QoiHeader, b: Seq<u8>)
    requires
        h.width > 0,
        h.height > 0,
        header_bytes(h).is_prefix_of(b),
    ensures
        parse_header(b) == Some(h),
{
    let hb = header_bytes(h);
    lemma_be32(h.width);
    lemma_be32(h.height);
    assert(hb.len() == 14);
    assert forall|t: int| 0 <= t < 14 implies b[t] == hb[t] by {
        assert(b.subrange(0, 14)[t] == b[t]);
    }
    assert(b.subrange(0, 4) =~= magic_bytes());
    assert(b[4] == be32(h.width)[0] && b[5] == be32(h.width)[1] && b[6] == be32(h.width)[2] && b[7]
        == be32(h.width)[3]);
    assert(b[8] == be32(h.height)[0] && b[9] == be32(h.height)[1] && b[10] == be32(h.height)[2]
        && b[11] == be32(h.height)[3]);
    assert(read_be32(b, 4) == h.width);
    assert(read_be32(b, 8) == h.height);
    assert(channels_of(b[12]) == Some(h.channels));
    assert(colorspace_of(b[13]) == Some(h.colorspace));
}

/// Decoding what was encoded gives back the header and every pixel, after
/// which the pass gives no more.
pub proof fn lemma_round_trip(h: QoiHeader, ps: Seq<Pixel>)
    requires
        h.width > 0,
        h.height > 0,
        ps.len() == pixel_count(h),
    ensures
        decoded(encoded(h, ps)) == Some((h, ps)),
        match dec_steps(encoded(h, ps), dec_start(h), pixel_count(h)) {
            Some((s, _)) => dec_step(encoded(h, ps), s) is None,
            None => false,
        },
{
    let n = ps.len() as int;
    assert(ps.take(n) =~= ps);
    let (s, bs) = enc_fold(ps);
    let b = encoded(h, ps);
    let hb = header_bytes(h);
    let tail = flush(s.run) + end_marker();
    assert(b =~= (hb + bs) + tail);
    lemma_prefix_split(hb + bs, tail, b);
    lemma_prefix_split(hb, bs, hb + bs);
    assert(hb.is_prefix_of(b)) by {
        assert(hb =~= b.subrange(0, hb.len() as int));
    }
    lemma_header_round_trip(h, b);
    lemma_lockstep(h, ps, b, n);
    let k = s.run;
    let st = matching_state(h, s, bs, n - k);
    assert(hb.len() == 14);
    if k > 0 {
        assert(b[st.pos] == b.subrange(st.pos, st.pos + tail.len())[0]);
        lemma_flush_steps(b, dec_start(h), (n - k) as nat, st, ps.take(n - k), k);
        assert(ps.take(n - k) + repeated(s.prev, k) =~= ps);
    }
}

/// Once the encoder resolves a pixel that differs from the one before, the
/// cache holds it in its slot; and a pixel that differs from the one before
/// and that the cache holds in its slot is written as that cache index, after
/// any pending run.
pub proof fn lemma_cached_pixel_indexed(s: EncState, p: Pixel)
    requires
        p != s.prev,
        s.cache.len() == 64,
    ensures
        enc_step(s, p).0.cache[hash_of(p)] == p,
        s.cache[hash_of(p)] == p ==> enc_step(s, p).1 == flush(s.run) + seq![hash_of(p) as u8],
        hash_of(p) < 0x40,
{
}

/// The encoder over `pre` and then `k` repeats of the last pixel of `pre`,
/// below 62 repeats.
proof fn lemma_repeats(pre: Seq<Pixel>, p: Pixel, k: nat)
    requires
        enc_fold(pre).0.prev == p,
        enc_fold(pre).0.run == 0,
        k < 62,
    ensures
        enc_fold(pre + repeated(p, k)) == (EncState { run: k, ..enc_fold(pre).0 }, enc_fold(pre).1),
    decreases k,
{
    if k == 0 {
        assert(pre + repeated(p, 0) =~= pre);
    } else {
        let ps = pre + repeated(p, k);
        assert(ps.drop_last() =~= pre + repeated(p, (k - 1) as nat));
        lemma_repeats(pre, p, (k - 1) as nat);
        assert(enc_fold(pre).1 + seq![] =~= enc_fold(pre).1);
    }
}

/// Sixty-two repeats of the encoder's last pixel, with no run pending, are
/// written as one run opcode of length 62 (wire value 61) with nothing left
/// pending; a 63rd repeat is left pending as a run of one.
pub proof fn lemma_run_boundary(pre: Seq<Pixel>, p: Pixel)
    requires
        enc_fold(pre).0.prev == p,
        enc_fold(pre).0.run == 0,
    ensures
        run_op(62) == 0xc0 + 61,
        enc_fold(pre + repeated(p, 62)) == (enc_fold(pre).0, enc_fold(pre).1 + seq![run_op(62)]),
        enc_fold(pre + repeated(p, 63)) == (
            EncState { run: 1, ..enc_fold(pre).0 },
            enc_fold(pre).1 + seq![run_op(62)],
        ),
{
    let ps62 = pre + repeated(p, 62);
    assert(ps62.drop_last() =~= pre + repeated(p, 61));
    lemma_repeats(pre, p, 61);
    let ps63 = pre + repeated(p, 63);
    assert(ps63.drop_last() =~= ps62);
    assert(enc_fold(pre).1 + seq![run_op(62)] + seq![] =~= enc_fold(pre).1 + seq![run_op(62)]);
}

/// A pixel whose alpha differs from that of the one before, and that the cache
/// does not hold, is written as full RGBA, never as a diff.
pub proof fn lemma_alpha_change_full_rgba(prev: Pixel, cache: Seq<Pixel>, p: Pixel)
    requires
        p.3 != prev.3,
        cache[hash_of(p)] != p,
    ensures
        pixel_op(prev, cache, p) == seq![0xffu8, p.0, p.1, p.2, p.3],
{
}

/// For a pixel that the cache does not hold: a step of one on each colour
/// channel, alpha unchanged, is a small diff; a red step of two within the
/// luma bounds is a luma diff; beyond both, the pixel is written whole, as full
/// RGB where alpha is unchanged and as full RGBA where it changed.
pub proof fn lemma_delta_ranges(prev: Pixel, cache: Seq<Pixel>, p: Pixel)
    requires
        cache[hash_of(p)] != p,
    ensures
        ({
            let dr = wrap_delta(p.0, prev.0);
            let dg = wrap_delta(p.1, prev.1);
            let db = wrap_delta(p.2, prev.2);
            &&& p.3 == prev.3 && dr == 1 && dg == 1 && db == 1 ==> pixel_op(prev, cache, p) == seq![
                0x7fu8,
            ]
            &&& p.3 == prev.3 && dr == 2 && -32 <= dg <= 31 && -8 <= dr - dg <= 7 && -8 <= db - dg <= 7
                ==> pixel_op(prev, cache, p) == seq![
                (0x80 + dg + 32) as u8,
                ((dr - dg + 8) * 16 + (db - dg + 8)) as u8,
            ]
            &&& !(small(dr) && small(dg) && small(db)) && !(-32 <= dg <= 31 && -8 <= dr - dg <= 7 && -8
                <= db - dg <= 7) ==> pixel_op(prev, cache, p) == if p.3 == prev.3 {
                seq![0xfeu8, p.0, p.1, p.2]
            } else {
                seq![0xffu8, p.0, p.1, p.2, p.3]
            }
        }),
{
}

/// A stream with a wrong magic word, a zero width or a channel tag of 5 has no
/// header, and so no pixels.
pub proof fn lemma_header_rejection(b: Seq<u8>)
    requires
        b.len() < 4 || b.subrange(0, 4) != magic_bytes() || (b.len() >= 8 && read_be32(b, 4) == 0)
            || (b.len() >= 13 && b[12] == 5),
    ensures
        parse_header(b) is None,
        decoded(b) is None,
{
}

} // verus!
