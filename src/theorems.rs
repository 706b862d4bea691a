use vstd::prelude::*;

use crate::decode::{
    decode_spec, end_marker, flatten, initial_state, lemma_flatten_len, lemma_run_ops_unfold,
    run_ops, step, DecodeState,
};
use crate::header::{magic, parse_header, DecodeError, Header};
use crate::opcode::{lemma_parse_op_within, parse_op, Op};
use crate::pixel::Pixel;

verus! {

/// Every opcode appends at least one pixel and never more than the image lacks.
pub proof fn lemma_step_progress(st: DecodeState, op: Op, total: nat)
    requires
        st.pixels.len() < total,
    ensures
        st.pixels.len() < step(st, op, total).pixels.len() <= total,
{
}

/// Decoding, where it gets through the opcodes, has produced exactly `total` pixels.
pub proof fn lemma_run_ops_fills(bytes: Seq<u8>, total: nat, st: DecodeState)
    requires
        st.pixels.len() <= total,
    ensures
        run_ops(bytes, total, st) matches Ok(fin) ==> fin.pixels.len() == total,
    decreases total - st.pixels.len(),
{
    lemma_run_ops_unfold(bytes, total, st);
    if st.pixels.len() < total {
        if let Some(op) = parse_op(bytes, st.pos) {
            lemma_step_progress(st, op, total);
            lemma_run_ops_fills(bytes, total, step(st, op, total));
        }
    }
}

/// A successful decode yields exactly `width * height * 4` bytes.
pub proof fn lemma_decoded_size(bytes: Seq<u8>)
    ensures
        decode_spec(bytes) matches Ok((h, pixels)) ==> flatten(pixels).len() == h.width * h.height
            * 4,
{
    if let Ok(h) = parse_header(bytes) {
        lemma_run_ops_fills(bytes, h.pixel_count(), initial_state());
        if let Ok((h2, pixels)) = decode_spec(bytes) {
            lemma_flatten_len(pixels);
        }
    }
}

/// Right after a pixel is produced by an opcode other than a run, the
/// cache holds it in its slot and it is the previous pixel.
pub proof fn lemma_cache_holds_pixel(st: DecodeState, op: Op, total: nat)
    requires
        st.cache.len() == 64,
        !(op is Run),
    ensures
        ({
            let next = step(st, op, total);
            let p = next.pixels.last();
            &&& next.cache[p.spec_hash()] == p
            &&& next.prev == p
            &&& next.cache.len() == 64
        }),
{
}

/// A run leaves the previous pixel and the cache as they were, and appends
/// copies of the previous pixel only.
pub proof fn lemma_run_keeps_state(st: DecodeState, op: Op, total: nat)
    requires
        op is Run,
    ensures
        ({
            let next = step(st, op, total);
            &&& next.prev == st.prev
            &&& next.cache == st.cache
            &&& next.pixels.take(st.pixels.len() as int) == st.pixels
            &&& forall|i: int|
                st.pixels.len() <= i < next.pixels.len() ==> #[trigger] next.pixels[i] == st.prev
        }),
{
    let next = step(st, op, total);
    assert(next.pixels.take(st.pixels.len() as int) =~= st.pixels);
}

/// A difference opcode adds each of its two-bit fields less 2 to the
/// previous pixel, modulo 256 whichever way it goes.
pub proof fn lemma_diff_wraps(bytes: Seq<u8>, pos: int, prev: Pixel, cache: Seq<Pixel>)
    requires
        0 <= pos < bytes.len(),
        64 <= bytes[pos] < 128,
    ensures
        parse_op(bytes, pos) matches Some(op) && ({
            let c = bytes[pos];
            let p = op.spec_pixel(prev, cache);
            &&& p.r as int == (prev.r + (c / 16) % 4 - 2) % 256
            &&& p.g as int == (prev.g + (c / 4) % 4 - 2) % 256
            &&& p.b as int == (prev.b + c % 4 - 2) % 256
            &&& p.a == prev.a
        }),
{
}

/// A luma opcode adds its green delta less 32 to green, and that delta and
/// the red or blue delta less 8 to red or blue, modulo 256 whichever way it
/// goes.
pub proof fn lemma_luma_wraps(bytes: Seq<u8>, pos: int, prev: Pixel, cache: Seq<Pixel>)
    requires
        0 <= pos,
        pos + 1 < bytes.len(),
        128 <= bytes[pos] < 192,
    ensures
        parse_op(bytes, pos) matches Some(op) && ({
            let c = bytes[pos];
            let d = bytes[pos + 1];
            let p = op.spec_pixel(prev, cache);
            &&& p.g as int == (prev.g + c % 64 - 32) % 256
            &&& p.r as int == (prev.r + c % 64 - 32 + d / 16 - 8) % 256
            &&& p.b as int == (prev.b + c % 64 - 32 + d % 16 - 8) % 256
            &&& p.a == prev.a
        }),
{
}

/// A buffer that does not open with the tag is refused as such, whatever follows.
pub proof fn lemma_wrong_magic_rejected(bytes: Seq<u8>)
    requires
        bytes.len() >= 4,
        bytes.take(4) != magic(),
    ensures
        decode_spec(bytes) == Err::<(Header, Seq<Pixel>), DecodeError>(
            DecodeError::MagicMismatch,
        ),
{
}

/// A decoded buffer opens with the tag, holds a whole header and closes
/// with the end marker.
pub proof fn lemma_accepted_is_framed(bytes: Seq<u8>)
    requires
        decode_spec(bytes) is Ok,
    ensures
        bytes.len() >= 22,
        bytes.take(4) == magic(),
        bytes.subrange(bytes.len() - 8, bytes.len() as int) == end_marker(),
{
    let h = parse_header(bytes)->Ok_0;
    lemma_run_ops_positions(bytes, h.pixel_count(), initial_state());
}

/// Decoding never moves backwards, and stops within the bytes.
proof fn lemma_run_ops_positions(bytes: Seq<u8>, total: nat, st: DecodeState)
    requires
        st.pixels.len() <= total,
    ensures
        run_ops(bytes, total, st) matches Ok(fin) ==> st.pos <= fin.pos,
    decreases total - st.pixels.len(),
{
    lemma_run_ops_unfold(bytes, total, st);
    if st.pixels.len() < total {
        if let Some(op) = parse_op(bytes, st.pos) {
            lemma_step_progress(st, op, total);
            lemma_run_ops_positions(bytes, total, step(st, op, total));
        }
    }
}

/// An opcode read from a prefix of the bytes is the one read from the bytes.
proof fn lemma_parse_op_prefix(bytes: Seq<u8>, k: int, pos: int)
    requires
        0 <= k <= bytes.len(),
    ensures
        parse_op(bytes.take(k), pos) is None || parse_op(bytes.take(k), pos) == parse_op(
            bytes,
            pos,
        ),
{
}

/// On a prefix of the bytes, decoding the opcodes fails or ends as on the bytes.
proof fn lemma_run_ops_prefix(bytes: Seq<u8>, k: int, total: nat, st: DecodeState)
    requires
        0 <= k <= bytes.len(),
        st.pixels.len() <= total,
    ensures
        run_ops(bytes.take(k), total, st) is Err || run_ops(bytes.take(k), total, st) == run_ops(
            bytes,
            total,
            st,
        ),
    decreases total - st.pixels.len(),
{
    lemma_run_ops_unfold(bytes, total, st);
    lemma_run_ops_unfold(bytes.take(k), total, st);
    if st.pixels.len() < total {
        lemma_parse_op_prefix(bytes, k, st.pos);
        if let Some(op) = parse_op(bytes.take(k), st.pos) {
            lemma_step_progress(st, op, total);
            lemma_run_ops_prefix(bytes, k, total, step(st, op, total));
        }
    }
}

/// Every buffer cut short of a decodable one is refused.
pub proof fn lemma_truncation_rejected(bytes: Seq<u8>, k: int)
    requires
        decode_spec(bytes) is Ok,
        0 <= k < bytes.len(),
    ensures
        decode_spec(bytes.take(k)) is Err,
{
    let pre = bytes.take(k);
    if k >= 4 {
        assert(pre.take(4) =~= bytes.take(4));
    }
    if k >= 14 {
        assert(parse_header(pre) == parse_header(bytes));
        let h = parse_header(bytes)->Ok_0;
        lemma_run_ops_prefix(bytes, k, h.pixel_count(), initial_state());
    }
}

/// A run opcode that appends every pixel it asks for, however much room
/// `total` leaves.
pub open spec fn appends_whole(st: DecodeState, op: Op, total: nat) -> bool {
    op matches Op::Run { run } ==> st.pixels.len() + run + 1 <= total
}

/// Decoding `bytes` from `st` passes through `target`, with no run cut short
/// on the way.
pub open spec fn reaches(bytes: Seq<u8>, total: nat, st: DecodeState, target: DecodeState) -> bool
    decreases total - st.pixels.len(),
{
    if st == target {
        true
    } else if st.pixels.len() >= total {
        false
    } else {
        match parse_op(bytes, st.pos) {
            None => false,
            Some(op) => appends_whole(st, op, total) && reaches(
                bytes,
                total,
                step(st, op, total),
                target,
            ),
        }
    }
}

/// What `reaches` passes through lies ahead, within the image, and decodes
/// to the same end.
proof fn lemma_reaches(bytes: Seq<u8>, total: nat, st: DecodeState, target: DecodeState)
    requires
        st.pixels.len() <= total,
        reaches(bytes, total, st, target),
    ensures
        st.pos <= target.pos,
        target.pixels.len() <= total,
        run_ops(bytes, total, st) == run_ops(bytes, total, target),
    decreases total - st.pixels.len(),
{
    if st != target {
        let op = parse_op(bytes, st.pos)->0;
        lemma_step_progress(st, op, total);
        lemma_reaches(bytes, total, step(st, op, total), target);
        lemma_run_ops_unfold(bytes, total, st);
    }
}

/// `pixels` with `n` copies of `p` put in at index `at`.
pub open spec fn insert_copies(pixels: Seq<Pixel>, at: int, n: nat, p: Pixel) -> Seq<Pixel> {
    pixels.take(at) + Seq::new(n, |k: int| p) + pixels.skip(at)
}

/// Up to `limit`, the opcodes that `b1` and `b2` share decode alike, and
/// their runs are not cut by the larger image `b2` describes.
proof fn lemma_same_before(
    b1: Seq<u8>,
    b2: Seq<u8>,
    total: nat,
    extra: nat,
    st: DecodeState,
    mid: DecodeState,
)
    requires
        st.pixels.len() <= total,
        st.pos >= 0,
        reaches(b1, total, st, mid),
        mid.pos < b2.len(),
        forall|j: int| st.pos <= j < mid.pos ==> #[trigger] b2[j] == b1[j],
    ensures
        run_ops(b2, total + extra, st) == run_ops(b2, total + extra, mid),
    decreases total - st.pixels.len(),
{
    if st != mid {
        let op = parse_op(b1, st.pos)->0;
        let next = step(st, op, total);
        lemma_parse_op_within(b1, st.pos);
        lemma_step_progress(st, op, total);
        lemma_reaches(b1, total, next, mid);
        assert(parse_op(b2, st.pos) == parse_op(b1, st.pos));
        assert(step(st, op, total + extra) == next);
        lemma_run_ops_unfold(b2, total + extra, st);
        lemma_same_before(b1, b2, total, extra, next, mid);
    }
}

/// After the inserted byte, `b2` holds the bytes of `b1` one place on.
proof fn lemma_parse_op_shifted(b1: Seq<u8>, b2: Seq<u8>, pos: int, from: int)
    requires
        0 <= from <= pos,
        b2.len() == b1.len() + 1,
        forall|j: int| from <= j < b1.len() ==> b2[j + 1] == #[trigger] b1[j],
    ensures
        parse_op(b2, pos + 1) == parse_op(b1, pos),
{
    if pos < b1.len() {
        assert(b2[pos + 1] == b1[pos]);
        if pos + 1 < b1.len() {
            assert(b2[pos + 2] == b1[pos + 1]);
        }
        if pos + 2 < b1.len() {
            assert(b2[pos + 3] == b1[pos + 2]);
        }
        if pos + 3 < b1.len() {
            assert(b2[pos + 4] == b1[pos + 3]);
        }
        if pos + 4 < b1.len() {
            assert(b2[pos + 5] == b1[pos + 4]);
        }
    }
}

/// Past the inserted run, `b2` decodes as `b1` does, one byte on and with
/// the run's copies in its pixels.
proof fn lemma_same_after(
    b1: Seq<u8>,
    b2: Seq<u8>,
    total: nat,
    extra: nat,
    from: int,
    at: int,
    p: Pixel,
    s1: DecodeState,
    s2: DecodeState,
)
    requires
        0 <= from <= s1.pos,
        0 <= at <= s1.pixels.len() <= total,
        b2.len() == b1.len() + 1,
        forall|j: int| from <= j < b1.len() ==> b2[j + 1] == #[trigger] b1[j],
        run_ops(b1, total, s1) is Ok,
        s2.pos == s1.pos + 1,
        s2.prev == s1.prev,
        s2.cache == s1.cache,
        s2.pixels == insert_copies(s1.pixels, at, extra, p),
    ensures
        run_ops(b1, total, s1) matches Ok(f1) && run_ops(b2, total + extra, s2) == Ok::<
            DecodeState,
            DecodeError,
        >(
            DecodeState {
                pos: f1.pos + 1,
                prev: f1.prev,
                cache: f1.cache,
                pixels: insert_copies(f1.pixels, at, extra, p),
            },
        ),
        run_ops(b1, total, s1) matches Ok(f1) && from <= f1.pos,
    decreases total - s1.pixels.len(),
{
    lemma_run_ops_unfold(b1, total, s1);
    lemma_run_ops_unfold(b2, total + extra, s2);
    assert(s2 == DecodeState { pos: s1.pos + 1, prev: s1.prev, cache: s1.cache, pixels: s2.pixels });
    if s1.pixels.len() < total {
        let op = parse_op(b1, s1.pos)->0;
        lemma_parse_op_shifted(b1, b2, s1.pos, from);
        lemma_step_progress(s1, op, total);
        let n1 = step(s1, op, total);
        let n2 = step(s2, op, total + extra);
        match op {
            Op::Run { run } => {
                let k = (n1.pixels.len() - s1.pixels.len()) as nat;
                assert(n1.pixels =~= s1.pixels + Seq::new(k, |i: int| s1.prev));
                assert(n2.pixels =~= s2.pixels + Seq::new(k, |i: int| s1.prev));
                assert(n2.pixels =~= insert_copies(n1.pixels, at, extra, p));
            },
            _ => {
                assert(n2.pixels =~= insert_copies(n1.pixels, at, extra, p));
            },
        }
        lemma_same_after(b1, b2, total, extra, from, at, p, n1, n2);
    } else {
        assert(s2.pixels.len() >= total + extra);
    }
}

/// Putting a run byte into a decodable buffer right after an opcode, and
/// growing the header by the run's length, puts that many copies of the
/// pixel decoded last into the output at that place, and changes nothing
/// else: a run leaves the previous pixel and the cache as they were, so
/// every later opcode decodes as before. `mid` is the state of decoding
/// `b1` at the insertion point, reached with no run cut short.
pub proof fn lemma_run_insertion(b1: Seq<u8>, b2: Seq<u8>, mid: DecodeState, run: u8)
    requires
        decode_spec(b1) is Ok,
        reaches(b1, parse_header(b1)->Ok_0.pixel_count(), initial_state(), mid),
        run < 62,
        b2.len() == b1.len() + 1,
        parse_header(b2) is Ok,
        parse_header(b2)->Ok_0.pixel_count() == parse_header(b1)->Ok_0.pixel_count() + run + 1,
        forall|j: int| 14 <= j < mid.pos ==> #[trigger] b2[j] == b1[j],
        b2[mid.pos] == 0xC0 + run,
        forall|j: int| mid.pos <= j < b1.len() ==> b2[j + 1] == #[trigger] b1[j],
    ensures
        decode_spec(b1) matches Ok((h1, pixels)) && decode_spec(b2) == Ok::<
            (Header, Seq<Pixel>),
            DecodeError,
        >(
            (
                parse_header(b2)->Ok_0,
                insert_copies(pixels, mid.pixels.len() as int, (run + 1) as nat, mid.prev),
            ),
        ),
{
    let h1 = parse_header(b1)->Ok_0;
    let h2 = parse_header(b2)->Ok_0;
    let total = h1.pixel_count();
    let extra = (run + 1) as nat;
    let init = initial_state();
    lemma_reaches(b1, total, init, mid);
    let f1 = run_ops(b1, total, init)->Ok_0;
    lemma_run_ops_fills(b1, total, init);
    assert(mid.pos < b2.len()) by {
        lemma_run_ops_positions(b1, total, mid);
    }
    lemma_same_before(b1, b2, total, extra, init, mid);
    let op = Op::Run { run };
    assert(parse_op(b2, mid.pos) == Some(op));
    let s2 = step(mid, op, total + extra);
    lemma_run_ops_unfold(b2, total + extra, mid);
    assert(mid.pixels.take(mid.pixels.len() as int) =~= mid.pixels);
    assert(mid.pixels.skip(mid.pixels.len() as int) =~= Seq::<Pixel>::empty());
    assert(s2.pixels =~= insert_copies(mid.pixels, mid.pixels.len() as int, extra, mid.prev));
    lemma_same_after(b1, b2, total, extra, mid.pos, mid.pixels.len() as int, mid.prev, mid, s2);
    assert(b2.subrange(f1.pos + 1, f1.pos + 9) =~= b1.subrange(f1.pos, f1.pos + 8));
}

} // verus!
