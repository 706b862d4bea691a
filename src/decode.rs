use vstd::prelude::*;

use crate::cache::{initial_cache, ColorCache};
use crate::header::{parse_header, read_header, DecodeError, Header, HEADER_LEN};
use crate::opcode::{lemma_parse_op_within, parse_op, read_op, Op};
use crate::pixel::Pixel;
use crate::theorems::lemma_decoded_size;

verus! {

/// The running state of a decode: where the next opcode starts, the
/// previous pixel, the color cache and the pixels produced so far.
pub struct DecodeState {
    pub pos: int,
    pub prev: Pixel,
    pub cache: Seq<Pixel>,
    pub pixels: Seq<Pixel>,
}

/// The state before the first opcode.
pub open spec fn initial_state() -> DecodeState {
    DecodeState {
        pos: 14,
        prev: Pixel { r: 0, g: 0, b: 0, a: 255 },
        cache: initial_cache(),
        pixels: Seq::empty(),
    }
}

/// The effect of one opcode on the state, for an image of `total` pixels.
/// A run appends copies of the previous pixel, no more than the image
/// still lacks, and leaves the previous pixel and the cache alone. Any
/// other opcode appends its pixel, stores it in the cache and makes it the
/// previous pixel.
pub open spec fn step(st: DecodeState, op: Op, total: nat) -> DecodeState {
    match op {
        Op::Run { run } => {
            let room = total - st.pixels.len();
            let n = if run + 1 < room { run + 1 } else { room };
            DecodeState {
                pos: st.pos + 1,
                pixels: st.pixels + Seq::new(n as nat, |i: int| st.prev),
                ..st
            }
        },
        _ => {
            let p = op.spec_pixel(st.prev, st.cache);
            DecodeState {
                pos: st.pos + op.size(),
                prev: p,
                cache: st.cache.update(p.spec_hash(), p),
                pixels: st.pixels.push(p),
            }
        },
    }
}

/// Applies opcodes from `st` on until the image holds `total` pixels.
#[verifier::opaque]
pub open spec fn run_ops(bytes: Seq<u8>, total: nat, st: DecodeState) -> Result<
    DecodeState,
    DecodeError,
>
    decreases total - st.pixels.len(),
{
    if st.pixels.len() >= total {
        Ok(st)
    } else {
        match parse_op(bytes, st.pos) {
            None => Err(DecodeError::TruncatedInput),
            Some(op) => run_ops(bytes, total, step(st, op, total)),
        }
    }
}

/// The eight bytes that close every image.
pub open spec fn end_marker() -> Seq<u8> {
    seq![0, 0, 0, 0, 0, 0, 0, 1]
}

/// The pixels' bytes, R, G, B, A for each in turn.
pub open spec fn flatten(pixels: Seq<Pixel>) -> Seq<u8>
    decreases pixels.len(),
{
    if pixels.len() == 0 {
        Seq::empty()
    } else {
        flatten(pixels.drop_last()) + pixels.last().bytes()
    }
}

/// What decoding `bytes` gives: the header and the pixels, or the first
/// error met.
pub open spec fn decode_spec(bytes: Seq<u8>) -> Result<(Header, Seq<Pixel>), DecodeError> {
    match parse_header(bytes) {
        Err(e) => Err(e),
        Ok(h) => match run_ops(bytes, h.pixel_count(), initial_state()) {
            Err(e) => Err(e),
            Ok(st) => if st.pos + 8 == bytes.len() && bytes.subrange(st.pos, st.pos + 8)
                == end_marker() {
                Ok((h, st.pixels))
            } else {
                Err(DecodeError::InvalidEndMarker)
            },
        },
    }
}

/// Unfolds `run_ops` by one opcode.
pub proof fn lemma_run_ops_unfold(bytes: Seq<u8>, total: nat, st: DecodeState)
    ensures
        run_ops(bytes, total, st) == if st.pixels.len() >= total {
            Ok(st)
        } else {
            match parse_op(bytes, st.pos) {
                None => Err(DecodeError::TruncatedInput),
                Some(op) => run_ops(bytes, total, step(st, op, total)),
            }
        },
{
    reveal(run_ops);
}

/// Appending a pixel appends its four bytes.
pub proof fn lemma_flatten_push(pixels: Seq<Pixel>, p: Pixel)
    ensures
        flatten(pixels.push(p)) == flatten(pixels) + p.bytes(),
{
    assert(pixels.push(p).drop_last() =~= pixels);
}

/// Each pixel gives four bytes.
pub proof fn lemma_flatten_len(pixels: Seq<Pixel>)
    ensures
        flatten(pixels).len() == 4 * pixels.len(),
    decreases pixels.len(),
{
    if pixels.len() > 0 {
        lemma_flatten_len(pixels.drop_last());
    }
}

fn push_pixel(data: &mut Vec<u8>, p: Pixel)
    ensures
        final(data)@ == old(data)@ + p.bytes(),
{
    let f = p.flat();
    data.push(f[0]);
    data.push(f[1]);
    data.push(f[2]);
    data.push(f[3]);
    assert(final(data)@ =~= old(data)@ + p.bytes());
}

fn push_run(data: &mut Vec<u8>, Ghost(pixels): Ghost<Seq<Pixel>>, p: Pixel, n: u64)
    requires
        old(data)@ == flatten(pixels),
    ensures
        final(data)@ == flatten(pixels + Seq::new(n as nat, |k: int| p)),
{
    let mut i: u64 = 0;
    while i < n
        invariant
            i <= n,
            data@ == flatten(pixels + Seq::new(i as nat, |k: int| p)),
        decreases n - i,
    {
        let ghost done = pixels + Seq::new(i as nat, |k: int| p);
        push_pixel(data, p);
        proof {
            lemma_flatten_push(done, p);
            assert(done.push(p) =~= pixels + Seq::new((i + 1) as nat, |k: int| p));
        }
        i += 1;
    }
}

fn has_end_marker(bytes: &[u8], pos: usize) -> (r: bool)
    requires
        pos <= bytes@.len(),
    ensures
        r == (pos + 8 == bytes@.len() && bytes@.subrange(pos as int, pos + 8) == end_marker()),
{
    if bytes.len() - pos != 8 {
        return false;
    }
    let mut i: usize = 0;
    while i < 8
        invariant
            pos + 8 == bytes@.len(),
            bytes@.len() <= usize::MAX,
            i <= 8,
            forall|j: int| 0 <= j < i ==> bytes@[pos + j] == end_marker()[j],
        decreases 8 - i,
    {
        let expected: u8 = if i == 7 {
            1
        } else {
            0
        };
        if bytes[pos + i] != expected {
            assert(bytes@.subrange(pos as int, pos + 8)[i as int] != end_marker()[i as int]);
            return false;
        }
        i += 1;
    }
    assert(bytes@.subrange(pos as int, pos + 8) =~= end_marker());
    true
}

/// A decoded image: its header and its pixels as RGBA8 bytes.
pub struct ImageData {
    header: Header,
    image_data: Vec<u8>,
}

impl View for ImageData {
    type V = (Header, Seq<u8>);

    closed spec fn view(&self) -> (Header, Seq<u8>) {
        (self.header, self.image_data@)
    }
}

impl ImageData {
    /// Decodes a whole QOI image held in `bytes`.
    pub fn decode(bytes: &[u8]) -> (r: Result<ImageData, DecodeError>)
        ensures
            match decode_spec(bytes@) {
                Ok((h, pixels)) => r matches Ok(img) && img@ == (h, flatten(pixels)),
                Err(e) => r == Err::<ImageData, DecodeError>(e),
            },
            r matches Ok(img) ==> img@.1.len() == img@.0.width * img@.0.height * 4,
    {
        let header = match read_header(bytes) {
            Ok(h) => h,
            Err(e) => return Err(e),
        };
        let ghost total = header.pixel_count();
        assert(header.width * header.height <= 0xffff_ffff * 0xffff_ffff) by (nonlinear_arith)
            requires
                header.width <= 0xffff_ffff,
                header.height <= 0xffff_ffff,
        ;
        let count_total: u64 = header.width as u64 * header.height as u64;
        let mut pos: usize = HEADER_LEN;
        let mut prev = Pixel::new(0, 0, 0, 255);
        let mut cache = ColorCache::new();
        let mut image_data: Vec<u8> = Vec::new();
        let mut count: u64 = 0;
        let ghost mut pixels: Seq<Pixel> = Seq::empty();
        proof {
            assert(initial_state() == (DecodeState { pos: pos as int, prev, cache: cache@, pixels }));
            assert(bytes@.len() == bytes.len());
        }
        while count < count_total
            invariant
                parse_header(bytes@) == Ok::<Header, DecodeError>(header),
                bytes@.len() <= usize::MAX,
                total == header.pixel_count(),
                count_total == total,
                count <= count_total,
                pixels.len() == count,
                cache.wf(),
                pos <= bytes@.len(),
                image_data@ == flatten(pixels),
                run_ops(bytes@, total, DecodeState { pos: pos as int, prev, cache: cache@, pixels })
                    == run_ops(bytes@, total, initial_state()),
            decreases count_total - count,
        {
            let ghost before = DecodeState { pos: pos as int, prev, cache: cache@, pixels };
            let op = match read_op(bytes, pos) {
                Some(op) => op,
                None => {
                    proof {
                        lemma_run_ops_unfold(bytes@, total, before);
                    }
                    return Err(DecodeError::TruncatedInput);
                },
            };
            proof {
                lemma_parse_op_within(bytes@, pos as int);
                lemma_run_ops_unfold(bytes@, total, before);
            }
            match op {
                Op::Run { run } => {
                    let room: u64 = count_total - count;
                    let n: u64 = if (run as u64) + 1 < room {
                        (run as u64) + 1
                    } else {
                        room
                    };
                    pos += 1;
                    push_run(&mut image_data, Ghost(pixels), prev, n);
                    proof {
                        pixels = pixels + Seq::new(n as nat, |k: int| prev);
                    }
                    count += n;
                    proof {
                        assert(step(before, op, total) == DecodeState {
                            pos: pos as int,
                            prev,
                            cache: cache@,
                            pixels,
                        });
                    }
                },
                _ => {
                    let p = op.pixel(prev, &cache);
                    push_pixel(&mut image_data, p);
                    proof {
                        lemma_flatten_push(pixels, p);
                        pixels = pixels.push(p);
                    }
                    cache.put(p);
                    prev = p;
                    pos += op.byte_len();
                    count += 1;
                    proof {
                        assert(step(before, op, total) == DecodeState {
                            pos: pos as int,
                            prev,
                            cache: cache@,
                            pixels,
                        });
                    }
                },
            }
        }
        proof {
            lemma_run_ops_unfold(bytes@, total, DecodeState { pos: pos as int, prev, cache: cache@, pixels });
        }
        if !has_end_marker(bytes, pos) {
            return Err(DecodeError::InvalidEndMarker);
        }
        proof {
            lemma_decoded_size(bytes@);
        }
        Ok(ImageData { header, image_data })
    }

    pub fn header(&self) -> (h: Header)
        ensures
            h == self@.0,
    {
        self.header
    }

    /// The pixels as RGBA8 bytes, in decode order.
    pub fn image_data(&self) -> (d: &[u8])
        ensures
            d@ == self@.1,
    {
        self.image_data.as_slice()
    }
}

} // verus!
