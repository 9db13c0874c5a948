//! The decoder: one opcode after another, until the image is complete.

use crate::error::{truncated, DecodeError, DecodeFailure};
use crate::info::{magic, parse_header, Channels, Info, HEADER_LEN, QOI_MAGIC};
use crate::opcode::{
    lemma_field_bits, parse_op, Op, QOI_OP_DIFF, QOI_OP_INDEX, QOI_OP_LUMA, QOI_OP_RGB,
    QOI_OP_RGBA,
};
use crate::pixel::{
    bytes_of, empty_cache, hash_slot, lemma_bytes_of_push, pixel_bytes, qoi_hash, rgb_components,
    rgba_components, seed_pixel, Pixel,
};
use bytes::BufMut;
use vstd::prelude::*;

verus! {

/// How the reading of opcodes ended.
pub enum Status {
    /// All pixels were read.
    Done,
    /// The stream ended before the pixels were complete.
    Truncated,
    /// A run held more pixels than were left to read.
    Overrun,
}

/// What the reading of opcodes gave, up to where it ended.
pub struct Outcome {
    /// The pixels that were read, in order.
    pub pixels: Seq<Pixel>,
    /// The color cache after them.
    pub cache: Seq<Pixel>,
    /// The previous pixel after them.
    pub prev: Pixel,
    /// The position in the stream of the first byte that was not used.
    pub pos: int,
    /// How the reading ended.
    pub status: Status,
}

/// What reading `n` pixels from the opcodes of `s` at `pos` gives, for a
/// decoder whose color cache is `cache` and whose previous pixel is `prev`.
/// Every pixel that an opcode stands for enters the cache and becomes the
/// previous pixel. Reading ends without using the opcode that is incomplete
/// or that holds too many pixels.
#[verifier::opaque]
pub open spec fn decode_from(cache: Seq<Pixel>, prev: Pixel, s: Seq<u8>, pos: int, n: nat) -> Outcome
    decreases n,
{
    if n == 0 {
        Outcome { pixels: Seq::empty(), cache, prev, pos, status: Status::Done }
    } else {
        match parse_op(s, pos) {
            None => Outcome { pixels: Seq::empty(), cache, prev, pos, status: Status::Truncated },
            Some(op) => if op.count() > n {
                Outcome { pixels: Seq::empty(), cache, prev, pos, status: Status::Overrun }
            } else {
                let p = op.pixel(cache, prev);
                let rest = decode_from(
                    cache.update(hash_slot(p), p),
                    p,
                    s,
                    pos + op.len(),
                    (n - op.count()) as nat,
                );
                Outcome { pixels: Seq::new(op.count() as nat, |i: int| p) + rest.pixels, ..rest }
            },
        }
    }
}

/// The color cache of the decoder after the pixels of `ps` from `i` on: every
/// pixel has entered its slot.
pub open spec fn store_from(cache: Seq<Pixel>, ps: Seq<Pixel>, i: int) -> Seq<Pixel>
    decreases ps.len() - i,
{
    if i < 0 || i >= ps.len() {
        cache
    } else {
        store_from(cache.update(hash_slot(ps[i]), ps[i]), ps, i + 1)
    }
}

/// `whole` is what reading gives where `done` was read first and `rest` after
/// it.
pub open spec fn continues(whole: Outcome, done: Seq<Pixel>, rest: Outcome) -> bool {
    whole == (Outcome { pixels: done + rest.pixels, ..rest })
}

/// With no pixel left to read, reading is done.
pub proof fn lemma_decode_done(cache: Seq<Pixel>, prev: Pixel, s: Seq<u8>, pos: int)
    ensures
        decode_from(cache, prev, s, pos, 0) == (Outcome {
            pixels: Seq::empty(),
            cache,
            prev,
            pos,
            status: Status::Done,
        }),
{
    reveal(decode_from);
}

/// Where the next opcode is incomplete, reading ends there.
pub proof fn lemma_decode_truncated(cache: Seq<Pixel>, prev: Pixel, s: Seq<u8>, pos: int, n: nat)
    requires
        n > 0,
        parse_op(s, pos) is None,
    ensures
        decode_from(cache, prev, s, pos, n) == (Outcome {
            pixels: Seq::empty(),
            cache,
            prev,
            pos,
            status: Status::Truncated,
        }),
{
    reveal(decode_from);
}

/// Where the next opcode holds more pixels than are left, reading ends there.
pub proof fn lemma_decode_overrun(
    cache: Seq<Pixel>,
    prev: Pixel,
    s: Seq<u8>,
    pos: int,
    n: nat,
    op: Op,
)
    requires
        n > 0,
        parse_op(s, pos) == Some(op),
        op.count() > n,
    ensures
        decode_from(cache, prev, s, pos, n) == (Outcome {
            pixels: Seq::empty(),
            cache,
            prev,
            pos,
            status: Status::Overrun,
        }),
{
    reveal(decode_from);
}

/// Where the next opcode fits, its pixels are read and reading goes on behind
/// it.
pub proof fn lemma_decode_step(
    cache: Seq<Pixel>,
    prev: Pixel,
    s: Seq<u8>,
    pos: int,
    n: nat,
    op: Op,
)
    requires
        parse_op(s, pos) == Some(op),
        op.count() <= n,
    ensures
        ({
            let p = op.pixel(cache, prev);
            continues(
                decode_from(cache, prev, s, pos, n),
                Seq::new(op.count() as nat, |i: int| p),
                decode_from(
                    cache.update(hash_slot(p), p),
                    p,
                    s,
                    pos + op.len(),
                    (n - op.count()) as nat,
                ),
            )
        }),
{
    reveal(decode_from);
}

/// Reading in two parts gives what reading at once gives.
pub(crate) proof fn lemma_continues_chain(
    whole: Outcome,
    done: Seq<Pixel>,
    mid: Outcome,
    more: Seq<Pixel>,
    rest: Outcome,
)
    requires
        continues(whole, done, mid),
        continues(mid, more, rest),
    ensures
        continues(whole, done + more, rest),
{
    assert(done + (more + rest.pixels) =~= (done + more) + rest.pixels);
}

/// The cache after the pixels of `b` from `j` on is the same where other
/// pixels stand in front of them.
pub(crate) proof fn lemma_store_shift(cache: Seq<Pixel>, a: Seq<Pixel>, b: Seq<Pixel>, j: int)
    requires
        0 <= j <= b.len(),
    ensures
        store_from(cache, a + b, a.len() + j) == store_from(cache, b, j),
    decreases b.len() - j,
{
    if j < b.len() {
        assert((a + b)[a.len() + j] == b[j]);
        lemma_store_shift(cache.update(hash_slot(b[j]), b[j]), a, b, j + 1);
    }
}

/// The cache after two sequences of pixels in a row is the cache after the
/// second, begun with the cache after the first.
pub(crate) proof fn lemma_store_concat(cache: Seq<Pixel>, a: Seq<Pixel>, b: Seq<Pixel>, i: int)
    requires
        0 <= i <= a.len(),
    ensures
        store_from(cache, a + b, i) == store_from(store_from(cache, a, i), b, 0),
    decreases a.len() - i,
{
    if i < a.len() {
        assert((a + b)[i] == a[i]);
        lemma_store_concat(cache.update(hash_slot(a[i]), a[i]), a, b, i + 1);
    } else {
        lemma_store_shift(cache, a, b, 0);
    }
}

/// The cache after one pixel, once or many times over, holds that pixel in
/// its slot and is otherwise as before.
pub(crate) proof fn lemma_store_repeat(cache: Seq<Pixel>, p: Pixel, ps: Seq<Pixel>, i: int)
    requires
        0 <= i < ps.len(),
        0 <= hash_slot(p) < cache.len(),
        forall|j: int| i <= j < ps.len() ==> ps[j] == p,
    ensures
        store_from(cache, ps, i) == cache.update(hash_slot(p), p),
    decreases ps.len() - i,
{
    let stored = cache.update(hash_slot(p), p);
    if i + 1 < ps.len() {
        lemma_store_repeat(stored, p, ps, i + 1);
        assert(stored.update(hash_slot(p), p) =~= stored);
    } else {
        assert(store_from(stored, ps, i + 1) == stored);
    }
}

/// Whatever the stream holds, the decoder's color cache after reading is the
/// cache that holds every pixel read, and its previous pixel is the last one
/// read.
pub proof fn lemma_decode_state(cache: Seq<Pixel>, prev: Pixel, s: Seq<u8>, pos: int, n: nat)
    requires
        cache.len() == 64,
    ensures
        ({
            let out = decode_from(cache, prev, s, pos, n);
            &&& out.cache == store_from(cache, out.pixels, 0)
            &&& out.prev == crate::encoder::last_pixel(prev, out.pixels)
            &&& out.pixels.len() <= n
            &&& out.status == Status::Done ==> out.pixels.len() == n
        }),
    decreases n,
{
    reveal(decode_from);
    if n > 0 {
        match parse_op(s, pos) {
            None => {},
            Some(op) => {
                if op.count() <= n {
                    let p = op.pixel(cache, prev);
                    let stored = cache.update(hash_slot(p), p);
                    let first = Seq::new(op.count() as nat, |i: int| p);
                    let rest = decode_from(stored, p, s, pos + op.len(), (n - op.count()) as nat);
                    lemma_decode_state(stored, p, s, pos + op.len(), (n - op.count()) as nat);
                    lemma_store_repeat(cache, p, first, 0);
                    lemma_store_concat(cache, first, rest.pixels, 0);
                    if rest.pixels.len() > 0 {
                        assert((first + rest.pixels).last() == rest.pixels.last());
                    } else {
                        assert((first + rest.pixels).last() == p);
                    }
                }
            },
        }
    }
}

/// `bytes::BufMut::put` on the part of `buf` that begins at `at`, with the
/// slice `src`: it copies the bytes of `src` to the front of that part and
/// leaves the rest of `buf` as it was. It panics where the part is shorter
/// than `src`.
#[verifier::external_body]
fn put_at(buf: &mut [u8], at: usize, src: &[u8])
    requires
        at + src@.len() <= old(buf)@.len(),
    ensures
        final(buf)@ == old(buf)@.subrange(0, at as int) + src@ + old(buf)@.skip(
            at + src@.len(),
        ),
{
    let mut tail = &mut buf[at..];
    tail.put(src);
}

/// Writes the bytes of `pixel` into `buf` behind the `done` pixels that it
/// holds already.
fn put_pixel(
    buf: &mut [u8],
    at: usize,
    pixel: Pixel,
    channels: Channels,
    Ghost(done): Ghost<Seq<Pixel>>,
    Ghost(orig): Ghost<Seq<u8>>,
)
    requires
        channels == Channels::Rgb ==> at == 3 * done.len(),
        channels == Channels::Rgba ==> at == 4 * done.len(),
        at + channels.count() <= orig.len(),
        old(buf)@ == bytes_of(done, channels) + orig.skip(at as int),
    ensures
        final(buf)@ == bytes_of(done.push(pixel), channels) + orig.skip(at + channels.count()),
        final(buf)@.len() == orig.len(),
{
    proof {
        lemma_bytes_of_push(done, pixel, channels);
    }
    match channels {
        Channels::Rgb => put_at(buf, at, rgb_components(pixel).as_slice()),
        Channels::Rgba => put_at(buf, at, rgba_components(pixel).as_slice()),
    }
    proof {
        assert(final(buf)@ =~= bytes_of(done, channels) + pixel_bytes(pixel, channels) + orig.skip(
            at + channels.count(),
        ));
    }
}

/// What the decoder knows while it works.
pub struct DecoderView {
    /// The whole stream.
    pub input: Seq<u8>,
    /// The position of the next byte to read.
    pub pos: int,
    /// The header of the image.
    pub info: Info,
    /// The number of pixels read so far.
    pub pixel: int,
    /// The color cache, 64 slots.
    pub cache: Seq<Pixel>,
    /// The previous pixel.
    pub prev: Pixel,
}

/// Reads one image from a stream held in memory.
#[derive(Debug)]
pub struct Decoder<'a> {
    r: &'a [u8],
    pos: usize,
    info: Info,
    pixel: usize,
    index: [Pixel; 64],
    prev: Pixel,
}

impl<'a> View for Decoder<'a> {
    type V = DecoderView;

    closed spec fn view(&self) -> DecoderView {
        DecoderView {
            input: self.r@,
            pos: self.pos as int,
            info: self.info,
            pixel: self.pixel as int,
            cache: self.index@,
            prev: self.prev,
        }
    }
}

impl<'a> Decoder<'a> {
    /// The position lies in the stream, and no more pixels were read than the
    /// image has.
    pub open spec fn wf(&self) -> bool {
        &&& 0 <= self@.pos <= self@.input.len()
        &&& 0 <= self@.pixel <= self@.info.pixel_count()
        &&& self@.cache.len() == 64
    }

    /// A decoder for the stream `r`. The header is read at once.
    pub fn new(r: &'a [u8]) -> (res: Result<Self, DecodeError>)
        ensures
            match res {
                Ok(dec) => {
                    &&& parse_header(r@) == Ok::<Info, DecodeFailure>(dec@.info)
                    &&& dec.wf()
                    &&& dec@ == (DecoderView {
                        input: r@,
                        pos: 14,
                        info: dec@.info,
                        pixel: 0,
                        cache: empty_cache(),
                        prev: seed_pixel(),
                    })
                },
                Err(e) => parse_header(r@) == Err::<Info, DecodeFailure>(e@),
            },
    {
        if r.len() < 4 {
            return Err(truncated());
        }
        if r[0] != QOI_MAGIC[0] || r[1] != QOI_MAGIC[1] || r[2] != QOI_MAGIC[2] || r[3]
            != QOI_MAGIC[3] {
            assert(r@.subrange(0, 4)[0] == r@[0]);
            assert(r@.subrange(0, 4)[1] == r@[1]);
            assert(r@.subrange(0, 4)[2] == r@[2]);
            assert(r@.subrange(0, 4)[3] == r@[3]);
            return Err(DecodeError::InvalidSignature);
        }
        assert(r@.subrange(0, 4) =~= magic());
        let rest = vstd::slice::slice_subrange(r, 4, r.len());
        assert(rest@ =~= r@.skip(4));
        let info = match Info::decode(rest) {
            Ok(info) => info,
            Err(e) => { return Err(e); },
        };
        let dec = Decoder {
            r,
            pos: HEADER_LEN,
            info,
            pixel: 0,
            index: [Pixel { r: 0, g: 0, b: 0, a: 0 };64],
            prev: Pixel { r: 0, g: 0, b: 0, a: 255 },
        };
        assert(dec.index@ =~= empty_cache());
        Ok(dec)
    }

    /// The header of the image.
    pub fn info(&self) -> (info: &Info)
        ensures
            *info == self@.info,
    {
        &self.info
    }

    /// Reads the opcode at the position of the decoder, without moving on:
    /// the pixel that it stands for, how many times more than once, and the
    /// number of bytes that it takes.
    fn read_op(&self) -> (res: Result<(Pixel, u8, usize), DecodeError>)
        requires
            self.pos <= self.r@.len(),
        ensures
            match res {
                Ok((pixel, run, used)) => {
                    &&& parse_op(self.r@, self.pos as int) matches Some(op)
                    &&& pixel == op.pixel(self.index@, self.prev)
                    &&& op.count() == run + 1
                    &&& used == op.len()
                    &&& self.pos + used <= self.r@.len()
                },
                Err(e) => parse_op(self.r@, self.pos as int) is None && e@ == DecodeFailure::Io,
            },
    {
        let len = self.r.len();
        let mut pixel = self.prev;
        if self.pos >= len {
            return Err(truncated());
        }
        let byte = self.r[self.pos];
        let avail = len - self.pos;
        proof {
            lemma_field_bits(byte);
        }

        if byte == QOI_OP_RGBA {
            if avail < 5 {
                return Err(truncated());
            }
            pixel.r = self.r[self.pos + 1];
            pixel.g = self.r[self.pos + 2];
            pixel.b = self.r[self.pos + 3];
            pixel.a = self.r[self.pos + 4];
            Ok((pixel, 0, 5))
        } else if byte == QOI_OP_RGB {
            if avail < 4 {
                return Err(truncated());
            }
            pixel.r = self.r[self.pos + 1];
            pixel.g = self.r[self.pos + 2];
            pixel.b = self.r[self.pos + 3];
            Ok((pixel, 0, 4))
        } else {
            let tag = byte & 0xc0;
            if tag == QOI_OP_INDEX {
                pixel = self.index[(byte & 0x3f) as usize];
                Ok((pixel, 0, 1))
            } else if tag == QOI_OP_DIFF {
                let dr = ((byte >> 4) & 0x03).wrapping_sub(2);
                let dg = ((byte >> 2) & 0x03).wrapping_sub(2);
                let db = (byte & 0x03).wrapping_sub(2);

                pixel.r = pixel.r.wrapping_add(dr);
                pixel.g = pixel.g.wrapping_add(dg);
                pixel.b = pixel.b.wrapping_add(db);
                Ok((pixel, 0, 1))
            } else if tag == QOI_OP_LUMA {
                if avail < 2 {
                    return Err(truncated());
                }
                let r_b = self.r[self.pos + 1];
                let dg = (byte & 0x3f).wrapping_sub(32);

                let dr = dg.wrapping_sub(8).wrapping_add((r_b >> 4) & 0x0f);
                let db = dg.wrapping_sub(8).wrapping_add(r_b & 0x0f);

                pixel.r = pixel.r.wrapping_add(dr);
                pixel.g = pixel.g.wrapping_add(dg);
                pixel.b = pixel.b.wrapping_add(db);
                Ok((pixel, 0, 2))
            } else {
                Ok((pixel, byte & 0x3f, 1))
            }
        }
    }

    /// Reads the pixels that are left of the image and writes them to the
    /// front of `buf`, which must hold the whole image. Where reading ends
    /// early, the pixels read until then are in `buf` and counted.
    pub fn read_image(&mut self, buf: &mut [u8]) -> (res: Result<(), DecodeError>)
        requires
            old(self).wf(),
            old(self)@.info.byte_count() <= usize::MAX,
        ensures
            final(self).wf(),
            final(buf)@.len() == old(buf)@.len(),
            ({
                let v = old(self)@;
                let need = v.info.byte_count();
                if old(buf)@.len() < need {
                    &&& res matches Err(e) && e@ == (DecodeFailure::BufferSize {
                        expected: need as usize,
                        actual: old(buf)@.len() as usize,
                    })
                    &&& final(self)@ == v
                    &&& final(buf)@ == old(buf)@
                } else {
                    let out = decode_from(
                        v.cache,
                        v.prev,
                        v.input,
                        v.pos,
                        (v.info.pixel_count() - v.pixel) as nat,
                    );
                    &&& final(self)@ == (DecoderView {
                        pos: out.pos,
                        pixel: v.pixel + out.pixels.len(),
                        cache: out.cache,
                        prev: out.prev,
                        ..v
                    })
                    &&& final(buf)@ == bytes_of(out.pixels, v.info.channels) + old(buf)@.skip(
                        (out.pixels.len() * v.info.channels.count()) as int,
                    )
                    &&& match out.status {
                        Status::Done => res is Ok && final(self)@.pixel == v.info.pixel_count(),
                        Status::Truncated => res matches Err(e) && e@ == DecodeFailure::Io,
                        Status::Overrun => res matches Err(e) && e@ == DecodeFailure::OutOfBounds,
                    }
                }
            }),
    {
        let need = self.output_buffer_size();
        if buf.len() < need {
            return Err(DecodeError::BufferSize { expected: need, actual: buf.len() });
        }
        let channels = self.info.channels;
        let (size, step): (usize, usize) = match channels {
            Channels::Rgb => (need / 3, 3),
            Channels::Rgba => (need / 4, 4),
        };
        assert(size == self.info.pixel_count());
        let len = self.r.len();
        let ghost orig = buf@;
        let ghost whole = decode_from(
            self.index@,
            self.prev,
            self.r@,
            self.pos as int,
            (size - self.pixel) as nat,
        );
        let ghost mut done: Seq<Pixel> = Seq::empty();
        let mut at: usize = 0;
        proof {
            assert(done + whole.pixels =~= whole.pixels);
            assert(bytes_of(done, channels) + orig.skip(0) =~= orig);
        }

        while self.pixel < size
            invariant
                orig == old(buf)@,
                old(self).pixel <= size,
                whole == decode_from(
                    old(self).index@,
                    old(self).prev,
                    old(self).r@,
                    old(self).pos as int,
                    (size - old(self).pixel) as nat,
                ),
                need == self.info.byte_count(),
                self.r@ == old(self).r@,
                self.info == old(self).info,
                channels == self.info.channels,
                channels == Channels::Rgb ==> step == 3 && need == 3 * size,
                channels == Channels::Rgba ==> step == 4 && need == 4 * size,
                size == self.info.pixel_count(),
                len == self.r@.len(),
                buf@.len() == orig.len(),
                need <= orig.len(),
                self.pos <= len,
                self.pixel <= size,
                self.pixel == old(self).pixel + done.len(),
                channels == Channels::Rgb ==> at == 3 * done.len(),
                channels == Channels::Rgba ==> at == 4 * done.len(),
                continues(
                    whole,
                    done,
                    decode_from(
                        self.index@,
                        self.prev,
                        self.r@,
                        self.pos as int,
                        (size - self.pixel) as nat,
                    ),
                ),
                buf@ == bytes_of(done, channels) + orig.skip(at as int),
            decreases size - self.pixel,
        {
            let ghost cache = self.index@;
            let ghost prev = self.prev;
            let ghost left = (size - self.pixel) as nat;
            let ghost done0 = done;

            let (pixel, run, used) = match self.read_op() {
                Ok(next) => next,
                Err(e) => {
                    proof {
                        lemma_decode_truncated(cache, prev, self.r@, self.pos as int, left);
                        assert(done + Seq::<Pixel>::empty() =~= done);
                    }
                    return Err(e);
                },
            };
            let ghost op = parse_op(self.r@, self.pos as int).unwrap();
            if run as usize >= size - self.pixel {
                proof {
                    lemma_decode_overrun(cache, prev, self.r@, self.pos as int, left, op);
                    assert(done + Seq::<Pixel>::empty() =~= done);
                }
                return Err(DecodeError::OutOfBounds);
            }
            proof {
                lemma_decode_step(cache, prev, self.r@, self.pos as int, left, op);
            }

            let mut k: u8 = 0;
            while k < run
                invariant
                    channels == Channels::Rgb ==> step == 3 && need == 3 * size,
                    channels == Channels::Rgba ==> step == 4 && need == 4 * size,
                    buf@.len() == orig.len(),
                    need <= orig.len(),
                    k <= run,
                    done0.len() + run < size,
                    done == done0 + Seq::new(k as nat, |i: int| pixel),
                    channels == Channels::Rgb ==> at == 3 * done.len(),
                    channels == Channels::Rgba ==> at == 4 * done.len(),
                    buf@ == bytes_of(done, channels) + orig.skip(at as int),
                decreases run - k,
            {
                put_pixel(buf, at, pixel, channels, Ghost(done), Ghost(orig));
                proof {
                    assert(done.push(pixel) =~= done0 + Seq::new((k + 1) as nat, |i: int| pixel));
                    done = done.push(pixel);
                }
                at += step;
                k += 1;
            }
            self.pixel += run as usize;

            self.index[qoi_hash(pixel)] = pixel;

            put_pixel(buf, at, pixel, channels, Ghost(done), Ghost(orig));
            proof {
                assert(done.push(pixel) =~= done0 + Seq::new(op.count() as nat, |i: int| pixel));
                done = done.push(pixel);
                lemma_continues_chain(
                    whole,
                    done0,
                    decode_from(cache, prev, self.r@, self.pos as int, left),
                    Seq::new(op.count() as nat, |i: int| pixel),
                    decode_from(
                        self.index@,
                        pixel,
                        self.r@,
                        self.pos + used,
                        (left - op.count()) as nat,
                    ),
                );
            }
            at += step;
            self.prev = pixel;
            self.pixel += 1;
            self.pos += used;
        }
        proof {
            lemma_decode_done(self.index@, self.prev, self.r@, self.pos as int);
            assert(done + Seq::<Pixel>::empty() =~= done);
        }
        Ok(())
    }

    /// The color cache as it stands.
    pub fn cache(&self) -> (cache: &[Pixel; 64])
        ensures
            cache@ == self@.cache,
    {
        &self.index
    }

    /// The previous pixel as it stands.
    pub fn previous(&self) -> (prev: Pixel)
        ensures
            prev == self@.prev,
    {
        self.prev
    }

    /// The number of pixels read so far.
    pub fn pixels_read(&self) -> (n: usize)
        ensures
            n == self@.pixel,
    {
        self.pixel
    }

    /// The number of bytes that the raw pixels take.
    pub fn output_buffer_size(&self) -> (size: usize)
        requires
            self@.info.byte_count() <= usize::MAX,
        ensures
            size == self@.info.byte_count(),
    {
        let (width, height) = self.info.dimensions();
        let channels = self.info.channels.as_u8() as usize;
        proof {
            let w = width as int;
            let h = height as int;
            let c = channels as int;
            assert(w * h <= w * h * c) by (nonlinear_arith)
                requires
                    0 <= w,
                    0 <= h,
                    1 <= c,
            ;
        }
        (width as usize * height as usize) * channels
    }
}

} // verus!
