//! The encoder: one pass over a raw pixel buffer, one opcode after another.

use crate::error::EncodeError;
use crate::info::{header_bytes, magic, Channels, Info, QOI_MAGIC};
use crate::opcode::{
    biased_delta, select_op, Op, MAX_RUN, QOI_OP_DIFF, QOI_OP_INDEX, QOI_OP_LUMA, QOI_OP_RGB,
    QOI_OP_RGBA, QOI_OP_RUN,
};
use crate::pixel::{
    empty_cache, hash_slot, pixels_of, qoi_hash, rgb_components, rgba_components, seed_pixel,
    Pixel,
};
use vstd::prelude::*;

verus! {

/// The eight bytes that end every stream.
pub const QOI_PADDING: [u8; 8] = [0, 0, 0, 0, 0, 0, 0, 1];

/// The eight bytes that end every stream.
pub open spec fn padding() -> Seq<u8> {
    seq![0u8, 0, 0, 0, 0, 0, 0, 1]
}

/// The number of pixels of `ps` from `i` on that equal `prev`, up to the first
/// one that does not.
pub open spec fn run_at(ps: Seq<Pixel>, prev: Pixel, i: int) -> nat
    decreases ps.len() - i,
{
    if 0 <= i < ps.len() && ps[i] == prev {
        1 + run_at(ps, prev, i + 1)
    } else {
        0
    }
}

/// A run ends where the pixels do.
pub proof fn lemma_run_at_bound(ps: Seq<Pixel>, prev: Pixel, i: int)
    requires
        0 <= i <= ps.len(),
    ensures
        i + run_at(ps, prev, i) <= ps.len(),
    decreases ps.len() - i,
{
    if i < ps.len() && ps[i] == prev {
        lemma_run_at_bound(ps, prev, i + 1);
    }
}

/// The pixels that a run counts equal `prev`.
pub proof fn lemma_run_at_pixel(ps: Seq<Pixel>, prev: Pixel, i: int, j: int)
    requires
        0 <= i <= j < i + run_at(ps, prev, i),
    ensures
        j < ps.len(),
        ps[j] == prev,
    decreases j - i,
{
    if i < j {
        lemma_run_at_pixel(ps, prev, i + 1, j);
    }
}

/// The number of pixels that the run opcode written at `i` stands for, less
/// one: the run goes on while the pixels equal `prev`, for 62 pixels at most.
pub open spec fn run_more(ps: Seq<Pixel>, prev: Pixel, i: int) -> nat {
    if run_at(ps, prev, i + 1) < 61 {
        run_at(ps, prev, i + 1)
    } else {
        61
    }
}

/// The opcodes for the pixels of `ps` from `i` on, for an encoder whose color
/// cache is `cache` and whose previous pixel is `prev`. Pixels that repeat the
/// previous one are gathered into runs; every other pixel gets the opcode that
/// `select_op` picks, enters the cache and becomes the previous pixel.
#[verifier::opaque]
pub open spec fn encode_from(cache: Seq<Pixel>, prev: Pixel, ps: Seq<Pixel>, i: int) -> Seq<u8>
    decreases ps.len() - i,
{
    if i < 0 || i >= ps.len() {
        Seq::empty()
    } else if ps[i] == prev {
        let more = run_more(ps, prev, i);
        proof {
            lemma_run_at_bound(ps, prev, i + 1);
        }
        Op::Run { more: more as u8 }.bytes() + encode_from(cache, prev, ps, i + 1 + more)
    } else {
        let p = ps[i];
        select_op(cache, prev, p).bytes() + encode_from(
            cache.update(hash_slot(p), p),
            p,
            ps,
            i + 1,
        )
    }
}

/// The color cache of the encoder after the pixels of `ps` from `i` on: every
/// pixel that differs from the one before it has entered its slot.
pub open spec fn cache_from(cache: Seq<Pixel>, prev: Pixel, ps: Seq<Pixel>, i: int) -> Seq<Pixel>
    decreases ps.len() - i,
{
    if i < 0 || i >= ps.len() {
        cache
    } else if ps[i] == prev {
        cache_from(cache, prev, ps, i + 1)
    } else {
        cache_from(cache.update(hash_slot(ps[i]), ps[i]), ps[i], ps, i + 1)
    }
}

/// The previous pixel after the pixels of `ps`.
pub open spec fn last_pixel(prev: Pixel, ps: Seq<Pixel>) -> Pixel {
    if ps.len() == 0 {
        prev
    } else {
        ps.last()
    }
}

/// The opcode bytes of a whole pixel sequence at the start of a stream.
pub open spec fn encode_pixels(ps: Seq<Pixel>) -> Seq<u8> {
    encode_from(empty_cache(), seed_pixel(), ps, 0)
}

/// The stream for the image that `info` describes and `data` holds.
pub open spec fn encode_image(info: Info, data: Seq<u8>) -> Seq<u8> {
    header_bytes(info) + encode_pixels(pixels_of(data, info.channels)) + padding()
}

/// A run over pixels that all equal `prev` is as long as they are many, and
/// goes on from there.
pub proof fn lemma_run_at_span(ps: Seq<Pixel>, prev: Pixel, a: int, m: int)
    requires
        0 <= a,
        0 <= m,
        a + m <= ps.len(),
        forall|j: int| a <= j < a + m ==> ps[j] == prev,
    ensures
        run_at(ps, prev, a) == m + run_at(ps, prev, a + m),
    decreases m,
{
    if m > 0 {
        lemma_run_at_span(ps, prev, a + 1, m - 1);
    }
}

/// Where `run` pixels from `start` on equal `prev` and the run ends there (at
/// 62 pixels, at the last pixel, or before a pixel that differs), the encoder
/// writes one run opcode for them.
pub(crate) proof fn lemma_encode_run(cache: Seq<Pixel>, prev: Pixel, ps: Seq<Pixel>, start: int, run: int)
    requires
        0 <= start,
        1 <= run <= 62,
        start + run <= ps.len(),
        forall|j: int| start <= j < start + run ==> ps[j] == prev,
        run == 62 || start + run == ps.len() || ps[start + run] != prev,
    ensures
        encode_from(cache, prev, ps, start) == seq![QOI_OP_RUN | ((run - 1) as u8)] + encode_from(
            cache,
            prev,
            ps,
            start + run,
        ),
{
    reveal(encode_from);
    lemma_run_at_span(ps, prev, start + 1, run - 1);
    assert(run_more(ps, prev, start) == run - 1);
}

/// For a pixel that differs from the previous one the encoder writes the
/// opcode that `select_op` picks, and goes on with the pixel in the cache.
pub proof fn lemma_encode_pixel(cache: Seq<Pixel>, prev: Pixel, ps: Seq<Pixel>, i: int)
    requires
        0 <= i < ps.len(),
        ps[i] != prev,
    ensures
        encode_from(cache, prev, ps, i) == select_op(cache, prev, ps[i]).bytes() + encode_from(
            cache.update(hash_slot(ps[i]), ps[i]),
            ps[i],
            ps,
            i + 1,
        ),
{
    reveal(encode_from);
}

/// For a pixel that repeats the previous one the encoder writes a run, and
/// goes on behind the pixels of the run.
pub proof fn lemma_encode_repeat(cache: Seq<Pixel>, prev: Pixel, ps: Seq<Pixel>, i: int)
    requires
        0 <= i < ps.len(),
        ps[i] == prev,
    ensures
        run_more(ps, prev, i) < 62,
        i + 1 + run_more(ps, prev, i) <= ps.len(),
        forall|j: int| i <= j < i + 1 + run_more(ps, prev, i) ==> ps[j] == prev,
        encode_from(cache, prev, ps, i) == (Op::Run {
            more: run_more(ps, prev, i) as u8,
        }).bytes() + encode_from(cache, prev, ps, i + 1 + run_more(ps, prev, i)),
{
    reveal(encode_from);
    lemma_run_at_bound(ps, prev, i + 1);
    assert forall|j: int| i <= j < i + 1 + run_more(ps, prev, i) implies ps[j] == prev by {
        lemma_run_at_pixel(ps, prev, i, j);
    }
}

/// After the last pixel nothing is written.
pub proof fn lemma_encode_end(cache: Seq<Pixel>, prev: Pixel, ps: Seq<Pixel>, i: int)
    requires
        i >= ps.len(),
    ensures
        encode_from(cache, prev, ps, i) == Seq::<u8>::empty(),
{
    reveal(encode_from);
}

/// The pixel with number `i` of the raw buffer `data`.
fn read_pixel(data: &[u8], channels: Channels, i: usize) -> (pixel: Pixel)
    requires
        i < pixels_of(data@, channels).len(),
    ensures
        pixel == pixels_of(data@, channels)[i as int],
{
    let len = data.len();
    match channels {
        Channels::Rgb => {
            assert(i < len / 3);
            let base: usize = 3 * i;
            Pixel { r: data[base], g: data[base + 1], b: data[base + 2], a: 255 }
        },
        Channels::Rgba => {
            assert(i < len / 4);
            let base: usize = 4 * i;
            Pixel { r: data[base], g: data[base + 1], b: data[base + 2], a: data[base + 3] }
        },
    }
}

/// Appending in two steps is appending the whole.
pub(crate) proof fn lemma_concat_assoc(a: Seq<u8>, b: Seq<u8>, c: Seq<u8>)
    ensures
        (a + b) + c == a + (b + c),
{
    assert((a + b) + c =~= a + (b + c));
}

/// What the encoder knows while it works.
pub struct EncoderView {
    /// The bytes written so far.
    pub out: Seq<u8>,
    /// The header of the image.
    pub info: Info,
    /// The color cache, 64 slots.
    pub cache: Seq<Pixel>,
    /// The previous pixel.
    pub prev: Pixel,
}

/// Writes one image as a stream into a byte buffer.
#[derive(Debug)]
pub struct Encoder {
    w: Vec<u8>,
    info: Info,
    index: [Pixel; 64],
    prev: Pixel,
    run: u8,
}

impl View for Encoder {
    type V = EncoderView;

    closed spec fn view(&self) -> EncoderView {
        EncoderView { out: self.w@, info: self.info, cache: self.index@, prev: self.prev }
    }
}

impl Encoder {
    /// No run is pending.
    pub closed spec fn wf(&self) -> bool {
        self.run == 0
    }

    /// An encoder that writes after the bytes of `w`. The header goes out at
    /// once. An image without pixels is refused.
    pub fn new(w: Vec<u8>, info: Info) -> (res: Result<Self, EncodeError>)
        ensures
            match res {
                Ok(enc) => {
                    &&& info.width != 0 && info.height != 0
                    &&& enc.wf()
                    &&& enc@ == (EncoderView {
                        out: w@ + header_bytes(info),
                        info,
                        cache: empty_cache(),
                        prev: seed_pixel(),
                    })
                },
                Err(EncodeError::ZeroWidth) => info.width == 0,
                Err(EncodeError::ZeroHeight) => info.width != 0 && info.height == 0,
                Err(EncodeError::IoError(_)) => false,
            },
    {
        if info.width == 0 {
            return Err(EncodeError::ZeroWidth);
        }
        if info.height == 0 {
            return Err(EncodeError::ZeroHeight);
        }
        let enc = Encoder {
            w,
            info,
            index: [Pixel { r: 0, g: 0, b: 0, a: 0 };64],
            prev: Pixel { r: 0, g: 0, b: 0, a: 255 },
            run: 0,
        };
        assert(enc.index@ =~= empty_cache());
        enc.write_header()
    }

    /// Writes the magic bytes and the description of the image.
    pub fn write_header(self) -> (res: Result<Self, EncodeError>)
        requires
            self.wf(),
        ensures
            res matches Ok(enc) && enc.wf() && enc@ == (EncoderView {
                out: self@.out + header_bytes(self@.info),
                ..self@
            }),
    {
        let mut enc = self;
        enc.w.extend_from_slice(QOI_MAGIC.as_slice());
        assert(QOI_MAGIC@ =~= magic());
        match enc.info.encode(&mut enc.w) {
            Ok(()) => {},
            Err(e) => { return Err(e); },
        }
        assert(enc.w@ =~= self.w@ + header_bytes(self.info));
        Ok(enc)
    }

    /// Writes the opcode for a pixel that differs from the previous one, and
    /// takes the pixel into the color cache and as the previous pixel.
    fn write_pixel(&mut self, pixel: Pixel)
        requires
            pixel != old(self).prev,
        ensures
            final(self).w@ == old(self).w@ + select_op(
                old(self).index@,
                old(self).prev,
                pixel,
            ).bytes(),
            final(self).index@ == old(self).index@.update(hash_slot(pixel), pixel),
            final(self).prev == pixel,
            final(self).info == old(self).info,
            final(self).run == old(self).run,
    {
        let ghost op = select_op(self.index@, self.prev, pixel);
        let ghost before = self.w@;
        let hash = qoi_hash(pixel);

        if self.index[hash] == pixel {
            self.w.push(QOI_OP_INDEX | hash as u8);
            assert(op == Op::Index { slot: hash as u8 });
            assert(self.w@ =~= before + op.bytes());
            assert(self.index@ =~= old(self).index@.update(hash_slot(pixel), pixel));
        } else {
            self.index[hash] = pixel;

            if pixel.a == self.prev.a {
                let dr = pixel.r.wrapping_sub(self.prev.r).wrapping_add(2);
                let dg = pixel.g.wrapping_sub(self.prev.g).wrapping_add(2);
                let db = pixel.b.wrapping_sub(self.prev.b).wrapping_add(2);

                if dr < 4 && dg < 4 && db < 4 {
                    let offsets = dr << 4 | dg << 2 | db;
                    self.w.push(QOI_OP_DIFF | offsets);
                    assert(op == Op::Diff { dr, dg, db });
                    assert(self.w@ =~= before + op.bytes());
                } else {
                    let dg_r = dr.wrapping_sub(dg).wrapping_add(8);
                    let dg_b = db.wrapping_sub(dg).wrapping_add(8);
                    let dg = dg.wrapping_add(30);
                    assert(dg == biased_delta(pixel.g, self.prev.g, 32));

                    if dg_r < 16 && dg < 64 && dg_b < 16 {
                        self.w.push(QOI_OP_LUMA | dg);
                        self.w.push(dg_r << 4 | dg_b);
                        assert(op == Op::Luma { dg, dr_dg: dg_r, db_dg: dg_b });
                        assert(self.w@ =~= before + op.bytes());
                    } else {
                        self.w.push(QOI_OP_RGB);
                        self.w.extend_from_slice(rgb_components(pixel).as_slice());
                        assert(op == Op::Rgb { r: pixel.r, g: pixel.g, b: pixel.b });
                        assert(self.w@ =~= before + op.bytes());
                    }
                }
            } else {
                self.w.push(QOI_OP_RGBA);
                self.w.extend_from_slice(rgba_components(pixel).as_slice());
                assert(op == Op::Rgba { r: pixel.r, g: pixel.g, b: pixel.b, a: pixel.a });
                assert(self.w@ =~= before + op.bytes());
            }
        }

        self.prev = pixel;
    }

    /// Encodes the pixels of `data` after what was written before, and ends
    /// the stream. Bytes at the end of `data` that do not make a whole pixel
    /// are left out.
    pub fn write_image_data(&mut self, data: &[u8]) -> (res: Result<(), EncodeError>)
        requires
            old(self).wf(),
        ensures
            res is Ok,
            final(self).wf(),
            final(self)@ == ({
                let before = old(self)@;
                let ps = pixels_of(data@, before.info.channels);
                EncoderView {
                    out: before.out + encode_from(before.cache, before.prev, ps, 0) + padding(),
                    info: before.info,
                    cache: cache_from(before.cache, before.prev, ps, 0),
                    prev: last_pixel(before.prev, ps),
                }
            }),
    {
        let len = data.len();
        let n: usize = match self.info.channels {
            Channels::Rgb => len / 3,
            Channels::Rgba => len / 4,
        };
        let ghost ps = pixels_of(data@, self.info.channels);
        let ghost cache0 = self.index@;
        let ghost prev0 = self.prev;
        let ghost out0 = self.w@;
        let ghost total = out0 + encode_from(cache0, prev0, ps, 0);
        let mut i: usize = 0;
        while i < n
            invariant
                ps == pixels_of(data@, self.info.channels),
                n == ps.len(),
                self.info == old(self).info,
                len == data@.len(),
                self.info.channels == Channels::Rgb ==> n == len / 3,
                self.info.channels == Channels::Rgba ==> n == len / 4,
                i <= n,
                self.run < 62,
                self.run <= i,
                i == n ==> self.run == 0,
                forall|j: int| i - self.run <= j < i ==> ps[j] == self.prev,
                self.prev == last_pixel(prev0, ps.take(i as int)),
                total == self.w@ + encode_from(self.index@, self.prev, ps, i - self.run),
                cache_from(cache0, prev0, ps, 0) == cache_from(self.index@, self.prev, ps, i as int),
            decreases n - i,
        {
            let pixel = read_pixel(data, self.info.channels, i);
            let ghost start = i - self.run;
            let ghost cache = self.index@;
            let ghost prev = self.prev;
            let ghost out = self.w@;

            if pixel == self.prev {
                self.run += 1;
                if self.run == MAX_RUN || i + 1 == n {
                    self.w.push(QOI_OP_RUN | (self.run - 1));
                    proof {
                        lemma_encode_run(cache, prev, ps, start, self.run as int);
                        assert(self.w@ =~= out + seq![QOI_OP_RUN | ((self.run - 1) as u8)]);
                        lemma_concat_assoc(
                            out,
                            seq![QOI_OP_RUN | ((self.run - 1) as u8)],
                            encode_from(cache, prev, ps, i + 1),
                        );
                    }
                    self.run = 0;
                }
            } else {
                if self.run > 0 {
                    self.w.push(QOI_OP_RUN | (self.run - 1));
                    proof {
                        lemma_encode_run(cache, prev, ps, start, self.run as int);
                        assert(self.w@ =~= out + seq![QOI_OP_RUN | ((self.run - 1) as u8)]);
                        lemma_concat_assoc(
                            out,
                            seq![QOI_OP_RUN | ((self.run - 1) as u8)],
                            encode_from(cache, prev, ps, i as int),
                        );
                    }
                    self.run = 0;
                }
                let ghost flushed = self.w@;
                self.write_pixel(pixel);
                proof {
                    lemma_encode_pixel(cache, prev, ps, i as int);
                    lemma_concat_assoc(
                        flushed,
                        select_op(cache, prev, pixel).bytes(),
                        encode_from(self.index@, pixel, ps, i + 1),
                    );
                }
            }
            proof {
                assert(ps.take(i + 1).last() == ps[i as int]);
            }
            i += 1;
        }

        self.w.extend_from_slice(QOI_PADDING.as_slice());
        proof {
            assert(QOI_PADDING@ =~= padding());
            assert(ps.take(n as int) =~= ps);
            lemma_encode_end(self.index@, self.prev, ps, n as int);
            assert(self.w@ =~= total + padding());
        }
        Ok(())
    }

    /// The color cache as it stands.
    pub fn cache(&self) -> (cache: &[Pixel; 64])
        ensures
            cache@ == self@.cache,
    {
        &self.index
    }

    /// The previous pixel as it stands.
    pub fn previous(&self) -> (prev: Pixel)
        ensures
            prev == self@.prev,
    {
        self.prev
    }

    /// The bytes written so far.
    pub fn get_ref(&self) -> (w: &Vec<u8>)
        ensures
            w@ == self@.out,
    {
        &self.w
    }

    /// Gives the byte buffer back.
    pub fn into_inner(self) -> (w: Vec<u8>)
        ensures
            w@ == self@.out,
    {
        self.w
    }
}

} // verus!
