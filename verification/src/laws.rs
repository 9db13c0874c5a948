//! What holds of the encoder and the decoder together.

use crate::decoder::{
    continues, decode_from, lemma_decode_done, lemma_decode_state, lemma_decode_step, store_from,
    Status,
};
use crate::encoder::{
    cache_from, encode_from, encode_image, encode_pixels, last_pixel, lemma_encode_end,
    lemma_encode_pixel, lemma_encode_repeat, lemma_run_at_bound, lemma_run_at_pixel,
    lemma_run_at_span, padding, run_at, run_more,
};
use crate::error::DecodeFailure;
use crate::info::{be_bytes, be_value, header_bytes, magic, parse_header, Channels, Info};
use crate::opcode::{
    holds_at, lemma_parse_bytes, lemma_run_bits, lemma_select_pixel, select_op, Op,
};
use crate::pixel::{bytes_of, empty_cache, hash_slot, pixels_of, seed_pixel, Pixel};
use vstd::prelude::*;

verus! {

/// The four bytes of a number spell that number.
pub proof fn lemma_be_round_trip(n: u32)
    ensures
        be_bytes(n).len() == 4,
        be_value(be_bytes(n)) == n,
{
}

/// A header that was written is read back as it was, whatever follows it.
pub proof fn lemma_header_round_trip(info: Info, rest: Seq<u8>)
    ensures
        header_bytes(info).len() == 14,
        parse_header(header_bytes(info) + rest) == Ok::<Info, DecodeFailure>(info),
{
    let s = header_bytes(info) + rest;
    let t = s.skip(4);
    lemma_be_round_trip(info.width);
    lemma_be_round_trip(info.height);
    assert(s.subrange(0, 4) =~= magic());
    assert(t.subrange(0, 4) =~= be_bytes(info.width));
    assert(t.subrange(4, 8) =~= be_bytes(info.height));
    assert(t[8] == info.channels.count() as u8);
    assert(t[9] == info.colorspace.tag());
}

/// The decoder's color cache holds every pixel that the encoder's holds in
/// the slot where it belongs, and the encoder's holds the previous pixel
/// unless the slot of that pixel was never written.
pub open spec fn in_step(enc: Seq<Pixel>, dec: Seq<Pixel>, prev: Pixel) -> bool {
    &&& enc.len() == 64
    &&& dec.len() == 64
    &&& forall|h: int| 0 <= h < 64 && hash_slot(#[trigger] enc[h]) == h ==> dec[h] == enc[h]
    &&& hash_slot(enc[hash_slot(prev)]) == hash_slot(prev) ==> enc[hash_slot(prev)] == prev
}

/// A stream that holds two parts in a row holds each of them.
pub(crate) proof fn lemma_holds_split(s: Seq<u8>, pos: int, a: Seq<u8>, b: Seq<u8>)
    requires
        holds_at(s, pos, a + b),
    ensures
        holds_at(s, pos, a),
        holds_at(s, pos + a.len(), b),
{
    assert forall|i: int| 0 <= i < a.len() implies s[pos + i] == #[trigger] a[i] by {
        assert((a + b)[i] == a[i]);
    }
    assert forall|i: int| 0 <= i < b.len() implies s[pos + a.len() + i] == #[trigger] b[i] by {
        assert((a + b)[a.len() + i] == b[i]);
    }
}

/// Reading the opcodes that the encoder wrote for the pixels of `ps` from `i`
/// on gives those pixels, and ends behind the opcodes.
pub(crate) proof fn lemma_round_trip_from(
    enc: Seq<Pixel>,
    dec: Seq<Pixel>,
    prev: Pixel,
    ps: Seq<Pixel>,
    i: int,
    s: Seq<u8>,
    pos: int,
)
    requires
        in_step(enc, dec, prev),
        0 <= i <= ps.len(),
        holds_at(s, pos, encode_from(enc, prev, ps, i)),
    ensures
        ({
            let out = decode_from(dec, prev, s, pos, (ps.len() - i) as nat);
            &&& out.status == Status::Done
            &&& out.pixels == ps.skip(i)
            &&& out.pos == pos + encode_from(enc, prev, ps, i).len()
        }),
    decreases ps.len() - i,
{
    let n = (ps.len() - i) as nat;
    let whole = decode_from(dec, prev, s, pos, n);
    if i == ps.len() {
        lemma_encode_end(enc, prev, ps, i);
        lemma_decode_done(dec, prev, s, pos);
        assert(ps.skip(i) =~= Seq::<Pixel>::empty());
    } else if ps[i] == prev {
        lemma_encode_repeat(enc, prev, ps, i);
        let more = run_more(ps, prev, i);
        let op = Op::Run { more: more as u8 };
        let next = i + 1 + more;
        let tail = encode_from(enc, prev, ps, next);
        lemma_holds_split(s, pos, op.bytes(), tail);
        lemma_parse_bytes(op, s, pos);
        lemma_decode_step(dec, prev, s, pos, n, op);
        let dec2 = dec.update(hash_slot(prev), prev);
        assert(in_step(enc, dec2, prev));
        lemma_round_trip_from(enc, dec2, prev, ps, next, s, pos + 1);
        let rest = decode_from(dec2, prev, s, pos + 1, (n - op.count()) as nat);
        assert(continues(whole, Seq::new(op.count() as nat, |k: int| prev), rest));
        assert(Seq::new(op.count() as nat, |k: int| prev) + ps.skip(next) =~= ps.skip(i));
    } else {
        let p = ps[i];
        lemma_encode_pixel(enc, prev, ps, i);
        let op = select_op(enc, prev, p);
        let enc2 = enc.update(hash_slot(p), p);
        let dec2 = dec.update(hash_slot(p), p);
        let tail = encode_from(enc2, p, ps, i + 1);
        lemma_select_pixel(enc, dec, prev, p);
        lemma_holds_split(s, pos, op.bytes(), tail);
        lemma_parse_bytes(op, s, pos);
        lemma_decode_step(dec, prev, s, pos, n, op);
        assert(in_step(enc2, dec2, p));
        lemma_round_trip_from(enc2, dec2, p, ps, i + 1, s, pos + op.len());
        let rest = decode_from(dec2, p, s, pos + op.len(), (n - op.count()) as nat);
        assert(continues(whole, Seq::new(op.count() as nat, |k: int| p), rest));
        assert(Seq::new(1, |k: int| p) + ps.skip(i + 1) =~= ps.skip(i));
    }
}

/// The pixels of a raw buffer, written out again, are the buffer, as long as
/// the buffer holds whole pixels only.
pub proof fn lemma_pixels_round_trip(data: Seq<u8>, channels: Channels)
    requires
        data.len() % channels.count() == 0,
    ensures
        bytes_of(pixels_of(data, channels), channels) == data,
{
    assert(bytes_of(pixels_of(data, channels), channels) =~= data);
}

/// Decoding what the encoder wrote gives the header and the raw pixels that
/// went in, byte for byte, and ends before the eight bytes that close the
/// stream.
pub proof fn lemma_round_trip(info: Info, data: Seq<u8>)
    requires
        data.len() == info.byte_count(),
    ensures
        ({
            let s = encode_image(info, data);
            let out = decode_from(empty_cache(), seed_pixel(), s, 14, info.pixel_count());
            &&& parse_header(s) == Ok::<Info, DecodeFailure>(info)
            &&& out.status == Status::Done
            &&& bytes_of(out.pixels, info.channels) == data
            &&& out.pos + 8 == s.len()
        }),
{
    let ps = pixels_of(data, info.channels);
    let body = encode_pixels(ps);
    let s = encode_image(info, data);
    let count = info.pixel_count();
    assert(ps.len() == count && data.len() % info.channels.count() == 0) by {
        let c = info.channels.count() as int;
        let n = count as int;
        assert((n * c) / c == n && (n * c) % c == 0) by (nonlinear_arith)
            requires
                c > 0,
        ;
    }
    lemma_header_round_trip(info, body + padding());
    assert(s =~= header_bytes(info) + (body + padding()));
    assert(holds_at(s, 14, body));
    assert(in_step(empty_cache(), empty_cache(), seed_pixel()));
    lemma_round_trip_from(empty_cache(), empty_cache(), seed_pixel(), ps, 0, s, 14);
    assert(ps.skip(0) =~= ps);
    lemma_pixels_round_trip(data, info.channels);
}

/// The byte is a run opcode.
pub open spec fn is_run(b: u8) -> bool {
    b & 0xc0 == 0xc0 && b != 0xfe && b != 0xff
}

/// The number of pixels that all the run opcodes of `s` stand for.
pub open spec fn run_total(s: Seq<u8>) -> int
    decreases s.len(),
{
    if s.len() == 0 {
        0
    } else {
        (s[0] & 0x3f) + 1 + run_total(s.drop_first())
    }
}

/// Where all pixels of `ps` from `i` on repeat the previous pixel, the encoder
/// writes run opcodes and nothing else: as few as hold the pixels at 62 to an
/// opcode, with lengths that add up to the number of pixels.
pub(crate) proof fn lemma_runs_from(cache: Seq<Pixel>, prev: Pixel, ps: Seq<Pixel>, i: int)
    requires
        0 <= i <= ps.len(),
        forall|j: int| i <= j < ps.len() ==> ps[j] == prev,
    ensures
        ({
            let e = encode_from(cache, prev, ps, i);
            &&& e.len() == (ps.len() - i + 61) / 62
            &&& forall|k: int| 0 <= k < e.len() ==> is_run(#[trigger] e[k])
            &&& run_total(e) == ps.len() - i
        }),
    decreases ps.len() - i,
{
    let e = encode_from(cache, prev, ps, i);
    if i == ps.len() {
        lemma_encode_end(cache, prev, ps, i);
    } else {
        lemma_encode_repeat(cache, prev, ps, i);
        lemma_run_at_span(ps, prev, i + 1, ps.len() - i - 1);
        let more = run_more(ps, prev, i);
        let next = i + 1 + more;
        let head = (Op::Run { more: more as u8 }).bytes();
        let tail = encode_from(cache, prev, ps, next);
        lemma_run_bits(more as u8);
        lemma_runs_from(cache, prev, ps, next);
        assert(e == head + tail);
        assert(e.drop_first() =~= tail);
        assert forall|k: int| 0 <= k < e.len() implies is_run(#[trigger] e[k]) by {
            if k > 0 {
                assert(e[k] == tail[k - 1]);
            }
        }
    }
}

/// Any number of pixels that all repeat the previous pixel, such as pixels at
/// the start of a stream that equal the start pixel, are written as run
/// opcodes alone: `n` pixels take `n / 62` opcodes, rounded up, and the
/// lengths of the runs add up to `n`.
pub proof fn lemma_run_encoding(cache: Seq<Pixel>, prev: Pixel, n: nat)
    ensures
        ({
            let e = encode_from(cache, prev, Seq::new(n, |i: int| prev), 0);
            &&& e.len() == (n + 61) / 62
            &&& forall|k: int| 0 <= k < e.len() ==> is_run(#[trigger] e[k])
            &&& run_total(e) == n
        }),
{
    lemma_runs_from(cache, prev, Seq::new(n, |i: int| prev), 0);
}

/// Identical pixels that differ from the previous pixel are written as the
/// opcode for the first of them and run opcodes for the others.
pub proof fn lemma_identical_pixels(cache: Seq<Pixel>, prev: Pixel, p: Pixel, n: nat)
    requires
        n >= 1,
        p != prev,
    ensures
        ({
            let e = encode_from(cache, prev, Seq::new(n, |i: int| p), 0);
            let head = select_op(cache, prev, p).bytes();
            let runs = e.skip(head.len() as int);
            &&& e == head + runs
            &&& runs.len() == (n - 1 + 61) / 62
            &&& forall|k: int| 0 <= k < runs.len() ==> is_run(#[trigger] runs[k])
            &&& run_total(runs) == n - 1
        }),
{
    let ps = Seq::new(n, |i: int| p);
    let head = select_op(cache, prev, p).bytes();
    let tail = encode_from(cache.update(hash_slot(p), p), p, ps, 1);
    lemma_encode_pixel(cache, prev, ps, 0);
    lemma_runs_from(cache.update(hash_slot(p), p), p, ps, 1);
    assert((head + tail).skip(head.len() as int) =~= tail);
}

/// The encoder's cache stays as it is over pixels that repeat the previous one.
pub(crate) proof fn lemma_cache_skip(cache: Seq<Pixel>, prev: Pixel, ps: Seq<Pixel>, a: int, m: int)
    requires
        0 <= a,
        0 <= m,
        a + m <= ps.len(),
        forall|j: int| a <= j < a + m ==> ps[j] == prev,
    ensures
        cache_from(cache, prev, ps, a) == cache_from(cache, prev, ps, a + m),
    decreases m,
{
    if m > 0 {
        lemma_cache_skip(cache, prev, ps, a + 1, m - 1);
    }
}

/// The decoder's cache takes in a pixel that stands many times in a row as it
/// takes in one.
pub(crate) proof fn lemma_store_skip(cache: Seq<Pixel>, p: Pixel, ps: Seq<Pixel>, a: int, m: int)
    requires
        0 <= a,
        1 <= m,
        a + m <= ps.len(),
        0 <= hash_slot(p) < cache.len(),
        forall|j: int| a <= j < a + m ==> ps[j] == p,
    ensures
        store_from(cache, ps, a) == store_from(cache.update(hash_slot(p), p), ps, a + m),
    decreases m,
{
    let stored = cache.update(hash_slot(p), p);
    if m > 1 {
        lemma_store_skip(stored, p, ps, a + 1, m - 1);
        assert(stored.update(hash_slot(p), p) =~= stored);
    }
}

/// Once both caches are equal and hold the previous pixel, they stay equal.
pub(crate) proof fn lemma_lockstep_kept(cache: Seq<Pixel>, prev: Pixel, ps: Seq<Pixel>, i: int)
    requires
        0 <= i <= ps.len(),
        cache.len() == 64,
        cache[hash_slot(prev)] == prev,
    ensures
        cache_from(cache, prev, ps, i) == store_from(cache, ps, i),
    decreases ps.len() - i,
{
    if i < ps.len() {
        let p = ps[i];
        let stored = cache.update(hash_slot(p), p);
        if p == prev {
            assert(stored =~= cache);
        }
        lemma_lockstep_kept(stored, p, ps, i + 1);
    }
}

/// While the encoder's cache lacks the start pixel that the decoder's holds,
/// the two become equal exactly when a pixel is written to that slot.
pub(crate) proof fn lemma_lockstep_pending(
    enc: Seq<Pixel>,
    dec: Seq<Pixel>,
    prev: Pixel,
    ps: Seq<Pixel>,
    i: int,
)
    requires
        0 <= i <= ps.len(),
        enc.len() == 64,
        dec == enc.update(hash_slot(seed_pixel()), seed_pixel()),
        enc[hash_slot(seed_pixel())] != seed_pixel(),
        hash_slot(prev) != hash_slot(seed_pixel()),
        dec[hash_slot(prev)] == prev,
    ensures
        cache_from(enc, prev, ps, i) == store_from(dec, ps, i) <==> exists|j: int|
            i <= j < ps.len() && hash_slot(#[trigger] ps[j]) == hash_slot(seed_pixel()),
    decreases ps.len() - i,
{
    let slot = hash_slot(seed_pixel());
    if i < ps.len() {
        let p = ps[i];
        let enc2 = enc.update(hash_slot(p), p);
        let dec2 = dec.update(hash_slot(p), p);
        if p == prev {
            assert(dec2 =~= dec);
            lemma_lockstep_pending(enc, dec, prev, ps, i + 1);
            if exists|j: int| i <= j < ps.len() && hash_slot(#[trigger] ps[j]) == slot {
                let j = choose|j: int| i <= j < ps.len() && hash_slot(#[trigger] ps[j]) == slot;
                assert(i + 1 <= j < ps.len() && hash_slot(ps[j]) == slot);
            }
        } else if hash_slot(p) == slot {
            assert(dec2 =~= enc2);
            lemma_lockstep_kept(enc2, p, ps, i + 1);
            assert(i <= i < ps.len() && hash_slot(ps[i]) == slot);
        } else {
            assert(dec2 =~= enc2.update(slot, seed_pixel()));
            lemma_lockstep_pending(enc2, dec2, p, ps, i + 1);
            if exists|j: int| i <= j < ps.len() && hash_slot(#[trigger] ps[j]) == slot {
                let j = choose|j: int| i <= j < ps.len() && hash_slot(#[trigger] ps[j]) == slot;
                assert(i + 1 <= j < ps.len() && hash_slot(ps[j]) == slot);
            }
        }
    } else {
        assert(enc[slot] != dec[slot]);
    }
}

/// The pixels begin with the start pixel, and behind the run of start pixels
/// at the front no pixel belongs in the slot of the start pixel. The encoder
/// then never writes to that slot, since it takes no pixel of a run into its
/// cache, while the decoder holds the start pixel there.
pub open spec fn lone_start_run(ps: Seq<Pixel>) -> bool {
    &&& ps.len() > 0
    &&& ps[0] == seed_pixel()
    &&& forall|j: int|
        run_at(ps, seed_pixel(), 0) <= j < ps.len() ==> hash_slot(#[trigger] ps[j]) != hash_slot(
            seed_pixel(),
        )
}

/// After the same pixels, the color cache of the encoder and that of the
/// decoder are equal, but for pixel sequences with a lone run of start pixels
/// at the front: there, and only there, the two differ.
pub proof fn lemma_cache_lockstep(ps: Seq<Pixel>)
    ensures
        cache_from(empty_cache(), seed_pixel(), ps, 0) == store_from(empty_cache(), ps, 0)
            <==> !lone_start_run(ps),
{
    let seed = seed_pixel();
    let slot = hash_slot(seed);
    let empty = empty_cache();
    if ps.len() == 0 {
    } else if ps[0] != seed {
        let p = ps[0];
        lemma_lockstep_kept(empty.update(hash_slot(p), p), p, ps, 1);
    } else {
        let lead = run_at(ps, seed, 0) as int;
        lemma_run_at_bound(ps, seed, 0);
        assert forall|j: int| 0 <= j < lead implies ps[j] == seed by {
            lemma_run_at_pixel(ps, seed, 0, j);
        }
        let dec = empty.update(slot, seed);
        lemma_cache_skip(empty, seed, ps, 0, lead);
        lemma_store_skip(empty, seed, ps, 0, lead);
        if lead == ps.len() {
            assert(empty[slot] != dec[slot]);
        } else {
            lemma_run_at_span(ps, seed, 0, lead);
            let p = ps[lead];
            assert(p != seed);
            let enc2 = empty.update(hash_slot(p), p);
            let dec2 = dec.update(hash_slot(p), p);
            if hash_slot(p) == slot {
                assert(dec2 =~= enc2);
                lemma_lockstep_kept(enc2, p, ps, lead + 1);
            } else {
                assert(dec2 =~= enc2.update(slot, seed));
                lemma_lockstep_pending(enc2, dec2, p, ps, lead + 1);
                if exists|j: int|
                    lead + 1 <= j < ps.len() && hash_slot(#[trigger] ps[j]) == slot {
                    let j = choose|j: int|
                        lead + 1 <= j < ps.len() && hash_slot(#[trigger] ps[j]) == slot;
                    assert(lead <= j < ps.len() && hash_slot(ps[j]) == slot);
                }
            }
        }
    }
}

/// After decoding what the encoder wrote, the decoder's previous pixel is the
/// encoder's, and its color cache holds every pixel of the image; that is the
/// encoder's cache too, but for images with a lone run of start pixels at the
/// front.
pub proof fn lemma_state_after_round_trip(info: Info, data: Seq<u8>)
    requires
        data.len() == info.byte_count(),
    ensures
        ({
            let ps = pixels_of(data, info.channels);
            let s = encode_image(info, data);
            let out = decode_from(empty_cache(), seed_pixel(), s, 14, info.pixel_count());
            &&& out.pixels == ps
            &&& out.prev == last_pixel(seed_pixel(), ps)
            &&& out.cache == store_from(empty_cache(), ps, 0)
            &&& !lone_start_run(ps) ==> out.cache == cache_from(
                empty_cache(),
                seed_pixel(),
                ps,
                0,
            )
        }),
{
    let ps = pixels_of(data, info.channels);
    let body = encode_pixels(ps);
    let s = encode_image(info, data);
    let count = info.pixel_count();
    assert(ps.len() == count) by {
        let c = info.channels.count() as int;
        let n = count as int;
        assert((n * c) / c == n) by (nonlinear_arith)
            requires
                c > 0,
        ;
    }
    lemma_header_round_trip(info, body + padding());
    assert(s =~= header_bytes(info) + (body + padding()));
    assert(holds_at(s, 14, body));
    assert(in_step(empty_cache(), empty_cache(), seed_pixel()));
    lemma_round_trip_from(empty_cache(), empty_cache(), seed_pixel(), ps, 0, s, 14);
    assert(ps.skip(0) =~= ps);
    lemma_decode_state(empty_cache(), seed_pixel(), s, 14, count);
    lemma_cache_lockstep(ps);
}

} // verus!
