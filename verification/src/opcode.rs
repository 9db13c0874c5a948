//! The opcode grammar: what each opcode looks like in a stream, which pixel it
//! stands for, and which opcode the encoder picks for a pixel.

use crate::pixel::{hash_slot, Pixel};
use vstd::prelude::*;

verus! {

/// The two top bits of an index opcode: `00xxxxxx`.
pub const QOI_OP_INDEX: u8 = 0x00;

/// The two top bits of a difference opcode: `01xxxxxx`.
pub const QOI_OP_DIFF: u8 = 0x40;

/// The two top bits of a luma opcode: `10xxxxxx`.
pub const QOI_OP_LUMA: u8 = 0x80;

/// The two top bits of a run opcode: `11xxxxxx`.
pub const QOI_OP_RUN: u8 = 0xc0;

/// The byte that begins three raw color channels: `11111110`.
pub const QOI_OP_RGB: u8 = 0xfe;

/// The byte that begins four raw channels: `11111111`.
pub const QOI_OP_RGBA: u8 = 0xff;

/// The longest run that one opcode can hold.
pub const MAX_RUN: u8 = 62;

/// One opcode, with the fields as they stand in its bytes.
pub enum Op {
    /// The pixel in a slot of the color cache.
    Index { slot: u8 },
    /// Small differences to the previous pixel, each stored with 2 added.
    Diff { dr: u8, dg: u8, db: u8 },
    /// A green difference stored with 32 added, and the red and blue
    /// differences relative to it, each stored with 8 added.
    Luma { dg: u8, dr_dg: u8, db_dg: u8 },
    /// The previous pixel again, once and `more` times more.
    Run { more: u8 },
    /// New color channels; alpha stays.
    Rgb { r: u8, g: u8, b: u8 },
    /// A whole new pixel.
    Rgba { r: u8, g: u8, b: u8, a: u8 },
}

impl Op {
    /// Every field fits the bits that the grammar gives it.
    pub open spec fn wf(self) -> bool {
        match self {
            Op::Index { slot } => slot < 64,
            Op::Diff { dr, dg, db } => dr < 4 && dg < 4 && db < 4,
            Op::Luma { dg, dr_dg, db_dg } => dg < 64 && dr_dg < 16 && db_dg < 16,
            Op::Run { more } => more < 62,
            Op::Rgb { .. } => true,
            Op::Rgba { .. } => true,
        }
    }

    /// The bytes of the opcode in a stream.
    pub open spec fn bytes(self) -> Seq<u8> {
        match self {
            Op::Index { slot } => seq![QOI_OP_INDEX | slot],
            Op::Diff { dr, dg, db } => seq![QOI_OP_DIFF | (dr << 4 | dg << 2 | db)],
            Op::Luma { dg, dr_dg, db_dg } => seq![QOI_OP_LUMA | dg, dr_dg << 4 | db_dg],
            Op::Run { more } => seq![QOI_OP_RUN | more],
            Op::Rgb { r, g, b } => seq![QOI_OP_RGB, r, g, b],
            Op::Rgba { r, g, b, a } => seq![QOI_OP_RGBA, r, g, b, a],
        }
    }

    /// The number of bytes of the opcode in a stream.
    pub open spec fn len(self) -> int {
        match self {
            Op::Index { .. } => 1,
            Op::Diff { .. } => 1,
            Op::Luma { .. } => 2,
            Op::Run { .. } => 1,
            Op::Rgb { .. } => 4,
            Op::Rgba { .. } => 5,
        }
    }

    /// The number of pixels that the opcode stands for.
    pub open spec fn count(self) -> int {
        match self {
            Op::Run { more } => more + 1,
            _ => 1,
        }
    }

    /// The pixel that the opcode stands for, given the color cache and the
    /// previous pixel. Differences are added modulo 256.
    pub open spec fn pixel(self, cache: Seq<Pixel>, prev: Pixel) -> Pixel {
        match self {
            Op::Index { slot } => cache[slot as int],
            Op::Diff { dr, dg, db } => Pixel {
                r: prev.r.wrapping_add(dr.wrapping_sub(2)),
                g: prev.g.wrapping_add(dg.wrapping_sub(2)),
                b: prev.b.wrapping_add(db.wrapping_sub(2)),
                a: prev.a,
            },
            Op::Luma { dg, dr_dg, db_dg } => {
                let vg = dg.wrapping_sub(32);
                Pixel {
                    r: prev.r.wrapping_add(vg.wrapping_sub(8).wrapping_add(dr_dg)),
                    g: prev.g.wrapping_add(vg),
                    b: prev.b.wrapping_add(vg.wrapping_sub(8).wrapping_add(db_dg)),
                    a: prev.a,
                }
            },
            Op::Run { .. } => prev,
            Op::Rgb { r, g, b } => Pixel { r, g, b, a: prev.a },
            Op::Rgba { r, g, b, a } => Pixel { r, g, b, a },
        }
    }
}

/// The opcode that starts at `pos` in `s`, or `None` where the bytes of `s`
/// end before the opcode does.
pub open spec fn parse_op(s: Seq<u8>, pos: int) -> Option<Op> {
    if pos >= s.len() {
        None
    } else {
        let b = s[pos];
        if b == QOI_OP_RGBA {
            if pos + 4 < s.len() {
                Some(Op::Rgba { r: s[pos + 1], g: s[pos + 2], b: s[pos + 3], a: s[pos + 4] })
            } else {
                None
            }
        } else if b == QOI_OP_RGB {
            if pos + 3 < s.len() {
                Some(Op::Rgb { r: s[pos + 1], g: s[pos + 2], b: s[pos + 3] })
            } else {
                None
            }
        } else if b & 0xc0 == QOI_OP_INDEX {
            Some(Op::Index { slot: b & 0x3f })
        } else if b & 0xc0 == QOI_OP_DIFF {
            Some(Op::Diff { dr: (b >> 4) & 0x03, dg: (b >> 2) & 0x03, db: b & 0x03 })
        } else if b & 0xc0 == QOI_OP_LUMA {
            if pos + 1 < s.len() {
                let c = s[pos + 1];
                Some(Op::Luma { dg: b & 0x3f, dr_dg: (c >> 4) & 0x0f, db_dg: c & 0x0f })
            } else {
                None
            }
        } else {
            Some(Op::Run { more: b & 0x3f })
        }
    }
}

/// The difference from `prev` to `cur` modulo 256, stored with `bias` added.
pub open spec fn biased_delta(cur: u8, prev: u8, bias: u8) -> u8 {
    cur.wrapping_sub(prev).wrapping_add(bias)
}

/// The opcode that the encoder writes for a pixel `p` that differs from the
/// previous pixel: the shortest that the color cache and the differences to
/// the previous pixel allow.
pub open spec fn select_op(cache: Seq<Pixel>, prev: Pixel, p: Pixel) -> Op {
    let dr = biased_delta(p.r, prev.r, 2);
    let dg = biased_delta(p.g, prev.g, 2);
    let db = biased_delta(p.b, prev.b, 2);
    let dr_dg = dr.wrapping_sub(dg).wrapping_add(8);
    let db_dg = db.wrapping_sub(dg).wrapping_add(8);
    let luma_dg = biased_delta(p.g, prev.g, 32);
    if cache[hash_slot(p)] == p {
        Op::Index { slot: hash_slot(p) as u8 }
    } else if p.a != prev.a {
        Op::Rgba { r: p.r, g: p.g, b: p.b, a: p.a }
    } else if dr < 4 && dg < 4 && db < 4 {
        Op::Diff { dr, dg, db }
    } else if dr_dg < 16 && luma_dg < 64 && db_dg < 16 {
        Op::Luma { dg: luma_dg, dr_dg, db_dg }
    } else {
        Op::Rgb { r: p.r, g: p.g, b: p.b }
    }
}

/// `s` holds the bytes `part` from `pos` on.
pub open spec fn holds_at(s: Seq<u8>, pos: int, part: Seq<u8>) -> bool {
    &&& 0 <= pos
    &&& pos + part.len() <= s.len()
    &&& forall|i: int| 0 <= i < part.len() ==> s[pos + i] == #[trigger] part[i]
}

proof fn lemma_index_bits(slot: u8)
    by (bit_vector)
    requires
        slot < 64,
    ensures
        (0x00u8 | slot) != 0xff,
        (0x00u8 | slot) != 0xfe,
        (0x00u8 | slot) & 0xc0 == 0x00,
        (0x00u8 | slot) & 0x3f == slot,
{
}

proof fn lemma_diff_bits(dr: u8, dg: u8, db: u8)
    by (bit_vector)
    requires
        dr < 4,
        dg < 4,
        db < 4,
    ensures
        (0x40u8 | (dr << 4 | dg << 2 | db)) != 0xff,
        (0x40u8 | (dr << 4 | dg << 2 | db)) != 0xfe,
        (0x40u8 | (dr << 4 | dg << 2 | db)) & 0xc0 == 0x40,
        ((0x40u8 | (dr << 4 | dg << 2 | db)) >> 4) & 0x03 == dr,
        ((0x40u8 | (dr << 4 | dg << 2 | db)) >> 2) & 0x03 == dg,
        (0x40u8 | (dr << 4 | dg << 2 | db)) & 0x03 == db,
{
}

proof fn lemma_luma_bits(dg: u8, dr_dg: u8, db_dg: u8)
    by (bit_vector)
    requires
        dg < 64,
        dr_dg < 16,
        db_dg < 16,
    ensures
        (0x80u8 | dg) != 0xff,
        (0x80u8 | dg) != 0xfe,
        (0x80u8 | dg) & 0xc0 == 0x80,
        (0x80u8 | dg) & 0x3f == dg,
        ((dr_dg << 4 | db_dg) >> 4) & 0x0f == dr_dg,
        (dr_dg << 4 | db_dg) & 0x0f == db_dg,
{
}

/// The byte of a run opcode is told apart from every other opcode, and holds
/// the length of the run, less one, in its low six bits.
pub proof fn lemma_run_bits(low: u8)
    by (bit_vector)
    requires
        low < 62,
    ensures
        (0xc0u8 | low) != 0xff,
        (0xc0u8 | low) != 0xfe,
        (0xc0u8 | low) & 0xc0 == 0xc0,
        (0xc0u8 | low) & 0x3f == low,
{
}

/// The fields that `parse_op` takes from a byte fit their bits, and a byte that
/// is no other opcode is a run of at most 62.
pub proof fn lemma_field_bits(b: u8)
    by (bit_vector)
    ensures
        b & 0x3f < 64,
        (b >> 4) & 0x03 < 4,
        (b >> 2) & 0x03 < 4,
        b & 0x03 < 4,
        (b >> 4) & 0x0f < 16,
        b & 0x0f < 16,
        b & 0xc0 == 0x00 || b & 0xc0 == 0x40 || b & 0xc0 == 0x80 || b & 0xc0 == 0xc0,
        b != 0xff && b != 0xfe && b & 0xc0 == 0xc0 ==> b & 0x3f < 62,
{
}

/// The grammar is unambiguous: where a stream holds the bytes of a well-formed
/// opcode, that opcode is what is read back.
pub proof fn lemma_parse_bytes(op: Op, s: Seq<u8>, pos: int)
    requires
        op.wf(),
        holds_at(s, pos, op.bytes()),
    ensures
        parse_op(s, pos) == Some(op),
        op.bytes().len() == op.len(),
{
    let bytes = op.bytes();
    assert(s[pos + 0] == bytes[0]);
    match op {
        Op::Index { slot } => {
            lemma_index_bits(slot);
        },
        Op::Diff { dr, dg, db } => {
            lemma_diff_bits(dr, dg, db);
        },
        Op::Luma { dg, dr_dg, db_dg } => {
            lemma_luma_bits(dg, dr_dg, db_dg);
            assert(s[pos + 1] == bytes[1]);
        },
        Op::Run { more } => {
            lemma_run_bits(more);
        },
        Op::Rgb { r, g, b } => {
            assert(s[pos + 1] == bytes[1]);
            assert(s[pos + 2] == bytes[2]);
            assert(s[pos + 3] == bytes[3]);
        },
        Op::Rgba { r, g, b, a } => {
            assert(s[pos + 1] == bytes[1]);
            assert(s[pos + 2] == bytes[2]);
            assert(s[pos + 3] == bytes[3]);
            assert(s[pos + 4] == bytes[4]);
        },
    }
}

/// Adding back a difference that was stored with a bias gives the channel.
proof fn lemma_delta_inverse(cur: u8, prev: u8, bias: u8)
    ensures
        prev.wrapping_add(biased_delta(cur, prev, bias).wrapping_sub(bias)) == cur,
{
}

/// Adding back a difference that was stored relative to the green one gives
/// the channel.
proof fn lemma_luma_inverse(cur: u8, prev: u8, cur_g: u8, prev_g: u8)
    ensures
        ({
            let d = biased_delta(cur, prev, 2);
            let dg = biased_delta(cur_g, prev_g, 2);
            let vg = biased_delta(cur_g, prev_g, 32).wrapping_sub(32);
            prev.wrapping_add(vg.wrapping_sub(8).wrapping_add(d.wrapping_sub(dg).wrapping_add(8)))
                == cur
        }),
{
    let d = biased_delta(cur, prev, 2);
    let dg = biased_delta(cur_g, prev_g, 2);
    let vg = biased_delta(cur_g, prev_g, 32).wrapping_sub(32);
    let rel = d.wrapping_sub(dg).wrapping_add(8);
    assert(vg == cur_g.wrapping_sub(prev_g));
    assert(dg == vg.wrapping_add(2));
    assert(d == cur.wrapping_sub(prev).wrapping_add(2));
    assert(vg.wrapping_sub(8).wrapping_add(rel) == cur.wrapping_sub(prev));
}

/// The opcode that the encoder picks for `p` is well formed and stands for
/// `p`, also against another color cache, as long as that cache holds `p` in
/// its slot whenever the encoder's does.
pub proof fn lemma_select_pixel(cache: Seq<Pixel>, other: Seq<Pixel>, prev: Pixel, p: Pixel)
    requires
        cache.len() == 64,
        other.len() == 64,
        cache[hash_slot(p)] == p ==> other[hash_slot(p)] == p,
    ensures
        select_op(cache, prev, p).wf(),
        select_op(cache, prev, p).pixel(other, prev) == p,
        select_op(cache, prev, p).count() == 1,
{
    let op = select_op(cache, prev, p);
    match op {
        Op::Index { slot } => {
            assert(slot == hash_slot(p));
        },
        Op::Diff { dr, dg, db } => {
            lemma_delta_inverse(p.r, prev.r, 2);
            lemma_delta_inverse(p.g, prev.g, 2);
            lemma_delta_inverse(p.b, prev.b, 2);
        },
        Op::Luma { dg, dr_dg, db_dg } => {
            lemma_delta_inverse(p.g, prev.g, 32);
            lemma_luma_inverse(p.r, prev.r, p.g, prev.g);
            lemma_luma_inverse(p.b, prev.b, p.g, prev.g);
        },
        Op::Run { more } => {},
        Op::Rgb { r, g, b } => {},
        Op::Rgba { r, g, b, a } => {},
    }
}

} // verus!
