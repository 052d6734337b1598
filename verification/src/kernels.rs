//! The word-level kernels of move generation: a flood along one axis that
//! finds the legal squares, the outflank search along one axis that finds the
//! captured discs, and the spreading of a set to its neighbours. Each is
//! proved to compute what the rules say square by square.

use crate::bits::{lemma_smear_top, nonzero, smear_top, upper_bit};
use crate::position::{neighbours, Position};
use crate::squares::{Axis, NOT_FIRST_COLUMN, NOT_LAST_COLUMN};
use crate::words::{capture_word, lemma_neighbours_word, reach_word};
use vstd::prelude::*;

verus! {

/// Every square but those of the first and the last column.
pub const INNER_COLUMNS: u64 = 0x7e7e_7e7e_7e7e_7e7e;

/// All squares.
pub const ALL_SQUARES: u64 = 0xffff_ffff_ffff_ffff;

impl Axis {
    /// How many bits neighbouring squares of the axis are apart.
    pub open spec fn step(self) -> u64 {
        match self {
            Axis::Row => 1,
            Axis::Column => 8,
            Axis::Diagonal => 9,
            Axis::AntiDiagonal => 7,
        }
    }

    /// The squares with a neighbour on either side along the axis.
    pub open spec fn inner_squares(self) -> u64 {
        match self {
            Axis::Column => ALL_SQUARES,
            _ => INNER_COLUMNS,
        }
    }

    /// The squares at one, two, .. seven steps under square 63.
    pub open spec fn line_below_last(self) -> u64 {
        match self {
            Axis::Row => 0x7f00_0000_0000_0000,
            Axis::Column => 0x0080_8080_8080_8080,
            Axis::Diagonal => 0x0040_2010_0804_0201,
            Axis::AntiDiagonal => 0x0102_0408_1020_4000,
        }
    }

    /// The squares at one, two, .. seven steps over square 0.
    pub open spec fn line_above_first(self) -> u64 {
        match self {
            Axis::Row => 0x0000_0000_0000_00fe,
            Axis::Column => 0x0101_0101_0101_0100,
            Axis::Diagonal => 0x8040_2010_0804_0200,
            Axis::AntiDiagonal => 0x0002_0408_1020_4080,
        }
    }

    /// How many bits neighbouring squares of the axis are apart.
    pub fn stride(self) -> (r: u64)
        ensures
            r == self.step(),
    {
        match self {
            Axis::Row => 1,
            Axis::Column => 8,
            Axis::Diagonal => 9,
            Axis::AntiDiagonal => 7,
        }
    }

    /// The squares that can lie inside a run along the axis: those with a
    /// neighbour on either side. Where a step changes the column, these are
    /// the inner columns, so that no run goes on across the edge of the board.
    pub fn inner(self) -> (r: u64)
        ensures
            r == self.inner_squares(),
    {
        match self {
            Axis::Column => ALL_SQUARES,
            _ => INNER_COLUMNS,
        }
    }

    /// The squares at one, two, .. seven steps under square 63. Shifted down
    /// by `63 - pos` they are the squares of the line under square `pos`.
    pub fn below_last(self) -> (r: u64)
        ensures
            r == self.line_below_last(),
    {
        match self {
            Axis::Row => 0x7f00_0000_0000_0000,
            Axis::Column => 0x0080_8080_8080_8080,
            Axis::Diagonal => 0x0040_2010_0804_0201,
            Axis::AntiDiagonal => 0x0102_0408_1020_4000,
        }
    }

    /// The squares at one, two, .. seven steps over square 0. Shifted up by
    /// `pos` they are the squares of the line over square `pos`.
    pub fn above_first(self) -> (r: u64)
        ensures
            r == self.line_above_first(),
    {
        match self {
            Axis::Row => 0x0000_0000_0000_00fe,
            Axis::Column => 0x0101_0101_0101_0100,
            Axis::Diagonal => 0x8040_2010_0804_0200,
            Axis::AntiDiagonal => 0x0002_0408_1020_4080,
        }
    }
}

/// What the flood along an axis finds before the occupied squares are taken
/// out, where neighbouring squares of the axis are `shift` bits apart and
/// `mask` holds the squares inside a run.
pub open spec fn flood_word(me: u64, opp: u64, shift: u64, mask: u64) -> u64 {
    let m = opp & mask;
    let l0 = m & (me << shift);
    let r0 = m & (me >> shift);
    let l1 = l0 | (m & (l0 << shift));
    let r1 = r0 | (m & (r0 >> shift));
    let pl = m & (m << shift);
    let pr = pl >> shift;
    let twice = (shift + shift) as u64;
    let l2 = l1 | (pl & (l1 << twice));
    let r2 = r1 | (pr & (r1 >> twice));
    let l3 = l2 | (pl & (l2 << twice));
    let r3 = r2 | (pr & (r2 >> twice));
    (l3 << shift) | (r3 >> shift)
}

/// The legal squares of the two directions of `axis`: the vacant squares
/// one step beyond a run of opponent discs that starts next to a disc of the
/// mover. The runs of both directions are found at once, and the distance
/// covered doubles with each step.
pub fn flood(me: u64, opp: u64, axis: Axis) -> (r: u64)
    ensures
        r == (Position { mover: me, opponent: opp }).legal_along(axis),
{
    let shift = axis.stride();
    let m = opp & axis.inner();
    let mut flip_l = m & (me << shift);
    let mut flip_r = m & (me >> shift);
    flip_l |= m & (flip_l << shift);
    flip_r |= m & (flip_r >> shift);
    let pre_l = m & (m << shift);
    let pre_r = pre_l >> shift;
    let twice = shift + shift;
    flip_l |= pre_l & (flip_l << twice);
    flip_r |= pre_r & (flip_r >> twice);
    flip_l |= pre_l & (flip_l << twice);
    flip_r |= pre_r & (flip_r >> twice);
    let mut res = flip_l << shift;
    res |= flip_r >> shift;
    res &= !(me | opp);
    proof {
        lemma_flood(me, opp, axis);
        (Position { mover: me, opponent: opp }).lemma_legal_along(axis);
    }
    res
}

/// Along each axis the flood finds, among the vacant squares, the legal
/// squares of the axis's two directions.
pub proof fn lemma_flood(me: u64, opp: u64, axis: Axis)
    ensures
        flood_word(me, opp, axis.step(), axis.inner_squares()) & !(me | opp) == (reach_word(
            me,
            opp,
            axis.ahead(),
        ) | reach_word(me, opp, axis.back())) & !(me | opp),
{
    match axis {
        Axis::Row => {
            assert(flood_word(me, opp, 1, INNER_COLUMNS) & !(me | opp) == (reach_word(me, opp, 0)
                | reach_word(me, opp, 1)) & !(me | opp)) by (bit_vector);
        },
        Axis::Column => {
            assert(flood_word(me, opp, 8, ALL_SQUARES) & !(me | opp) == (reach_word(me, opp, 2)
                | reach_word(me, opp, 3)) & !(me | opp)) by (bit_vector);
        },
        Axis::Diagonal => {
            assert(flood_word(me, opp, 9, INNER_COLUMNS) & !(me | opp) == (reach_word(me, opp, 4)
                | reach_word(me, opp, 5)) & !(me | opp)) by (bit_vector);
        },
        Axis::AntiDiagonal => {
            assert(flood_word(me, opp, 7, INNER_COLUMNS) & !(me | opp) == (reach_word(me, opp, 6)
                | reach_word(me, opp, 7)) & !(me | opp)) by (bit_vector);
        },
    }
}

/// What the outflank search through square `pos` finds, where `om` holds the
/// opponent discs inside a run and `below` and `above` the squares of the
/// line under square 63 and over square 0.
pub open spec fn line_flips_word(me: u64, om: u64, pos: u64, below: u64, above: u64) -> u64 {
    let mask_lo = below >> ((63 - pos) as u64);
    let out_lo = smear_top(!om & mask_lo) & me;
    let flip_lo = ((((0 - out_lo) as u64) << 1u64) as u64) & mask_lo;
    let mask_hi = above << pos;
    let out_hi = mask_hi & (((om | !mask_hi) + 1) as u64) & me;
    let flip_hi = ((out_hi - if out_hi != 0 { 1u64 } else { 0u64 }) as u64) & mask_hi;
    flip_lo | flip_hi
}

/// The discs that a disc placed on square `pos` captures along `axis`, in
/// both directions: on either side of `pos` the nearest square of the line
/// that holds no opponent disc inside a run is found, and where the mover
/// holds it, the discs between it and `pos` are captured.
pub fn line_flips(me: u64, opp: u64, pos: u64, axis: Axis) -> (r: u64)
    requires
        me & opp == 0,
        pos < 64,
    ensures
        r == (Position { mover: me, opponent: opp }).captures_along(pos as int, axis),
{
    let om = opp & axis.inner();
    let mut mask = axis.below_last() >> (63 - pos);
    let mut outflank = upper_bit(!om & mask) & me;
    let mut flipped = (0u64.wrapping_sub(outflank) << 1) & mask;
    proof {
        lemma_smear_top(!om & mask);
        assert(0u64.wrapping_sub(outflank) == (0 - outflank) as u64) by (bit_vector);
    }
    mask = axis.above_first() << pos;
    let carry = (om | !mask).wrapping_add(1);
    proof {
        let a = om | !mask;
        assert(a.wrapping_add(1) == (a + 1) as u64) by (bit_vector);
        lemma_line_flips(me, opp, pos, axis);
        (Position { mover: me, opponent: opp }).lemma_captures_along(pos as int, axis);
    }
    outflank = mask & carry & me;
    flipped |= (outflank - nonzero(outflank)) & mask;
    flipped
}

/// Along each axis the outflank search finds the discs captured in the
/// axis's two directions.
pub proof fn lemma_line_flips(me: u64, opp: u64, pos: u64, axis: Axis)
    requires
        me & opp == 0,
        pos < 64,
    ensures
        line_flips_word(
            me,
            opp & axis.inner_squares(),
            pos,
            axis.line_below_last(),
            axis.line_above_first(),
        ) == capture_word(me, opp, 1u64 << pos, axis.ahead()) | capture_word(
            me,
            opp,
            1u64 << pos,
            axis.back(),
        ),
{
    let b = 1u64 << pos;
    match axis {
        Axis::Row => {
            assert(line_flips_word(
                me,
                opp & INNER_COLUMNS,
                pos,
                0x7f00_0000_0000_0000u64,
                0x0000_0000_0000_00feu64,
            ) == capture_word(me, opp, b, 0) | capture_word(me, opp, b, 1)) by (bit_vector)
                requires
                    me & opp == 0,
                    pos < 64,
                    b == 1u64 << pos,
            ;
        },
        Axis::Column => {
            assert(line_flips_word(
                me,
                opp & ALL_SQUARES,
                pos,
                0x0080_8080_8080_8080u64,
                0x0101_0101_0101_0100u64,
            ) == capture_word(me, opp, b, 2) | capture_word(me, opp, b, 3)) by (bit_vector)
                requires
                    me & opp == 0,
                    pos < 64,
                    b == 1u64 << pos,
            ;
        },
        Axis::Diagonal => {
            assert(line_flips_word(
                me,
                opp & INNER_COLUMNS,
                pos,
                0x0040_2010_0804_0201u64,
                0x8040_2010_0804_0200u64,
            ) == capture_word(me, opp, b, 4) | capture_word(me, opp, b, 5)) by (bit_vector)
                requires
                    me & opp == 0,
                    pos < 64,
                    b == 1u64 << pos,
            ;
        },
        Axis::AntiDiagonal => {
            assert(line_flips_word(
                me,
                opp & INNER_COLUMNS,
                pos,
                0x0102_0408_1020_4000u64,
                0x0002_0408_1020_4080u64,
            ) == capture_word(me, opp, b, 6) | capture_word(me, opp, b, 7)) by (bit_vector)
                requires
                    me & opp == 0,
                    pos < 64,
                    b == 1u64 << pos,
            ;
        },
    }
}

/// The squares next to a member of `side`, in any of the eight directions.
pub fn surroundings(side: u64) -> (r: u64)
    ensures
        r == neighbours(side),
{
    let mut around = (side & NOT_LAST_COLUMN) << 1;
    around |= (side & NOT_FIRST_COLUMN) >> 1;
    around |= (side & NOT_LAST_COLUMN) << 9;
    around |= (side & NOT_FIRST_COLUMN) >> 9;
    around |= (side & NOT_FIRST_COLUMN) << 7;
    around |= (side & NOT_LAST_COLUMN) >> 7;
    around |= side << 8;
    around |= side >> 8;
    proof {
        lemma_neighbours_word(side);
    }
    around
}

} // verus!
