use vstd::prelude::*;

use crate::game::position::Position;

verus! {

/// Packed form of the canonical solved board: reading nibbles from the most
/// significant end, the labels are 1, 2, ..., 15, 0.
const BOARD_STATE_EMPTY: u64 = 0x123456789ABCDEF0;

/// The 4-bit slot of `data` at row-major cell index `i`: slot 0 sits in the
/// most significant nibble, slot 15 in the least significant one.
pub open spec fn nib(data: u64, i: int) -> u8 {
    ((data >> ((60 - 4 * i) as u64)) & 0xF) as u8
}

/// The sixteen slots of `data`, in row-major order.
pub open spec fn cells_of(data: u64) -> Seq<u8> {
    Seq::new(16, |i: int| nib(data, i))
}

/// Cell contents of the canonical solved board: labels increase left-to-right,
/// top-to-bottom, with the free cell (label 0) in the bottom-right corner.
pub open spec fn solved_cells() -> Seq<u8> {
    Seq::new(16, |i: int| if i == 15 { 0u8 } else { (i + 1) as u8 })
}

/// Writing slot `idx` of `data` changes that slot to the written nibble and
/// leaves every other slot `j` unchanged.
proof fn lemma_set_slots(data: u64, v: u64, idx: u64, j: u64)
    by (bit_vector)
    requires
        idx < 16,
        j < 16,
        v <= 15,
    ensures
        j == idx ==> (((data & !(0xFu64 << ((60 - 4 * idx) as u64))) | (v << ((60 - 4 * idx)
            as u64))) >> ((60 - 4 * j) as u64)) & 0xF == v,
        j != idx ==> (((data & !(0xFu64 << ((60 - 4 * idx) as u64))) | (v << ((60 - 4 * idx)
            as u64))) >> ((60 - 4 * j) as u64)) & 0xF == (data >> ((60 - 4 * j) as u64)) & 0xF,
{
}

/// Masking a slot before shifting it down reads the same nibble as shifting
/// alone, and a nibble never exceeds 15.
proof fn lemma_get_slot(data: u64, idx: u64)
    by (bit_vector)
    requires
        idx < 16,
    ensures
        ((data & (0xFu64 << ((60 - 4 * idx) as u64))) >> ((60 - 4 * idx) as u64)) & 0xF == (data
            >> ((60 - 4 * idx) as u64)) & 0xF,
        (data >> ((60 - 4 * idx) as u64)) & 0xF <= 15,
{
}

/// Two boards whose sixteen slots agree are the same packed word.
proof fn lemma_slots_determine(a: u64, b: u64)
    by (bit_vector)
    requires
        (a >> 60) & 0xF == (b >> 60) & 0xF,
        (a >> 56) & 0xF == (b >> 56) & 0xF,
        (a >> 52) & 0xF == (b >> 52) & 0xF,
        (a >> 48) & 0xF == (b >> 48) & 0xF,
        (a >> 44) & 0xF == (b >> 44) & 0xF,
        (a >> 40) & 0xF == (b >> 40) & 0xF,
        (a >> 36) & 0xF == (b >> 36) & 0xF,
        (a >> 32) & 0xF == (b >> 32) & 0xF,
        (a >> 28) & 0xF == (b >> 28) & 0xF,
        (a >> 24) & 0xF == (b >> 24) & 0xF,
        (a >> 20) & 0xF == (b >> 20) & 0xF,
        (a >> 16) & 0xF == (b >> 16) & 0xF,
        (a >> 12) & 0xF == (b >> 12) & 0xF,
        (a >> 8) & 0xF == (b >> 8) & 0xF,
        (a >> 4) & 0xF == (b >> 4) & 0xF,
        (a >> 0) & 0xF == (b >> 0) & 0xF,
    ensures
        a == b,
{
}

/// A fixed-width bit-packed board: sixteen 4-bit slots, one per grid cell,
/// each holding a tile label in [0, 15] (0 denotes the free cell).
#[derive(Copy, Clone, PartialEq, Eq, Structural)]
pub struct BitBoard {
    data: u64,
}

impl View for BitBoard {
    type V = Seq<u8>;

    closed spec fn view(&self) -> Seq<u8> {
        cells_of(self.data)
    }
}

impl BitBoard {
    /// The packed word itself.
    pub closed spec fn raw(&self) -> u64 {
        self.data
    }

    /// The packed word, usable as a compact key for a visited set: equal words
    /// hold equal boards.
    pub(crate) fn packed(&self) -> (r: u64)
        ensures
            r == self.raw(),
    {
        self.data
    }

    /// The canonical solved board.
    pub fn new() -> (b: BitBoard)
        ensures
            b@ == solved_cells(),
    {
        let b = BitBoard { data: BOARD_STATE_EMPTY };
        proof {
            lemma_solved_cells_packed();
            assert(b@ =~= solved_cells());
        }
        b
    }

    /// O(1) equality against the canonical solved constant.
    pub fn is_solved(&self) -> (r: bool)
        ensures
            r <==> self@ == solved_cells(),
    {
        let r = self.data == BOARD_STATE_EMPTY;
        proof {
            lemma_solved_cells_packed();
            if r {
                assert(self@ =~= solved_cells());
            } else if self@ == solved_cells() {
                lemma_cells_eq_data_eq(self.data, BOARD_STATE_EMPTY);
            }
        }
        r
    }

    /// The label stored at `pos`.
    pub fn get(&self, pos: Position) -> (value: u8)
        requires
            pos.wf(),
        ensures
            value == self@[pos.index()],
            value <= 15,
    {
        let offset = pos.to_offset();
        let masked_data = self.data & (0xFu64 << (offset as u64));
        let value = ((masked_data >> (offset as u64)) & 0xF) as u8;
        proof {
            lemma_get_slot(self.data, pos.index() as u64);
        }
        value
    }

    /// A new board with the slot at `pos` replaced by the low 4 bits of
    /// `value`; labels above 15 are silently truncated. Every other slot is
    /// unchanged.
    pub fn set(&self, pos: Position, value: u8) -> (b: BitBoard)
        requires
            pos.wf(),
        ensures
            b@ == self@.update(pos.index(), value & 0xF),
            b@[pos.index()] == value % 16,
            forall|j: int| 0 <= j < 16 && j != pos.index() ==> b@[j] == self@[j],
    {
        let offset = pos.to_offset();
        let masked_value = (value & 0xF) as u64;
        let zeroed_data = self.data & !(0xFu64 << (offset as u64));
        let updated_data = zeroed_data | (masked_value << (offset as u64));
        let b = BitBoard { data: updated_data };
        proof {
            assert(value & 0xF <= 15 && value & 0xF == value % 16) by (bit_vector);
            assert forall|j: int| 0 <= j < 16 implies b@[j] == self@.update(
                pos.index(),
                value & 0xF,
            )[j] by {
                lemma_set_slots(self.data, masked_value, pos.index() as u64, j as u64);
            }
            assert(b@ =~= self@.update(pos.index(), value & 0xF));
        }
        b
    }

    /// A new board with the slots at `p1` and `p2` exchanged; a no-op when the
    /// two positions coincide.
    pub fn swap(&self, p1: Position, p2: Position) -> (b: BitBoard)
        requires
            p1.wf(),
            p2.wf(),
        ensures
            b@ == self@.update(p1.index(), self@[p2.index()]).update(p2.index(), self@[p1.index()]),
    {
        let v1 = self.get(p1);
        let v2 = self.get(p2);
        let b = self.set(p1, v2).set(p2, v1);
        proof {
            assert(v1 & 0xF == v1 && v2 & 0xF == v2) by (bit_vector)
                requires
                    v1 <= 15,
                    v2 <= 15,
            ;
        }
        b
    }
}

/// The nibbles of the packed solved constant, read from the most significant
/// end, are 1, 2, ..., 15, 0.
proof fn lemma_solved_raw()
    by (bit_vector)
    ensures
        (0x123456789ABCDEF0u64 >> 60) & 0xF == 1,
        (0x123456789ABCDEF0u64 >> 56) & 0xF == 2,
        (0x123456789ABCDEF0u64 >> 52) & 0xF == 3,
        (0x123456789ABCDEF0u64 >> 48) & 0xF == 4,
        (0x123456789ABCDEF0u64 >> 44) & 0xF == 5,
        (0x123456789ABCDEF0u64 >> 40) & 0xF == 6,
        (0x123456789ABCDEF0u64 >> 36) & 0xF == 7,
        (0x123456789ABCDEF0u64 >> 32) & 0xF == 8,
        (0x123456789ABCDEF0u64 >> 28) & 0xF == 9,
        (0x123456789ABCDEF0u64 >> 24) & 0xF == 10,
        (0x123456789ABCDEF0u64 >> 20) & 0xF == 11,
        (0x123456789ABCDEF0u64 >> 16) & 0xF == 12,
        (0x123456789ABCDEF0u64 >> 12) & 0xF == 13,
        (0x123456789ABCDEF0u64 >> 8) & 0xF == 14,
        (0x123456789ABCDEF0u64 >> 4) & 0xF == 15,
        (0x123456789ABCDEF0u64 >> 0) & 0xF == 0,
{
}

/// The packed solved constant unpacks to the canonical solved cells.
proof fn lemma_solved_cells_packed()
    ensures
        cells_of(BOARD_STATE_EMPTY) =~= solved_cells(),
{
    lemma_solved_raw();
    assert forall|i: int| 0 <= i < 16 implies cells_of(BOARD_STATE_EMPTY)[i] == solved_cells()[i] by {
        assert(cells_of(BOARD_STATE_EMPTY)[i] == nib(BOARD_STATE_EMPTY, i));
        assert(solved_cells()[i] == if i == 15 { 0u8 } else { (i + 1) as u8 });
        if i == 0 {
            nib_cast(BOARD_STATE_EMPTY, 0);
            assert(nib(BOARD_STATE_EMPTY, 0) == 1);
        } else if i == 1 {
            nib_cast(BOARD_STATE_EMPTY, 1);
            assert(nib(BOARD_STATE_EMPTY, 1) == 2);
        } else if i == 2 {
            nib_cast(BOARD_STATE_EMPTY, 2);
            assert(nib(BOARD_STATE_EMPTY, 2) == 3);
        } else if i == 3 {
            nib_cast(BOARD_STATE_EMPTY, 3);
            assert(nib(BOARD_STATE_EMPTY, 3) == 4);
        } else if i == 4 {
            nib_cast(BOARD_STATE_EMPTY, 4);
            assert(nib(BOARD_STATE_EMPTY, 4) == 5);
        } else if i == 5 {
            nib_cast(BOARD_STATE_EMPTY, 5);
            assert(nib(BOARD_STATE_EMPTY, 5) == 6);
        } else if i == 6 {
            nib_cast(BOARD_STATE_EMPTY, 6);
            assert(nib(BOARD_STATE_EMPTY, 6) == 7);
        } else if i == 7 {
            nib_cast(BOARD_STATE_EMPTY, 7);
            assert(nib(BOARD_STATE_EMPTY, 7) == 8);
        } else if i == 8 {
            nib_cast(BOARD_STATE_EMPTY, 8);
            assert(nib(BOARD_STATE_EMPTY, 8) == 9);
        } else if i == 9 {
            nib_cast(BOARD_STATE_EMPTY, 9);
            assert(nib(BOARD_STATE_EMPTY, 9) == 10);
        } else if i == 10 {
            nib_cast(BOARD_STATE_EMPTY, 10);
            assert(nib(BOARD_STATE_EMPTY, 10) == 11);
        } else if i == 11 {
            nib_cast(BOARD_STATE_EMPTY, 11);
            assert(nib(BOARD_STATE_EMPTY, 11) == 12);
        } else if i == 12 {
            nib_cast(BOARD_STATE_EMPTY, 12);
            assert(nib(BOARD_STATE_EMPTY, 12) == 13);
        } else if i == 13 {
            nib_cast(BOARD_STATE_EMPTY, 13);
            assert(nib(BOARD_STATE_EMPTY, 13) == 14);
        } else if i == 14 {
            nib_cast(BOARD_STATE_EMPTY, 14);
            assert(nib(BOARD_STATE_EMPTY, 14) == 15);
        } else {
            nib_cast(BOARD_STATE_EMPTY, 15);
            assert(nib(BOARD_STATE_EMPTY, 15) == 0);
        }
    }
}

/// If two packed boards unpack to the same cells, they are the same word.
proof fn lemma_cells_eq_data_eq(a: u64, b: u64)
    requires
        cells_of(a) == cells_of(b),
    ensures
        a == b,
{
    assert forall|k: int| 0 <= k < 16 implies nib(a, k) == nib(b, k) by {
        assert(cells_of(a)[k] == nib(a, k));
        assert(cells_of(b)[k] == nib(b, k));
        assert(cells_of(a)[k] == cells_of(b)[k]);
    }
    assert((a >> 60) & 0xF == (b >> 60) & 0xF) by {
        assert(nib(a, 0) == nib(b, 0));
        nib_cast(a, 0);
        nib_cast(b, 0);
    }
    assert((a >> 56) & 0xF == (b >> 56) & 0xF) by {
        assert(nib(a, 1) == nib(b, 1));
        nib_cast(a, 1);
        nib_cast(b, 1);
    }
    assert((a >> 52) & 0xF == (b >> 52) & 0xF) by {
        assert(nib(a, 2) == nib(b, 2));
        nib_cast(a, 2);
        nib_cast(b, 2);
    }
    assert((a >> 48) & 0xF == (b >> 48) & 0xF) by {
        assert(nib(a, 3) == nib(b, 3));
        nib_cast(a, 3);
        nib_cast(b, 3);
    }
    assert((a >> 44) & 0xF == (b >> 44) & 0xF) by {
        assert(nib(a, 4) == nib(b, 4));
        nib_cast(a, 4);
        nib_cast(b, 4);
    }
    assert((a >> 40) & 0xF == (b >> 40) & 0xF) by {
        assert(nib(a, 5) == nib(b, 5));
        nib_cast(a, 5);
        nib_cast(b, 5);
    }
    assert((a >> 36) & 0xF == (b >> 36) & 0xF) by {
        assert(nib(a, 6) == nib(b, 6));
        nib_cast(a, 6);
        nib_cast(b, 6);
    }
    assert((a >> 32) & 0xF == (b >> 32) & 0xF) by {
        assert(nib(a, 7) == nib(b, 7));
        nib_cast(a, 7);
        nib_cast(b, 7);
    }
    assert((a >> 28) & 0xF == (b >> 28) & 0xF) by {
        assert(nib(a, 8) == nib(b, 8));
        nib_cast(a, 8);
        nib_cast(b, 8);
    }
    assert((a >> 24) & 0xF == (b >> 24) & 0xF) by {
        assert(nib(a, 9) == nib(b, 9));
        nib_cast(a, 9);
        nib_cast(b, 9);
    }
    assert((a >> 20) & 0xF == (b >> 20) & 0xF) by {
        assert(nib(a, 10) == nib(b, 10));
        nib_cast(a, 10);
        nib_cast(b, 10);
    }
    assert((a >> 16) & 0xF == (b >> 16) & 0xF) by {
        assert(nib(a, 11) == nib(b, 11));
        nib_cast(a, 11);
        nib_cast(b, 11);
    }
    assert((a >> 12) & 0xF == (b >> 12) & 0xF) by {
        assert(nib(a, 12) == nib(b, 12));
        nib_cast(a, 12);
        nib_cast(b, 12);
    }
    assert((a >> 8) & 0xF == (b >> 8) & 0xF) by {
        assert(nib(a, 13) == nib(b, 13));
        nib_cast(a, 13);
        nib_cast(b, 13);
    }
    assert((a >> 4) & 0xF == (b >> 4) & 0xF) by {
        assert(nib(a, 14) == nib(b, 14));
        nib_cast(a, 14);
        nib_cast(b, 14);
    }
    assert((a >> 0) & 0xF == (b >> 0) & 0xF) by {
        assert(nib(a, 15) == nib(b, 15));
        nib_cast(a, 15);
        nib_cast(b, 15);
    }
    lemma_slots_determine(a, b);
}

/// A nibble read as a byte keeps its value: the slot fits in 4 bits.
proof fn nib_cast(d: u64, i: int)
    requires
        0 <= i < 16,
    ensures
        nib(d, i) as u64 == (d >> ((60 - 4 * i) as u64)) & 0xF,
{
    let o = (60 - 4 * i) as u64;
    assert((d >> o) & 0xF <= 15) by (bit_vector);
}

} // verus!
