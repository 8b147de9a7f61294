//! Cell coordinates: the integer addresses of the grid's cells, the packing
//! of an address into one map key, and the inclusive rectangles that a pair
//! of corner addresses spans.

use vstd::arithmetic::div_mod::{
    lemma_div_is_ordered, lemma_div_pos_is_pos, lemma_fundamental_div_mod,
    lemma_fundamental_div_mod_converse, lemma_mod_division_less_than_divisor,
};
use vstd::prelude::*;

verus! {

/// The address of one grid cell: a zero-based column and row.
#[derive(Clone, Copy, PartialEq, Eq, Structural, Debug)]
pub struct CellPos {
    pub col: u32,
    pub row: u32,
}

/// Whether cell `c` lies in the inclusive rectangle whose corners are
/// `lo` (minimum column and row) and `hi` (maximum column and row).
pub open spec fn within(lo: CellPos, hi: CellPos, c: CellPos) -> bool {
    lo.col <= c.col <= hi.col && lo.row <= c.row <= hi.row
}

/// How many columns the inclusive rectangle from `lo` to `hi` has.
pub open spec fn rect_width(lo: CellPos, hi: CellPos) -> int {
    hi.col - lo.col + 1
}

/// The cell listed at offset `i` when the rectangle from `lo` to `hi` is
/// walked in row-major order, columns varying fastest.
pub open spec fn rect_cell(lo: CellPos, hi: CellPos, i: int) -> CellPos {
    CellPos {
        col: (lo.col + i % rect_width(lo, hi)) as u32,
        row: (lo.row + i / rect_width(lo, hi)) as u32,
    }
}

impl CellPos {
    pub fn new(col: u32, row: u32) -> (c: CellPos)
        ensures
            c == (CellPos { col, row }),
    {
        CellPos { col, row }
    }

    /// The cell's address packed into a single 64-bit map key:
    /// the row in the upper half, the column in the lower half.
    pub open spec fn key_spec(self) -> u64 {
        (self.row * 0x1_0000_0000 + self.col) as u64
    }

    /// Packs the address into its 64-bit map key.
    pub fn key(self) -> (k: u64)
        ensures
            k == self.key_spec(),
    {
        (self.row as u64) * 0x1_0000_0000 + (self.col as u64)
    }

    /// All cells of the inclusive rectangle whose minimum corner is `self`
    /// and whose maximum corner is `hi`, in row-major order with columns
    /// varying fastest; empty when the corners are disordered on an axis.
    pub fn iter_to(self, hi: CellPos) -> (cells: Vec<CellPos>)
        ensures
            cells@.no_duplicates(),
            forall|c: CellPos| #[trigger] cells@.contains(c) <==> within(self, hi, c),
            cells@.len() == if self.col <= hi.col && self.row <= hi.row {
                rect_width(self, hi) * (hi.row - self.row + 1)
            } else {
                0
            },
            forall|i: int| 0 <= i < cells@.len() ==> #[trigger] cells@[i] == rect_cell(self, hi, i),
    {
        let mut cells: Vec<CellPos> = Vec::new();
        if hi.col < self.col || hi.row < self.row {
            return cells;
        }
        let w: u64 = hi.col as u64 - self.col as u64 + 1;
        let h: u64 = hi.row as u64 - self.row as u64 + 1;
        let mut r: u64 = 0;
        #[verifier::loop_isolation(false)]
        while r < h
            invariant
                r <= h,
                cells@.len() == r * w,
                forall|i: int| 0 <= i < cells@.len() ==> #[trigger] cells@[i] == rect_cell(self, hi, i),
            decreases h - r,
        {
            let mut c: u64 = 0;
            #[verifier::loop_isolation(false)]
            while c < w
                invariant
                    r < h,
                    c <= w,
                    cells@.len() == r * w + c,
                    forall|i: int| 0 <= i < cells@.len() ==> #[trigger] cells@[i] == rect_cell(self, hi, i),
                decreases w - c,
            {
                let pos = CellPos { col: self.col + c as u32, row: self.row + r as u32 };
                proof {
                    lemma_fundamental_div_mod_converse(
                        r as int * w as int + c as int,
                        w as int,
                        r as int,
                        c as int,
                    );
                }
                cells.push(pos);
                c = c + 1;
            }
            proof {
                assert((r + 1) as int * w as int == r as int * w as int + w as int)
                    by (nonlinear_arith);
            }
            r = r + 1;
        }
        proof {
            let wi = rect_width(self, hi);
            let hi_rows = hi.row - self.row + 1;
            let s = cells@;
            assert(s.len() == hi_rows * wi) by {
                assert(h as int * w as int == hi_rows * wi);
            }
            assert forall|i: int| 0 <= i < s.len() implies within(self, hi, #[trigger] s[i]) by {
                lemma_mod_division_less_than_divisor(i, wi);
                lemma_div_pos_is_pos(i, wi);
                assert(hi_rows * wi - 1 == (hi_rows - 1) * wi + (wi - 1)) by (nonlinear_arith);
                lemma_fundamental_div_mod_converse(
                    hi_rows * wi - 1,
                    wi,
                    hi_rows - 1,
                    wi - 1,
                );
                lemma_div_is_ordered(i, hi_rows * wi - 1, wi);
            }
            assert forall|c: CellPos| within(self, hi, c) implies s.contains(c) by {
                let dc = c.col - self.col;
                let dr = c.row - self.row;
                let i = dr * wi + dc;
                assert(0 <= i && i < hi_rows * wi) by (nonlinear_arith)
                    requires
                        0 <= dr <= hi_rows - 1,
                        0 <= dc <= wi - 1,
                        0 < wi,
                        i == dr * wi + dc;
                lemma_fundamental_div_mod_converse(i, wi, dr, dc);
                assert(s[i] == c);
            }
            assert(hi_rows * wi - 1 == (hi_rows - 1) * wi + (wi - 1)) by (nonlinear_arith);
            lemma_fundamental_div_mod_converse(hi_rows * wi - 1, wi, hi_rows - 1, wi - 1);
            assert forall|i: int, j: int|
                0 <= i < s.len() && 0 <= j < s.len() && i != j implies s[i] != s[j] by {
                lemma_mod_division_less_than_divisor(i, wi);
                lemma_mod_division_less_than_divisor(j, wi);
                lemma_div_pos_is_pos(i, wi);
                lemma_div_pos_is_pos(j, wi);
                lemma_div_is_ordered(i, hi_rows * wi - 1, wi);
                lemma_div_is_ordered(j, hi_rows * wi - 1, wi);
                if s[i] == s[j] {
                    assert(self.col + i % wi < 0x1_0000_0000);
                    assert(self.row + i / wi < 0x1_0000_0000);
                    assert(i % wi == j % wi);
                    assert(i / wi == j / wi);
                    lemma_fundamental_div_mod(i, wi);
                    lemma_fundamental_div_mod(j, wi);
                }
            }
        }
        cells
    }
}

/// Packing is injective: distinct cell addresses get distinct keys.
pub proof fn lemma_key_injective(a: CellPos, b: CellPos)
    requires
        a.key_spec() == b.key_spec(),
    ensures
        a == b,
{
    assert(a.row * 0x1_0000_0000 + a.col == b.row * 0x1_0000_0000 + b.col);
    assert(a.row == b.row && a.col == b.col);
}

} // verus!
