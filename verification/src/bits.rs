//! Rows of cells packed into a `u64`: cell `x` of a row is bit `x` of its
//! value.

use vstd::prelude::*;

verus! {

/// Whether cell `x` of `row` is lit. A row has no cell beyond the 64th.
pub open spec fn bit(row: u64, x: int) -> bool {
    0 <= x < 64 && (row >> (x as u64)) & 1 == 1
}

/// Whether `row` is a row of `width` cells: its value is below `2^width`, so
/// no cell beyond the first `width` is lit.
pub open spec fn fits(row: u64, width: int) -> bool {
    width >= 64 || (0 <= width && row >> (width as u64) == 0)
}

/// The cells of a row of `width` cells.
pub open spec fn cells_of(row: u64, width: nat) -> Seq<bool> {
    Seq::new(width, |x: int| bit(row, x))
}

proof fn lemma_low_bits_equal(a: u64, b: u64, k: int)
    requires
        0 <= k <= 64,
        forall|x: int| 0 <= x < k ==> bit(a, x) == bit(b, x),
    ensures
        k < 64 ==> a & !(u64::MAX << (k as u64)) == b & !(u64::MAX << (k as u64)),
        k == 64 ==> a == b,
    decreases k,
{
    if k == 0 {
        assert(a & !(u64::MAX << 0u64) == b & !(u64::MAX << 0u64)) by (bit_vector);
    } else {
        lemma_low_bits_equal(a, b, k - 1);
        let j = (k - 1) as u64;
        assert(bit(a, k - 1) == bit(b, k - 1));
        if k < 64 {
            let n = k as u64;
            assert(a & !(u64::MAX << n) == b & !(u64::MAX << n)) by (bit_vector)
                requires
                    n == j + 1,
                    n < 64,
                    a & !(u64::MAX << j) == b & !(u64::MAX << j),
                    ((a >> j) & 1 == 1) == ((b >> j) & 1 == 1),
            ;
        } else {
            assert(a == b) by (bit_vector)
                requires
                    j == 63,
                    a & !(u64::MAX << j) == b & !(u64::MAX << j),
                    ((a >> j) & 1 == 1) == ((b >> j) & 1 == 1),
            ;
        }
    }
}

/// Two rows of the same width with the same cells have the same value.
pub proof fn lemma_same_cells_same_row(a: u64, b: u64, width: nat)
    requires
        width <= 64,
        fits(a, width as int),
        fits(b, width as int),
        cells_of(a, width) == cells_of(b, width),
    ensures
        a == b,
{
    assert forall|x: int| 0 <= x < width implies bit(a, x) == bit(b, x) by {
        assert(cells_of(a, width)[x] == bit(a, x));
        assert(cells_of(b, width)[x] == bit(b, x));
    }
    lemma_low_bits_equal(a, b, width as int);
    if width < 64 {
        let w = width as u64;
        assert(a == b) by (bit_vector)
            requires
                w < 64,
                a >> w == 0,
                b >> w == 0,
                a & !(u64::MAX << w) == b & !(u64::MAX << w),
        ;
    }
}

/// Reads cell `x` of `row`.
pub fn test_bit(row: u64, x: usize) -> (lit: bool)
    requires
        x < 64,
    ensures
        lit == bit(row, x as int),
{
    (row >> (x as u64)) & 1 == 1
}

/// The row in which the cell `x` alone is lit.
pub fn cell_mask(x: usize) -> (m: u64)
    requires
        x < 64,
    ensures
        forall|i: int| bit(m, i) == (i == x),
        forall|w: int| x < w ==> fits(m, w),
{
    let s = x as u64;
    let m = 1u64 << s;
    proof {
        assert forall|i: int| bit(m, i) == (i == x) by {
            if 0 <= i < 64 {
                let j = i as u64;
                assert(((m >> j) & 1 == 1) == (j == s)) by (bit_vector)
                    requires
                        m == 1u64 << s,
                        s < 64,
                        j < 64,
                ;
            }
        }
        assert forall|w: int| x < w implies fits(m, w) by {
            if w < 64 {
                let v = w as u64;
                assert(m >> v == 0) by (bit_vector)
                    requires
                        m == 1u64 << s,
                        s < v,
                        v < 64,
                ;
            }
        }
    }
    m
}

/// The row of `width` cells in which the cell `x` and its neighbours to the
/// left and to the right are lit, as far as the row has them.
pub fn plus_mask(x: usize, width: usize) -> (m: u64)
    requires
        x < width <= 64,
    ensures
        fits(m, width as int),
        forall|i: int| bit(m, i) == (0 <= i < width && (i == x - 1 || i == x || i == x + 1)),
{
    let own = cell_mask(x);
    let left = if x > 0 {
        cell_mask(x - 1)
    } else {
        0
    };
    let right = if x + 1 < width {
        cell_mask(x + 1)
    } else {
        0
    };
    let m = own | left | right;
    proof {
        lemma_zero();
        lemma_or(own, left, width as int);
        lemma_or(own | left, right, width as int);
        assert forall|i: int|
            bit(m, i) == (0 <= i < width && (i == x - 1 || i == x || i == x + 1)) by {
            assert(bit(m, i) == (bit(own | left, i) || bit(right, i)));
            assert(bit(own | left, i) == (bit(own, i) || bit(left, i)));
        }
    }
    m
}

/// The row without a lit cell.
pub proof fn lemma_zero()
    ensures
        forall|i: int| !bit(0, i),
        forall|w: int| 0 <= w ==> fits(0, w),
{
    assert forall|i: int| !bit(0, i) by {
        if 0 <= i < 64 {
            let j = i as u64;
            assert((0u64 >> j) & 1 == 0) by (bit_vector);
        }
    }
    assert forall|w: int| 0 <= w implies fits(0, w) by {
        if w < 64 {
            let v = w as u64;
            assert(0u64 >> v == 0) by (bit_vector);
        }
    }
}

/// The cells of `a | b` are those that are lit in `a` or in `b`.
pub proof fn lemma_or(a: u64, b: u64, width: int)
    ensures
        forall|i: int| #![trigger bit(a | b, i)] bit(a | b, i) == (bit(a, i) || bit(b, i)),
        fits(a, width) && fits(b, width) ==> fits(a | b, width),
{
    assert forall|i: int| bit(a | b, i) == (bit(a, i) || bit(b, i)) by {
        if 0 <= i < 64 {
            let j = i as u64;
            assert((((a | b) >> j) & 1 == 1) == (((a >> j) & 1 == 1) || ((b >> j) & 1 == 1)))
                by (bit_vector);
        }
    }
    if 0 <= width < 64 {
        let w = width as u64;
        assert(a >> w == 0 && b >> w == 0 ==> (a | b) >> w == 0) by (bit_vector);
    }
}

/// The cells of `a ^ b` are those of `a`, flipped where `b` is lit.
pub proof fn lemma_xor(a: u64, b: u64, width: int)
    ensures
        forall|i: int| #![trigger bit(a ^ b, i)] bit(a ^ b, i) == (bit(a, i) != bit(b, i)),
        fits(a, width) && fits(b, width) ==> fits(a ^ b, width),
{
    assert forall|i: int| bit(a ^ b, i) == (bit(a, i) != bit(b, i)) by {
        if 0 <= i < 64 {
            let j = i as u64;
            assert((((a ^ b) >> j) & 1 == 1) == (((a >> j) & 1 == 1) != ((b >> j) & 1 == 1)))
                by (bit_vector);
        }
    }
    if 0 <= width < 64 {
        let w = width as u64;
        assert(a >> w == 0 && b >> w == 0 ==> (a ^ b) >> w == 0) by (bit_vector);
    }
}

/// The row `row` with the lit cells of `m` turned off.
pub fn clear_cells(row: u64, m: u64) -> (r: u64)
    ensures
        forall|i: int| #![trigger bit(r, i)] bit(r, i) == (bit(row, i) && !bit(m, i)),
        forall|w: int| #![trigger fits(r, w)] fits(row, w) ==> fits(r, w),
{
    let r = row & !m;
    proof {
        assert forall|i: int| bit(r, i) == (bit(row, i) && !bit(m, i)) by {
            if 0 <= i < 64 {
                let j = i as u64;
                assert((((row & !m) >> j) & 1 == 1) == (((row >> j) & 1 == 1) && !((m >> j) & 1
                    == 1))) by (bit_vector);
            }
        }
        assert forall|w: int| fits(row, w) implies fits(r, w) by {
            if 0 <= w < 64 {
                let v = w as u64;
                assert(row >> v == 0 ==> (row & !m) >> v == 0) by (bit_vector);
            }
        }
    }
    r
}

/// The first `width` cells of `word`, as a row of `width` cells.
pub fn low_cells(word: u64, width: usize) -> (row: u64)
    requires
        width <= 64,
    ensures
        fits(row, width as int),
        forall|i: int| #![trigger bit(row, i)] bit(row, i) == (bit(word, i) && i < width),
{
    if width == 64 {
        word
    } else {
        let w = width as u64;
        let row = word & !(u64::MAX << w);
        proof {
            assert(row >> w == 0) by (bit_vector)
                requires
                    row == word & !(u64::MAX << w),
                    w < 64,
            ;
            assert forall|i: int| bit(row, i) == (bit(word, i) && i < width) by {
                if 0 <= i < 64 {
                    let j = i as u64;
                    assert(((row >> j) & 1 == 1) == (((word >> j) & 1 == 1) && j < w))
                        by (bit_vector)
                        requires
                            row == word & !(u64::MAX << w),
                            w < 64,
                            j < 64,
                    ;
                }
            }
        }
        row
    }
}

/// Whether `row` is a row of `width` cells.
pub fn row_fits(row: u64, width: usize) -> (ok: bool)
    ensures
        ok == fits(row, width as int),
{
    width >= 64 || row >> (width as u64) == 0
}

} // verus!
