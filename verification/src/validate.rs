//! The uniqueness rule: no digit twice in a row, a column or a box.

use crate::grid::{box_col, box_row, box_view, cell, col_view, grid_wf, row_view, Puzzle};
use crate::grid::{horizontal_slice, square_slice, vertical_slice, Grid};
use vstd::prelude::*;

verus! {

/// No digit occurs twice in `unit`; blanks are ignored.
pub open spec fn unit_is_consistent(unit: Seq<u8>) -> bool {
    forall|i: int, j: int| 0 <= i < j < unit.len() && unit[i] != 0 ==> unit[i] != unit[j]
}

/// Every row, column and box of `g` is free of repeated digits.
pub open spec fn grid_is_valid(g: Grid) -> bool {
    &&& forall|i: int| 0 <= i < 9 ==> unit_is_consistent(#[trigger] row_view(g, i))
    &&& forall|i: int| 0 <= i < 9 ==> unit_is_consistent(#[trigger] col_view(g, i))
    &&& forall|i: int| 0 <= i < 9 ==> unit_is_consistent(#[trigger] box_view(g, i))
}

/// `g` is `s` with some cells blanked: each cell of `g` is blank or as in `s`.
pub open spec fn is_blanking_of(g: Grid, s: Grid) -> bool {
    forall|r: int, c: int|
        0 <= r < 9 && 0 <= c < 9 ==> #[trigger] cell(g, r, c) == 0 || cell(g, r, c) == cell(
            s,
            r,
            c,
        )
}

/// Blanking entries of a consistent unit leaves it consistent.
pub proof fn lemma_blanked_unit_stays_consistent(a: Seq<u8>, b: Seq<u8>)
    requires
        a.len() == b.len(),
        forall|k: int| 0 <= k < a.len() ==> a[k] == 0 || a[k] == b[k],
        unit_is_consistent(b),
    ensures
        unit_is_consistent(a),
{
    assert forall|i: int, j: int| 0 <= i < j < a.len() && a[i] != 0 implies a[i] != a[j] by {
        if a[i] == a[j] {
            assert(b[i] == a[i]);
            assert(b[j] == a[j]);
        }
    }
}

/// Blanking any cells of a valid grid never introduces a conflict.
pub proof fn lemma_blanking_preserves_validity(g: Grid, s: Grid)
    requires
        grid_is_valid(s),
        is_blanking_of(g, s),
    ensures
        grid_is_valid(g),
{
    assert forall|i: int| 0 <= i < 9 implies unit_is_consistent(#[trigger] row_view(g, i)) by {
        assert forall|k: int| 0 <= k < 9 implies row_view(g, i)[k] == 0 || row_view(g, i)[k]
            == row_view(s, i)[k] by {
            assert(cell(g, i, k) == 0 || cell(g, i, k) == cell(s, i, k));
        }
        lemma_blanked_unit_stays_consistent(row_view(g, i), row_view(s, i));
    }
    assert forall|i: int| 0 <= i < 9 implies unit_is_consistent(#[trigger] col_view(g, i)) by {
        assert forall|k: int| 0 <= k < 9 implies col_view(g, i)[k] == 0 || col_view(g, i)[k]
            == col_view(s, i)[k] by {
            assert(cell(g, k, i) == 0 || cell(g, k, i) == cell(s, k, i));
        }
        lemma_blanked_unit_stays_consistent(col_view(g, i), col_view(s, i));
    }
    assert forall|i: int| 0 <= i < 9 implies unit_is_consistent(#[trigger] box_view(g, i)) by {
        assert forall|k: int| 0 <= k < 9 implies box_view(g, i)[k] == 0 || box_view(g, i)[k]
            == box_view(s, i)[k] by {
            let r = box_row(i, k);
            let c = box_col(i, k);
            assert(cell(g, r, c) == 0 || cell(g, r, c) == cell(s, r, c));
        }
        lemma_blanked_unit_stays_consistent(box_view(g, i), box_view(s, i));
    }
}

/// Verifies whether a slice has all unique digits, except 0, which is ignored.
pub fn slice_has_unique_digits(slice: &[u8]) -> (out: bool)
    requires
        forall|k: int| 0 <= k < slice@.len() ==> slice@[k] <= 9,
    ensures
        out == unit_is_consistent(slice@),
{
    let mut unique_digits = [false; 9];
    let mut k: usize = 0;
    while k < slice.len()
        invariant
            k <= slice@.len(),
            forall|n: int| 0 <= n < slice@.len() ==> slice@[n] <= 9,
            unit_is_consistent(slice@.take(k as int)),
            forall|d: int|
                0 <= d < 9 ==> (#[trigger] unique_digits[d] <==> exists|n: int|
                    0 <= n < k && slice@[n] == d + 1),
        decreases slice@.len() - k,
    {
        let digit = slice[k];
        if digit != 0 {
            let index: usize = (digit - 1) as usize;
            if unique_digits[index] {
                proof {
                    let n = choose|n: int| 0 <= n < k && slice@[n] == index + 1;
                    assert(slice@[n] != 0 && slice@[n] == slice@[k as int]);
                }
                return false;
            }
            unique_digits[index] = true;
        }
        proof {
            let prev = slice@.take(k as int);
            let next = slice@.take(k + 1);
            assert forall|i: int, j: int| 0 <= i < j < next.len() && next[i] != 0 implies next[i]
                != next[j] by {
                if j < k {
                    assert(prev[i] == next[i] && prev[j] == next[j]);
                } else {
                    if next[i] == next[j] {
                        assert(slice@[i] == (digit - 1) + 1);
                    }
                }
            }
            assert forall|d: int| 0 <= d < 9 implies (#[trigger] unique_digits[d] <==> exists|
                n: int,
            |
                0 <= n < k + 1 && slice@[n] == d + 1) by {
                if digit != 0 && d == digit - 1 {
                    assert(slice@[k as int] == d + 1);
                } else {
                    if unique_digits[d] {
                        let n = choose|n: int| 0 <= n < k && slice@[n] == d + 1;
                        assert(0 <= n < k + 1 && slice@[n] == d + 1);
                    }
                }
            }
        }
        k += 1;
    }
    assert(slice@.take(k as int) =~= slice@);
    true
}

/// Verifies whether a puzzle is valid -- all digits are in legal positions.
pub fn is_valid_puzzle(puzzle: &Puzzle) -> (out: bool)
    requires
        grid_wf(*puzzle),
    ensures
        out == grid_is_valid(*puzzle),
{
    let mut index: usize = 0;
    while index < 9
        invariant
            index <= 9,
            grid_wf(*puzzle),
            forall|i: int| 0 <= i < index ==> unit_is_consistent(#[trigger] row_view(*puzzle, i)),
            forall|i: int| 0 <= i < index ==> unit_is_consistent(#[trigger] col_view(*puzzle, i)),
            forall|i: int| 0 <= i < index ==> unit_is_consistent(#[trigger] box_view(*puzzle, i)),
        decreases 9 - index,
    {
        let row = match horizontal_slice(puzzle, index) {
            Some(slice) => slice,
            None => {
                return false;
            },
        };
        let col = match vertical_slice(puzzle, index) {
            Some(slice) => slice,
            None => {
                return false;
            },
        };
        let square = match square_slice(puzzle, index) {
            Some(slice) => slice,
            None => {
                return false;
            },
        };
        proof {
            assert forall|k: int| 0 <= k < 9 implies row@[k] <= 9 && col@[k] <= 9 && square@[k]
                <= 9 by {
                assert(cell(*puzzle, index as int, k) <= 9);
                assert(cell(*puzzle, k, index as int) <= 9);
                assert(cell(*puzzle, box_row(index as int, k), box_col(index as int, k)) <= 9);
            }
        }
        if !(slice_has_unique_digits(&row) && slice_has_unique_digits(&col)
            && slice_has_unique_digits(&square)) {
            return false;
        }
        index += 1;
    }
    true
}

} // verus!
