//! Small layout decisions of the interface: the sidebar icons and the column
//! count of the burst review grid.

use vstd::prelude::*;

verus! {

/// Sidebar icons.
#[derive(Debug, Clone, Copy, PartialEq, Eq)]
pub enum Icon {
    AllPhotos,
    Filters,
    Folders,
    Albums,
    People,
    Imports,
    Deleted,
}

/// Columns of the review grid for `n` frames: 1 for one frame or none, 2 for
/// two to four, 3 for five to nine, 4 beyond.
pub open spec fn grid_cols(n: int) -> int {
    if n <= 1 {
        1
    } else if n <= 4 {
        2
    } else if n <= 9 {
        3
    } else {
        4
    }
}

/// Columns for the adaptive review grid, chosen from the frame count so a
/// burst fits the window without horizontal scrolling.
pub fn resolve_cols(n: usize) -> (c: usize)
    ensures
        c == grid_cols(n as int),
{
    match n {
        0 | 1 => 1,
        2 => 2,
        3 | 4 => 2,
        5 | 6 => 3,
        7..=9 => 3,
        _ => 4,
    }
}

/// Rows needed for `n` frames in `cols` columns.
pub open spec fn rows_for(n: int, cols: int) -> int {
    (n + cols - 1) / cols
}

/// The grid wraps instead of growing one long row: it has between 1 and
/// `max(n, 1)` columns, and more than two frames always take at least two rows.
pub proof fn lemma_grid_wraps(n: int)
    requires
        n >= 0,
    ensures
        1 <= grid_cols(n) <= if n > 1 {
            n
        } else {
            1
        },
        n > 2 ==> rows_for(n, grid_cols(n)) >= 2,
{
    let c = grid_cols(n);
    if n > 2 {
        assert(c < n);
        assert(n + c - 1 >= 2 * c) by {
            assert(n >= c + 1);
        }
        assert((n + c - 1) / c >= 2) by (nonlinear_arith)
            requires
                n + c - 1 >= 2 * c,
                c >= 1,
        ;
    }
}

} // verus!
