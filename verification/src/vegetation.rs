//! The integer rules of the vegetation stage: which returns are thinned out, and the
//! counting windows over the per-cell hit grids (stored row by row).
use vstd::prelude::*;

verus! {

/// Whether the `i`th return (counting from 0) is kept when only every `vegethin`th return
/// is used (0 keeps all). The position is taken as a 32-bit number, wrapping.
pub open spec fn keeps_return_of(i: u64, vegethin: u32) -> bool {
    vegethin == 0 || ((i + 1) % 0x1_0000_0000) % (vegethin as int) == 0
}

/// Whether the `i`th return is kept (see [`keeps_return_of`]).
pub fn keeps_return(i: u64, vegethin: u32) -> (r: bool)
    ensures
        r == keeps_return_of(i, vegethin),
{
    if vegethin == 0 {
        return true;
    }
    let k: u64 = i % 0x1_0000_0000 + 1;
    let k32: u64 = if k == 0x1_0000_0000 {
        0
    } else {
        k
    };
    proof {
        assert(k32 == (i + 1) % 0x1_0000_0000) by (nonlinear_arith)
            requires
                k == i % 0x1_0000_0000 + 1,
                k32 == if k == 0x1_0000_0000 {
                    0
                } else {
                    k
                },
        ;
    }
    k32 % (vegethin as u64) == 0
}

/// The value of cell (`x`, `y`) of a grid `width` cells wide.
pub open spec fn cell_of(grid: Seq<u32>, width: usize, x: int, y: int) -> u32 {
    grid[y * width + x]
}

/// A grid of `width` x `height` cells whose indices fit the machine.
pub open spec fn hit_grid_ok(grid: Seq<u32>, width: usize, height: usize) -> bool {
    grid.len() == width * height
}

/// The cells of the 5 x 5 window around (`x`, `y`), clipped to the grid.
pub open spec fn in_window5(width: usize, height: usize, x: int, y: int, i: int, j: int) -> bool {
    x - 2 <= i <= x + 2 && y - 2 <= j <= y + 2 && 0 <= i < width && 0 <= j < height
}

/// The smallest first-hit count in the 5 x 5 window around block (`x`, `y`), clipped to the
/// grid: the sparsest canopy nearby.
pub fn window_min5(grid: &Vec<u32>, width: usize, height: usize, x: usize, y: usize) -> (r: u32)
    requires
        hit_grid_ok(grid@, width, height),
        x < width,
        y < height,
    ensures
        exists|i: int, j: int|
            in_window5(width, height, x as int, y as int, i, j) && #[trigger] cell_of(
                grid@,
                width,
                i,
                j,
            ) == r,
        forall|i: int, j: int|
            in_window5(width, height, x as int, y as int, i, j) ==> r <= #[trigger] cell_of(
                grid@,
                width,
                i,
                j,
            ),
{
    let n = grid.len();
    proof {
        assert(y * width + x < width * height && y * width <= y * width + x) by (nonlinear_arith)
            requires
                x < width,
                y < height,
        ;
    }
    let mut best = grid[y * width + x];
    let ghost mut bi: int = x as int;
    let ghost mut bj: int = y as int;
    let i0 = if x >= 2 {
        x - 2
    } else {
        0
    };
    let i1 = if width - x > 3 {
        x + 3
    } else {
        width
    };
    let j0 = if y >= 2 {
        y - 2
    } else {
        0
    };
    let j1 = if height - y > 3 {
        y + 3
    } else {
        height
    };
    let mut i = i0;
    while i < i1
        invariant
            hit_grid_ok(grid@, width, height),
            n == grid@.len(),
            x < width,
            y < height,
            i0 <= i <= i1 <= width,
            i0 == if x >= 2 { x - 2 } else { 0 },
            i1 == if x + 3 < width { x + 3 } else { width as int },
            j0 == if y >= 2 { y - 2 } else { 0 },
            j1 == if y + 3 < height { y + 3 } else { height as int },
            in_window5(width, height, x as int, y as int, bi, bj),
            cell_of(grid@, width, bi, bj) == best,
            forall|ii: int, jj: int|
                in_window5(width, height, x as int, y as int, ii, jj) && ii < i ==> best
                    <= #[trigger] cell_of(grid@, width, ii, jj),
        decreases i1 - i,
    {
        let mut j = j0;
        while j < j1
            invariant
                hit_grid_ok(grid@, width, height),
                n == grid@.len(),
                x < width,
                y < height,
                i0 <= i < i1 <= width,
                j0 <= j <= j1 <= height,
                i0 == if x >= 2 { x - 2 } else { 0 },
                i1 == if x + 3 < width { x + 3 } else { width as int },
                j0 == if y >= 2 { y - 2 } else { 0 },
                j1 == if y + 3 < height { y + 3 } else { height as int },
                in_window5(width, height, x as int, y as int, bi, bj),
                cell_of(grid@, width, bi, bj) == best,
                forall|ii: int, jj: int|
                    in_window5(width, height, x as int, y as int, ii, jj) && (ii < i || (ii == i
                        && jj < j)) ==> best <= #[trigger] cell_of(grid@, width, ii, jj),
            decreases j1 - j,
        {
            proof {
                assert(j * width + i < width * height && j * width <= j * width + i) by (
                nonlinear_arith)
                    requires
                        i < width,
                        j < height,
                ;
            }
            let v = grid[j * width + i];
            if v < best {
                best = v;
                proof {
                    bi = i as int;
                    bj = j as int;
                }
            }
            j = j + 1;
        }
        i = i + 1;
    }
    best
}

/// The sum of the 2 x 2 window of cells from (`x`, `y`).
pub open spec fn sum2x2_of(grid: Seq<u32>, width: usize, x: int, y: int) -> int {
    cell_of(grid, width, x, y) + cell_of(grid, width, x + 1, y) + cell_of(grid, width, x, y + 1)
        + cell_of(grid, width, x + 1, y + 1)
}

/// The sum of the 2 x 2 window of cells from (`x`, `y`): the hits of a yellow test square.
pub fn sum2x2(grid: &Vec<u32>, width: usize, height: usize, x: usize, y: usize) -> (r: u64)
    requires
        hit_grid_ok(grid@, width, height),
        x + 1 < width,
        y + 1 < height,
    ensures
        r == sum2x2_of(grid@, width, x as int, y as int),
{
    let n = grid.len();
    proof {
        assert((y + 1) * width + x + 1 < width * height && y * width + x + 1 <= (y + 1) * width + x
            + 1 && (y + 1) * width + x == y * width + x + width) by (nonlinear_arith)
            requires
                x + 1 < width,
                y + 1 < height,
        ;
        assert(y * width <= y * width + x) by (nonlinear_arith)
            requires
                x + 1 < width,
        ;
    }
    let a = grid[y * width + x] as u64;
    let b = grid[y * width + x + 1] as u64;
    let c = grid[(y + 1) * width + x] as u64;
    let d = grid[(y + 1) * width + x + 1] as u64;
    a + b + c + d
}

/// The first-hit counts of the cells with more than one ground hit, summed, and how many
/// such cells there are among the first `k`.
pub open spec fn ground_cells_firsthit(firsthit: Seq<u32>, ghit: Seq<u32>, k: int) -> (int, int)
    decreases k,
{
    if k <= 0 {
        (0, 0)
    } else {
        let prev = ground_cells_firsthit(firsthit, ghit, k - 1);
        if ghit[k - 1] > 1 {
            (prev.0 + firsthit[k - 1], prev.1 + 1)
        } else {
            prev
        }
    }
}

/// The sum of the first-hit counts of the cells with more than one ground hit, and how many
/// such cells there are: the global average first-hit count is their quotient.
pub fn firsthit_average_parts(firsthit: &Vec<u32>, ghit: &Vec<u32>) -> (r: (u64, u64))
    requires
        firsthit@.len() == ghit@.len(),
        firsthit@.len() < 0x1_0000_0000,
    ensures
        r.0 == ground_cells_firsthit(firsthit@, ghit@, firsthit@.len() as int).0,
        r.1 == ground_cells_firsthit(firsthit@, ghit@, firsthit@.len() as int).1,
{
    let mut sum: u64 = 0;
    let mut count: u64 = 0;
    let mut k: usize = 0;
    while k < firsthit.len()
        invariant
            firsthit@.len() == ghit@.len(),
            firsthit@.len() < 0x1_0000_0000,
            k <= firsthit@.len(),
            sum == ground_cells_firsthit(firsthit@, ghit@, k as int).0,
            count == ground_cells_firsthit(firsthit@, ghit@, k as int).1,
            sum <= k * 0xffff_ffff,
            count <= k,
        decreases firsthit@.len() - k,
    {
        if ghit[k] > 1 {
            proof {
                assert(sum + firsthit@[k as int] <= (k + 1) * 0xffff_ffff) by (nonlinear_arith)
                    requires
                        sum <= k * 0xffff_ffff,
                        firsthit@[k as int] <= 0xffff_ffff,
                ;
                assert((k + 1) * 0xffff_ffff < 0x1_0000_0000 * 0x1_0000_0000) by (nonlinear_arith)
                    requires
                        k < 0x1_0000_0000,
                ;
            }
            sum = sum + firsthit[k] as u64;
            count = count + 1;
        }
        proof {
            assert(k * 0xffff_ffff <= (k + 1) * 0xffff_ffff) by (nonlinear_arith);
        }
        k = k + 1;
    }
    (sum, count)
}

/// The green shade of a block: one more than the last configured shade whose limit the
/// block's value exceeds (`exceeds[i]` for shade `i`), or 0 when it exceeds none.
pub open spec fn green_shade_of(exceeds: Seq<bool>) -> int
    decreases exceeds.len(),
{
    if exceeds.len() == 0 {
        0
    } else if exceeds.last() {
        exceeds.len() as int
    } else {
        green_shade_of(exceeds.drop_last())
    }
}

/// The green shade of a block (see [`green_shade_of`]).
pub fn green_shade(exceeds: &Vec<bool>) -> (r: usize)
    ensures
        r == green_shade_of(exceeds@),
{
    let mut shade: usize = 0;
    let mut i: usize = 0;
    while i < exceeds.len()
        invariant
            i <= exceeds@.len(),
            shade == green_shade_of(exceeds@.take(i as int)),
        decreases exceeds@.len() - i,
    {
        assert(exceeds@.take(i + 1).drop_last() =~= exceeds@.take(i as int));
        if exceeds[i] {
            shade = i + 1;
        }
        i = i + 1;
    }
    assert(exceeds@.take(exceeds@.len() as int) =~= exceeds@);
    shade
}

} // verus!
