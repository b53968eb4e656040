//! The classic rectangular map: edge tiles all around, a handful of
//! randomly placed blocks inside, and the pig's starting tile kept free.

use vstd::prelude::*;

use crate::board::ClassicTile;
use crate::posn::COORD_LIMIT;
use crate::posn::HexPosn;

verus! {

/// The flat index of the cell in row `a`, column `b`, of a map with
/// `cols` columns, produced in row-major order.
pub open spec fn cell_index(a: int, b: int, cols: int) -> int {
    a * cols + b
}

/// The tile of the classic map at row `i`, column `j`: the rectangle's
/// rim is all exits, the classic pig start stays free, and the listed
/// block positions are blocked.
pub open spec fn classic_tile_at(
    rows: int,
    cols: int,
    blocks: Seq<(int, int)>,
    i: int,
    j: int,
) -> ClassicTile {
    if i == 0 || j == 0 || i == rows - 1 || j == cols - 1 {
        ClassicTile::Edge
    } else if i == 5 && j == 2 {
        ClassicTile::Free
    } else if blocks.contains((i, j)) {
        ClassicTile::Block
    } else {
        ClassicTile::Free
    }
}

/// The entry at flat index `idx` carries the key of some grid cell,
/// placed at its row-major index.
pub open spec fn keyed_cell(
    v: Seq<(HexPosn, ClassicTile)>,
    rows: int,
    cols: int,
    idx: int,
) -> bool {
    exists|a: int, b: int|
        {
            &&& 0 <= a < rows
            &&& 0 <= b < cols
            &&& idx == #[trigger] cell_index(a, b, cols)
            &&& v[idx].0@ == (a, b)
        }
}

/// Earlier cells of the row-major order have smaller flat indices.
proof fn lemma_cell_index_bound(a: int, b: int, i: int, j: int, cols: int)
    by (nonlinear_arith)
    requires
        0 <= b < cols,
        0 <= a,
        0 <= j,
        a < i || (a == i && b < j),
    ensures
        0 <= cell_index(a, b, cols),
        cell_index(a, b, cols) < cell_index(i, j, cols),
{
}

/// Relies on rand::random_range: a sample from the thread-local
/// generator, within the given non-empty range.
#[verifier::external_body]
fn random_in_range(lo: isize, hi: isize) -> (r: isize)
    requires
        lo < hi,
    ensures
        lo <= r < hi,
{
    rand::random_range((lo as i64)..(hi as i64)) as isize
}

/// A classic, rectangular map: a grid of the given size whose tiles are
/// produced in row-major order, with between 3 and 9 blocks drawn at
/// random positions.
pub struct ClassicMap {
    r: isize,
    c: isize,
    random_blocks: Vec<HexPosn>,
}

impl ClassicMap {
    /// The number of rows.
    pub closed spec fn spec_rows(&self) -> int {
        self.r as int
    }

    /// The number of columns.
    pub closed spec fn spec_cols(&self) -> int {
        self.c as int
    }

    /// The randomly drawn block positions.
    pub closed spec fn spec_blocks(&self) -> Seq<(int, int)> {
        self.random_blocks@.map_values(|p: HexPosn| p@)
    }

    /// The map's sizes are positive and inside the game's coordinate
    /// range — a board built from the listing is accepted by a game
    /// instance — and every drawn block lies on the grid.
    pub open spec fn wf(&self) -> bool {
        &&& 1 <= self.spec_rows() <= COORD_LIMIT as int
        &&& 1 <= self.spec_cols() <= COORD_LIMIT as int
        &&& 3 <= self.spec_blocks().len() < 10
        &&& forall|t: int|
            0 <= t < self.spec_blocks().len() ==> {
                &&& 0 <= (#[trigger] self.spec_blocks()[t]).0 < self.spec_rows()
                &&& 0 <= self.spec_blocks()[t].1 < self.spec_cols()
            }
    }

    /// Draws a new classic map of the given size, with a random number
    /// of blocks at random grid positions. The sizes are capped at the
    /// game's coordinate range, where the boards it generates live.
    pub fn new(r: isize, c: isize) -> (map: ClassicMap)
        requires
            1 <= r <= COORD_LIMIT,
            1 <= c <= COORD_LIMIT,
        ensures
            map.wf(),
            map.spec_rows() == r as int,
            map.spec_cols() == c as int,
    {
        let num_random = random_in_range(3, 10);
        let mut blocks: Vec<HexPosn> = Vec::new();
        let mut t: isize = 0;
        while t < num_random
            invariant
                1 <= r,
                1 <= c,
                0 <= t <= num_random,
                3 <= num_random < 10,
                blocks@.len() == t,
                forall|u: int|
                    0 <= u < blocks@.len() ==> {
                        &&& 0 <= (#[trigger] blocks@[u])@.0 < r as int
                        &&& 0 <= blocks@[u]@.1 < c as int
                    },
            decreases num_random - t,
        {
            let br = random_in_range(0, r);
            let bc = random_in_range(0, c);
            blocks.push(HexPosn { r: br, c: bc });
            t = t + 1;
        }
        let map = ClassicMap { r, c, random_blocks: blocks };
        proof {
            assert forall|u: int| 0 <= u < map.spec_blocks().len() implies {
                &&& 0 <= (#[trigger] map.spec_blocks()[u]).0 < map.spec_rows()
                &&& 0 <= map.spec_blocks()[u].1 < map.spec_cols()
            } by {
                assert(map.spec_blocks()[u] == blocks@[u]@);
            }
        }
        map
    }

    /// The full tile listing of the map, in row-major order.
    pub fn tiles(&self) -> (v: Vec<(HexPosn, ClassicTile)>)
        requires
            self.wf(),
            self.spec_rows() * self.spec_cols() <= usize::MAX as int,
        ensures
            v@.len() == self.spec_rows() * self.spec_cols(),
            forall|a: int, b: int|
                0 <= a < self.spec_rows() && 0 <= b < self.spec_cols() ==> {
                    &&& (#[trigger] v@[cell_index(a, b, self.spec_cols())]).0@ == (a, b)
                    &&& v@[cell_index(a, b, self.spec_cols())].1 == classic_tile_at(
                        self.spec_rows(),
                        self.spec_cols(),
                        self.spec_blocks(),
                        a,
                        b,
                    )
                },
            forall|idx: int|
                0 <= idx < v@.len() ==> #[trigger] keyed_cell(
                    v@,
                    self.spec_rows(),
                    self.spec_cols(),
                    idx,
                ),
    {
        let ghost rows = self.spec_rows();
        let ghost cols = self.spec_cols();
        let ghost blocks = self.spec_blocks();
        let mut v: Vec<(HexPosn, ClassicTile)> = Vec::new();
        let mut i: isize = 0;
        while i < self.r
            invariant
                self.wf(),
                rows == self.spec_rows(),
                cols == self.spec_cols(),
                blocks == self.spec_blocks(),
                rows * cols <= usize::MAX as int,
                0 <= i <= self.r,
                v@.len() == i as int * cols,
                forall|a: int, b: int|
                    0 <= a < i as int && 0 <= b < cols ==> {
                        &&& (#[trigger] v@[cell_index(a, b, cols)]).0@ == (a, b)
                        &&& v@[cell_index(a, b, cols)].1 == classic_tile_at(
                            rows,
                            cols,
                            blocks,
                            a,
                            b,
                        )
                    },
                forall|idx: int|
                    0 <= idx < v@.len() ==> #[trigger] keyed_cell(v@, rows, cols, idx),
            decreases self.r - i,
        {
            let mut j: isize = 0;
            proof {
                assert(i as int * cols + cols <= rows * cols) by (nonlinear_arith)
                    requires
                        (i as int) < rows,
                        cols >= 0,
                ;
            }
            while j < self.c
                invariant
                    self.wf(),
                    rows == self.spec_rows(),
                    cols == self.spec_cols(),
                    blocks == self.spec_blocks(),
                    rows * cols <= usize::MAX as int,
                    0 <= i,
                    (i as int) < rows,
                    0 <= j <= self.c,
                    i as int * cols + cols <= rows * cols,
                    v@.len() == i as int * cols + j as int,
                    forall|a: int, b: int|
                        (0 <= a < i as int && 0 <= b < cols) || (a == i as int && 0 <= b
                            < j as int) ==> {
                            &&& (#[trigger] v@[cell_index(a, b, cols)]).0@ == (a, b)
                            &&& v@[cell_index(a, b, cols)].1 == classic_tile_at(
                                rows,
                                cols,
                                blocks,
                                a,
                                b,
                            )
                        },
                    forall|idx: int|
                        0 <= idx < v@.len() ==> #[trigger] keyed_cell(v@, rows, cols, idx),
                decreases self.c - j,
            {
                let tile = if i == self.r - 1 || j == self.c - 1 {
                    ClassicTile::Edge
                } else if i == 0 || j == 0 {
                    ClassicTile::Edge
                } else if i == 5 && j == 2 {
                    ClassicTile::Free
                } else if contains_block(&self.random_blocks, i, j) {
                    ClassicTile::Block
                } else {
                    ClassicTile::Free
                };
                proof {
                    assert(tile == classic_tile_at(rows, cols, blocks, i as int, j as int));
                }
                let ghost v_b = v@;
                v.push((HexPosn { r: i, c: j }, tile));
                proof {
                    assert(cell_index(i as int, j as int, cols) == v_b.len());
                    assert(v@[cell_index(i as int, j as int, cols)] == (
                        HexPosn { r: i, c: j },
                        tile,
                    ));
                    assert forall|a: int, b: int|
                        (0 <= a < i as int && 0 <= b < cols) || (a == i as int && 0 <= b < j as int
                            + 1) implies {
                        &&& (#[trigger] v@[cell_index(a, b, cols)]).0@ == (a, b)
                        &&& v@[cell_index(a, b, cols)].1 == classic_tile_at(rows, cols, blocks, a, b)
                    } by {
                        if a < i as int || b < j as int {
                            lemma_cell_index_bound(a, b, i as int, j as int, cols);
                            assert(v@[cell_index(a, b, cols)] == v_b[cell_index(a, b, cols)]);
                        }
                    }
                    assert forall|idx: int|
                        0 <= idx < v@.len() implies #[trigger] keyed_cell(v@, rows, cols, idx) by {
                        if idx < v_b.len() {
                            assert(keyed_cell(v_b, rows, cols, idx));
                            let (a, b) = choose|a: int, b: int|
                                0 <= a < rows && 0 <= b < cols && idx == #[trigger] cell_index(
                                    a,
                                    b,
                                    cols,
                                ) && v_b[idx].0@ == (a, b);
                            assert(v@[idx] == v_b[idx]);
                            assert(idx == cell_index(a, b, cols));
                        } else {
                            assert(idx == cell_index(i as int, j as int, cols));
                            assert(v@[idx].0@ == (i as int, j as int));
                        }
                    }
                }
                j = j + 1;
            }
            proof {
                assert(i as int * cols + cols == (i as int + 1) * cols) by (nonlinear_arith);
            }
            i = i + 1;
        }
        v
    }
}

/// Whether the listed block positions include row `i`, column `j`.
fn contains_block(blocks: &Vec<HexPosn>, i: isize, j: isize) -> (r: bool)
    ensures
        r == blocks@.map_values(|p: HexPosn| p@).contains((i as int, j as int)),
{
    let ghost mapped = blocks@.map_values(|p: HexPosn| p@);
    let mut t: usize = 0;
    while t < blocks.len()
        invariant
            t <= blocks@.len(),
            mapped == blocks@.map_values(|p: HexPosn| p@),
            forall|u: int| 0 <= u < t ==> (#[trigger] blocks@[u])@ != (i as int, j as int),
        decreases blocks@.len() - t,
    {
        let b = blocks[t];
        if b.r == i && b.c == j {
            proof {
                assert(mapped[t as int] == (i as int, j as int));
            }
            return true;
        }
        t = t + 1;
    }
    proof {
        if mapped.contains((i as int, j as int)) {
            let u = choose|u: int| 0 <= u < mapped.len() && mapped[u] == (i as int, j as int);
            assert(blocks@[u]@ == (i as int, j as int));
        }
    }
    false
}

} // verus!
