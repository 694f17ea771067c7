//! The 81-cell value store: cell access, per-row / per-column / per-block
//! value queries, legal-value computation, and the open-cell listing.
//!
//! A grid is modeled as a flat `Seq<u8>` of length 81 in row-major order;
//! 0 marks an empty cell and 1..=9 are placed digits. The empty marker is
//! outside the candidate universe 1..=9 by construction, so it can never
//! rule out a legitimate candidate.

use vstd::arithmetic::div_mod::{lemma_fundamental_div_mod, lemma_mod_bound};
use vstd::prelude::*;

verus! {

/// Block-coordinate arithmetic: for `0 <= r < 9` the block index `r / 3`
/// lies in 0..3 and `r` splits as `3 * (r / 3) + r % 3`.
pub proof fn lemma_block_coord(r: int)
    requires
        0 <= r < 9,
    ensures
        0 <= r / 3 < 3,
        r == 3 * (r / 3) + r % 3,
        0 <= r % 3 < 3,
{
    lemma_fundamental_div_mod(r, 3);
    lemma_mod_bound(r, 3);
}

/// Flat-index arithmetic: a cell index `0 <= i < 81` splits into the row
/// `i / 9` and column `i % 9` it addresses.
pub proof fn lemma_flat_coords(i: int)
    requires
        0 <= i < 81,
    ensures
        0 <= i / 9 < 9,
        0 <= i % 9 < 9,
        9 * (i / 9) + i % 9 == i,
{
    lemma_fundamental_div_mod(i, 9);
    lemma_mod_bound(i, 9);
}

/// Well-formed grid data: 81 cells, each empty (0) or a digit 1..=9.
pub open spec fn wf_grid(g: Seq<u8>) -> bool {
    g.len() == 81 && (forall|i: int| 0 <= i < 81 ==> g[i] <= 9)
}

/// The cell in row `r`, column `c` (row-major layout).
pub open spec fn cell(g: Seq<u8>, r: int, c: int) -> u8 {
    g[r * 9 + c]
}

/// Every cell holds a digit.
pub open spec fn complete(g: Seq<u8>) -> bool {
    forall|r: int, c: int| 0 <= r < 9 && 0 <= c < 9 ==> #[trigger] cell(g, r, c) != 0
}

/// `s` keeps every digit already placed in `g` (it may fill empty cells).
pub open spec fn extends(g: Seq<u8>, s: Seq<u8>) -> bool {
    forall|r: int, c: int|
        0 <= r < 9 && 0 <= c < 9 && #[trigger] cell(g, r, c) != 0 ==> cell(s, r, c) == cell(
            g,
            r,
            c,
        )
}

/// Digit `v` appears somewhere in row `r`.
pub open spec fn in_row(g: Seq<u8>, r: int, v: u8) -> bool {
    exists|c: int| 0 <= c < 9 && cell(g, r, c) == v
}

/// Digit `v` appears somewhere in column `c`.
pub open spec fn in_col(g: Seq<u8>, c: int, v: u8) -> bool {
    exists|r: int| 0 <= r < 9 && cell(g, r, c) == v
}

/// Digit `v` appears somewhere in the 3x3 block with block coordinates
/// `(br, bc)`, each in 0..3.
pub open spec fn in_blk(g: Seq<u8>, br: int, bc: int, v: u8) -> bool {
    exists|i: int, j: int| 0 <= i < 3 && 0 <= j < 3 && #[trigger] cell(g, 3 * br + i, 3 * bc + j)
        == v
}

/// `v` is a legal value for the open cell `(r, c)`: a digit 1..=9 that
/// does not already appear in the cell's row, column, or block.
pub open spec fn legal_at(g: Seq<u8>, r: int, c: int, v: u8) -> bool {
    &&& 1 <= v <= 9
    &&& !in_row(g, r, v)
    &&& !in_col(g, c, v)
    &&& !in_blk(g, r / 3, c / 3, v)
}

/// Two positions constrain each other: same row, same column, or same block.
pub open spec fn same_unit(r1: int, c1: int, r2: int, c2: int) -> bool {
    r1 == r2 || c1 == c2 || (r1 / 3 == r2 / 3 && c1 / 3 == c2 / 3)
}

/// The pair of positions does not witness a rule violation: if they are
/// distinct, share a unit, and the first is filled, their values differ.
pub open spec fn pair_ok(g: Seq<u8>, r1: int, c1: int, r2: int, c2: int) -> bool {
    (!(r1 == r2 && c1 == c2) && same_unit(r1, c1, r2, c2) && cell(g, r1, c1) != 0) ==> cell(
        g,
        r1,
        c1,
    ) != cell(g, r2, c2)
}

/// The sudoku legality invariant on placed digits: no two cells of one
/// row, column, or block hold the same digit (empty cells excepted).
pub open spec fn legal_grid(g: Seq<u8>) -> bool {
    forall|r1: int, c1: int, r2: int, c2: int|
        0 <= r1 < 9 && 0 <= c1 < 9 && 0 <= r2 < 9 && 0 <= c2 < 9 ==> #[trigger] pair_ok(
            g,
            r1,
            c1,
            r2,
            c2,
        )
}

/// A solved grid: well-formed, complete, and legal.
pub open spec fn solution(s: Seq<u8>) -> bool {
    wf_grid(s) && complete(s) && legal_grid(s)
}

/// A set of cell values 0..=9, stored as a bitmask: bit `v` is set exactly
/// when value `v` is a member. This replaces an ordered-set container for
/// the small bounded universe of cell values.
#[derive(Clone, Copy, Debug, PartialEq, Eq, Structural)]
pub struct ValueSet {
    bits: u16,
}

impl ValueSet {
    /// Membership, as seen by contracts.
    pub closed spec fn has(self, v: u8) -> bool {
        v <= 9 && (self.bits >> (v as u16)) & 1u16 == 1u16
    }

    /// The set with no members.
    pub fn empty() -> (s: ValueSet)
        ensures
            forall|v: u8| !s.has(v),
    {
        let s = ValueSet { bits: 0u16 };
        proof {
            assert forall|v: u8| !s.has(v) by {
                assert((0u16 >> (v as u16)) & 1u16 == 0u16) by (bit_vector);
            }
        }
        s
    }

    /// Adds `v` to the set.
    pub fn insert(&mut self, v: u8)
        requires
            v <= 9,
        ensures
            forall|w: u8| final(self).has(w) <==> (old(self).has(w) || w == v),
    {
        let b0: u16 = self.bits;
        self.bits = self.bits | (1u16 << (v as u16));
        proof {
            let vv = v as u16;
            assert forall|w: u8| self.has(w) <==> (old(self).has(w) || w == v) by {
                let ww = w as u16;
                if w <= 9 {
                    assert((((b0 | (1u16 << vv)) >> ww) & 1u16 == 1u16) <==> (((b0 >> ww) & 1u16
                        == 1u16) || ww == vv)) by (bit_vector)
                        requires
                            vv <= 9u16,
                            ww <= 9u16,
                    ;
                }
            }
        }
    }

    /// Membership test.
    pub fn contains(&self, v: u8) -> (b: bool)
        ensures
            b == self.has(v),
    {
        v <= 9 && (self.bits >> (v as u16)) & 1u16 == 1u16
    }

    /// The members in ascending order, each exactly once.
    pub fn to_vec(&self) -> (r: Vec<u8>)
        ensures
            forall|k: int| 0 <= k < r@.len() ==> self.has(#[trigger] r@[k]),
            forall|v: u8| self.has(v) ==> exists|k: int| 0 <= k < r@.len() && r@[k] == v,
            forall|k1: int, k2: int| 0 <= k1 < k2 < r@.len() ==> r@[k1] < r@[k2],
    {
        let mut r: Vec<u8> = Vec::new();
        let mut v: u8 = 0;
        while v < 10
            invariant
                v <= 10,
                forall|k: int| 0 <= k < r@.len() ==> self.has(#[trigger] r@[k]) && r@[k] < v,
                forall|w: u8| w < v && self.has(w) ==> exists|k: int|
                    0 <= k < r@.len() && r@[k] == w,
                forall|k1: int, k2: int| 0 <= k1 < k2 < r@.len() ==> r@[k1] < r@[k2],
            decreases 10 - v,
        {
            let ghost r0 = r@;
            if self.contains(v) {
                r.push(v);
            }
            proof {
                assert forall|w: u8| w < v + 1 && self.has(w) implies exists|k: int|
                    0 <= k < r@.len() && r@[k] == w by {
                    if w < v {
                        let k = choose|k: int| 0 <= k < r0.len() && r0[k] == w;
                        assert(r@[k] == w);
                    } else {
                        assert(r@[r@.len() - 1] == v);
                    }
                }
            }
            v = v + 1;
        }
        r
    }
}

/// A character a puzzle row string may hold: a blank for an empty cell,
/// or an ASCII digit.
pub open spec fn valid_cell_char(ch: char) -> bool {
    ch == ' ' || (48 <= ch as u32 <= 57)
}

/// The cell value a row-string character denotes: 0 for a blank,
/// otherwise the digit's value.
pub open spec fn char_cell(ch: char) -> u8 {
    if ch == ' ' {
        0u8
    } else {
        ((ch as u32) - 48) as u8
    }
}

/// The cells of the classic 30-given example puzzle, row-major.
pub open spec fn example_cells() -> Seq<u8> {
    seq![
        5u8, 3, 0, 0, 7, 0, 0, 0, 0,
        6, 0, 0, 1, 9, 5, 0, 0, 0,
        0, 9, 8, 0, 0, 0, 0, 6, 0,
        8, 0, 0, 0, 6, 0, 0, 0, 3,
        4, 0, 0, 8, 0, 3, 0, 0, 1,
        7, 0, 0, 0, 2, 0, 0, 0, 6,
        0, 6, 0, 0, 0, 0, 2, 8, 0,
        0, 0, 0, 4, 1, 9, 0, 0, 5,
        0, 0, 0, 0, 8, 0, 0, 7, 9,
    ]
}

/// The cells of the harder example puzzle, row-major.
pub open spec fn hard_example_cells() -> Seq<u8> {
    seq![
        6u8, 0, 0, 0, 0, 8, 9, 4, 0,
        9, 0, 0, 0, 0, 6, 1, 0, 0,
        0, 7, 0, 0, 4, 0, 0, 0, 0,
        2, 0, 0, 6, 1, 0, 0, 0, 0,
        0, 0, 0, 0, 0, 0, 2, 0, 0,
        0, 8, 9, 0, 0, 2, 0, 0, 0,
        0, 0, 0, 0, 6, 0, 0, 0, 5,
        0, 0, 0, 0, 0, 0, 0, 3, 0,
        8, 0, 0, 0, 0, 1, 6, 0, 0,
    ]
}

/// The current state of a 9x9 puzzle: 81 cells, each empty or a digit,
/// addressed by (row, column) with row, column in 0..9.
pub struct SudokuPuzzle {
    data: Vec<u8>,
}

impl View for SudokuPuzzle {
    type V = Seq<u8>;

    closed spec fn view(&self) -> Seq<u8> {
        self.data@
    }
}

impl Clone for SudokuPuzzle {
    /// An independent copy holding the same cells.
    fn clone(&self) -> (res: Self)
        ensures
            res@ == self@,
    {
        let mut d: Vec<u8> = Vec::new();
        let mut i: usize = 0;
        while i < self.data.len()
            invariant
                i <= self.data.len(),
                d@ == self.data@.subrange(0, i as int),
            decreases self.data.len() - i,
        {
            d.push(self.data[i]);
            proof {
                assert(d@ =~= self.data@.subrange(0, i + 1 as int));
            }
            i = i + 1;
        }
        proof {
            assert(d@ =~= self.data@);
        }
        SudokuPuzzle { data: d }
    }
}

impl SudokuPuzzle {
    /// The structural invariant: 81 cells, each 0 (empty) or 1..=9.
    pub open spec fn wf(&self) -> bool {
        wf_grid(self@)
    }

    /// Builds a puzzle from row strings: a blank denotes an empty cell and
    /// a digit character a given. Short or missing rows leave the
    /// remaining cells empty.
    pub fn new(rows: Vec<&str>) -> (p: SudokuPuzzle)
        requires
            rows@.len() <= 9,
            forall|r: int| 0 <= r < rows@.len() ==> (#[trigger] rows@[r]@).len() <= 9,
            forall|r: int, c: int|
                0 <= r < rows@.len() && 0 <= c < rows@[r]@.len() ==> valid_cell_char(
                    #[trigger] rows@[r]@[c],
                ),
        ensures
            p.wf(),
            forall|r: int, c: int|
                0 <= r < 9 && 0 <= c < 9 ==> #[trigger] cell(p@, r, c) == (if r < rows@.len() && c
                    < rows@[r]@.len() {
                    char_cell(rows@[r]@[c])
                } else {
                    0u8
                }),
    {
        let mut data: Vec<u8> = Vec::new();
        let mut i: usize = 0;
        while i < 81
            invariant
                i <= 81,
                data@.len() == i,
                forall|k: int| 0 <= k < i ==> data@[k] == 0u8,
            decreases 81 - i,
        {
            data.push(0u8);
            i = i + 1;
        }
        let mut r: usize = 0;
        while r < rows.len()
            invariant
                rows@.len() <= 9,
                forall|a: int| 0 <= a < rows@.len() ==> (#[trigger] rows@[a]@).len() <= 9,
                forall|a: int, b: int|
                    0 <= a < rows@.len() && 0 <= b < rows@[a]@.len() ==> valid_cell_char(
                        #[trigger] rows@[a]@[b],
                    ),
                r <= rows@.len(),
                data@.len() == 81,
                forall|k: int| 0 <= k < 81 ==> data@[k] <= 9,
                forall|a: int, b: int|
                    0 <= a < 9 && 0 <= b < 9 ==> #[trigger] data@[a * 9 + b] == (if a < r && b
                        < rows@[a]@.len() {
                        char_cell(rows@[a]@[b])
                    } else {
                        0u8
                    }),
            decreases rows@.len() - r,
        {
            let line = rows[r];
            let n = line.unicode_len();
            let mut c: usize = 0;
            while c < n
                invariant
                    rows@.len() <= 9,
                    forall|a: int| 0 <= a < rows@.len() ==> (#[trigger] rows@[a]@).len() <= 9,
                    forall|a: int, b: int|
                        0 <= a < rows@.len() && 0 <= b < rows@[a]@.len() ==> valid_cell_char(
                            #[trigger] rows@[a]@[b],
                        ),
                    r < rows@.len(),
                    line == rows@[r as int],
                    n == line@.len(),
                    c <= n,
                    data@.len() == 81,
                    forall|k: int| 0 <= k < 81 ==> data@[k] <= 9,
                    forall|a: int, b: int|
                        0 <= a < 9 && 0 <= b < 9 ==> #[trigger] data@[a * 9 + b] == (if (a < r && b
                            < rows@[a]@.len()) || (a == r && b < c) {
                            char_cell(rows@[a]@[b])
                        } else {
                            0u8
                        }),
                decreases n - c,
            {
                let ch = line.get_char(c);
                let v: u8 = if ch == ' ' {
                    0u8
                } else {
                    ((ch as u32) - 48) as u8
                };
                let ghost data0 = data@;
                data.set(r * 9 + c, v);
                proof {
                    assert forall|a: int, b: int| 0 <= a < 9 && 0 <= b < 9 implies #[trigger] data@[a
                        * 9 + b] == (if (a < r && b < rows@[a]@.len()) || (a == r && b < c + 1) {
                        char_cell(rows@[a]@[b])
                    } else {
                        0u8
                    }) by {
                        if a == r && b == c {
                            assert(data@[a * 9 + b] == v);
                        } else {
                            assert(a * 9 + b != r * 9 + c);
                            assert(data@[a * 9 + b] == data0[a * 9 + b]);
                        }
                    }
                }
                c = c + 1;
            }
            r = r + 1;
        }
        let p = SudokuPuzzle { data };
        proof {
            assert forall|a: int, b: int| 0 <= a < 9 && 0 <= b < 9 implies #[trigger] cell(p@, a, b)
                == (if a < rows@.len() && b < rows@[a]@.len() {
                char_cell(rows@[a]@[b])
            } else {
                0u8
            }) by {
                assert(cell(p@, a, b) == p@[a * 9 + b]);
            }
        }
        p
    }

    /// A classic 30-given puzzle, used as a ready-made example.
    #[verifier::rlimit(50)]
    pub fn example() -> (p: SudokuPuzzle)
        ensures
            p.wf(),
            p@ == example_cells(),
    {
        proof {
            reveal_strlit("53  7    ");
            reveal_strlit("6  195   ");
            reveal_strlit(" 98    6 ");
            reveal_strlit("8   6   3");
            reveal_strlit("4  8 3  1");
            reveal_strlit("7   2   6");
            reveal_strlit(" 6    28 ");
            reveal_strlit("   419  5");
            reveal_strlit("    8  79");
        }
        let p = SudokuPuzzle::new(
            vec![
                "53  7    ",
                "6  195   ",
                " 98    6 ",
                "8   6   3",
                "4  8 3  1",
                "7   2   6",
                " 6    28 ",
                "   419  5",
                "    8  79",
            ],
        );
        proof {
            assert forall|i: int| 0 <= i < 81 implies p@[i] == example_cells()[i] by {
                lemma_flat_coords(i);
                assert(cell(p@, i / 9, i % 9) == p@[i]);
            }
            assert(p@ =~= example_cells());
        }
        p
    }

    /// A harder puzzle with fewer givens, used as a ready-made example.
    #[verifier::rlimit(50)]
    pub fn hard_example() -> (p: SudokuPuzzle)
        ensures
            p.wf(),
            p@ == hard_example_cells(),
    {
        proof {
            reveal_strlit("6    894 ");
            reveal_strlit("9    61  ");
            reveal_strlit(" 7  4    ");
            reveal_strlit("2  61    ");
            reveal_strlit("      2  ");
            reveal_strlit(" 89  2   ");
            reveal_strlit("    6   5");
            reveal_strlit("       3 ");
            reveal_strlit("8    16  ");
        }
        let p = SudokuPuzzle::new(
            vec![
                "6    894 ",
                "9    61  ",
                " 7  4    ",
                "2  61    ",
                "      2  ",
                " 89  2   ",
                "    6   5",
                "       3 ",
                "8    16  ",
            ],
        );
        proof {
            assert forall|i: int| 0 <= i < 81 implies p@[i] == hard_example_cells()[i] by {
                lemma_flat_coords(i);
                assert(cell(p@, i / 9, i % 9) == p@[i]);
            }
            assert(p@ =~= hard_example_cells());
        }
        p
    }

    /// Returns the digit at `(row, col)`, or `None` for an empty cell.
    pub fn get(&self, row: usize, col: usize) -> (r: Option<u8>)
        requires
            self.wf(),
            row < 9,
            col < 9,
        ensures
            cell(self@, row as int, col as int) == 0 ==> r is None,
            cell(self@, row as int, col as int) != 0 ==> r == Some(
                cell(self@, row as int, col as int),
            ),
    {
        let v = self.data[row * 9 + col];
        if v == 0 {
            None
        } else {
            Some(v)
        }
    }

    /// Overwrites the cell at `(row, col)`. No legality check is made:
    /// the caller is responsible for only placing values it wants there.
    pub fn set(&mut self, row: usize, col: usize, v: u8)
        requires
            old(self).wf(),
            row < 9,
            col < 9,
            v <= 9,
        ensures
            final(self)@ == old(self)@.update(row * 9 + col, v),
            final(self).wf(),
    {
        self.data.set(row * 9 + col, v);
    }

    /// The set of values (0 included) appearing in row `r`.
    pub fn row(&self, r: usize) -> (s: ValueSet)
        requires
            self.wf(),
            r < 9,
        ensures
            forall|v: u8| s.has(v) <==> in_row(self@, r as int, v),
    {
        let mut s = ValueSet::empty();
        let mut c: usize = 0;
        while c < 9
            invariant
                self.wf(),
                r < 9,
                c <= 9,
                forall|v: u8|
                    s.has(v) <==> exists|c2: int|
                        0 <= c2 < c && #[trigger] cell(self@, r as int, c2) == v,
            decreases 9 - c,
        {
            s.insert(self.data[r * 9 + c]);
            proof {
                assert(cell(self@, r as int, c as int) == self@[r * 9 + c]);
            }
            c = c + 1;
        }
        s
    }

    /// The set of values (0 included) appearing in column `c`.
    pub fn col(&self, c: usize) -> (s: ValueSet)
        requires
            self.wf(),
            c < 9,
        ensures
            forall|v: u8| s.has(v) <==> in_col(self@, c as int, v),
    {
        let mut s = ValueSet::empty();
        let mut r: usize = 0;
        while r < 9
            invariant
                self.wf(),
                c < 9,
                r <= 9,
                forall|v: u8|
                    s.has(v) <==> exists|r2: int|
                        0 <= r2 < r && #[trigger] cell(self@, r2, c as int) == v,
            decreases 9 - r,
        {
            s.insert(self.data[r * 9 + c]);
            proof {
                assert(cell(self@, r as int, c as int) == self@[r * 9 + c]);
            }
            r = r + 1;
        }
        s
    }

    /// The set of values (0 included) appearing in the 3x3 block with
    /// block coordinates `(br, bc)`, each in 0..3.
    pub fn blk(&self, br: usize, bc: usize) -> (s: ValueSet)
        requires
            self.wf(),
            br < 3,
            bc < 3,
        ensures
            forall|v: u8| s.has(v) <==> in_blk(self@, br as int, bc as int, v),
    {
        let mut s = ValueSet::empty();
        let mut i: usize = 0;
        while i < 3
            invariant
                self.wf(),
                br < 3,
                bc < 3,
                i <= 3,
                forall|v: u8|
                    s.has(v) <==> exists|i2: int, j2: int|
                        0 <= i2 < i && 0 <= j2 < 3 && #[trigger] cell(
                            self@,
                            3 * (br as int) + i2,
                            3 * (bc as int) + j2,
                        ) == v,
            decreases 3 - i,
        {
            let mut j: usize = 0;
            while j < 3
                invariant
                    self.wf(),
                    br < 3,
                    bc < 3,
                    i < 3,
                    j <= 3,
                    forall|v: u8|
                        s.has(v) <==> exists|i2: int, j2: int|
                            0 <= i2 < 3 && 0 <= j2 < 3 && (i2 < i || (i2 == i && j2 < j))
                                && #[trigger] cell(
                                self@,
                                3 * (br as int) + i2,
                                3 * (bc as int) + j2,
                            ) == v,
                decreases 3 - j,
            {
                s.insert(self.data[(br * 3 + i) * 9 + (bc * 3 + j)]);
                proof {
                    assert(cell(self@, 3 * (br as int) + i, 3 * (bc as int) + j) == self@[(br * 3
                        + i) * 9 + (bc * 3 + j)]);
                }
                j = j + 1;
            }
            i = i + 1;
        }
        s
    }

    /// The legal values for the open cell `(r, c)`: {1..9} minus the
    /// values used in its row, its column, and its block.
    pub fn permitted_values(&self, r: usize, c: usize) -> (s: ValueSet)
        requires
            self.wf(),
            r < 9,
            c < 9,
        ensures
            forall|v: u8| s.has(v) <==> legal_at(self@, r as int, c as int, v),
    {
        let row = self.row(r);
        let col = self.col(c);
        let blk = self.blk(r / 3, c / 3);
        let mut s = ValueSet::empty();
        let mut v: u8 = 1;
        while v <= 9
            invariant
                1 <= v <= 10,
                forall|w: u8| row.has(w) <==> in_row(self@, r as int, w),
                forall|w: u8| col.has(w) <==> in_col(self@, c as int, w),
                forall|w: u8| blk.has(w) <==> in_blk(self@, r as int / 3, c as int / 3, w),
                forall|w: u8| s.has(w) <==> (w < v && legal_at(self@, r as int, c as int, w)),
            decreases 10 - v,
        {
            if !row.contains(v) && !col.contains(v) && !blk.contains(v) {
                s.insert(v);
            }
            v = v + 1;
        }
        s
    }

    /// The positions of all empty cells, in row-major order.
    pub fn holes(&self) -> (h: Vec<(usize, usize)>)
        requires
            self.wf(),
        ensures
            forall|k: int|
                0 <= k < h@.len() ==> (#[trigger] h@[k]).0 < 9 && h@[k].1 < 9 && cell(
                    self@,
                    h@[k].0 as int,
                    h@[k].1 as int,
                ) == 0,
            forall|r: int, c: int|
                0 <= r < 9 && 0 <= c < 9 && #[trigger] cell(self@, r, c) == 0 ==> exists|k: int|
                    0 <= k < h@.len() && h@[k] == (r as usize, c as usize),
            forall|k1: int, k2: int|
                0 <= k1 < k2 < h@.len() ==> (#[trigger] h@[k1]).0 * 9 + h@[k1].1 < (
                #[trigger] h@[k2]).0 * 9 + h@[k2].1,
    {
        let mut h: Vec<(usize, usize)> = Vec::new();
        let mut r: usize = 0;
        while r < 9
            invariant
                self.wf(),
                r <= 9,
                forall|k: int|
                    0 <= k < h@.len() ==> (#[trigger] h@[k]).0 < r && h@[k].1 < 9 && cell(
                        self@,
                        h@[k].0 as int,
                        h@[k].1 as int,
                    ) == 0,
                forall|a: int, b: int|
                    0 <= a < r && 0 <= b < 9 && #[trigger] cell(self@, a, b) == 0 ==> exists|k: int|
                        0 <= k < h@.len() && h@[k] == (a as usize, b as usize),
                forall|k1: int, k2: int|
                    0 <= k1 < k2 < h@.len() ==> (#[trigger] h@[k1]).0 * 9 + h@[k1].1 < (
                    #[trigger] h@[k2]).0 * 9 + h@[k2].1,
            decreases 9 - r,
        {
            let mut c: usize = 0;
            while c < 9
                invariant
                    self.wf(),
                    r < 9,
                    c <= 9,
                    forall|k: int|
                        0 <= k < h@.len() ==> ((#[trigger] h@[k]).0 < r || (h@[k].0 == r && h@[k].1
                            < c)) && h@[k].0 < 9 && h@[k].1 < 9 && cell(
                            self@,
                            h@[k].0 as int,
                            h@[k].1 as int,
                        ) == 0,
                    forall|a: int, b: int|
                        0 <= b < 9 && (0 <= a < r || (a == r && 0 <= b < c)) && #[trigger] cell(
                            self@,
                            a,
                            b,
                        ) == 0 ==> exists|k: int|
                            0 <= k < h@.len() && h@[k] == (a as usize, b as usize),
                    forall|k1: int, k2: int|
                        0 <= k1 < k2 < h@.len() ==> (#[trigger] h@[k1]).0 * 9 + h@[k1].1 < (
                        #[trigger] h@[k2]).0 * 9 + h@[k2].1,
                decreases 9 - c,
            {
                let ghost h0 = h@;
                if self.data[r * 9 + c] == 0 {
                    proof {
                        assert(cell(self@, r as int, c as int) == self@[r * 9 + c]);
                    }
                    h.push((r, c));
                }
                proof {
                    assert forall|a: int, b: int|
                        0 <= b < 9 && (0 <= a < r || (a == r && 0 <= b < c + 1)) && #[trigger] cell(
                            self@,
                            a,
                            b,
                        ) == 0 implies exists|k: int|
                        0 <= k < h@.len() && h@[k] == (a as usize, b as usize) by {
                        if a < r || (a == r && b < c) {
                            let k = choose|k: int|
                                0 <= k < h0.len() && h0[k] == (a as usize, b as usize);
                            assert(h@[k] == (a as usize, b as usize));
                        } else {
                            assert(cell(self@, r as int, c as int) == self@[r * 9 + c]);
                            assert(h@[h@.len() - 1] == (a as usize, b as usize));
                        }
                    }
                }
                c = c + 1;
            }
            r = r + 1;
        }
        h
    }

    /// Checks the legality invariant: no two cells of one row, column, or
    /// block hold the same digit.
    pub fn is_legal(&self) -> (b: bool)
        requires
            self.wf(),
        ensures
            b == legal_grid(self@),
    {
        let mut r1: usize = 0;
        while r1 < 9
            invariant
                self.wf(),
                r1 <= 9,
                forall|a: int, b: int, x: int, y: int|
                    0 <= a < r1 && 0 <= b < 9 && 0 <= x < 9 && 0 <= y < 9 ==> #[trigger] pair_ok(
                        self@,
                        a,
                        b,
                        x,
                        y,
                    ),
            decreases 9 - r1,
        {
            let mut c1: usize = 0;
            while c1 < 9
                invariant
                    self.wf(),
                    r1 < 9,
                    c1 <= 9,
                    forall|a: int, b: int, x: int, y: int|
                        0 <= a < r1 && 0 <= b < 9 && 0 <= x < 9 && 0 <= y < 9
                            ==> #[trigger] pair_ok(self@, a, b, x, y),
                    forall|b: int, x: int, y: int|
                        0 <= b < c1 && 0 <= x < 9 && 0 <= y < 9 ==> #[trigger] pair_ok(
                            self@,
                            r1 as int,
                            b,
                            x,
                            y,
                        ),
                decreases 9 - c1,
            {
                let v1 = self.data[r1 * 9 + c1];
                proof {
                    assert(cell(self@, r1 as int, c1 as int) == self@[r1 * 9 + c1]);
                }
                if v1 != 0 {
                    let mut r2: usize = 0;
                    while r2 < 9
                        invariant
                            self.wf(),
                            r1 < 9,
                            c1 < 9,
                            r2 <= 9,
                            v1 == cell(self@, r1 as int, c1 as int),
                            v1 != 0,
                            forall|x: int, y: int|
                                0 <= x < r2 && 0 <= y < 9 ==> #[trigger] pair_ok(
                                    self@,
                                    r1 as int,
                                    c1 as int,
                                    x,
                                    y,
                                ),
                        decreases 9 - r2,
                    {
                        let mut c2: usize = 0;
                        while c2 < 9
                            invariant
                                self.wf(),
                                r1 < 9,
                                c1 < 9,
                                r2 < 9,
                                c2 <= 9,
                                v1 == cell(self@, r1 as int, c1 as int),
                                v1 != 0,
                                forall|x: int, y: int|
                                    0 <= x < r2 && 0 <= y < 9 ==> #[trigger] pair_ok(
                                        self@,
                                        r1 as int,
                                        c1 as int,
                                        x,
                                        y,
                                    ),
                                forall|y: int|
                                    0 <= y < c2 ==> #[trigger] pair_ok(
                                        self@,
                                        r1 as int,
                                        c1 as int,
                                        r2 as int,
                                        y,
                                    ),
                            decreases 9 - c2,
                        {
                            if !(r1 == r2 && c1 == c2) && (r1 == r2 || c1 == c2 || (r1 / 3 == r2 / 3
                                && c1 / 3 == c2 / 3)) {
                                let v2 = self.data[r2 * 9 + c2];
                                proof {
                                    assert(cell(self@, r2 as int, c2 as int) == self@[r2 * 9 + c2]);
                                }
                                if v1 == v2 {
                                    proof {
                                        assert(!pair_ok(
                                            self@,
                                            r1 as int,
                                            c1 as int,
                                            r2 as int,
                                            c2 as int,
                                        ));
                                    }
                                    return false;
                                }
                            }
                            proof {
                                assert(pair_ok(self@, r1 as int, c1 as int, r2 as int, c2 as int));
                            }
                            c2 = c2 + 1;
                        }
                        r2 = r2 + 1;
                    }
                } else {
                    proof {
                        assert forall|x: int, y: int| 0 <= x < 9 && 0 <= y < 9 implies #[trigger] pair_ok(
                            self@,
                            r1 as int,
                            c1 as int,
                            x,
                            y,
                        ) by {}
                    }
                }
                c1 = c1 + 1;
            }
            r1 = r1 + 1;
        }
        true
    }
}

} // verus!
