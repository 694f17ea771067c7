//! The recursive search: constraint propagation of forced cells plus
//! minimum-remaining-values backtracking.
//!
//! `Solver::solve` carries an exact contract: a returned grid is a legal
//! completion of the starting grid that keeps every given, and a `None`
//! answer proves that no legal completion exists.

use crate::grid::{
    cell, complete, extends, in_blk, in_col, in_row, legal_at, legal_grid, lemma_block_coord,
    lemma_flat_coords, pair_ok, same_unit, solution, wf_grid, SudokuPuzzle,
};
use vstd::arithmetic::div_mod::lemma_fundamental_div_mod_converse_div;
use vstd::prelude::*;

verus! {

/// The number of empty cells among the first `n` entries of the grid.
pub open spec fn zeros_below(g: Seq<u8>, n: int) -> int
    decreases n,
{
    if n <= 0 {
        0
    } else {
        zeros_below(g, n - 1) + if g[n - 1] == 0 {
            1int
        } else {
            0int
        }
    }
}

/// The number of empty cells of the grid: the search's termination measure.
pub open spec fn num_open(g: Seq<u8>) -> int {
    zeros_below(g, 81)
}

proof fn lemma_zeros_nonneg(g: Seq<u8>, n: int)
    ensures
        zeros_below(g, n) >= 0,
    decreases n,
{
    if n > 0 {
        lemma_zeros_nonneg(g, n - 1);
    }
}

proof fn lemma_zeros_update(g: Seq<u8>, i: int, v: u8, n: int)
    requires
        0 <= i < g.len(),
        g[i] == 0,
        v != 0,
        n <= g.len(),
    ensures
        zeros_below(g.update(i, v), n) == zeros_below(g, n) - (if i < n {
            1int
        } else {
            0int
        }),
    decreases n,
{
    if n > 0 {
        lemma_zeros_update(g, i, v, n - 1);
    }
}

/// Whatever digit a solution puts into an open cell of `g` is one of that
/// cell's legal values in `g`: the digit itself is what the solution holds
/// there, and any clash with a placed digit of `g` would survive into the
/// solution and break its legality.
pub proof fn lemma_solution_uses_legal_value(g: Seq<u8>, s: Seq<u8>, r: int, c: int)
    requires
        wf_grid(g),
        solution(s),
        extends(g, s),
        0 <= r < 9,
        0 <= c < 9,
        cell(g, r, c) == 0,
    ensures
        legal_at(g, r, c, cell(s, r, c)),
{
    let v = cell(s, r, c);
    assert(cell(s, r, c) != 0);
    assert(v == s[r * 9 + c] && v <= 9);
    assert(!in_row(g, r, v)) by {
        if in_row(g, r, v) {
            let c2 = choose|c2: int| 0 <= c2 < 9 && cell(g, r, c2) == v;
            assert(cell(s, r, c2) == v);
            assert(pair_ok(s, r, c, r, c2));
            assert(false);
        }
    }
    assert(!in_col(g, c, v)) by {
        if in_col(g, c, v) {
            let r2 = choose|r2: int| 0 <= r2 < 9 && cell(g, r2, c) == v;
            assert(cell(s, r2, c) == v);
            assert(pair_ok(s, r, c, r2, c));
            assert(false);
        }
    }
    assert(!in_blk(g, r / 3, c / 3, v)) by {
        if in_blk(g, r / 3, c / 3, v) {
            let (i, j): (int, int) = choose|i: int, j: int|
                0 <= i < 3 && 0 <= j < 3 && #[trigger] cell(g, 3 * (r / 3) + i, 3 * (c / 3) + j)
                    == v;
            lemma_block_coord(r);
            lemma_block_coord(c);
            let r2 = 3 * (r / 3) + i;
            let c2 = 3 * (c / 3) + j;
            assert(0 <= r2 < 9 && 0 <= c2 < 9);
            lemma_fundamental_div_mod_converse_div(r2, 3, r / 3, i);
            lemma_fundamental_div_mod_converse_div(c2, 3, c / 3, j);
            assert(same_unit(r, c, r2, c2));
            assert(cell(s, r2, c2) == v);
            assert(pair_ok(s, r, c, r2, c2));
            assert(false);
        }
    }
}

/// A complete grid's only extension is itself.
proof fn lemma_complete_extension_is_identity(g: Seq<u8>, s: Seq<u8>)
    requires
        wf_grid(g),
        complete(g),
        wf_grid(s),
        extends(g, s),
    ensures
        s == g,
{
    assert forall|i: int| 0 <= i < 81 implies s[i] == g[i] by {
        lemma_flat_coords(i);
        let r = i / 9;
        let c = i % 9;
        assert(cell(g, r, c) != 0);
        assert(cell(s, r, c) == cell(g, r, c));
    }
    assert(s =~= g);
}

/// An entry of the forced list: an open cell of `g` whose only legal
/// value is the recorded one.
spec fn forced_ok(g: Seq<u8>, f: (usize, usize, u8)) -> bool {
    &&& f.0 < 9 && f.1 < 9
    &&& cell(g, f.0 as int, f.1 as int) == 0
    &&& legal_at(g, f.0 as int, f.1 as int, f.2)
    &&& forall|w: u8| legal_at(g, f.0 as int, f.1 as int, w) ==> w == f.2
}

/// The chosen branch cell: an open cell of `g` whose legal values are
/// exactly the entries of `cand`.
spec fn branch_ok(g: Seq<u8>, r: int, c: int, cand: Seq<u8>) -> bool {
    &&& 0 <= r < 9 && 0 <= c < 9
    &&& cell(g, r, c) == 0
    &&& forall|k: int| 0 <= k < cand.len() ==> legal_at(g, r, c, #[trigger] cand[k])
    &&& forall|v: u8| legal_at(g, r, c, v) ==> exists|k: int| 0 <= k < cand.len() && cand[k] == v
}

spec fn hpos(h: (usize, usize)) -> int {
    h.0 * 9 + h.1
}

spec fn fpos(f: (usize, usize, u8)) -> int {
    f.0 * 9 + f.1
}

/// A stateless-per-invocation solver over a starting grid.
pub struct Solver {
    puzzle: SudokuPuzzle,
}

impl View for Solver {
    type V = Seq<u8>;

    closed spec fn view(&self) -> Seq<u8> {
        self.puzzle@
    }
}

impl Solver {
    /// Wraps the starting grid.
    pub fn new(puzzle: SudokuPuzzle) -> (s: Solver)
        ensures
            s@ == puzzle@,
    {
        Solver { puzzle }
    }

    /// Searches depth-first for a completion of the starting grid.
    ///
    /// Each pass lists the open cells and their legal values; a cell with
    /// none prunes the branch, cells with exactly one legal value are all
    /// filled on a clone in one step, and otherwise the open cell with the
    /// fewest legal values is branched on, trying its candidates in
    /// ascending order on fresh clones.
    ///
    /// A `Some` result is a legal completed grid that keeps every given of
    /// the starting grid; a `None` result proves no such grid exists. A
    /// grid that is already complete and legal comes back unchanged.
    #[verifier::loop_isolation(false)]
    pub fn solve(&self) -> (res: Option<SudokuPuzzle>)
        requires
            wf_grid(self@),
        ensures
            res matches Some(s) ==> solution(s@) && extends(self@, s@),
            res is None ==> forall|s: Seq<u8>| solution(s) ==> !extends(self@, s),
            complete(self@) && legal_grid(self@) ==> match res {
                Some(s) => s@ == self@,
                None => false,
            },
        decreases num_open(self@),
    {
        let ghost g: Seq<u8> = self@;
        let holes = self.puzzle.holes();

        if holes.len() == 0 {
            proof {
                assert forall|r: int, c: int| 0 <= r < 9 && 0 <= c < 9 implies #[trigger] cell(
                    g,
                    r,
                    c,
                ) != 0 by {
                    if cell(g, r, c) == 0 {
                        assert(exists|k: int|
                            0 <= k < holes@.len() && holes@[k] == (r as usize, c as usize));
                    }
                }
            }
            if self.puzzle.is_legal() {
                let s = self.puzzle.clone();
                return Some(s);
            } else {
                proof {
                    assert forall|s: Seq<u8>| solution(s) implies !extends(g, s) by {
                        if extends(g, s) {
                            lemma_complete_extension_is_identity(g, s);
                        }
                    }
                }
                return None;
            }
        }
        proof {
            assert(cell(g, holes@[0].0 as int, holes@[0].1 as int) == 0);
            assert(!complete(g));
        }
        let mut forced: Vec<(usize, usize, u8)> = Vec::new();
        let mut best: Option<((usize, usize), Vec<u8>)> = None;
        let mut k: usize = 0;
        while k < holes.len()
            invariant
                k <= holes@.len(),
                forall|j: int| 0 <= j < forced@.len() ==> forced_ok(g, #[trigger] forced@[j]),
                forall|j1: int, j2: int|
                    0 <= j1 < j2 < forced@.len() ==> fpos(forced@[j1]) < fpos(forced@[j2]),
                forall|j: int|
                    0 <= j < forced@.len() ==> k > 0 && fpos(#[trigger] forced@[j]) <= hpos(
                        holes@[k - 1],
                    ),
                best is None ==> forced@.len() == k,
                best matches Some(b) ==> branch_ok(g, b.0.0 as int, b.0.1 as int, b.1@)
                    && b.1@.len() >= 2,
            decreases holes@.len() - k,
        {
            let (hr, hc) = holes[k];
            let vs = self.puzzle.permitted_values(hr, hc);
            let cand = vs.to_vec();
            if cand.len() == 0 {
                proof {
                    assert forall|s: Seq<u8>| solution(s) implies !extends(g, s) by {
                        if extends(g, s) {
                            lemma_solution_uses_legal_value(g, s, hr as int, hc as int);
                            let v = cell(s, hr as int, hc as int);
                            assert(vs.has(v));
                            let kk = choose|kk: int| 0 <= kk < cand@.len() && cand@[kk] == v;
                            assert(false);
                        }
                    }
                }
                return None;
            } else if cand.len() == 1 {
                let v = cand[0];
                proof {
                    assert(vs.has(cand@[0]));
                    assert(forced_ok(g, (hr, hc, v))) by {
                        assert forall|w: u8| legal_at(g, hr as int, hc as int, w) implies w
                            == v by {
                            assert(vs.has(w));
                            let kk = choose|kk: int| 0 <= kk < cand@.len() && cand@[kk] == w;
                            assert(kk == 0);
                        }
                    }
                    if forced@.len() > 0 {
                        assert(fpos(forced@[0]) <= hpos(holes@[k - 1]));
                        assert(hpos(holes@[k - 1]) < hpos(holes@[k as int]));
                    }
                }
                forced.push((hr, hc, v));
            } else {
                let better = match &best {
                    None => true,
                    Some(b) => cand.len() < b.1.len(),
                };
                if better {
                    proof {
                        assert(branch_ok(g, hr as int, hc as int, cand@)) by {
                            assert forall|w: u8| legal_at(g, hr as int, hc as int, w) implies exists|
                                kk: int,
                            | 0 <= kk < cand@.len() && cand@[kk] == w by {
                                assert(vs.has(w));
                            }
                        }
                    }
                    best = Some(((hr, hc), cand));
                }
            }
            k = k + 1;
        }

        if forced.len() > 0 {
            let mut p = self.puzzle.clone();
            let mut j: usize = 0;
            while j < forced.len()
                invariant
                    j <= forced@.len(),
                    p.wf(),
                    extends(g, p@),
                    forall|jj: int|
                        j <= jj < forced@.len() ==> cell(
                            p@,
                            (#[trigger] forced@[jj]).0 as int,
                            forced@[jj].1 as int,
                        ) == 0,
                    num_open(p@) == num_open(g) - j,
                    forall|s: Seq<u8>| solution(s) && #[trigger] extends(g, s) ==> extends(p@, s),
                decreases forced@.len() - j,
            {
                let (fr, fc, fv) = forced[j];
                let ghost p0 = p@;
                proof {
                    assert(forced_ok(g, forced@[j as int]));
                    assert(cell(p0, fr as int, fc as int) == 0);
                    assert(fv != 0 && fv <= 9);
                    lemma_zeros_update(p0, fr as int * 9 + fc as int, fv, 81);
                }
                p.set(fr, fc, fv);
                proof {
                    assert forall|r: int, c: int|
                        0 <= r < 9 && 0 <= c < 9 && #[trigger] cell(g, r, c) != 0 implies cell(
                        p@,
                        r,
                        c,
                    ) == cell(g, r, c) by {
                        if r == fr as int && c == fc as int {
                            assert(false);
                        } else {
                            assert(r * 9 + c != fr as int * 9 + fc as int);
                        }
                    }
                    assert forall|jj: int| j + 1 <= jj < forced@.len() implies cell(
                        p@,
                        (#[trigger] forced@[jj]).0 as int,
                        forced@[jj].1 as int,
                    ) == 0 by {
                        assert(fpos(forced@[j as int]) < fpos(forced@[jj]));
                        assert(forced@[jj].0 as int * 9 + forced@[jj].1 as int != fr as int * 9
                            + fc as int);
                    }
                    assert forall|s: Seq<u8>| solution(s) && #[trigger] extends(g, s) implies extends(
                        p@,
                        s,
                    ) by {
                        assert(extends(p0, s));
                        lemma_solution_uses_legal_value(g, s, fr as int, fc as int);
                        assert(cell(s, fr as int, fc as int) == fv);
                        assert forall|r: int, c: int|
                            0 <= r < 9 && 0 <= c < 9 && #[trigger] cell(p@, r, c) != 0 implies cell(
                            s,
                            r,
                            c,
                        ) == cell(p@, r, c) by {
                            if r == fr as int && c == fc as int {
                            } else {
                                assert(r * 9 + c != fr as int * 9 + fc as int);
                                assert(cell(p@, r, c) == cell(p0, r, c));
                            }
                        }
                    }
                }
                j = j + 1;
            }
            let ghost pg = p@;
            proof {
                lemma_zeros_nonneg(pg, 81);
                assert(num_open(pg) < num_open(g));
            }
            let sub = Solver::new(p);
            let rec = sub.solve();
            match rec {
                Some(s) => {
                    proof {
                        assert forall|r: int, c: int|
                            0 <= r < 9 && 0 <= c < 9 && #[trigger] cell(g, r, c) != 0 implies cell(
                            s@,
                            r,
                            c,
                        ) == cell(g, r, c) by {
                            assert(cell(pg, r, c) == cell(g, r, c));
                            assert(cell(s@, r, c) == cell(pg, r, c));
                        }
                    }
                    Some(s)
                },
                None => {
                    proof {
                        assert forall|s: Seq<u8>| solution(s) implies !extends(g, s) by {
                            if extends(g, s) {
                                assert(extends(pg, s));
                            }
                        }
                    }
                    None
                },
            }
        } else {
            proof {
                assert(best is Some);
            }
            let bb = best.unwrap();
            let ((br, bc), cand) = bb;
            let mut i: usize = 0;
            while i < cand.len()
                invariant
                    i <= cand@.len(),
                    forall|s: Seq<u8>, jj: int|
                        solution(s) && #[trigger] extends(g, s) && 0 <= jj < i ==> cell(
                            s,
                            br as int,
                            bc as int,
                        ) != #[trigger] cand@[jj],
                decreases cand@.len() - i,
            {
                let v = cand[i];
                let mut p = self.puzzle.clone();
                proof {
                    assert(cell(g, br as int, bc as int) == 0);
                    assert(legal_at(g, br as int, bc as int, cand@[i as int]));
                    assert(1 <= v <= 9);
                    lemma_zeros_update(g, br as int * 9 + bc as int, v, 81);
                }
                p.set(br, bc, v);
                let ghost pg = p@;
                proof {
                    lemma_zeros_nonneg(pg, 81);
                    assert forall|r: int, c: int|
                        0 <= r < 9 && 0 <= c < 9 && #[trigger] cell(g, r, c) != 0 implies cell(
                        pg,
                        r,
                        c,
                    ) == cell(g, r, c) by {
                        if r == br as int && c == bc as int {
                            assert(false);
                        } else {
                            assert(r * 9 + c != br as int * 9 + bc as int);
                        }
                    }
                    assert(extends(g, pg));
                    assert(num_open(pg) < num_open(g));
                }
                let sub = Solver::new(p);
                let rec = sub.solve();
                match rec {
                    Some(s) => {
                        proof {
                            assert forall|r: int, c: int|
                                0 <= r < 9 && 0 <= c < 9 && #[trigger] cell(g, r, c)
                                    != 0 implies cell(s@, r, c) == cell(g, r, c) by {
                                assert(cell(pg, r, c) == cell(g, r, c));
                                assert(cell(s@, r, c) == cell(pg, r, c));
                            }
                        }
                        return Some(s);
                    },
                    None => {
                        proof {
                            assert forall|s: Seq<u8>, jj: int|
                                solution(s) && #[trigger] extends(g, s) && 0 <= jj < i
                                    + 1 implies cell(s, br as int, bc as int)
                                != #[trigger] cand@[jj] by {
                                if jj == i {
                                    if cell(s, br as int, bc as int) == cand@[jj] {
                                        assert forall|r: int, c: int|
                                            0 <= r < 9 && 0 <= c < 9 && #[trigger] cell(pg, r, c)
                                                != 0 implies cell(s, r, c) == cell(pg, r, c) by {
                                            if r == br as int && c == bc as int {
                                                assert(cell(pg, r, c) == v);
                                            } else {
                                                assert(r * 9 + c != br as int * 9 + bc as int);
                                                assert(cell(pg, r, c) == cell(g, r, c));
                                            }
                                        }
                                        assert(extends(pg, s));
                                        assert(false);
                                    }
                                }
                            }
                        }
                    },
                }
                i = i + 1;
            }
            proof {
                assert forall|s: Seq<u8>| solution(s) implies !extends(g, s) by {
                    if extends(g, s) {
                        lemma_solution_uses_legal_value(g, s, br as int, bc as int);
                        let v = cell(s, br as int, bc as int);
                        let jj = choose|jj: int| 0 <= jj < cand@.len() && cand@[jj] == v;
                        assert(cell(s, br as int, bc as int) != cand@[jj]);
                        assert(false);
                    }
                }
            }
            None
        }
    }
}

} // verus!

