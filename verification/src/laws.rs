//! General laws of the engine, stated over the grid model and proved once
//! for all grids: legal-value sets only shrink as a grid fills in, a grid
//! with a duplicated digit in a unit admits no solution, and every unit of
//! a solved grid covers all nine digits.

use crate::grid::{
    cell, extends, in_blk, in_col, in_row, legal_at, legal_grid, lemma_block_coord,
    lemma_flat_coords, pair_ok, same_unit, solution, wf_grid,
};
use crate::solver::lemma_solution_uses_legal_value;
use vstd::arithmetic::div_mod::lemma_fundamental_div_mod_converse_div;
use vstd::prelude::*;
use vstd::set_lib::{lemma_int_range, lemma_len_subset, lemma_subset_equality, set_int_range};

verus! {

/// As cells fill in, an open cell's set of legal values can only shrink:
/// every value still legal in the fuller grid `h` was already legal in the
/// sparser grid `g`.
pub proof fn lemma_legal_values_shrink(g: Seq<u8>, h: Seq<u8>, r: int, c: int)
    requires
        wf_grid(g),
        wf_grid(h),
        extends(g, h),
        0 <= r < 9,
        0 <= c < 9,
    ensures
        forall|v: u8| legal_at(h, r, c, v) ==> legal_at(g, r, c, v),
{
    assert forall|v: u8| legal_at(h, r, c, v) implies legal_at(g, r, c, v) by {
        assert(!in_row(g, r, v)) by {
            if in_row(g, r, v) {
                let c2 = choose|c2: int| 0 <= c2 < 9 && cell(g, r, c2) == v;
                assert(cell(h, r, c2) == v);
            }
        }
        assert(!in_col(g, c, v)) by {
            if in_col(g, c, v) {
                let r2 = choose|r2: int| 0 <= r2 < 9 && cell(g, r2, c) == v;
                assert(cell(h, r2, c) == v);
            }
        }
        assert(!in_blk(g, r / 3, c / 3, v)) by {
            if in_blk(g, r / 3, c / 3, v) {
                let (i, j): (int, int) = choose|i: int, j: int|
                    0 <= i < 3 && 0 <= j < 3 && #[trigger] cell(g, 3 * (r / 3) + i, 3 * (c / 3) + j)
                        == v;
                lemma_block_coord(r);
                lemma_block_coord(c);
                assert(0 <= 3 * (r / 3) + i < 9 && 0 <= 3 * (c / 3) + j < 9);
                assert(cell(h, 3 * (r / 3) + i, 3 * (c / 3) + j) == v);
            }
        }
    }
}

/// No cell sharing a unit with `(r, c)` can hold a digit that is legal at
/// `(r, c)`: that is what being legal there means.
proof fn lemma_unit_partner_differs(g: Seq<u8>, r: int, c: int, v: u8, a: int, b: int)
    requires
        wf_grid(g),
        0 <= r < 9,
        0 <= c < 9,
        0 <= a < 9,
        0 <= b < 9,
        legal_at(g, r, c, v),
        same_unit(r, c, a, b),
        !(a == r && b == c),
    ensures
        cell(g, a, b) != v,
{
    if cell(g, a, b) == v {
        if a == r {
            assert(cell(g, r, b) == v);
            assert(in_row(g, r, v));
        } else if b == c {
            assert(cell(g, a, c) == v);
            assert(in_col(g, c, v));
        } else {
            lemma_block_coord(a);
            lemma_block_coord(b);
            assert(cell(g, 3 * (r / 3) + a % 3, 3 * (c / 3) + b % 3) == v);
            assert(in_blk(g, r / 3, c / 3, v));
        }
        assert(false);
    }
}

/// Placing a digit into an empty cell never grows any other open cell's
/// set of legal values; and when the placement shares that cell's row,
/// column, or block, the placed digit itself stops being legal there.
pub proof fn lemma_placement_shrinks_candidates(
    g: Seq<u8>,
    r1: int,
    c1: int,
    v: u8,
    r: int,
    c: int,
)
    requires
        wf_grid(g),
        0 <= r1 < 9,
        0 <= c1 < 9,
        0 <= r < 9,
        0 <= c < 9,
        cell(g, r1, c1) == 0,
        1 <= v <= 9,
        !(r1 == r && c1 == c),
    ensures
        forall|w: u8| legal_at(g.update(r1 * 9 + c1, v), r, c, w) ==> legal_at(g, r, c, w),
        same_unit(r, c, r1, c1) ==> !legal_at(g.update(r1 * 9 + c1, v), r, c, v),
{
    let h = g.update(r1 * 9 + c1, v);
    assert(wf_grid(h));
    assert(extends(g, h)) by {
        assert forall|a: int, b: int|
            0 <= a < 9 && 0 <= b < 9 && #[trigger] cell(g, a, b) != 0 implies cell(h, a, b) == cell(
            g,
            a,
            b,
        ) by {
            if !(a == r1 && b == c1) {
                assert(a * 9 + b != r1 * 9 + c1);
            }
        }
    }
    lemma_legal_values_shrink(g, h, r, c);
    if same_unit(r, c, r1, c1) {
        assert(cell(h, r1, c1) == v);
        if r1 == r {
            assert(cell(h, r, c1) == v);
            assert(in_row(h, r, v));
        } else if c1 == c {
            assert(cell(h, r1, c) == v);
            assert(in_col(h, c, v));
        } else {
            lemma_block_coord(r1);
            lemma_block_coord(c1);
            assert(cell(h, 3 * (r / 3) + r1 % 3, 3 * (c / 3) + c1 % 3) == v);
            assert(in_blk(h, r / 3, c / 3, v));
        }
    }
}

/// A legal grid with exactly one open cell, at which exactly one digit is
/// legal, is completed by that digit — and the completion is the grid's
/// one and only solution, so the search is forced.
pub proof fn lemma_single_hole_forced(g: Seq<u8>, r: int, c: int, v: u8)
    requires
        wf_grid(g),
        legal_grid(g),
        0 <= r < 9,
        0 <= c < 9,
        cell(g, r, c) == 0,
        forall|a: int, b: int|
            0 <= a < 9 && 0 <= b < 9 && !(a == r && b == c) ==> #[trigger] cell(g, a, b) != 0,
        legal_at(g, r, c, v),
        forall|w: u8| legal_at(g, r, c, w) ==> w == v,
    ensures
        solution(g.update(r * 9 + c, v)),
        extends(g, g.update(r * 9 + c, v)),
        forall|s: Seq<u8>| solution(s) && extends(g, s) ==> s == g.update(r * 9 + c, v),
{
    let h = g.update(r * 9 + c, v);
    assert(wf_grid(h));
    assert(extends(g, h)) by {
        assert forall|a: int, b: int|
            0 <= a < 9 && 0 <= b < 9 && #[trigger] cell(g, a, b) != 0 implies cell(h, a, b) == cell(
            g,
            a,
            b,
        ) by {
            if !(a == r && b == c) {
                assert(a * 9 + b != r * 9 + c);
            }
        }
    }
    assert forall|a: int, b: int| 0 <= a < 9 && 0 <= b < 9 implies #[trigger] cell(h, a, b)
        != 0 by {
        if !(a == r && b == c) {
            assert(cell(g, a, b) != 0);
        }
    }
    assert forall|a1: int, b1: int, a2: int, b2: int|
        0 <= a1 < 9 && 0 <= b1 < 9 && 0 <= a2 < 9 && 0 <= b2 < 9 implies #[trigger] pair_ok(
        h,
        a1,
        b1,
        a2,
        b2,
    ) by {
        if !(a1 == a2 && b1 == b2) && same_unit(a1, b1, a2, b2) {
            if a1 == r && b1 == c {
                assert(cell(g, a2, b2) != v) by {
                    lemma_unit_partner_differs(g, r, c, v, a2, b2);
                }
                assert(cell(h, a2, b2) == cell(g, a2, b2)) by {
                    assert(a2 * 9 + b2 != r * 9 + c);
                }
            } else if a2 == r && b2 == c {
                assert(cell(g, a1, b1) != v) by {
                    lemma_unit_partner_differs(g, r, c, v, a1, b1);
                }
                assert(cell(h, a1, b1) == cell(g, a1, b1)) by {
                    assert(a1 * 9 + b1 != r * 9 + c);
                }
            } else {
                assert(cell(h, a1, b1) == cell(g, a1, b1)) by {
                    assert(a1 * 9 + b1 != r * 9 + c);
                }
                assert(cell(h, a2, b2) == cell(g, a2, b2)) by {
                    assert(a2 * 9 + b2 != r * 9 + c);
                }
                assert(pair_ok(g, a1, b1, a2, b2));
            }
        }
    }
    assert forall|s: Seq<u8>| solution(s) && extends(g, s) implies s == h by {
        lemma_solution_uses_legal_value(g, s, r, c);
        assert(cell(s, r, c) == v);
        assert forall|i: int| 0 <= i < 81 implies s[i] == h[i] by {
            lemma_flat_coords(i);
            let a = i / 9;
            let b = i % 9;
            if a == r && b == c {
                assert(cell(s, a, b) == v && cell(h, a, b) == v);
            } else {
                assert(cell(g, a, b) != 0);
                assert(cell(s, a, b) == cell(g, a, b));
                assert(cell(h, a, b) == cell(g, a, b));
            }
        }
        assert(s =~= h);
    }
}

/// A grid holding the same digit twice within one row, column, or block
/// admits no solution: the clash would survive into any completion.
pub proof fn lemma_duplicate_unsolvable(g: Seq<u8>, r1: int, c1: int, r2: int, c2: int)
    requires
        wf_grid(g),
        0 <= r1 < 9,
        0 <= c1 < 9,
        0 <= r2 < 9,
        0 <= c2 < 9,
        !(r1 == r2 && c1 == c2),
        same_unit(r1, c1, r2, c2),
        cell(g, r1, c1) != 0,
        cell(g, r1, c1) == cell(g, r2, c2),
    ensures
        forall|s: Seq<u8>| solution(s) ==> !extends(g, s),
{
    assert forall|s: Seq<u8>| solution(s) implies !extends(g, s) by {
        if extends(g, s) {
            assert(cell(s, r1, c1) == cell(g, r1, c1));
            assert(cell(s, r2, c2) == cell(g, r2, c2));
            assert(pair_ok(s, r1, c1, r2, c2));
            assert(false);
        }
    }
}

/// Nine pairwise-distinct entries drawn from 1..=9 cover all of 1..=9.
proof fn lemma_nine_distinct_digits_cover(s: Seq<int>)
    requires
        s.len() == 9,
        s.no_duplicates(),
        forall|i: int| 0 <= i < 9 ==> 1 <= #[trigger] s[i] <= 9,
    ensures
        forall|v: int| 1 <= v <= 9 ==> s.contains(v),
{
    let t = s.to_set();
    s.unique_seq_to_set();
    let u = set_int_range(1, 10);
    lemma_int_range(1, 10);
    assert(t.subset_of(u)) by {
        assert forall|x: int| t.contains(x) implies u.contains(x) by {
            let i = choose|i: int| 0 <= i < s.len() && s[i] == x;
            assert(1 <= s[i] <= 9);
        }
    }
    lemma_len_subset(t, u);
    lemma_subset_equality(t, u);
    assert forall|v: int| 1 <= v <= 9 implies s.contains(v) by {
        assert(u.contains(v));
        assert(t.contains(v));
    }
}

/// Every row, every column, and every 3x3 block of a solved grid contains
/// each digit 1..=9. Together with legality itself — no digit twice in a
/// unit — each unit holds each digit exactly once.
pub proof fn lemma_solution_units_cover(g: Seq<u8>)
    requires
        solution(g),
    ensures
        forall|r: int, v: u8| 0 <= r < 9 && 1 <= v <= 9 ==> in_row(g, r, v),
        forall|c: int, v: u8| 0 <= c < 9 && 1 <= v <= 9 ==> in_col(g, c, v),
        forall|br: int, bc: int, v: u8|
            0 <= br < 3 && 0 <= bc < 3 && 1 <= v <= 9 ==> in_blk(g, br, bc, v),
{
    assert forall|r: int, v: u8| 0 <= r < 9 && 1 <= v <= 9 implies in_row(g, r, v) by {
        let s = Seq::new(9, |c: int| cell(g, r, c) as int);
        assert(s.no_duplicates()) by {
            assert forall|i: int, j: int|
                0 <= i < s.len() && 0 <= j < s.len() && i != j implies s[i] != s[j] by {
                assert(pair_ok(g, r, i, r, j));
                assert(cell(g, r, i) != 0);
            }
        }
        assert forall|i: int| 0 <= i < 9 implies 1 <= #[trigger] s[i] <= 9 by {
            assert(cell(g, r, i) != 0);
            assert(g[r * 9 + i] <= 9);
        }
        lemma_nine_distinct_digits_cover(s);
        assert(s.contains(v as int));
        let c = choose|c: int| 0 <= c < s.len() && s[c] == v as int;
        assert(cell(g, r, c) == v);
    }
    assert forall|c: int, v: u8| 0 <= c < 9 && 1 <= v <= 9 implies in_col(g, c, v) by {
        let s = Seq::new(9, |r: int| cell(g, r, c) as int);
        assert(s.no_duplicates()) by {
            assert forall|i: int, j: int|
                0 <= i < s.len() && 0 <= j < s.len() && i != j implies s[i] != s[j] by {
                assert(pair_ok(g, i, c, j, c));
                assert(cell(g, i, c) != 0);
            }
        }
        assert forall|i: int| 0 <= i < 9 implies 1 <= #[trigger] s[i] <= 9 by {
            assert(cell(g, i, c) != 0);
            assert(g[i * 9 + c] <= 9);
        }
        lemma_nine_distinct_digits_cover(s);
        assert(s.contains(v as int));
        let r = choose|r: int| 0 <= r < s.len() && s[r] == v as int;
        assert(cell(g, r, c) == v);
    }
    assert forall|br: int, bc: int, v: u8|
        0 <= br < 3 && 0 <= bc < 3 && 1 <= v <= 9 implies in_blk(g, br, bc, v) by {
        let s = Seq::new(9, |k: int| cell(g, 3 * br + k / 3, 3 * bc + k % 3) as int);
        assert(s.no_duplicates()) by {
            assert forall|i: int, j: int|
                0 <= i < s.len() && 0 <= j < s.len() && i != j implies s[i] != s[j] by {
                lemma_block_coord(i);
                lemma_block_coord(j);
                let r1 = 3 * br + i / 3;
                let c1 = 3 * bc + i % 3;
                let r2 = 3 * br + j / 3;
                let c2 = 3 * bc + j % 3;
                assert(0 <= r1 < 9 && 0 <= c1 < 9 && 0 <= r2 < 9 && 0 <= c2 < 9);
                assert(!(r1 == r2 && c1 == c2));
                lemma_fundamental_div_mod_converse_div(r1, 3, br, i / 3);
                lemma_fundamental_div_mod_converse_div(r2, 3, br, j / 3);
                assert(same_unit(r1, c1, r2, c2));
                assert(pair_ok(g, r1, c1, r2, c2));
                assert(cell(g, r1, c1) != 0);
            }
        }
        assert forall|k: int| 0 <= k < 9 implies 1 <= #[trigger] s[k] <= 9 by {
            lemma_block_coord(k);
            assert(cell(g, 3 * br + k / 3, 3 * bc + k % 3) != 0);
            assert(g[(3 * br + k / 3) * 9 + (3 * bc + k % 3)] <= 9);
        }
        lemma_nine_distinct_digits_cover(s);
        assert(s.contains(v as int));
        let k = choose|k: int| 0 <= k < s.len() && s[k] == v as int;
        lemma_block_coord(k);
        assert(cell(g, 3 * br + k / 3, 3 * bc + k % 3) == v);
    }
}

} // verus!
