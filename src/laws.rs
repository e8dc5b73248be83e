//! Laws of the board engine, stated over the specifications that its
//! operations ensure.

use vstd::prelude::*;
use crate::board::{
    adjacent, after_removal, at, column, column_empty, compacted, component, cleared, end_bonus, fallen,
    gain, grid, in_grid, lemma_grid, lemma_kept_bounds, is_path, kept_upto, pos, reachable, settled, some_pair, step, tiles, EMPTY,
};

verus! {

/// No tile of `b` floats: below a tile of a column there are only tiles.
pub open spec fn no_floating(b: Seq<i8>) -> bool {
    forall|r1: int, r2: int, c: int|
        0 <= r1 < r2 < 10 && 0 <= c < 10 && #[trigger] b[pos(r1, c)] != EMPTY ==> #[trigger] b[pos(
            r2,
            c,
        )] != EMPTY
}

/// No empty column of `b` stands left of a column that holds a tile.
pub open spec fn columns_packed(b: Seq<i8>) -> bool {
    forall|c1: int, c2: int|
        0 <= c1 < c2 < 10 && #[trigger] column_empty(b, c1) ==> #[trigger] column_empty(b, c2)
}

/// Every cell of the grid, in row-major order.
pub open spec fn all_cells() -> Seq<(usize, usize)> {
    Seq::new(100, |i: int| ((i / 10) as usize, (i % 10) as usize))
}

proof fn lemma_tiles(s: Seq<i8>)
    ensures
        tiles(s).len() <= s.len(),
        forall|i: int| 0 <= i < tiles(s).len() ==> tiles(s)[i] != EMPTY,
    decreases s.len(),
{
    if s.len() > 0 {
        lemma_tiles(s.skip(1));
    }
}

proof fn lemma_fallen_cell(b: Seq<i8>, r: int, c: int)
    requires
        0 <= r < 10,
        0 <= c < 10,
    ensures
        fallen(b)[pos(r, c)] == settled(column(b, c))[r],
{
    lemma_grid(|r: int, c: int| settled(column(b, c))[r], r, c);
}

/// Gravity leaves no tile floating.
pub proof fn lemma_fallen_no_floating(b: Seq<i8>)
    ensures
        no_floating(fallen(b)),
{
    let f = fallen(b);
    assert forall|r1: int, r2: int, c: int|
        0 <= r1 < r2 < 10 && 0 <= c < 10 && #[trigger] f[pos(r1, c)] != EMPTY implies #[trigger] f[pos(
        r2,
        c,
    )] != EMPTY by {
        lemma_fallen_cell(b, r1, c);
        lemma_fallen_cell(b, r2, c);
        lemma_tiles(column(b, c));
    }
}

/// Closing up empty columns moves whole columns, so no tile comes to float.
pub proof fn lemma_compacted_keeps_no_floating(b: Seq<i8>)
    requires
        no_floating(b),
    ensures
        no_floating(compacted(b)),
{
    let k = kept_upto(b, 10);
    let f = |r: int, c: int| if c < k.len() { b[pos(r, k[c])] } else { EMPTY };
    let g = compacted(b);
    lemma_kept_bounds(b, 10);
    assert forall|r1: int, r2: int, c: int|
        0 <= r1 < r2 < 10 && 0 <= c < 10 && #[trigger] g[pos(r1, c)] != EMPTY implies #[trigger] g[pos(
        r2,
        c,
    )] != EMPTY by {
        lemma_grid(f, r1, c);
        lemma_grid(f, r2, c);
        if c < k.len() {
            assert(b[pos(r1, k[c])] != EMPTY);
        }
    }
}

/// After a removal no tile floats.
pub proof fn lemma_removal_no_floating(b: Seq<i8>, g: Set<(usize, usize)>)
    ensures
        no_floating(after_removal(b, g)),
{
    lemma_fallen_no_floating(cleared(b, g));
    lemma_compacted_keeps_no_floating(fallen(cleared(b, g)));
}

/// After columns are closed up, no empty column stands left of one that
/// holds a tile.
pub proof fn lemma_compacted_packed(b: Seq<i8>)
    ensures
        columns_packed(compacted(b)),
{
    let k = kept_upto(b, 10);
    let f = |r: int, c: int| if c < k.len() { b[pos(r, k[c])] } else { EMPTY };
    let g = compacted(b);
    lemma_kept_bounds(b, 10);
    assert forall|c1: int, c2: int|
        0 <= c1 < c2 < 10 && #[trigger] column_empty(g, c1) implies #[trigger] column_empty(g, c2) by {
        if c1 < k.len() {
            assert(!column_empty(b, k[c1]));
            let r = choose|r: int| 0 <= r < 10 && b[pos(r, k[c1])] != EMPTY;
            lemma_grid(f, r, c1);
        }
        assert forall|r: int| 0 <= r < 10 implies g[pos(r, c2)] == EMPTY by {
            lemma_grid(f, r, c2);
        }
    }
}

/// After a removal, no empty column stands left of one that holds a tile.
pub proof fn lemma_removal_packed(b: Seq<i8>, g: Set<(usize, usize)>)
    ensures
        columns_packed(after_removal(b, g)),
{
    lemma_compacted_packed(fallen(cleared(b, g)));
}

/// An empty cell has an empty group, so removing it earns nothing and
/// changes nothing.
pub proof fn lemma_empty_cell_group(b: Seq<i8>, p: (usize, usize))
    requires
        in_grid(p) ==> at(b, p) == EMPTY,
    ensures
        component(b, p) == Set::<(usize, usize)>::empty(),
        component(b, p).len() == 0,
{
}

/// A removal earns a positive score, so the total never goes down.
pub proof fn lemma_gain_positive(n: int)
    requires
        n >= 2,
    ensures
        gain(n) >= 20,
{
    assert(n * n >= 4) by (nonlinear_arith)
        requires
            n >= 2,
    ;
}

/// The end bonus is zero from ten tiles on, and falls strictly as the number
/// of tiles below ten grows.
pub proof fn lemma_end_bonus_shape(k1: int, k2: int)
    requires
        0 <= k1 < k2,
    ensures
        k2 >= 10 ==> end_bonus(k2) == 0,
        k2 < 10 ==> end_bonus(k1) > end_bonus(k2) && end_bonus(k2) == 2000 - k2 * k2 * 20,
{
    if k2 < 10 {
        assert(k1 * k1 < k2 * k2 && k2 * k2 <= 81) by (nonlinear_arith)
            requires
                0 <= k1 < k2 < 10,
        ;
    }
}

pub proof fn lemma_component_finite(b: Seq<i8>, p: (usize, usize))
    ensures
        component(b, p).finite(),
        component(b, p).subset_of(all_cells().to_set()),
{
    let all = all_cells().to_set();
    assert forall|q: (usize, usize)| component(b, p).contains(q) implies all.contains(q) by {
        let path = choose|path: Seq<(usize, usize)>|
            is_path(b, path) && path[0] == p && #[trigger] path[path.len() - 1] == q;
        assert(in_grid(path[path.len() - 1]));
        let i = q.0 as int * 10 + q.1 as int;
        assert(i / 10 == q.0 as int && i % 10 == q.1 as int) by (nonlinear_arith)
            requires
                i == q.0 as int * 10 + q.1 as int,
                0 <= q.1 < 10,
                0 <= q.0 < 10,
        ;
        assert(all_cells()[i] == q);
    }
    vstd::set_lib::lemma_len_subset(component(b, p), all);
}

proof fn lemma_pair_path(b: Seq<i8>, p: (usize, usize), q: (usize, usize))
    requires
        in_grid(p),
        in_grid(q),
        adjacent(p, q),
        at(b, p) == at(b, q),
    ensures
        reachable(b, p, q),
        reachable(b, p, p),
{
    let one = seq![p];
    assert(one[one.len() - 1] == p);
    assert(is_path(b, one));
    let two = seq![p, q];
    assert(two[two.len() - 1] == q);
    assert(adjacent(two[0], two[1]));
    assert(is_path(b, two));
}

/// There is no move with a score exactly when every tile is alone in its
/// group.
pub proof fn lemma_no_moves_iff_lone_tiles(b: Seq<i8>)
    ensures
        !some_pair(b) <==> (forall|p: (usize, usize)|
            in_grid(p) && at(b, p) != EMPTY ==> #[trigger] component(b, p).len() == 1),
{
    if some_pair(b) {
        let (p, d) = choose|p: (usize, usize), d: int|
            #![trigger step(p, d)]
            in_grid(p) && (d == 0 || d == 2) && at(b, p) != EMPTY && step(p, d) is Some && at(
                b,
                step(p, d)->0,
            ) == at(b, p);
        let q = step(p, d)->0;
        lemma_pair_path(b, p, q);
        lemma_component_finite(b, p);
        let two = set![p, q];
        assert(two.len() == 2);
        assert(two.subset_of(component(b, p)));
        vstd::set_lib::lemma_len_subset(two, component(b, p));
        assert(component(b, p).len() != 1);
    } else {
        assert forall|p: (usize, usize)| in_grid(p) && at(b, p) != EMPTY implies #[trigger] component(b, p).len() == 1 by {
            let comp = component(b, p);
            assert forall|q: (usize, usize)| comp.contains(q) <==> q == p by {
                if q == p {
                    let one = seq![p];
                    assert(one[one.len() - 1] == p);
                    assert(is_path(b, one));
                }
                if comp.contains(q) {
                    let path = choose|path: Seq<(usize, usize)>|
                        is_path(b, path) && path[0] == p && #[trigger] path[path.len() - 1] == q;
                    if path.len() > 1 {
                        let n1 = path[1];
                        assert(adjacent(path[0], path[0int + 1]));
                        assert(at(b, path[1]) == at(b, path[0]));
                        assert(in_grid(path[1]));
                        if step(p, 0) == Some(n1) {
                            assert(step(p, 0) is Some);
                        } else if step(p, 2) == Some(n1) {
                            assert(step(p, 2) is Some);
                        } else if step(p, 1) == Some(n1) {
                            assert(step(n1, 0) == Some(p));
                        } else {
                            assert(step(n1, 2) == Some(p));
                        }
                        assert(false);
                    }
                }
            }
            assert(comp =~= set![p]);
        }
    }
}

} // verus!
