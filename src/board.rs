use vstd::prelude::*;
use crate::laws::{
    columns_packed, lemma_compacted_packed, lemma_fallen_no_floating, lemma_removal_no_floating, no_floating,
};

verus! {

/// Number of columns of the grid.
pub const WIDTH: usize = 10;

/// Number of rows of the grid.
pub const HEIGHT: usize = 10;

/// Number of cells of the grid.
pub const BOARD_SIZE: usize = 100;

/// The value of a cell that holds no tile.
pub const EMPTY: i8 = -1;

/// Row-major position of cell `(r, c)`.
pub open spec fn pos(r: int, c: int) -> int {
    r * 10 + c
}

pub open spec fn in_grid(p: (usize, usize)) -> bool {
    p.0 < 10 && p.1 < 10
}

/// The value held at cell `p` of the board `b`.
pub open spec fn at(b: Seq<i8>, p: (usize, usize)) -> i8 {
    b[pos(p.0 as int, p.1 as int)]
}

/// The neighbour of `p` in direction `d` (right, left, down, up), if it lies in the grid.
pub open spec fn step(p: (usize, usize), d: int) -> Option<(usize, usize)> {
    if d == 0 {
        if p.1 + 1 < 10 { Some((p.0, (p.1 + 1) as usize)) } else { None }
    } else if d == 1 {
        if p.1 > 0 { Some((p.0, (p.1 - 1) as usize)) } else { None }
    } else if d == 2 {
        if p.0 + 1 < 10 { Some(((p.0 + 1) as usize, p.1)) } else { None }
    } else {
        if p.0 > 0 { Some(((p.0 - 1) as usize, p.1)) } else { None }
    }
}

pub open spec fn adjacent(p: (usize, usize), q: (usize, usize)) -> bool {
    step(p, 0) == Some(q) || step(p, 1) == Some(q) || step(p, 2) == Some(q) || step(p, 3) == Some(q)
}

/// `path` walks through orthogonally adjacent cells of the grid that all hold
/// the same value.
pub open spec fn is_path(b: Seq<i8>, path: Seq<(usize, usize)>) -> bool {
    &&& path.len() >= 1
    &&& forall|i: int| 0 <= i < path.len() ==> #[trigger] in_grid(path[i])
    &&& forall|i: int| 0 <= i < path.len() ==> #[trigger] at(b, path[i]) == at(b, path[0])
    &&& forall|i: int| 0 <= i < path.len() - 1 ==> #[trigger] adjacent(path[i], path[i + 1])
}

pub open spec fn reachable(b: Seq<i8>, from: (usize, usize), to: (usize, usize)) -> bool {
    exists|path: Seq<(usize, usize)>|
        is_path(b, path) && path[0] == from && #[trigger] path[path.len() - 1] == to
}

/// The connected group of cell `p`: every cell that a same-coloured path joins
/// to `p`; empty when `p` is outside the grid or holds no tile.
pub open spec fn component(b: Seq<i8>, p: (usize, usize)) -> Set<(usize, usize)> {
    if !in_grid(p) || at(b, p) == EMPTY {
        Set::empty()
    } else {
        Set::new(|q: (usize, usize)| reachable(b, p, q))
    }
}

/// Number of cells of `s` that hold a tile.
pub open spec fn count(s: Seq<i8>) -> nat
    decreases s.len(),
{
    if s.len() == 0 {
        0
    } else {
        count(s.drop_last()) + if s.last() != EMPTY { 1nat } else { 0nat }
    }
}

/// The bonus awarded at the end of a game with `k` tiles left.
pub open spec fn end_bonus(k: int) -> int {
    if k >= 10 {
        0
    } else if 2000 - k * k * 20 > 0 {
        2000 - k * k * 20
    } else {
        0
    }
}

/// Some tile has an equal tile right of it or below it.
pub open spec fn some_pair(b: Seq<i8>) -> bool {
    exists|p: (usize, usize), d: int|
        #![trigger step(p, d)]
        in_grid(p) && (d == 0 || d == 2) && at(b, p) != EMPTY
            && step(p, d) is Some && at(b, step(p, d)->0) == at(b, p)
}

/// Every neighbour of `p` that holds the value of `p` lies in `g`.
pub open spec fn closed_at(b: Seq<i8>, g: Seq<(usize, usize)>, p: (usize, usize)) -> bool {
    forall|d: int|
        0 <= d < 4 && #[trigger] step(p, d) is Some && at(b, step(p, d)->0) == at(b, p)
            ==> g.contains(step(p, d)->0)
}

/// Column `c` of the board `b`, top row first.
pub open spec fn column(b: Seq<i8>, c: int) -> Seq<i8> {
    Seq::new(10, |r: int| b[pos(r, c)])
}

/// The tiles of `s`, in order, without the empty cells.
pub open spec fn tiles(s: Seq<i8>) -> Seq<i8>
    decreases s.len(),
{
    if s.len() == 0 {
        Seq::empty()
    } else if s[0] != EMPTY {
        seq![s[0]] + tiles(s.skip(1))
    } else {
        tiles(s.skip(1))
    }
}

/// Column `s` once its tiles have fallen: the tiles in their order at the
/// bottom, empty cells above.
pub open spec fn settled(s: Seq<i8>) -> Seq<i8> {
    let t = tiles(s);
    Seq::new(
        s.len(),
        |r: int|
            if r < s.len() - t.len() {
                EMPTY
            } else {
                t[r - (s.len() - t.len())]
            },
    )
}

/// The board whose cell `(r, c)` is `f(r, c)`.
pub open spec fn grid(f: spec_fn(int, int) -> i8) -> Seq<i8> {
    Seq::new(100, |i: int| f(i / 10, i % 10))
}

/// The board `b` after gravity.
pub open spec fn fallen(b: Seq<i8>) -> Seq<i8> {
    grid(|r: int, c: int| settled(column(b, c))[r])
}

pub open spec fn column_empty(b: Seq<i8>, c: int) -> bool {
    forall|r: int| 0 <= r < 10 ==> b[pos(r, c)] == EMPTY
}

/// The columns below `n` that hold a tile, left to right.
pub open spec fn kept_upto(b: Seq<i8>, n: int) -> Seq<int>
    decreases n,
{
    if n <= 0 {
        Seq::empty()
    } else if column_empty(b, n - 1) {
        kept_upto(b, n - 1)
    } else {
        kept_upto(b, n - 1).push(n - 1)
    }
}

/// The board `b` after its empty columns are closed up: the columns that hold
/// a tile, in order from the left, then empty columns.
pub open spec fn compacted(b: Seq<i8>) -> Seq<i8> {
    let k = kept_upto(b, 10);
    grid(|r: int, c: int| if c < k.len() { b[pos(r, k[c])] } else { EMPTY })
}

/// The board `b` with the cells of `g` emptied.
pub open spec fn cleared(b: Seq<i8>, g: Set<(usize, usize)>) -> Seq<i8> {
    grid(|r: int, c: int| if g.contains((r as usize, c as usize)) { EMPTY } else { b[pos(r, c)] })
}

pub proof fn lemma_grid(f: spec_fn(int, int) -> i8, r: int, c: int)
    requires
        0 <= r < 10,
        0 <= c < 10,
    ensures
        grid(f)[pos(r, c)] == f(r, c),
{
    assert((r * 10 + c) / 10 == r && (r * 10 + c) % 10 == c) by (nonlinear_arith)
        requires
            0 <= r < 10,
            0 <= c < 10,
    ;
}

/// Two boards that agree on every cell are equal.
proof fn lemma_same_board(a: Seq<i8>, b: Seq<i8>)
    requires
        a.len() == 100,
        b.len() == 100,
        forall|r: int, c: int| 0 <= r < 10 && 0 <= c < 10 ==> a[pos(r, c)] == b[pos(r, c)],
    ensures
        a == b,
{
    assert forall|i: int| 0 <= i < 100 implies a[i] == b[i] by {
        let r = i / 10;
        let c = i % 10;
        assert(i == r * 10 + c && 0 <= r < 10 && 0 <= c < 10) by (nonlinear_arith)
            requires
                0 <= i < 100,
                r == i / 10,
                c == i % 10,
        ;
        assert(a[pos(r, c)] == b[pos(r, c)]);
    }
    assert(a =~= b);
}

pub proof fn lemma_kept_bounds(b: Seq<i8>, n: int)
    requires
        0 <= n,
    ensures
        kept_upto(b, n).len() <= n,
        forall|j: int|
            0 <= j < kept_upto(b, n).len() ==> 0 <= #[trigger] kept_upto(b, n)[j] < n
                && !column_empty(b, kept_upto(b, n)[j]),
    decreases n,
{
    if n > 0 {
        lemma_kept_bounds(b, n - 1);
    }
}

/// `g` lists the connected group of `p` on `b`, each cell once.
pub open spec fn is_group_of(b: Seq<i8>, p: (usize, usize), g: Seq<(usize, usize)>) -> bool {
    g.no_duplicates() && g.to_set() == component(b, p)
}

/// The points earned by removing a group of `n` tiles.
pub open spec fn gain(n: int) -> int {
    n * n * 5
}

/// The board after the group `g` is removed: the cells emptied, then gravity,
/// then column compaction.
pub open spec fn after_removal(b: Seq<i8>, g: Set<(usize, usize)>) -> Seq<i8> {
    compacted(fallen(cleared(b, g)))
}

pub proof fn lemma_component_cells(b: Seq<i8>, p: (usize, usize), q: (usize, usize))
    requires
        component(b, p).contains(q),
    ensures
        in_grid(q),
        in_grid(p),
        at(b, q) == at(b, p),
        at(b, p) != EMPTY,
{
    let path = choose|path: Seq<(usize, usize)>|
        is_path(b, path) && path[0] == p && #[trigger] path[path.len() - 1] == q;
    assert(in_grid(path[path.len() - 1]));
    assert(at(b, path[path.len() - 1]) == at(b, path[0]));
}

pub proof fn lemma_group_len(b: Seq<i8>, p: (usize, usize), g: Seq<(usize, usize)>)
    requires
        is_group_of(b, p, g),
    ensures
        component(b, p).finite(),
        component(b, p).len() == g.len(),
{
    g.unique_seq_to_set();
}

/// The board and total score after a click on `p`.
pub open spec fn play(b: Seq<i8>, total: int, p: (usize, usize)) -> (Seq<i8>, int) {
    let comp = component(b, p);
    if comp.len() < 2 {
        (b, total)
    } else {
        (after_removal(b, comp), total + gain(comp.len() as int))
    }
}

/// The board and total score after clicks on the cells of `path` in turn.
pub open spec fn replay(b: Seq<i8>, total: int, path: Seq<(usize, usize)>) -> (Seq<i8>, int)
    decreases path.len(),
{
    if path.len() == 0 {
        (b, total)
    } else {
        let s = replay(b, total, path.drop_last());
        play(s.0, s.1, path.last())
    }
}

/// Playing a line and then another is playing the two joined.
pub proof fn lemma_replay_append(
    b: Seq<i8>,
    total: int,
    first: Seq<(usize, usize)>,
    then: Seq<(usize, usize)>,
)
    ensures
        replay(b, total, first + then) == replay(
            replay(b, total, first).0,
            replay(b, total, first).1,
            then,
        ),
    decreases then.len(),
{
    if then.len() == 0 {
        assert(first + then =~= first);
    } else {
        assert((first + then).drop_last() =~= first + then.drop_last());
        assert((first + then).last() == then.last());
        lemma_replay_append(b, total, first, then.drop_last());
    }
}

/// Click `k` of `path`, played after the clicks before it from `b`, removes
/// a group of two tiles or more.
pub open spec fn scores_at(b: Seq<i8>, total: int, path: Seq<(usize, usize)>, k: int) -> bool {
    component(replay(b, total, path.subrange(0, k)).0, path[k]).len() >= 2
}

/// Every click of `path`, played in turn from `b`, removes a group of two
/// tiles or more.
pub open spec fn legal_line(b: Seq<i8>, total: int, path: Seq<(usize, usize)>) -> bool {
    forall|k: int| 0 <= k < path.len() ==> #[trigger] scores_at(b, total, path, k)
}

/// A legal line followed by a line legal from where it ends is legal.
pub proof fn lemma_legal_append(
    b: Seq<i8>,
    total: int,
    first: Seq<(usize, usize)>,
    then: Seq<(usize, usize)>,
)
    requires
        legal_line(b, total, first),
        legal_line(replay(b, total, first).0, replay(b, total, first).1, then),
    ensures
        legal_line(b, total, first + then),
{
    let mid = replay(b, total, first);
    let all = first + then;
    assert forall|k: int| 0 <= k < all.len() implies #[trigger] scores_at(b, total, all, k) by {
        if k < first.len() {
            assert(all.subrange(0, k) =~= first.subrange(0, k));
            assert(scores_at(b, total, first, k));
        } else {
            let j = k - first.len();
            assert(all.subrange(0, k) =~= first + then.subrange(0, j));
            lemma_replay_append(b, total, first, then.subrange(0, j));
            assert(scores_at(mid.0, mid.1, then, j));
        }
    }
}

/// A legal line extended by a click that removes two tiles or more is legal.
pub proof fn lemma_legal_push(b: Seq<i8>, total: int, first: Seq<(usize, usize)>, p: (usize, usize))
    requires
        legal_line(b, total, first),
        component(replay(b, total, first).0, p).len() >= 2,
    ensures
        legal_line(b, total, first.push(p)),
{
    let mid = replay(b, total, first);
    let one = seq![p];
    assert(one.subrange(0, 0) =~= Seq::<(usize, usize)>::empty());
    assert(scores_at(mid.0, mid.1, one, 0));
    lemma_legal_append(b, total, first, one);
    assert(first + one =~= first.push(p));
}

proof fn lemma_adjacent_sym(p: (usize, usize), q: (usize, usize))
    requires
        adjacent(p, q),
        in_grid(p),
        in_grid(q),
    ensures
        adjacent(q, p),
{
    if step(p, 0) == Some(q) {
        assert(step(q, 1) == Some(p));
    } else if step(p, 1) == Some(q) {
        assert(step(q, 0) == Some(p));
    } else if step(p, 2) == Some(q) {
        assert(step(q, 3) == Some(p));
    } else {
        assert(step(q, 2) == Some(p));
    }
}

proof fn lemma_reachable_sym(b: Seq<i8>, p: (usize, usize), q: (usize, usize))
    requires
        reachable(b, p, q),
    ensures
        reachable(b, q, p),
{
    let path = choose|path: Seq<(usize, usize)>|
        is_path(b, path) && path[0] == p && #[trigger] path[path.len() - 1] == q;
    let n = path.len();
    let rev = Seq::new(n, |i: int| path[n - 1 - i]);
    assert(at(b, path[n - 1]) == at(b, path[0]));
    assert forall|i: int| 0 <= i < rev.len() - 1 implies #[trigger] adjacent(rev[i], rev[i + 1]) by {
        let k = n - 2 - i;
        assert(adjacent(path[k], path[k + 1]));
        assert(rev[i] == path[k + 1] && rev[i + 1] == path[k]);
        assert(in_grid(path[k]) && in_grid(path[k + 1]));
        lemma_adjacent_sym(path[k], path[k + 1]);
    }
    assert forall|i: int| 0 <= i < rev.len() implies #[trigger] at(b, rev[i]) == at(b, rev[0]) by {
        assert(at(b, path[n - 1 - i]) == at(b, path[0]));
    }
    assert forall|i: int| 0 <= i < rev.len() implies #[trigger] in_grid(rev[i]) by {
        assert(in_grid(path[n - 1 - i]));
    }
    assert(is_path(b, rev));
    assert(rev[rev.len() - 1] == p);
}

proof fn lemma_reachable_trans(b: Seq<i8>, p: (usize, usize), q: (usize, usize), x: (usize, usize))
    requires
        reachable(b, p, q),
        reachable(b, q, x),
    ensures
        reachable(b, p, x),
{
    let p1 = choose|path: Seq<(usize, usize)>|
        is_path(b, path) && path[0] == p && #[trigger] path[path.len() - 1] == q;
    let p2 = choose|path: Seq<(usize, usize)>|
        is_path(b, path) && path[0] == q && #[trigger] path[path.len() - 1] == x;
    let n1 = p1.len();
    let j = p1 + p2.skip(1);
    assert(at(b, p1[n1 - 1]) == at(b, p1[0]));
    assert forall|i: int| 0 <= i < j.len() implies #[trigger] in_grid(j[i]) by {
        if i < n1 {
            assert(in_grid(p1[i]));
        } else {
            assert(in_grid(p2[i - n1 + 1]));
        }
    }
    assert forall|i: int| 0 <= i < j.len() implies #[trigger] at(b, j[i]) == at(b, j[0]) by {
        if i < n1 {
            assert(at(b, p1[i]) == at(b, p1[0]));
        } else {
            assert(at(b, p2[i - n1 + 1]) == at(b, p2[0]));
        }
    }
    assert forall|i: int| 0 <= i < j.len() - 1 implies #[trigger] adjacent(j[i], j[i + 1]) by {
        if i < n1 - 1 {
            assert(adjacent(p1[i], p1[i + 1]));
        } else {
            let k = i - n1 + 1;
            assert(adjacent(p2[k], p2[k + 1]));
        }
    }
    assert(is_path(b, j));
    if p2.len() == 1 {
        assert(j[j.len() - 1] == x);
    } else {
        assert(j[j.len() - 1] == p2[p2.len() - 1]);
    }
}

/// A tile belongs to its own group.
pub proof fn lemma_component_has_self(b: Seq<i8>, p: (usize, usize))
    requires
        in_grid(p),
        at(b, p) != EMPTY,
    ensures
        component(b, p).contains(p),
{
    let one = seq![p];
    assert(one[one.len() - 1] == p);
    assert(is_path(b, one));
}

/// Every cell of a connected group has that same group.
pub proof fn lemma_same_component(b: Seq<i8>, p: (usize, usize), q: (usize, usize))
    requires
        component(b, p).contains(q),
    ensures
        component(b, q) == component(b, p),
{
    lemma_component_cells(b, p, q);
    assert(reachable(b, p, q));
    lemma_reachable_sym(b, p, q);
    assert forall|x: (usize, usize)| component(b, q).contains(x) <==> component(b, p).contains(x) by {
        if reachable(b, q, x) {
            lemma_reachable_trans(b, p, q, x);
        }
        if reachable(b, p, x) {
            lemma_reachable_trans(b, q, p, x);
        }
    }
    assert(component(b, q) =~= component(b, p));
}

proof fn lemma_step_adjacent(p: (usize, usize), d: int)
    requires
        0 <= d < 4,
        step(p, d) is Some,
    ensures
        adjacent(p, step(p, d)->0),
        in_grid(p) ==> in_grid(step(p, d)->0),
{
}

proof fn lemma_extend(b: Seq<i8>, start: (usize, usize), p: (usize, usize), q: (usize, usize))
    requires
        reachable(b, start, p),
        in_grid(q),
        adjacent(p, q),
        at(b, q) == at(b, p),
    ensures
        reachable(b, start, q),
{
    let path = choose|path: Seq<(usize, usize)>|
        is_path(b, path) && path[0] == start && #[trigger] path[path.len() - 1] == p;
    let np = path.push(q);
    assert(np[np.len() - 1] == q);
    assert forall|i: int| 0 <= i < np.len() - 1 implies #[trigger] adjacent(np[i], np[i + 1]) by {
        if i < path.len() - 1 {
            assert(adjacent(path[i], path[i + 1]));
        }
    }
    assert forall|i: int| 0 <= i < np.len() implies #[trigger] at(b, np[i]) == at(b, np[0]) by {
        if i < path.len() {
            assert(at(b, path[i]) == at(b, path[0]));
        }
    }
    assert forall|i: int| 0 <= i < np.len() implies #[trigger] in_grid(np[i]) by {
        if i < path.len() {
            assert(in_grid(path[i]));
        }
    }
    assert(is_path(b, np));
}

/// A set closed under same-coloured neighbours holds the end of every path
/// that starts in it.
proof fn lemma_closed_holds_path(b: Seq<i8>, g: Seq<(usize, usize)>, path: Seq<(usize, usize)>)
    requires
        is_path(b, path),
        g.contains(path[0]),
        forall|p: (usize, usize)| #[trigger] g.contains(p) ==> closed_at(b, g, p),
    ensures
        g.contains(path[path.len() - 1]),
    decreases path.len(),
{
    if path.len() > 1 {
        let prefix = path.drop_last();
        assert(is_path(b, prefix)) by {
            assert forall|i: int| 0 <= i < prefix.len() - 1 implies #[trigger] adjacent(
                prefix[i],
                prefix[i + 1],
            ) by {
                assert(adjacent(path[i], path[i + 1]));
            }
            assert forall|i: int| 0 <= i < prefix.len() implies #[trigger] at(b, prefix[i]) == at(
                b,
                prefix[0],
            ) by {
                assert(at(b, path[i]) == at(b, path[0]));
            }
            assert forall|i: int| 0 <= i < prefix.len() implies #[trigger] in_grid(prefix[i]) by {
                assert(in_grid(path[i]));
            }
        }
        lemma_closed_holds_path(b, g, prefix);
        let n = path.len() - 1;
        let p = path[n - 1];
        let q = path[n];
        assert(adjacent(path[n - 1], path[n - 1 + 1]));
        assert(at(b, path[n]) == at(b, path[0]));
        assert(at(b, path[n - 1]) == at(b, path[0]));
        assert(closed_at(b, g, p));
        if step(p, 0) == Some(q) {
            assert(step(p, 0) is Some);
        } else if step(p, 1) == Some(q) {
            assert(step(p, 1) is Some);
        } else if step(p, 2) == Some(q) {
            assert(step(p, 2) is Some);
        } else {
            assert(step(p, 3) is Some);
        }
    }
}

proof fn lemma_count_update(s: Seq<i8>, i: int, v: i8)
    requires
        0 <= i < s.len(),
    ensures
        count(s.update(i, v)) + (if s[i] != EMPTY { 1int } else { 0int }) == count(s) + (if v
            != EMPTY { 1int } else { 0int }),
    decreases s.len(),
{
    let t = s.update(i, v);
    if i == s.len() - 1 {
        assert(t.drop_last() =~= s.drop_last());
    } else {
        assert(t.drop_last() =~= s.drop_last().update(i, v));
        lemma_count_update(s.drop_last(), i, v);
    }
}

proof fn lemma_count_bound(s: Seq<i8>)
    ensures
        count(s) <= s.len(),
    decreases s.len(),
{
    if s.len() > 0 {
        lemma_count_bound(s.drop_last());
    }
}

/// Number of `true` entries of `s`.
spec fn marked(s: Seq<bool>) -> nat
    decreases s.len(),
{
    if s.len() == 0 {
        0
    } else {
        marked(s.drop_last()) + if s.last() { 1nat } else { 0nat }
    }
}

proof fn lemma_marked_set(s: Seq<bool>, i: int)
    requires
        0 <= i < s.len(),
        !s[i],
    ensures
        marked(s.update(i, true)) == marked(s) + 1,
    decreases s.len(),
{
    let t = s.update(i, true);
    if i == s.len() - 1 {
        assert(t.drop_last() =~= s.drop_last());
    } else {
        assert(t.drop_last() =~= s.drop_last().update(i, true));
        lemma_marked_set(s.drop_last(), i);
    }
}

proof fn lemma_marked_bound(s: Seq<bool>)
    ensures
        marked(s) <= s.len(),
    decreases s.len(),
{
    if s.len() > 0 {
        lemma_marked_bound(s.drop_last());
    }
}

/// Relies on `rand::random_range` over `0..5`: a value drawn from the thread's
/// generator, within the range.
#[verifier::external_body]
fn draw_color() -> (v: i8)
    ensures
        0 <= v < 5,
{
    rand::random_range(0..5i8)
}

/// The board engine: the grid in row-major order, `EMPTY` or a colour in
/// `0..5` in each cell, with the score of the current round and the total.
#[derive(Clone, Copy, Debug)]
pub struct PopStarEngine {
    pub board: [i8; 100],
    pub score: i32,
    pub total_score: i32,
}


impl PopStarEngine {
    /// Scores stay within what the tiles already removed can have earned, which
    /// keeps every later score within `i32`.
    pub open spec fn wf(&self) -> bool {
        &&& 0 <= self.score <= self.total_score
        &&& self.total_score <= 5 * (100 - count(self.board@)) * (100 - count(self.board@))
    }

    /// A well-formed engine's scores never pass the score of clearing the
    /// whole board in one move.
    pub proof fn lemma_score_bound(&self)
        requires
            self.wf(),
        ensures
            self.total_score <= 50000,
    {
        lemma_count_bound(self.board@);
        let m = 100 - count(self.board@);
        assert(5 * m * m <= 50000) by (nonlinear_arith)
            requires
                0 <= m <= 100,
        ;
    }

    fn idx(&self, r: usize, c: usize) -> (i: usize)
        requires
            r < 10,
            c < 10,
        ensures
            i == pos(r as int, c as int),
    {
        r * WIDTH + c
    }

    /// An engine on the given board, or on a board of uniformly drawn colours
    /// when none is given; both scores start at zero. A given board must have
    /// exactly `BOARD_SIZE` cells.
    pub fn new(board: Option<Vec<i8>>) -> (e: Self)
        requires
            board matches Some(b) ==> b@.len() == BOARD_SIZE,
        ensures
            e.wf(),
            e.score == 0,
            e.total_score == 0,
            board matches Some(b) ==> e.board@ == b@,
            board is None ==> forall|i: int| 0 <= i < 100 ==> 0 <= #[trigger] e.board@[i] < 5,
    {
        let mut cells: [i8; 100] = [0i8; 100];
        let mut i: usize = 0;
        match board {
            Some(b) => {
                while i < BOARD_SIZE
                    invariant
                        i <= 100,
                        b@.len() == 100,
                        cells@.len() == 100,
                        forall|j: int| 0 <= j < i ==> cells@[j] == b@[j],
                    decreases 100 - i,
                {
                    cells[i] = b[i];
                    i = i + 1;
                }
                assert(cells@ =~= b@);
            },
            None => {
                while i < BOARD_SIZE
                    invariant
                        i <= 100,
                        cells@.len() == 100,
                        forall|j: int| 0 <= j < i ==> 0 <= #[trigger] cells@[j] < 5,
                    decreases 100 - i,
                {
                    cells[i] = draw_color();
                    i = i + 1;
                }
            },
        }
        proof {
            lemma_count_bound(cells@);
        }
        PopStarEngine { board: cells, score: 0, total_score: 0 }
    }

    /// Whether some move earns points: some tile has an equal tile right of it
    /// or below it.
    pub fn has_moves(&self) -> (m: bool)
        ensures
            m == some_pair(self.board@),
    {
        let ghost b = self.board@;
        let mut r: usize = 0;
        while r < HEIGHT
            invariant
                r <= 10,
                b == self.board@,
                forall|p: (usize, usize), d: int|
                    #![trigger step(p, d)]
                    in_grid(p) && p.0 < r && (d == 0 || d == 2) && at(b, p) != EMPTY && step(p, d) is Some
                        ==> at(b, step(p, d)->0) != at(b, p),
            decreases 10 - r,
        {
            let mut c: usize = 0;
            while c < WIDTH
                invariant
                    r < 10,
                    c <= 10,
                    b == self.board@,
                    forall|p: (usize, usize), d: int|
                        #![trigger step(p, d)]
                        in_grid(p) && (p.0 < r || (p.0 == r && p.1 < c)) && (d == 0 || d == 2) && at(b, p)
                            != EMPTY && step(p, d) is Some ==> at(b, step(p, d)->0) != at(b, p),
                decreases 10 - c,
            {
                let color = self.board[self.idx(r, c)];
                if color != EMPTY {
                    if c + 1 < WIDTH && self.board[self.idx(r, c + 1)] == color {
                        assert(step((r, c), 0) == Some((r, (c + 1) as usize)));
                        return true;
                    }
                    if r + 1 < HEIGHT && self.board[self.idx(r + 1, c)] == color {
                        assert(step((r, c), 2) == Some(((r + 1) as usize, c)));
                        return true;
                    }
                }
                c = c + 1;
            }
            r = r + 1;
        }
        false
    }

    fn neighbor(r: usize, c: usize, d: usize) -> (res: Option<(usize, usize)>)
        requires
            r < 10,
            c < 10,
            d < 4,
        ensures
            res == step((r, c), d as int),
    {
        if d == 0 {
            if c + 1 < WIDTH { Some((r, c + 1)) } else { None }
        } else if d == 1 {
            if c > 0 { Some((r, c - 1)) } else { None }
        } else if d == 2 {
            if r + 1 < HEIGHT { Some((r + 1, c)) } else { None }
        } else {
            if r > 0 { Some((r - 1, c)) } else { None }
        }
    }

    /// The board as rows, top row first, each row left to right.
    pub fn rows(&self) -> (g: Vec<Vec<i8>>)
        ensures
            g@.len() == 10,
            forall|r: int| 0 <= r < 10 ==> (#[trigger] g@[r])@.len() == 10,
            forall|r: int, c: int| 0 <= r < 10 && 0 <= c < 10 ==> g@[r]@[c] == self.board@[pos(r, c)],
    {
        let mut res: Vec<Vec<i8>> = Vec::new();
        let mut r: usize = 0;
        while r < HEIGHT
            invariant
                r <= 10,
                res@.len() == r,
                forall|q: int| 0 <= q < r ==> (#[trigger] res@[q])@.len() == 10,
                forall|q: int, c: int| 0 <= q < r && 0 <= c < 10 ==> res@[q]@[c] == self.board@[pos(q, c)],
            decreases 10 - r,
        {
            let mut row: Vec<i8> = Vec::new();
            let mut c: usize = 0;
            while c < WIDTH
                invariant
                    r < 10,
                    c <= 10,
                    row@.len() == c,
                    forall|k: int| 0 <= k < c ==> row@[k] == self.board@[pos(r as int, k)],
                decreases 10 - c,
            {
                row.push(self.board[self.idx(r, c)]);
                c = c + 1;
            }
            res.push(row);
            r = r + 1;
        }
        res
    }

    /// The connected group of cell `(r, c)`, each cell once, in no promised
    /// order; empty when the cell is outside the grid or holds no tile.
    pub fn get_connected_group(&self, r: usize, c: usize) -> (g: Vec<(usize, usize)>)
        ensures
            g@.no_duplicates(),
            g@.to_set() == component(self.board@, (r, c)),
    {
        if r >= HEIGHT || c >= WIDTH {
            let g: Vec<(usize, usize)> = Vec::new();
            assert(g@.to_set() =~= Set::empty());
            return g;
        }
        let color = self.board[self.idx(r, c)];
        if color == EMPTY {
            let g: Vec<(usize, usize)> = Vec::new();
            assert(g@.to_set() =~= Set::empty());
            return g;
        }
        let ghost b = self.board@;
        let ghost start = (r, c);
        let mut visited: Vec<bool> = Vec::new();
        let mut i: usize = 0;
        while i < BOARD_SIZE
            invariant
                i <= 100,
                visited@.len() == i,
                forall|j: int| 0 <= j < i ==> !visited@[j],
                marked(visited@) == 0,
            decreases 100 - i,
        {
            let ghost before = visited@;
            visited.push(false);
            assert(visited@.drop_last() =~= before);
            i = i + 1;
        }
        let mut group: Vec<(usize, usize)> = Vec::new();
        let mut stack: Vec<(usize, usize)> = Vec::new();
        proof {
            lemma_marked_set(visited@, pos(r as int, c as int));
            let path = seq![start];
            assert(path[path.len() - 1] == start);
            assert(is_path(b, path));
        }
        let i0 = self.idx(r, c);
        visited.set(i0, true);
        group.push((r, c));
        stack.push((r, c));
        while stack.len() > 0
            invariant
                b == self.board@,
                in_grid(start),
                at(b, start) == color,
                color != EMPTY,
                visited@.len() == 100,
                marked(visited@) == group@.len(),
                group@.len() <= 100,
                forall|p: (usize, usize)|
                    in_grid(p) ==> (visited@[pos(p.0 as int, p.1 as int)] <==> #[trigger] group@.contains(p)),
                forall|j: int|
                    0 <= j < group@.len() ==> in_grid(#[trigger] group@[j]) && reachable(b, start, group@[j]),
                group@.no_duplicates(),
                group@.contains(start),
                stack@.no_duplicates(),
                forall|j: int| 0 <= j < stack@.len() ==> group@.contains(#[trigger] stack@[j]),
                forall|p: (usize, usize)|
                    #[trigger] group@.contains(p) && !stack@.contains(p) ==> closed_at(b, group@, p),
            decreases 2 * (100 - group@.len()) + stack@.len(),
        {
            proof {
                lemma_marked_bound(visited@);
            }
            let ghost old_stack = stack@;
            let (cr, cc) = stack.pop().unwrap();
            let ghost p = (cr, cc);
            assert(stack@ =~= old_stack.drop_last());
            assert(group@.contains(old_stack[old_stack.len() - 1]));
            assert forall|q: (usize, usize)|
                #[trigger] group@.contains(q) && !stack@.contains(q) && q != p implies closed_at(
                b,
                group@,
                q,
            ) by {
                if old_stack.contains(q) {
                    let k = choose|k: int| 0 <= k < old_stack.len() && old_stack[k] == q;
                    if k < old_stack.len() - 1 {
                        assert(stack@[k] == q);
                    }
                }
            }
            assert(!stack@.contains(p)) by {
                if stack@.contains(p) {
                    let k = choose|k: int| 0 <= k < stack@.len() && stack@[k] == p;
                    assert(old_stack[k] == p);
                }
            }
            let ghost g0 = group@.len();
            let ghost s0 = stack@.len();
            let mut d: usize = 0;
            while d < 4
                invariant
                    b == self.board@,
                    in_grid(start),
                    at(b, start) == color,
                    color != EMPTY,
                    d <= 4,
                    group@.contains(p),
                    in_grid(p),
                    reachable(b, start, p),
                    p == (cr, cc),
                    at(b, p) == color,
                    !stack@.contains(p),
                    visited@.len() == 100,
                    marked(visited@) == group@.len(),
                    forall|q: (usize, usize)|
                        in_grid(q) ==> (visited@[pos(q.0 as int, q.1 as int)] <==> #[trigger] group@.contains(q)),
                    forall|j: int|
                        0 <= j < group@.len() ==> in_grid(#[trigger] group@[j]) && reachable(b, start, group@[j]),
                    group@.no_duplicates(),
                    group@.contains(start),
                    stack@.no_duplicates(),
                    forall|j: int| 0 <= j < stack@.len() ==> group@.contains(#[trigger] stack@[j]),
                    forall|q: (usize, usize)|
                        #[trigger] group@.contains(q) && !stack@.contains(q) && q != p ==> closed_at(b, group@, q),
                    forall|dd: int|
                        0 <= dd < d && #[trigger] step(p, dd) is Some && at(b, step(p, dd)->0) == at(b, p)
                            ==> group@.contains(step(p, dd)->0),
                    group@.len() >= g0,
                    group@.len() <= 100,
                    stack@.len() + g0 == s0 + group@.len(),
                decreases 4 - d,
            {
                if let Some((nr, nc)) = Self::neighbor(cr, cc, d) {
                    proof {
                        lemma_step_adjacent(p, d as int);
                    }
                    let ni = self.idx(nr, nc);
                    if !visited[ni] && self.board[ni] == color {
                        let ghost q = (nr, nc);
                        proof {
                            lemma_marked_set(visited@, ni as int);
                            lemma_extend(b, start, p, q);
                            lemma_marked_bound(visited@.update(ni as int, true));
                        }
                        let ghost og = group@;
                        let ghost os = stack@;
                        visited.set(ni, true);
                        stack.push((nr, nc));
                        group.push((nr, nc));
                        proof {
                            assert forall|x: (usize, usize)|
                                in_grid(x) implies (visited@[pos(x.0 as int, x.1 as int)]
                                    <==> #[trigger] group@.contains(x)) by {
                                if x == q {
                                    assert(group@[group@.len() - 1] == q);
                                } else {
                                    if og.contains(x) {
                                        let j = choose|j: int| 0 <= j < og.len() && og[j] == x;
                                        assert(group@[j] == x);
                                    }
                                    if group@.contains(x) {
                                        let j = choose|j: int| 0 <= j < group@.len() && group@[j] == x;
                                        assert(og[j] == x);
                                    }
                                }
                            }
                            assert forall|x: (usize, usize)|
                                #[trigger] group@.contains(x) && !stack@.contains(x) && x != p
                                    implies closed_at(b, group@, x) by {
                                let j = choose|j: int| 0 <= j < group@.len() && group@[j] == x;
                                if j < og.len() {
                                    assert(og.contains(x));
                                    if os.contains(x) {
                                        let k = choose|k: int| 0 <= k < os.len() && os[k] == x;
                                        assert(stack@[k] == x);
                                    }
                                    assert(closed_at(b, og, x));
                                    assert forall|dd: int|
                                        0 <= dd < 4 && #[trigger] step(x, dd) is Some && at(b, step(x, dd)->0) == at(b, x)
                                            implies group@.contains(step(x, dd)->0) by {
                                        let y = step(x, dd)->0;
                                        assert(og.contains(y));
                                        let k = choose|k: int| 0 <= k < og.len() && og[k] == y;
                                        assert(group@[k] == y);
                                    }
                                } else {
                                    assert(stack@[stack@.len() - 1] == x);
                                }
                            }
                            assert forall|dd: int|
                                0 <= dd < d + 1 && #[trigger] step(p, dd) is Some && at(b, step(p, dd)->0) == at(b, p)
                                    implies group@.contains(step(p, dd)->0) by {
                                let y = step(p, dd)->0;
                                if y == q {
                                    assert(group@[group@.len() - 1] == q);
                                } else {
                                    assert(og.contains(y));
                                    let k = choose|k: int| 0 <= k < og.len() && og[k] == y;
                                    assert(group@[k] == y);
                                }
                            }
                            assert forall|j: int| 0 <= j < stack@.len() implies group@.contains(#[trigger] stack@[j]) by {
                                if j < os.len() {
                                    assert(og.contains(os[j]));
                                    let k = choose|k: int| 0 <= k < og.len() && og[k] == os[j];
                                    assert(group@[k] == os[j]);
                                } else {
                                    assert(group@[group@.len() - 1] == q);
                                }
                            }
                            assert(!og.contains(q));
                            assert(!os.contains(q));
                            assert(group@.contains(start)) by {
                                let k = choose|k: int| 0 <= k < og.len() && og[k] == start;
                                assert(group@[k] == start);
                            }
                            assert(group@.contains(p)) by {
                                let k = choose|k: int| 0 <= k < og.len() && og[k] == p;
                                assert(group@[k] == p);
                            }
                            assert(!stack@.contains(p)) by {
                                if stack@.contains(p) {
                                    let k = choose|k: int| 0 <= k < stack@.len() && stack@[k] == p;
                                    assert(k < os.len());
                                    assert(os[k] == p);
                                }
                            }
                        }
                    }
                }
                d = d + 1;
            }
        }
        proof {
            let comp = component(b, start);
            assert forall|q: (usize, usize)| group@.to_set().contains(q) <==> comp.contains(q) by {
                if group@.contains(q) {
                    let j = choose|j: int| 0 <= j < group@.len() && group@[j] == q;
                    assert(reachable(b, start, group@[j]));
                }
                if comp.contains(q) {
                    let path = choose|path: Seq<(usize, usize)>|
                        is_path(b, path) && path[0] == start && #[trigger] path[path.len() - 1] == q;
                    lemma_closed_holds_path(b, group@, path);
                }
            }
            assert(group@.to_set() =~= comp);
        }
        group
    }

    /// Removes the connected group of `(r, c)` when it holds two tiles or
    /// more, and returns the points earned: `5 n²` for a group of `n` tiles.
    /// The cells are emptied, the tiles fall and empty columns close up; both
    /// scores grow by the points earned. An empty cell, a cell outside the grid
    /// or a lone tile earns nothing and changes nothing.
    ///
    /// `known_group`, when given, must be the group of `(r, c)` on the current
    /// board; it spares the search.
    pub fn eliminate(&mut self, r: usize, c: usize, known_group: Option<Vec<(usize, usize)>>) -> (gained: i32)
        requires
            old(self).wf(),
            in_grid((r, c)) && at(old(self).board@, (r, c)) != EMPTY ==> (known_group matches Some(g)
                ==> is_group_of(old(self).board@, (r, c), g@)),
        ensures
            final(self).wf(),
            component(old(self).board@, (r, c)).finite(),
            (final(self).board@, final(self).total_score as int) == play(
                old(self).board@,
                old(self).total_score as int,
                (r, c),
            ),
            ({
                let b = old(self).board@;
                let comp = component(b, (r, c));
                let n = comp.len() as int;
                if n < 2 {
                    gained == 0 && *final(self) == *old(self)
                } else {
                    &&& gained == gain(n)
                    &&& final(self).score == old(self).score + gained
                    &&& final(self).total_score == old(self).total_score + gained
                    &&& final(self).board@ == after_removal(b, comp)
                    &&& count(final(self).board@) == count(b) - n
                    &&& no_floating(final(self).board@)
                    &&& columns_packed(final(self).board@)
                }
            }),
    {
        let ghost b = self.board@;
        let ghost start = (r, c);
        if r >= HEIGHT || c >= WIDTH {
            assert(component(b, start) =~= Set::empty());
            return 0;
        }
        if self.board[self.idx(r, c)] == EMPTY {
            assert(component(b, start) =~= Set::empty());
            return 0;
        }
        let group = match known_group {
            Some(g) => g,
            None => self.get_connected_group(r, c),
        };
        proof {
            lemma_group_len(b, start, group@);
        }
        let n = group.len();
        if n < 2 {
            return 0;
        }
        let ghost comp = component(b, start);
        let mut j: usize = 0;
        while j < n
            invariant
                n == group@.len(),
                j <= n,
                is_group_of(b, start, group@),
                comp == component(b, start),
                self.board@.len() == 100,
                self.score == old(self).score,
                self.total_score == old(self).total_score,
                b == old(self).board@,
                count(self.board@) + j == count(b),
                forall|rr: int, cc: int|
                    0 <= rr < 10 && 0 <= cc < 10 ==> self.board@[pos(rr, cc)] == if group@.subrange(0, j as int).contains(
                        (rr as usize, cc as usize),
                    ) {
                        EMPTY
                    } else {
                        b[pos(rr, cc)]
                    },
            decreases n - j,
        {
            let (gr, gc) = group[j];
            proof {
                assert(group@.to_set().contains(group@[j as int]));
                lemma_component_cells(b, start, (gr, gc));
                if group@.subrange(0, j as int).contains((gr, gc)) {
                    let k = choose|k: int| 0 <= k < j && group@.subrange(0, j as int)[k] == (gr, gc);
                    assert(group@[k] == group@[j as int]);
                }
                assert(self.board@[pos(gr as int, gc as int)] == b[pos(gr as int, gc as int)]);
            }
            let i = self.idx(gr, gc);
            proof {
                lemma_count_update(self.board@, i as int, EMPTY);
            }
            self.board[i] = EMPTY;
            proof {
                let pre = group@.subrange(0, j as int);
                let post = group@.subrange(0, j as int + 1);
                assert(post =~= pre.push((gr, gc)));
                assert forall|rr: int, cc: int| 0 <= rr < 10 && 0 <= cc < 10 implies self.board@[pos(rr, cc)] == if post.contains(
                    (rr as usize, cc as usize),
                ) {
                    EMPTY
                } else {
                    b[pos(rr, cc)]
                } by {
                    let q = (rr as usize, cc as usize);
                    if q == (gr, gc) {
                        assert(post[j as int] == q);
                    } else {
                        if post.contains(q) {
                            let k = choose|k: int| 0 <= k < post.len() && post[k] == q;
                            assert(pre[k] == q);
                        }
                        if pre.contains(q) {
                            let k = choose|k: int| 0 <= k < pre.len() && pre[k] == q;
                            assert(post[k] == q);
                        }
                        assert(pos(rr, cc) != pos(gr as int, gc as int));
                    }
                }
            }
            j = j + 1;
        }
        proof {
            assert(group@.subrange(0, n as int) =~= group@);
            let cl = cleared(b, comp);
            assert forall|rr: int, cc: int| 0 <= rr < 10 && 0 <= cc < 10 implies self.board@[pos(rr, cc)] == cl[pos(rr, cc)] by {
                lemma_grid(
                    |r: int, c: int| if comp.contains((r as usize, c as usize)) { EMPTY } else { b[pos(r, c)] },
                    rr,
                    cc,
                );
                assert(group@.contains((rr as usize, cc as usize)) == group@.to_set().contains((rr as usize, cc as usize)));
            }
            lemma_same_board(self.board@, cl);
            lemma_count_bound(b);
            let k = count(b) as int;
            let t = self.total_score as int;
            let nn = n as int;
            assert(5 * (100 - k) * (100 - k) + 5 * nn * nn <= 5 * (100 - (k - nn)) * (100 - (k - nn))) by (nonlinear_arith)
                requires
                    0 <= nn <= k <= 100,
            ;
            assert(5 * (100 - (k - nn)) * (100 - (k - nn)) <= 50000) by (nonlinear_arith)
                requires
                    0 <= nn <= k <= 100,
            ;
            assert(nn * nn * 5 <= 50000) by (nonlinear_arith)
                requires
                    0 <= nn <= 100,
            ;
        }
        let move_score = (n * n * 5) as i32;
        self.score = self.score + move_score;
        self.total_score = self.total_score + move_score;
        self.apply_gravity();
        self.apply_column_shift();
        proof {
            lemma_removal_no_floating(b, comp);
            let k = count(b) as int;
            let nn = n as int;
            let m = 100 - count(self.board@);
            assert(m == 100 - (k - nn));
            let t0 = old(self).total_score as int;
            assert(t0 <= 5 * (100 - k) * (100 - k));
            assert(self.total_score == t0 + nn * nn * 5);
            assert(self.total_score <= 5 * m * m) by (nonlinear_arith)
                requires
                    t0 <= 5 * (100 - k) * (100 - k),
                    self.total_score == t0 + nn * nn * 5,
                    m == 100 - (k - nn),
                    0 <= nn <= k <= 100,
            ;
        }
        move_score
    }

    /// Lets the tiles of every column fall to the bottom, keeping their order.
    #[verifier::rlimit(60)]
    fn apply_gravity(&mut self)
        ensures
            final(self).board@ == fallen(old(self).board@),
            no_floating(final(self).board@),
            count(final(self).board@) == count(old(self).board@),
            final(self).score == old(self).score,
            final(self).total_score == old(self).total_score,
    {
        let ghost b0 = self.board@;
        let mut c: usize = 0;
        while c < WIDTH
            invariant
                c <= 10,
                self.board@.len() == 100,
                self.score == old(self).score,
                self.total_score == old(self).total_score,
                b0 == old(self).board@,
                count(self.board@) == count(b0),
                forall|r: int, j: int|
                    0 <= r < 10 && 0 <= j < c ==> self.board@[pos(r, j)] == settled(column(b0, j))[r],
                forall|r: int, j: int|
                    0 <= r < 10 && c <= j < 10 ==> self.board@[pos(r, j)] == b0[pos(r, j)],
            decreases 10 - c,
        {
            let ghost o = column(b0, c as int);
            let mut top: usize = HEIGHT;
            let mut w: usize = 0;
            while top > 0
                invariant
                    c < 10,
                    top <= 10,
                    self.board@.len() == 100,
                    self.score == old(self).score,
                    self.total_score == old(self).total_score,
                    b0 == old(self).board@,
                    o == column(b0, c as int),
                    count(self.board@) == count(b0),
                    w == tiles(o.subrange(top as int, 10)).len(),
                    w <= 10 - top,
                    forall|r: int| 0 <= r < top ==> self.board@[pos(r, c as int)] == o[r],
                    forall|r: int| top <= r < 10 - w ==> self.board@[pos(r, c as int)] == EMPTY,
                    forall|r: int|
                        10 - w <= r < 10 ==> self.board@[pos(r, c as int)] == tiles(
                            o.subrange(top as int, 10),
                        )[r - (10 - w)],
                    forall|r: int, j: int|
                        0 <= r < 10 && 0 <= j < c ==> self.board@[pos(r, j)] == settled(column(b0, j))[r],
                    forall|r: int, j: int|
                        0 <= r < 10 && c < j < 10 ==> self.board@[pos(r, j)] == b0[pos(r, j)],
                decreases top,
            {
                let r = top - 1;
                let ghost t = tiles(o.subrange(top as int, 10));
                proof {
                    let sub = o.subrange(r as int, 10);
                    assert(sub.skip(1) =~= o.subrange(top as int, 10));
                    assert(sub[0] == o[r as int]);
                }
                let i = self.idx(r, c);
                let x = self.board[i];
                if x != EMPTY {
                    let target = HEIGHT - 1 - w;
                    if target != r {
                        let ti = self.idx(target, c);
                        proof {
                            lemma_count_update(self.board@, ti as int, x);
                            lemma_count_update(self.board@.update(ti as int, x), i as int, EMPTY);
                        }
                        self.board[ti] = x;
                        self.board[i] = EMPTY;
                    }
                    proof {
                        let nt = tiles(o.subrange(r as int, 10));
                        assert(nt =~= seq![x] + t);
                    }
                    w = w + 1;
                }
                top = r;
            }
            proof {
                assert(o.subrange(0, 10) =~= o);
            }
            c = c + 1;
        }
        proof {
            let f = fallen(b0);
            assert forall|r: int, j: int| 0 <= r < 10 && 0 <= j < 10 implies self.board@[pos(r, j)] == f[pos(r, j)] by {
                lemma_grid(|r: int, c: int| settled(column(b0, c))[r], r, j);
            }
            lemma_same_board(self.board@, f);
            lemma_fallen_no_floating(b0);
        }
    }

    /// Closes up the empty columns: the columns that hold a tile move left,
    /// keeping their order.
    fn apply_column_shift(&mut self)
        ensures
            final(self).board@ == compacted(old(self).board@),
            columns_packed(final(self).board@),
            count(final(self).board@) == count(old(self).board@),
            final(self).score == old(self).score,
            final(self).total_score == old(self).total_score,
    {
        let ghost b0 = self.board@;
        let mut write_col: usize = 0;
        let mut c: usize = 0;
        while c < WIDTH
            invariant
                c <= 10,
                self.board@.len() == 100,
                self.score == old(self).score,
                self.total_score == old(self).total_score,
                b0 == old(self).board@,
                count(self.board@) == count(b0),
                write_col == kept_upto(b0, c as int).len(),
                forall|r: int, j: int|
                    0 <= r < 10 && 0 <= j < write_col ==> self.board@[pos(r, j)] == b0[pos(
                        r,
                        kept_upto(b0, c as int)[j],
                    )],
                forall|r: int, j: int|
                    0 <= r < 10 && write_col <= j < c ==> self.board@[pos(r, j)] == EMPTY,
                forall|r: int, j: int|
                    0 <= r < 10 && c <= j < 10 ==> self.board@[pos(r, j)] == b0[pos(r, j)],
            decreases 10 - c,
        {
            proof {
                lemma_kept_bounds(b0, c as int);
            }
            let mut is_empty = true;
            let mut r: usize = 0;
            while r < HEIGHT
                invariant
                    c < 10,
                    r <= 10,
                    self.board@.len() == 100,
                    is_empty <==> forall|q: int| 0 <= q < r ==> self.board@[pos(q, c as int)] == EMPTY,
                decreases 10 - r,
            {
                if self.board[self.idx(r, c)] != EMPTY {
                    is_empty = false;
                }
                r = r + 1;
            }
            assert(is_empty <==> column_empty(b0, c as int));
            if !is_empty {
                if c != write_col {
                    let ghost mid = self.board@;
                    let mut r: usize = 0;
                    while r < HEIGHT
                        invariant
                            c < 10,
                            write_col < c,
                            r <= 10,
                            self.board@.len() == 100,
                            self.score == old(self).score,
                            self.total_score == old(self).total_score,
                            count(self.board@) == count(b0),
                            forall|q: int| 0 <= q < r ==> self.board@[pos(q, write_col as int)] == mid[pos(q, c as int)],
                            forall|q: int| 0 <= q < r ==> self.board@[pos(q, c as int)] == EMPTY,
                            forall|q: int, j: int|
                                r <= q < 10 && 0 <= j < 10 ==> self.board@[pos(q, j)] == mid[pos(q, j)],
                            forall|q: int, j: int|
                                0 <= q < 10 && 0 <= j < 10 && j != c && j != write_col ==> self.board@[pos(q, j)] == mid[pos(q, j)],
                            forall|q: int| 0 <= q < 10 ==> mid[pos(q, write_col as int)] == EMPTY,
                        decreases 10 - r,
                    {
                        let from = self.idx(r, c);
                        let to = self.idx(r, write_col);
                        let x = self.board[from];
                        proof {
                            lemma_count_update(self.board@, to as int, x);
                            lemma_count_update(self.board@.update(to as int, x), from as int, EMPTY);
                        }
                        self.board[to] = x;
                        self.board[from] = EMPTY;
                        r = r + 1;
                    }
                }
                write_col = write_col + 1;
            }
            c = c + 1;
        }
        proof {
            let k = kept_upto(b0, 10);
            let f = compacted(b0);
            assert forall|r: int, j: int| 0 <= r < 10 && 0 <= j < 10 implies self.board@[pos(r, j)] == f[pos(r, j)] by {
                lemma_grid(|r: int, c: int| if c < k.len() { b0[pos(r, k[c])] } else { EMPTY }, r, j);
            }
            lemma_same_board(self.board@, f);
            lemma_compacted_packed(b0);
        }
    }

    /// The bonus for the tiles left on the board: nothing from ten tiles on,
    /// else `2000 - 20 k²` floored at zero.
    pub fn calculate_end_bonus(&self) -> (r: i32)
        ensures
            r == end_bonus(count(self.board@) as int),
    {
        let mut k: i32 = 0;
        let mut i: usize = 0;
        while i < BOARD_SIZE
            invariant
                i <= 100,
                k == count(self.board@.subrange(0, i as int)),
                k <= i,
            decreases 100 - i,
        {
            proof {
                let s = self.board@.subrange(0, i as int + 1);
                assert(s.drop_last() =~= self.board@.subrange(0, i as int));
            }
            if self.board[i] != EMPTY {
                k = k + 1;
            }
            i = i + 1;
        }
        assert(self.board@.subrange(0, 100) =~= self.board@);
        if k >= 10 {
            0
        } else {
            assert(0 <= k * k <= 81) by (nonlinear_arith)
                requires
                    0 <= k < 10,
            ;
            let bonus = 2000 - k * k * 20;
            if bonus > 0 { bonus } else { 0 }
        }
    }
}

} // verus!
