//! Mathematical model of the 19x19 board: flat grid indices, 4-adjacency,
//! stone paths and connected groups, liberties, dead stones, and the pointwise
//! effect of playing or retracting a move. Every board-level contract in the
//! crate is stated over these definitions.
use vstd::prelude::*;
use crate::Player;
use crate::goban::Stone;

verus! {

pub open spec fn on_board(i: int) -> bool {
    0 <= i < 361
}

pub open spec fn grid_wf(s: Seq<Stone>) -> bool {
    s.len() == 361
}

/// The stone standing for an empty intersection.
pub open spec fn blank_stone() -> Stone {
    Stone { visible: false, color: Player::Black }
}

pub open spec fn stone_of(c: Player) -> Stone {
    Stone { visible: true, color: c }
}

pub open spec fn occupied(s: Seq<Stone>, i: int) -> bool {
    on_board(i) && s[i].visible
}

/// 4-adjacency of flat indices `x*19 + y`: same column and one row apart, or
/// same row and one column apart.
pub open spec fn adjacent(a: int, b: int) -> bool {
    on_board(a) && on_board(b) && ((a / 19 == b / 19 && (b == a + 1 || b == a - 1)) || b == a + 19
        || b == a - 19)
}

/// A non-empty sequence of occupied indices, all of the colour of its first
/// element, each consecutive pair 4-adjacent.
pub open spec fn is_stone_path(s: Seq<Stone>, p: Seq<int>) -> bool {
    &&& p.len() >= 1
    &&& forall|k: int|
        0 <= k < p.len() ==> occupied(s, #[trigger] p[k]) && s[p[k]].color == s[p[0]].color
    &&& forall|k: int| 1 <= k < p.len() ==> adjacent(p[k - 1], #[trigger] p[k])
}

/// `b` belongs to the maximal same-colour group of the stone at `a`.
pub open spec fn connected(s: Seq<Stone>, a: int, b: int) -> bool {
    exists|p: Seq<int>| is_stone_path(s, p) && p.first() == a && p.last() == b
}

pub open spec fn group_set(s: Seq<Stone>, a: int) -> Set<int> {
    Set::new(|b: int| connected(s, a, b))
}

/// `l` is an empty intersection adjacent to some stone of `a`'s group.
pub open spec fn liberty_of(s: Seq<Stone>, a: int, l: int) -> bool {
    exists|q: int| connected(s, a, q) && adjacent(q, l) && !s[l].visible
}

pub open spec fn liberty_set(s: Seq<Stone>, a: int) -> Set<int> {
    Set::new(|l: int| liberty_of(s, a, l))
}

pub open spec fn has_liberty(s: Seq<Stone>, a: int) -> bool {
    exists|l: int| liberty_of(s, a, l)
}

/// The stone at `i` belongs to a group with zero liberties.
pub open spec fn dead_at(s: Seq<Stone>, i: int) -> bool {
    occupied(s, i) && !has_liberty(s, i)
}

// ---------------------------------------------------------------------------
// Connectivity lemmas
// ---------------------------------------------------------------------------

pub proof fn lemma_connected_self(s: Seq<Stone>, a: int)
    requires
        occupied(s, a),
    ensures
        connected(s, a, a),
{
    let p = seq![a];
    assert(p.len() == 1);
    assert(p[0] == a);
    assert(is_stone_path(s, p));
    assert(p.first() == a && p.last() == a);
}

pub proof fn lemma_connected_bounds(s: Seq<Stone>, a: int, b: int)
    requires
        connected(s, a, b),
    ensures
        occupied(s, a),
        occupied(s, b),
        s[b].color == s[a].color,
{
    let p = choose|p: Seq<int>| is_stone_path(s, p) && p.first() == a && p.last() == b;
    assert(p[0] == a);
    assert(p[p.len() - 1] == b);
}

pub proof fn lemma_connected_step(s: Seq<Stone>, a: int, b: int, c: int)
    requires
        connected(s, a, b),
        adjacent(b, c),
        occupied(s, c),
        s[c].color == s[b].color,
    ensures
        connected(s, a, c),
{
    let p = choose|p: Seq<int>| is_stone_path(s, p) && p.first() == a && p.last() == b;
    let q = p.push(c);
    assert(q[q.len() - 1] == c);
    assert forall|k: int| 0 <= k < q.len() implies occupied(s, #[trigger] q[k]) && s[q[k]].color
        == s[q[0]].color by {
        if k < p.len() {
            assert(q[k] == p[k]);
        } else {
            assert(q[k] == c);
            assert(p[p.len() - 1] == b);
        }
    }
    assert forall|k: int| 1 <= k < q.len() implies adjacent(q[k - 1], #[trigger] q[k]) by {
        if k < p.len() {
            assert(q[k] == p[k] && q[k - 1] == p[k - 1]);
        } else {
            assert(q[k] == c && q[k - 1] == p[p.len() - 1] && p[p.len() - 1] == b);
        }
    }
    assert(is_stone_path(s, q) && q.first() == a && q.last() == c);
}

pub proof fn lemma_connected_sym(s: Seq<Stone>, a: int, b: int)
    requires
        connected(s, a, b),
    ensures
        connected(s, b, a),
{
    let p = choose|p: Seq<int>| is_stone_path(s, p) && p.first() == a && p.last() == b;
    let n = p.len() as int;
    let q = Seq::new(p.len(), |k: int| p[n - 1 - k]);
    assert(q.first() == b);
    assert(q.last() == p[0]);
    assert(s[q[0]].color == s[p[0]].color);
    assert forall|k: int| 0 <= k < q.len() implies occupied(s, #[trigger] q[k]) && s[q[k]].color
        == s[q[0]].color by {
        assert(q[k] == p[n - 1 - k]);
    }
    assert forall|k: int| 1 <= k < q.len() implies adjacent(q[k - 1], #[trigger] q[k]) by {
        assert(q[k] == p[n - 1 - k] && q[k - 1] == p[n - k]);
        assert(adjacent(p[n - k - 1], p[n - k]));
        assert(adjacent(p[n - k], p[n - k - 1]));
    }
    assert(is_stone_path(s, q) && q.first() == b && q.last() == a);
}

pub proof fn lemma_connected_trans(s: Seq<Stone>, a: int, b: int, c: int)
    requires
        connected(s, a, b),
        connected(s, b, c),
    ensures
        connected(s, a, c),
{
    let p = choose|p: Seq<int>| is_stone_path(s, p) && p.first() == a && p.last() == b;
    let q = choose|q: Seq<int>| is_stone_path(s, q) && q.first() == b && q.last() == c;
    let r = p + q.subrange(1, q.len() as int);
    assert(r.len() == p.len() + q.len() - 1);
    assert(r[0] == p[0]);
    assert(r[r.len() - 1] == if q.len() == 1 { p[p.len() - 1] } else { q[q.len() - 1] });
    assert(s[b].color == s[a].color) by {
        assert(p[p.len() - 1] == b && p[0] == a);
    }
    assert forall|k: int| 0 <= k < r.len() implies occupied(s, #[trigger] r[k]) && s[r[k]].color
        == s[r[0]].color by {
        if k < p.len() {
            assert(r[k] == p[k]);
        } else {
            assert(r[k] == q[k - p.len() + 1]);
            assert(s[q[k - p.len() + 1]].color == s[q[0]].color);
            assert(q[0] == b);
        }
    }
    assert forall|k: int| 1 <= k < r.len() implies adjacent(r[k - 1], #[trigger] r[k]) by {
        if k < p.len() {
            assert(r[k] == p[k] && r[k - 1] == p[k - 1]);
        } else if k == p.len() {
            assert(r[k - 1] == p[p.len() - 1] && p[p.len() - 1] == b && q[0] == b);
            assert(r[k] == q[1]);
            assert(adjacent(q[0], q[1]));
        } else {
            assert(r[k] == q[k - p.len() + 1] && r[k - 1] == q[k - p.len()]);
            assert(adjacent(q[k - p.len()], q[k - p.len() + 1]));
        }
    }
    assert(is_stone_path(s, r) && r.first() == a && r.last() == c);
}

/// A set that contains `a`, holds only points, and is closed under same-colour
/// adjacency contains the whole group of `a`.
proof fn lemma_path_in_closed(s: Seq<Stone>, p: Seq<int>, cset: Set<int>)
    requires
        is_stone_path(s, p),
        cset.contains(p.first()),
        forall|x: int, y: int|
            cset.contains(x) && adjacent(x, y) && occupied(s, y) && s[y].color
                == s[p.first()].color ==> cset.contains(y),
    ensures
        cset.contains(p.last()),
    decreases p.len(),
{
    if p.len() == 1 {
    } else {
        let q = p.drop_last();
        assert(q.first() == p.first());
        assert forall|k: int| 0 <= k < q.len() implies occupied(s, #[trigger] q[k]) && s[q[k]].color
            == s[q[0]].color by {
            assert(q[k] == p[k]);
        }
        assert forall|k: int| 1 <= k < q.len() implies adjacent(q[k - 1], #[trigger] q[k]) by {
            assert(q[k] == p[k] && q[k - 1] == p[k - 1]);
        }
        assert(is_stone_path(s, q));
        lemma_path_in_closed(s, q, cset);
        assert(q.last() == p[p.len() - 2]);
        assert(adjacent(p[p.len() - 2], p[p.len() - 1]));
        assert(occupied(s, p.last()) && s[p.last()].color == s[p.first()].color);
    }
}

pub proof fn lemma_closed_component(s: Seq<Stone>, a: int, cset: Set<int>)
    requires
        cset.contains(a),
        occupied(s, a),
        forall|x: int, y: int|
            cset.contains(x) && adjacent(x, y) && occupied(s, y) && s[y].color == s[a].color
                ==> cset.contains(y),
    ensures
        forall|b: int| connected(s, a, b) ==> cset.contains(b),
{
    assert forall|b: int| connected(s, a, b) implies cset.contains(b) by {
        let p = choose|p: Seq<int>| is_stone_path(s, p) && p.first() == a && p.last() == b;
        lemma_path_in_closed(s, p, cset);
    }
}

pub proof fn lemma_group_shares_liberty(s: Seq<Stone>, a: int, b: int)
    requires
        connected(s, a, b),
    ensures
        has_liberty(s, a) <==> has_liberty(s, b),
        liberty_set(s, a) == liberty_set(s, b),
{
    lemma_connected_sym(s, a, b);
    assert forall|l: int| liberty_of(s, a, l) implies liberty_of(s, b, l) by {
        let q = choose|q: int| connected(s, a, q) && adjacent(q, l) && !s[l].visible;
        lemma_connected_trans(s, b, a, q);
    }
    assert forall|l: int| liberty_of(s, b, l) implies liberty_of(s, a, l) by {
        let q = choose|q: int| connected(s, b, q) && adjacent(q, l) && !s[l].visible;
        lemma_connected_trans(s, a, b, q);
    }
    assert(liberty_set(s, a) =~= liberty_set(s, b));
    assert(has_liberty(s, a) ==> has_liberty(s, b));
    assert(has_liberty(s, b) ==> has_liberty(s, a));
}

pub proof fn lemma_liberty_set_finite(s: Seq<Stone>, a: int)
    ensures
        liberty_set(s, a).finite(),
        liberty_set(s, a).len() <= 361,
{
    let all = vstd::set_lib::set_int_range(0, 361);
    vstd::set_lib::lemma_int_range(0, 361);
    assert forall|l: int| liberty_set(s, a).contains(l) implies all.contains(l) by {
        let q = choose|q: int| connected(s, a, q) && adjacent(q, l) && !s[l].visible;
    }
    assert(liberty_set(s, a).subset_of(all));
    vstd::set_lib::lemma_len_subset(liberty_set(s, a), all);
}

// ---------------------------------------------------------------------------
// Ascending enumeration of the indices below a bound that satisfy a predicate
// ---------------------------------------------------------------------------

pub open spec fn asc_indices(pred: spec_fn(int) -> bool, n: int) -> Seq<int>
    decreases n,
{
    if n <= 0 {
        Seq::empty()
    } else {
        let rest = asc_indices(pred, n - 1);
        if pred(n - 1) {
            rest.push(n - 1)
        } else {
            rest
        }
    }
}

pub proof fn lemma_asc_indices(pred: spec_fn(int) -> bool, n: int)
    ensures
        forall|k: int|
            0 <= k < asc_indices(pred, n).len() ==> pred(#[trigger] asc_indices(pred, n)[k]) && 0
                <= asc_indices(pred, n)[k] < n,
        forall|k1: int, k2: int|
            0 <= k1 < k2 < asc_indices(pred, n).len() ==> #[trigger] asc_indices(pred, n)[k1]
                < #[trigger] asc_indices(pred, n)[k2],
        forall|i: int| 0 <= i < n && pred(i) ==> asc_indices(pred, n).contains(i),
    decreases n,
{
    if n > 0 {
        lemma_asc_indices(pred, n - 1);
        let rest = asc_indices(pred, n - 1);
        let cur = asc_indices(pred, n);
        assert forall|i: int| 0 <= i < n && pred(i) implies cur.contains(i) by {
            if i < n - 1 {
                assert(rest.contains(i));
                let k = choose|k: int| 0 <= k < rest.len() && rest[k] == i;
                assert(cur[k] == i);
            } else {
                assert(pred(n - 1));
                assert(cur[cur.len() - 1] == n - 1);
            }
        }
    }
}

pub proof fn lemma_asc_indices_congruent(p1: spec_fn(int) -> bool, p2: spec_fn(int) -> bool, n: int)
    requires
        forall|i: int| 0 <= i < n ==> (#[trigger] p1(i) <==> p2(i)),
    ensures
        asc_indices(p1, n) == asc_indices(p2, n),
    decreases n,
{
    if n > 0 {
        lemma_asc_indices_congruent(p1, p2, n - 1);
    }
}

pub proof fn lemma_adjacent_sym(a: int, b: int)
    requires
        adjacent(a, b),
    ensures
        adjacent(b, a),
{
}

/// The four candidate neighbours of a board index, with the exact guard under
/// which each one is adjacent.
pub proof fn lemma_neighbor_adjacent(a: int)
    requires
        on_board(a),
    ensures
        a % 19 > 0 ==> adjacent(a, a - 1),
        a % 19 < 18 ==> a + 1 < 361 && adjacent(a, a + 1),
        a - 19 >= 0 ==> adjacent(a, a - 19),
        a + 19 < 361 ==> adjacent(a, a + 19),
{
    vstd::arithmetic::div_mod::lemma_fundamental_div_mod(a, 19);
    let d = a / 19;
    let m = a % 19;
    vstd::arithmetic::div_mod::lemma_mod_bound(a, 19);
    if m > 0 {
        vstd::arithmetic::div_mod::lemma_fundamental_div_mod_converse(a - 1, 19, d, m - 1);
    }
    if m < 18 {
        vstd::arithmetic::div_mod::lemma_fundamental_div_mod_converse(a + 1, 19, d, m + 1);
        assert(a + 1 == 19 * d + m + 1 && 19 * d + m + 1 < 361) by {
            assert(d <= 18);
        }
    }
}

/// Every neighbour of `a` is one of the four candidates, and the side
/// candidates force the corresponding column guard.
pub proof fn lemma_adjacent_cases(a: int, b: int)
    requires
        adjacent(a, b),
    ensures
        b == a - 1 || b == a + 1 || b == a - 19 || b == a + 19,
        b == a - 1 ==> a % 19 > 0,
        b == a + 1 ==> a % 19 < 18,
{
    vstd::arithmetic::div_mod::lemma_fundamental_div_mod(a, 19);
    vstd::arithmetic::div_mod::lemma_mod_bound(a, 19);
    let d = a / 19;
    let m = a % 19;
    if b == a - 1 {
        assert(a / 19 == b / 19);
        if m == 0 {
            vstd::arithmetic::div_mod::lemma_fundamental_div_mod_converse(a - 1, 19, d - 1, 18);
            assert(false);
        }
    }
    if b == a + 1 {
        assert(a / 19 == b / 19);
        if m == 18 {
            vstd::arithmetic::div_mod::lemma_fundamental_div_mod_converse(a + 1, 19, d + 1, 0);
            assert(false);
        }
    }
}

// ---------------------------------------------------------------------------
// The pointwise effect of a move
// ---------------------------------------------------------------------------

/// The enemy stones of `c` that are captured on the tentative grid `t`.
pub open spec fn captured_set(t: Seq<Stone>, c: Player) -> Set<int> {
    Set::new(|i: int| dead_at(t, i) && t[i].color != c)
}

/// Remove every captured enemy stone from the tentative grid.
pub open spec fn grid_after_capture(t: Seq<Stone>, c: Player) -> Seq<Stone> {
    Seq::new(361, |i: int| if captured_set(t, c).contains(i) {
        blank_stone()
    } else {
        t[i]
    })
}

/// Apply a recorded move: put the mover's stone down and clear the recorded
/// captured points.
pub open spec fn apply_move_g(s: Seq<Stone>, c: Player, idx: int, capt: Set<int>) -> Seq<Stone> {
    Seq::new(361, |i: int| if i == idx {
        stone_of(c)
    } else if capt.contains(i) {
        blank_stone()
    } else {
        s[i]
    })
}

/// Retract a recorded move: clear the mover's stone and restore every captured
/// point to the opposing colour.
pub open spec fn unapply_move_g(s: Seq<Stone>, c: Player, idx: int, capt: Set<int>) -> Seq<Stone> {
    Seq::new(361, |i: int| if i == idx {
        blank_stone()
    } else if capt.contains(i) {
        stone_of(c.other())
    } else {
        s[i]
    })
}

} // verus!
