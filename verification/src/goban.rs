//! The board: stone grid, turn, last move, ko point and ply counters, with
//! placement, legality, capture, undo and redo.
use vstd::prelude::*;
use crate::Player;
use crate::model::{
    adjacent, apply_move_g, asc_indices, blank_stone, captured_set, connected, dead_at,
    grid_after_capture, grid_wf, group_set, has_liberty, lemma_adjacent_cases, lemma_adjacent_sym,
    lemma_asc_indices, lemma_asc_indices_congruent, lemma_closed_component, lemma_connected_bounds,
    lemma_connected_self, lemma_connected_step, lemma_connected_sym, lemma_connected_trans,
    lemma_group_shares_liberty, lemma_liberty_set_finite, lemma_neighbor_adjacent, liberty_of,
    liberty_set, occupied, on_board, stone_of, unapply_move_g,
};

verus! {

/// A board coordinate, each component in `[0, 18]`.
#[derive(Debug, Clone, Copy, PartialEq, Eq, Hash, Structural)]
pub struct Point {
    pub x: u32,
    pub y: u32,
}

impl Point {
    pub fn new(x: u32, y: u32) -> (r: Point)
        ensures
            r == (Point { x, y }),
    {
        Point { x, y }
    }

    pub fn as_coord_tuple(&self) -> (r: (u8, u8))
        requires
            self.x < 256,
            self.y < 256,
        ensures
            r.0 == self.x,
            r.1 == self.y,
    {
        (self.x as u8, self.y as u8)
    }

    /// The flat grid index `x*19 + y` of this point.
    pub open spec fn idx(self) -> int {
        self.x * 19 + self.y
    }

    /// Both coordinates on the 19x19 board.
    pub open spec fn on_grid(self) -> bool {
        self.x < 19 && self.y < 19
    }
}

/// One intersection: empty (`visible == false`) or occupied by a colour.
#[derive(Debug, Clone, Copy, PartialEq, Eq, Structural)]
pub struct Stone {
    pub visible: bool,
    pub color: Player,
}

impl Default for Stone {
    /// The empty intersection.
    fn default() -> (r: Stone)
        ensures
            r == blank_stone(),
    {
        Stone { visible: false, color: Player::Black }
    }
}

impl Stone {
    pub fn new(color: Player) -> (r: Stone)
        ensures
            r == stone_of(color),
    {
        Stone { visible: true, color }
    }

    pub fn black() -> (r: Stone)
        ensures
            r == stone_of(Player::Black),
    {
        Stone { visible: true, color: Player::Black }
    }

    pub fn white() -> (r: Stone)
        ensures
            r == stone_of(Player::White),
    {
        Stone { visible: true, color: Player::White }
    }
}

/// A maximal set of same-coloured connected stones together with its number of
/// distinct liberties. Ephemeral: recomputed from the grid, never cached.
#[derive(Debug, Clone)]
pub struct Group {
    pub stones: Vec<Point>,
    pub liberties: u64,
    pub team: Player,
}

/// Ghost image of a group.
#[verifier::ext_equal]
pub struct GroupV {
    pub stones: Seq<Point>,
    pub liberties: u64,
    pub team: Player,
}

impl View for Group {
    type V = GroupV;

    open spec fn view(&self) -> GroupV {
        GroupV { stones: self.stones@, liberties: self.liberties, team: self.team }
    }
}

/// The points with the given flat indices.
pub open spec fn points_of_indices(s: Seq<int>) -> Seq<Point> {
    Seq::new(s.len(), |k: int| idx_point(s[k]))
}

/// Membership in the group of `a`, as a predicate on indices.
pub open spec fn group_pred(s: Seq<Stone>, a: int) -> spec_fn(int) -> bool {
    |i: int| group_set(s, a).contains(i)
}

/// The indices marked in a flag row, as a predicate.
pub open spec fn mark_pred(marks: Seq<bool>) -> spec_fn(int) -> bool {
    |j: int| 0 <= j < 361 && marks[j]
}

/// Smallest index of a dead group, as a predicate on indices.
pub open spec fn dead_min_pred(s: Seq<Stone>) -> spec_fn(int) -> bool {
    |i: int| dead_min(s, i)
}

/// The ghost images of a row of groups.
pub open spec fn views_of_groups(gs: Seq<Group>) -> Seq<GroupV> {
    Seq::new(gs.len(), |k: int| gs[k]@)
}

/// The group view that the analyzer produces for the component of grid index
/// `a`: the component's stones in ascending index order, its exact liberty
/// count, and its colour.
pub open spec fn component_group(s: Seq<Stone>, a: int) -> GroupV {
    GroupV {
        stones: points_of_indices(asc_indices(group_pred(s, a), 361)),
        liberties: liberty_set(s, a).len() as u64,
        team: s[a].color,
    }
}

/// The point with flat index `i`.
pub open spec fn idx_point(i: int) -> Point {
    Point { x: (i / 19) as u32, y: (i % 19) as u32 }
}

/// One accepted move: who played, the flat index of the point, and the enemy
/// groups it captured (needed to restore their stones on undo).
#[derive(Debug, Clone)]
pub struct Move {
    pub player: Player,
    pub index: usize,
    pub groups: Vec<Group>,
}

/// Ghost image of a move.
#[verifier::ext_equal]
pub struct MoveV {
    pub player: Player,
    pub index: int,
    pub groups: Seq<GroupV>,
}

impl View for Move {
    type V = MoveV;

    open spec fn view(&self) -> MoveV {
        MoveV {
            player: self.player,
            index: self.index as int,
            groups: views_of_groups(self.groups@),
        }
    }
}

/// The flat indices of the first `j` points of a row.
pub open spec fn pts_of(ps: Seq<Point>, j: int) -> Set<int>
    decreases j,
    when 0 <= j <= ps.len()
{
    if j <= 0 {
        Set::empty()
    } else {
        pts_of(ps, j - 1).insert(ps[j - 1].idx())
    }
}

/// The flat indices of all stones of the first `k` groups of a row.
pub open spec fn groups_pts(gs: Seq<GroupV>, k: int) -> Set<int>
    decreases k,
    when 0 <= k <= gs.len()
{
    if k <= 0 {
        Set::empty()
    } else {
        groups_pts(gs, k - 1).union(pts_of(gs[k - 1].stones, gs[k - 1].stones.len() as int))
    }
}

/// The points recorded as captured by a move.
pub open spec fn move_captures(m: MoveV) -> Set<int> {
    groups_pts(m.groups, m.groups.len() as int)
}

pub proof fn lemma_pts_of_membership(ps: Seq<Point>, j: int)
    requires
        0 <= j <= ps.len(),
    ensures
        forall|q: int|
            pts_of(ps, j).contains(q) <==> exists|x: int| 0 <= x < j && (#[trigger] ps[x]).idx()
                == q,
    decreases j,
{
    if j > 0 {
        lemma_pts_of_membership(ps, j - 1);
        assert forall|q: int| pts_of(ps, j).contains(q) implies exists|x: int|
            0 <= x < j && (#[trigger] ps[x]).idx() == q by {
            if pts_of(ps, j - 1).contains(q) {
                let x = choose|x: int| 0 <= x < j - 1 && (#[trigger] ps[x]).idx() == q;
                assert(0 <= x < j && ps[x].idx() == q);
            } else {
                assert(ps[j - 1].idx() == q);
            }
        }
        assert forall|q: int|
            (exists|x: int| 0 <= x < j && (#[trigger] ps[x]).idx() == q) implies pts_of(
            ps,
            j,
        ).contains(q) by {
            let x = choose|x: int| 0 <= x < j && (#[trigger] ps[x]).idx() == q;
            if x < j - 1 {
                assert(pts_of(ps, j - 1).contains(q));
            }
        }
    }
}

pub proof fn lemma_groups_pts_membership(gs: Seq<GroupV>, k: int)
    requires
        0 <= k <= gs.len(),
    ensures
        forall|q: int|
            groups_pts(gs, k).contains(q) <==> exists|x: int, y: int|
                0 <= x < k && 0 <= y < gs[x].stones.len() && (#[trigger] gs[x].stones[y]).idx()
                    == q,
    decreases k,
{
    if k > 0 {
        lemma_groups_pts_membership(gs, k - 1);
        lemma_pts_of_membership(gs[k - 1].stones, gs[k - 1].stones.len() as int);
        assert forall|q: int| groups_pts(gs, k).contains(q) implies exists|x: int, y: int|
            0 <= x < k && 0 <= y < gs[x].stones.len() && (#[trigger] gs[x].stones[y]).idx()
                == q by {
            if groups_pts(gs, k - 1).contains(q) {
                let (x, y) = choose|x: int, y: int|
                    0 <= x < k - 1 && 0 <= y < gs[x].stones.len() && (
                    #[trigger] gs[x].stones[y]).idx() == q;
                assert(0 <= x < k && 0 <= y < gs[x].stones.len() && gs[x].stones[y].idx() == q);
            } else {
                let y = choose|y: int|
                    0 <= y < gs[k - 1].stones.len() && (#[trigger] gs[k - 1].stones[y]).idx() == q;
                assert(0 <= k - 1 < k && 0 <= y < gs[k - 1].stones.len() && gs[k - 1].stones[y].idx()
                    == q);
            }
        }
        assert forall|q: int|
            (exists|x: int, y: int|
                0 <= x < k && 0 <= y < gs[x].stones.len() && (#[trigger] gs[x].stones[y]).idx()
                    == q) implies groups_pts(gs, k).contains(q) by {
            let (x, y) = choose|x: int, y: int|
                0 <= x < k && 0 <= y < gs[x].stones.len() && (#[trigger] gs[x].stones[y]).idx()
                    == q;
            if x < k - 1 {
                assert(groups_pts(gs, k - 1).contains(q));
            } else {
                assert(pts_of(gs[k - 1].stones, gs[k - 1].stones.len() as int).contains(q));
            }
        }
    }
}

// ---------------------------------------------------------------------------
// Group analysis
// ---------------------------------------------------------------------------

/// The board indices marked `true` in a flag row.
pub open spec fn marks_set(v: Seq<bool>) -> Set<int> {
    Set::new(|i: int| 0 <= i < 361 && v[i])
}

/// `i` appears in the work stack.
pub open spec fn in_stack(st: Seq<usize>, i: int) -> bool {
    exists|k: int| 0 <= k < st.len() && st[k] as int == i
}

/// A processed group member: all its same-colour neighbours are in the group
/// marks, all its empty neighbours are in the liberty marks.
pub open spec fn expanded_at(s: Seq<Stone>, ing: Seq<bool>, lm: Seq<bool>, i: int) -> bool {
    &&& forall|j: int|
        adjacent(i, j) && occupied(s, j) && s[j].color == s[i].color ==> ing[j]
    &&& forall|j: int| adjacent(i, j) && !s[j].visible ==> lm[j]
}

/// One neighbour `n` of `cur` has been looked at: a same-colour stone is in
/// the group marks, an empty intersection in the liberty marks.
pub open spec fn visited(s: Seq<Stone>, ing: Seq<bool>, lm: Seq<bool>, cur: int, n: int) -> bool {
    &&& (occupied(s, n) && s[n].color == s[cur].color ==> ing[n])
    &&& (on_board(n) && !s[n].visible ==> lm[n])
}

/// `i` is the smallest index of its group.
pub open spec fn is_group_min(s: Seq<Stone>, i: int) -> bool {
    occupied(s, i) && forall|j: int| connected(s, i, j) ==> i <= j
}

pub open spec fn dead_min(s: Seq<Stone>, i: int) -> bool {
    is_group_min(s, i) && !has_liberty(s, i)
}

/// The group views of a row of component minima.
pub open spec fn groups_of_mins(s: Seq<Stone>, mins: Seq<int>) -> Seq<GroupV> {
    Seq::new(mins.len(), |k: int| component_group(s, mins[k]))
}

/// The zero-liberty groups of the grid, one per component, ordered by their
/// smallest index.
pub open spec fn dead_groups_spec(s: Seq<Stone>) -> Seq<GroupV> {
    groups_of_mins(s, asc_indices(dead_min_pred(s), 361))
}

/// Every occupied point has a smallest group member.
pub proof fn lemma_exists_group_min(s: Seq<Stone>, q: int)
    requires
        occupied(s, q),
    ensures
        exists|m: int|
            #[trigger] connected(s, q, m) && is_group_min(s, m) && s[m].color == s[q].color,
    decreases q,
{
    if is_group_min(s, q) {
        lemma_connected_self(s, q);
        assert(connected(s, q, q) && is_group_min(s, q) && s[q].color == s[q].color);
    } else {
        let j = choose|j: int| connected(s, q, j) && j < q;
        lemma_connected_bounds(s, q, j);
        lemma_exists_group_min(s, j);
        let m = choose|m: int|
            #[trigger] connected(s, j, m) && is_group_min(s, m) && s[m].color == s[j].color;
        lemma_connected_trans(s, q, j, m);
    }
}

/// A fresh all-false flag row, one entry per intersection.
fn false_marks() -> (r: Vec<bool>)
    ensures
        r@.len() == 361,
        forall|i: int| 0 <= i < 361 ==> !r@[i],
{
    let mut r: Vec<bool> = Vec::new();
    while r.len() < 361
        invariant
            r@.len() <= 361,
            forall|i: int| 0 <= i < r@.len() ==> !r@[i],
        decreases 361 - r@.len(),
    {
        r.push(false);
    }
    r
}

/// Iterative flood fill from `start`: marks the whole component of `start` in
/// `assigned` and returns it as a `Group` with its stones in ascending index
/// order and its exact number of distinct liberties.
fn flood(stones: &Vec<Stone>, start: usize, assigned: &mut Vec<bool>) -> (g: Group)
    requires
        grid_wf(stones@),
        old(assigned)@.len() == 361,
        start < 361,
        stones@[start as int].visible,
        !old(assigned)@[start as int],
        forall|i: int| 0 <= i < 361 && old(assigned)@[i] ==> occupied(stones@, i),
        forall|i: int, j: int|
            0 <= i < 361 && old(assigned)@[i] && adjacent(i, j) && occupied(stones@, j)
                && stones@[j].color == stones@[i].color ==> old(assigned)@[j],
    ensures
        final(assigned)@.len() == 361,
        forall|i: int|
            0 <= i < 361 ==> (final(assigned)@[i] <==> old(assigned)@[i] || group_set(
                stones@,
                start as int,
            ).contains(i)),
        g@ == component_group(stones@, start as int),
{
    broadcast use vstd::set::group_set_axioms;

    let ghost sg = stones@;
    let ghost a0 = old(assigned)@;
    let color = stones[start].color;
    let mut stack: Vec<usize> = Vec::new();
    let mut in_group = false_marks();
    let mut lib_mark = false_marks();
    let mut lib_count: u64 = 0;
    let mut member_count: usize = 1;
    stack.push(start);
    assigned.set(start, true);
    in_group.set(start, true);
    proof {
        lemma_connected_self(sg, start as int);
        assert(marks_set(in_group@) =~= Set::<int>::empty().insert(start as int));
        assert(marks_set(lib_mark@) =~= Set::<int>::empty());
        assert(stack@[0] == start);
        assert(in_stack(stack@, start as int));
    }
    while stack.len() > 0
        invariant
            grid_wf(sg),
            stones@ == sg,
            assigned@.len() == 361,
            in_group@.len() == 361,
            lib_mark@.len() == 361,
            start < 361,
            a0.len() == 361,
            sg[start as int].visible,
            color == sg[start as int].color,
            !a0[start as int],
            in_group@[start as int],
            forall|i: int| 0 <= i < 361 && a0[i] ==> occupied(sg, i),
            forall|i: int, j: int|
                0 <= i < 361 && a0[i] && adjacent(i, j) && occupied(sg, j) && sg[j].color
                    == sg[i].color ==> a0[j],
            forall|k: int|
                0 <= k < stack@.len() ==> (#[trigger] stack@[k]) < 361 && in_group@[stack@[k] as int],
            forall|i: int|
                0 <= i < 361 && #[trigger] in_group@[i] ==> connected(sg, start as int, i)
                    && !a0[i],
            forall|i: int| 0 <= i < 361 ==> ((#[trigger] assigned@[i]) <==> a0[i] || in_group@[i]),
            forall|i: int|
                0 <= i < 361 && #[trigger] in_group@[i] && !in_stack(stack@, i) ==> expanded_at(
                    sg,
                    in_group@,
                    lib_mark@,
                    i,
                ),
            forall|l: int| 0 <= l < 361 && #[trigger] lib_mark@[l] ==> liberty_of(sg, start as int, l),
            lib_count == marks_set(lib_mark@).len(),
            member_count == marks_set(in_group@).len(),
            member_count <= 361,
            lib_count <= 361,
        decreases 361 - member_count, stack@.len(),
    {
        let ghost stack0 = stack@;
        let cur = stack.pop().unwrap();
        proof {
            assert(stack0[stack0.len() - 1] == cur);
            assert(in_group@[cur as int]);
            lemma_connected_bounds(sg, start as int, cur as int);
        }
        let ghost ing_before = in_group@;
        let ghost lm_before = lib_mark@;
        let ghost mc_before = member_count;
        proof {
            assert forall|i: int|
                0 <= i < 361 && #[trigger] ing_before[i] && !in_stack(stack0, i) implies expanded_at(
                sg,
                ing_before,
                lm_before,
                i,
            ) by {
                assert(in_group@[i]);
            }
        }
        // visit the four in-bounds neighbours of cur
        let mut t: usize = 0;
        while t < 4
            invariant
                grid_wf(sg),
                stones@ == sg,
                t <= 4,
                cur < 361,
                start < 361,
                a0.len() == 361,
                sg[start as int].visible,
                sg[cur as int].visible,
                color == sg[start as int].color,
                sg[cur as int].color == color,
                !a0[start as int],
                assigned@.len() == 361,
                in_group@.len() == 361,
                lib_mark@.len() == 361,
                in_group@[start as int],
                in_group@[cur as int],
                forall|i: int| 0 <= i < 361 && a0[i] ==> occupied(sg, i),
                forall|i: int, j: int|
                    0 <= i < 361 && a0[i] && adjacent(i, j) && occupied(sg, j) && sg[j].color
                        == sg[i].color ==> a0[j],
                forall|k: int|
                    0 <= k < stack@.len() ==> (#[trigger] stack@[k]) < 361
                        && in_group@[stack@[k] as int],
                forall|i: int|
                    0 <= i < 361 && #[trigger] in_group@[i] ==> connected(sg, start as int, i)
                        && !a0[i],
                forall|i: int|
                    0 <= i < 361 ==> ((#[trigger] assigned@[i]) <==> a0[i] || in_group@[i]),
                forall|l: int|
                    0 <= l < 361 && #[trigger] lib_mark@[l] ==> liberty_of(sg, start as int, l),
                lib_count == marks_set(lib_mark@).len(),
                member_count == marks_set(in_group@).len(),
                member_count <= 361,
                lib_count <= 361,
                // marks only grow, and fresh members go on the stack
                ing_before.len() == 361,
                lm_before.len() == 361,
                stack0.len() >= 1,
                forall|i: int| 0 <= i < 361 && #[trigger] ing_before[i] ==> in_group@[i],
                forall|l: int| 0 <= l < 361 && #[trigger] lm_before[l] ==> lib_mark@[l],
                forall|i: int|
                    0 <= i < 361 && #[trigger] in_group@[i] && !ing_before[i] ==> in_stack(
                        stack@,
                        i,
                    ),
                forall|i: int| #[trigger] in_stack(stack0.drop_last(), i) ==> in_stack(stack@, i),
                member_count >= mc_before,
                stack@.len() + mc_before <= stack0.len() - 1 + member_count,
                // partial expansion of cur
                t >= 1 ==> cur % 19 == 0 || visited(sg, in_group@, lib_mark@, cur as int, cur as int - 1),
                t >= 2 ==> cur % 19 == 18 || visited(sg, in_group@, lib_mark@, cur as int, cur as int + 1),
                t >= 3 ==> cur < 19 || visited(sg, in_group@, lib_mark@, cur as int, cur as int - 19),
                t >= 4 ==> cur + 19 >= 361 || visited(sg, in_group@, lib_mark@, cur as int, cur as int + 19),
            decreases 4 - t,
        {
            let n_opt: Option<usize> = if t == 0 {
                if cur % 19 > 0 {
                    Some(cur - 1)
                } else {
                    None
                }
            } else if t == 1 {
                if cur % 19 < 18 {
                    Some(cur + 1)
                } else {
                    None
                }
            } else if t == 2 {
                if cur >= 19 {
                    Some(cur - 19)
                } else {
                    None
                }
            } else {
                if cur + 19 < 361 {
                    Some(cur + 19)
                } else {
                    None
                }
            };
            proof {
                lemma_neighbor_adjacent(cur as int);
            }
            match n_opt {
                Some(n) => {
                    proof {
                        assert(adjacent(cur as int, n as int));
                    }
                    if !stones[n].visible {
                        if !lib_mark[n] {
                            let ghost lm0 = lib_mark@;
                            lib_mark.set(n, true);
                            lib_count = lib_count + 1;
                            proof {
                                let all = vstd::set_lib::set_int_range(0, 361);
                                vstd::set_lib::lemma_int_range(0, 361);
                                assert(marks_set(lm0).subset_of(all));
                                vstd::set_lib::lemma_len_subset(marks_set(lm0), all);
                                assert(marks_set(lib_mark@) =~= marks_set(lm0).insert(n as int));
                                assert(marks_set(lib_mark@).subset_of(all));
                                vstd::set_lib::lemma_len_subset(marks_set(lib_mark@), all);
                            }
                        }
                    } else {
                        if stones[n].color == color && !in_group[n] {
                            let ghost ing0 = in_group@;
                            let ghost st0 = stack@;
                            in_group.set(n, true);
                            assigned.set(n, true);
                            stack.push(n);
                            member_count = member_count + 1;
                            proof {
                                lemma_connected_step(sg, start as int, cur as int, n as int);
                                let all = vstd::set_lib::set_int_range(0, 361);
                                vstd::set_lib::lemma_int_range(0, 361);
                                assert(marks_set(ing0).subset_of(all));
                                vstd::set_lib::lemma_len_subset(marks_set(ing0), all);
                                assert(marks_set(in_group@) =~= marks_set(ing0).insert(n as int));
                                assert(marks_set(in_group@).subset_of(all));
                                vstd::set_lib::lemma_len_subset(marks_set(in_group@), all);
                                // n cannot carry an older mark
                                lemma_adjacent_sym(cur as int, n as int);
                                if a0[n as int] {
                                    assert(a0[cur as int]);
                                    assert(false);
                                }
                                // membership in the stack is preserved by push
                                assert forall|i: int| in_stack(st0, i) implies in_stack(
                                    stack@,
                                    i,
                                ) by {
                                    let k = choose|k: int|
                                        0 <= k < st0.len() && st0[k] as int == i;
                                    assert(stack@[k] as int == i);
                                }
                                assert(stack@[stack@.len() - 1] == n);
                                assert(in_stack(stack@, n as int));
                            }
                        }
                    }
                },
                None => {
                },
            }
            t = t + 1;
        }
        proof {
            // cur is now fully expanded
            assert forall|j: int|
                adjacent(cur as int, j) && occupied(sg, j) && sg[j].color == sg[cur as int].color
                    implies in_group@[j] by {
                lemma_adjacent_cases(cur as int, j);
                lemma_neighbor_adjacent(cur as int);
            }
            assert forall|j: int| adjacent(cur as int, j) && !sg[j].visible implies lib_mark@[j] by {
                lemma_adjacent_cases(cur as int, j);
                lemma_neighbor_adjacent(cur as int);
            }
            assert(expanded_at(sg, in_group@, lib_mark@, cur as int));
            // every marked member off the stack stays expanded: marks only grew
            assert forall|i: int|
                0 <= i < 361 && in_group@[i] && !in_stack(stack@, i) implies expanded_at(
                sg,
                in_group@,
                lib_mark@,
                i,
            ) by {
                if i != cur as int {
                    if ing_before[i] {
                        if in_stack(stack0, i) {
                            let k = choose|k: int| 0 <= k < stack0.len() && stack0[k] as int == i;
                            assert(k < stack0.len() - 1);
                            assert(stack0.drop_last()[k] as int == i);
                            assert(in_stack(stack0.drop_last(), i));
                            assert(false);
                        }
                        assert(expanded_at(sg, ing_before, lm_before, i));
                    }
                }
            }
        }
    }
    // the marks now hold exactly the component of start
    proof {
        let cset = marks_set(in_group@);
        assert forall|x: int, y: int|
            cset.contains(x) && adjacent(x, y) && occupied(sg, y) && sg[y].color == sg[start as int].color
                implies cset.contains(y) by {
            assert(in_group@[x]);
            assert(!in_stack(stack@, x));
            assert(expanded_at(sg, in_group@, lib_mark@, x));
            lemma_connected_bounds(sg, start as int, x);
            assert(sg[x].color == sg[start as int].color);
        }
        lemma_closed_component(sg, start as int, cset);
        assert(group_set(sg, start as int) =~= cset);
        // the liberty marks hold exactly the liberty set
        assert forall|l: int| liberty_set(sg, start as int).contains(l) implies (0 <= l < 361
            && lib_mark@[l]) by {
            let q = choose|q: int|
                connected(sg, start as int, q) && adjacent(q, l) && !sg[l].visible;
            assert(cset.contains(q));
            assert(in_group@[q]);
            assert(!in_stack(stack@, q));
            assert(expanded_at(sg, in_group@, lib_mark@, q));
        }
        assert(liberty_set(sg, start as int) =~= marks_set(lib_mark@));
    }
    // collect the members in ascending index order
    let ghost marks = in_group@;
    let ghost pred = mark_pred(marks);
    let mut pts: Vec<Point> = Vec::new();
    let mut i: usize = 0;
    while i < 361
        invariant
            i <= 361,
            in_group@ == marks,
            in_group@.len() == 361,
            pred == mark_pred(marks),
            pts@ == points_of_indices(asc_indices(pred, i as int)),
        decreases 361 - i,
    {
        proof {
            assert(asc_indices(pred, i as int + 1) == if pred(i as int) {
                asc_indices(pred, i as int).push(i as int)
            } else {
                asc_indices(pred, i as int)
            });
        }
        if in_group[i] {
            let p = Point { x: (i / 19) as u32, y: (i % 19) as u32 };
            pts.push(p);
            proof {
                assert(p == idx_point(i as int));
                let s0 = asc_indices(pred, i as int);
                assert(points_of_indices(s0.push(i as int)) =~= points_of_indices(s0).push(
                    idx_point(i as int),
                ));
                assert(asc_indices(pred, i as int + 1) == s0.push(i as int));
                assert(pts@ == points_of_indices(asc_indices(pred, i as int + 1)));
            }
        } else {
            proof {
                assert(!pred(i as int));
                assert(asc_indices(pred, i as int + 1) == asc_indices(pred, i as int));
            }
        }
        i = i + 1;
    }
    let g = Group { stones: pts, liberties: lib_count, team: color };
    proof {
        assert forall|j: int| 0 <= j < 361 implies (#[trigger] pred(j) <==> group_pred(
            sg,
            start as int,
        )(j)) by {
            assert(pred(j) == (0 <= j < 361 && marks[j]));
        }
        lemma_asc_indices_congruent(pred, group_pred(sg, start as int), 361);
        assert(g@ =~= component_group(sg, start as int));
    }
    g
}

/// Some group of the mover's own colour is dead on the grid.
pub open spec fn self_dead(s: Seq<Stone>, c: Player) -> bool {
    exists|i: int| dead_at(s, i) && s[i].color == c
}

/// Some enemy group is dead on the grid.
pub open spec fn opp_dead(s: Seq<Stone>, c: Player) -> bool {
    exists|i: int| dead_at(s, i) && s[i].color != c
}

/// Finds every zero-liberty group of the grid, in ascending order of smallest
/// member, and reports whether an enemy group and whether one of the mover's
/// own groups died.
fn find_dead_groups(stones: &Vec<Stone>, current_turn: &Player) -> (r: (Vec<Group>, bool, bool))
    requires
        grid_wf(stones@),
    ensures
        views_of_groups(r.0@) == dead_groups_spec(stones@),
        r.1 == opp_dead(stones@, *current_turn),
        r.2 == self_dead(stones@, *current_turn),
{
    let ghost sg = stones@;
    let c = *current_turn;
    let mut assigned = false_marks();
    let mut dead: Vec<Group> = Vec::new();
    let mut opponent_died = false;
    let mut we_died = false;
    let mut i: usize = 0;
    while i < 361
        invariant
            grid_wf(sg),
            stones@ == sg,
            c == *current_turn,
            i <= 361,
            assigned@.len() == 361,
            forall|q: int|
                0 <= q < 361 ==> ((#[trigger] assigned@[q]) <==> exists|j: int|
                    0 <= j < i && connected(sg, j, q)),
            views_of_groups(dead@) == groups_of_mins(
                sg,
                asc_indices(dead_min_pred(sg), i as int),
            ),
            opponent_died == exists|m: int| 0 <= m < i && dead_min(sg, m) && sg[m].color != c,
            we_died == exists|m: int| 0 <= m < i && dead_min(sg, m) && sg[m].color == c,
        decreases 361 - i,
    {
        let ghost dead0 = dead@;
        proof {
            assert(asc_indices(dead_min_pred(sg), i as int + 1) == if dead_min_pred(sg)(i as int) {
                asc_indices(dead_min_pred(sg), i as int).push(i as int)
            } else {
                asc_indices(dead_min_pred(sg), i as int)
            });
        }
        if stones[i].visible && !assigned[i] {
            proof {
                // i is the smallest member of its group
                assert forall|j: int| connected(sg, i as int, j) implies i as int <= j by {
                    if j < i as int {
                        lemma_connected_sym(sg, i as int, j);
                        lemma_connected_bounds(sg, i as int, j);
                        assert(assigned@[i as int]);
                        assert(false);
                    }
                }
                assert(is_group_min(sg, i as int));
                // the already-marked points form closed components
                assert forall|q: int, j: int|
                    0 <= q < 361 && assigned@[q] && adjacent(q, j) && occupied(sg, j)
                        && sg[j].color == sg[q].color implies assigned@[j] by {
                    let w = choose|w: int| 0 <= w < i && connected(sg, w, q);
                    lemma_connected_step(sg, w, q, j);
                    lemma_connected_bounds(sg, w, q);
                }
                assert forall|q: int| 0 <= q < 361 && assigned@[q] implies occupied(sg, q) by {
                    let w = choose|w: int| 0 <= w < i && connected(sg, w, q);
                    lemma_connected_bounds(sg, w, q);
                }
            }
            let ghost a_before = assigned@;
            let g = flood(stones, i, &mut assigned);
            let is_dead = g.liberties == 0;
            proof {
                lemma_liberty_set_finite(sg, i as int);
                if is_dead {
                    if has_liberty(sg, i as int) {
                        let l = choose|l: int| liberty_of(sg, i as int, l);
                        assert(liberty_set(sg, i as int).contains(l));
                        vstd::set_lib::lemma_set_empty_equivalency_len(
                            liberty_set(sg, i as int),
                        );
                        assert(false);
                    }
                    assert(dead_min(sg, i as int));
                } else {
                    if !has_liberty(sg, i as int) {
                        assert(liberty_set(sg, i as int) =~= Set::<int>::empty());
                        assert(false);
                    }
                }
            }
            if is_dead {
                if g.team == c {
                    we_died = true;
                } else {
                    opponent_died = true;
                }
                dead.push(g);
                proof {
                    assert(views_of_groups(dead@) =~= views_of_groups(dead0).push(
                        component_group(sg, i as int),
                    ));
                    assert(groups_of_mins(
                        sg,
                        asc_indices(dead_min_pred(sg), i as int).push(i as int),
                    ) =~= groups_of_mins(sg, asc_indices(dead_min_pred(sg), i as int)).push(
                        component_group(sg, i as int),
                    ));
                    // the flags follow the dead components
                    assert(sg[i as int].color == g.team);
                    assert forall|m: int|
                        0 <= m < i + 1 && dead_min(sg, m) && sg[m].color != c implies (
                    opponent_died == true) by {}
                }
            } else {
                proof {
                    assert(!dead_min_pred(sg)(i as int));
                    // no new dead minimum appears at i
                    assert forall|m: int| 0 <= m < i + 1 && dead_min(sg, m) implies m < i by {
                        if m == i {
                            assert(!has_liberty(sg, m));
                            assert(false);
                        }
                    }
                }
            }
            proof {
                // new marks are exactly the old ones plus the component of i
                assert forall|q: int| 0 <= q < 361 implies ((#[trigger] assigned@[q])
                    <==> exists|j: int| 0 <= j < i + 1 && connected(sg, j, q)) by {
                    if assigned@[q] {
                        if a_before[q] {
                            let w = choose|w: int| 0 <= w < i && connected(sg, w, q);
                            assert(0 <= w < i + 1 && connected(sg, w, q));
                        } else {
                            assert(group_set(sg, i as int).contains(q));
                            assert(0 <= (i as int) < i + 1 && connected(sg, i as int, q));
                        }
                    } else {
                        if exists|j: int| 0 <= j < i + 1 && connected(sg, j, q) {
                            let j = choose|j: int| 0 <= j < i + 1 && connected(sg, j, q);
                            if j < i as int {
                                assert(a_before[q]);
                                assert(false);
                            } else {
                                assert(group_set(sg, i as int).contains(q));
                                assert(false);
                            }
                        }
                    }
                }
            }
        } else {
            proof {
                // no component has its smallest member at i
                assert forall|m: int| 0 <= m < i + 1 && dead_min(sg, m) implies m < i by {
                    if m == i {
                        assert(occupied(sg, m));
                        assert(assigned@[i as int]);
                        let w = choose|w: int| 0 <= w < i && connected(sg, w, i as int);
                        lemma_connected_sym(sg, w, i as int);
                        assert(connected(sg, i as int, w));
                        assert(false);
                    }
                }
                assert(asc_indices(dead_min_pred(sg), i as int + 1) == asc_indices(
                    dead_min_pred(sg),
                    i as int,
                ));
                // marks unchanged, and no new group starts at i
                assert forall|q: int| 0 <= q < 361 implies ((#[trigger] assigned@[q])
                    <==> exists|j: int| 0 <= j < i + 1 && connected(sg, j, q)) by {
                    if !assigned@[q] {
                        if exists|j: int| 0 <= j < i + 1 && connected(sg, j, q) {
                            let j = choose|j: int| 0 <= j < i + 1 && connected(sg, j, q);
                            if j == i as int {
                                lemma_connected_bounds(sg, j, q);
                                assert(sg[i as int].visible);
                                assert(assigned@[i as int]);
                                let w = choose|w: int| 0 <= w < i && connected(sg, w, i as int);
                                lemma_connected_trans(sg, w, i as int, q);
                                assert(assigned@[q]);
                                assert(false);
                            } else {
                                assert(assigned@[q]);
                                assert(false);
                            }
                        }
                    }
                }
            }
        }
        i = i + 1;
    }
    proof {
        // every dead point lies in some dead component with its minimum below 361
        assert forall|q: int| dead_at(sg, q) && sg[q].color != c implies (exists|m: int|
            0 <= m < 361 && dead_min(sg, m) && sg[m].color != c) by {
            lemma_exists_group_min(sg, q);
            let m = choose|m: int|
                #[trigger] connected(sg, q, m) && is_group_min(sg, m) && sg[m].color == sg[q].color;
            lemma_connected_bounds(sg, q, m);
            lemma_group_shares_liberty(sg, q, m);
            assert(0 <= m < 361 && dead_min(sg, m) && sg[m].color != c);
        }
        assert forall|q: int| dead_at(sg, q) && sg[q].color == c implies (exists|m: int|
            0 <= m < 361 && dead_min(sg, m) && sg[m].color == c) by {
            lemma_exists_group_min(sg, q);
            let m = choose|m: int|
                #[trigger] connected(sg, q, m) && is_group_min(sg, m) && sg[m].color == sg[q].color;
            lemma_connected_bounds(sg, q, m);
            lemma_group_shares_liberty(sg, q, m);
            assert(0 <= m < 361 && dead_min(sg, m) && sg[m].color == c);
        }
        // a dead minimum is itself a dead point
        assert forall|m: int| 0 <= m < 361 && #[trigger] dead_min(sg, m) implies dead_at(
            sg,
            m,
        ) by {}
        assert(opponent_died == opp_dead(sg, c));
        assert(we_died == self_dead(sg, c));
    }
    (dead, opponent_died, we_died)
}

// ---------------------------------------------------------------------------
// Legality
// ---------------------------------------------------------------------------

pub proof fn lemma_idx_point_inverse(m: int)
    requires
        on_board(m),
    ensures
        idx_point(m).on_grid(),
        idx_point(m).idx() == m,
{
    vstd::arithmetic::div_mod::lemma_fundamental_div_mod(m, 19);
    vstd::arithmetic::div_mod::lemma_mod_bound(m, 19);
}

pub proof fn lemma_point_idx_inverse(p: Point)
    requires
        p.on_grid(),
    ensures
        on_board(p.idx()),
        idx_point(p.idx()) == p,
{
    vstd::arithmetic::div_mod::lemma_fundamental_div_mod_converse(
        p.x * 19 + p.y,
        19,
        p.x as int,
        p.y as int,
    );
}

/// The group of `l` is the lone stone at `l`.
pub open spec fn singleton_group(s: Seq<Stone>, l: int) -> bool {
    forall|j: int| connected(s, l, j) ==> j == l
}

/// The analyzer's group of a component minimum has one stone exactly when the
/// component is a lone stone, and that stone is the minimum itself.
proof fn lemma_component_singleton(s: Seq<Stone>, m: int)
    requires
        is_group_min(s, m),
    ensures
        component_group(s, m).stones.len() >= 1,
        (component_group(s, m).stones.len() == 1) <==> singleton_group(s, m),
        component_group(s, m).stones.len() == 1 ==> component_group(s, m).stones[0] == idx_point(
            m,
        ),
{
    let pred = group_pred(s, m);
    let asc = asc_indices(pred, 361);
    lemma_asc_indices(pred, 361);
    lemma_connected_self(s, m);
    assert(pred(m));
    assert(asc.contains(m));
    let km = choose|k: int| 0 <= k < asc.len() && asc[k] == m;
    if asc.len() == 1 {
        assert(asc[0] == m);
        assert forall|j: int| connected(s, m, j) implies j == m by {
            assert(pred(j));
            assert(asc.contains(j));
            let kj = choose|k: int| 0 <= k < asc.len() && asc[k] == j;
            assert(kj == 0);
        }
    }
    if singleton_group(s, m) {
        assert forall|k: int| 0 <= k < asc.len() implies asc[k] == m by {
            assert(pred(asc[k]));
        }
        if asc.len() >= 2 {
            assert(asc[0] == m && asc[1] == m);
            assert(asc[0] < asc[1]);
            assert(false);
        }
    }
}

/// The suicide rule: one of the mover's own groups has no liberties while no
/// enemy group died.
pub open spec fn suicide_shape(s: Seq<Stone>, c: Player) -> bool {
    self_dead(s, c) && !opp_dead(s, c)
}

/// The simple-ko recapture shape: the mover's stone dies together with a lone
/// enemy stone standing exactly on the opponent's last move.
pub open spec fn ko_shape(s: Seq<Stone>, c: Player, lm: Option<Point>) -> bool {
    &&& self_dead(s, c)
    &&& opp_dead(s, c)
    &&& match lm {
        Some(p) => p.on_grid() && dead_at(s, p.idx()) && s[p.idx()].color != c && singleton_group(
            s,
            p.idx(),
        ),
        None => false,
    }
}

/// A tentative placement is illegal exactly when it is a suicide or the banned
/// single-stone immediate recapture.
pub open spec fn move_illegal(s: Seq<Stone>, c: Player, lm: Option<Point>) -> bool {
    suicide_shape(s, c) || ko_shape(s, c, lm)
}

/// A dead group that makes the position a suicide for `c`.
pub open spec fn suicide_group(c: Player, opp: bool, g: GroupV) -> bool {
    !opp && g.team == c
}

/// A dead group that triggers the simple-ko ban for `c`.
pub open spec fn ko_group(c: Player, we: bool, opp: bool, lm: Option<Point>, g: GroupV) -> bool {
    we && opp && g.team != c && g.stones.len() == 1 && lm == Some(g.stones[0])
}

/// An exact copy of a point row.
pub fn copy_points(v: &Vec<Point>) -> (r: Vec<Point>)
    ensures
        r@ == v@,
{
    let mut r: Vec<Point> = Vec::new();
    let mut k: usize = 0;
    while k < v.len()
        invariant
            k <= v@.len(),
            r@ == v@.subrange(0, k as int),
        decreases v@.len() - k,
    {
        r.push(v[k]);
        proof {
            assert(r@ =~= v@.subrange(0, k as int + 1));
        }
        k = k + 1;
    }
    proof {
        assert(r@ =~= v@);
    }
    r
}

/// An exact copy of a group.
pub fn copy_group(g: &Group) -> (r: Group)
    ensures
        r@ == g@,
{
    let r = Group { stones: copy_points(&g.stones), liberties: g.liberties, team: g.team };
    proof {
        assert(r@ =~= g@);
    }
    r
}

/// An exact copy of a row of groups.
pub fn copy_groups(v: &Vec<Group>) -> (r: Vec<Group>)
    ensures
        views_of_groups(r@) == views_of_groups(v@),
{
    let mut r: Vec<Group> = Vec::new();
    let mut k: usize = 0;
    while k < v.len()
        invariant
            k <= v@.len(),
            r@.len() == k,
            forall|t: int| 0 <= t < k ==> (#[trigger] r@[t])@ == v@[t]@,
        decreases v@.len() - k,
    {
        r.push(copy_group(&v[k]));
        k = k + 1;
    }
    proof {
        assert(views_of_groups(r@) =~= views_of_groups(v@));
    }
    r
}

/// An exact copy of a move record.
pub fn copy_move(m: &Move) -> (r: Move)
    ensures
        r@ == m@,
{
    let r = Move { player: m.player, index: m.index, groups: copy_groups(&m.groups) };
    proof {
        assert(r@ =~= m@);
    }
    r
}

/// Whether a dead group makes the mover's placement illegal.
pub open spec fn bad_group(c: Player, we: bool, opp: bool, lm: Option<Point>, g: GroupV) -> bool {
    suicide_group(c, opp, g) || ko_group(c, we, opp, lm, g)
}

/// Whether some dead group at or after position `k` makes the placement
/// illegal.
pub open spec fn any_bad(
    c: Player,
    we: bool,
    opp: bool,
    lm: Option<Point>,
    gs: Seq<GroupV>,
    k: int,
) -> bool
    decreases gs.len() - k,
    when 0 <= k <= gs.len()
{
    if k >= gs.len() {
        false
    } else {
        bad_group(c, we, opp, lm, gs[k]) || any_bad(c, we, opp, lm, gs, k + 1)
    }
}

proof fn lemma_any_bad_exists(
    c: Player,
    we: bool,
    opp: bool,
    lm: Option<Point>,
    gs: Seq<GroupV>,
    k: int,
)
    requires
        0 <= k <= gs.len(),
    ensures
        any_bad(c, we, opp, lm, gs, k) == exists|t: int|
            k <= t < gs.len() && bad_group(c, we, opp, lm, #[trigger] gs[t]),
    decreases gs.len() - k,
{
    if k < gs.len() {
        lemma_any_bad_exists(c, we, opp, lm, gs, k + 1);
        if bad_group(c, we, opp, lm, gs[k]) {
            assert(k <= k < gs.len() && bad_group(c, we, opp, lm, gs[k]));
        }
    }
}

/// Every member of a dead stone's group is itself dead, and a listed dead
/// group's minimum witnesses the predicate.
proof fn lemma_bad_iff_illegal(s: Seq<Stone>, c: Player, lm: Option<Point>)
    requires
        grid_wf(s),
    ensures
        any_bad(c, self_dead(s, c), opp_dead(s, c), lm, dead_groups_spec(s), 0) == move_illegal(
            s,
            c,
            lm,
        ),
{
    let we = self_dead(s, c);
    let opp = opp_dead(s, c);
    let gs = dead_groups_spec(s);
    let mins = asc_indices(dead_min_pred(s), 361);
    lemma_asc_indices(dead_min_pred(s), 361);
    lemma_any_bad_exists(c, we, opp, lm, gs, 0);
    // each listed group is the component of a dead minimum
    assert forall|t: int| 0 <= t < gs.len() implies gs[t] == component_group(s, mins[t])
        && dead_min(s, mins[t]) && on_board(mins[t]) by {
        assert(dead_min_pred(s)(mins[t]));
    }
    if any_bad(c, we, opp, lm, gs, 0) {
        let t = choose|t: int| 0 <= t < gs.len() && bad_group(c, we, opp, lm, gs[t]);
        let m = mins[t];
        lemma_component_singleton(s, m);
        if suicide_group(c, opp, gs[t]) {
            assert(dead_at(s, m) && s[m].color == c);
            assert(self_dead(s, c));
            assert(move_illegal(s, c, lm));
        } else {
            assert(ko_group(c, we, opp, lm, gs[t]));
            assert(gs[t].stones.len() == 1);
            assert(singleton_group(s, m));
            assert(gs[t].stones[0] == idx_point(m));
            let p = lm.unwrap();
            assert(p == idx_point(m));
            lemma_idx_point_inverse(m);
            assert(p.on_grid() && p.idx() == m);
            assert(ko_shape(s, c, lm));
        }
    }
    if move_illegal(s, c, lm) {
        if suicide_shape(s, c) {
            let q = choose|q: int| dead_at(s, q) && s[q].color == c;
            lemma_exists_group_min(s, q);
            let m = choose|m: int|
                #[trigger] connected(s, q, m) && is_group_min(s, m) && s[m].color == s[q].color;
            lemma_connected_bounds(s, q, m);
            lemma_group_shares_liberty(s, q, m);
            assert(dead_min(s, m));
            assert(dead_min_pred(s)(m));
            assert(mins.contains(m));
            let t = choose|t: int| 0 <= t < mins.len() && mins[t] == m;
            assert(gs[t].team == c);
            assert(bad_group(c, we, opp, lm, gs[t]));
        } else {
            assert(ko_shape(s, c, lm));
            let p = lm.unwrap();
            let l = p.idx();
            // a lone dead stone is the minimum of its own group
            assert(is_group_min(s, l)) by {
                assert forall|j: int| connected(s, l, j) implies l <= j by {
                    assert(j == l);
                }
            }
            assert(dead_min(s, l));
            assert(dead_min_pred(s)(l));
            assert(mins.contains(l));
            let t = choose|t: int| 0 <= t < mins.len() && mins[t] == l;
            lemma_component_singleton(s, l);
            assert(gs[t].stones.len() == 1);
            assert(gs[t].stones[0] == idx_point(l));
            lemma_point_idx_inverse(p);
            assert(gs[t].stones[0] == p);
            assert(gs[t].team != c);
            assert(ko_group(c, we, opp, lm, gs[t]));
        }
    }
}

/// Finds the dead groups and decides legality of the tentative grid in one
/// pass: the dead groups, whether an enemy group died, whether one of the
/// mover's own groups died, and whether the position is illegal for the mover.
fn classify(stones: &Vec<Stone>, current_turn: &Player, last_move: Option<Point>) -> (r: (
    Vec<Group>,
    bool,
    bool,
    bool,
))
    requires
        grid_wf(stones@),
    ensures
        views_of_groups(r.0@) == dead_groups_spec(stones@),
        r.1 == opp_dead(stones@, *current_turn),
        r.2 == self_dead(stones@, *current_turn),
        r.3 == move_illegal(stones@, *current_turn, last_move),
{
    let ghost sg = stones@;
    let ghost dgs = dead_groups_spec(stones@);
    let c = *current_turn;
    let (dead, opponent_died, we_died) = find_dead_groups(stones, current_turn);
    let mut illegal = false;
    let mut k: usize = 0;
    let n = dead.len();
    while k < n
        invariant
            grid_wf(sg),
            stones@ == sg,
            c == *current_turn,
            views_of_groups(dead@) == dgs,
            dgs == dead_groups_spec(sg),
            n == dead@.len(),
            k <= n,
            opponent_died == opp_dead(sg, c),
            we_died == self_dead(sg, c),
            (illegal || any_bad(c, we_died, opponent_died, last_move, dgs, k as int)) == any_bad(
                c,
                we_died,
                opponent_died,
                last_move,
                dgs,
                0,
            ),
        decreases n - k,
    {
        proof {
            assert(dgs[k as int] == dead@[k as int]@);
        }
        let g = &dead[k];
        let mut bad = false;
        if !opponent_died && g.team == c {
            bad = true;
        } else if we_died && opponent_died && g.team != c && g.stones.len() == 1 {
            match last_move {
                Some(p) => {
                    if g.stones[0] == p {
                        bad = true;
                    }
                },
                None => {},
            }
        }
        proof {
            assert(bad == bad_group(c, we_died, opponent_died, last_move, dgs[k as int]));
            assert(any_bad(c, we_died, opponent_died, last_move, dgs, k as int) == (bad_group(
                c,
                we_died,
                opponent_died,
                last_move,
                dgs[k as int],
            ) || any_bad(c, we_died, opponent_died, last_move, dgs, k as int + 1)));
        }
        if bad {
            illegal = true;
        }
        k = k + 1;
    }
    proof {
        lemma_bad_iff_illegal(sg, c, last_move);
    }
    (dead, opponent_died, we_died, illegal)
}

// ---------------------------------------------------------------------------
// Replay: the grid as a function of the history path
// ---------------------------------------------------------------------------

use crate::history::{
    arena_parents_dec, eff_next, hist_push, initial_hist, wf_hist, HistV, History, NodeV,
};

/// The empty 19x19 grid.
pub open spec fn empty_grid() -> Seq<Stone> {
    Seq::new(361, |i: int| blank_stone())
}

/// Re-apply a recorded move: place the stone, clear the recorded captures.
pub open spec fn apply_move(s: Seq<Stone>, m: MoveV) -> Seq<Stone> {
    apply_move_g(s, m.player, m.index, move_captures(m))
}

/// Retract a recorded move: clear the stone, restore the captures to the
/// opposing colour.
pub open spec fn unapply_move(s: Seq<Stone>, m: MoveV) -> Seq<Stone> {
    unapply_move_g(s, m.player, m.index, move_captures(m))
}

/// The grid reached by replaying, from the empty board, the moves on the way
/// from the root to node `i`.
pub open spec fn replay_to(ns: Seq<NodeV>, i: int) -> Seq<Stone>
    decreases i,
    when 0 <= i < ns.len() && arena_parents_dec(ns)
{
    if i <= 0 {
        empty_grid()
    } else {
        apply_move(replay_to(ns, ns[i].parent), ns[i].mov)
    }
}

/// The number of moves on the way from the root to node `i`.
pub open spec fn ply_of(ns: Seq<NodeV>, i: int) -> int
    decreases i,
    when 0 <= i < ns.len() && arena_parents_dec(ns)
{
    if i <= 0 {
        0
    } else {
        1 + ply_of(ns, ns[i].parent)
    }
}

/// The displayed last move at node `i`.
pub open spec fn last_move_of(ns: Seq<NodeV>, i: int) -> Option<Point> {
    if i <= 0 {
        None
    } else {
        Some(idx_point(ns[i].mov.index))
    }
}

/// The dead groups of the grid, keeping only the enemy ones, in order.
pub open spec fn enemy_prefix(gs: Seq<GroupV>, c: Player, k: int) -> Seq<GroupV>
    decreases k,
    when 0 <= k <= gs.len()
{
    if k <= 0 {
        Seq::empty()
    } else {
        enemy_prefix(gs, c, k - 1) + (if gs[k - 1].team != c {
            seq![gs[k - 1]]
        } else {
            Seq::empty()
        })
    }
}

/// The enemy groups that a move by `c` captures on the tentative grid `t`.
pub open spec fn enemy_dead_groups(t: Seq<Stone>, c: Player) -> Seq<GroupV> {
    enemy_prefix(dead_groups_spec(t), c, dead_groups_spec(t).len() as int)
}

/// A recorded node replays faithfully: its move stood on an empty point of
/// the position before it, alternated colours, was legal there, and recorded
/// exactly the enemy groups that died.
pub open spec fn node_consistent(ns: Seq<NodeV>, i: int) -> bool {
    let m = ns[i].mov;
    let before = replay_to(ns, ns[i].parent);
    let t = before.update(m.index, stone_of(m.player));
    &&& on_board(m.index)
    &&& !before[m.index].visible
    &&& m.player == ns[ns[i].parent].mov.player.other()
    &&& m.groups == enemy_dead_groups(t, m.player)
    &&& !move_illegal(t, m.player, last_move_of(ns, ns[i].parent))
}

/// Every group kept by the enemy filter comes from the filtered row, and
/// every enemy group of the row is kept.
pub proof fn lemma_enemy_prefix_props(gs: Seq<GroupV>, c: Player, n: int)
    requires
        0 <= n <= gs.len(),
    ensures
        forall|k: int|
            0 <= k < enemy_prefix(gs, c, n).len() ==> (#[trigger] enemy_prefix(gs, c, n)[k]).team
                != c && gs.subrange(0, n).contains(enemy_prefix(gs, c, n)[k]),
        forall|t: int|
            0 <= t < n && (#[trigger] gs[t]).team != c ==> enemy_prefix(gs, c, n).contains(gs[t]),
    decreases n,
{
    if n > 0 {
        lemma_enemy_prefix_props(gs, c, n - 1);
        let ep = enemy_prefix(gs, c, n);
        let ep0 = enemy_prefix(gs, c, n - 1);
        if gs[n - 1].team != c {
            assert(ep =~= ep0.push(gs[n - 1]));
        } else {
            assert(ep =~= ep0);
        }
        assert forall|k: int| 0 <= k < ep.len() implies (#[trigger] ep[k]).team != c
            && gs.subrange(0, n).contains(ep[k]) by {
            if k < ep0.len() {
                assert(ep[k] == ep0[k]);
                assert(gs.subrange(0, n - 1).contains(ep0[k]));
                let t = choose|t: int|
                    0 <= t < n - 1 && (#[trigger] gs.subrange(0, n - 1)[t]) == ep0[k];
                assert(gs.subrange(0, n)[t] == gs[t]);
                assert(gs.subrange(0, n).contains(ep[k]));
            } else {
                assert(ep[k] == gs[n - 1]);
                assert(gs.subrange(0, n)[n - 1] == gs[n - 1]);
                assert(gs.subrange(0, n).contains(ep[k]));
            }
        }
        assert forall|t: int| 0 <= t < n && (#[trigger] gs[t]).team != c implies ep.contains(
            gs[t],
        ) by {
            if t < n - 1 {
                assert(ep0.contains(gs[t]));
                let k = choose|k: int| 0 <= k < ep0.len() && ep0[k] == gs[t];
                assert(ep[k] == gs[t]);
            } else {
                assert(ep[ep.len() - 1] == gs[n - 1]);
            }
        }
    }
}

/// A stone row entry of a component group names exactly a member of the
/// component.
pub proof fn lemma_component_members(s: Seq<Stone>, m: int)
    requires
        grid_wf(s),
        occupied(s, m),
    ensures
        forall|j: int|
            0 <= j < component_group(s, m).stones.len() ==> on_board(
                (#[trigger] component_group(s, m).stones[j]).idx(),
            ) && component_group(s, m).stones[j].on_grid() && group_set(s, m).contains(
                component_group(s, m).stones[j].idx(),
            ),
        forall|q: int|
            group_set(s, m).contains(q) ==> exists|j: int|
                0 <= j < component_group(s, m).stones.len() && (
                #[trigger] component_group(s, m).stones[j]).idx() == q,
{
    let pred = group_pred(s, m);
    let asc = asc_indices(pred, 361);
    lemma_asc_indices(pred, 361);
    let st = component_group(s, m).stones;
    assert forall|j: int| 0 <= j < st.len() implies on_board((#[trigger] st[j]).idx())
        && group_set(s, m).contains(st[j].idx()) by {
        assert(st[j] == idx_point(asc[j]));
        assert(pred(asc[j]));
        lemma_idx_point_inverse(asc[j]);
    }
    assert forall|q: int| group_set(s, m).contains(q) implies exists|j: int|
        0 <= j < st.len() && (#[trigger] st[j]).idx() == q by {
        assert(pred(q));
        lemma_connected_bounds(s, m, q);
        assert(asc.contains(q));
        let j = choose|j: int| 0 <= j < asc.len() && asc[j] == q;
        lemma_idx_point_inverse(q);
        assert(st[j] == idx_point(q));
        assert(st[j].idx() == q);
    }
}

/// The stones recorded in the captured enemy groups are exactly the enemy
/// points that die on the tentative grid.
pub proof fn lemma_enemy_captures(t: Seq<Stone>, c: Player)
    requires
        grid_wf(t),
    ensures
        groups_pts(enemy_dead_groups(t, c), enemy_dead_groups(t, c).len() as int) == captured_set(
            t,
            c,
        ),
{
    let dgs = dead_groups_spec(t);
    let eg = enemy_dead_groups(t, c);
    let mins = asc_indices(dead_min_pred(t), 361);
    lemma_asc_indices(dead_min_pred(t), 361);
    lemma_groups_pts_membership(eg, eg.len() as int);
    lemma_enemy_prefix_props(dgs, c, dgs.len() as int);
    assert forall|q: int| groups_pts(eg, eg.len() as int).contains(q) implies captured_set(
        t,
        c,
    ).contains(q) by {
        let (x, y) = choose|x: int, y: int|
            0 <= x < eg.len() && 0 <= y < eg[x].stones.len() && (#[trigger] eg[x].stones[y]).idx()
                == q;
        assert(dgs.subrange(0, dgs.len() as int).contains(eg[x]));
        let tt = choose|tt: int|
            0 <= tt < dgs.len() && (#[trigger] dgs.subrange(0, dgs.len() as int)[tt]) == eg[x];
        assert(dgs[tt] == eg[x]);
        let m = mins[tt];
        assert(dead_min_pred(t)(m));
        assert(dgs[tt] == component_group(t, m));
        lemma_component_members(t, m);
        assert(group_set(t, m).contains(q));
        lemma_connected_bounds(t, m, q);
        lemma_group_shares_liberty(t, m, q);
        assert(dead_at(t, q));
        assert(t[q].color == t[m].color);
        assert(t[m].color == component_group(t, m).team);
        assert(t[q].color != c);
    }
    assert forall|q: int| captured_set(t, c).contains(q) implies groups_pts(
        eg,
        eg.len() as int,
    ).contains(q) by {
        assert(dead_at(t, q) && t[q].color != c);
        lemma_exists_group_min(t, q);
        let m = choose|m: int|
            #[trigger] connected(t, q, m) && is_group_min(t, m) && t[m].color == t[q].color;
        lemma_connected_bounds(t, q, m);
        lemma_group_shares_liberty(t, q, m);
        assert(dead_min(t, m));
        assert(dead_min_pred(t)(m));
        assert(mins.contains(m));
        let tt = choose|tt: int| 0 <= tt < mins.len() && mins[tt] == m;
        assert(dgs[tt] == component_group(t, m));
        assert(dgs[tt].team == t[m].color);
        assert(dgs[tt].team != c);
        assert(eg.contains(dgs[tt]));
        let x = choose|x: int| 0 <= x < eg.len() && eg[x] == dgs[tt];
        lemma_component_members(t, m);
        lemma_connected_sym(t, q, m);
        assert(group_set(t, m).contains(q));
        let j = choose|j: int|
            0 <= j < component_group(t, m).stones.len() && (
            #[trigger] component_group(t, m).stones[j]).idx() == q;
        assert(0 <= x < eg.len() && 0 <= j < eg[x].stones.len() && eg[x].stones[j].idx() == q);
    }
    assert(groups_pts(eg, eg.len() as int) =~= captured_set(t, c));
}

/// A replayed grid has 361 cells and canonical empty intersections.
pub proof fn lemma_replay_props(ns: Seq<NodeV>, i: int)
    requires
        arena_parents_dec(ns),
        0 <= i < ns.len(),
    ensures
        grid_wf(replay_to(ns, i)),
        forall|j: int|
            0 <= j < 361 && !(#[trigger] replay_to(ns, i)[j]).visible ==> replay_to(ns, i)[j]
                == blank_stone(),
    decreases i,
{
    if i > 0 {
        lemma_replay_props(ns, ns[i].parent);
    }
}

/// Replaying depends only on the parent edges and the recorded moves at or
/// below the node.
pub proof fn lemma_replay_frame(ns1: Seq<NodeV>, ns2: Seq<NodeV>, i: int)
    requires
        arena_parents_dec(ns1),
        arena_parents_dec(ns2),
        0 <= i < ns1.len(),
        i < ns2.len(),
        forall|j: int|
            0 <= j <= i ==> (#[trigger] ns1[j]).parent == ns2[j].parent && ns1[j].mov
                == ns2[j].mov,
    ensures
        replay_to(ns1, i) == replay_to(ns2, i),
        ply_of(ns1, i) == ply_of(ns2, i),
        last_move_of(ns1, i) == last_move_of(ns2, i),
    decreases i,
{
    if i > 0 {
        lemma_replay_frame(ns1, ns2, ns1[i].parent);
    }
}

/// Node consistency depends only on the parent edges and recorded moves at or
/// below the node.
pub proof fn lemma_consistent_frame(ns1: Seq<NodeV>, ns2: Seq<NodeV>, i: int)
    requires
        arena_parents_dec(ns1),
        arena_parents_dec(ns2),
        1 <= i < ns1.len(),
        i < ns2.len(),
        forall|j: int|
            0 <= j <= i ==> (#[trigger] ns1[j]).parent == ns2[j].parent && ns1[j].mov
                == ns2[j].mov,
        node_consistent(ns1, i),
    ensures
        node_consistent(ns2, i),
{
    lemma_replay_frame(ns1, ns2, ns1[i].parent);
}

/// One move by one player is never more than one ply down the graph.
pub proof fn lemma_ply_bound(ns: Seq<NodeV>, i: int)
    requires
        arena_parents_dec(ns),
        0 <= i < ns.len(),
    ensures
        0 <= ply_of(ns, i) <= i,
    decreases i,
{
    if i > 0 {
        lemma_ply_bound(ns, ns[i].parent);
    }
}

/// Re-applying the recorded move on the position before it yields exactly the
/// tentative grid with its captured enemy stones removed.
pub proof fn lemma_apply_is_capture(before: Seq<Stone>, c: Player, idx: int)
    requires
        grid_wf(before),
        on_board(idx),
        !before[idx].visible,
    ensures
        ({
            let t = before.update(idx, stone_of(c));
            let m = MoveV { player: c, index: idx, groups: enemy_dead_groups(t, c) };
            apply_move(before, m) == grid_after_capture(t, c)
        }),
{
    let t = before.update(idx, stone_of(c));
    let m = MoveV { player: c, index: idx, groups: enemy_dead_groups(t, c) };
    lemma_enemy_captures(t, c);
    assert(move_captures(m) == captured_set(t, c));
    assert forall|i: int| 0 <= i < 361 implies apply_move(before, m)[i] == grid_after_capture(
        t,
        c,
    )[i] by {
        if i == idx {
            assert(t[idx] == stone_of(c));
            assert(!captured_set(t, c).contains(idx));
        } else if captured_set(t, c).contains(i) {
        } else {
            assert(t[i] == before[i]);
        }
    }
    assert(apply_move(before, m) =~= grid_after_capture(t, c));
}

// ---------------------------------------------------------------------------
// The simple-ko marker
// ---------------------------------------------------------------------------

/// The two-stone ko shape on the tentative grid: the placed stone and a lone
/// enemy stone are the only dead points.
pub open spec fn ko_pair(t: Seq<Stone>, c: Player, p: Point, q: int) -> bool {
    &&& on_board(q)
    &&& q != p.idx()
    &&& dead_at(t, q)
    &&& t[q].color != c
    &&& dead_at(t, p.idx())
    &&& forall|i: int| #[trigger] dead_at(t, i) ==> i == q || i == p.idx()
}

/// The ko marker after a move by `c` on `p`: the captured lone enemy stone's
/// point when the position is the two-stone ko shape, else none.
pub open spec fn ko_point(t: Seq<Stone>, c: Player, p: Point) -> Option<Point> {
    if exists|q: int| ko_pair(t, c, p, q) {
        Some(idx_point(choose|q: int| ko_pair(t, c, p, q)))
    } else {
        None
    }
}

/// When the board shows exactly two dead groups, a lone dead enemy stone, a
/// dead mover's group, and the symmetric recapture check fails, the position
/// is the two-stone ko shape.
proof fn lemma_ko_from_flags(t: Seq<Stone>, c: Player, p: Point, k: int)
    requires
        grid_wf(t),
        p.on_grid(),
        t[p.idx()] == stone_of(c),
        dead_groups_spec(t).len() == 2,
        self_dead(t, c),
        0 <= k < 2,
        dead_groups_spec(t)[k].team != c,
        dead_groups_spec(t)[k].stones.len() == 1,
        move_illegal(t, c.other(), Some(p)),
    ensures
        ko_pair(t, c, p, asc_indices(dead_min_pred(t), 361)[k]),
        dead_groups_spec(t)[k].stones[0] == idx_point(asc_indices(dead_min_pred(t), 361)[k]),
{
    let mins = asc_indices(dead_min_pred(t), 361);
    lemma_asc_indices(dead_min_pred(t), 361);
    let ip = p.idx();
    lemma_point_idx_inverse(p);
    let mq = mins[k];
    assert(dead_min_pred(t)(mq));
    assert(dead_min(t, mq));
    lemma_component_singleton(t, mq);
    assert(singleton_group(t, mq));
    assert(t[mq].color != c);
    // the recapture check can only fail through the ko shape for the opponent
    assert(opp_dead(t, c.other())) by {
        let w = choose|w: int| dead_at(t, w) && t[w].color == c;
        assert(t[w].color != c.other());
    }
    assert(ko_shape(t, c.other(), Some(p)));
    assert(dead_at(t, ip) && t[ip].color == c && singleton_group(t, ip));
    // the placed stone is a lone dead group, hence its own minimum
    assert(is_group_min(t, ip)) by {
        assert forall|j: int| connected(t, ip, j) implies ip <= j by {
            assert(j == ip);
        }
    }
    assert(dead_min(t, ip));
    assert(dead_min_pred(t)(ip));
    assert(mins.contains(ip));
    let ki = choose|ki: int| 0 <= ki < mins.len() && mins[ki] == ip;
    assert(ki != k);
    // every dead point lies in one of the two lone components
    assert forall|i: int| #[trigger] dead_at(t, i) implies i == mq || i == ip by {
        lemma_exists_group_min(t, i);
        let m = choose|m: int|
            #[trigger] connected(t, i, m) && is_group_min(t, m) && t[m].color == t[i].color;
        lemma_connected_bounds(t, i, m);
        lemma_group_shares_liberty(t, i, m);
        assert(dead_min(t, m));
        assert(dead_min_pred(t)(m));
        assert(mins.contains(m));
        let km = choose|km: int| 0 <= km < mins.len() && mins[km] == m;
        assert(m == mq || m == ip);
        lemma_connected_sym(t, i, m);
        assert(connected(t, m, i));
        assert(i == m);
    }
}

/// Conversely, the two-stone ko shape forces exactly the flags the board code
/// checks for.
proof fn lemma_ko_to_flags(t: Seq<Stone>, c: Player, p: Point, q: int)
    requires
        grid_wf(t),
        p.on_grid(),
        t[p.idx()] == stone_of(c),
        ko_pair(t, c, p, q),
    ensures
        dead_groups_spec(t).len() == 2,
        self_dead(t, c),
        move_illegal(t, c.other(), Some(p)),
        exists|k: int|
            0 <= k < 2 && (#[trigger] dead_groups_spec(t)[k]).team != c && dead_groups_spec(
                t,
            )[k].stones.len() == 1 && dead_groups_spec(t)[k].stones[0] == idx_point(q),
{
    let mins = asc_indices(dead_min_pred(t), 361);
    lemma_asc_indices(dead_min_pred(t), 361);
    let ip = p.idx();
    lemma_point_idx_inverse(p);
    // both stones are lone groups
    assert forall|w: int| #[trigger] connected(t, q, w) implies w == q by {
        lemma_connected_bounds(t, q, w);
        lemma_group_shares_liberty(t, q, w);
        assert(dead_at(t, w));
        assert(w == q || w == ip);
        assert(t[ip].color == c);
    }
    assert(singleton_group(t, q));
    assert forall|w: int| #[trigger] connected(t, ip, w) implies w == ip by {
        lemma_connected_bounds(t, ip, w);
        lemma_group_shares_liberty(t, ip, w);
        assert(dead_at(t, w));
        assert(t[q].color != c);
    }
    assert(singleton_group(t, ip));
    assert(is_group_min(t, q)) by {
        assert forall|j: int| connected(t, q, j) implies q <= j by {
            assert(j == q);
        }
    }
    assert(is_group_min(t, ip)) by {
        assert forall|j: int| connected(t, ip, j) implies ip <= j by {
            assert(j == ip);
        }
    }
    assert(dead_min(t, q) && dead_min(t, ip));
    assert(dead_min_pred(t)(q) && dead_min_pred(t)(ip));
    assert(mins.contains(q) && mins.contains(ip));
    let kq = choose|kq: int| 0 <= kq < mins.len() && mins[kq] == q;
    let ki = choose|ki: int| 0 <= ki < mins.len() && mins[ki] == ip;
    assert(kq != ki);
    assert(mins.len() >= 2);
    // and they are the only dead minima
    assert forall|km: int| 0 <= km < mins.len() implies mins[km] == q || mins[km] == ip by {
        assert(dead_min_pred(t)(mins[km]));
        assert(dead_at(t, mins[km]));
    }
    if mins.len() >= 3 {
        assert(mins[0] < mins[1] && mins[1] < mins[2]);
        assert(false);
    }
    assert(dead_groups_spec(t).len() == 2);
    assert(self_dead(t, c)) by {
        assert(dead_at(t, ip) && t[ip].color == c);
    }
    assert(move_illegal(t, c.other(), Some(p))) by {
        assert(self_dead(t, c.other())) by {
            assert(dead_at(t, q) && t[q].color == c.other());
        }
        assert(opp_dead(t, c.other())) by {
            assert(dead_at(t, ip) && t[ip].color != c.other());
        }
        assert(ko_shape(t, c.other(), Some(p)));
    }
    lemma_component_singleton(t, q);
    assert(dead_groups_spec(t)[kq].team != c);
    assert(dead_groups_spec(t)[kq].stones.len() == 1);
    assert(dead_groups_spec(t)[kq].stones[0] == idx_point(q));
    assert(0 <= kq < 2);
}

/// The full effect of a legal move on `p`: the stone is placed, captured
/// enemy groups are removed and recorded in a new history node, the ko marker
/// is set exactly on the two-stone ko shape, the turn flips, the last move
/// and ply count advance.
pub open spec fn play_effect(g: GobanV, p: Point) -> GobanV {
    let c = g.turn;
    let t = g.grid.update(p.idx(), stone_of(c));
    let m = MoveV { player: c, index: p.idx(), groups: enemy_dead_groups(t, c) };
    GobanV {
        grid: grid_after_capture(t, c),
        last_move: Some(p),
        ko: ko_point(t, c, p),
        move_number: (g.move_number + 1) as u16,
        total_move_number: g.total_move_number,
        hist: hist_push(g.hist, m),
        turn: c.other(),
    }
}

/// The ko marker that belongs to the position of node `i`: the marker the
/// move recorded there produced, or none at the root.
pub open spec fn ko_of(ns: Seq<NodeV>, i: int) -> Option<Point> {
    if i <= 0 {
        None
    } else {
        let m = ns[i].mov;
        let before = replay_to(ns, ns[i].parent);
        ko_point(before.update(m.index, stone_of(m.player)), m.player, idx_point(m.index))
    }
}

/// The tentative grid of a recorded move can be rebuilt from the position
/// after it: put the mover's stone back on its point and the captured stones
/// back as the opposing colour.
pub proof fn lemma_rebuild_tentative(before: Seq<Stone>, c: Player, idx: int)
    requires
        grid_wf(before),
        on_board(idx),
        !before[idx].visible,
    ensures
        ({
            let t = before.update(idx, stone_of(c));
            let m = MoveV { player: c, index: idx, groups: enemy_dead_groups(t, c) };
            forall|i: int|
                0 <= i < 361 ==> t[i] == (if i == idx {
                    stone_of(c)
                } else if move_captures(m).contains(i) {
                    stone_of(c.other())
                } else {
                    grid_after_capture(t, c)[i]
                })
        }),
{
    let t = before.update(idx, stone_of(c));
    let m = MoveV { player: c, index: idx, groups: enemy_dead_groups(t, c) };
    lemma_enemy_captures(t, c);
    assert(move_captures(m) == captured_set(t, c));
    assert forall|i: int| 0 <= i < 361 implies t[i] == (if i == idx {
        stone_of(c)
    } else if move_captures(m).contains(i) {
        stone_of(c.other())
    } else {
        grid_after_capture(t, c)[i]
    }) by {
        if i == idx {
        } else if captured_set(t, c).contains(i) {
            assert(dead_at(t, i) && t[i].color != c);
            assert(t[i].visible);
            if c == Player::Black {
                assert(t[i] == stone_of(Player::White));
            } else {
                assert(t[i] == stone_of(Player::Black));
            }
        } else {
        }
    }
}

/// The board: grid, turn, last move, ko marker, ply counters and the move
/// history.
pub struct Goban {
    pub stones: Vec<Stone>,
    pub last_move: Option<Point>,
    pub ko: Option<Point>,
    pub current_move_number: u16,
    pub total_move_number: u16,
    pub history: History,
    pub turn: Player,
}

/// Ghost image of a board.
#[verifier::ext_equal]
pub struct GobanV {
    pub grid: Seq<Stone>,
    pub last_move: Option<Point>,
    pub ko: Option<Point>,
    pub move_number: u16,
    pub total_move_number: u16,
    pub hist: HistV,
    pub turn: Player,
}

impl View for Goban {
    type V = GobanV;

    open spec fn view(&self) -> GobanV {
        GobanV {
            grid: self.stones@,
            last_move: self.last_move,
            ko: self.ko,
            move_number: self.current_move_number,
            total_move_number: self.total_move_number,
            hist: self.history@,
            turn: self.turn,
        }
    }
}

/// A reachable board state: the history is well formed, every recorded node
/// replays faithfully, and grid, turn, last move, ko marker and ply count are
/// exactly what replaying the path to the cursor yields. Legality itself
/// derives the ko ban from the last move; the marker mirrors it for display.
pub open spec fn wf_goban(g: GobanV) -> bool {
    &&& grid_wf(g.grid)
    &&& wf_hist(g.hist)
    &&& g.hist.nodes.len() <= 0xFFFF
    &&& forall|i: int| 1 <= i < g.hist.nodes.len() ==> node_consistent(g.hist.nodes, i)
    &&& g.grid == replay_to(g.hist.nodes, g.hist.current)
    &&& g.turn == g.hist.nodes[g.hist.current].mov.player.other()
    &&& g.last_move == last_move_of(g.hist.nodes, g.hist.current)
    &&& g.ko == ko_of(g.hist.nodes, g.hist.current)
    &&& g.move_number as int == ply_of(g.hist.nodes, g.hist.current)
}

/// The board a fresh game starts from.
pub open spec fn initial_goban() -> GobanV {
    GobanV {
        grid: empty_grid(),
        last_move: None,
        ko: None,
        move_number: 0,
        total_move_number: 0,
        hist: initial_hist(),
        turn: Player::Black,
    }
}

/// A row of 361 empty intersections.
fn empty_board() -> (r: Vec<Stone>)
    ensures
        r@ == empty_grid(),
{
    let mut r: Vec<Stone> = Vec::new();
    while r.len() < 361
        invariant
            r@.len() <= 361,
            forall|i: int| 0 <= i < r@.len() ==> r@[i] == blank_stone(),
        decreases 361 - r@.len(),
    {
        r.push(Stone { visible: false, color: Player::Black });
    }
    proof {
        assert(r@ =~= empty_grid());
    }
    r
}

/// An exact copy of a grid row.
fn copy_stones(v: &Vec<Stone>) -> (r: Vec<Stone>)
    ensures
        r@ == v@,
{
    let mut r: Vec<Stone> = Vec::new();
    let mut k: usize = 0;
    while k < v.len()
        invariant
            k <= v@.len(),
            r@ == v@.subrange(0, k as int),
        decreases v@.len() - k,
    {
        r.push(v[k]);
        proof {
            assert(r@ =~= v@.subrange(0, k as int + 1));
        }
        k = k + 1;
    }
    proof {
        assert(r@ =~= v@);
    }
    r
}

impl Default for Goban {
    /// An empty board with a fresh history, Black to move.
    fn default() -> (r: Goban)
        ensures
            r@ == initial_goban(),
            wf_goban(r@),
    {
        let r = Goban {
            stones: empty_board(),
            last_move: None,
            ko: None,
            current_move_number: 0,
            total_move_number: 0,
            history: History::default(),
            turn: Player::Black,
        };
        proof {
            assert(r@ =~= initial_goban());
            assert(replay_to(r@.hist.nodes, 0) == empty_grid());
            assert(ko_of(r@.hist.nodes, 0) is None);
            assert(ply_of(r@.hist.nodes, 0) == 0);
        }
        r
    }
}

impl Goban {
    /// The point with flat grid index `i`.
    pub fn idx_to_coord(i: usize) -> (r: Point)
        requires
            i < 361,
        ensures
            r == idx_point(i as int),
    {
        Point { x: (i / 19) as u32, y: (i % 19) as u32 }
    }

    /// The flat grid index of a point.
    pub fn coord_to_idx(p: Point) -> (r: usize)
        requires
            p.on_grid(),
        ensures
            r as int == p.idx(),
    {
        p.x as usize * 19 + p.y as usize
    }

    /// Keeps the enemy-coloured groups of a dead-group row, in order.
    fn keep_enemy_groups(dead: &Vec<Group>, turn: Player) -> (r: Vec<Group>)
        ensures
            views_of_groups(r@) == enemy_prefix(
                views_of_groups(dead@),
                turn,
                dead@.len() as int,
            ),
    {
        let ghost dgs = views_of_groups(dead@);
        let mut kept: Vec<Group> = Vec::new();
        let mut k: usize = 0;
        let dn = dead.len();
        while k < dn
            invariant
                dgs == views_of_groups(dead@),
                dn == dead@.len(),
                k <= dn,
                views_of_groups(kept@) == enemy_prefix(dgs, turn, k as int),
            decreases dn - k,
        {
            let ghost before = views_of_groups(kept@);
            proof {
                assert(dgs[k as int] == dead@[k as int]@);
            }
            if dead[k].team != turn {
                let cg = copy_group(&dead[k]);
                kept.push(cg);
                proof {
                    assert(views_of_groups(kept@) =~= before.push(dgs[k as int]));
                    assert(enemy_prefix(dgs, turn, k as int + 1) =~= enemy_prefix(
                        dgs,
                        turn,
                        k as int,
                    ).push(dgs[k as int]));
                }
            } else {
                proof {
                    assert(enemy_prefix(dgs, turn, k as int + 1) =~= enemy_prefix(
                        dgs,
                        turn,
                        k as int,
                    ));
                }
            }
            k = k + 1;
        }
        kept
    }

    /// Computes the ko marker that a move by `turn` on `p` leaves behind:
    /// the captured lone enemy stone's point exactly when the tentative grid
    /// shows the two-stone ko shape, re-checked from the recapturing side.
    #[verifier::rlimit(60)]
    fn compute_ko(tentative: &Vec<Stone>, turn: Player, p: Point) -> (r: Option<Point>)
        requires
            grid_wf(tentative@),
            p.on_grid(),
            tentative@[p.idx()] == stone_of(turn),
        ensures
            r == ko_point(tentative@, turn, p),
    {
        let ghost t = tentative@;
        let ghost c = turn;
        let (dead, _opponent_died, we_died, _illegal) = classify(tentative, &turn, None);
        let ghost dgs = dead_groups_spec(t);
        let mut ko: Option<Point> = None;
        if dead.len() == 2 && we_died {
            let other_turn = match turn {
                Player::Black => Player::White,
                Player::White => Player::Black,
            };
            if dead[0].team != turn && dead[0].stones.len() == 1 {
                let r2 = classify(tentative, &other_turn, Some(p));
                if r2.3 {
                    ko = Some(dead[0].stones[0]);
                    proof {
                        lemma_ko_from_flags(t, c, p, 0);
                    }
                }
            }
            if dead[1].team != turn && dead[1].stones.len() == 1 {
                let r2 = classify(tentative, &other_turn, Some(p));
                if r2.3 {
                    ko = Some(dead[1].stones[0]);
                    proof {
                        lemma_ko_from_flags(t, c, p, 1);
                    }
                }
            }
        }
        proof {
            let mins = asc_indices(dead_min_pred(t), 361);
            match ko {
                Some(kp) => {
                    let q0 = choose|q: int| ko_pair(t, c, p, q);
                    assert(ko_pair(t, c, p, q0));
                    assert(kp == idx_point(q0)) by {
                        if ko_pair(t, c, p, mins[0]) && kp == idx_point(mins[0]) {
                            assert(dead_at(t, q0));
                            assert(q0 == mins[0] || q0 == p.idx());
                        } else {
                            assert(ko_pair(t, c, p, mins[1]) && kp == idx_point(mins[1]));
                            assert(dead_at(t, q0));
                            assert(q0 == mins[1] || q0 == p.idx());
                        }
                    }
                    assert(ko == ko_point(t, c, p));
                },
                None => {
                    if exists|q: int| ko_pair(t, c, p, q) {
                        let q = choose|q: int| ko_pair(t, c, p, q);
                        lemma_ko_to_flags(t, c, p, q);
                        let k = choose|k: int|
                            0 <= k < 2 && (#[trigger] dgs[k]).team != c && dgs[k].stones.len() == 1
                                && dgs[k].stones[0] == idx_point(q);
                        assert(views_of_groups(dead@)[k] == dead@[k]@);
                        assert(false);
                    }
                    assert(ko == ko_point(t, c, p));
                },
            }
        }
        ko
    }

    /// Plays a stone of the current turn's colour on the empty point `p`:
    /// checks legality, removes captured enemy stones, records the move in
    /// the history, sets the ko marker, flips the turn and advances the ply
    /// count. On rejection the board is unchanged.
    #[verifier::rlimit(100)]
    pub fn play(&mut self, p: Point, s: Stone) -> (r: Result<Vec<Group>, ()>)
        requires
            wf_goban(old(self)@),
            old(self)@.hist.nodes.len() < 0xFFFF,
            p.on_grid(),
            !old(self)@.grid[p.idx()].visible,
            s == stone_of(old(self)@.turn),
        ensures
            wf_goban(final(self)@),
            ({
                let g = old(self)@;
                let t = g.grid.update(p.idx(), stone_of(g.turn));
                if move_illegal(t, g.turn, g.last_move) {
                    r is Err && final(self)@ == g
                } else {
                    &&& r matches Ok(gs) && views_of_groups(gs@) == enemy_dead_groups(t, g.turn)
                    &&& final(self)@ == play_effect(g, p)
                }
            }),
    {
        let ghost g0 = old(self)@;
        let ghost c = old(self)@.turn;
        let ghost ns = old(self)@.hist.nodes;
        let idx = Goban::coord_to_idx(p);
        let mut tentative = copy_stones(&self.stones);
        tentative.set(idx, s);
        let ghost t = tentative@;
        proof {
            assert(t == g0.grid.update(p.idx(), stone_of(c)));
        }
        let (dead, _opponent_died, _we_died, illegal) = classify(
            &tentative,
            &self.turn,
            self.last_move,
        );
        if illegal {
            proof {
                assert(self@ =~= g0);
            }
            return Err(());
        }
        let ghost dgs = dead_groups_spec(t);
        // ko bookkeeping: the two-dead-groups shape with a lone enemy stone,
        // re-checked from the recapturing side
        let ko = Goban::compute_ko(&tentative, self.turn, p);
        // collect the captured enemy groups, in order
        let enemy_groups = Goban::keep_enemy_groups(&dead, self.turn);
        let ghost egv = views_of_groups(enemy_groups@);
        proof {
            assert(views_of_groups(dead@) == dgs);
            assert(egv == enemy_dead_groups(t, c));
            Goban::lemma_enemy_groups_on_grid(t, c);
            assert forall|x: int, y: int|
                0 <= x < egv.len() && 0 <= y < egv[x].stones.len() implies (
            #[trigger] egv[x].stones[y]).on_grid() by {
                assert(enemy_dead_groups(t, c)[x].stones[y].on_grid());
            }
            lemma_enemy_captures(t, c);
        }
        // place the stone and clear every captured point
        Goban::rewrite_cells(
            &mut self.stones,
            idx,
            s,
            &enemy_groups,
            Stone { visible: false, color: Player::Black },
        );
        proof {
            let m0 = MoveV { player: c, index: idx as int, groups: egv };
            assert(move_captures(m0) == captured_set(t, c));
            assert forall|i: int| 0 <= i < 361 implies self.stones@[i] == grid_after_capture(
                t,
                c,
            )[i] by {
                if i == idx as int {
                    assert(t[i] == stone_of(c));
                    assert(!captured_set(t, c).contains(i));
                } else {
                    assert(t[i] == g0.grid[i]);
                }
            }
            assert(self.stones@ =~= grid_after_capture(t, c));
        }
        // record the move and advance
        let turn_now = self.turn;
        let ret = copy_groups(&enemy_groups);
        let ghost mv = MoveV { player: c, index: idx as int, groups: egv };
        let pushres = self.history.push((turn_now, idx, enemy_groups));
        proof {
            assert(pushres is Ok);
            assert(self.history@ == hist_push(g0.hist, mv)) by {
                assert(MoveV {
                    player: turn_now,
                    index: idx as int,
                    groups: views_of_groups(enemy_groups@),
                } =~= mv);
            }
        }
        self.last_move = Some(p);
        self.turn.next();
        self.ko = ko;
        proof {
            lemma_ply_bound(ns, g0.hist.current);
        }
        self.current_move_number = self.current_move_number + 1;
        proof {
            let hp = hist_push(g0.hist, mv);
            let n = g0.hist.nodes.len() as int;
            let cur = g0.hist.current;
            assert(hp.nodes[n].mov == mv && hp.nodes[n].parent == cur);
            assert forall|j: int| 0 <= j < n implies (#[trigger] hp.nodes[j]).parent
                == ns[j].parent && hp.nodes[j].mov == ns[j].mov by {}
            crate::history::lemma_hist_push_wf(g0.hist, mv);
            // every old node still replays faithfully
            assert forall|i2: int| 1 <= i2 < hp.nodes.len() implies node_consistent(
                hp.nodes,
                i2,
            ) by {
                if i2 < n {
                    assert(node_consistent(ns, i2));
                    lemma_consistent_frame(ns, hp.nodes, i2);
                } else {
                    lemma_replay_frame(ns, hp.nodes, cur);
                    assert(replay_to(hp.nodes, cur) == g0.grid);
                    assert(t == g0.grid.update(mv.index, stone_of(mv.player)));
                    assert(last_move_of(hp.nodes, cur) == g0.last_move);
                    assert(node_consistent(hp.nodes, n));
                }
            }
            lemma_replay_frame(ns, hp.nodes, cur);
            lemma_apply_is_capture(g0.grid, c, idx as int);
            assert(replay_to(hp.nodes, n) == apply_move(g0.grid, mv));
            assert(self.stones@ == replay_to(hp.nodes, n));
            assert(ply_of(hp.nodes, n) == ply_of(ns, cur) + 1);
            lemma_point_idx_inverse(p);
            assert(last_move_of(hp.nodes, n) == Some(p));
            assert(ko_of(hp.nodes, n) == ko_point(t, c, p)) by {
                assert(hp.nodes[n].mov == mv);
                assert(replay_to(hp.nodes, cur) == g0.grid);
                assert(idx_point(mv.index) == p);
            }
            assert(wf_goban(self@));
            assert(self@ =~= play_effect(g0, p));
        }
        Ok(ret)
    }

    /// Writes `at_idx` on the cell `idx` and `at_capt` on every point of the
    /// given groups, leaving all other cells as they are.
    fn rewrite_cells(
        stones: &mut Vec<Stone>,
        idx: usize,
        at_idx: Stone,
        groups: &Vec<Group>,
        at_capt: Stone,
    )
        requires
            old(stones)@.len() == 361,
            idx < 361,
            forall|x: int, y: int|
                0 <= x < groups@.len() && 0 <= y < groups@[x]@.stones.len() ==> (
                #[trigger] views_of_groups(groups@)[x].stones[y]).on_grid(),
        ensures
            final(stones)@.len() == 361,
            forall|i: int|
                0 <= i < 361 ==> final(stones)@[i] == (if i == idx {
                    at_idx
                } else if groups_pts(
                    views_of_groups(groups@),
                    views_of_groups(groups@).len() as int,
                ).contains(i) {
                    at_capt
                } else {
                    old(stones)@[i]
                }),
    {
        let ghost s0 = old(stones)@;
        let ghost gv = views_of_groups(groups@);
        let mut capt = false_marks();
        let mut k2: usize = 0;
        let en = groups.len();
        proof {
            assert(marks_set(capt@) =~= groups_pts(gv, 0));
        }
        while k2 < en
            invariant
                capt@.len() == 361,
                en == groups@.len(),
                k2 <= en,
                gv == views_of_groups(groups@),
                forall|x: int, y: int|
                    0 <= x < gv.len() && 0 <= y < gv[x].stones.len() ==> (
                    #[trigger] gv[x].stones[y]).on_grid(),
                marks_set(capt@) == groups_pts(gv, k2 as int),
                stones@ == s0,
            decreases en - k2,
        {
            let mut j: usize = 0;
            let sn = groups[k2].stones.len();
            proof {
                assert(gv[k2 as int] == groups@[k2 as int]@);
                assert(marks_set(capt@) =~= groups_pts(gv, k2 as int).union(
                    pts_of(gv[k2 as int].stones, 0),
                ));
            }
            while j < sn
                invariant
                    capt@.len() == 361,
                    en == groups@.len(),
                    k2 < en,
                    sn == gv[k2 as int].stones.len(),
                    j <= sn,
                    gv == views_of_groups(groups@),
                    gv[k2 as int] == groups@[k2 as int]@,
                    forall|x: int, y: int|
                        0 <= x < gv.len() && 0 <= y < gv[x].stones.len() ==> (
                        #[trigger] gv[x].stones[y]).on_grid(),
                    marks_set(capt@) == groups_pts(gv, k2 as int).union(
                        pts_of(gv[k2 as int].stones, j as int),
                    ),
                    stones@ == s0,
                decreases sn - j,
            {
                let pt = groups[k2].stones[j];
                let pidx = Goban::coord_to_idx(pt);
                let ghost cm0 = capt@;
                capt.set(pidx, true);
                proof {
                    assert(gv[k2 as int].stones[j as int] == pt);
                    assert(marks_set(capt@) =~= marks_set(cm0).insert(pt.idx()));
                    assert(pts_of(gv[k2 as int].stones, j as int + 1) == pts_of(
                        gv[k2 as int].stones,
                        j as int,
                    ).insert(pt.idx()));
                    assert(marks_set(capt@) =~= groups_pts(gv, k2 as int).union(
                        pts_of(gv[k2 as int].stones, j as int + 1),
                    ));
                }
                j = j + 1;
            }
            proof {
                assert(marks_set(capt@) =~= groups_pts(gv, k2 as int + 1));
            }
            k2 = k2 + 1;
        }
        let mut i: usize = 0;
        while i < 361
            invariant
                stones@.len() == 361,
                capt@.len() == 361,
                marks_set(capt@) == groups_pts(gv, gv.len() as int),
                gv == views_of_groups(groups@),
                i <= 361,
                forall|x: int|
                    0 <= x < i ==> stones@[x] == (if x == idx {
                        at_idx
                    } else if groups_pts(gv, gv.len() as int).contains(x) {
                        at_capt
                    } else {
                        s0[x]
                    }),
                forall|x: int| i <= x < 361 ==> stones@[x] == s0[x],
            decreases 361 - i,
        {
            if i == idx {
                stones.set(i, at_idx);
            } else if capt[i] {
                stones.set(i, at_capt);
                proof {
                    assert(marks_set(capt@).contains(i as int));
                }
            } else {
                proof {
                    assert(!marks_set(capt@).contains(i as int));
                }
            }
            i = i + 1;
        }
    }

    /// Retracting and re-applying a recorded move returns exactly to the
    /// position before it.
    pub proof fn lemma_unapply_apply(before: Seq<Stone>, c: Player, idx: int)
        requires
            grid_wf(before),
            on_board(idx),
            before[idx] == blank_stone(),
        ensures
            ({
                let t = before.update(idx, stone_of(c));
                let m = MoveV { player: c, index: idx, groups: enemy_dead_groups(t, c) };
                unapply_move(apply_move(before, m), m) == before
            }),
    {
        let t = before.update(idx, stone_of(c));
        let m = MoveV { player: c, index: idx, groups: enemy_dead_groups(t, c) };
        lemma_enemy_captures(t, c);
        assert(move_captures(m) == captured_set(t, c));
        let mid = apply_move(before, m);
        assert forall|i: int| 0 <= i < 361 implies unapply_move(mid, m)[i] == before[i] by {
            if i == idx {
            } else if captured_set(t, c).contains(i) {
                assert(dead_at(t, i) && t[i].color != c);
                assert(t[i] == before[i]);
                assert(before[i].visible);
                if c == Player::Black {
                    assert(before[i] == stone_of(Player::White));
                } else {
                    assert(before[i] == stone_of(Player::Black));
                }
            }
        }
        assert(unapply_move(mid, m) =~= before);
    }

    /// Every stone recorded in the captured enemy groups lies on the board.
    pub proof fn lemma_enemy_groups_on_grid(t: Seq<Stone>, c: Player)
        requires
            grid_wf(t),
        ensures
            forall|x: int, y: int|
                0 <= x < enemy_dead_groups(t, c).len() && 0 <= y < enemy_dead_groups(
                    t,
                    c,
                )[x].stones.len() ==> (#[trigger] enemy_dead_groups(t, c)[x].stones[y]).on_grid(),
    {
        let dgs = dead_groups_spec(t);
        let eg = enemy_dead_groups(t, c);
        lemma_enemy_prefix_props(dgs, c, dgs.len() as int);
        lemma_asc_indices(dead_min_pred(t), 361);
        assert forall|x: int, y: int|
            0 <= x < eg.len() && 0 <= y < eg[x].stones.len() implies (
        #[trigger] eg[x].stones[y]).on_grid() by {
            assert(dgs.subrange(0, dgs.len() as int).contains(eg[x]));
            let tt = choose|tt: int|
                0 <= tt < dgs.len() && (#[trigger] dgs.subrange(0, dgs.len() as int)[tt]) == eg[x];
            let m = asc_indices(dead_min_pred(t), 361)[tt];
            assert(dead_min_pred(t)(m));
            lemma_component_members(t, m);
        }
    }

    /// Rewinds one move: clears the move's point, restores every captured
    /// group to the opposing colour, flips the turn back, decrements the ply
    /// count, and restores the last-move display and the ko marker of the
    /// position now current. A no-op at the root.
    #[verifier::rlimit(60)]
    pub fn previous_state(&mut self) -> (r: bool)
        requires
            wf_goban(old(self)@),
        ensures
            wf_goban(final(self)@),
            ({
                let g = old(self)@;
                if g.hist.current == 0 {
                    !r && final(self)@ == g
                } else {
                    let cur = g.hist.current;
                    let par = g.hist.nodes[cur].parent;
                    let m = g.hist.nodes[cur].mov;
                    &&& r
                    &&& final(self)@ == (GobanV {
                        grid: unapply_move(g.grid, m),
                        last_move: last_move_of(g.hist.nodes, par),
                        ko: ko_of(g.hist.nodes, par),
                        move_number: (g.move_number - 1) as u16,
                        hist: (HistV { current: par, ..g.hist }),
                        turn: g.turn.other(),
                        ..g
                    })
                }
            }),
    {
        let ghost g0 = old(self)@;
        let ghost ns = old(self)@.hist.nodes;
        let ghost cur = old(self)@.hist.current;
        match self.history.pop() {
            None => {
                proof {
                    assert(self@ =~= g0);
                }
                false
            },
            Some(popres) => {
                let (previous_move, mv) = popres;
                let (player, played_move, dead_stones) = mv;
                let ghost m = ns[cur].mov;
                let ghost par = ns[cur].parent;
                let ghost before = replay_to(ns, par);
                proof {
                    assert(node_consistent(ns, cur));
                    lemma_replay_props(ns, par);
                    assert(views_of_groups(dead_stones@) == m.groups);
                    assert(m.groups == enemy_dead_groups(
                        before.update(m.index, stone_of(m.player)),
                        m.player,
                    ));
                    Goban::lemma_enemy_groups_on_grid(
                        before.update(m.index, stone_of(m.player)),
                        m.player,
                    );
                }
                let enemy_stone = match player {
                    Player::Black => Stone::white(),
                    Player::White => Stone::black(),
                };
                Goban::rewrite_cells(
                    &mut self.stones,
                    played_move,
                    Stone { visible: false, color: Player::Black },
                    &dead_stones,
                    enemy_stone,
                );
                self.turn.next();
                self.last_move = match previous_move {
                    Some(idx2) => {
                        proof {
                            assert(par != 0);
                            assert(node_consistent(ns, par));
                        }
                        Some(Goban::idx_to_coord(idx2))
                    },
                    None => None,
                };
                proof {
                    assert(ply_of(ns, cur) == 1 + ply_of(ns, par));
                    lemma_ply_bound(ns, par);
                }
                self.current_move_number = self.current_move_number - 1;
                proof {
                    assert(enemy_stone == stone_of(m.player.other())) by {
                        if m.player == Player::Black {
                        } else {
                        }
                    }
                    assert forall|i: int| 0 <= i < 361 implies self.stones@[i] == unapply_move(
                        g0.grid,
                        m,
                    )[i] by {
                        assert(move_captures(m) == groups_pts(
                            views_of_groups(dead_stones@),
                            views_of_groups(dead_stones@).len() as int,
                        ));
                    }
                    assert(self.stones@ =~= unapply_move(g0.grid, m));
                    // the grid rewinds exactly to the parent position
                    assert(!before[m.index].visible && before[m.index] == blank_stone());
                    Goban::lemma_unapply_apply(before, m.player, m.index);
                    assert(g0.grid == apply_move(before, m));
                    assert(self.stones@ == before);
                }
                // recompute the ko marker that belongs to the parent position
                let curn = self.history.current_index;
                proof {
                    assert(curn as int == par);
                    assert(self.history@.nodes == ns);
                    assert(crate::history::views_of_hnodes(self.history.moves@) == ns);
                }
                if curn == 0 {
                    self.ko = None;
                    proof {
                        assert(ko_of(ns, par) is None);
                    }
                } else {
                    let ghost pb = replay_to(ns, ns[par].parent);
                    let ghost pt_ = pb.update(ns[par].mov.index, stone_of(ns[par].mov.player));
                    let pm_player = self.history.moves[curn].mov.player;
                    let pm_index = self.history.moves[curn].mov.index;
                    proof {
                        assert(node_consistent(ns, par));
                        lemma_replay_props(ns, ns[par].parent);
                        assert(self.history.moves@[curn as int]@ == ns[par]);
                        assert(pm_player == ns[par].mov.player);
                        assert(pm_index as int == ns[par].mov.index);
                        assert(on_board(pm_index as int));
                        assert(views_of_groups(self.history.moves@[curn as int].mov.groups@)
                            == ns[par].mov.groups);
                        assert(ns[par].mov.groups == enemy_dead_groups(pt_, pm_player));
                        Goban::lemma_enemy_groups_on_grid(pt_, pm_player);
                        // the rewound grid is the position after the parent's move
                        lemma_apply_is_capture(pb, pm_player, pm_index as int);
                        assert(ns[par].mov =~= (MoveV {
                            player: pm_player,
                            index: pm_index as int,
                            groups: enemy_dead_groups(pt_, pm_player),
                        }));
                        assert(self.stones@ == apply_move(pb, ns[par].mov));
                        assert(self.stones@ == grid_after_capture(pt_, pm_player));
                        lemma_rebuild_tentative(pb, pm_player, pm_index as int);
                        lemma_enemy_captures(pt_, pm_player);
                    }
                    let mut tent = copy_stones(&self.stones);
                    let put = match pm_player {
                        Player::Black => Stone::black(),
                        Player::White => Stone::white(),
                    };
                    let enemy2 = match pm_player {
                        Player::Black => Stone::white(),
                        Player::White => Stone::black(),
                    };
                    Goban::rewrite_cells(
                        &mut tent,
                        pm_index,
                        put,
                        &self.history.moves[curn].mov.groups,
                        enemy2,
                    );
                    proof {
                        assert(put == stone_of(pm_player)) by {
                            if pm_player == Player::Black {
                            } else {
                            }
                        }
                        assert(enemy2 == stone_of(pm_player.other())) by {
                            if pm_player == Player::Black {
                            } else {
                            }
                        }
                        assert forall|i: int| 0 <= i < 361 implies tent@[i] == pt_[i] by {
                            assert(move_captures(ns[par].mov) == groups_pts(
                                views_of_groups(self.history.moves@[curn as int].mov.groups@),
                                views_of_groups(
                                    self.history.moves@[curn as int].mov.groups@,
                                ).len() as int,
                            ));
                        }
                        assert(tent@ =~= pt_);
                    }
                    let pp = Goban::idx_to_coord(pm_index);
                    proof {
                        lemma_idx_point_inverse(pm_index as int);
                        assert(pp == idx_point(ns[par].mov.index));
                        assert(pp.on_grid());
                        assert(tent@[pp.idx()] == stone_of(pm_player));
                    }
                    let k = Goban::compute_ko(&tent, pm_player, pp);
                    self.ko = k;
                    proof {
                        assert(self.ko == ko_of(ns, par));
                    }
                }
                proof {
                    // turn, last move, ply
                    assert(g0.turn.other() == m.player) by {
                        if m.player == Player::Black {
                        } else {
                        }
                    }
                    assert(m.player == ns[par].mov.player.other());
                    assert(self.turn == ns[par].mov.player.other()) by {
                        if ns[par].mov.player == Player::Black {
                        } else {
                        }
                    }
                    assert(ply_of(ns, cur) == 1 + ply_of(ns, par));
                    assert(self@.hist =~= (HistV { current: par, ..g0.hist }));
                    assert(wf_goban(self@));
                    assert(self@ =~= (GobanV {
                        grid: unapply_move(g0.grid, m),
                        last_move: last_move_of(ns, par),
                        ko: ko_of(ns, par),
                        move_number: (g0.move_number - 1) as u16,
                        hist: (HistV { current: par, ..g0.hist }),
                        turn: g0.turn.other(),
                        ..g0
                    }));
                }
                true
            },
        }
    }

    /// Replays the preferred (else first) child move without re-running
    /// legality: places its stone, removes its recorded captures again,
    /// flips the turn, advances the ply count and sets the ko marker of the
    /// replayed position. A no-op at a leaf.
    #[verifier::rlimit(60)]
    pub fn next_state(&mut self) -> (r: bool)
        requires
            wf_goban(old(self)@),
        ensures
            wf_goban(final(self)@),
            ({
                let g = old(self)@;
                match eff_next(g.hist.nodes, g.hist.current) {
                    None => !r && final(self)@ == g,
                    Some(ch) => {
                        let m = g.hist.nodes[ch].mov;
                        &&& r
                        &&& final(self)@ == (GobanV {
                            grid: apply_move(g.grid, m),
                            last_move: Some(idx_point(m.index)),
                            ko: ko_of(g.hist.nodes, ch),
                            move_number: (g.move_number + 1) as u16,
                            hist: (HistV { current: ch, ..g.hist }),
                            turn: g.turn.other(),
                            ..g
                        })
                    },
                }
            }),
    {
        let ghost g0 = old(self)@;
        let ghost ns = old(self)@.hist.nodes;
        let ghost cur = old(self)@.hist.current;
        match self.history.next() {
            None => {
                proof {
                    assert(self@ =~= g0);
                }
                false
            },
            Some(mv) => {
                let (player, played_move, dead_stones) = mv;
                let ghost ch = eff_next(ns, cur).unwrap();
                let ghost m = ns[ch].mov;
                proof {
                    assert(crate::history::children_wf(ns, cur));
                    match ns[cur].preferred {
                        Some(cc) => {
                            assert(ns[cur].children.contains(cc));
                            let kk = choose|kk: int|
                                0 <= kk < ns[cur].children.len() && ns[cur].children[kk] == cc;
                            assert(cur < cc < ns.len());
                        },
                        None => {},
                    }
                    assert(1 <= ch < ns.len());
                    assert(ns[ch].parent == cur);
                    assert(node_consistent(ns, ch));
                    assert(replay_to(ns, cur) == g0.grid);
                    lemma_replay_props(ns, cur);
                    assert(views_of_groups(dead_stones@) == m.groups);
                    Goban::lemma_enemy_groups_on_grid(
                        g0.grid.update(m.index, stone_of(m.player)),
                        m.player,
                    );
                }
                let stone = match player {
                    Player::Black => Stone::black(),
                    Player::White => Stone::white(),
                };
                Goban::rewrite_cells(
                    &mut self.stones,
                    played_move,
                    stone,
                    &dead_stones,
                    Stone { visible: false, color: Player::Black },
                );
                self.turn.next();
                self.last_move = Some(Goban::idx_to_coord(played_move));
                proof {
                    lemma_ply_bound(ns, ch);
                    assert(ply_of(ns, ch) == 1 + ply_of(ns, cur));
                }
                self.current_move_number = self.current_move_number + 1;
                let ghost tch = g0.grid.update(m.index, stone_of(m.player));
                proof {
                    assert(stone == stone_of(m.player)) by {
                        if m.player == Player::Black {
                        } else {
                        }
                    }
                    assert forall|i: int| 0 <= i < 361 implies self.stones@[i] == apply_move(
                        g0.grid,
                        m,
                    )[i] by {
                        assert(move_captures(m) == groups_pts(
                            views_of_groups(dead_stones@),
                            views_of_groups(dead_stones@).len() as int,
                        ));
                    }
                    assert(self.stones@ =~= apply_move(g0.grid, m));
                    assert(replay_to(ns, ch) == apply_move(replay_to(ns, cur), m));
                    assert(self.stones@ == replay_to(ns, ch));
                }
                // recompute the ko marker that the replayed move produced
                proof {
                    lemma_apply_is_capture(g0.grid, m.player, m.index);
                    assert(m =~= (MoveV {
                        player: m.player,
                        index: m.index,
                        groups: enemy_dead_groups(tch, m.player),
                    }));
                    assert(self.stones@ == grid_after_capture(tch, m.player));
                    lemma_rebuild_tentative(g0.grid, m.player, m.index);
                    lemma_enemy_captures(tch, m.player);
                }
                let mut tent = copy_stones(&self.stones);
                Goban::rewrite_cells(
                    &mut tent,
                    played_move,
                    stone,
                    &dead_stones,
                    match player {
                        Player::Black => Stone::white(),
                        Player::White => Stone::black(),
                    },
                );
                proof {
                    assert((match player {
                        Player::Black => Stone { visible: true, color: Player::White },
                        Player::White => Stone { visible: true, color: Player::Black },
                    }) == stone_of(m.player.other())) by {
                        if m.player == Player::Black {
                        } else {
                        }
                    }
                    assert forall|i: int| 0 <= i < 361 implies tent@[i] == tch[i] by {
                        assert(move_captures(m) == groups_pts(
                            views_of_groups(dead_stones@),
                            views_of_groups(dead_stones@).len() as int,
                        ));
                    }
                    assert(tent@ =~= tch);
                }
                let pp = Goban::idx_to_coord(played_move);
                proof {
                    lemma_idx_point_inverse(m.index);
                    assert(pp == idx_point(m.index));
                    assert(pp.on_grid());
                    assert(tent@[pp.idx()] == stone_of(m.player));
                }
                let k = Goban::compute_ko(&tent, player, pp);
                self.ko = k;
                proof {
                    assert(self.ko == ko_of(ns, ch));
                    assert(m.player == ns[cur].mov.player.other());
                    assert(m.player == g0.turn) by {
                        if ns[cur].mov.player == Player::Black {
                        } else {
                        }
                    }
                    assert(self.turn == ns[ch].mov.player.other());
                    assert(self@.hist =~= (HistV { current: ch, ..g0.hist }));
                    assert(wf_goban(self@));
                    assert(self@ =~= (GobanV {
                        grid: apply_move(g0.grid, m),
                        last_move: Some(idx_point(m.index)),
                        ko: ko_of(ns, ch),
                        move_number: (g0.move_number + 1) as u16,
                        hist: (HistV { current: ch, ..g0.hist }),
                        turn: g0.turn.other(),
                        ..g0
                    }));
                }
                true
            },
        }
    }

    /// Classifies a tentative placement: on success, exactly the captured
    /// enemy groups to remove; on rejection, a suicide or the banned
    /// immediate ko recapture.
    pub fn is_legal_move(
        stones: &Vec<Stone>,
        current_turn: &Player,
        last_move: Option<Point>,
    ) -> (r: Result<Vec<Group>, ()>)
        requires
            grid_wf(stones@),
        ensures
            r is Err <==> move_illegal(stones@, *current_turn, last_move),
            r matches Ok(gs) ==> views_of_groups(gs@) == enemy_dead_groups(
                stones@,
                *current_turn,
            ),
    {
        let (dead, _opponent_died, _we_died, illegal) = classify(stones, current_turn, last_move);
        if illegal {
            Err(())
        } else {
            let kept = Goban::keep_enemy_groups(&dead, *current_turn);
            proof {
                assert(views_of_groups(kept@) == enemy_dead_groups(stones@, *current_turn));
            }
            Ok(kept)
        }
    }
}

/// The commands the board core consumes.
#[derive(Debug, Clone, Copy)]
pub enum GobanEvent {
    Play(Point, Stone),
    PreviousState,
    NextState,
}

/// Interaction state of the board widget: the intersection a pointer hovers
/// over, if any.
#[derive(Debug, Clone)]
pub struct GobanState {
    pub hover: Option<Point>,
}

impl Default for GobanState {
    fn default() -> (r: GobanState)
        ensures
            r.hover is None,
    {
        GobanState { hover: None }
    }
}

} // verus!
