//! The library's governing properties, stated and proved over the same spec
//! functions that the executable functions' contracts use.
use vstd::prelude::*;
use crate::Player;
use crate::goban::{
    apply_move, enemy_dead_groups, idx_point, ko_point, ko_pair, last_move_of,
    lemma_point_idx_inverse, move_illegal, node_consistent, opp_dead, ply_of, replay_to,
    singleton_group, suicide_shape, unapply_move, wf_goban, Goban, GobanV, MoveV, Point, Stone,
};
use crate::model::{
    adjacent, captured_set, connected, dead_at, grid_wf, group_set, grid_after_capture,
    has_liberty, lemma_closed_component, lemma_connected_bounds, lemma_connected_self,
    lemma_connected_step, liberty_of, occupied, on_board, stone_of,
};
use crate::history::{eff_next, hist_push, preferred_to, wf_hist, HistV, NodeV};

verus! {

/// Undoing one move and redoing it reproduces the exact prior grid, turn,
/// last move, ko marker and ply count: retracting the recorded move rewinds
/// to the parent position and its ko marker, forward navigation still prefers
/// the undone node, and re-applying the recorded move lands on the very board
/// it left, ko marker included.
pub proof fn lemma_undo_redo_round_trip(g: GobanV)
    requires
        wf_goban(g),
        g.hist.current != 0,
    ensures
        ({
            let cur = g.hist.current;
            let par = g.hist.nodes[cur].parent;
            let m = g.hist.nodes[cur].mov;
            // the state that undoing produces
            let g1 = GobanV {
                grid: unapply_move(g.grid, m),
                last_move: last_move_of(g.hist.nodes, par),
                ko: crate::goban::ko_of(g.hist.nodes, par),
                move_number: (g.move_number - 1) as u16,
                hist: (HistV { current: par, ..g.hist }),
                turn: g.turn.other(),
                ..g
            };
            // redo follows the undone node again
            &&& eff_next(g1.hist.nodes, par) == Some(cur)
            // and the state that redoing then produces is the original one
            &&& (GobanV {
                grid: apply_move(g1.grid, m),
                last_move: Some(idx_point(m.index)),
                ko: crate::goban::ko_of(g.hist.nodes, cur),
                move_number: (g1.move_number + 1) as u16,
                hist: (HistV { current: cur, ..g1.hist }),
                turn: g1.turn.other(),
                ..g1
            }) == g
        }),
{
    let ns = g.hist.nodes;
    let cur = g.hist.current;
    let par = ns[cur].parent;
    let m = ns[cur].mov;
    assert(preferred_to(ns, cur));
    assert(eff_next(ns, par) == Some(cur));
    assert(node_consistent(ns, cur));
    let before = replay_to(ns, par);
    crate::goban::lemma_replay_props(ns, par);
    assert(before[m.index] == crate::model::blank_stone());
    crate::goban::Goban::lemma_unapply_apply(before, m.player, m.index);
    assert(g.grid == apply_move(before, m));
    assert(unapply_move(g.grid, m) == before);
    let g1 = GobanV {
        grid: unapply_move(g.grid, m),
        last_move: last_move_of(ns, par),
        ko: crate::goban::ko_of(ns, par),
        move_number: (g.move_number - 1) as u16,
        hist: (HistV { current: par, ..g.hist }),
        turn: g.turn.other(),
        ..g
    };
    assert(ply_of(ns, cur) == 1 + ply_of(ns, par));
    crate::goban::lemma_ply_bound(ns, par);
    assert(apply_move(g1.grid, m) == g.grid);
    assert(g1.turn.other() == g.turn) by {
        if g.turn == Player::Black {
        } else {
        }
    }
    assert(Some(idx_point(m.index)) == g.last_move);
    assert(crate::goban::ko_of(ns, cur) == g.ko);
    assert((HistV { current: cur, ..g1.hist }) =~= g.hist);
    assert((GobanV {
        grid: apply_move(g1.grid, m),
        last_move: Some(idx_point(m.index)),
        ko: crate::goban::ko_of(ns, cur),
        move_number: (g1.move_number + 1) as u16,
        hist: (HistV { current: cur, ..g1.hist }),
        turn: g1.turn.other(),
        ..g1
    }) =~= g);
}

/// A placement whose own new group has no liberties while no enemy group
/// dies is a suicide: the move is illegal, so `play` rejects it and leaves
/// the board byte for byte unchanged.
pub proof fn lemma_suicide_rejected(g: GobanV, p: Point)
    requires
        wf_goban(g),
        p.on_grid(),
        !g.grid[p.idx()].visible,
        dead_at(g.grid.update(p.idx(), stone_of(g.turn)), p.idx()),
        !opp_dead(g.grid.update(p.idx(), stone_of(g.turn)), g.turn),
    ensures
        move_illegal(g.grid.update(p.idx(), stone_of(g.turn)), g.turn, g.last_move),
{
    let t = g.grid.update(p.idx(), stone_of(g.turn));
    assert(t[p.idx()].color == g.turn);
    assert(suicide_shape(t, g.turn));
}

/// Every neighbour of a lone dead stone carries a stone of the other colour.
proof fn lemma_lone_dead_neighbors(t: Seq<Stone>, x: int)
    requires
        grid_wf(t),
        dead_at(t, x),
        singleton_group(t, x),
    ensures
        forall|l: int| adjacent(x, l) ==> t[l].visible && t[l].color != t[x].color,
{
    assert forall|l: int| adjacent(x, l) implies t[l].visible && t[l].color != t[x].color by {
        lemma_connected_self(t, x);
        if !t[l].visible {
            assert(liberty_of(t, x, l));
            assert(has_liberty(t, x));
            assert(false);
        }
        if t[l].color == t[x].color {
            lemma_connected_step(t, x, x, l);
            assert(l == x);
            assert(false);
        }
    }
}

/// A stone whose neighbours are all occupied by the other colour forms a lone
/// dead group.
proof fn lemma_surrounded_is_lone_dead(t: Seq<Stone>, x: int)
    requires
        grid_wf(t),
        occupied(t, x),
        forall|l: int| adjacent(x, l) ==> t[l].visible && t[l].color != t[x].color,
    ensures
        dead_at(t, x),
        singleton_group(t, x),
{
    let cset = Set::empty().insert(x);
    assert(cset.contains(x));
    assert forall|a: int, b: int|
        cset.contains(a) && adjacent(a, b) && occupied(t, b) && t[b].color == t[x].color implies
        cset.contains(b) by {
        assert(a == x);
    }
    lemma_closed_component(t, x, cset);
    assert forall|w: int| #[trigger] connected(t, x, w) implies w == x by {
        assert(cset.contains(w));
    }
    assert(singleton_group(t, x));
    if has_liberty(t, x) {
        let l = choose|l: int| liberty_of(t, x, l);
        let q = choose|q: int| connected(t, x, q) && adjacent(q, l) && !t[l].visible;
        assert(q == x);
        assert(false);
    }
}

/// Simple-ko enforcement: when a move by `c` on `p` captures exactly one
/// enemy stone in the two-stone ko shape, the ko point is empty on the
/// resulting board and the immediate recapture there by the opponent is
/// illegal. Recapture after an intervening move elsewhere is not banned by
/// this rule, since the ban reads only the opponent's last move.
pub proof fn lemma_ko_ban(g: GobanV, p: Point, kp: Point)
    requires
        wf_goban(g),
        p.on_grid(),
        !g.grid[p.idx()].visible,
        ko_point(g.grid.update(p.idx(), stone_of(g.turn)), g.turn, p) == Some(kp),
    ensures
        ({
            let c = g.turn;
            let t = g.grid.update(p.idx(), stone_of(c));
            let after = grid_after_capture(t, c);
            &&& kp.on_grid()
            &&& !after[kp.idx()].visible
            &&& move_illegal(
                after.update(kp.idx(), stone_of(c.other())),
                c.other(),
                Some(p),
            )
        }),
{
    let c = g.turn;
    let t = g.grid.update(p.idx(), stone_of(c));
    let after = grid_after_capture(t, c);
    let ip = p.idx();
    lemma_point_idx_inverse(p);
    let q = choose|q: int| ko_pair(t, c, p, q);
    assert(ko_pair(t, c, p, q));
    assert(kp == idx_point(q));
    crate::goban::lemma_idx_point_inverse(q);
    assert(kp.on_grid() && kp.idx() == q);
    // both stones of the shape are lone dead groups in t
    assert forall|w: int| #[trigger] connected(t, q, w) implies w == q by {
        lemma_connected_bounds(t, q, w);
        crate::model::lemma_group_shares_liberty(t, q, w);
        assert(dead_at(t, w));
        assert(w == q || w == ip);
        assert(t[ip].color == c);
    }
    assert(singleton_group(t, q));
    assert forall|w: int| #[trigger] connected(t, ip, w) implies w == ip by {
        lemma_connected_bounds(t, ip, w);
        crate::model::lemma_group_shares_liberty(t, ip, w);
        assert(dead_at(t, w));
        assert(t[q].color != c);
    }
    assert(singleton_group(t, ip));
    lemma_lone_dead_neighbors(t, q);
    lemma_lone_dead_neighbors(t, ip);
    // the captured stone's point is empty afterwards, the capturing stone stays
    assert(captured_set(t, c).contains(q));
    assert(!after[q].visible);
    assert(!captured_set(t, c).contains(ip));
    assert(after[ip] == t[ip]);
    let t2 = after.update(q, stone_of(c.other()));
    // every cell keeps its colour unless it was one of the two dead points
    assert forall|l: int| adjacent(ip, l) implies t2[l].visible && t2[l].color != c by {
        assert(t[l].visible && t[l].color != c);
        if l == q {
        } else {
            assert(!captured_set(t, c).contains(l)) by {
                if dead_at(t, l) {
                    assert(l == q || l == ip);
                }
            }
            assert(t2[l] == t[l]);
        }
        assert(t2[l].color == c.other()) by {
            if t2[l].color == c {
                assert(false);
            } else {
                if c == Player::Black {
                } else {
                }
            }
        }
    }
    assert(t2[ip] == stone_of(c));
    lemma_surrounded_is_lone_dead(t2, ip);
    assert forall|l: int| adjacent(q, l) implies t2[l].visible && t2[l].color != c.other() by {
        assert(t[l].visible && t[l].color != t[q].color);
        assert(t[l].color == c) by {
            if c == Player::Black {
            } else {
            }
        }
        assert(l != q);
        if l == ip {
            assert(t2[l] == stone_of(c));
        } else {
            assert(!captured_set(t, c).contains(l)) by {
                if dead_at(t, l) {
                    assert(l == q || l == ip);
                }
            }
            assert(t2[l] == t[l]);
        }
    }
    assert(t2[q] == stone_of(c.other()));
    lemma_surrounded_is_lone_dead(t2, q);
    // the recapture reproduces the banned shape
    assert(crate::goban::self_dead(t2, c.other())) by {
        assert(dead_at(t2, q) && t2[q].color == c.other());
    }
    assert(opp_dead(t2, c.other())) by {
        assert(dead_at(t2, ip) && t2[ip].color != c.other());
    }
    assert(crate::goban::ko_shape(t2, c.other(), Some(p)));
}

/// Branch creation: pushing a move under a node that already has one child
/// appends a second child edge and records the new child as the preferred
/// variation; the set of possible next points grows from one to two.
pub proof fn lemma_branch_creation(h: HistV, m: MoveV)
    requires
        wf_hist(h),
        h.nodes[h.current].children.len() == 1,
    ensures
        ({
            let hp = hist_push(h, m);
            let n = h.nodes.len() as int;
            &&& hp.nodes[h.current].children == h.nodes[h.current].children.push(n)
            &&& hp.nodes[h.current].children.len() == 2
            &&& hp.nodes[h.current].children[0] == h.nodes[h.current].children[0]
            &&& hp.nodes[h.current].children[1] == n
            &&& hp.nodes[h.current].preferred == Some(n)
            &&& hp.nodes[n].mov == m
        }),
{
    let hp = hist_push(h, m);
    let n = h.nodes.len() as int;
    assert(hp.nodes[h.current].children == h.nodes[h.current].children.push(n));
}

/// The ko marker converse: whenever the tentative grid shows the two-stone
/// ko shape, the marker is set, and it names exactly the captured stone.
pub proof fn lemma_ko_marker_set(t: Seq<Stone>, c: Player, p: Point, q: int)
    requires
        ko_pair(t, c, p, q),
    ensures
        ko_point(t, c, p) == Some(idx_point(q)),
{
    let q2 = choose|q2: int| ko_pair(t, c, p, q2);
    assert(ko_pair(t, c, p, q2));
    assert(dead_at(t, q2));
    assert(q2 == q || q2 == p.idx());
}

/// A non-none ko marker always names a currently empty intersection.
pub proof fn lemma_ko_marker_empty(g: GobanV, kp: Point)
    requires
        wf_goban(g),
        g.ko == Some(kp),
    ensures
        kp.on_grid(),
        !g.grid[kp.idx()].visible,
{
    let ns = g.hist.nodes;
    let cur = g.hist.current;
    assert(cur != 0);
    let m = ns[cur].mov;
    let before = replay_to(ns, ns[cur].parent);
    let t = before.update(m.index, stone_of(m.player));
    assert(node_consistent(ns, cur));
    let q = choose|q: int| ko_pair(t, m.player, idx_point(m.index), q);
    assert(ko_pair(t, m.player, idx_point(m.index), q));
    assert(kp == idx_point(q));
    crate::goban::lemma_idx_point_inverse(q);
    assert(kp.on_grid() && kp.idx() == q);
    crate::goban::lemma_apply_is_capture(before, m.player, m.index);
    assert(m =~= (MoveV {
        player: m.player,
        index: m.index,
        groups: enemy_dead_groups(t, m.player),
    }));
    assert(g.grid == apply_move(before, m));
    assert(g.grid == grid_after_capture(t, m.player));
    assert(captured_set(t, m.player).contains(q)) by {
        assert(dead_at(t, q) && t[q].color != m.player);
    }
    assert(!g.grid[q].visible);
}

} // verus!
