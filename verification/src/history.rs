//! The branching move history: an arena of nodes addressed by stable integer
//! ids, edges stored as id lists, a current-position cursor, and a preferred
//! child per branch point for forward navigation.
use vstd::prelude::*;
use crate::Player;
use crate::goban::{views_of_groups, Group, Move, MoveV};
use crate::interchange::Token;

verus! {

pub enum HistoryError {
    PushCurrentNodeNotFound,
}

/// One vertex of the history graph: a move, its parent id, its child ids in
/// creation order, and the child preferred for redo, if any was recorded.
pub struct HistoryNode {
    pub mov: Move,
    pub parent: usize,
    pub children: Vec<usize>,
    pub preferred: Option<usize>,
}

/// Ghost image of a history node.
#[verifier::ext_equal]
pub struct NodeV {
    pub mov: MoveV,
    pub parent: int,
    pub children: Seq<int>,
    pub preferred: Option<int>,
}

pub open spec fn ints_of(v: Seq<usize>) -> Seq<int> {
    Seq::new(v.len(), |k: int| v[k] as int)
}

pub open spec fn opt_int(o: Option<usize>) -> Option<int> {
    match o {
        Some(u) => Some(u as int),
        None => None,
    }
}

impl View for HistoryNode {
    type V = NodeV;

    open spec fn view(&self) -> NodeV {
        NodeV {
            mov: self.mov@,
            parent: self.parent as int,
            children: ints_of(self.children@),
            preferred: opt_int(self.preferred),
        }
    }
}

/// The move graph: node 0 is the sentinel root holding no real move.
/// `game_info` carries the root's metadata tokens verbatim: loading fills it
/// from the tree's first node, saving re-emits it unchanged, and the embedding
/// layer may write it directly (for a fresh game it starts empty: the usual
/// fixed header holds opaque external tokens, one of them a floating-point
/// komi, which this crate cannot construct).
pub struct History {
    pub moves: Vec<HistoryNode>,
    pub current_index: usize,
    pub game_info: Vec<Token>,
}

/// Ghost image of a history.
#[verifier::ext_equal]
pub struct HistV {
    pub nodes: Seq<NodeV>,
    pub current: int,
    pub game_info: Seq<Token>,
}

pub open spec fn views_of_hnodes(ns: Seq<HistoryNode>) -> Seq<NodeV> {
    Seq::new(ns.len(), |k: int| ns[k]@)
}

impl View for History {
    type V = HistV;

    open spec fn view(&self) -> HistV {
        HistV {
            nodes: views_of_hnodes(self.moves@),
            current: self.current_index as int,
            game_info: self.game_info@,
        }
    }
}

// ---------------------------------------------------------------------------
// Well-formedness
// ---------------------------------------------------------------------------

/// The child list of node `i`: strictly increasing ids above `i`, each child
/// pointing back to `i`.
pub open spec fn children_wf(ns: Seq<NodeV>, i: int) -> bool {
    &&& forall|k: int|
        0 <= k < ns[i].children.len() ==> i < #[trigger] ns[i].children[k] < ns.len()
            && ns[ns[i].children[k]].parent == i
    &&& forall|k1: int, k2: int|
        0 <= k1 < k2 < ns[i].children.len() ==> #[trigger] ns[i].children[k1]
            < #[trigger] ns[i].children[k2]
}

/// Structural well-formedness of the node arena.
pub open spec fn wf_arena(ns: Seq<NodeV>) -> bool {
    &&& 1 <= ns.len()
    &&& ns[0].parent == 0
    &&& ns[0].mov.player == Player::White
    &&& ns[0].mov.index == 0
    &&& ns[0].mov.groups.len() == 0
    &&& forall|i: int| 1 <= i < ns.len() ==> 0 <= (#[trigger] ns[i]).parent < i
    &&& forall|i: int| 0 <= i < ns.len() ==> children_wf(ns, i)
    &&& forall|i: int| 1 <= i < ns.len() ==> ns[#[trigger] ns[i].parent].children.contains(i)
    &&& forall|i: int|
        0 <= i < ns.len() ==> match (#[trigger] ns[i]).preferred {
            Some(c) => ns[i].children.contains(c),
            None => true,
        }
}

/// The child that forward navigation follows from node `i`: the recorded
/// preference, else the first child, else none.
pub open spec fn eff_next(ns: Seq<NodeV>, i: int) -> Option<int> {
    match ns[i].preferred {
        Some(c) => Some(c),
        None => if ns[i].children.len() > 0 {
            Some(ns[i].children[0])
        } else {
            None
        },
    }
}

/// Parent ids strictly precede their children.
pub open spec fn arena_parents_dec(ns: Seq<NodeV>) -> bool {
    forall|i: int| 1 <= i < ns.len() ==> 0 <= (#[trigger] ns[i]).parent < i
}

/// Forward navigation from the root would walk exactly to node `i`: every
/// node on the way from the root to `i` is the navigation target of its
/// parent.
pub open spec fn preferred_to(ns: Seq<NodeV>, i: int) -> bool
    decreases i,
    when 0 <= i < ns.len() && arena_parents_dec(ns)
{
    if i <= 0 {
        true
    } else {
        eff_next(ns, ns[i].parent) == Some(i) && preferred_to(ns, ns[i].parent)
    }
}

/// The cursor's path is exactly the walk that forward navigation would take
/// from the root.
pub open spec fn path_preferred(h: HistV) -> bool {
    preferred_to(h.nodes, h.current)
}

pub open spec fn wf_hist(h: HistV) -> bool {
    wf_arena(h.nodes) && 0 <= h.current < h.nodes.len() && path_preferred(h)
}

/// Two arenas that agree on all nodes below `i` and on `i`'s parent edge
/// agree on whether navigation walks to `i`.
pub proof fn lemma_preferred_frame(ns1: Seq<NodeV>, ns2: Seq<NodeV>, i: int)
    requires
        arena_parents_dec(ns1),
        arena_parents_dec(ns2),
        0 <= i < ns1.len(),
        i < ns2.len(),
        forall|j: int| 0 <= j < i ==> ns1[j] == ns2[j],
        ns1[i].parent == ns2[i].parent,
    ensures
        preferred_to(ns1, i) == preferred_to(ns2, i),
    decreases i,
{
    if i > 0 {
        lemma_preferred_frame(ns1, ns2, ns1[i].parent);
    }
}

// ---------------------------------------------------------------------------
// Transitions
// ---------------------------------------------------------------------------

/// The effect of pushing a move under the cursor: a fresh node is appended as
/// the cursor's newest child; if the cursor already had a child, the fresh
/// node becomes its preferred variation; the cursor advances to it.
pub open spec fn hist_push(h: HistV, m: MoveV) -> HistV {
    let n = h.nodes.len() as int;
    let cur = h.current;
    let curnode = h.nodes[cur];
    let newpref = if curnode.children.len() > 0 {
        Some(n)
    } else {
        curnode.preferred
    };
    HistV {
        nodes: h.nodes.update(
            cur,
            NodeV { children: curnode.children.push(n), preferred: newpref, ..curnode },
        ).push(NodeV { mov: m, parent: cur, children: Seq::empty(), preferred: None }),
        current: n,
        game_info: h.game_info,
    }
}

/// The history that a fresh game starts from: the lone sentinel root.
pub open spec fn initial_hist() -> HistV {
    HistV {
        nodes: seq![
            NodeV {
                mov: MoveV { player: Player::White, index: 0, groups: Seq::empty() },
                parent: 0,
                children: Seq::empty(),
                preferred: None,
            },
        ],
        current: 0,
        game_info: Seq::empty(),
    }
}

/// Pushing preserves well-formedness, and the new cursor path is the old one
/// extended by the fresh node.
#[verifier::rlimit(50)]
pub proof fn lemma_hist_push_wf(h: HistV, m: MoveV)
    requires
        wf_hist(h),
    ensures
        wf_hist(hist_push(h, m)),
{
    let n = h.nodes.len() as int;
    let cur = h.current;
    let hp = hist_push(h, m);
    assert(hp.nodes.len() == n + 1);
    assert(arena_parents_dec(hp.nodes));
    assert forall|i: int| 0 <= i < hp.nodes.len() implies children_wf(hp.nodes, i) by {
        if i < n {
            assert(children_wf(h.nodes, i));
        }
        if i == cur {
            assert forall|k: int| 0 <= k < hp.nodes[i].children.len() implies i
                < #[trigger] hp.nodes[i].children[k] < hp.nodes.len()
                && hp.nodes[hp.nodes[i].children[k]].parent == i by {
                if k < h.nodes[cur].children.len() {
                    assert(hp.nodes[i].children[k] == h.nodes[cur].children[k]);
                } else {
                    assert(hp.nodes[i].children[k] == n);
                }
            }
        } else if i == n {
        } else {
            assert(hp.nodes[i].children == h.nodes[i].children);
        }
    }
    assert forall|i: int| 1 <= i < hp.nodes.len() implies hp.nodes[(
    #[trigger] hp.nodes[i]).parent].children.contains(i) by {
        if i == n {
            assert(hp.nodes[cur].children[hp.nodes[cur].children.len() - 1] == n);
        } else {
            let par = h.nodes[i].parent;
            assert(h.nodes[par].children.contains(i));
            let k = choose|k: int| 0 <= k < h.nodes[par].children.len() && h.nodes[par].children[k]
                == i;
            assert(hp.nodes[par].children[k] == i);
        }
    }
    assert forall|i: int| 0 <= i < hp.nodes.len() implies match (#[trigger] hp.nodes[i]).preferred {
        Some(c) => hp.nodes[i].children.contains(c),
        None => true,
    } by {
        if i == cur {
            if h.nodes[cur].children.len() > 0 {
                assert(hp.nodes[cur].children[hp.nodes[cur].children.len() - 1] == n);
            } else {
                match h.nodes[cur].preferred {
                    Some(c) => {
                        let k = choose|k: int|
                            0 <= k < h.nodes[cur].children.len() && h.nodes[cur].children[k] == c;
                        assert(hp.nodes[cur].children[k] == c);
                    },
                    None => {},
                }
            }
        } else if i == n {
        } else {
            match h.nodes[i].preferred {
                Some(c) => {
                    let k = choose|k: int|
                        0 <= k < h.nodes[i].children.len() && h.nodes[i].children[k] == c;
                    assert(hp.nodes[i].children[k] == c);
                },
                None => {},
            }
        }
    }
    assert(wf_arena(hp.nodes));
    // navigation now walks to the fresh node
    assert(hp.nodes[n].parent == cur);
    assert(eff_next(hp.nodes, cur) == Some(n)) by {
        if h.nodes[cur].children.len() > 0 {
            assert(hp.nodes[cur].preferred == Some(n));
        } else {
            match h.nodes[cur].preferred {
                Some(c) => {
                    assert(h.nodes[cur].children.contains(c));
                    assert(false);
                },
                None => {
                    assert(hp.nodes[cur].children[0] == n);
                },
            }
        }
    }
    lemma_preferred_frame(h.nodes, hp.nodes, cur);
    assert(preferred_to(hp.nodes, cur));
    assert(preferred_to(hp.nodes, n));
}

/// The first child at or after position `k` whose move stands on point
/// index `mov`, if any.
pub open spec fn first_child_with(ns: Seq<NodeV>, ch: Seq<int>, mov: int, k: int) -> Option<int>
    decreases ch.len() - k,
    when 0 <= k <= ch.len() && forall|t: int| 0 <= t < ch.len() ==> 0 <= #[trigger] ch[t] < ns.len()
{
    if k >= ch.len() {
        None
    } else if ns[ch[k]].mov.index == mov {
        Some(ch[k])
    } else {
        first_child_with(ns, ch, mov, k + 1)
    }
}

/// Recording a preferred child keeps the history well formed.
pub proof fn lemma_set_pref_wf(h: HistV, c: int)
    requires
        wf_hist(h),
        h.nodes[h.current].children.contains(c),
    ensures
        ({
            let h2 = HistV {
                nodes: h.nodes.update(
                    h.current,
                    NodeV { preferred: Some(c), ..h.nodes[h.current] },
                ),
                ..h
            };
            wf_hist(h2)
        }),
{
    let cur = h.current;
    let ns = h.nodes;
    let ns2 = h.nodes.update(cur, NodeV { preferred: Some(c), ..h.nodes[cur] });
    assert(ns2.len() == ns.len());
    assert(arena_parents_dec(ns2));
    assert forall|i: int| 0 <= i < ns2.len() implies children_wf(ns2, i) by {
        assert(children_wf(ns, i));
        assert(ns2[i].children == ns[i].children);
        assert forall|k: int| 0 <= k < ns2[i].children.len() implies i
            < #[trigger] ns2[i].children[k] < ns2.len() && ns2[ns2[i].children[k]].parent
            == i by {
            assert(ns2[i].children[k] == ns[i].children[k]);
            assert(ns[ns[i].children[k]].parent == i);
        }
        assert forall|k1: int, k2: int| 0 <= k1 < k2 < ns2[i].children.len() implies #[trigger] ns2[i].children[k1] < #[trigger] ns2[i].children[k2] by {
            assert(ns[i].children[k1] < ns[i].children[k2]);
        }
    }
    assert forall|i: int| 1 <= i < ns2.len() implies ns2[#[trigger] ns2[i].parent].children.contains(
        i,
    ) by {
        assert(ns[ns[i].parent].children.contains(i));
        let k = choose|k: int|
            0 <= k < ns[ns[i].parent].children.len() && ns[ns[i].parent].children[k] == i;
        assert(ns2[ns2[i].parent].children[k] == i);
    }
    assert forall|i: int| 0 <= i < ns2.len() implies match (#[trigger] ns2[i]).preferred {
        Some(cc) => ns2[i].children.contains(cc),
        None => true,
    } by {
        if i == cur {
            let k = choose|k: int| 0 <= k < ns[cur].children.len() && ns[cur].children[k] == c;
            assert(ns2[cur].children[k] == c);
        } else {
            match ns[i].preferred {
                Some(cc) => {
                    assert(ns[i].children.contains(cc));
                    let k = choose|k: int|
                        0 <= k < ns[i].children.len() && ns[i].children[k] == cc;
                    assert(ns2[i].children[k] == cc);
                },
                None => {},
            }
        }
    }
    assert(wf_arena(ns2));
    lemma_preferred_frame(ns, ns2, cur);
    assert(preferred_to(ns2, cur));
}

impl History {
    /// Adds a new child node holding `elem` under the cursor and advances the
    /// cursor to it. If the cursor already had a child, the new node is a
    /// variation and becomes the preferred one.
    pub fn push(&mut self, elem: (Player, usize, Vec<Group>)) -> (r: Result<(), HistoryError>)
        requires
            wf_hist(old(self)@),
        ensures
            r is Ok,
            final(self)@ == hist_push(
                old(self)@,
                MoveV { player: elem.0, index: elem.1 as int, groups: views_of_groups(elem.2@) },
            ),
            wf_hist(final(self)@),
    {
        let ghost h0 = old(self)@;
        let ghost mv = MoveV {
            player: elem.0,
            index: elem.1 as int,
            groups: views_of_groups(elem.2@),
        };
        let (player, index, groups) = elem;
        let new_node_id = self.moves.len();
        // the cursor always names a node when the history is well formed
        if self.current_index < self.moves.len() {
            let cur = self.current_index;
            if self.moves[cur].children.len() > 0 {
                self.moves[cur].preferred = Some(new_node_id);
            }
            self.moves[cur].children.push(new_node_id);
            self.moves.push(
                HistoryNode {
                    mov: Move { player, index, groups },
                    parent: cur,
                    children: Vec::new(),
                    preferred: None,
                },
            );
            self.current_index = new_node_id;
            proof {
                let hp = hist_push(h0, mv);
                assert(ints_of(self.moves@[cur as int].children@) =~= hp.nodes[cur as int].children);
                assert(self.moves@[cur as int]@ =~= hp.nodes[cur as int]);
                assert(ints_of(self.moves@[new_node_id as int].children@) =~= Seq::<int>::empty());
                assert(self.moves@[new_node_id as int]@.mov =~= mv);
                assert(self.moves@[new_node_id as int]@ =~= hp.nodes[new_node_id as int]);
                assert forall|k: int| 0 <= k < hp.nodes.len() implies self@.nodes[k]
                    == hp.nodes[k] by {
                    if k == cur as int {
                    } else if k == new_node_id as int {
                    } else {
                        assert(self.moves@[k] == old(self).moves@[k]);
                    }
                }
                assert(self@.nodes =~= hp.nodes);
                assert(self@ =~= hp);
                lemma_hist_push_wf(h0, mv);
            }
            Ok(())
        } else {
            Err(HistoryError::PushCurrentNodeNotFound)
        }
    }

    /// Moves the cursor to the parent, returning the undone move and the
    /// point index of the move now current (none at the root). A no-op at the
    /// root.
    #[verifier::rlimit(100)]
    pub fn pop(&mut self) -> (r: Option<(Option<usize>, (Player, usize, Vec<Group>))>)
        requires
            wf_hist(old(self)@),
        ensures
            ({
                let h = old(self)@;
                if h.current == 0 {
                    r is None && final(self)@ == h
                } else {
                    let par = h.nodes[h.current].parent;
                    match r {
                        Some(rr) => {
                            &&& (match rr.0 {
                                Some(u) => par != 0 && u as int == h.nodes[par].mov.index,
                                None => par == 0,
                            })
                            &&& rr.1.0 == h.nodes[h.current].mov.player
                            &&& rr.1.1 as int == h.nodes[h.current].mov.index
                            &&& views_of_groups(rr.1.2@) == h.nodes[h.current].mov.groups
                            &&& final(self)@ == (HistV { current: par, ..h })
                        },
                        None => false,
                    }
                }
            }),
            wf_hist(final(self)@),
    {
        let ghost h0 = old(self)@;
        if self.current_index == 0 {
            return None;
        }
        let cur = self.current_index;
        let mov = crate::goban::copy_move(&self.moves[cur].mov);
        let par = self.moves[cur].parent;
        self.current_index = par;
        let prev = if par == 0 {
            None
        } else {
            Some(self.moves[par].mov.index)
        };
        proof {
            let h2 = self@;
            assert(self.moves@ == old(self).moves@);
            assert(h2.nodes == h0.nodes);
            assert(h2 =~= (HistV { current: par as int, ..h0 }));
            assert(wf_arena(h2.nodes));
            // navigation walked to the node, so it walks to its parent
            assert(h0.nodes[cur as int].parent == par as int);
            assert(preferred_to(h0.nodes, cur as int));
            assert(preferred_to(h0.nodes, par as int));
            lemma_preferred_frame(h0.nodes, h2.nodes, par as int);
            assert(preferred_to(h2.nodes, par as int));
            assert(path_preferred(h2));
            assert(wf_hist(h2));
        }
        Some((prev, (mov.player, mov.index, mov.groups)))
    }

    /// Follows the preferred variation, else the first child; returns the
    /// replayed move, or none at a leaf.
    #[verifier::rlimit(30)]
    pub fn next(&mut self) -> (r: Option<(Player, usize, Vec<Group>)>)
        requires
            wf_hist(old(self)@),
        ensures
            ({
                let h = old(self)@;
                match eff_next(h.nodes, h.current) {
                    None => r is None && final(self)@ == h,
                    Some(c) => match r {
                        Some(t) => {
                            &&& t.0 == h.nodes[c].mov.player
                            &&& t.1 as int == h.nodes[c].mov.index
                            &&& views_of_groups(t.2@) == h.nodes[c].mov.groups
                            &&& final(self)@ == (HistV { current: c, ..h })
                        },
                        None => false,
                    },
                }
            }),
            wf_hist(final(self)@),
    {
        let ghost h0 = old(self)@;
        let cur = self.current_index;
        let c_opt: Option<usize> = match self.moves[cur].preferred {
            Some(c) => Some(c),
            None => {
                if self.moves[cur].children.len() > 0 {
                    Some(self.moves[cur].children[0])
                } else {
                    None
                }
            },
        };
        match c_opt {
            Some(c) => {
                proof {
                    assert(children_wf(h0.nodes, cur as int));
                    match h0.nodes[cur as int].preferred {
                        Some(cc) => {
                            assert(h0.nodes[cur as int].children.contains(cc));
                            let k = choose|k: int|
                                0 <= k < h0.nodes[cur as int].children.len()
                                    && h0.nodes[cur as int].children[k] == cc;
                            assert((cur as int) < cc < h0.nodes.len());
                        },
                        None => {},
                    }
                }
                let mov = crate::goban::copy_move(&self.moves[c].mov);
                self.current_index = c;
                proof {
                    let h2 = self@;
                    assert(h2 =~= (HistV { current: c as int, ..h0 }));
                    assert(children_wf(h0.nodes, cur as int));
                    assert(h0.nodes[c as int].parent == cur as int);
                    lemma_preferred_frame(h0.nodes, h2.nodes, cur as int);
                    assert(preferred_to(h2.nodes, cur as int));
                    assert(eff_next(h2.nodes, cur as int) == Some(c as int));
                    assert(preferred_to(h2.nodes, c as int));
                }
                Some((mov.player, mov.index, mov.groups))
            },
            None => None,
        }
    }

    /// Finds the first child of the cursor whose move stands on point index
    /// `mov`.
    fn find_child_with(&self, mov: usize) -> (r: Option<usize>)
        requires
            wf_hist(self@),
        ensures
            ({
                let ch = self@.nodes[self@.current].children;
                match r {
                    None => first_child_with(self@.nodes, ch, mov as int, 0) is None,
                    Some(e) => first_child_with(self@.nodes, ch, mov as int, 0) == Some(e as int)
                        && ch.contains(e as int) && (e as int) < self@.nodes.len(),
                }
            }),
    {
        let ghost h0 = self@;
        let ghost ch = self@.nodes[self@.current].children;
        let cur = self.current_index;
        let mut k: usize = 0;
        let n = self.moves[cur].children.len();
        proof {
            assert(children_wf(h0.nodes, cur as int));
        }
        while k < n
            invariant
                wf_hist(h0),
                self@ == h0,
                cur as int == h0.current,
                0 <= (cur as int) < h0.nodes.len(),
                cur < self.moves@.len(),
                ch == h0.nodes[cur as int].children,
                forall|t: int| 0 <= t < ch.len() ==> (cur as int) < #[trigger] ch[t] < h0.nodes.len(),
                n == ch.len(),
                k <= n,
                first_child_with(h0.nodes, ch, mov as int, 0) == first_child_with(
                    h0.nodes,
                    ch,
                    mov as int,
                    k as int,
                ),
            decreases n - k,
        {
            let e = self.moves[cur].children[k];
            proof {
                assert(ch[k as int] == e as int);
            }
            if self.moves[e].mov.index == mov {
                proof {
                    assert(first_child_with(h0.nodes, ch, mov as int, k as int) == Some(
                        e as int,
                    ));
                }
                return Some(e);
            }
            proof {
                assert(first_child_with(h0.nodes, ch, mov as int, k as int) == first_child_with(
                    h0.nodes,
                    ch,
                    mov as int,
                    k as int + 1,
                ));
            }
            k = k + 1;
        }
        proof {
            assert(first_child_with(h0.nodes, ch, mov as int, n as int) is None);
        }
        None
    }

    /// Records the child whose move stands on point index `mov` as the
    /// preferred variation of the cursor; reports whether one exists.
    pub fn set_variation_to_move(&mut self, mov: usize) -> (r: bool)
        requires
            wf_hist(old(self)@),
        ensures
            ({
                let h = old(self)@;
                let ch = h.nodes[h.current].children;
                match first_child_with(h.nodes, ch, mov as int, 0) {
                    None => !r && final(self)@ == h,
                    Some(c) => r && final(self)@ == (HistV {
                        nodes: h.nodes.update(
                            h.current,
                            NodeV { preferred: Some(c), ..h.nodes[h.current] },
                        ),
                        ..h
                    }),
                }
            }),
            wf_hist(final(self)@),
    {
        let ghost h0 = old(self)@;
        let cur = self.current_index;
        match self.find_child_with(mov) {
            Some(e) => {
                self.moves[cur].preferred = Some(e);
                proof {
                    lemma_set_pref_wf(h0, e as int);
                    let h2 = self@;
                    let hp = HistV {
                        nodes: h0.nodes.update(
                            h0.current,
                            NodeV { preferred: Some(e as int), ..h0.nodes[cur as int] },
                        ),
                        ..h0
                    };
                    assert(h2.nodes[cur as int] =~= hp.nodes[cur as int]);
                    assert(h2.nodes =~= hp.nodes);
                    assert(h2 =~= hp);
                }
                true
            },
            None => false,
        }
    }

    /// The point indices of the cursor's children, in creation order.
    pub fn get_possible_moves(&self) -> (r: Vec<usize>)
        requires
            wf_hist(self@),
        ensures
            r@.len() == self@.nodes[self@.current].children.len(),
            forall|k: int|
                0 <= k < r@.len() ==> (#[trigger] r@[k]) as int
                    == self@.nodes[self@.nodes[self@.current].children[k]].mov.index,
    {
        let cur = self.current_index;
        let n = self.moves[cur].children.len();
        let mut r: Vec<usize> = Vec::new();
        let mut k: usize = 0;
        while k < n
            invariant
                wf_hist(self@),
                cur as int == self@.current,
                cur < self.moves@.len(),
                n == self@.nodes[cur as int].children.len(),
                k <= n,
                r@.len() == k,
                forall|t: int|
                    0 <= t < k ==> (#[trigger] r@[t]) as int
                        == self@.nodes[self@.nodes[cur as int].children[t]].mov.index,
            decreases n - k,
        {
            proof {
                assert(children_wf(self@.nodes, cur as int));
                assert((cur as int) < self@.nodes[cur as int].children[k as int]
                    < self@.nodes.len());
            }
            let e = self.moves[cur].children[k];
            proof {
                assert(self@.nodes[cur as int].children[k as int] == e as int);
            }
            r.push(self.moves[e].mov.index);
            k = k + 1;
        }
        r
    }
}

impl Default for History {
    /// A fresh history: the sentinel root only, and — unlike an editor that
    /// stamps every new game with a fixed SGF header — an empty `game_info`
    /// row. The header tokens are opaque external values (one carries a
    /// floating-point komi), so a default header cannot be built here; an
    /// embedding layer that wants one writes it into the public `game_info`
    /// field, as the bundled command-line shell does.
    fn default() -> (r: History)
        ensures
            r@ == initial_hist(),
            wf_hist(r@),
    {
        let root = HistoryNode {
            mov: Move { player: Player::White, index: 0, groups: Vec::new() },
            parent: 0,
            children: Vec::new(),
            preferred: None,
        };
        let mut moves: Vec<HistoryNode> = Vec::new();
        moves.push(root);
        let r = History { moves, current_index: 0, game_info: Vec::new() };
        proof {
            assert(r@.nodes[0].mov.groups =~= Seq::<crate::goban::GroupV>::empty());
            assert(r@.nodes[0].children =~= Seq::<int>::empty());
            assert(r@.nodes[0].mov =~= initial_hist().nodes[0].mov);
            assert(r@.nodes[0] =~= initial_hist().nodes[0]);
            assert(r@.nodes =~= initial_hist().nodes);
            assert(r@ =~= initial_hist());
            assert(preferred_to(r@.nodes, 0));
        }
        r
    }
}

} // verus!
