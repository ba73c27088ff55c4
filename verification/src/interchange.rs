//! The external game-tree value: nodes carrying tokens, with nested variation
//! subtrees. Move tokens are the only tokens the core interprets; every other
//! token is carried through opaquely and re-emitted verbatim.
use vstd::prelude::*;
use crate::Player;
use crate::goban::{play_effect, unapply_move, wf_goban, Goban, GobanV, MoveV, Point, Stone};
use crate::history::{hist_push, HistV, History, NodeV};

verus! {

/// Declares the external token type so that values of it can be carried
/// through the library's trees without being inspected.
#[verifier::external_type_specification]
#[verifier::external_body]
pub struct ExSgfToken(sgf_parser::SgfToken);

/// Relies on the `Clone` derive of `sgf_parser::SgfToken`: a derived clone is
/// a field-by-field copy, so the clone equals the original.
pub assume_specification[ <sgf_parser::SgfToken as Clone>::clone ](
    t: &sgf_parser::SgfToken,
) -> (r: sgf_parser::SgfToken)
    ensures
        r == *t,
;

/// One token of a game-tree node: an interpreted move with its colour and
/// 1-based column and row, or an opaque metadata token preserved verbatim.
pub enum Token {
    Move { color: Player, x: u8, y: u8 },
    Meta(sgf_parser::SgfToken),
}

impl Token {
    /// Copies a token; the metadata payload is cloned through the external
    /// token type.
    pub fn duplicate(&self) -> (r: Token)
        ensures
            r == *self,
    {
        match self {
            Token::Move { color, x, y } => Token::Move { color: *color, x: *x, y: *y },
            Token::Meta(t) => Token::Meta(t.clone()),
        }
    }
}

/// A node of the external tree: a row of tokens.
pub struct GameNode {
    pub tokens: Vec<Token>,
}

/// An external game tree: a row of nodes followed by the variations that
/// branch off after the last node.
pub struct GameTree {
    pub nodes: Vec<GameNode>,
    pub variations: Vec<GameTree>,
}

/// Ghost image of a game-tree node.
#[verifier::ext_equal]
pub struct NodeTV {
    pub tokens: Seq<Token>,
}

/// Ghost image of a game tree.
#[verifier::ext_equal]
pub struct TreeV {
    pub nodes: Seq<NodeTV>,
    pub variations: Seq<TreeV>,
}

/// The ghost image of a row of nodes.
pub open spec fn views_of_nodes(ns: Seq<GameNode>) -> Seq<NodeTV> {
    Seq::new(ns.len(), |k: int| NodeTV { tokens: ns[k].tokens@ })
}

/// The ghost image of a game tree.
pub open spec fn tree_view(t: &GameTree) -> TreeV
    decreases *t,
{
    TreeV {
        nodes: views_of_nodes(t.nodes@),
        variations: Seq::new(
            t.variations@.len(),
            |k: int|
                if 0 <= k < t.variations@.len() {
                    tree_view(&t.variations@[k])
                } else {
                    TreeV { nodes: Seq::empty(), variations: Seq::empty() }
                },
        ),
    }
}

// ---------------------------------------------------------------------------
// The replay model of loading
// ---------------------------------------------------------------------------

/// One move token replayed through the board rules: rejected when the 1-based
/// coordinates leave the board, the colour is out of turn, the point is
/// occupied, the history is full, or the placement is illegal.
pub open spec fn play_model(g: GobanV, color: Player, x1: u8, y1: u8) -> Option<GobanV> {
    if !(1 <= x1 <= 19 && 1 <= y1 <= 19) {
        None
    } else {
        let p = Point { x: (x1 - 1) as u32, y: (y1 - 1) as u32 };
        if color != g.turn {
            None
        } else if g.grid[p.idx()].visible {
            None
        } else if g.hist.nodes.len() >= 0xFFFF {
            None
        } else if crate::goban::move_illegal(
            g.grid.update(p.idx(), crate::model::stone_of(g.turn)),
            g.turn,
            g.last_move,
        ) {
            None
        } else {
            Some(play_effect(g, p))
        }
    }
}

/// The state that rewinding one move reaches; at the root nothing changes.
pub open spec fn undo_model(g: GobanV) -> GobanV {
    if g.hist.current == 0 {
        g
    } else {
        let cur = g.hist.current;
        let par = g.hist.nodes[cur].parent;
        let m = g.hist.nodes[cur].mov;
        GobanV {
            grid: unapply_move(g.grid, m),
            last_move: crate::goban::last_move_of(g.hist.nodes, par),
            ko: crate::goban::ko_of(g.hist.nodes, par),
            move_number: (g.move_number - 1) as u16,
            hist: (HistV { current: par, ..g.hist }),
            turn: g.turn.other(),
            ..g
        }
    }
}

pub open spec fn undo_n(g: GobanV, n: int) -> GobanV
    decreases n,
{
    if n <= 0 {
        g
    } else {
        undo_n(undo_model(g), n - 1)
    }
}

/// Replaying the move tokens of one node row, in order, counting the moves.
pub open spec fn toks_load(g: GobanV, toks: Seq<Token>, j: int) -> Option<(GobanV, int)>
    decreases toks.len() - j,
    when 0 <= j <= toks.len()
{
    if j >= toks.len() {
        Some((g, 0))
    } else {
        match toks[j] {
            Token::Move { color, x, y } => match play_model(g, color, x, y) {
                None => None,
                Some(g1) => match toks_load(g1, toks, j + 1) {
                    None => None,
                    Some((g2, n)) => Some((g2, n + 1)),
                },
            },
            Token::Meta(_) => toks_load(g, toks, j + 1),
        }
    }
}

/// Replaying every node of a tree's own node row, in document order.
pub open spec fn nodes_load(g: GobanV, ns: Seq<NodeTV>, j: int) -> Option<(GobanV, int)>
    decreases ns.len() - j,
    when 0 <= j <= ns.len()
{
    if j >= ns.len() {
        Some((g, 0))
    } else {
        match toks_load(g, ns[j].tokens, 0) {
            None => None,
            Some((g1, n1)) => match nodes_load(g1, ns, j + 1) {
                None => None,
                Some((g2, n2)) => Some((g2, n1 + n2)),
            },
        }
    }
}

/// Loading a whole tree: replay its node row, graft each variation and rewind
/// it, and report the number of moves the node row itself consumed.
pub open spec fn tree_loads(g: GobanV, t: TreeV) -> Option<(GobanV, int)>
    decreases t, 1int, 0int,
{
    match nodes_load(g, t.nodes, 0) {
        None => None,
        Some((g1, n)) => match vars_load(g1, t, 0) {
            None => None,
            Some(g2) => Some((g2, n)),
        },
    }
}

pub open spec fn vars_load(g: GobanV, t: TreeV, k: int) -> Option<GobanV>
    decreases t, 0int, t.variations.len() - k,
    when 0 <= k
{
    if k >= t.variations.len() {
        Some(g)
    } else {
        match tree_loads(g, t.variations[k]) {
            None => None,
            Some((g1, n)) => vars_load(undo_n(g1, n), t, k + 1),
        }
    }
}

/// The fresh board that loading starts from: an empty game whose root
/// carries the tree's first node verbatim.
pub open spec fn load_start(t: TreeV) -> GobanV {
    let g0 = crate::goban::initial_goban();
    GobanV { hist: (HistV { game_info: t.nodes[0].tokens, ..g0.hist }), ..g0 }
}

// ---------------------------------------------------------------------------
// The shape of what dumping emits
// ---------------------------------------------------------------------------

/// The move token a recorded move is written back as: 1-based column and row.
pub open spec fn move_token(m: MoveV) -> Token {
    Token::Move { color: m.player, x: (m.index / 19 + 1) as u8, y: (m.index % 19 + 1) as u8 }
}

/// The emitted tree below history node `i`: one node carrying the move (the
/// root carries the preserved metadata verbatim), one nested variation per
/// child, in creation order.
pub open spec fn tree_matches(ns: Seq<NodeV>, gi: Seq<Token>, i: int, t: TreeV) -> bool
    decreases t,
{
    &&& t.nodes.len() == 1
    &&& t.nodes[0].tokens == (if i == 0 {
        gi
    } else {
        seq![move_token(ns[i].mov)]
    })
    &&& t.variations.len() == ns[i].children.len()
    &&& forall|k: int|
        0 <= k < t.variations.len() ==> tree_matches(
            ns,
            gi,
            ns[i].children[k],
            #[trigger] t.variations[k],
        )
}

/// The emitted tree is determined by the graph: two trees matching the same
/// node are equal.
pub proof fn lemma_matches_unique(ns: Seq<NodeV>, gi: Seq<Token>, i: int, t1: TreeV, t2: TreeV)
    requires
        tree_matches(ns, gi, i, t1),
        tree_matches(ns, gi, i, t2),
    ensures
        t1 == t2,
    decreases t1,
{
    assert forall|k: int| 0 <= k < t1.variations.len() implies t1.variations[k]
        == t2.variations[k] by {
        lemma_matches_unique(ns, gi, ns[i].children[k], t1.variations[k], t2.variations[k]);
    }
    assert(t1.nodes[0] =~= t2.nodes[0]);
    assert(t1.nodes =~= t2.nodes);
    assert(t1.variations =~= t2.variations);
    assert(t1 =~= t2);
}

// ---------------------------------------------------------------------------
// Dumping
// ---------------------------------------------------------------------------

/// The continuation of replaying a node row: loading the rest of the row from
/// the current state extends what loading the whole row from the entry state
/// yields.
pub open spec fn after_nodes(gE: GobanV, ns: Seq<NodeTV>, g: GobanV, j: int, c: int) -> bool {
    match nodes_load(g, ns, j) {
        None => nodes_load(gE, ns, 0) is None,
        Some((g2, n2)) => nodes_load(gE, ns, 0) == Some((g2, c + n2)),
    }
}

/// The continuation of replaying the tokens of node `ni` and then the
/// remaining nodes.
pub open spec fn after_toks(
    gE: GobanV,
    ns: Seq<NodeTV>,
    ni: int,
    g: GobanV,
    tj: int,
    c: int,
) -> bool {
    match toks_load(g, ns[ni].tokens, tj) {
        None => nodes_load(gE, ns, 0) is None,
        Some((g1, n1)) => after_nodes(gE, ns, g1, ni + 1, c + n1),
    }
}

/// When replaying a token fails, loading the whole tree from the entry state
/// fails.
proof fn lemma_load_fails(gE: GobanV, tv: TreeV, g: GobanV, ni: int, tj: int)
    requires
        0 <= ni < tv.nodes.len(),
        0 <= tj < tv.nodes[ni].tokens.len(),
        after_toks(gE, tv.nodes, ni, g, tj, 0) || (exists|c: int|
            #[trigger] after_toks(gE, tv.nodes, ni, g, tj, c)),
        toks_load(g, tv.nodes[ni].tokens, tj) is None,
    ensures
        nodes_load(gE, tv.nodes, 0) is None,
        tree_loads(gE, tv) is None,
{
    let c = choose|c: int| #[trigger] after_toks(gE, tv.nodes, ni, g, tj, c);
    if after_toks(gE, tv.nodes, ni, g, tj, 0) {
        assert(nodes_load(gE, tv.nodes, 0) is None);
    } else {
        assert(after_toks(gE, tv.nodes, ni, g, tj, c));
        assert(nodes_load(gE, tv.nodes, 0) is None);
    }
}

impl History {
    /// Walks the graph from the root and emits the external game tree: the
    /// root node carries the preserved metadata verbatim, every other node
    /// one move token, every child edge one nested variation.
    pub fn into_game_tree(&self) -> (r: GameTree)
        requires
            crate::history::wf_hist(self@),
        ensures
            tree_matches(self@.nodes, self@.game_info, 0, tree_view(&r)),
    {
        self.build_game_tree(0)
    }

    fn build_game_tree(&self, index: usize) -> (r: GameTree)
        requires
            crate::history::wf_hist(self@),
            index < self.moves@.len(),
        ensures
            tree_matches(self@.nodes, self@.game_info, index as int, tree_view(&r)),
        decreases self.moves@.len() - index,
    {
        let mut tokens: Vec<Token> = Vec::new();
        if index != 0 {
            let mi = self.moves[index].mov.index;
            let mp = self.moves[index].mov.player;
            tokens.push(
                Token::Move { color: mp, x: (mi / 19 + 1) as u8, y: (mi % 19 + 1) as u8 },
            );
            proof {
                assert(tokens@ =~= seq![move_token(self@.nodes[index as int].mov)]);
            }
        } else {
            let tn = self.game_info.len();
            let mut j: usize = 0;
            while j < tn
                invariant
                    tn == self.game_info@.len(),
                    j <= tn,
                    tokens@ == self.game_info@.subrange(0, j as int),
                decreases tn - j,
            {
                tokens.push(self.game_info[j].duplicate());
                proof {
                    assert(tokens@ =~= self.game_info@.subrange(0, j as int + 1));
                }
                j = j + 1;
            }
            proof {
                assert(tokens@ =~= self@.game_info);
            }
        }
        let ghost toks0 = tokens@;
        let mut nodes: Vec<GameNode> = Vec::new();
        nodes.push(GameNode { tokens });
        let mut variations: Vec<GameTree> = Vec::new();
        let cn = self.moves[index].children.len();
        let mut k: usize = 0;
        while k < cn
            invariant
                crate::history::wf_hist(self@),
                index < self.moves@.len(),
                cn == self@.nodes[index as int].children.len(),
                k <= cn,
                variations@.len() == k,
                forall|t: int|
                    0 <= t < k ==> tree_matches(
                        self@.nodes,
                        self@.game_info,
                        self@.nodes[index as int].children[t],
                        tree_view(&(#[trigger] variations@[t])),
                    ),
            decreases cn - k,
        {
            proof {
                assert(crate::history::children_wf(self@.nodes, index as int));
                assert((index as int) < self@.nodes[index as int].children[k as int]
                    < self@.nodes.len());
            }
            let ch = self.moves[index].children[k];
            proof {
                assert(self@.nodes[index as int].children[k as int] == ch as int);
            }
            let sub = self.build_game_tree(ch);
            variations.push(sub);
            k = k + 1;
        }
        let r = GameTree { nodes, variations };
        proof {
            let rv = tree_view(&r);
            assert(rv.nodes.len() == 1);
            assert(rv.nodes[0].tokens == toks0);
            assert(rv.variations.len() == cn);
            assert forall|t: int| 0 <= t < cn implies tree_matches(
                self@.nodes,
                self@.game_info,
                self@.nodes[index as int].children[t],
                #[trigger] rv.variations[t],
            ) by {
                assert(rv.variations[t] == tree_view(&variations@[t]));
            }
            assert(tree_matches(self@.nodes, self@.game_info, index as int, rv));
        }
        r
    }

    /// Rebuilds a history from an external tree by replaying every move
    /// token in document order through the board rules, rewinding after each
    /// variation so that siblings branch from their common ancestor. Fails,
    /// building nothing, on an empty tree, a move token off the board or out
    /// of turn, a move on an occupied point, or an illegal move.
    pub fn from_game_tree(tree: &GameTree) -> (r: Result<History, ()>)
        ensures
            ({
                let tv = tree_view(tree);
                if tree.nodes@.len() == 0 {
                    r is Err
                } else {
                    match tree_loads(load_start(tv), tv) {
                        None => r is Err,
                        Some((g2, n)) => {
                            &&& r matches Ok(h)
                            &&& h@ == (HistV { current: 0, ..g2.hist })
                            &&& crate::history::wf_hist(h@)
                            &&& h@.nodes.len() <= 0xFFFF
                            &&& forall|i: int|
                                1 <= i < h@.nodes.len() ==> crate::goban::node_consistent(
                                    h@.nodes,
                                    i,
                                )
                            // a fresh board carrying this history is a
                            // reachable, replayable state
                            &&& wf_goban(
                                GobanV { hist: h@, ..crate::goban::initial_goban() },
                            )
                        },
                    }
                }
            }),
    {
        let ghost tv = tree_view(tree);
        if tree.nodes.len() == 0 {
            return Err(());
        }
        let mut goban = Goban::default();
        let mut gi: Vec<Token> = Vec::new();
        let tn = tree.nodes[0].tokens.len();
        let mut j: usize = 0;
        while j < tn
            invariant
                tree.nodes@.len() >= 1,
                tn == tree.nodes@[0].tokens@.len(),
                j <= tn,
                gi@ == tree.nodes@[0].tokens@.subrange(0, j as int),
            decreases tn - j,
        {
            gi.push(tree.nodes[0].tokens[j].duplicate());
            proof {
                assert(gi@ =~= tree.nodes@[0].tokens@.subrange(0, j as int + 1));
            }
            j = j + 1;
        }
        proof {
            assert(gi@ =~= tree.nodes@[0].tokens@);
        }
        goban.history.game_info = gi;
        proof {
            assert(goban@ =~= load_start(tv));
            assert(wf_goban(goban@));
        }
        match History::add_tree_to_history(&mut goban, tree) {
            Ok(_c) => {
                let ghost gend = goban@;
                let mut h = goban.history;
                h.current_index = 0;
                proof {
                    let g2 = tree_loads(load_start(tv), tv).unwrap().0;
                    assert(h@ =~= (HistV { current: 0, ..g2.hist }));
                    assert(crate::history::preferred_to(h@.nodes, 0));
                    // the loaded graph replays faithfully on a fresh board
                    let gf = GobanV { hist: h@, ..crate::goban::initial_goban() };
                    assert(h@.nodes == gend.hist.nodes);
                    assert forall|i: int| 1 <= i < h@.nodes.len() implies
                        crate::goban::node_consistent(h@.nodes, i) by {
                        assert(crate::goban::node_consistent(gend.hist.nodes, i));
                    }
                    assert(crate::goban::replay_to(gf.hist.nodes, 0)
                        == crate::goban::empty_grid());
                    assert(crate::goban::ko_of(gf.hist.nodes, 0) is None);
                    assert(crate::goban::ply_of(gf.hist.nodes, 0) == 0);
                    assert(wf_goban(gf));
                }
                Ok(h)
            },
            Err(()) => Err(()),
        }
    }

    /// Replays one subtree at the cursor: its own node row in order, then
    /// each variation followed by a rewind of as many moves as that
    /// variation's node row consumed. Returns this subtree's own move count.
    #[verifier::rlimit(60)]
    fn add_tree_to_history(goban: &mut Goban, tree: &GameTree) -> (r: Result<u16, ()>)
        requires
            wf_goban(old(goban)@),
        ensures
            wf_goban(final(goban)@),
            final(goban)@.hist.nodes.len() >= old(goban)@.hist.nodes.len(),
            ({
                match tree_loads(old(goban)@, tree_view(tree)) {
                    None => r is Err,
                    Some((g2, n)) => r matches Ok(c) && c as int == n && final(goban)@ == g2,
                }
            }),
        decreases *tree,
    {
        let ghost g_entry = old(goban)@;
        let ghost tv = tree_view(tree);
        let mut counter: u16 = 0;
        let nn = tree.nodes.len();
        let mut ni: usize = 0;
        while ni < nn
            invariant
                g_entry == old(goban)@,
                wf_goban(goban@),
                tv == tree_view(tree),
                nn == tree.nodes@.len(),
                ni <= nn,
                tv.nodes.len() == nn,
                counter as int <= goban@.hist.nodes.len() - 1,
                goban@.hist.nodes.len() >= g_entry.hist.nodes.len(),
                after_nodes(g_entry, tv.nodes, goban@, ni as int, counter as int),
            decreases nn - ni,
        {
            let tkn = tree.nodes[ni].tokens.len();
            let mut tj: usize = 0;
            proof {
                assert(tv.nodes[ni as int].tokens == tree.nodes@[ni as int].tokens@);
            }
            while tj < tkn
                invariant
                    g_entry == old(goban)@,
                    wf_goban(goban@),
                    tv == tree_view(tree),
                    nn == tree.nodes@.len(),
                    ni < nn,
                    tv.nodes.len() == nn,
                    tkn == tree.nodes@[ni as int].tokens@.len(),
                    tj <= tkn,
                    tv.nodes[ni as int].tokens == tree.nodes@[ni as int].tokens@,
                    counter as int <= goban@.hist.nodes.len() - 1,
                    goban@.hist.nodes.len() >= g_entry.hist.nodes.len(),
                    after_toks(g_entry, tv.nodes, ni as int, goban@, tj as int, counter as int),
                decreases tkn - tj,
            {
                let ghost gcur = goban@;
                match &tree.nodes[ni].tokens[tj] {
                    Token::Move { color, x, y } => {
                        let xv = *x;
                        let yv = *y;
                        let cv = *color;
                        proof {
                            assert(tv.nodes[ni as int].tokens[tj as int] == (Token::Move {
                                color: cv,
                                x: xv,
                                y: yv,
                            }));
                        }
                        if !(1 <= xv && xv <= 19 && 1 <= yv && yv <= 19) {
                            proof {
                                assert(play_model(gcur, cv, xv, yv) is None);
                                lemma_load_fails(g_entry, tv, gcur, ni as int, tj as int);
                            }
                            return Err(());
                        }
                        let p = Point::new((xv - 1) as u32, (yv - 1) as u32);
                        if !(cv == goban.turn) {
                            proof {
                                assert(play_model(gcur, cv, xv, yv) is None);
                                lemma_load_fails(g_entry, tv, gcur, ni as int, tj as int);
                            }
                            return Err(());
                        }
                        let pidx = crate::goban::Goban::coord_to_idx(p);
                        if goban.stones[pidx].visible {
                            proof {
                                assert(play_model(gcur, cv, xv, yv) is None);
                                lemma_load_fails(g_entry, tv, gcur, ni as int, tj as int);
                            }
                            return Err(());
                        }
                        if goban.history.moves.len() >= 0xFFFF {
                            proof {
                                assert(play_model(gcur, cv, xv, yv) is None);
                                lemma_load_fails(g_entry, tv, gcur, ni as int, tj as int);
                            }
                            return Err(());
                        }
                        let st = Stone::new(goban.turn);
                        match goban.play(p, st) {
                            Ok(_caps) => {
                                proof {
                                    assert(play_model(gcur, cv, xv, yv) == Some(goban@));
                                }
                                counter = counter + 1;
                            },
                            Err(()) => {
                                proof {
                                    assert(play_model(gcur, cv, xv, yv) is None);
                                    lemma_load_fails(g_entry, tv, gcur, ni as int, tj as int);
                                }
                                return Err(());
                            },
                        }
                    },
                    Token::Meta(_) => {
                        proof {
                            assert(toks_load(gcur, tv.nodes[ni as int].tokens, tj as int)
                                == toks_load(gcur, tv.nodes[ni as int].tokens, tj as int + 1));
                        }
                    },
                }
                tj = tj + 1;
            }
            ni = ni + 1;
        }
        // the whole node row has been replayed
        let ghost g_after_nodes = goban@;
        let ghost cfinal = counter;
        proof {
            assert(nodes_load(g_entry, tv.nodes, 0) == Some((g_after_nodes, cfinal as int)));
        }
        let vn = tree.variations.len();
        let mut vi: usize = 0;
        while vi < vn
            invariant
                g_entry == old(goban)@,
                wf_goban(goban@),
                tv == tree_view(tree),
                vn == tree.variations@.len(),
                vi <= vn,
                tv.variations.len() == vn,
                counter == cfinal,
                nodes_load(g_entry, tv.nodes, 0) == Some((g_after_nodes, cfinal as int)),
                goban@.hist.nodes.len() >= g_entry.hist.nodes.len(),
                ({
                    match vars_load(goban@, tv, vi as int) {
                        None => vars_load(g_after_nodes, tv, 0) is None,
                        Some(g2) => vars_load(g_after_nodes, tv, 0) == Some(g2),
                    }
                }),
            decreases vn - vi,
        {
            let ghost gcur = goban@;
            let sub = &tree.variations[vi];
            proof {
                assert(tv.variations[vi as int] == tree_view(sub));
            }
            match History::add_tree_to_history(goban, sub) {
                Ok(c2) => {
                    let ghost g_sub = goban@;
                    proof {
                        assert(tree_loads(gcur, tv.variations[vi as int]) == Some((
                            g_sub,
                            c2 as int,
                        )));
                    }
                    let mut rewound: u16 = 0;
                    while rewound < c2
                        invariant
                            wf_goban(goban@),
                            rewound <= c2,
                            undo_n(g_sub, c2 as int) == undo_n(
                                goban@,
                                c2 as int - rewound as int,
                            ),
                            goban@.hist.nodes.len() == g_sub.hist.nodes.len(),
                        decreases c2 - rewound,
                    {
                        let ghost gb = goban@;
                        let _moved = goban.previous_state();
                        proof {
                            assert(goban@ == undo_model(gb));
                        }
                        rewound = rewound + 1;
                    }
                    proof {
                        assert(goban@ == undo_n(g_sub, c2 as int));
                        assert(vars_load(gcur, tv, vi as int) == vars_load(
                            goban@,
                            tv,
                            vi as int + 1,
                        ));
                    }
                },
                Err(()) => {
                    proof {
                        assert(tree_loads(gcur, tv.variations[vi as int]) is None);
                        assert(vars_load(gcur, tv, vi as int) is None);
                        assert(vars_load(g_after_nodes, tv, 0) is None);
                        assert(tree_loads(g_entry, tv) is None);
                    }
                    return Err(());
                },
            }
            vi = vi + 1;
        }
        proof {
            assert(vars_load(g_after_nodes, tv, 0) == Some(goban@));
            assert(tree_loads(g_entry, tv) == Some((goban@, cfinal as int)));
        }
        Ok(counter)
    }
}

// ---------------------------------------------------------------------------
// The interchange round trip
// ---------------------------------------------------------------------------

/// A well-formed variation subtree: exactly one node carrying exactly one
/// move token, with well-formed variations.
pub open spec fn wf_var_tree(t: TreeV) -> bool
    decreases t,
{
    &&& t.nodes.len() == 1
    &&& t.nodes[0].tokens.len() == 1
    &&& t.nodes[0].tokens[0] is Move
    &&& forall|k: int| 0 <= k < t.variations.len() ==> wf_var_tree(#[trigger] t.variations[k])
}

/// A well-formed game tree: one root node free of move tokens, and
/// well-formed variation subtrees.
pub open spec fn wf_tree(t: TreeV) -> bool {
    &&& t.nodes.len() == 1
    &&& forall|j: int|
        0 <= j < t.nodes[0].tokens.len() ==> !((#[trigger] t.nodes[0].tokens[j]) is Move)
    &&& forall|k: int| 0 <= k < t.variations.len() ==> wf_var_tree(#[trigger] t.variations[k])
}

/// A token row without move tokens replays as a no-op.
proof fn lemma_meta_toks(g: GobanV, toks: Seq<Token>, j: int)
    requires
        0 <= j <= toks.len(),
        forall|i: int| 0 <= i < toks.len() ==> !((#[trigger] toks[i]) is Move),
    ensures
        toks_load(g, toks, j) == Some((g, 0int)),
    decreases toks.len() - j,
{
    if j < toks.len() {
        lemma_meta_toks(g, toks, j + 1);
    }
}

/// A successful move token pushes exactly one node that re-emits as the same
/// token.
proof fn lemma_play_model_graft(g: GobanV, color: Player, x1: u8, y1: u8)
    requires
        crate::history::wf_hist(g.hist),
        play_model(g, color, x1, y1) is Some,
    ensures
        ({
            let g1 = play_model(g, color, x1, y1).unwrap();
            let nn = g.hist.nodes.len() as int;
            &&& crate::history::wf_hist(g1.hist)
            &&& g1.hist.game_info == g.hist.game_info
            &&& g1.hist.nodes.len() == nn + 1
            &&& g1.hist.current == nn
            &&& g1.hist.nodes[nn].parent == g.hist.current
            &&& g1.hist.nodes[nn].children == Seq::<int>::empty()
            &&& move_token(g1.hist.nodes[nn].mov) == (Token::Move { color, x: x1, y: y1 })
            &&& g1.hist.nodes[g.hist.current].children
                == g.hist.nodes[g.hist.current].children.push(nn)
            &&& g1.hist.nodes[g.hist.current].parent == g.hist.nodes[g.hist.current].parent
            &&& g1.hist.nodes[g.hist.current].mov == g.hist.nodes[g.hist.current].mov
            &&& forall|j: int|
                0 <= j < nn && j != g.hist.current ==> g1.hist.nodes[j] == g.hist.nodes[j]
        }),
{
    let p = Point { x: (x1 - 1) as u32, y: (y1 - 1) as u32 };
    let m = MoveV {
        player: g.turn,
        index: p.idx(),
        groups: crate::goban::enemy_dead_groups(
            g.grid.update(p.idx(), crate::model::stone_of(g.turn)),
            g.turn,
        ),
    };
    crate::history::lemma_hist_push_wf(g.hist, m);
    assert(play_model(g, color, x1, y1).unwrap().hist == hist_push(g.hist, m));
    vstd::arithmetic::div_mod::lemma_fundamental_div_mod_converse(
        p.idx(),
        19,
        x1 - 1,
        y1 - 1,
    );
    assert(m.index / 19 == x1 - 1 && m.index % 19 == y1 - 1);
    assert(move_token(m) == (Token::Move { color, x: x1, y: y1 }));
}

/// Rewinding one move keeps the arena, moving only the cursor to the parent.
proof fn lemma_undo_model_wf(g: GobanV)
    requires
        crate::history::wf_hist(g.hist),
    ensures
        crate::history::wf_hist(undo_model(g).hist),
        undo_model(g).hist.nodes == g.hist.nodes,
        undo_model(g).hist.game_info == g.hist.game_info,
        undo_model(g).hist.current == (if g.hist.current == 0 {
            0int
        } else {
            g.hist.nodes[g.hist.current].parent
        }),
{
    if g.hist.current != 0 {
        assert(crate::history::preferred_to(g.hist.nodes, g.hist.current));
        assert(crate::history::preferred_to(g.hist.nodes, g.hist.nodes[g.hist.current].parent));
    }
}

/// A matched subtree stays matched in any later arena that keeps its nodes.
proof fn lemma_matches_frame(
    ns1: Seq<NodeV>,
    ns2: Seq<NodeV>,
    gi: Seq<Token>,
    i: int,
    t: TreeV,
)
    requires
        tree_matches(ns1, gi, i, t),
        1 <= i < ns1.len(),
        crate::history::wf_arena(ns1),
        ns1.len() <= ns2.len(),
        forall|j: int| i <= j < ns1.len() ==> ns2[j] == ns1[j],
    ensures
        tree_matches(ns2, gi, i, t),
    decreases t,
{
    assert(crate::history::children_wf(ns1, i));
    assert forall|k: int| 0 <= k < t.variations.len() implies tree_matches(
        ns2,
        gi,
        ns2[i].children[k],
        #[trigger] t.variations[k],
    ) by {
        assert(i < ns1[i].children[k] < ns1.len());
        lemma_matches_frame(ns1, ns2, gi, ns1[i].children[k], t.variations[k]);
    }
}

/// Grafting one well-formed variation subtree at the cursor: it consumes one
/// move, appends nodes that match it exactly under a fresh child of the
/// cursor, and leaves every other old node unchanged.
proof fn lemma_var_graft(g: GobanV, v: TreeV)
    requires
        wf_var_tree(v),
        crate::history::wf_hist(g.hist),
        tree_loads(g, v) is Some,
    ensures
        ({
            let (g1, n) = tree_loads(g, v).unwrap();
            let nn = g.hist.nodes.len() as int;
            let cur = g.hist.current;
            &&& n == 1
            &&& crate::history::wf_hist(g1.hist)
            &&& g1.hist.game_info == g.hist.game_info
            &&& g1.hist.nodes.len() > nn
            &&& g1.hist.current == nn
            &&& g1.hist.nodes[nn].parent == cur
            &&& g1.hist.nodes[cur].parent == g.hist.nodes[cur].parent
            &&& g1.hist.nodes[cur].mov == g.hist.nodes[cur].mov
            &&& g1.hist.nodes[cur].children == g.hist.nodes[cur].children.push(nn)
            &&& forall|j: int| 0 <= j < nn && j != cur ==> g1.hist.nodes[j] == g.hist.nodes[j]
            &&& tree_matches(g1.hist.nodes, g1.hist.game_info, nn, v)
        }),
    decreases v, 1int, 0int,
{
    let nn = g.hist.nodes.len() as int;
    let cur = g.hist.current;
    let toks = v.nodes[0].tokens;
    match toks[0] {
        Token::Move { color, x, y } => {
            let ga = play_model(g, color, x, y).unwrap();
            assert(toks_load(g, toks, 0) == Some((ga, 1int))) by {
                assert(toks_load(ga, toks, 1) == Some((ga, 0int)));
            }
            assert(nodes_load(g, v.nodes, 0) == Some((ga, 1int))) by {
                assert(nodes_load(ga, v.nodes, 1) == Some((ga, 0int)));
            }
            lemma_play_model_graft(g, color, x, y);
            let g1 = vars_load(ga, v, 0).unwrap();
            lemma_vars_graft(ga, v, 0);
            // the subtree rooted at the fresh node matches v
            assert(g1.hist.nodes[nn].mov == ga.hist.nodes[nn].mov);
            assert(tree_matches(g1.hist.nodes, g1.hist.game_info, nn, v)) by {
                assert(v.nodes[0].tokens =~= seq![move_token(g1.hist.nodes[nn].mov)]);
                assert(g1.hist.nodes[nn].children.len() == v.variations.len());
            }
            assert forall|j: int| 0 <= j < nn && j != cur implies tree_loads(
                g,
                v,
            ).unwrap().0.hist.nodes[j] == g.hist.nodes[j] by {
                assert(g1.hist.nodes[j] == ga.hist.nodes[j]);
            }
        },
        Token::Meta(_) => {
            assert(false);
        },
    }
}

/// Folding the variations of a subtree whose move node is the cursor: each
/// variation grafts one more matching child under the cursor, in order.
#[verifier::rlimit(100)]
proof fn lemma_vars_graft(ga: GobanV, v: TreeV, k: int)
    requires
        0 <= k <= v.variations.len(),
        forall|i: int| k <= i < v.variations.len() ==> wf_var_tree(#[trigger] v.variations[i]),
        crate::history::wf_hist(ga.hist),
        vars_load(ga, v, k) is Some,
    ensures
        ({
            let g1 = vars_load(ga, v, k).unwrap();
            let sr = ga.hist.current;
            let base = ga.hist.nodes[sr].children.len() as int;
            &&& crate::history::wf_hist(g1.hist)
            &&& g1.hist.game_info == ga.hist.game_info
            &&& g1.hist.current == sr
            &&& g1.hist.nodes.len() >= ga.hist.nodes.len()
            &&& g1.hist.nodes[sr].mov == ga.hist.nodes[sr].mov
            &&& g1.hist.nodes[sr].parent == ga.hist.nodes[sr].parent
            &&& g1.hist.nodes[sr].children.len() == base + (v.variations.len() - k)
            &&& g1.hist.nodes[sr].children.subrange(0, base) == ga.hist.nodes[sr].children
            &&& forall|j: int|
                0 <= j < ga.hist.nodes.len() && j != sr ==> g1.hist.nodes[j] == ga.hist.nodes[j]
            &&& forall|i: int|
                k <= i < v.variations.len() ==> tree_matches(
                    g1.hist.nodes,
                    g1.hist.game_info,
                    g1.hist.nodes[sr].children[base + (i - k)],
                    #[trigger] v.variations[i],
                )
        }),
    decreases v, 0int, v.variations.len() - k,
{
    let sr = ga.hist.current;
    let base = ga.hist.nodes[sr].children.len() as int;
    if k >= v.variations.len() {
        assert(vars_load(ga, v, k).unwrap() == ga);
        assert(ga.hist.nodes[sr].children.subrange(0, base) =~= ga.hist.nodes[sr].children);
    } else {
        let (gs, n) = tree_loads(ga, v.variations[k]).unwrap();
        lemma_var_graft(ga, v.variations[k]);
        let c0 = ga.hist.nodes.len() as int;
        assert(n == 1);
        // rewind returns the cursor to the subtree's move node
        let gu = undo_n(gs, 1);
        assert(undo_n(gs, 1) == undo_n(undo_model(gs), 0));
        assert(undo_n(undo_model(gs), 0) == undo_model(gs));
        assert(gu == undo_model(gs));
        lemma_undo_model_wf(gs);
        assert(gs.hist.nodes[c0].parent == sr);
        assert(gu.hist.current == sr);
        assert(gu.hist.nodes == gs.hist.nodes);
        let g1 = vars_load(gu, v, k + 1).unwrap();
        lemma_vars_graft(gu, v, k + 1);
        let base2 = gu.hist.nodes[sr].children.len() as int;
        assert(gu.hist.nodes[sr].children == ga.hist.nodes[sr].children.push(c0));
        assert(base2 == base + 1);
        // the children row of the cursor grows by exactly the grafted child
        assert(g1.hist.nodes[sr].children.subrange(0, base) =~= ga.hist.nodes[sr].children) by {
            assert(g1.hist.nodes[sr].children.subrange(0, base2) == gu.hist.nodes[sr].children);
            assert forall|j: int| 0 <= j < base implies g1.hist.nodes[sr].children.subrange(
                0,
                base,
            )[j] == ga.hist.nodes[sr].children[j] by {
                assert(g1.hist.nodes[sr].children.subrange(0, base2)[j]
                    == gu.hist.nodes[sr].children[j]);
            }
        }
        assert(g1.hist.nodes[sr].children[base] == c0) by {
            assert(g1.hist.nodes[sr].children.subrange(0, base2)[base]
                == gu.hist.nodes[sr].children[base]);
        }
        // the grafted subtree keeps matching in the final arena
        assert(tree_matches(g1.hist.nodes, g1.hist.game_info, c0, v.variations[k])) by {
            assert(tree_matches(gs.hist.nodes, gs.hist.game_info, c0, v.variations[k]));
            assert forall|j: int| c0 <= j < gs.hist.nodes.len() implies g1.hist.nodes[j]
                == gs.hist.nodes[j] by {
                assert(j != sr);
                assert(gu.hist.nodes[j] == gs.hist.nodes[j]);
            }
            lemma_matches_frame(
                gs.hist.nodes,
                g1.hist.nodes,
                gs.hist.game_info,
                c0,
                v.variations[k],
            );
        }
        assert forall|i: int| k <= i < v.variations.len() implies tree_matches(
            g1.hist.nodes,
            g1.hist.game_info,
            g1.hist.nodes[sr].children[base + (i - k)],
            #[trigger] v.variations[i],
        ) by {
            if i == k {
            } else {
                assert(g1.hist.nodes[sr].children[base2 + (i - (k + 1))]
                    == g1.hist.nodes[sr].children[base + (i - k)]);
            }
        }
    }
}

/// The interchange round trip: loading a well-formed tree of move tokens and
/// walking the rebuilt graph back out reproduces exactly the tree that was
/// loaded. Together with the contracts of `History::from_game_tree`,
/// `History::into_game_tree` and `lemma_matches_unique`, this pins
/// `into_game_tree` after a successful load to the loaded tree itself.
pub proof fn lemma_load_dump_round_trip(t: TreeV)
    requires
        wf_tree(t),
        t.nodes.len() >= 1,
        tree_loads(load_start(t), t) is Some,
    ensures
        ({
            let g1 = tree_loads(load_start(t), t).unwrap().0;
            tree_matches(g1.hist.nodes, g1.hist.game_info, 0, t)
        }),
{
    let g0 = load_start(t);
    assert(crate::history::wf_hist(g0.hist)) by {
        assert(crate::history::preferred_to(g0.hist.nodes, 0));
    }
    lemma_meta_toks(g0, t.nodes[0].tokens, 0);
    assert(nodes_load(g0, t.nodes, 0) == Some((g0, 0int))) by {
        assert(nodes_load(g0, t.nodes, 1) == Some((g0, 0int)));
    }
    let g1 = vars_load(g0, t, 0).unwrap();
    lemma_vars_graft(g0, t, 0);
    assert(g0.hist.nodes[0].children.len() == 0);
    assert(tree_matches(g1.hist.nodes, g1.hist.game_info, 0, t)) by {
        assert(g1.hist.game_info == t.nodes[0].tokens);
        assert(t.nodes[0].tokens =~= g1.hist.game_info);
        assert(g1.hist.nodes[0].children.len() == t.variations.len());
        assert forall|k: int| 0 <= k < t.variations.len() implies tree_matches(
            g1.hist.nodes,
            g1.hist.game_info,
            g1.hist.nodes[0].children[k],
            #[trigger] t.variations[k],
        ) by {
            assert(g1.hist.nodes[0].children[0 + (k - 0)] == g1.hist.nodes[0].children[k]);
        }
        assert(t.nodes[0].tokens == g1.hist.game_info);
    }
}

} // verus!
