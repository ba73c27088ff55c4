use goban_core::goban::{Goban, Point, Stone};
use goban_core::history::History;
use goban_core::interchange::{GameNode, GameTree, Token};
use goban_core::Player;

fn mv(color: Player, x: u8, y: u8) -> GameNode {
    GameNode { tokens: vec![Token::Move { color, x, y }] }
}

fn leaf(color: Player, x: u8, y: u8) -> GameTree {
    GameTree { nodes: vec![mv(color, x, y)], variations: vec![] }
}

/// Structural equality for trees whose tokens are all move tokens.
fn same_move_tree(a: &GameTree, b: &GameTree) -> bool {
    if a.nodes.len() != b.nodes.len() || a.variations.len() != b.variations.len() {
        return false;
    }
    for (na, nb) in a.nodes.iter().zip(b.nodes.iter()) {
        if na.tokens.len() != nb.tokens.len() {
            return false;
        }
        for (ta, tb) in na.tokens.iter().zip(nb.tokens.iter()) {
            match (ta, tb) {
                (
                    Token::Move { color: ca, x: xa, y: ya },
                    Token::Move { color: cb, x: xb, y: yb },
                ) => {
                    if ca != cb || xa != xb || ya != yb {
                        return false;
                    }
                },
                _ => return false,
            }
        }
    }
    a.variations
        .iter()
        .zip(b.variations.iter())
        .all(|(va, vb)| same_move_tree(va, vb))
}

#[test]
fn example_round_trip_with_one_variation() {
    // A two-move mainline with one variation after move 1.
    let t = GameTree {
        nodes: vec![GameNode { tokens: vec![] }],
        variations: vec![GameTree {
            nodes: vec![mv(Player::Black, 4, 4)],
            variations: vec![leaf(Player::White, 16, 16), leaf(Player::White, 16, 4)],
        }],
    };
    let h = History::from_game_tree(&t).unwrap();
    // root has one child (Black 4,4) which has two White children
    assert_eq!(h.moves.len(), 4);
    assert_eq!(h.moves[0].children, vec![1]);
    assert_eq!(h.moves[1].mov.player, Player::Black);
    assert_eq!(h.moves[1].mov.index, 3 * 19 + 3);
    assert_eq!(h.moves[1].children, vec![2, 3]);
    let back = h.into_game_tree();
    assert!(same_move_tree(&t, &back));
}

#[test]
fn deeper_nesting_round_trips() {
    let t = GameTree {
        nodes: vec![GameNode { tokens: vec![] }],
        variations: vec![GameTree {
            nodes: vec![mv(Player::Black, 3, 3)],
            variations: vec![GameTree {
                nodes: vec![mv(Player::White, 17, 17)],
                variations: vec![
                    GameTree {
                        nodes: vec![mv(Player::Black, 3, 17)],
                        variations: vec![leaf(Player::White, 17, 3)],
                    },
                    leaf(Player::Black, 10, 10),
                ],
            }],
        }],
    };
    let h = History::from_game_tree(&t).unwrap();
    let back = h.into_game_tree();
    assert!(same_move_tree(&t, &back));
}

#[test]
fn empty_tree_is_rejected() {
    let t = GameTree { nodes: vec![], variations: vec![] };
    assert!(History::from_game_tree(&t).is_err());
}

#[test]
fn occupied_point_during_replay_is_rejected() {
    let t = GameTree {
        nodes: vec![GameNode { tokens: vec![] }],
        variations: vec![GameTree {
            nodes: vec![mv(Player::Black, 4, 4)],
            variations: vec![leaf(Player::White, 4, 4)],
        }],
    };
    assert!(History::from_game_tree(&t).is_err());
}

#[test]
fn off_board_coordinate_is_rejected() {
    let t = GameTree {
        nodes: vec![GameNode { tokens: vec![] }],
        variations: vec![leaf(Player::Black, 0, 4)],
    };
    assert!(History::from_game_tree(&t).is_err());
    let t2 = GameTree {
        nodes: vec![GameNode { tokens: vec![] }],
        variations: vec![leaf(Player::Black, 20, 4)],
    };
    assert!(History::from_game_tree(&t2).is_err());
}

#[test]
fn out_of_turn_colour_is_rejected() {
    let t = GameTree {
        nodes: vec![GameNode { tokens: vec![] }],
        variations: vec![leaf(Player::White, 4, 4)],
    };
    assert!(History::from_game_tree(&t).is_err());
}

#[test]
fn multi_node_row_loads_as_a_chain() {
    // a single tree whose node row holds three moves in document order
    let t = GameTree {
        nodes: vec![
            GameNode { tokens: vec![] },
            mv(Player::Black, 4, 4),
            mv(Player::White, 16, 16),
            mv(Player::Black, 4, 16),
        ],
        variations: vec![],
    };
    let h = History::from_game_tree(&t).unwrap();
    assert_eq!(h.moves.len(), 4);
    assert_eq!(h.moves[1].children, vec![2]);
    assert_eq!(h.moves[2].children, vec![3]);
    assert_eq!(h.moves[3].children, Vec::<usize>::new());
}

#[test]
fn metadata_tokens_are_preserved_verbatim_on_the_root() {
    let meta = sgf_parser::SgfToken::Comment("a game".to_string());
    let t = GameTree {
        nodes: vec![GameNode { tokens: vec![Token::Meta(meta)] }],
        variations: vec![leaf(Player::Black, 4, 4)],
    };
    let h = History::from_game_tree(&t).unwrap();
    let back = h.into_game_tree();
    assert_eq!(back.nodes.len(), 1);
    assert_eq!(back.nodes[0].tokens.len(), 1);
    match &back.nodes[0].tokens[0] {
        Token::Meta(sgf_parser::SgfToken::Comment(s)) => assert_eq!(s, "a game"),
        _ => panic!("metadata token was not preserved"),
    }
}

#[test]
fn duplicate_copies_a_metadata_token() {
    let t = Token::Meta(sgf_parser::SgfToken::Comment("hello".to_string()));
    let t2 = t.duplicate();
    match t2 {
        Token::Meta(sgf_parser::SgfToken::Comment(s)) => assert_eq!(s, "hello"),
        _ => panic!("wrong token out of duplicate"),
    }
}

#[test]
fn dump_emits_one_based_coordinates() {
    let mut g = Goban::default();
    let r = g.play(Point::new(0, 0), Stone::new(g.turn));
    assert!(r.is_ok());
    let t = g.history.into_game_tree();
    assert_eq!(t.variations.len(), 1);
    match &t.variations[0].nodes[0].tokens[0] {
        Token::Move { color, x, y } => {
            assert_eq!(*color, Player::Black);
            assert_eq!(*x, 1);
            assert_eq!(*y, 1);
        },
        _ => panic!("expected a move token"),
    }
}

#[test]
fn loaded_game_replays_with_next_state() {
    let t = GameTree {
        nodes: vec![GameNode { tokens: vec![] }],
        variations: vec![GameTree {
            nodes: vec![mv(Player::Black, 4, 4)],
            variations: vec![leaf(Player::White, 16, 16)],
        }],
    };
    let h = History::from_game_tree(&t).unwrap();
    let mut g = Goban::default();
    g.history = h;
    assert!(g.next_state());
    assert!(g.stones[3 * 19 + 3].visible);
    assert_eq!(g.stones[3 * 19 + 3].color, Player::Black);
    assert!(g.next_state());
    assert!(g.stones[15 * 19 + 15].visible);
    assert!(!g.next_state());
}
