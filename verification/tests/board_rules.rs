use goban_core::goban::{Goban, GobanEvent, GobanState, Point, Stone};
use goban_core::Player;

fn play_ok(g: &mut Goban, x: u32, y: u32) {
    let p = Point::new(x, y);
    let s = Stone::new(g.turn);
    let r = g.play(p, s);
    assert!(r.is_ok());
}

#[test]
fn first_move_updates_grid_turn_and_last_move() {
    let mut g = Goban::default();
    assert_eq!(g.turn, Player::Black);
    play_ok(&mut g, 3, 3);
    let cell = g.stones[3 * 19 + 3];
    assert!(cell.visible);
    assert_eq!(cell.color, Player::Black);
    assert_eq!(g.turn, Player::White);
    assert_eq!(g.last_move, Some(Point::new(3, 3)));
    assert_eq!(g.current_move_number, 1);
}

#[test]
fn surround_scenario_no_premature_capture() {
    // Black (3,3); White (3,4); Black (4,3); White (4,4): nothing dies yet.
    let mut g = Goban::default();
    play_ok(&mut g, 3, 3);
    play_ok(&mut g, 3, 4);
    play_ok(&mut g, 4, 3);
    play_ok(&mut g, 4, 4);
    let visible = g.stones.iter().filter(|s| s.visible).count();
    assert_eq!(visible, 4);
    assert_eq!(g.turn, Player::Black);
}

#[test]
fn lone_stone_capture_empties_its_cell() {
    // Surround the lone White stone at (3,4) with Black on all four sides.
    let mut g = Goban::default();
    play_ok(&mut g, 3, 3); // B
    play_ok(&mut g, 3, 4); // W, the victim
    play_ok(&mut g, 2, 4); // B
    play_ok(&mut g, 10, 10); // W elsewhere
    play_ok(&mut g, 4, 4); // B
    play_ok(&mut g, 10, 11); // W elsewhere
    assert!(g.stones[3 * 19 + 4].visible);
    let p = Point::new(3, 5);
    let r = g.play(p, Stone::new(g.turn)); // B completes the surround
    let caps = r.unwrap();
    assert_eq!(caps.len(), 1);
    assert!(!g.stones[3 * 19 + 4].visible);
    assert!(g.stones[3 * 19 + 5].visible);
    // the capturing stone keeps liberties of its own, so no ko is marked
    assert_eq!(g.ko, None);
    assert_eq!(g.turn, Player::White);
}

#[test]
fn suicide_is_rejected_and_board_unchanged() {
    // Black walls the corner point (0,0); White playing there is suicide.
    let mut g = Goban::default();
    play_ok(&mut g, 0, 1); // B
    play_ok(&mut g, 10, 10); // W
    play_ok(&mut g, 1, 0); // B
    let before = g.stones.clone();
    let turn_before = g.turn;
    let last_before = g.last_move;
    let ko_before = g.ko;
    let n_before = g.current_move_number;
    let r = g.play(Point::new(0, 0), Stone::new(g.turn)); // W suicide
    assert!(r.is_err());
    assert_eq!(g.stones, before);
    assert_eq!(g.turn, turn_before);
    assert_eq!(g.last_move, last_before);
    assert_eq!(g.ko, ko_before);
    assert_eq!(g.current_move_number, n_before);
}

#[test]
fn simple_ko_is_banned_then_allowed_after_tenuki() {
    // Classic ko at a=(2,2) and b=(2,3): Black's wall around a, White's wall
    // around b, with the White ko stone already standing on b.
    let mut g = Goban::default();
    play_ok(&mut g, 1, 3); // B
    play_ok(&mut g, 1, 2); // W
    play_ok(&mut g, 3, 3); // B
    play_ok(&mut g, 3, 2); // W
    play_ok(&mut g, 2, 4); // B
    play_ok(&mut g, 2, 3); // W plays b: one liberty at a
    play_ok(&mut g, 15, 15); // B elsewhere
    play_ok(&mut g, 2, 1); // W completes the wall around a
    // Black takes the ko: playing a captures the lone White stone on b
    let r = g.play(Point::new(2, 2), Stone::new(g.turn));
    let caps = r.unwrap();
    assert_eq!(caps.len(), 1);
    assert!(!g.stones[2 * 19 + 3].visible);
    assert!(g.stones[2 * 19 + 2].visible);
    assert_eq!(g.ko, Some(Point::new(2, 3)));
    // undoing rewinds the marker to the previous position's (none: White's
    // wall move captured nothing), redoing restores it
    assert!(g.previous_state());
    assert_eq!(g.ko, None);
    assert!(g.next_state());
    assert_eq!(g.ko, Some(Point::new(2, 3)));
    // White's immediate recapture on b is the banned ko recapture
    let r2 = g.play(Point::new(2, 3), Stone::new(g.turn));
    assert!(r2.is_err());
    // after an exchange elsewhere the recapture is legal again
    play_ok(&mut g, 16, 16); // W tenuki
    play_ok(&mut g, 16, 17); // B answers
    let r3 = g.play(Point::new(2, 3), Stone::new(g.turn));
    let caps3 = r3.unwrap();
    assert_eq!(caps3.len(), 1);
    assert!(g.stones[2 * 19 + 3].visible);
    assert!(!g.stones[2 * 19 + 2].visible);
}

#[test]
fn undo_redo_round_trip_restores_everything() {
    let mut g = Goban::default();
    play_ok(&mut g, 3, 3);
    play_ok(&mut g, 15, 15);
    play_ok(&mut g, 16, 3);
    let grid = g.stones.clone();
    let turn = g.turn;
    let last = g.last_move;
    let ko = g.ko;
    let n = g.current_move_number;
    assert!(g.previous_state());
    assert_eq!(g.current_move_number, n - 1);
    assert!(g.next_state());
    assert_eq!(g.stones, grid);
    assert_eq!(g.turn, turn);
    assert_eq!(g.last_move, last);
    assert_eq!(g.ko, ko);
    assert_eq!(g.current_move_number, n);
}

#[test]
fn undo_at_root_is_a_no_op() {
    let mut g = Goban::default();
    assert!(!g.previous_state());
    assert_eq!(g.current_move_number, 0);
    assert!(!g.next_state());
}

#[test]
fn branch_creation_adds_second_child_and_prefers_it() {
    let mut g = Goban::default();
    play_ok(&mut g, 3, 3);
    assert!(g.previous_state());
    let one = g.history.get_possible_moves();
    assert_eq!(one, vec![3 * 19 + 3]);
    // a second distinct move from the same node creates a variation
    play_ok(&mut g, 5, 5);
    assert!(g.previous_state());
    let two = g.history.get_possible_moves();
    assert_eq!(two.len(), 2);
    assert!(two.contains(&(3 * 19 + 3)));
    assert!(two.contains(&(5 * 19 + 5)));
    // the new variation is the preferred redo target
    assert!(g.next_state());
    assert!(g.stones[5 * 19 + 5].visible);
}

#[test]
fn select_variation_switches_the_redo_target() {
    let mut g = Goban::default();
    play_ok(&mut g, 3, 3);
    assert!(g.previous_state());
    play_ok(&mut g, 5, 5);
    assert!(g.previous_state());
    assert!(g.history.set_variation_to_move(3 * 19 + 3));
    assert!(g.next_state());
    assert!(g.stones[3 * 19 + 3].visible);
    assert!(!g.stones[5 * 19 + 5].visible);
    // asking for a move that is not a child reports false
    assert!(!g.history.set_variation_to_move(7 * 19 + 7));
}

#[test]
fn point_and_stone_constructors() {
    let p = Point::new(4, 17);
    assert_eq!(p.x, 4);
    assert_eq!(p.y, 17);
    assert_eq!(p.as_coord_tuple(), (4u8, 17u8));
    let b = Stone::black();
    assert!(b.visible);
    assert_eq!(b.color, Player::Black);
    let w = Stone::white();
    assert!(w.visible);
    assert_eq!(w.color, Player::White);
    let s = Stone::new(Player::White);
    assert_eq!(s, w);
    let e = Stone::default();
    assert!(!e.visible);
}

#[test]
fn coordinate_conversions_are_inverse() {
    for i in [0usize, 1, 18, 19, 180, 360] {
        let p = Goban::idx_to_coord(i);
        assert_eq!(Goban::coord_to_idx(p), i);
    }
    assert_eq!(Goban::coord_to_idx(Point::new(3, 4)), 3 * 19 + 4);
}

#[test]
fn events_and_widget_state_carry_their_payloads() {
    let e = GobanEvent::Play(Point::new(3, 3), Stone::black());
    match e {
        GobanEvent::Play(p, s) => {
            assert_eq!(p, Point::new(3, 3));
            assert_eq!(s, Stone::black());
        },
        _ => panic!("wrong event"),
    }
    let _prev = GobanEvent::PreviousState;
    let _next = GobanEvent::NextState;
    let st = GobanState::default();
    assert!(st.hover.is_none());
    let st2 = GobanState { hover: Some(Point::new(1, 2)) };
    assert_eq!(st2.hover, Some(Point::new(1, 2)));
}
