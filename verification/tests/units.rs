//! The parts of the library on small, hand-checked inputs.
use ricochet_robots::astar::{astar, solution};
use ricochet_robots::board::Board;
use ricochet_robots::direction::Direction;
use ricochet_robots::fnv::FnvHasher;
use ricochet_robots::frontier::Frontier;
use ricochet_robots::ids::ids;
use ricochet_robots::moves::{Move, MoveLite};
use ricochet_robots::parse::readable;
use ricochet_robots::render::decimal_chars;
use ricochet_robots::robots::Robots;
use ricochet_robots::state_map::{hash_placement, StateMap};

const ALL_DIRECTIONS: [Direction; 4] = [Direction::Up, Direction::Right, Direction::Down, Direction::Left];

fn board_u8(text: &str, robots: usize) -> Board<bool, u8> {
    assert!(readable::<u8>(text, robots));
    Board::<bool, u8>::from_str(text, robots).unwrap()
}

fn move_list(board: &Board<bool, u8>, positions: Vec<u8>) -> Vec<(u8, u8, Direction)> {
    let endpoints = board.to_endpoints_board();
    let robots = Robots::new(positions);
    let mut moves: Vec<Move<u8>> = Vec::new();
    endpoints.possible_moves(&robots, &mut moves);
    moves.iter().map(|m| (m.robot, m.to, m.dir)).collect()
}

#[test]
fn direction_opposites() {
    assert_eq!(Direction::Up.opposite(), Direction::Down);
    assert_eq!(Direction::Down.opposite(), Direction::Up);
    assert_eq!(Direction::Left.opposite(), Direction::Right);
    assert_eq!(Direction::Right.opposite(), Direction::Left);
    for d in ALL_DIRECTIONS.iter() {
        assert_eq!(d.opposite().opposite(), *d);
        assert!(d.is_opposite(&d.opposite()));
        assert!(d.opposite().is_opposite(d));
        assert!(!d.is_opposite(d));
    }
    assert!(!Direction::Up.is_opposite(&Direction::Left));
}

#[test]
fn direction_letters_bits_and_steps() {
    let letters: Vec<char> = ALL_DIRECTIONS.iter().map(|d| d.letter()).collect();
    assert_eq!(letters, vec!['U', 'R', 'D', 'L']);
    let bits: Vec<u8> = ALL_DIRECTIONS.iter().map(|d| d.bits()).collect();
    assert_eq!(bits, vec![1, 2, 4, 8]);
    let steps: Vec<i32> = ALL_DIRECTIONS.iter().map(|d| d.delta_idx(5u8)).collect();
    assert_eq!(steps, vec![-5, 1, 5, -1]);
}

#[test]
fn move_lite_round_trip() {
    for robot in 0u8..16 {
        for d in ALL_DIRECTIONS.iter() {
            let m = MoveLite::new(robot, *d);
            assert_eq!(m.robot(), robot);
            assert_eq!(m.direction(), *d);
        }
    }
}

#[test]
fn move_new_keeps_its_fields() {
    let m = Move::new(3, 17u8, Direction::Left);
    assert_eq!(m.robot, 3);
    assert_eq!(m.to, 17);
    assert_eq!(m.dir, Direction::Left);
}

#[test]
fn fnv_known_values() {
    assert_eq!(FnvHasher::default().finish(), 0xcbf29ce484222325);
    let mut h = FnvHasher::default();
    h.write(b"a");
    assert_eq!(h.finish(), 0xaf63dc4c8601ec8c);
    let mut h = FnvHasher::default();
    h.write(b"foobar");
    assert_eq!(h.finish(), 0x85944171f73967e8);
}

#[test]
fn fnv_writes_in_pieces_hash_as_one() {
    let mut whole = FnvHasher::default();
    whole.write(b"ricochet robots");
    let mut parts = FnvHasher::default();
    parts.write(b"ricochet");
    parts.write(b" ");
    parts.write(b"robots");
    assert_eq!(whole.finish(), parts.finish());
}

#[test]
fn symmetric_sorts_all_but_robot_zero() {
    let r = Robots::new(vec![5u8, 9, 2, 7]).symmetric();
    assert_eq!(r.positions(), &vec![5u8, 2, 7, 9]);
    let a = Robots::new(vec![4u8, 1, 8, 3]).symmetric();
    let b = Robots::new(vec![4u8, 8, 3, 1]).symmetric();
    assert_eq!(a.positions(), b.positions());
    let c = Robots::new(vec![3u8, 1, 8, 4]).symmetric();
    assert_ne!(a.positions(), c.positions());
}

#[test]
fn robots_basic_operations() {
    let mut r: Robots<u16> = Robots::default(3);
    assert_eq!(r.positions(), &vec![0u16, 0, 0]);
    r.set(1, 12);
    assert_eq!(r.get(1), 12);
    assert!(r.contains(&12));
    assert!(!r.contains(&11));
    let d = r.duplicate();
    assert_eq!(d.positions(), r.positions());
    assert_eq!(r.len(), 3);
}

#[test]
fn state_map_stores_and_finds() {
    let mut m: StateMap<u8, u8> = StateMap::new();
    assert!(!m.contains(&vec![1u8, 2, 3]));
    m.insert(vec![1u8, 2, 3], 7);
    m.insert(vec![3u8, 2, 1], 9);
    assert_eq!(m.get(&vec![1u8, 2, 3]), Some(7));
    assert_eq!(m.get(&vec![3u8, 2, 1]), Some(9));
    m.insert(vec![1u8, 2, 3], 8);
    assert_eq!(m.get(&vec![1u8, 2, 3]), Some(8));
    assert_eq!(m.get(&vec![1u8, 2]), None);
    assert_eq!(hash_placement(&vec![1u8, 2, 3]), hash_placement(&vec![1u8, 2, 3]));
}

#[test]
fn frontier_pops_cheapest_first() {
    let mut f: Frontier<char> = Frontier::new();
    f.push(3, 'a');
    f.push(1, 'b');
    f.push(2, 'c');
    f.push(1, 'd');
    assert_eq!(f.pop(), Some((1, 'd')));
    assert_eq!(f.pop(), Some((1, 'b')));
    assert_eq!(f.pop(), Some((2, 'c')));
    f.push(0, 'e');
    assert_eq!(f.pop(), Some((0, 'e')));
    assert_eq!(f.pop(), Some((3, 'a')));
    assert_eq!(f.pop(), None);
}

#[test]
fn solution_follows_parents() {
    let dummy = MoveLite::new(1, Direction::Up);
    let a = MoveLite::new(0, Direction::Right);
    let b = MoveLite::new(0, Direction::Down);
    let c = MoveLite::new(0, Direction::Left);
    let moves = vec![dummy, a, b, c];
    let parents = vec![0usize, 0, 1, 1];
    assert_eq!(solution(3, &moves, &parents), vec![a, c]);
    assert_eq!(solution(2, &moves, &parents), vec![a, b]);
    assert_eq!(solution(1, &moves, &parents), vec![a]);
}

#[test]
fn decimal_digits() {
    assert_eq!(decimal_chars(0), vec!['0']);
    assert_eq!(decimal_chars(7), vec!['7']);
    assert_eq!(decimal_chars(120), vec!['1', '2', '0']);
}

#[test]
fn parse_small_board() {
    let board = board_u8("3\n2\n 0 \n#G \n  1\n", 2);
    assert_eq!(board.size(), 3);
    assert_eq!(board.len(), 9);
    assert_eq!(board.goal(), 4);
    assert_eq!(board.robots().positions(), &vec![1u8, 8]);
    assert!(board.is_wall(3));
    assert!(!board.is_wall(4));
    assert!(board.ready_for_search());
}

#[test]
fn parse_windows_line_endings() {
    let unix = board_u8("3\n1\n 0 \n#G \n   \n", 1);
    let windows = board_u8("3\r\n1\r\n 0 \r\n#G \r\n   \r\n", 1);
    assert_eq!(unix.to_text(), windows.to_text());
    assert_eq!(windows.len(), 9);
}

#[test]
fn parse_unexpected_character() {
    let r = Board::<bool, u8>::from_str("3\n1\n 0X\n#G \n   \n", 1);
    match r {
        Err(msg) => assert_eq!(msg, "Unexpected character: X"),
        Ok(_) => panic!("the board should be refused"),
    }
}

#[test]
fn parse_last_digit_and_goal_win() {
    let board = board_u8("3\n1\nG0 \n0 G\n   \n", 1);
    assert_eq!(board.robots().positions(), &vec![3u8]);
    assert_eq!(board.goal(), 5);
}

#[test]
fn readable_refuses_what_cannot_be_read() {
    assert!(!readable::<u8>("", 1));
    assert!(!readable::<u8>("3", 1));
    assert!(!readable::<u8>("3\n", 1));
    assert!(!readable::<u8>("x\n1\n   \n", 1));
    assert!(!readable::<u8>("16\n1\n", 1));
    assert!(readable::<u16>("16\n1\n", 1));
    assert!(!readable::<u8>("3\n1\n 1 \n   \n   \n", 1));
    assert!(readable::<u8>("3\n2\n 1 \n   \n 0 \n", 2));
    assert!(readable::<u8>("+3\n1\n 0 \n   \n G \n", 1));
    assert!(readable::<u8>("3\n1\n 0X\n 5 \n", 1));
}

#[test]
fn ready_for_search_checks_the_shape() {
    let short = board_u8("3\n1\n 0 \n#G\n", 1);
    assert!(!short.ready_for_search());
    let walled = board_u8("2\n1\n#0\nG \n", 1);
    assert!(walled.ready_for_search());
}

#[test]
fn text_round_trip() {
    let text = "3\n2\n 0 \n#G \n  1\n";
    let board = board_u8(text, 2);
    assert_eq!(board.to_text(), text);
}

#[test]
fn endpoints_and_within_board() {
    let board = board_u8("3\n1\n0  \n # \n  G\n", 1);
    assert_eq!(board.endpoint_in_direction(0, Direction::Right), 2);
    assert_eq!(board.endpoint_in_direction(0, Direction::Down), 6);
    assert_eq!(board.endpoint_in_direction(1, Direction::Down), 1);
    assert_eq!(board.endpoint_in_direction(8, Direction::Up), 2);
    assert_eq!(board.endpoint_in_direction(7, Direction::Left), 6);
    assert!(board.within_board(5, 3, &Direction::Right));
    assert!(!board.within_board(6, 3, &Direction::Right));
    assert!(board.within_board(3, 5, &Direction::Left));
    assert!(!board.within_board(2, 5, &Direction::Left));
    assert!(board.within_board(8, 2, &Direction::Down));
    assert!(!board.within_board(9, 2, &Direction::Down));
    assert!(!board.within_board(-1, 2, &Direction::Up));
    assert!(!board.within_board(-3, 2, &Direction::Down));
}

#[test]
fn possible_moves_in_order() {
    let board = board_u8("3\n2\n   \n 0 \n  1\n", 2);
    let moves = move_list(&board, vec![4, 8]);
    assert_eq!(
        moves,
        vec![
            (0, 1, Direction::Up),
            (0, 5, Direction::Right),
            (0, 7, Direction::Down),
            (0, 3, Direction::Left),
            (1, 2, Direction::Up),
            (1, 6, Direction::Left),
        ]
    );
}

#[test]
fn possible_moves_stop_at_robots_and_walls() {
    let board = board_u8("3\n2\n0 1\n#  \n   \n", 2);
    let moves = move_list(&board, vec![0, 2]);
    assert_eq!(moves, vec![(0, 1, Direction::Right), (1, 8, Direction::Down), (1, 1, Direction::Left)]);
}

#[test]
fn distances_from_a_corner_goal() {
    let board = board_u8("3\n1\nG  \n   \n  0\n", 1);
    let dists = board.get_dists();
    let d: Vec<u16> = dists.iter().map(|e| e.0).collect();
    assert_eq!(d, vec![0, 1, 1, 1, 2, 2, 1, 2, 2]);
    for e in dists.iter() {
        assert!(e.1.is_empty());
    }
}

#[test]
fn distances_need_helpers_in_the_middle() {
    let board = board_u8("3\n1\n0  \n G \n   \n", 1);
    let dists = board.get_dists();
    assert_eq!(dists[4].0, 0);
    assert!(dists[4].1.is_empty());
    assert_eq!(dists[1].0, 1);
    assert_eq!(dists[1].1, vec![7u8]);
}

#[test]
fn distances_take_helpers_from_the_goal() {
    let board = board_u8("3\n1\n0  \nG  \n   \n", 1);
    let dists = board.get_dists();
    assert_eq!(dists[3], (0, vec![]));
    assert_eq!(dists[0], (1, vec![6u8]));
    assert_eq!(dists[6], (1, vec![0u8]));
    assert_eq!(dists[4], (1, vec![]));
    assert_eq!(dists[5], (1, vec![]));
}

#[test]
fn distances_of_walled_cells_stay_unreached() {
    let board = board_u8("3\n1\nG# \n## \n  0\n", 1);
    let dists = board.get_dists();
    assert_eq!(dists[0].0, 0);
    assert_eq!(dists[8].0, u16::MAX);
    assert_eq!(dists[1].0, u16::MAX);
}

#[test]
fn astar_finds_a_short_solution() {
    let board = board_u8("3\n1\nG  \n   \n  0\n", 1);
    let sol = astar(&board.to_endpoints_board(), &board.get_dists()).unwrap();
    assert_eq!(sol.len(), 2);
    for m in sol.iter() {
        assert_eq!(m.robot(), 0);
    }
}

#[test]
fn astar_reports_no_solution() {
    let board = board_u8("3\n2\n0# \n#  \n 1G\n", 2);
    assert!(board.ready_for_search());
    let sol = astar(&board.to_endpoints_board(), &board.get_dists());
    assert!(sol.is_none());
}

#[test]
fn ids_finds_a_shortest_solution() {
    let board = board_u8("3\n1\nG  \n   \n  0\n", 1);
    let sol = ids(&board.to_endpoints_board()).unwrap();
    assert_eq!(sol.len(), 2);
    assert_eq!(sol[0].robot, 0);
    assert_eq!(sol[1].robot, 0);
}

#[test]
fn ids_uses_a_helper_robot() {
    let board = board_u8("4\n2\n # 0\n   1\n #G \n#   \n", 2);
    let sol = ids(&board.to_endpoints_board()).unwrap();
    assert_eq!(sol.len(), 3);
    assert!(sol.iter().any(|m| m.robot == 1));
    let dists = board.get_dists();
    let lite = astar(&board.to_endpoints_board(), &dists).unwrap();
    assert!(lite.len() >= 3);
}

#[test]
fn ids_on_the_goal_gives_no_moves() {
    let board = board_u8("3\n2\n  1\n   \n   \n", 2);
    assert_eq!(board.goal(), 0);
    assert_eq!(board.robots().positions(), &vec![0u8, 2]);
    let sol = ids(&board.to_endpoints_board()).unwrap();
    assert!(sol.is_empty());
}

#[test]
fn astar_on_the_goal_gives_no_moves() {
    let board = board_u8("3\n2\n  1\n   \n   \n", 2);
    let sol = astar(&board.to_endpoints_board(), &board.get_dists()).unwrap();
    assert!(sol.is_empty());
}

#[test]
fn astar_moves_are_real_moves() {
    let board = board_u8("4\n2\n # 0\n   1\n #G \n#   \n", 2);
    let sol = astar(&board.to_endpoints_board(), &board.get_dists()).unwrap();
    assert!(!sol.is_empty());
    for m in sol.iter() {
        assert!(m.robot() < 2);
    }
}

#[test]
fn moves_as_text() {
    assert_eq!(Move::new(0, 5u8, Direction::Left).to_text(), "0L");
    assert_eq!(MoveLite::new(1, Direction::Up).to_text(), "1U");
    assert_eq!(MoveLite::new(12, Direction::Down).to_text(), "12D");
}

#[test]
fn moving_back_equals_moving_at_once() {
    let board = board_u8("4\n2\n    \n 0 #\n    \n 1  \n", 2);
    let first = move_list(&board, vec![5, 13]);
    let right = first.iter().find(|m| m.0 == 0 && m.2 == Direction::Right).unwrap().1;
    let left_at_once = first.iter().find(|m| m.0 == 0 && m.2 == Direction::Left).unwrap().1;
    assert_eq!(right, 6);
    let second = move_list(&board, vec![right, 13]);
    let left_after = second.iter().find(|m| m.0 == 0 && m.2 == Direction::Left).unwrap().1;
    assert_eq!(left_after, left_at_once);
    assert_eq!(left_at_once, 4);
}

#[test]
fn ids_with_nine_robots_may_start_with_robot_eight_down() {
    // The shortest solution here takes four moves and starts by sending
    // robot 8 down.
    let board = board_u8("5\n9\n0 8  \n##G  \n1   3\n462  \n5#7  \n", 9);
    assert!(board.ready_for_search());
    let sol = ids(&board.to_endpoints_board()).unwrap();
    assert_eq!(sol.len(), 4);
}

#[test]
fn ids_with_robots_sharing_a_cell_misses_a_way_back() {
    // Robots 1 and 2 are not placed and share cell 0. The shortest solution
    // takes four moves and sends one of them right and straight back left,
    // which stops it next to the other one; the search does not try that.
    let board = board_u8("4\n3\n  G \n#   \n  #0\n # #\n", 3);
    assert_eq!(board.robots().positions(), &vec![11u8, 0, 0]);
    assert!(board.ready_for_search());
    let sol = ids(&board.to_endpoints_board()).unwrap();
    assert!(sol.len() > 4);
}

#[test]
fn try_get_dists_gives_the_table_when_it_fits() {
    let board = board_u8("3\n1\n0  \nG  \n   \n", 1);
    let tried = board.try_get_dists().unwrap();
    assert_eq!(tried, board.get_dists());
    assert_eq!(tried[0], (1, vec![6u8]));
}

#[test]
fn packed_moves_are_equal_exactly_for_the_same_move() {
    assert_eq!(MoveLite::new(3, Direction::Left), MoveLite::new(3, Direction::Left));
    assert_ne!(MoveLite::new(3, Direction::Left), MoveLite::new(3, Direction::Right));
    assert_ne!(MoveLite::new(3, Direction::Left), MoveLite::new(2, Direction::Left));
}
