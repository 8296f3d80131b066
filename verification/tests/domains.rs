use puzzle_solver::action::Action;
use puzzle_solver::puzzles::fifteen_puzzle::{FifteenPuzzle, FifteenPuzzleAction};
use puzzle_solver::puzzles::fifteen_puzzle_fast::FifteenPuzzleFast;
use puzzle_solver::puzzles::rubiks_cube::{ccol, fcol, Color, CubeAction, CubeState};
use puzzle_solver::puzzles::silly_puzzle::{SillyPuzzle, SillyPuzzleAction};
use puzzle_solver::search::{AStarSearch, Search};
use puzzle_solver::state::State;

const GOAL: u64 = 0xfedcba9876543210;
const SOLVED: [u32; 6] = [0x00000000, 0x11111111, 0x22222222, 0x33333333, 0x44444444, 0x55555555];

fn pieces(actions: &Vec<FifteenPuzzleAction>) -> Vec<u8> {
    actions.iter().map(|action| action.piece).collect()
}

#[test]
fn silly_puzzle_steps_up_and_down() {
    let state = SillyPuzzle::new(5);
    let actions = state.list_actions();
    assert_eq!(actions, vec![SillyPuzzleAction::new(1), SillyPuzzleAction::new(-1)]);
    assert_eq!(state.perform_action(&actions[0]).n, 6);
    assert_eq!(state.perform_action(&actions[1]).n, 4);
    assert!(!state.is_goal_state());
    assert!(SillyPuzzle::new(69).is_goal_state());
    assert_eq!(state.heuristic(), 64);
    assert_eq!(SillyPuzzle::new(69).heuristic(), 0);
    assert_eq!(SillyPuzzle::new(100).heuristic(), 31);
    assert_eq!(SillyPuzzle::new(-31).heuristic(), 100);
    assert!(state.equals(&state.duplicate()));
    assert!(!state.equals(&SillyPuzzle::new(6)));
}

#[test]
fn silly_puzzle_stays_within_the_numbers_of_32_bits() {
    let top = SillyPuzzle::new(i32::MAX);
    assert_eq!(top.list_actions(), vec![SillyPuzzleAction::new(-1)]);
    assert_eq!(top.heuristic(), 2147483578);
    let bottom = SillyPuzzle::new(i32::MIN);
    assert_eq!(bottom.list_actions(), vec![SillyPuzzleAction::new(1)]);
    assert_eq!(bottom.heuristic(), 2147483717);
    assert_eq!(bottom.perform_action(&SillyPuzzleAction::new(1)).n, i32::MIN + 1);
}

#[test]
fn silly_puzzle_is_written_in_decimal() {
    assert_eq!(SillyPuzzle::new(0).to_string(), "0");
    assert_eq!(SillyPuzzle::new(69).to_string(), "69");
    assert_eq!(SillyPuzzle::new(-5).to_string(), "-5");
    assert_eq!(SillyPuzzle::new(1000).to_string(), "1000");
    assert_eq!(SillyPuzzle::new(i32::MAX).to_string(), "2147483647");
    assert_eq!(SillyPuzzle::new(i32::MIN).to_string(), "-2147483648");
}

#[test]
fn silly_puzzle_is_shown_on_a_strip() {
    let mut strip = vec!['.'; 100];
    strip[5] = 'o';
    strip[69] = '*';
    let strip: String = strip.into_iter().collect();
    let expected = format!("{:^102}\n[{}]", "T H E   S I L L Y   P U Z Z L E", strip);
    assert_eq!(SillyPuzzle::new(5).display_pretty(), expected);
    // at the goal the star covers the ring; off the strip there is no ring
    let bare = expected.replace('o', ".");
    assert_eq!(SillyPuzzle::new(69).display_pretty(), bare);
    assert_eq!(SillyPuzzle::new(-1).display_pretty(), bare);
    assert_eq!(SillyPuzzle::new(100).display_pretty(), bare);
}

#[test]
fn fifteen_puzzle_knows_its_cells() {
    let puzzle = FifteenPuzzle::default();
    assert_eq!(puzzle.board, GOAL);
    assert_eq!(FifteenPuzzle::default_board(), GOAL);
    assert_eq!(FifteenPuzzle::new(GOAL), puzzle);
    for i in 0..16u8 {
        assert_eq!(puzzle.get_piece(i), i);
        assert_eq!(puzzle.find_piece_index(i), i);
    }
    let other = FifteenPuzzle::new(0x0123456789abcdef);
    for i in 0..16u8 {
        assert_eq!(other.get_piece(i), 15 - i);
        assert_eq!(other.find_piece_index(i), 15 - i);
    }
    // a piece that is not on the board is looked for in vain
    assert_eq!(puzzle.find_piece_index(16), 0);
    assert_eq!(FifteenPuzzle::new(0x1111111111111111).find_piece_index(2), 0);
    assert_eq!(FifteenPuzzle::new(0x1111111111111121).find_piece_index(2), 1);
}

#[test]
fn fifteen_puzzle_moves_a_piece_into_the_open_cell() {
    let puzzle = FifteenPuzzle::default();
    assert_eq!(puzzle.move_piece(1), 0xfedcba9876543201);
    assert_eq!(puzzle.move_piece(4), 0xfedcba9876503214);
    assert_eq!(puzzle.move_piece(0), GOAL);
    assert_eq!(FifteenPuzzle::new(0xfedcba9876543201).move_piece(5), 0xfedcba9876043251);
    assert_eq!(FifteenPuzzle::new(0xfedcba9876543201).move_piece(1), GOAL);
    let next = puzzle.perform_action(&FifteenPuzzleAction::new(1));
    assert_eq!(next.board, 0xfedcba9876543201);
}

#[test]
fn fifteen_puzzle_lists_the_pieces_next_to_the_open_cell() {
    assert_eq!(pieces(&FifteenPuzzle::default().list_actions()), vec![1, 4]);
    assert_eq!(pieces(&FifteenPuzzle::new(0xfedcba9876043251).list_actions()), vec![4, 6, 5, 9]);
    assert_eq!(pieces(&FifteenPuzzle::new(0x0123456789abcdef).list_actions()), vec![1, 4]);
    assert_eq!(pieces(&FifteenPuzzle::new(0xfedcba9876543201).list_actions()), vec![1, 2, 5]);
}

#[test]
fn fifteen_puzzle_estimates_by_the_distances_of_the_pieces() {
    assert_eq!(FifteenPuzzle::default().heuristic(), 0);
    assert_eq!(FifteenPuzzle::new(0xfedcba9876543201).heuristic(), 1);
    assert_eq!(FifteenPuzzle::new(0xfedcba9876043251).heuristic(), 2);
    // every piece but the open cell is three rows and three columns, or one and one, away
    assert_eq!(FifteenPuzzle::new(0x0123456789abcdef).heuristic(), 58);
    assert!(FifteenPuzzle::default().is_goal_state());
    assert!(!FifteenPuzzle::new(0xfedcba9876543201).is_goal_state());
}

#[test]
fn fifteen_puzzle_tells_boards_from_other_numbers() {
    assert!(FifteenPuzzle::default().is_valid());
    assert!(FifteenPuzzle::new(0x0123456789abcdef).is_valid());
    assert!(FifteenPuzzle::new(0xfedcba9876043251).is_valid());
    assert!(!FifteenPuzzle::new(0).is_valid());
    assert!(!FifteenPuzzle::new(0xfedcba9876543211).is_valid());
    assert!(!FifteenPuzzle::new(0xfedcba9876543200).is_valid());
}

#[test]
fn fifteen_puzzle_is_written_as_sixteen_digits() {
    assert_eq!(FifteenPuzzle::default().to_string(), "0xfedcba9876543210");
    assert_eq!(FifteenPuzzle::new(1).to_string(), "0x0000000000000001");
    assert_eq!(FifteenPuzzle::new(0).to_string(), "0x0000000000000000");
    assert_eq!(FifteenPuzzle::new(u64::MAX).to_string(), "0xffffffffffffffff");
}

#[test]
fn fifteen_puzzle_is_shown_as_a_grid() {
    let expected = "+---+---+---+---+\n\
                    | F | E | D | C |\n\
                    +---+---+---+---+\n\
                    | B | A | 9 | 8 |\n\
                    +---+---+---+---+\n\
                    | 7 | 6 | 5 | 4 |\n\
                    +---+---+---+---+\n\
                    | 3 | 2 | 1 |   |\n\
                    +---+---+---+---+";
    assert_eq!(FifteenPuzzle::default().display_pretty(), expected);
}

#[test]
fn fast_puzzle_keeps_the_cells_of_the_pieces() {
    let puzzle = FifteenPuzzleFast::default();
    assert_eq!(puzzle.board_pieces, GOAL);
    assert_eq!(puzzle.board_index, GOAL);
    assert_eq!(FifteenPuzzleFast::from_pieces(GOAL), puzzle);
    assert_eq!(FifteenPuzzleFast::new(GOAL, GOAL), puzzle);
    assert_eq!(FifteenPuzzleFast::default_board(), GOAL);
    let turned = FifteenPuzzleFast::from_pieces(0x0123456789abcdef);
    assert_eq!(turned.board_index, 0x0123456789abcdef);
    let other = FifteenPuzzleFast::from_pieces(0xfedcba9876043251);
    // piece 0 is in cell 5, piece 1 in cell 0, piece 5 in cell 1
    assert_eq!(other.board_index, 0xfedcba9876143205);
    assert!(puzzle.is_valid() && turned.is_valid() && other.is_valid());
    assert!(!FifteenPuzzleFast::new(GOAL, 0xfedcba9876043251).is_valid());
    assert!(!FifteenPuzzleFast::new(0, 0).is_valid());
}

#[test]
fn fast_puzzle_moves_as_the_plain_puzzle_does() {
    let mut plain = FifteenPuzzle::default();
    let mut fast = FifteenPuzzleFast::default();
    for piece in [1u8, 5, 6, 2, 1, 5, 9, 13, 12, 8, 9, 5, 1, 0, 4] {
        plain = FifteenPuzzle::new(plain.move_piece(piece));
        fast = fast.move_piece(piece);
        assert_eq!(fast.board_pieces, plain.board);
        assert_eq!(fast.board_index, FifteenPuzzleFast::from_pieces(plain.board).board_index);
        assert!(fast.is_valid());
        let mut listed = pieces(&fast.list_actions());
        let mut expected = pieces(&plain.list_actions());
        listed.sort();
        expected.sort();
        assert_eq!(listed, expected);
    }
    assert_eq!(FifteenPuzzleFast::default().move_piece(1).board_pieces, 0xfedcba9876543201);
    assert_eq!(FifteenPuzzleFast::default().move_piece(1).board_index, 0xfedcba9876543201);
}

#[test]
fn fast_puzzle_lists_estimates_and_writes() {
    let puzzle = FifteenPuzzleFast::default();
    assert_eq!(pieces(&puzzle.list_actions()), vec![4, 1]);
    assert_eq!(pieces(&FifteenPuzzleFast::from_pieces(0xfedcba9876043251).list_actions()), vec![5, 9, 4, 6]);
    assert_eq!(puzzle.heuristic(), 0);
    // the open cell counts as a piece
    assert_eq!(puzzle.move_piece(1).heuristic(), 2);
    assert!(puzzle.is_goal_state());
    assert!(!puzzle.move_piece(4).is_goal_state());
    assert_eq!(puzzle.to_string(), "0xfedcba9876543210/0xfedcba9876543210");
    assert_eq!(puzzle.move_piece(4).to_string(), "0xfedcba9876503214/0xfedcba9876503214");
    let expected = "+---+---+---+---+\n\
                    |   | 4 | 8 | C |\n\
                    +---+---+---+---+\n\
                    | 1 | 5 | 9 | D |\n\
                    +---+---+---+---+\n\
                    | 2 | 6 | A | E |\n\
                    +---+---+---+---+\n\
                    | 3 | 7 | B | F |\n\
                    +---+---+---+---+";
    assert_eq!(puzzle.display_pretty(), expected);
    assert!(puzzle.equals(&puzzle.duplicate()));
    assert!(!puzzle.equals(&puzzle.move_piece(1)));
}

#[test]
fn fast_puzzle_is_solved_as_the_plain_puzzle_is() {
    let start = FifteenPuzzleFast::from_pieces(0xfedcba9806547321);
    assert!(start.is_valid());
    let mut search = AStarSearch::<FifteenPuzzleFast>::new(u64::MAX);
    let solution = search.search(start, u64::MAX).ok().unwrap().unwrap();
    assert_eq!(solution.path_length(), 4);
    assert_eq!(pieces(solution.get_path()), vec![7, 3, 2, 1]);
    assert_eq!(solution.get_final_state().board_pieces, GOAL);
    assert_eq!(solution.get_final_state().board_index, GOAL);
}

#[test]
fn colors_have_numbers_and_make_faces() {
    let colors = [Color::White, Color::Yellow, Color::Red, Color::Orange, Color::Green, Color::Blue];
    for (number, color) in colors.iter().enumerate() {
        assert_eq!(color.to_index(), number as u32);
        assert_eq!(Color::from_index(number as u8), *color);
        assert_eq!(Color::from_index(number as u8 + 8), *color);
        assert_eq!(Color::from_number(number as u32), *color);
        assert_eq!(Color::to_face([*color; 8]), SOLVED[number]);
    }
    let face = Color::to_face([
        Color::White,
        Color::Yellow,
        Color::Red,
        Color::Orange,
        Color::Green,
        Color::Blue,
        Color::White,
        Color::Blue,
    ]);
    assert_eq!(face, 0x50543210);
    assert_eq!(Color::get_color_at(face, 0), Color::White);
    assert_eq!(Color::get_color_at(face, 3), Color::Orange);
    assert_eq!(Color::get_color_at(face, 7), Color::Blue);
    assert_eq!(Color::set_color_at(face, 0, Color::Blue), 0x50543215);
    assert_eq!(Color::set_color_at(face, 7, Color::Yellow), 0x10543210);
    assert_eq!(Color::set_color_at(face, 4, Color::Green), face);
    assert_eq!(Color::set_color_at(0xffffffff, 2, Color::White), 0xfffff8ff);
}

#[test]
fn the_solved_cube_has_faces_of_one_colour() {
    assert_eq!(CubeState::new().faces, SOLVED);
    assert_eq!(CubeState::default().faces, SOLVED);
    assert_eq!(CubeState::default_cube(), SOLVED);
    assert!(CubeState::default().is_goal_state());
    assert!(CubeState::default().is_valid());
    assert_eq!(CubeState::default().heuristic(), 0);
    assert_eq!(
        CubeState::default().to_string(),
        "0x00000000,0x11111111,0x22222222,0x33333333,0x44444444,0x55555555"
    );
    assert!(!CubeState { faces: [0, 0x11111111, 0x22222222, 0x33333336, 0, 0] }.is_valid());
    assert!(!CubeState { faces: [0, 0x11111111, 0x22222222, 0x33333338, 0, 0] }.is_valid());
    assert!(CubeState { faces: [0; 6] }.is_valid());
}

#[test]
fn a_quarter_turn_takes_the_stickers_around_a_face_one_side_on() {
    let turned = CubeState::rotate_cw(SOLVED, 0);
    assert_eq!(turned, [0x00000000, 0x11111111, 0x22222555, 0x33333444, 0x44444222, 0x55555333]);
    let back = CubeState::rotate_ccw(SOLVED, 0);
    assert_eq!(back, [0x00000000, 0x11111111, 0x22222444, 0x33333555, 0x44444333, 0x55555222]);
    let half = CubeState::rotate_180(SOLVED, 0);
    assert_eq!(half, [0x00000000, 0x11111111, 0x22222333, 0x33333222, 0x44444555, 0x55555444]);
    let front = CubeState::rotate_cw(SOLVED, 2);
    assert_eq!(front, [0x04440000, 0x11111555, 0x22222222, 0x33333333, 0x44411144, 0x00555550]);
}

#[test]
fn turns_of_a_face_undo_each_other() {
    let mut scrambled = SOLVED;
    for (face, step) in [(0u8, 1), (4, 2), (2, 3), (5, 1), (1, 3), (3, 2), (4, 1)] {
        scrambled = match step {
            1 => CubeState::rotate_cw(scrambled, face),
            2 => CubeState::rotate_180(scrambled, face),
            _ => CubeState::rotate_ccw(scrambled, face),
        };
    }
    assert_ne!(scrambled, SOLVED);
    assert!(CubeState { faces: scrambled }.is_valid());
    for face in 0..6u8 {
        let once = CubeState::rotate_cw(scrambled, face);
        assert_ne!(once, scrambled);
        assert_eq!(CubeState::rotate_ccw(once, face), scrambled);
        assert_eq!(CubeState::rotate_cw(once, face), CubeState::rotate_180(scrambled, face));
        assert_eq!(CubeState::rotate_180(CubeState::rotate_180(scrambled, face), face), scrambled);
        let four = CubeState::rotate_cw(CubeState::rotate_cw(CubeState::rotate_cw(once, face), face), face);
        assert_eq!(four, scrambled);
        assert_eq!(CubeState::rotate_cw(CubeState::rotate_cw(once, face), face), CubeState::rotate_ccw(scrambled, face));
    }
    // a turn keeps the number of stickers of each colour
    let mut counts = [0; 6];
    for face in scrambled {
        for k in 0..8 {
            counts[((face >> (4 * k)) & 0xf) as usize] += 1;
        }
    }
    assert_eq!(counts, [8; 6]);
}

#[test]
fn the_cube_lists_every_turn_and_makes_it() {
    let cube = CubeState::default();
    let turns = cube.list_actions();
    assert_eq!(turns.len(), 18);
    assert_eq!(turns[0], CubeAction::U);
    assert_eq!(turns[1], CubeAction::UPrime);
    assert_eq!(turns[2], CubeAction::U2);
    assert_eq!(turns[6], CubeAction::R);
    assert_eq!(turns[17], CubeAction::B2);
    assert_eq!(cube.perform_action(&CubeAction::U).faces, CubeState::rotate_cw(SOLVED, 0));
    assert_eq!(cube.perform_action(&CubeAction::DPrime).faces, CubeState::rotate_ccw(SOLVED, 1));
    assert_eq!(cube.perform_action(&CubeAction::F2).faces, CubeState::rotate_180(SOLVED, 2));
    assert_eq!(cube.perform_action(&CubeAction::B).faces, CubeState::rotate_cw(SOLVED, 3));
    assert_eq!(cube.perform_action(&CubeAction::R).faces, CubeState::rotate_cw(SOLVED, 4));
    assert_eq!(cube.perform_action(&CubeAction::LPrime).faces, CubeState::rotate_ccw(SOLVED, 5));
    for turn in &turns {
        let next = cube.perform_action(turn);
        assert!(next.is_valid());
        assert!(!next.is_goal_state());
        assert!(!next.equals(&cube));
    }
    assert!(cube.equals(&cube.duplicate()));
}

#[test]
fn a_scrambled_cube_comes_with_the_turns_that_made_it() {
    for count in [0u32, 1, 2, 10, 40] {
        let (cube, turns) = CubeState::scrambled_cube(count);
        assert_eq!(turns.len(), count as usize);
        assert!(cube.is_valid());
        let mut replayed = CubeState::default();
        for turn in &turns {
            replayed = replayed.perform_action(turn);
        }
        assert_eq!(replayed, cube);
    }
    let (cube, _) = CubeState::scrambled_cube(0);
    assert!(cube.is_goal_state());
    let mut rng = rand::thread_rng();
    let mut seen = Vec::new();
    for _ in 0..2000 {
        let turn = CubeAction::random_move(&mut rng);
        if !seen.contains(&turn) {
            seen.push(turn);
        }
    }
    assert_eq!(seen.len(), 18);
}

#[test]
fn colours_are_shown_between_terminal_marks() {
    assert_eq!(Color::White.to_colored("x"), "\x1b[37mx\x1b[0m");
    assert_eq!(Color::Yellow.to_colored("x"), "\x1b[33mx\x1b[0m");
    assert_eq!(Color::Red.to_colored("ab"), "\x1b[31mab\x1b[0m");
    assert_eq!(Color::Orange.to_colored(""), "\x1b[35m\x1b[0m");
    assert_eq!(Color::Green.to_colored("x"), "\x1b[32mx\x1b[0m");
    assert_eq!(Color::Blue.to_colored("x"), "\x1b[34mx\x1b[0m");
    assert_eq!(ccol(Color::Green), "\x1b[32m\u{2593}\x1b[0m");
    let cube = CubeState::default().perform_action(&CubeAction::U);
    assert_eq!(fcol(&cube, Color::Blue, 0), "\x1b[35m\u{2593}\x1b[0m");
    assert_eq!(fcol(&cube, Color::Blue, 3), "\x1b[34m\u{2593}\x1b[0m");
    assert_eq!(fcol(&cube, Color::White, 7), "\x1b[37m\u{2593}\x1b[0m");
}

#[test]
fn the_cube_is_shown_unfolded() {
    let block = |code: u32| format!("\x1b[{}m\u{2593}\x1b[0m", code);
    let narrow = |code: u32| format!("   {}      ", block(code).repeat(3));
    let wide = format!(
        "{}{}{}{}",
        block(32).repeat(3),
        block(37).repeat(3),
        block(34).repeat(3),
        block(33).repeat(3)
    );
    let expected = vec![
        narrow(35),
        narrow(35),
        narrow(35),
        wide.clone(),
        wide.clone(),
        wide.clone(),
        narrow(31),
        narrow(31),
        narrow(31),
    ]
    .join("\n");
    assert_eq!(CubeState::default().display_pretty(), expected);
    // after a turn of the white face the first three stickers of its neighbours have changed
    let shown = CubeState::default().perform_action(&CubeAction::U).display_pretty();
    let lines: Vec<&str> = shown.split('\n').collect();
    assert_eq!(lines.len(), 9);
    assert_eq!(lines[0], narrow(35));
    assert_eq!(lines[2], format!("   {}{}{}      ", block(32), block(32), block(32)));
    assert_eq!(
        lines[3],
        format!(
            "{}{}{}{}{}{}",
            block(32).repeat(2),
            block(31),
            block(37).repeat(3),
            block(35),
            block(34).repeat(2),
            block(33).repeat(3)
        )
    );
    assert_eq!(lines[6], format!("   {}      ", block(34).repeat(3)));
}

#[test]
fn silly_puzzle_is_shown_in_colours_where_they_are_switched_on() {
    let mut strip = vec!['.'; 100];
    strip[5] = 'o';
    strip[69] = '*';
    let strip: String = strip.into_iter().collect();
    let heading = format!("{:^102}", "T H E   S I L L Y   P U Z Z L E");
    colored::control::set_override(true);
    let expected = format!("\x1b[35m{}\x1b[0m\n[\x1b[36m{}\x1b[0m]", heading, strip);
    assert_eq!(SillyPuzzle::new(5).display_colored(), expected);
}

#[test]
fn silly_puzzle_is_shown_plain_where_colours_are_switched_off() {
    let mut strip = vec!['.'; 100];
    strip[5] = 'o';
    strip[69] = '*';
    let strip: String = strip.into_iter().collect();
    let heading = format!("{:^102}", "T H E   S I L L Y   P U Z Z L E");
    colored::control::set_override(false);
    assert_eq!(SillyPuzzle::new(5).display_colored(), format!("{}\n[{}]", heading, strip));
    assert_eq!(SillyPuzzle::new(5).display_colored(), SillyPuzzle::new(5).display_pretty());
}
