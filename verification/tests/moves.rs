use word_grid::board::Board;
use word_grid::board::Multiplier;
use word_grid::dict::Dictionary;
use word_grid::error::MoveError;
use word_grid::hand::Hand;
use word_grid::score::score_move;
use word_grid::validate::play_move;
use word_grid::validate::validate_move;

fn dict_of(words: &[&str]) -> Dictionary {
    let mut v: Vec<Vec<char>> = Vec::new();
    for w in words {
        v.push(w.chars().collect());
    }
    Dictionary::new(v)
}

fn hand_of(letters: &[char]) -> Hand {
    Hand::new(letters.to_vec())
}

fn no_values() -> Vec<(char, u16)> {
    Vec::new()
}

#[test]
fn dictionary_is_case_sensitive() {
    let d = dict_of(&["CAT", "dog"]);
    assert!(d.contains(&vec!['C', 'A', 'T']));
    assert!(d.contains(&vec!['d', 'o', 'g']));
    assert!(!d.contains(&vec!['c', 'a', 't']));
    assert!(!d.contains(&vec!['D', 'O', 'G']));
    assert!(!d.contains(&vec!['C', 'A']));
}

#[test]
fn duplicate_words_collapse() {
    let d = dict_of(&["CAT", "CAT"]);
    assert!(d.contains(&vec!['C', 'A', 'T']));
}

#[test]
fn cell_at_out_of_bounds() {
    let board = Board::new(11, 11);
    assert!(matches!(board.cell_at(11, 0), Err(MoveError::OutOfBounds)));
    assert!(matches!(board.cell_at(0, 11), Err(MoveError::OutOfBounds)));
    let c = board.cell_at(10, 10).unwrap();
    assert_eq!(c.to_char(), ' ');
}

#[test]
fn place_rejects_occupied_and_out_of_bounds() {
    let mut board = Board::new(11, 11);
    assert!(board.place(11, 5, 'a') == Err(MoveError::OutOfBounds));
    board.place(5, 5, 'a').unwrap();
    assert!(board.place(5, 5, 'b') == Err(MoveError::CellOccupied));
    assert_eq!(board.cell_at(5, 5).unwrap().to_char(), 'a');
}

#[test]
fn bonus_survives_placement() {
    let mut board = Board::new(11, 11);
    board.add_bonus(5, 5, Multiplier::DoubleWord).unwrap();
    assert_eq!(board.cell_at(5, 5).unwrap().to_char(), '*');
    board.place(5, 5, 'x').unwrap();
    let c = board.cell_at(5, 5).unwrap();
    assert_eq!(c.to_char(), 'x');
    assert!(c.bonus == Some(Multiplier::DoubleWord));
}

#[test]
fn first_move_forms_cat() {
    let board = Board::new(11, 11);
    let hand = hand_of(&['C', 'A', 'T', 'X']);
    let dict = dict_of(&["CAT"]);
    let placement = vec![(4usize, 5usize, 'C'), (5, 5, 'A'), (6, 5, 'T')];
    let mr = validate_move(&board, &hand, &placement, &dict).unwrap();
    assert_eq!(mr.words.len(), 1);
    let letters: Vec<char> = mr.words[0].iter().map(|t| t.2).collect();
    assert_eq!(letters, vec!['C', 'A', 'T']);
    let coords: Vec<(usize, usize)> = mr.words[0].iter().map(|t| (t.0, t.1)).collect();
    assert_eq!(coords, vec![(4, 5), (5, 5), (6, 5)]);
    assert_eq!(mr.hand_after.letters(), &vec!['X']);
}

#[test]
fn first_move_must_cover_center() {
    let board = Board::new(11, 11);
    let hand = hand_of(&['C', 'A', 'T']);
    let dict = dict_of(&["CAT"]);
    let placement = vec![(6usize, 5usize, 'C'), (7, 5, 'A'), (8, 5, 'T')];
    let r = validate_move(&board, &hand, &placement, &dict);
    assert!(matches!(r, Err(MoveError::MustCoverCenter)));
}

#[test]
fn second_move_touching_cluster_forms_cross_word() {
    let mut board = Board::new(11, 11);
    let dict = dict_of(&["CAT", "TS"]);
    let mut hand = hand_of(&['C', 'A', 'T']);
    let values = no_values();
    let first = vec![(4usize, 5usize, 'C'), (5, 5, 'A'), (6, 5, 'T')];
    let out = play_move(&mut board, &hand, &first, &dict, &values).unwrap();
    assert_eq!(out.words.len(), 1);
    hand = hand_of(&['S']);
    // one tile directly below the T: touches the cluster, spells TS
    let second = vec![(6usize, 6usize, 'S')];
    let out2 = play_move(&mut board, &hand, &second, &dict, &values).unwrap();
    assert_eq!(out2.words.len(), 1);
    let letters: Vec<char> = out2.words[0].iter().map(|t| t.2).collect();
    assert_eq!(letters, vec!['T', 'S']);
}

#[test]
fn second_move_away_from_cluster_is_disconnected() {
    let mut board = Board::new(11, 11);
    let dict = dict_of(&["CAT", "S"]);
    let hand = hand_of(&['C', 'A', 'T']);
    let values = no_values();
    let first = vec![(4usize, 5usize, 'C'), (5, 5, 'A'), (6, 5, 'T')];
    play_move(&mut board, &hand, &first, &dict, &values).unwrap();
    let hand2 = hand_of(&['S']);
    // nothing within a king move of (9, 9)
    let second = vec![(9usize, 9usize, 'S')];
    let r = play_move(&mut board, &hand2, &second, &dict, &values);
    assert!(matches!(r, Err(MoveError::Disconnected)));
    // the rejected tile was not committed
    assert_eq!(board.cell_at(9, 9).unwrap().to_char(), ' ');
}

#[test]
fn unknown_word_is_rejected_and_board_unchanged() {
    let mut board = Board::new(11, 11);
    let dict = dict_of(&["DOG"]);
    let hand = hand_of(&['C', 'A', 'T']);
    let values = no_values();
    let placement = vec![(4usize, 5usize, 'C'), (5, 5, 'A'), (6, 5, 'T')];
    let r = play_move(&mut board, &hand, &placement, &dict, &values);
    match r {
        Err(MoveError::InvalidWord(w)) => assert_eq!(w, vec!['C', 'A', 'T']),
        _ => panic!("expected the unknown word to be named"),
    }
    for y in 0..11 {
        for x in 0..11 {
            assert_eq!(board.cell_at(x, y).unwrap().to_char(), ' ');
        }
    }
}

#[test]
fn committed_move_changes_exactly_its_cells() {
    let mut board = Board::new(11, 11);
    let dict = dict_of(&["CAT"]);
    let hand = hand_of(&['C', 'A', 'T']);
    let values = no_values();
    let placement = vec![(4usize, 5usize, 'C'), (5, 5, 'A'), (6, 5, 'T')];
    play_move(&mut board, &hand, &placement, &dict, &values).unwrap();
    for y in 0..11 {
        for x in 0..11 {
            let g = board.cell_at(x, y).unwrap().to_char();
            match (x, y) {
                (4, 5) => assert_eq!(g, 'C'),
                (5, 5) => assert_eq!(g, 'A'),
                (6, 5) => assert_eq!(g, 'T'),
                _ => assert_eq!(g, ' '),
            }
        }
    }
    assert!(board.all_tiles_connected());
}

#[test]
fn letters_must_come_from_the_hand() {
    let board = Board::new(11, 11);
    let dict = dict_of(&["CAT"]);
    // only one A in hand, two needed
    let hand = hand_of(&['C', 'A', 'T']);
    let placement = vec![(4usize, 5usize, 'C'), (5, 5, 'A'), (6, 5, 'A')];
    let r = validate_move(&board, &hand, &placement, &dict);
    assert!(matches!(r, Err(MoveError::LetterNotInHand)));
}

#[test]
fn scattered_tiles_are_not_in_line() {
    let board = Board::new(11, 11);
    let dict = dict_of(&["CAT"]);
    let hand = hand_of(&['C', 'A', 'T']);
    // a gap between A and T with nothing filling it
    let placement = vec![(4usize, 5usize, 'C'), (5, 5, 'A'), (7, 5, 'T')];
    let r = validate_move(&board, &hand, &placement, &dict);
    assert!(matches!(r, Err(MoveError::NotInLine)));
    // not collinear at all
    let placement2 = vec![(4usize, 5usize, 'C'), (5, 6, 'A')];
    let r2 = validate_move(&board, &hand, &placement2, &dict);
    assert!(matches!(r2, Err(MoveError::NotInLine)));
}

#[test]
fn candidate_off_the_grid_is_out_of_bounds() {
    let board = Board::new(11, 11);
    let hand = hand_of(&['C', 'A']);
    let dict = dict_of(&["CA"]);
    let placement = vec![(10usize, 5usize, 'C'), (11, 5, 'A')];
    let r = validate_move(&board, &hand, &placement, &dict);
    assert!(matches!(r, Err(MoveError::OutOfBounds)));
}

#[test]
fn candidate_on_a_taken_cell_is_occupied() {
    let mut board = Board::new(11, 11);
    board.place(5, 5, 'Q').unwrap();
    let hand = hand_of(&['C', 'A']);
    let dict = dict_of(&["CA"]);
    let placement = vec![(5usize, 5usize, 'C')];
    let r = validate_move(&board, &hand, &placement, &dict);
    assert!(matches!(r, Err(MoveError::CellOccupied)));
    // two candidates claiming one cell collide the same way
    let board2 = Board::new(11, 11);
    let placement2 = vec![(5usize, 5usize, 'C'), (5, 5, 'A')];
    let r2 = validate_move(&board2, &hand, &placement2, &dict);
    assert!(matches!(r2, Err(MoveError::CellOccupied)));
}

#[test]
fn empty_placement_is_not_a_line() {
    let board = Board::new(11, 11);
    let hand = hand_of(&['C']);
    let dict = dict_of(&["CAT"]);
    let placement: Vec<(usize, usize, char)> = Vec::new();
    let r = validate_move(&board, &hand, &placement, &dict);
    assert!(matches!(r, Err(MoveError::NotInLine)));
}

#[test]
fn score_applies_fresh_multipliers_once() {
    let mut board = Board::new(11, 11);
    board.add_bonus(4, 5, Multiplier::DoubleLetter).unwrap();
    board.add_bonus(6, 5, Multiplier::TripleWord).unwrap();
    let dict = dict_of(&["CAT"]);
    let hand = hand_of(&['C', 'A', 'T']);
    let values = vec![('C', 3u16), ('A', 1), ('T', 1)];
    let placement = vec![(4usize, 5usize, 'C'), (5, 5, 'A'), (6, 5, 'T')];
    let out = play_move(&mut board, &hand, &placement, &dict, &values).unwrap();
    // (3 doubled) + 1 + 1 = 8, tripled by the word bonus
    assert_eq!(out.score, 24);
}

#[test]
fn covered_bonus_does_not_retrigger() {
    let mut board = Board::new(11, 11);
    board.add_bonus(6, 5, Multiplier::TripleWord).unwrap();
    let dict = dict_of(&["CAT", "TS"]);
    let hand = hand_of(&['C', 'A', 'T']);
    let values = vec![('C', 3u16), ('A', 1), ('T', 1), ('S', 1)];
    let placement = vec![(4usize, 5usize, 'C'), (5, 5, 'A'), (6, 5, 'T')];
    let out = play_move(&mut board, &hand, &placement, &dict, &values).unwrap();
    assert_eq!(out.score, 15);
    // TS runs through the already covered bonus cell: no tripling now
    let hand2 = hand_of(&['S']);
    let second = vec![(6usize, 6usize, 'S')];
    let out2 = play_move(&mut board, &hand2, &second, &dict, &values).unwrap();
    assert_eq!(out2.score, 2);
}

#[test]
fn score_without_bonuses_sums_letter_values() {
    let board = Board::new(11, 11);
    let placement = vec![(4usize, 5usize, 'C'), (5, 5, 'A'), (6, 5, 'T')];
    let words = vec![placement.clone()];
    let values = vec![('C', 3u16), ('A', 1), ('T', 1)];
    assert_eq!(score_move(&board, &placement, &words, &values), 5);
    // an unlisted letter is worth one point
    assert_eq!(score_move(&board, &placement, &words, &Vec::new()), 3);
}

#[test]
fn hand_consumes_and_draws() {
    let hand = hand_of(&['A', 'B', 'A']);
    let rest = hand.remove_letters(&vec!['A', 'A']).unwrap();
    assert_eq!(rest.letters(), &vec!['B']);
    assert!(hand.remove_letters(&vec!['A', 'A', 'A']).is_none());
    assert!(hand.remove_letters(&vec!['Z']).is_none());
    let mut h = hand_of(&['A', 'B', 'C', 'D', 'E', 'F']);
    assert!(h.draw('G'));
    assert_eq!(h.len(), 7);
    assert!(!h.draw('H'));
    assert_eq!(h.len(), 7);
}

#[test]
fn render_shows_frame_letters_and_bonuses() {
    let mut board = Board::new(3, 2);
    board.add_bonus(2, 0, Multiplier::DoubleLetter).unwrap();
    board.place(0, 0, 'a').unwrap();
    let text = board.render();
    assert_eq!(text, "-----\n|a *|\n|   |\n-----\n");
}

#[test]
fn render_empty_board_is_blank_frame() {
    let board = Board::new(11, 11);
    let mut expected = String::new();
    expected.push_str("-------------\n");
    for _ in 0..11 {
        expected.push_str("|           |\n");
    }
    expected.push_str("-------------\n");
    assert_eq!(board.render(), expected);
}
