use bingo_board::BingoError;
use bingo_board::BoardState;
use bingo_board::CellState;
use bingo_board::generate_board;
use bingo_board::generate_sentences;
use bingo_board::sample;

fn assert_valid_numbers(numbers: &[u8]) {
    assert_eq!(numbers.len(), 25);
    for (i, &n) in numbers.iter().enumerate() {
        assert!((1..=75).contains(&n), "number {} out of range", n);
        for &m in &numbers[i + 1..] {
            assert_ne!(n, m, "duplicate number {}", n);
        }
    }
}

fn state_with_numbers_1_to_25() -> BoardState {
    let cells = (1..=25u8)
        .map(|number| CellState {
            number,
            color: None,
        })
        .collect();
    BoardState {
        cells,
        active_color: "#ff0000".to_string(),
    }
}

#[test]
fn generated_board_has_25_distinct_numbers_in_range() {
    let numbers = generate_board();
    assert_valid_numbers(&numbers);
}

#[test]
fn repeated_generation_always_yields_valid_boards() {
    for _ in 0..20 {
        assert_valid_numbers(&generate_board());
    }
}

#[test]
fn sample_rejects_count_above_domain() {
    assert_eq!(sample(5, 10), Err(BingoError::InvalidArgument));
    assert_eq!(sample(0, 1), Err(BingoError::InvalidArgument));
}

#[test]
fn sample_of_whole_domain_is_a_permutation() {
    let drawn = sample(10, 10).unwrap();
    let mut sorted = drawn.clone();
    sorted.sort();
    assert_eq!(sorted, (1..=10u8).collect::<Vec<u8>>());
}

#[test]
fn sample_of_nothing_is_empty() {
    assert_eq!(sample(10, 0).unwrap(), Vec::<u8>::new());
}

#[test]
fn fresh_board_is_valid_and_unhighlighted() {
    let board = BoardState::new();
    let numbers: Vec<u8> = board.cells.iter().map(|c| c.number).collect();
    assert_valid_numbers(&numbers);
    assert!(board.cells.iter().all(|c| c.color.is_none()));
    assert_eq!(board.active_color, "#ffd700");
}

#[test]
fn toggle_sets_then_clears_the_active_color() {
    let mut board = state_with_numbers_1_to_25();
    assert_eq!(board.toggle_cell(7), Ok(()));
    assert_eq!(board.cells[7].color.as_deref(), Some("#ff0000"));
    assert_eq!(board.toggle_cell(7), Ok(()));
    assert_eq!(board.cells[7].color, None);
}

#[test]
fn toggle_twice_restores_the_original_board() {
    let mut board = state_with_numbers_1_to_25();
    let original = board.clone();
    assert_eq!(board.toggle_cell(0), Ok(()));
    assert_eq!(board.toggle_cell(0), Ok(()));
    assert_eq!(board, original);
}

#[test]
fn toggle_out_of_range_is_refused_and_changes_nothing() {
    let mut board = state_with_numbers_1_to_25();
    let original = board.clone();
    assert_eq!(board.toggle_cell(25), Err(BingoError::IndexOutOfRange));
    assert_eq!(board.toggle_cell(1000), Err(BingoError::IndexOutOfRange));
    assert_eq!(board, original);
}

#[test]
fn toggle_leaves_other_cells_alone() {
    let mut board = state_with_numbers_1_to_25();
    let original = board.clone();
    assert_eq!(board.toggle_cell(3), Ok(()));
    for i in 0..25 {
        if i != 3 {
            assert_eq!(board.cells[i], original.cells[i]);
        }
    }
}

#[test]
fn set_active_color_updates_only_the_color() {
    let mut board = state_with_numbers_1_to_25();
    let cells_before = board.cells.clone();
    assert_eq!(board.set_active_color("#00ff00".to_string()), Ok(()));
    assert_eq!(board.active_color, "#00ff00");
    assert_eq!(board.cells, cells_before);
}

#[test]
fn set_active_color_rejects_empty_text() {
    let mut board = state_with_numbers_1_to_25();
    let original = board.clone();
    assert_eq!(
        board.set_active_color(String::new()),
        Err(BingoError::InvalidArgument)
    );
    assert_eq!(board, original);
}

#[test]
fn regenerate_deals_a_fresh_unhighlighted_board() {
    let mut board = state_with_numbers_1_to_25();
    board.toggle_cell(0).unwrap();
    board.regenerate();
    let numbers: Vec<u8> = board.cells.iter().map(|c| c.number).collect();
    assert_valid_numbers(&numbers);
    assert!(board.cells.iter().all(|c| c.color.is_none()));
    assert_eq!(board.active_color, "#ff0000");
}

#[test]
fn sentences_cover_every_number() {
    let sentences = generate_sentences();
    assert_eq!(sentences.len(), 75);
    assert_eq!(sentences[0], "This is sentence number 1.");
    assert_eq!(sentences[8], "This is sentence number 9.");
    assert_eq!(sentences[9], "This is sentence number 10.");
    assert_eq!(sentences[74], "This is sentence number 75.");
    for (i, sentence) in sentences.iter().enumerate() {
        assert_eq!(*sentence, format!("This is sentence number {}.", i + 1));
    }
}
