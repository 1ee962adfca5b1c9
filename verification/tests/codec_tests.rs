use bingo_board::BoardState;
use bingo_board::CellState;
use bingo_board::create_board;
use bingo_board::load_state;
use bingo_board::save_state;

fn state_1_to_25(colors: &[(usize, &str)], active: &str) -> BoardState {
    let mut cells: Vec<CellState> = (1..=25u8)
        .map(|number| CellState {
            number,
            color: None,
        })
        .collect();
    for &(index, color) in colors {
        cells[index].color = Some(color.to_string());
    }
    BoardState {
        cells,
        active_color: active.to_string(),
    }
}

#[test]
fn round_trip_of_an_unhighlighted_board() {
    let state = state_1_to_25(&[], "#ff0000");
    let text = save_state(&state);
    assert_eq!(load_state(Some(text.as_str())), Some(state));
}

#[test]
fn round_trip_keeps_highlights_and_their_order() {
    let state = state_1_to_25(&[(0, "#00ff00"), (7, "#123456"), (24, "gold")], "#abcdef");
    let text = save_state(&state);
    assert_eq!(load_state(Some(text.as_str())), Some(state));
}

#[test]
fn round_trip_of_colors_with_delimiter_characters() {
    let state = state_1_to_25(
        &[(2, "a;b"), (3, "back\\slash"), (4, ";;\\;"), (5, "")],
        "odd;color\\",
    );
    let text = save_state(&state);
    assert_eq!(load_state(Some(text.as_str())), Some(state));
}

#[test]
fn round_trip_of_a_fresh_board() {
    let state = BoardState::new();
    let text = save_state(&state);
    assert_eq!(load_state(Some(text.as_str())), Some(state));
}

#[test]
fn snapshot_text_is_the_documented_format() {
    let state = state_1_to_25(&[(2, "a;b\\c")], "#f00");
    let mut expected = String::from("#f00;");
    for n in 1..=25 {
        expected.push_str(&format!("{:02}", n));
        if n == 3 {
            expected.push_str("+a\\;b\\\\c;");
        } else {
            expected.push('-');
        }
    }
    assert_eq!(save_state(&state), expected);
}

#[test]
fn loading_a_missing_slot_yields_no_state() {
    assert_eq!(load_state(None), None);
}

#[test]
fn loading_foreign_or_corrupted_text_yields_no_state() {
    for text in [
        "",
        ";",
        "hello world",
        "{\"cells\":[{\"number\":1,\"color\":null}]}",
        "#ff0000;",
        "#ff0000;01-02-03-",
        "#ff0000",
        "\\",
    ] {
        assert_eq!(load_state(Some(text)), None, "accepted {:?}", text);
    }
}

#[test]
fn loading_a_truncated_snapshot_yields_no_state() {
    let text = save_state(&state_1_to_25(&[(1, "#00ff00")], "#ff0000"));
    for cut in 0..text.len() {
        if text.is_char_boundary(cut) {
            assert_eq!(load_state(Some(&text[..cut])), None);
        }
    }
}

#[test]
fn loading_a_snapshot_with_trailing_text_yields_no_state() {
    let mut text = save_state(&state_1_to_25(&[], "#ff0000"));
    text.push('x');
    assert_eq!(load_state(Some(text.as_str())), None);
}

#[test]
fn loading_duplicate_numbers_yields_no_state() {
    let mut text = String::from("#ff0000;");
    for n in 1..=24 {
        text.push_str(&format!("{:02}-", n));
    }
    text.push_str("01-");
    assert_eq!(load_state(Some(text.as_str())), None);
}

#[test]
fn loading_out_of_range_numbers_yields_no_state() {
    for bad in ["00", "76", "99"] {
        let mut text = String::from("#ff0000;");
        text.push_str(bad);
        text.push('-');
        for n in 2..=25 {
            text.push_str(&format!("{:02}-", n));
        }
        assert_eq!(load_state(Some(text.as_str())), None, "accepted number {}", bad);
    }
}

#[test]
fn loading_an_empty_selected_color_yields_no_state() {
    let mut text = String::from(";");
    for n in 1..=25 {
        text.push_str(&format!("{:02}-", n));
    }
    assert_eq!(load_state(Some(text.as_str())), None);
}

#[test]
fn create_board_prefers_the_stored_snapshot() {
    let state = state_1_to_25(&[(4, "#00ff00")], "#ff0000");
    let text = save_state(&state);
    assert_eq!(create_board(Some(text.as_str())), state);
}

#[test]
fn create_board_falls_back_to_a_fresh_board() {
    for stored in [None, Some("not a snapshot")] {
        let board = create_board(stored);
        assert_eq!(board.cells.len(), 25);
        assert!(board.cells.iter().all(|c| c.color.is_none()));
        assert_eq!(board.active_color, "#ffd700");
    }
}

#[test]
fn persisted_scenario_toggle_toggle_regenerate() {
    let persisted = save_state(&state_1_to_25(&[], "#ff0000"));
    let mut board = create_board(Some(persisted.as_str()));
    assert_eq!(board.active_color, "#ff0000");

    assert_eq!(board.toggle_cell(0), Ok(()));
    assert_eq!(board.cells[0].color.as_deref(), Some("#ff0000"));

    assert_eq!(board.toggle_cell(0), Ok(()));
    assert_eq!(board.cells[0].color, None);

    board.regenerate();
    assert_eq!(board.cells.len(), 25);
    assert!(board.cells.iter().all(|c| c.color.is_none()));
    let numbers: Vec<u8> = board.cells.iter().map(|c| c.number).collect();
    for (i, &n) in numbers.iter().enumerate() {
        assert!((1..=75).contains(&n));
        for &m in &numbers[i + 1..] {
            assert_ne!(n, m);
        }
    }
}
