//! The board itself: 25 cells, each a number with an optional highlight
//! color, plus the currently selected color. Toggling, regeneration and
//! color selection live here.

use crate::sampler::generate_board;
use crate::BingoError;
use vstd::prelude::*;

verus! {

/// One board position: its number and, when highlighted, its color.
#[derive(Clone, Debug, PartialEq)]
pub struct CellState {
    pub number: u8,
    pub color: Option<String>,
}

/// Mathematical image of a cell: the number as an integer, the highlight
/// as an optional sequence of characters.
#[verifier::ext_equal]
pub struct CellModel {
    pub number: int,
    pub color: Option<Seq<char>>,
}

impl View for CellState {
    type V = CellModel;

    open spec fn view(&self) -> CellModel {
        CellModel {
            number: self.number as int,
            color: match self.color {
                Some(c) => Some(c@),
                None => None,
            },
        }
    }
}

/// The model of a run of cells, element by element.
pub open spec fn cells_view(cells: Seq<CellState>) -> Seq<CellModel> {
    cells.map_values(|c: CellState| c@)
}

/// The whole board: the 25 cells in display order, and the color that the
/// next highlight will use.
#[derive(Clone, Debug, PartialEq)]
pub struct BoardState {
    pub cells: Vec<CellState>,
    pub active_color: String,
}

/// Mathematical image of the board.
#[verifier::ext_equal]
pub struct BoardModel {
    pub cells: Seq<CellModel>,
    pub active_color: Seq<char>,
}

impl View for BoardState {
    type V = BoardModel;

    open spec fn view(&self) -> BoardModel {
        BoardModel {
            cells: cells_view(self.cells@),
            active_color: self.active_color@,
        }
    }
}

/// A valid run of cells: exactly 25, numbers pairwise distinct and each in
/// `1..=75`.
pub open spec fn wf_cells(cells: Seq<CellModel>) -> bool {
    &&& cells.len() == crate::BOARD_CELLS as int
    &&& forall|i: int|
        0 <= i < cells.len() ==> 1 <= (#[trigger] cells[i]).number <= crate::MAX_NUMBER as int
    &&& forall|i: int, j: int|
        0 <= i < j < cells.len() ==> cells[i].number != cells[j].number
}

impl BoardModel {
    /// The board's invariant: valid cells and a non-empty selected color.
    pub open spec fn wf(self) -> bool {
        &&& wf_cells(self.cells)
        &&& self.active_color.len() > 0
    }
}

/// What one toggle does to a cell: a set highlight is cleared; a clear one
/// is set to the selected color. The number never changes.
pub open spec fn toggled(c: CellModel, active: Seq<char>) -> CellModel {
    CellModel {
        number: c.number,
        color: match c.color {
            Some(_) => None,
            None => Some(active),
        },
    }
}

/// Toggling a cell twice, with no color change in between, returns it to
/// its original value — as long as a highlight that is already set is the
/// selected color (clearing and re-setting a foreign color paints it over
/// with the selected one instead).
pub proof fn lemma_toggle_twice(c: CellModel, active: Seq<char>)
    requires
        c.color matches Some(col) ==> col == active,
    ensures
        toggled(toggled(c, active), active) == c,
{
    assert(toggled(toggled(c, active), active) =~= c);
}

/// Toggling the same cell twice in a row, with no color change in
/// between, leaves the board's cells exactly as they were — provided the
/// cell's highlight, where one is set, is the selected color (a foreign
/// highlight is painted over with the selected color instead). The
/// left-hand side below is precisely what two toggles of `index` leave
/// behind.
pub proof fn lemma_toggle_cell_twice(m: BoardModel, index: int)
    requires
        0 <= index < m.cells.len(),
        m.cells[index].color matches Some(col) ==> col == m.active_color,
    ensures
        m.cells.update(index, toggled(m.cells[index], m.active_color)).update(
            index,
            toggled(
                m.cells.update(index, toggled(m.cells[index], m.active_color))[index],
                m.active_color,
            ),
        ) == m.cells,
{
    lemma_toggle_twice(m.cells[index], m.active_color);
    assert(m.cells.update(index, toggled(m.cells[index], m.active_color)).update(
        index,
        toggled(
            m.cells.update(index, toggled(m.cells[index], m.active_color))[index],
            m.active_color,
        ),
    ) =~= m.cells);
}

/// Wrap fresh numbers into unhighlighted cells.
fn cells_from_numbers(numbers: Vec<u8>) -> (r: Vec<CellState>)
    ensures
        r@.len() == numbers@.len(),
        forall|i: int|
            0 <= i < numbers@.len() ==> (#[trigger] cells_view(r@)[i])
                == (CellModel { number: numbers@[i] as int, color: None }),
{
    let mut cells: Vec<CellState> = Vec::new();
    let mut idx: usize = 0;
    while idx < numbers.len()
        invariant
            idx <= numbers@.len(),
            cells@.len() == idx,
            forall|i: int|
                0 <= i < idx ==> (#[trigger] cells_view(cells@)[i])
                    == (CellModel { number: numbers@[i] as int, color: None }),
        decreases numbers@.len() - idx,
    {
        let n = numbers[idx];
        let ghost prev = cells@;
        cells.push(CellState { number: n, color: None });
        proof {
            assert forall|i: int|
                0 <= i < idx + 1 implies (#[trigger] cells_view(cells@)[i]) == (CellModel {
                number: numbers@[i] as int,
                color: None,
            }) by {
                if i < idx {
                    assert(cells_view(prev)[i] == (CellModel {
                        number: numbers@[i] as int,
                        color: None,
                    }));
                    assert(cells@[i] == prev[i]);
                } else {
                    assert(cells@[i] == (CellState { number: n, color: None }));
                }
                assert(cells_view(cells@)[i] == cells@[i]@);
            }
        }
        idx = idx + 1;
    }
    cells
}

impl BoardState {
    /// A fresh board: 25 random cells, nothing highlighted, and the
    /// default gold color selected.
    pub fn new() -> (r: BoardState)
        ensures
            r@.wf(),
            forall|i: int| 0 <= i < r@.cells.len() ==> (#[trigger] r@.cells[i]).color is None,
            r@.active_color == "#ffd700"@,
    {
        proof {
            reveal_strlit("#ffd700");
        }
        let numbers = generate_board();
        let cells = cells_from_numbers(numbers);
        BoardState { cells, active_color: "#ffd700".to_owned() }
    }

    /// Toggle the highlight of the cell at `index`: clear it if set, set
    /// it to the selected color if clear. An index at or beyond the edge
    /// is refused and leaves the board untouched.
    pub fn toggle_cell(&mut self, index: usize) -> (r: Result<(), BingoError>)
        requires
            old(self)@.wf(),
        ensures
            final(self)@.wf(),
            index < crate::BOARD_CELLS ==> r == Ok::<(), BingoError>(())
                && final(self)@.active_color == old(self)@.active_color
                && final(self)@.cells == old(self)@.cells.update(
                index as int,
                toggled(old(self)@.cells[index as int], old(self)@.active_color),
            ),
            index >= crate::BOARD_CELLS ==> r == Err::<(), BingoError>(BingoError::IndexOutOfRange)
                && final(self)@ == old(self)@,
    {
        if index >= self.cells.len() {
            return Err(BingoError::IndexOutOfRange);
        }
        let new_color: Option<String> = match &self.cells[index].color {
            Some(_) => None,
            None => Some(self.active_color.clone()),
        };
        let number = self.cells[index].number;
        self.cells.set(index, CellState { number, color: new_color });
        proof {
            assert(self@.cells =~= old(self)@.cells.update(
                index as int,
                toggled(old(self)@.cells[index as int], old(self)@.active_color),
            ));
        }
        Ok(())
    }

    /// Throw the cells away and deal a fresh random board; every highlight
    /// is cleared and the selected color is kept.
    pub fn regenerate(&mut self)
        requires
            old(self)@.wf(),
        ensures
            final(self)@.wf(),
            final(self)@.active_color == old(self)@.active_color,
            forall|i: int|
                0 <= i < final(self)@.cells.len() ==> (#[trigger] final(self)@.cells[i]).color
                    is None,
    {
        let numbers = generate_board();
        let cells = cells_from_numbers(numbers);
        self.cells = cells;
    }

    /// Does this board satisfy its invariant? Callers outside verified
    /// code can test this before handing a board to an operation that
    /// expects a valid one.
    pub fn is_valid(&self) -> (r: bool)
        ensures
            r == self@.wf(),
    {
        if self.cells.len() != crate::BOARD_CELLS {
            return false;
        }
        let mut i: usize = 0;
        while i < self.cells.len()
            invariant
                i <= self@.cells.len(),
                self@.cells.len() == self.cells.len(),
                forall|j: int|
                    0 <= j < i ==> 1 <= (#[trigger] self@.cells[j]).number
                        <= crate::MAX_NUMBER as int,
            decreases self@.cells.len() - i,
        {
            let n = self.cells[i].number;
            if n < 1 || n > crate::MAX_NUMBER {
                proof {
                    assert(self@.cells[i as int].number == n as int);
                }
                return false;
            }
            i = i + 1;
        }
        if !crate::codec::distinct_numbers(&self.cells) {
            return false;
        }
        if self.active_color.as_str().is_empty() {
            return false;
        }
        true
    }

    /// Select the color that the next highlights will use. An empty color
    /// is refused and leaves the board untouched; nothing stricter is
    /// asked of the text.
    pub fn set_active_color(&mut self, color: String) -> (r: Result<(), BingoError>)
        requires
            old(self)@.wf(),
        ensures
            final(self)@.wf(),
            color@.len() > 0 ==> r == Ok::<(), BingoError>(())
                && final(self)@.active_color == color@
                && final(self)@.cells == old(self)@.cells,
            color@.len() == 0 ==> r == Err::<(), BingoError>(BingoError::InvalidArgument)
                && final(self)@ == old(self)@,
    {
        if color.as_str().is_empty() {
            return Err(BingoError::InvalidArgument);
        }
        self.active_color = color;
        Ok(())
    }
}

/// The first board of a session: the stored snapshot where one is
/// present and decodes to a valid board, and a fresh board otherwise.
pub fn create_board(stored: Option<&str>) -> (r: BoardState)
    ensures
        r@.wf(),
        (match stored {
            Some(t) => crate::codec::spec_decode(t@),
            None => None,
        }) matches Some(m) ==> r@ == m,
        (match stored {
            Some(t) => crate::codec::spec_decode(t@),
            None => None,
        }) is None ==> (forall|i: int|
            0 <= i < r@.cells.len() ==> (#[trigger] r@.cells[i]).color is None)
            && r@.active_color == "#ffd700"@,
{
    match crate::codec::load_state(stored) {
        Some(b) => b,
        None => BoardState::new(),
    }
}

} // verus!
