//! The snapshot text format: one canonical encoding of a board into a
//! string for the storage slot, and a total decoder that accepts exactly
//! the encodings of valid boards and answers "no state" to everything
//! else.
//!
//! The snapshot deliberately carries the selected color along with the
//! cells, so the color picker survives a reload too.
//!
//! The format: the selected color, escaped and closed by `;`, then the 25
//! cells in order. A cell is its number as two digits (a leading zero for
//! one-digit numbers), then `-` for no highlight, or `+` and the highlight
//! color, escaped and closed by `;`. Inside a color, `;` and `\` are each
//! preceded by `\`.

use crate::board::cells_view;
use crate::board::wf_cells;
use crate::board::BoardModel;
use crate::board::BoardState;
use crate::board::CellModel;
use crate::board::CellState;
use vstd::prelude::*;

verus! {

/// The character for one decimal digit.
pub open spec fn digit_char(d: int) -> char {
    if d == 0 {
        '0'
    } else if d == 1 {
        '1'
    } else if d == 2 {
        '2'
    } else if d == 3 {
        '3'
    } else if d == 4 {
        '4'
    } else if d == 5 {
        '5'
    } else if d == 6 {
        '6'
    } else if d == 7 {
        '7'
    } else if d == 8 {
        '8'
    } else {
        '9'
    }
}

/// The value of a decimal digit character, or -1 for any other character.
pub open spec fn digit_val(c: char) -> int {
    if c == '0' {
        0
    } else if c == '1' {
        1
    } else if c == '2' {
        2
    } else if c == '3' {
        3
    } else if c == '4' {
        4
    } else if c == '5' {
        5
    } else if c == '6' {
        6
    } else if c == '7' {
        7
    } else if c == '8' {
        8
    } else if c == '9' {
        9
    } else {
        -1
    }
}

/// One character of a color, escaped: `;` and `\` get a `\` in front.
pub open spec fn esc_char(c: char) -> Seq<char> {
    if c == ';' || c == '\\' {
        seq!['\\', c]
    } else {
        seq![c]
    }
}

/// A color's characters, each escaped.
pub open spec fn esc(s: Seq<char>) -> Seq<char>
    decreases s.len(),
{
    if s.len() == 0 {
        Seq::empty()
    } else {
        esc_char(s[0]) + esc(s.drop_first())
    }
}

/// A color field: the escaped characters, closed by `;`.
pub open spec fn enc_str(s: Seq<char>) -> Seq<char> {
    esc(s) + seq![';']
}

/// Read a color field off the front of `t`: the unescaped color and the
/// rest of the text, or nothing if no well-formed field starts `t`.
pub open spec fn parse_str(t: Seq<char>) -> Option<(Seq<char>, Seq<char>)>
    decreases t.len(),
{
    if t.len() == 0 {
        None
    } else if t[0] == ';' {
        Some((Seq::empty(), t.drop_first()))
    } else if t[0] == '\\' {
        if t.len() >= 2 && (t[1] == ';' || t[1] == '\\') {
            match parse_str(t.skip(2)) {
                Some(p) => Some((seq![t[1]] + p.0, p.1)),
                None => None,
            }
        } else {
            None
        }
    } else {
        match parse_str(t.drop_first()) {
            Some(p) => Some((seq![t[0]] + p.0, p.1)),
            None => None,
        }
    }
}

/// A color field parses back to the color it was made from, whatever
/// follows it.
pub proof fn lemma_parse_enc_str(s: Seq<char>, rest: Seq<char>)
    ensures
        parse_str(enc_str(s) + rest) == Some((s, rest)),
    decreases s.len(),
{
    let t = enc_str(s) + rest;
    if s.len() == 0 {
        assert(t[0] == ';');
        assert(t.drop_first() =~= rest);
        assert(s =~= Seq::<char>::empty());
    } else {
        let c = s[0];
        lemma_parse_enc_str(s.drop_first(), rest);
        assert(esc(s) == esc_char(c) + esc(s.drop_first()));
        if c == ';' || c == '\\' {
            assert(t[0] == '\\');
            assert(t[1] == c);
            assert(t.len() >= 2);
            assert(t.skip(2) =~= enc_str(s.drop_first()) + rest);
            assert(seq![t[1]] + s.drop_first() =~= s);
        } else {
            assert(t[0] == c);
            assert(t.drop_first() =~= enc_str(s.drop_first()) + rest);
            assert(seq![t[0]] + s.drop_first() =~= s);
        }
    }
}

/// Whatever a color field parses to, re-encoding it gives back exactly
/// the text that was read.
pub proof fn lemma_parse_str_sound(t: Seq<char>)
    ensures
        parse_str(t) matches Some(p) ==> enc_str(p.0) + p.1 == t,
    decreases t.len(),
{
    if t.len() == 0 {
    } else if t[0] == ';' {
        match parse_str(t) {
            Some(p) => {
                assert(esc(p.0) =~= Seq::<char>::empty());
                assert(enc_str(p.0) + p.1 =~= t);
            },
            None => {},
        }
    } else if t[0] == '\\' {
        if t.len() >= 2 && (t[1] == ';' || t[1] == '\\') {
            lemma_parse_str_sound(t.skip(2));
            match parse_str(t.skip(2)) {
                Some(q) => {
                    let s = seq![t[1]] + q.0;
                    assert(s[0] == t[1]);
                    assert(s.drop_first() =~= q.0);
                    assert(esc(s) == esc_char(t[1]) + esc(q.0));
                    assert(enc_str(s) + q.1 =~= seq!['\\', t[1]] + (enc_str(q.0) + q.1));
                    assert(seq!['\\', t[1]] + t.skip(2) =~= t);
                    assert(enc_str(s) + q.1 == t);
                },
                None => {},
            }
        }
    } else {
        lemma_parse_str_sound(t.drop_first());
        match parse_str(t.drop_first()) {
            Some(q) => {
                let s = seq![t[0]] + q.0;
                assert(s[0] == t[0]);
                assert(s.drop_first() =~= q.0);
                assert(esc(s) == esc_char(t[0]) + esc(q.0));
                assert(enc_str(s) + q.1 =~= seq![t[0]] + (enc_str(q.0) + q.1));
                assert(seq![t[0]] + t.drop_first() =~= t);
                assert(enc_str(s) + q.1 == t);
            },
            None => {},
        }
    }
}

/// A cell's number as exactly two digits, `01` through `75`.
pub open spec fn enc_num(n: int) -> Seq<char> {
    seq![digit_char(n / 10), digit_char(n % 10)]
}

/// One cell: its two-digit number, then `-` for no highlight or `+` and
/// the highlight color as a color field.
pub open spec fn enc_cell(c: CellModel) -> Seq<char> {
    enc_num(c.number) + match c.color {
        None => seq!['-'],
        Some(col) => seq!['+'] + enc_str(col),
    }
}

/// A run of cells, in order.
pub open spec fn enc_cells(cs: Seq<CellModel>) -> Seq<char>
    decreases cs.len(),
{
    if cs.len() == 0 {
        Seq::empty()
    } else {
        enc_cell(cs[0]) + enc_cells(cs.drop_first())
    }
}

/// Read one cell off the front of `t`. A number outside `1..=75` is
/// refused here, so only cells a valid board could hold come back.
pub open spec fn parse_cell(t: Seq<char>) -> Option<(CellModel, Seq<char>)> {
    if t.len() < 3 {
        None
    } else if digit_val(t[0]) < 0 || digit_val(t[1]) < 0 {
        None
    } else {
        let n = 10 * digit_val(t[0]) + digit_val(t[1]);
        if !(1 <= n <= crate::MAX_NUMBER as int) {
            None
        } else if t[2] == '-' {
            Some((CellModel { number: n, color: None }, t.skip(3)))
        } else if t[2] == '+' {
            match parse_str(t.skip(3)) {
                Some(p) => Some((CellModel { number: n, color: Some(p.0) }, p.1)),
                None => None,
            }
        } else {
            None
        }
    }
}

/// Read `k` cells off the front of `t`.
pub open spec fn parse_cells(t: Seq<char>, k: nat) -> Option<(Seq<CellModel>, Seq<char>)>
    decreases k,
{
    if k == 0 {
        Some((Seq::empty(), t))
    } else {
        match parse_cell(t) {
            Some(p) => match parse_cells(p.1, (k - 1) as nat) {
                Some(q) => Some((seq![p.0] + q.0, q.1)),
                None => None,
            },
            None => None,
        }
    }
}

/// An encoded cell parses back to itself, whatever follows it.
pub proof fn lemma_parse_enc_cell(c: CellModel, rest: Seq<char>)
    requires
        1 <= c.number <= crate::MAX_NUMBER as int,
    ensures
        parse_cell(enc_cell(c) + rest) == Some((c, rest)),
{
    let t = enc_cell(c) + rest;
    let n = c.number;
    assert(0 <= n / 10 <= 9 && 0 <= n % 10 <= 9);
    assert(t[0] == digit_char(n / 10));
    assert(t[1] == digit_char(n % 10));
    assert(digit_val(t[0]) == n / 10);
    assert(digit_val(t[1]) == n % 10);
    assert(10 * (n / 10) + n % 10 == n);
    match c.color {
        None => {
            assert(t[2] == '-');
            assert(t.skip(3) =~= rest);
            assert(parse_cell(t) == Some((c, rest)));
        },
        Some(col) => {
            assert(t[2] == '+');
            assert(t.skip(3) =~= enc_str(col) + rest);
            lemma_parse_enc_str(col, rest);
            assert(parse_cell(t) == Some((c, rest)));
        },
    }
}

/// An encoded run of cells parses back to itself, whatever follows it.
pub proof fn lemma_parse_enc_cells(cs: Seq<CellModel>, rest: Seq<char>)
    requires
        forall|i: int| 0 <= i < cs.len() ==> 1 <= (#[trigger] cs[i]).number <= crate::MAX_NUMBER as int,
    ensures
        parse_cells(enc_cells(cs) + rest, cs.len()) == Some((cs, rest)),
    decreases cs.len(),
{
    let t = enc_cells(cs) + rest;
    if cs.len() == 0 {
        assert(t =~= rest);
        assert(cs =~= Seq::<CellModel>::empty());
    } else {
        let c = cs[0];
        assert(t =~= enc_cell(c) + (enc_cells(cs.drop_first()) + rest));
        lemma_parse_enc_cell(c, enc_cells(cs.drop_first()) + rest);
        lemma_parse_enc_cells(cs.drop_first(), rest);
        assert(seq![c] + cs.drop_first() =~= cs);
    }
}

/// Whatever one cell parses to, re-encoding it gives back exactly the
/// text that was read, and its number lies in `1..=75`.
pub proof fn lemma_parse_cell_sound(t: Seq<char>)
    ensures
        parse_cell(t) matches Some(p) ==> enc_cell(p.0) + p.1 == t && 1 <= p.0.number
            <= crate::MAX_NUMBER as int,
{
    match parse_cell(t) {
        Some(p) => {
            let d1 = digit_val(t[0]);
            let d2 = digit_val(t[1]);
            let n = 10 * d1 + d2;
            assert(digit_char(d1) == t[0]);
            assert(digit_char(d2) == t[1]);
            assert(n / 10 == d1 && n % 10 == d2) by {
                assert(0 <= d1 <= 9 && 0 <= d2 <= 9);
            }
            if t[2] == '-' {
                assert(enc_cell(p.0) + p.1 =~= t);
            } else {
                lemma_parse_str_sound(t.skip(3));
                match parse_str(t.skip(3)) {
                    Some(q) => {
                        assert(enc_cell(p.0) + p.1 =~= seq![t[0], t[1], '+'] + (enc_str(q.0)
                            + q.1));
                        assert(seq![t[0], t[1], '+'] + t.skip(3) =~= t);
                        assert(enc_cell(p.0) + p.1 == t);
                    },
                    None => {},
                }
            }
        },
        None => {},
    }
}

/// Whatever a run of `k` cells parses to, re-encoding it gives back
/// exactly the text that was read; there are `k` cells and every number
/// lies in `1..=75`.
pub proof fn lemma_parse_cells_sound(t: Seq<char>, k: nat)
    ensures
        parse_cells(t, k) matches Some(p) ==> enc_cells(p.0) + p.1 == t && p.0.len() == k && forall|
            i: int,
        | 0 <= i < p.0.len() ==> 1 <= (#[trigger] p.0[i]).number <= crate::MAX_NUMBER as int,
    decreases k,
{
    if k == 0 {
        match parse_cells(t, k) {
            Some(p) => {
                assert(enc_cells(p.0) + p.1 =~= t);
            },
            None => {},
        }
    } else {
        lemma_parse_cell_sound(t);
        match parse_cell(t) {
            Some(p) => {
                lemma_parse_cells_sound(p.1, (k - 1) as nat);
                match parse_cells(p.1, (k - 1) as nat) {
                    Some(q) => {
                        let cs = seq![p.0] + q.0;
                        assert(cs[0] == p.0);
                        assert(cs.drop_first() =~= q.0);
                        assert(enc_cells(cs) == enc_cell(p.0) + enc_cells(q.0));
                        assert(enc_cells(cs) + q.1 =~= enc_cell(p.0) + (enc_cells(q.0) + q.1));
                        assert(enc_cells(cs) + q.1 == t);
                    },
                    None => {},
                }
            },
            None => {},
        }
    }
}

/// The whole snapshot: the selected color as a color field, then the 25
/// cells.
pub open spec fn spec_encode(m: BoardModel) -> Seq<char> {
    enc_str(m.active_color) + enc_cells(m.cells)
}

/// What the decoder makes of a stored text: the board it encodes, if the
/// text is exactly the encoding of a valid board, and nothing otherwise.
pub open spec fn spec_decode(t: Seq<char>) -> Option<BoardModel> {
    match parse_str(t) {
        Some(p) => if p.0.len() == 0 {
            None
        } else {
            match parse_cells(p.1, crate::BOARD_CELLS as nat) {
                Some(q) => if q.1.len() == 0 && wf_cells(q.0) {
                    Some(BoardModel { cells: q.0, active_color: p.0 })
                } else {
                    None
                },
                None => None,
            }
        },
        None => None,
    }
}

/// Round trip: decoding the encoding of any valid board gives that very
/// board back — same cells, same highlights, same order, same selected
/// color.
pub proof fn lemma_round_trip(m: BoardModel)
    requires
        m.wf(),
    ensures
        spec_decode(spec_encode(m)) == Some(m),
{
    let t = spec_encode(m);
    lemma_parse_enc_str(m.active_color, enc_cells(m.cells));
    assert(parse_str(t) == Some((m.active_color, enc_cells(m.cells))));
    lemma_parse_enc_cells(m.cells, Seq::<char>::empty());
    assert(enc_cells(m.cells) + Seq::<char>::empty() =~= enc_cells(m.cells));
    assert(parse_cells(enc_cells(m.cells), crate::BOARD_CELLS as nat) == Some(
        (m.cells, Seq::<char>::empty()),
    ));
    assert(spec_decode(t) == Some(BoardModel { cells: m.cells, active_color: m.active_color }));
    assert(BoardModel { cells: m.cells, active_color: m.active_color } =~= m);
}

/// The decoder accepts nothing but encodings: whenever it returns a
/// board, that board is valid and its encoding is exactly the text that
/// was read. Foreign or corrupted text that is not such an encoding is
/// answered with nothing.
pub proof fn lemma_decode_sound(t: Seq<char>, m: BoardModel)
    requires
        spec_decode(t) == Some(m),
    ensures
        m.wf(),
        spec_encode(m) == t,
{
    lemma_parse_str_sound(t);
    match parse_str(t) {
        Some(p) => {
            lemma_parse_cells_sound(p.1, crate::BOARD_CELLS as nat);
            match parse_cells(p.1, crate::BOARD_CELLS as nat) {
                Some(q) => {
                    assert(enc_cells(q.0) + q.1 == p.1);
                    assert(enc_cells(q.0) + q.1 =~= enc_cells(q.0));
                    assert(spec_encode(m) == enc_str(p.0) + enc_cells(q.0));
                },
                None => {},
            }
        },
        None => {},
    }
}

/// Escaping a color one character longer escapes the new character at
/// the end.
proof fn lemma_esc_push(s: Seq<char>, c: char)
    ensures
        esc(s.push(c)) == esc(s) + esc_char(c),
    decreases s.len(),
{
    if s.len() == 0 {
        assert(s =~= Seq::<char>::empty());
        assert(s.push(c)[0] == c);
        assert(s.push(c).drop_first() =~= Seq::<char>::empty());
        assert(esc(s.push(c)) == esc_char(c) + esc(Seq::<char>::empty()));
        assert(esc(Seq::<char>::empty()) =~= Seq::<char>::empty());
        assert(esc_char(c) + Seq::<char>::empty() =~= esc_char(c));
        assert(esc(s) + esc_char(c) =~= esc_char(c));
    } else {
        lemma_esc_push(s.drop_first(), c);
        assert(s.push(c)[0] == s[0]);
        assert(s.push(c).drop_first() =~= s.drop_first().push(c));
        assert(esc(s.push(c)) == esc_char(s[0]) + esc(s.drop_first().push(c)));
        assert(esc_char(s[0]) + (esc(s.drop_first()) + esc_char(c)) =~= (esc_char(s[0]) + esc(
            s.drop_first(),
        )) + esc_char(c));
        assert(esc(s.push(c)) == esc(s) + esc_char(c));
    }
}

/// Encoding one more cell appends its encoding at the end.
proof fn lemma_enc_cells_push(cs: Seq<CellModel>, c: CellModel)
    ensures
        enc_cells(cs.push(c)) == enc_cells(cs) + enc_cell(c),
    decreases cs.len(),
{
    if cs.len() == 0 {
        assert(cs =~= Seq::<CellModel>::empty());
        assert(cs.push(c)[0] == c);
        assert(cs.push(c).drop_first() =~= Seq::<CellModel>::empty());
        assert(enc_cells(cs.push(c)) == enc_cell(c) + enc_cells(Seq::<CellModel>::empty()));
        assert(enc_cells(Seq::<CellModel>::empty()) =~= Seq::<char>::empty());
        assert(enc_cell(c) + Seq::<char>::empty() =~= enc_cell(c));
        assert(enc_cells(cs) + enc_cell(c) =~= enc_cell(c));
    } else {
        lemma_enc_cells_push(cs.drop_first(), c);
        assert(cs.push(c)[0] == cs[0]);
        assert(cs.push(c).drop_first() =~= cs.drop_first().push(c));
        assert(enc_cells(cs.push(c)) == enc_cell(cs[0]) + enc_cells(cs.drop_first().push(c)));
        assert(enc_cell(cs[0]) + (enc_cells(cs.drop_first()) + enc_cell(c)) =~= (enc_cell(cs[0])
            + enc_cells(cs.drop_first())) + enc_cell(c));
        assert(enc_cells(cs.push(c)) == enc_cells(cs) + enc_cell(c));
    }
}

/// Append one decimal digit character.
pub(crate) fn append_digit(out: &mut String, d: u8)
    requires
        d < 10,
    ensures
        final(out)@ == old(out)@ + seq![digit_char(d as int)],
{
    match d {
        0 => {
            proof {
                reveal_strlit("0");
            }
            out.append("0");
            assert(final(out)@ =~= old(out)@ + seq![digit_char(d as int)]);
        },
        1 => {
            proof {
                reveal_strlit("1");
            }
            out.append("1");
            assert(final(out)@ =~= old(out)@ + seq![digit_char(d as int)]);
        },
        2 => {
            proof {
                reveal_strlit("2");
            }
            out.append("2");
            assert(final(out)@ =~= old(out)@ + seq![digit_char(d as int)]);
        },
        3 => {
            proof {
                reveal_strlit("3");
            }
            out.append("3");
            assert(final(out)@ =~= old(out)@ + seq![digit_char(d as int)]);
        },
        4 => {
            proof {
                reveal_strlit("4");
            }
            out.append("4");
            assert(final(out)@ =~= old(out)@ + seq![digit_char(d as int)]);
        },
        5 => {
            proof {
                reveal_strlit("5");
            }
            out.append("5");
            assert(final(out)@ =~= old(out)@ + seq![digit_char(d as int)]);
        },
        6 => {
            proof {
                reveal_strlit("6");
            }
            out.append("6");
            assert(final(out)@ =~= old(out)@ + seq![digit_char(d as int)]);
        },
        7 => {
            proof {
                reveal_strlit("7");
            }
            out.append("7");
            assert(final(out)@ =~= old(out)@ + seq![digit_char(d as int)]);
        },
        8 => {
            proof {
                reveal_strlit("8");
            }
            out.append("8");
            assert(final(out)@ =~= old(out)@ + seq![digit_char(d as int)]);
        },
        _ => {
            proof {
                reveal_strlit("9");
            }
            out.append("9");
            assert(final(out)@ =~= old(out)@ + seq![digit_char(d as int)]);
        },
    }
}

/// Append a color as a color field: every character escaped, then `;`.
fn append_color_field(out: &mut String, s: &str)
    ensures
        final(out)@ == old(out)@ + enc_str(s@),
{
    let n = s.unicode_len();
    let mut i: usize = 0;
    while i < n
        invariant
            n as nat == s@.len(),
            i <= n,
            out@ == old(out)@ + esc(s@.take(i as int)),
        decreases n - i,
    {
        let ghost before = out@;
        let c = s.get_char(i);
        if c == ';' || c == '\\' {
            proof {
                reveal_strlit("\\");
            }
            out.append("\\");
            assert(out@ =~= before + seq!['\\']);
        }
        let piece = s.substring_char(i, i + 1);
        out.append(piece);
        proof {
            assert(piece@ =~= seq![c]);
            assert(s@.take((i + 1) as int) =~= s@.take(i as int).push(c));
            lemma_esc_push(s@.take(i as int), c);
            assert(out@ =~= old(out)@ + esc(s@.take((i + 1) as int)));
        }
        i = i + 1;
    }
    proof {
        assert(s@.take(n as int) =~= s@);
        reveal_strlit(";");
    }
    out.append(";");
    assert(final(out)@ =~= old(out)@ + enc_str(s@));
}

/// Append one cell: its two digits, then `-` or `+` and its color field.
fn append_cell(out: &mut String, cell: &CellState)
    requires
        1 <= cell.number <= crate::MAX_NUMBER,
    ensures
        final(out)@ == old(out)@ + enc_cell(cell@),
{
    append_digit(out, cell.number / 10);
    append_digit(out, cell.number % 10);
    let ghost with_num = out@;
    assert(with_num == old(out)@ + enc_num(cell@.number)) by {
        assert((cell.number / 10) as int == cell@.number / 10);
        assert((cell.number % 10) as int == cell@.number % 10);
        assert(old(out)@ + seq![digit_char(cell@.number / 10)] + seq![digit_char(
            cell@.number % 10,
        )] =~= old(out)@ + enc_num(cell@.number));
    }
    match &cell.color {
        None => {
            proof {
                reveal_strlit("-");
            }
            out.append("-");
            assert(final(out)@ =~= old(out)@ + enc_cell(cell@));
        },
        Some(col) => {
            proof {
                reveal_strlit("+");
            }
            out.append("+");
            assert(out@ =~= with_num + seq!['+']);
            append_color_field(out, col.as_str());
            assert(final(out)@ =~= old(out)@ + enc_cell(cell@));
        },
    }
}

/// Serialize a board to its snapshot text, ready for the storage slot.
/// The text is exactly the canonical encoding of the board.
pub fn save_state(state: &BoardState) -> (r: String)
    requires
        state@.wf(),
    ensures
        r@ == spec_encode(state@),
{
    let mut out = String::new();
    append_color_field(&mut out, state.active_color.as_str());
    let mut i: usize = 0;
    while i < state.cells.len()
        invariant
            state@.wf(),
            state.cells.len() == state@.cells.len(),
            i <= state.cells.len(),
            out@ == enc_str(state@.active_color) + enc_cells(state@.cells.take(i as int)),
        decreases state.cells.len() - i,
    {
        let cell = &state.cells[i];
        proof {
            assert(cell@ == state@.cells[i as int]);
        }
        append_cell(&mut out, cell);
        proof {
            assert(state@.cells.take((i + 1) as int) =~= state@.cells.take(i as int).push(
                state@.cells[i as int],
            ));
            lemma_enc_cells_push(state@.cells.take(i as int), state@.cells[i as int]);
            assert(out@ =~= enc_str(state@.active_color) + enc_cells(
                state@.cells.take((i + 1) as int),
            ));
        }
        i = i + 1;
    }
    proof {
        assert(state@.cells.take(state@.cells.len() as int) =~= state@.cells);
    }
    out
}

/// The value of one digit character, if it is one.
fn char_to_digit(c: char) -> (r: Option<u8>)
    ensures
        match r {
            Some(d) => d < 10 && digit_val(c) == d as int,
            None => digit_val(c) < 0,
        },
{
    match c {
        '0' => Some(0),
        '1' => Some(1),
        '2' => Some(2),
        '3' => Some(3),
        '4' => Some(4),
        '5' => Some(5),
        '6' => Some(6),
        '7' => Some(7),
        '8' => Some(8),
        '9' => Some(9),
        _ => None,
    }
}

/// Read a color field starting at `pos`: the unescaped color and the
/// position just past the closing `;`, matching what the parsing
/// function of the format says of the text from `pos` on.
fn parse_color(s: &str, n: usize, pos: usize) -> (r: Option<(String, usize)>)
    requires
        n as nat == s@.len(),
        pos <= n,
    ensures
        match r {
            Some(p) => pos <= p.1 <= n && parse_str(s@.skip(pos as int)) == Some(
                (p.0@, s@.skip(p.1 as int)),
            ),
            None => parse_str(s@.skip(pos as int)) is None,
        },
{
    let mut acc = String::new();
    let mut i: usize = pos;
    loop
        invariant
            n as nat == s@.len(),
            pos <= i <= n,
            parse_str(s@.skip(pos as int)) == (match parse_str(s@.skip(i as int)) {
                Some(q) => Some((acc@ + q.0, q.1)),
                None => None,
            }),
        decreases n - i,
    {
        if i >= n {
            proof {
                assert(s@.skip(i as int).len() == 0);
            }
            return None;
        }
        let c = s.get_char(i);
        proof {
            assert(s@.skip(i as int)[0] == s@[i as int]);
        }
        if c == ';' {
            proof {
                assert(s@.skip(i as int).drop_first() =~= s@.skip((i + 1) as int));
                assert(acc@ + Seq::<char>::empty() =~= acc@);
            }
            return Some((acc, i + 1));
        } else if c == '\\' {
            if i + 1 >= n {
                proof {
                    assert(s@.skip(i as int).len() < 2);
                }
                return None;
            }
            let c2 = s.get_char(i + 1);
            proof {
                assert(s@.skip(i as int)[1] == s@[(i + 1) as int]);
            }
            if c2 == ';' || c2 == '\\' {
                let ghost acc_old = acc@;
                let piece = s.substring_char(i + 1, i + 2);
                acc.append(piece);
                proof {
                    assert(piece@ =~= seq![c2]);
                    assert(s@.skip(i as int).skip(2) =~= s@.skip((i + 2) as int));
                    match parse_str(s@.skip((i + 2) as int)) {
                        Some(q) => {
                            assert(acc_old + (seq![c2] + q.0) =~= (acc_old + seq![c2]) + q.0);
                        },
                        None => {},
                    }
                }
                i = i + 2;
            } else {
                return None;
            }
        } else {
            let ghost acc_old = acc@;
            let piece = s.substring_char(i, i + 1);
            acc.append(piece);
            proof {
                assert(piece@ =~= seq![c]);
                assert(s@.skip(i as int).drop_first() =~= s@.skip((i + 1) as int));
                match parse_str(s@.skip((i + 1) as int)) {
                    Some(q) => {
                        assert(acc_old + (seq![c] + q.0) =~= (acc_old + seq![c]) + q.0);
                    },
                    None => {},
                }
            }
            i = i + 1;
        }
    }
}

/// Read one cell starting at `pos`, matching what the parsing function
/// of the format says of the text from `pos` on.
fn parse_one_cell(s: &str, n: usize, pos: usize) -> (r: Option<(CellState, usize)>)
    requires
        n as nat == s@.len(),
        pos <= n,
    ensures
        match r {
            Some(p) => pos <= p.1 <= n && parse_cell(s@.skip(pos as int)) == Some(
                (p.0@, s@.skip(p.1 as int)),
            ),
            None => parse_cell(s@.skip(pos as int)) is None,
        },
{
    let ghost t = s@.skip(pos as int);
    if n - pos < 3 {
        proof {
            assert(t.len() < 3);
        }
        return None;
    }
    let c0 = s.get_char(pos);
    let c1 = s.get_char(pos + 1);
    proof {
        assert(t[0] == s@[pos as int]);
        assert(t[1] == s@[(pos + 1) as int]);
        assert(t[2] == s@[(pos + 2) as int]);
    }
    let d0 = match char_to_digit(c0) {
        Some(d) => d,
        None => {
            return None;
        },
    };
    let d1 = match char_to_digit(c1) {
        Some(d) => d,
        None => {
            return None;
        },
    };
    let num = 10 * d0 + d1;
    if num < 1 || num > crate::MAX_NUMBER {
        return None;
    }
    let c2 = s.get_char(pos + 2);
    if c2 == '-' {
        proof {
            assert(t.skip(3) =~= s@.skip((pos + 3) as int));
            assert((CellState { number: num, color: None })@ =~= (CellModel {
                number: num as int,
                color: None,
            }));
        }
        Some((CellState { number: num, color: None }, pos + 3))
    } else if c2 == '+' {
        match parse_color(s, n, pos + 3) {
            Some((col, np)) => {
                proof {
                    assert(t.skip(3) =~= s@.skip((pos + 3) as int));
                    assert((CellState { number: num, color: Some(col) })@ =~= (CellModel {
                        number: num as int,
                        color: Some(col@),
                    }));
                }
                Some((CellState { number: num, color: Some(col) }, np))
            },
            None => {
                proof {
                    assert(t.skip(3) =~= s@.skip((pos + 3) as int));
                }
                None
            },
        }
    } else {
        None
    }
}

/// Are the cell numbers pairwise distinct?
pub(crate) fn distinct_numbers(cells: &Vec<CellState>) -> (r: bool)
    ensures
        r == (forall|i: int, j: int|
            0 <= i < j < cells_view(cells@).len() ==> cells_view(cells@)[i].number != cells_view(
                cells@,
            )[j].number),
{
    let ghost cv = cells_view(cells@);
    let mut i: usize = 0;
    while i < cells.len()
        invariant
            cv == cells_view(cells@),
            cv.len() == cells@.len(),
            i <= cells@.len(),
            forall|a: int, b: int| 0 <= a < b < cv.len() && a < i ==> cv[a].number != cv[b].number,
        decreases cells@.len() - i,
    {
        let mut j: usize = i + 1;
        while j < cells.len()
            invariant
                cv == cells_view(cells@),
                cv.len() == cells@.len(),
                i < j <= cells@.len() || (i + 1 == j && j > cells@.len() - 1),
                i < cells@.len(),
                j >= i + 1,
                forall|b: int| i < b < j ==> cv[i as int].number != cv[b].number,
            decreases cells@.len() - j,
        {
            if cells[i].number == cells[j].number {
                proof {
                    assert(cv[i as int].number == cv[j as int].number);
                }
                return false;
            }
            j = j + 1;
        }
        i = i + 1;
    }
    true
}

/// Deserialize a stored snapshot, if one is there and is exactly the
/// encoding of a valid board; a missing slot, or foreign or corrupted
/// text, yields no state, so the caller falls back to a fresh board.
pub fn load_state(stored: Option<&str>) -> (r: Option<BoardState>)
    ensures
        match stored {
            None => r is None,
            Some(text) => match r {
                Some(b) => spec_decode(text@) == Some(b@) && b@.wf() && spec_encode(b@) == text@,
                None => spec_decode(text@) is None,
            },
        },
{
    let text = match stored {
        Some(text) => text,
        None => {
            return None;
        },
    };
    let n = text.unicode_len();
    proof {
        assert(text@.skip(0) =~= text@);
    }
    let (col, after_col) = match parse_color(text, n, 0) {
        Some(p) => p,
        None => {
            return None;
        },
    };
    if col.as_str().is_empty() {
        return None;
    }
    let ghost rest0 = text@.skip(after_col as int);
    let mut cells: Vec<CellState> = Vec::new();
    let mut pos = after_col;
    let mut k: usize = 0;
    while k < crate::BOARD_CELLS
        invariant
            stored == Some(text),
            n as nat == text@.len(),
            rest0 == text@.skip(after_col as int),
            parse_str(text@) == Some((col@, rest0)),
            col@.len() > 0,
            after_col <= pos <= n,
            k <= crate::BOARD_CELLS,
            cells@.len() == k,
            parse_cells(rest0, crate::BOARD_CELLS as nat) == (match parse_cells(
                text@.skip(pos as int),
                (crate::BOARD_CELLS - k) as nat,
            ) {
                Some(q) => Some((cells_view(cells@) + q.0, q.1)),
                None => None,
            }),
        decreases crate::BOARD_CELLS - k,
    {
        let (cell, np) = match parse_one_cell(text, n, pos) {
            Some(p) => p,
            None => {
                return None;
            },
        };
        let ghost cv_old = cells_view(cells@);
        let ghost cell_m = cell@;
        cells.push(cell);
        proof {
            assert(cells_view(cells@) =~= cv_old.push(cell_m));
            match parse_cells(text@.skip(np as int), (crate::BOARD_CELLS - k - 1) as nat) {
                Some(q) => {
                    assert(cv_old + (seq![cell_m] + q.0) =~= (cv_old.push(cell_m)) + q.0);
                },
                None => {},
            }
        }
        pos = np;
        k = k + 1;
    }
    proof {
        assert(parse_cells(text@.skip(pos as int), 0) == Some(
            (Seq::<CellModel>::empty(), text@.skip(pos as int)),
        ));
        assert(cells_view(cells@) + Seq::<CellModel>::empty() =~= cells_view(cells@));
    }
    if pos < n {
        proof {
            assert(text@.skip(pos as int).len() > 0);
        }
        return None;
    }
    proof {
        assert(text@.skip(pos as int).len() == 0);
        lemma_parse_cells_sound(rest0, crate::BOARD_CELLS as nat);
    }
    if !distinct_numbers(&cells) {
        proof {
            assert(!wf_cells(cells_view(cells@)));
        }
        return None;
    }
    let board = BoardState { cells, active_color: col };
    proof {
        assert(wf_cells(board@.cells));
        assert(spec_decode(text@) == Some(board@));
        lemma_decode_sound(text@, board@);
    }
    Some(board)
}

} // verus!
