//! What a terminal window shows, as far as it can be said without a
//! terminal: the names of keys, the colours, the cells that a line of
//! text is painted with, the layout of the two announcement lines, and
//! the walk of the cursor over text written to the screen.

use vstd::prelude::*;
use crate::emacs_buffer::width_at;
use crate::mint_string::{append_num, number_text};
use crate::mint_types::{MintChar, MintCount, MintString};

verus! {

/// The colour of the palette of sixteen that a colour number selects: its low four bits.
pub open spec fn palette_index(colour: i32) -> u8 {
    (colour & 0x0F) as u8
}

pub fn ansi_colour(colour: i32) -> (r: u8)
    ensures
        r == palette_index(colour),
        r < 16,
{
    assert(colour & 0x0F < 16 && colour & 0x0F >= 0) by (bit_vector);
    (colour & 0x0F) as u8
}

/// The hue of a colour number, 0 to 7: black, blue, green, cyan, red,
/// magenta, yellow, white.
pub fn colour_hue(colour: i32) -> (r: u8)
    ensures
        r == (colour & 0x07) as u8,
        r < 8,
{
    assert(colour & 0x07 < 8 && colour & 0x07 >= 0) by (bit_vector);
    (colour & 0x07) as u8
}

/// Whether a colour number selects the bright variant of its hue.
pub fn colour_bright(colour: i32) -> (r: bool)
    ensures
        r == ((colour & 0x08) != 0),
{
    (colour & 0x08) != 0
}

/// A key, apart from its modifiers.
#[derive(Debug, Clone, Copy, PartialEq, Eq, Structural)]
pub enum KeyCode {
    /// A key that stands for a byte.
    Char(u8),
    Backspace,
    Tab,
    BackTab,
    Enter,
    Esc,
    Delete,
    Insert,
    Up,
    Down,
    Left,
    Right,
    Home,
    End,
    PageUp,
    PageDown,
    /// A function key, by its number.
    F(u8),
    /// Any other key.
    Other,
}

/// A key event: the key, whether Control and Shift are held, and
/// whether the key was pressed rather than released or repeated.
#[derive(Debug, Clone, Copy, PartialEq, Eq, Structural)]
pub struct KeyPress {
    pub code: KeyCode,
    pub ctrl: bool,
    pub shift: bool,
    pub pressed: bool,
}

/// `Unknown`
pub open spec fn name_unknown() -> Seq<u8> {
    seq![85u8, 110u8, 107u8, 110u8, 111u8, 119u8, 110u8]
}

/// `Timeout`
pub open spec fn name_timeout() -> Seq<u8> {
    seq![84u8, 105u8, 109u8, 101u8, 111u8, 117u8, 116u8]
}

/// The name that stands for no key within the time allowed.
pub fn timeout_name() -> (r: MintString)
    ensures
        r@ == name_timeout(),
{
    let r = vec![84u8, 105u8, 109u8, 101u8, 111u8, 117u8, 116u8];
    assert(r@ =~= name_timeout());
    r
}

/// The name that stands for an event that has no name.
pub fn unknown_name() -> (r: MintString)
    ensures
        r@ == name_unknown(),
{
    let r = vec![85u8, 110u8, 107u8, 110u8, 111u8, 119u8, 110u8];
    assert(r@ =~= name_unknown());
    r
}

/// ASCII lower case of one byte.
pub open spec fn lower_of(ch: u8) -> u8 {
    if 65 <= ch <= 90 {
        (ch + 32) as u8
    } else {
        ch
    }
}

/// The name of a key that is no byte and no function key.
pub open spec fn named_key(code: KeyCode) -> Seq<u8> {
    match code {
        KeyCode::Backspace => seq![66u8, 97u8, 99u8, 107u8, 32u8, 83u8, 112u8, 97u8, 99u8, 101u8],
        KeyCode::Tab | KeyCode::BackTab => seq![84u8, 97u8, 98u8],
        KeyCode::Enter => seq![82u8, 101u8, 116u8, 117u8, 114u8, 110u8],
        KeyCode::Esc => seq![69u8, 115u8, 99u8, 97u8, 112u8, 101u8],
        KeyCode::Delete => seq![68u8, 101u8, 108u8],
        KeyCode::Insert => seq![73u8, 110u8, 115u8],
        KeyCode::Up => seq![85u8, 112u8, 32u8, 65u8, 114u8, 114u8, 111u8, 119u8],
        KeyCode::Down => seq![68u8, 111u8, 119u8, 110u8, 32u8, 65u8, 114u8, 114u8, 111u8, 119u8],
        KeyCode::Left => seq![76u8, 101u8, 102u8, 116u8, 32u8, 65u8, 114u8, 114u8, 111u8, 119u8],
        KeyCode::Right => seq![
            82u8,
            105u8,
            103u8,
            104u8,
            116u8,
            32u8,
            65u8,
            114u8,
            114u8,
            111u8,
            119u8,
        ],
        KeyCode::Home => seq![72u8, 111u8, 109u8, 101u8],
        KeyCode::End => seq![69u8, 110u8, 100u8],
        KeyCode::PageUp => seq![80u8, 103u8, 32u8, 85u8, 112u8],
        KeyCode::PageDown => seq![80u8, 103u8, 32u8, 68u8, 110u8],
        _ => name_unknown(),
    }
}

/// The name under which a script sees a key. A byte is its own name,
/// but `,` `(` `)` are `Comma`, `LPar`, `RPar`; with Control a byte is
/// `C-` and the byte in lower case; a function key is `F` and its
/// number, `S-F` with Shift; an event that is no key press is `Unknown`.
pub open spec fn key_name(ke: KeyPress) -> Seq<u8> {
    if !ke.pressed {
        name_unknown()
    } else {
        match ke.code {
            KeyCode::Char(c) => if ke.ctrl {
                seq![67u8, 45u8, lower_of(c)]
            } else if c == 44 {
                seq![67u8, 111u8, 109u8, 109u8, 97u8]
            } else if c == 40 {
                seq![76u8, 80u8, 97u8, 114u8]
            } else if c == 41 {
                seq![82u8, 80u8, 97u8, 114u8]
            } else {
                seq![c]
            },
            KeyCode::F(n) => if ke.shift {
                seq![83u8, 45u8, 70u8] + number_text(n as int, 10)
            } else {
                seq![70u8] + number_text(n as int, 10)
            },
            other => named_key(other),
        }
    }
}

fn named_key_string(code: KeyCode) -> (r: MintString)
    ensures
        r@ == named_key(code),
{
    let r = match code {
        KeyCode::Backspace => vec![66u8, 97u8, 99u8, 107u8, 32u8, 83u8, 112u8, 97u8, 99u8, 101u8],
        KeyCode::Tab | KeyCode::BackTab => vec![84u8, 97u8, 98u8],
        KeyCode::Enter => vec![82u8, 101u8, 116u8, 117u8, 114u8, 110u8],
        KeyCode::Esc => vec![69u8, 115u8, 99u8, 97u8, 112u8, 101u8],
        KeyCode::Delete => vec![68u8, 101u8, 108u8],
        KeyCode::Insert => vec![73u8, 110u8, 115u8],
        KeyCode::Up => vec![85u8, 112u8, 32u8, 65u8, 114u8, 114u8, 111u8, 119u8],
        KeyCode::Down => vec![68u8, 111u8, 119u8, 110u8, 32u8, 65u8, 114u8, 114u8, 111u8, 119u8],
        KeyCode::Left => vec![76u8, 101u8, 102u8, 116u8, 32u8, 65u8, 114u8, 114u8, 111u8, 119u8],
        KeyCode::Right => vec![
            82u8,
            105u8,
            103u8,
            104u8,
            116u8,
            32u8,
            65u8,
            114u8,
            114u8,
            111u8,
            119u8,
        ],
        KeyCode::Home => vec![72u8, 111u8, 109u8, 101u8],
        KeyCode::End => vec![69u8, 110u8, 100u8],
        KeyCode::PageUp => vec![80u8, 103u8, 32u8, 85u8, 112u8],
        KeyCode::PageDown => vec![80u8, 103u8, 32u8, 68u8, 110u8],
        _ => vec![85u8, 110u8, 107u8, 110u8, 111u8, 119u8, 110u8],
    };
    assert(r@ =~= named_key(code));
    r
}

/// The name under which a script sees the key event `ke`.
pub fn map_key_event(ke: KeyPress) -> (r: MintString)
    ensures
        r@ == key_name(ke),
{
    if !ke.pressed {
        return named_key_string(KeyCode::Other);
    }
    match ke.code {
        KeyCode::Char(c) => {
            let r = if ke.ctrl {
                let low = if c >= 65 && c <= 90 {
                    c + 32
                } else {
                    c
                };
                vec![67u8, 45u8, low]
            } else if c == 44 {
                vec![67u8, 111u8, 109u8, 109u8, 97u8]
            } else if c == 40 {
                vec![76u8, 80u8, 97u8, 114u8]
            } else if c == 41 {
                vec![82u8, 80u8, 97u8, 114u8]
            } else {
                vec![c]
            };
            assert(r@ =~= key_name(ke));
            r
        },
        KeyCode::F(n) => {
            let mut r: MintString = if ke.shift {
                vec![83u8, 45u8, 70u8]
            } else {
                vec![70u8]
            };
            assert(ke.shift ==> r@ =~= seq![83u8, 45u8, 70u8]);
            assert(!ke.shift ==> r@ =~= seq![70u8]);
            append_num(&mut r, n as i32, 10);
            r
        },
        other => named_key_string(other),
    }
}

/// The name of a key that a terminal reports as a byte: 0 is `C-@`;
/// the control codes are `Back Space`, `Tab`, `Return` and `Escape`
/// where they have such a name, else `C-` and their letter; 127 is
/// `Back Space`; the bytes from 128 on are `Unknown`; any other byte
/// is named as a key press of it.
pub open spec fn byte_key_name(code: u8) -> Seq<u8> {
    if code == 0 {
        seq![67u8, 45u8, 64u8]
    } else if code == 8 || code == 127 {
        named_key(KeyCode::Backspace)
    } else if code == 9 {
        named_key(KeyCode::Tab)
    } else if code == 10 || code == 13 {
        named_key(KeyCode::Enter)
    } else if code == 27 {
        named_key(KeyCode::Esc)
    } else if code < 32 {
        seq![67u8, 45u8, (code + 96) as u8]
    } else if code < 127 {
        key_name(KeyPress { code: KeyCode::Char(code), ctrl: false, shift: false, pressed: true })
    } else {
        name_unknown()
    }
}

/// The name of a key that a terminal reports as the byte `code`.
pub fn decode_key_byte(code: u8) -> (r: MintString)
    ensures
        r@ == byte_key_name(code),
{
    if code == 0 {
        let r = vec![67u8, 45u8, 64u8];
        assert(r@ =~= byte_key_name(code));
        r
    } else if code == 8 || code == 127 {
        named_key_string(KeyCode::Backspace)
    } else if code == 9 {
        named_key_string(KeyCode::Tab)
    } else if code == 10 || code == 13 {
        named_key_string(KeyCode::Enter)
    } else if code == 27 {
        named_key_string(KeyCode::Esc)
    } else if code < 32 {
        let r = vec![67u8, 45u8, code + 96];
        assert(r@ =~= byte_key_name(code));
        r
    } else if code < 127 {
        map_key_event(KeyPress { code: KeyCode::Char(code), ctrl: false, shift: false, pressed: true })
    } else {
        named_key_string(KeyCode::Other)
    }
}

/// The layout of an announcement line of `cols` columns: how many
/// bytes of the left and of the right text are shown, and whether the
/// rest of the line is cleared.
#[derive(Debug, Clone, Copy, PartialEq, Eq, Structural)]
pub struct AnnounceLayout {
    pub left: usize,
    pub right: usize,
    pub clear_rest: bool,
}

/// The layout of the message line: the left text takes all but the
/// last column at most, the right text what is left behind a column
/// for the cursor.
pub open spec fn message_layout(left_len: int, right_len: int, cols: int) -> AnnounceLayout {
    let room = if cols > 0 { cols - 1 } else { 0 };
    let n = if left_len < room { left_len } else { room };
    let rest = if cols > n + 1 { cols - (n + 1) } else { 0 };
    let m = if right_len < rest { right_len } else { rest };
    AnnounceLayout { left: n as usize, right: m as usize, clear_rest: n + m < cols }
}

/// The layout of the mode line: as that of the message line, without
/// the column for the cursor.
pub open spec fn mode_layout(left_len: int, right_len: int, cols: int) -> AnnounceLayout {
    let room = if cols > 0 { cols - 1 } else { 0 };
    let n = if left_len < room { left_len } else { room };
    let rest = cols - n;
    let m = if right_len < rest { right_len } else { rest };
    AnnounceLayout { left: n as usize, right: m as usize, clear_rest: n + m < cols }
}

/// The layout of the message line for texts of the given lengths.
pub fn announce_layout(left_len: usize, right_len: usize, cols: u16) -> (r: AnnounceLayout)
    ensures
        r == message_layout(left_len as int, right_len as int, cols as int),
{
    let cols = cols as usize;
    let room = if cols > 0 {
        cols - 1
    } else {
        0
    };
    let n = if left_len < room {
        left_len
    } else {
        room
    };
    let rest = if cols > n + 1 {
        cols - (n + 1)
    } else {
        0
    };
    let m = if right_len < rest {
        right_len
    } else {
        rest
    };
    AnnounceLayout { left: n, right: m, clear_rest: n + m < cols }
}

/// The layout of the mode line for texts of the given lengths.
pub fn announce_win_layout(left_len: usize, right_len: usize, cols: u16) -> (r: AnnounceLayout)
    ensures
        r == mode_layout(left_len as int, right_len as int, cols as int),
{
    let cols = cols as usize;
    let room = if cols > 0 {
        cols - 1
    } else {
        0
    };
    let n = if left_len < room {
        left_len
    } else {
        room
    };
    let rest = cols - n;
    let m = if right_len < rest {
        right_len
    } else {
        rest
    };
    AnnounceLayout { left: n, right: m, clear_rest: n + m < cols }
}

/// A screen position: column and row.
#[derive(Debug, Clone, Copy, PartialEq, Eq, Structural)]
pub struct Cursor {
    pub x: u16,
    pub y: u16,
}

/// The row below `y` on a screen of `rows` rows; the last row is not left.
pub open spec fn row_below(y: u16, rows: u16) -> u16 {
    let last = if rows > 0 { (rows - 1) as u16 } else { 0u16 };
    if y < last {
        (y + 1) as u16
    } else {
        last
    }
}

/// Where the cursor stands after one byte was written at `c` on a
/// screen of `cols` by `rows`: a line feed takes it to the start of the
/// next row, any other byte one column on; and a cursor that has
/// reached the width of the screen goes to the start of the next row.
pub open spec fn cursor_step(c: Cursor, ch: u8, cols: u16, rows: u16) -> Cursor {
    let moved = if ch == 10 {
        Cursor { x: 0, y: row_below(c.y, rows) }
    } else if c.x < u16::MAX {
        Cursor { x: (c.x + 1) as u16, y: c.y }
    } else {
        c
    };
    if moved.x >= cols {
        Cursor { x: 0, y: row_below(moved.y, rows) }
    } else {
        moved
    }
}

/// Where the cursor stands after the text `s` was written at `c`.
pub open spec fn cursor_after(c: Cursor, s: Seq<u8>, cols: u16, rows: u16) -> Cursor
    decreases s.len(),
{
    if s.len() == 0 {
        c
    } else {
        cursor_step(cursor_after(c, s.drop_last(), cols, rows), s.last(), cols, rows)
    }
}

/// Where the cursor stands after `s` was written at `c`.
pub fn overwrite_cursor(c: Cursor, s: &[MintChar], cols: u16, rows: u16) -> (r: Cursor)
    ensures
        r == cursor_after(c, s@, cols, rows),
{
    let last: u16 = if rows > 0 {
        rows - 1
    } else {
        0
    };
    let mut ovx = c.x;
    let mut ovy = c.y;
    let mut i: usize = 0;
    assert(s@.subrange(0, 0) =~= Seq::<u8>::empty());
    while i < s.len()
        invariant
            0 <= i <= s@.len(),
            last == if rows > 0 { (rows - 1) as u16 } else { 0u16 },
            (Cursor { x: ovx, y: ovy }) == cursor_after(c, s@.subrange(0, i as int), cols, rows),
        decreases s@.len() - i,
    {
        proof {
            let next = s@.subrange(0, i + 1);
            assert(next.drop_last() =~= s@.subrange(0, i as int));
            assert(next.last() == s@[i as int]);
        }
        let ch = s[i];
        if ch == 10 {
            ovx = 0;
            ovy = if ovy < last {
                ovy + 1
            } else {
                last
            };
        } else if ovx < u16::MAX {
            ovx += 1;
        }
        if ovx >= cols {
            ovx = 0;
            ovy = if ovy < last {
                ovy + 1
            } else {
                last
            };
        }
        i += 1;
    }
    assert(s@.subrange(0, s@.len() as int) =~= s@);
    Cursor { x: ovx, y: ovy }
}

/// The position on a screen of `cols` by `rows` nearest to `(x, y)`.
pub fn gotoxy_cursor(x: i32, y: i32, cols: u16, rows: u16) -> (r: Cursor)
    ensures
        r.x == if x < 0 || cols == 0 {
            0
        } else if x < cols {
            x as int
        } else {
            cols - 1
        },
        r.y == if y < 0 || rows == 0 {
            0
        } else if y < rows {
            y as int
        } else {
            rows - 1
        },
{
    let cx: u16 = if x < 0 || cols == 0 {
        0
    } else if x < cols as i32 {
        x as u16
    } else {
        cols - 1
    };
    let cy: u16 = if y < 0 || rows == 0 {
        0
    } else if y < rows as i32 {
        y as u16
    } else {
        rows - 1
    };
    Cursor { x: cx, y: cy }
}

/// What one cell of the screen shows.
#[derive(Debug, Clone, Copy, PartialEq, Eq, Structural)]
pub enum Glyph {
    /// A byte, printed as it is.
    Byte(u8),
    /// The mark that shows whitespace at the end of a line.
    Bullet,
}

/// One cell of the screen: what it shows, and in which colour.
#[derive(Debug, Clone, Copy, PartialEq, Eq, Structural)]
pub struct Cell {
    pub glyph: Glyph,
    pub colour: i32,
}

/// The colours that a line is painted with, and whether whitespace at
/// the end of a line is shown.
#[derive(Debug, Clone, Copy, PartialEq, Eq, Structural)]
pub struct Palette {
    pub fore: i32,
    pub ctrl_fore: i32,
    pub wsp_fore: i32,
    pub show_wsp: bool,
}

/// A line as it is painted: its cells from the left edge of the
/// window, and whether the rest of the row is cleared.
pub struct LinePaint {
    pub cells: Vec<Cell>,
    pub clear_rest: bool,
}

/// The index behind the last byte of a line that is neither a space
/// nor a tab; 0 if it has no such byte.
pub open spec fn last_ink(line: Seq<u8>) -> int
    decreases line.len(),
{
    if line.len() == 0 {
        0
    } else if line.last() != 9 && line.last() != 32 {
        line.len() as int
    } else {
        last_ink(line.drop_last())
    }
}

/// The index from which on a line holds only whitespace that counts as
/// standing at its end; a line of nothing but whitespace has none.
pub open spec fn ink_end(line: Seq<u8>) -> int {
    if last_ink(line) == 0 {
        line.len() as int
    } else {
        last_ink(line)
    }
}

/// Where painting starts in a line scrolled `leftcol` columns to the
/// left: the index of the first byte at or behind that column, and the
/// column at which it stands.
pub open spec fn scrolled_to(line: Seq<u8>, idx: int, col: int, leftcol: int, tab: int) -> (int, int)
    decreases line.len() - idx,
{
    if 0 <= idx < line.len() && col < leftcol {
        scrolled_to(line, idx + 1, col + width_at(col, line[idx], tab), leftcol, tab)
    } else {
        (idx, col)
    }
}

/// The cell for a space, or for one column of a tab: blank in the
/// foreground colour, or the bullet in the whitespace colour where
/// whitespace at the end of the line is shown.
pub open spec fn blank_cell(at_end: bool, pal: Palette) -> Cell {
    if pal.show_wsp && at_end {
        Cell { glyph: Glyph::Bullet, colour: pal.wsp_fore }
    } else {
        Cell { glyph: Glyph::Byte(32), colour: pal.fore }
    }
}

/// The cells that the byte `ch` is painted with at column `col`, cut
/// off at the column `limit`. A tab is blank up to the next tab stop;
/// a control byte is `^` and its letter, in the control colour; any
/// other byte is itself, in the foreground colour.
pub open spec fn byte_cells(ch: u8, at_end: bool, col: int, limit: int, tab: int, pal: Palette) -> Seq<
    Cell,
> {
    let room = limit - col;
    if ch == 9 {
        let w = width_at(col, ch, tab);
        Seq::new((if w < room { w } else { room }) as nat, |i: int| blank_cell(at_end, pal))
    } else if ch < 32 {
        let both = seq![
            Cell { glyph: Glyph::Byte(94), colour: pal.ctrl_fore },
            Cell { glyph: Glyph::Byte((ch + 64) as u8), colour: pal.ctrl_fore },
        ];
        if room < 2 {
            both.subrange(0, 1)
        } else {
            both
        }
    } else if ch == 32 {
        seq![blank_cell(at_end, pal)]
    } else {
        seq![Cell { glyph: Glyph::Byte(ch), colour: pal.fore }]
    }
}

/// The cells that a line is painted with from the byte at `idx`, which
/// stands at column `col`, up to the column `limit`.
pub open spec fn painted(
    line: Seq<u8>,
    idx: int,
    col: int,
    limit: int,
    tab: int,
    ink: int,
    pal: Palette,
) -> Seq<Cell>
    decreases line.len() - idx,
{
    if 0 <= idx < line.len() && col < limit && tab > 0 {
        let cells = byte_cells(line[idx], idx + 1 > ink, col, limit, tab, pal);
        cells + painted(line, idx + 1, col + cells.len(), limit, tab, ink, pal)
    } else {
        Seq::empty()
    }
}

fn blank(at_end: bool, pal: Palette) -> (c: Cell)
    ensures
        c == blank_cell(at_end, pal),
{
    if pal.show_wsp && at_end {
        Cell { glyph: Glyph::Bullet, colour: pal.wsp_fore }
    } else {
        Cell { glyph: Glyph::Byte(32), colour: pal.fore }
    }
}

/// The index from which on `line` holds only whitespace at its end.
pub fn find_ink_end(line: &[MintChar]) -> (r: usize)
    ensures
        r == ink_end(line@),
{
    let mut i: usize = 0;
    let mut end: usize = 0;
    assert(line@.subrange(0, 0) =~= Seq::<u8>::empty());
    while i < line.len()
        invariant
            0 <= i <= line@.len(),
            end == last_ink(line@.subrange(0, i as int)),
        decreases line@.len() - i,
    {
        proof {
            let next = line@.subrange(0, i + 1);
            assert(next.drop_last() =~= line@.subrange(0, i as int));
            assert(next.last() == line@[i as int]);
        }
        if line[i] != 9 && line[i] != 32 {
            end = i + 1;
        }
        i += 1;
    }
    assert(line@.subrange(0, line@.len() as int) =~= line@);
    if end == 0 {
        line.len()
    } else {
        end
    }
}

/// Paints one line of text: `line` holds its bytes, `leftcol` is the
/// number of columns scrolled out to the left, `cols` the width of the
/// window, `tab_width` the distance of the tab stops.
pub fn paint_line(line: &[MintChar], leftcol: MintCount, cols: u16, tab_width: MintCount, pal: Palette) -> (r:
    LinePaint)
    requires
        tab_width > 0,
    ensures
        ({
            let start = scrolled_to(line@, 0, 0, leftcol as int, tab_width as int);
            &&& r.cells@ == painted(
                line@,
                start.0,
                start.1,
                leftcol + cols,
                tab_width as int,
                ink_end(line@),
                pal,
            )
            &&& r.clear_rest == (start.1 + r.cells@.len() < leftcol + cols)
        }),
{
    let ink = find_ink_end(line);
    let limit: u64 = leftcol as u64 + cols as u64;
    let tab = tab_width as u64;
    let mut col: u64 = 0;
    let mut idx: usize = 0;
    while idx < line.len() && col < leftcol as u64
        invariant
            0 <= idx <= line@.len(),
            tab == tab_width,
            tab > 0,
            col <= leftcol + tab + 2,
            scrolled_to(line@, idx as int, col as int, leftcol as int, tab as int) == scrolled_to(
                line@,
                0,
                0,
                leftcol as int,
                tab as int,
            ),
        decreases line@.len() - idx,
    {
        let ch = line[idx];
        let w: u64 = if ch == 9 {
            tab - col % tab
        } else if ch < 32 || ch >= 127 {
            2
        } else {
            1
        };
        col += w;
        idx += 1;
    }
    let ghost idx0 = idx as int;
    let ghost col0 = col as int;
    let mut cells: Vec<Cell> = Vec::new();
    proof {
        assert(cells@ + painted(line@, idx0, col0, limit as int, tab as int, ink as int, pal)
            =~= painted(line@, idx0, col0, limit as int, tab as int, ink as int, pal));
    }
    while idx < line.len() && col < limit
        invariant
            0 <= idx <= line@.len(),
            tab == tab_width,
            tab > 0,
            limit == leftcol + cols,
            ink == ink_end(line@),
            col == col0 + cells@.len(),
            col <= limit || cells@.len() == 0,
            cells@ + painted(line@, idx as int, col as int, limit as int, tab as int, ink as int, pal)
                == painted(line@, idx0, col0, limit as int, tab as int, ink as int, pal),
        decreases line@.len() - idx,
    {
        let ch = line[idx];
        let at_end = idx + 1 > ink;
        let ghost before = cells@;
        let ghost these = byte_cells(ch, at_end, col as int, limit as int, tab as int, pal);
        let ghost col_before = col as int;
        let room = limit - col;
        if ch == 9 {
            let w = tab - col % tab;
            let n = if w < room {
                w
            } else {
                room
            };
            let cell = blank(at_end, pal);
            let mut k: u64 = 0;
            while k < n
                invariant
                    0 <= k <= n,
                    n == these.len(),
                    n <= room,
                    cell == blank_cell(at_end, pal),
                    these == byte_cells(ch, at_end, col as int, limit as int, tab as int, pal),
                    ch == 9,
                    col == col_before,
                    cells@ == before + these.subrange(0, k as int),
                decreases n - k,
            {
                cells.push(cell);
                assert(cells@ =~= before + these.subrange(0, k + 1));
                k += 1;
            }
            assert(these.subrange(0, n as int) =~= these);
            col += n;
        } else if ch < 32 {
            cells.push(Cell { glyph: Glyph::Byte(94), colour: pal.ctrl_fore });
            col += 1;
            if room >= 2 {
                cells.push(Cell { glyph: Glyph::Byte(ch + 64), colour: pal.ctrl_fore });
                col += 1;
            }
            assert(cells@ =~= before + these);
        } else if ch == 32 {
            cells.push(blank(at_end, pal));
            col += 1;
            assert(cells@ =~= before + these);
        } else {
            cells.push(Cell { glyph: Glyph::Byte(ch), colour: pal.fore });
            col += 1;
            assert(cells@ =~= before + these);
        }
        proof {
            let rest = painted(
                line@,
                idx + 1,
                col_before + these.len(),
                limit as int,
                tab as int,
                ink as int,
                pal,
            );
            assert((before + these) + rest =~= before + (these + rest));
        }
        idx += 1;
    }
    proof {
        assert(painted(line@, idx as int, col as int, limit as int, tab as int, ink as int, pal)
            =~= Seq::<Cell>::empty());
        assert(cells@ + Seq::<Cell>::empty() =~= cells@);
    }
    LinePaint { cells, clear_rest: col < limit }
}

} // verus!
