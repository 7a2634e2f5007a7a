//! The editing buffer: a gap buffer with point, marks, line and column
//! bookkeeping, the write-protect and modified flags, and the scroll anchor.

use vstd::prelude::*;
use crate::bytes::count_byte;
use crate::gap_buffer::{
    found_at, grown_capacity, has_room, match_in_text, search_window, GapBuffer,
};
use crate::mint_types::{MintChar, MintCount, MintString};
use crate::search::{first_match, last_match, SearchPattern};

verus! {

pub const EOLCHAR: MintChar = 10;

pub const MARK_FIRST_TEMP: MintChar = 48;

pub const MARK_MAX_TEMP: usize = 10;

pub const MARK_LAST_TEMP: MintChar = 57;

pub const MARK_FIRST_PERM: MintChar = 64;

pub const MARK_MAX_PERM: usize = 27;

pub const MARK_LAST_PERM: MintChar = 90;

pub const MARK_PREV_CHAR: MintChar = 60;

pub const MARK_NEXT_CHAR: MintChar = 62;

pub const MARK_BOB: MintChar = 91;

pub const MARK_EOB: MintChar = 93;

pub const MARK_BOL: MintChar = 94;

pub const MARK_EOL: MintChar = 36;

pub const MARK_PREV_BLANK: MintChar = 45;

pub const MARK_NEXT_BLANK: MintChar = 43;

pub const MARK_PREV_NBLANK: MintChar = 123;

pub const MARK_NEXT_NBLANK: MintChar = 125;

pub const MARK_POINT: MintChar = 46;

pub const MARK_TOPLINE: MintChar = 33;

/// The number of mark slots, and the depth of the stack of mark windows.
pub const MAX_MARKS: usize = 50;

/// What a scan over the text looks for.
#[derive(Debug, Clone, Copy, PartialEq, Eq, Structural)]
pub enum ByteClass {
    Newline,
    Blank,
    NonBlank,
}

/// ASCII whitespace: space, tab, line feed, form feed, carriage return.
pub open spec fn is_blank(ch: u8) -> bool {
    ch == 32 || ch == 9 || ch == 10 || ch == 12 || ch == 13
}

pub open spec fn in_class(c: ByteClass, ch: u8) -> bool {
    match c {
        ByteClass::Newline => ch == EOLCHAR,
        ByteClass::Blank => is_blank(ch),
        ByteClass::NonBlank => !is_blank(ch),
    }
}

/// The first offset at or behind `pos` that holds a byte of class `c`; the
/// length of the text if there is none.
pub open spec fn first_from(text: Seq<u8>, pos: int, c: ByteClass) -> int
    decreases text.len() - pos,
{
    if pos >= text.len() {
        text.len() as int
    } else if in_class(c, text[pos]) {
        pos
    } else {
        first_from(text, pos + 1, c)
    }
}

/// The last offset before `pos` that holds a byte of class `c`; -1 if there is none.
pub open spec fn last_before(text: Seq<u8>, pos: int, c: ByteClass) -> int
    decreases pos,
{
    if pos <= 0 {
        -1
    } else if pos - 1 < text.len() && in_class(c, text[pos - 1]) {
        pos - 1
    } else {
        last_before(text, pos - 1, c)
    }
}

/// The start of the line that holds `pos`.
pub open spec fn line_start(text: Seq<u8>, pos: int) -> int {
    last_before(text, pos, ByteClass::Newline) + 1
}

/// The end of the line that holds `pos`: the offset of its line feed, or the end of the text.
pub open spec fn line_end(text: Seq<u8>, pos: int) -> int {
    first_from(text, pos, ByteClass::Newline)
}

/// The number of line feeds in `text[from..to)`, the range cut off at the end of the text.
pub open spec fn newlines_between(text: Seq<u8>, from: int, to: int) -> nat {
    let hi = if to < text.len() { to } else { text.len() as int };
    if 0 <= from < hi {
        count_byte(text.subrange(from, hi), EOLCHAR)
    } else {
        0
    }
}

/// What an editing buffer is.
pub struct BufferView {
    pub text: Seq<u8>,
    /// The length of the text store, its gap included.
    pub capacity: int,
    pub point: int,
    pub topline: int,
    pub leftcol: int,
    pub tab_width: int,
    /// All mark slots: the permanent marks first, the windows of temporary marks behind them.
    pub marks: Seq<u32>,
    /// The window of temporary marks in use is `[temp_base, temp_last)`.
    pub temp_base: int,
    pub temp_last: int,
    pub perm_count: int,
    /// The bases of the windows that were pushed aside, the oldest first.
    pub stack: Seq<usize>,
    pub point_line: int,
    pub topline_line: int,
    /// The counter of line feeds in the text.
    pub newlines: int,
    pub wp: bool,
    pub modified: bool,
    pub bufno: int,
}

/// A buffer as it is made: point at the start, one permanent mark and no
/// temporary marks, tabs eight columns apart, and all counters at zero.
pub open spec fn initial_view(text: Seq<u8>, capacity: int, bufno: int) -> BufferView {
    BufferView {
        text,
        capacity,
        point: 0,
        topline: 0,
        leftcol: 0,
        tab_width: 8,
        marks: Seq::new(MAX_MARKS as nat, |i: int| 0u32),
        temp_base: 1,
        temp_last: 1,
        perm_count: 1,
        stack: Seq::empty(),
        point_line: 0,
        topline_line: 0,
        newlines: 0,
        wp: false,
        modified: false,
        bufno,
    }
}

/// The slot that a mark character names: a temporary mark `0..9` inside the
/// window in use, or a permanent mark `@..Z` that exists.
pub open spec fn mark_slot(v: BufferView, mark: u8) -> Option<int> {
    if MARK_FIRST_TEMP <= mark <= MARK_LAST_TEMP && v.temp_base + (mark - MARK_FIRST_TEMP)
        < v.temp_last {
        Some(v.temp_base + (mark - MARK_FIRST_TEMP))
    } else if MARK_FIRST_PERM <= mark <= MARK_LAST_PERM && mark - MARK_FIRST_PERM < v.perm_count {
        Some((mark - MARK_FIRST_PERM) as int)
    } else {
        None
    }
}

/// The buffer after `position`, cut off at the end of the text, was
/// stored in the slot that `mark` names; unchanged if it names none.
pub open spec fn with_mark(v: BufferView, mark: u8, position: int) -> BufferView {
    match mark_slot(v, mark) {
        Some(i) => BufferView {
            marks: v.marks.update(
                i,
                if position <= v.text.len() {
                    position as u32
                } else {
                    v.text.len() as u32
                },
            ),
            ..v
        },
        None => v,
    }
}

/// The offset that a mark character stands for, seen from `from`.
pub open spec fn mark_position(v: BufferView, mark: u8, from: int) -> int {
    let len = v.text.len() as int;
    if mark == MARK_POINT {
        v.point
    } else if mark == MARK_BOB {
        0
    } else if mark == MARK_EOB {
        len
    } else if mark == MARK_TOPLINE {
        v.topline
    } else if mark == MARK_BOL {
        line_start(v.text, from)
    } else if mark == MARK_EOL {
        line_end(v.text, from)
    } else if mark == MARK_PREV_CHAR {
        if from > 0 {
            from - 1
        } else {
            0
        }
    } else if mark == MARK_NEXT_CHAR {
        if from < len {
            from + 1
        } else {
            len
        }
    } else if mark == MARK_PREV_BLANK {
        let i = last_before(v.text, from, ByteClass::Blank);
        if i < 0 { 0 } else { i }
    } else if mark == MARK_NEXT_BLANK {
        first_from(v.text, from, ByteClass::Blank)
    } else if mark == MARK_PREV_NBLANK {
        let i = last_before(v.text, from, ByteClass::NonBlank);
        if i < 0 { 0 } else { i }
    } else if mark == MARK_NEXT_NBLANK {
        first_from(v.text, from, ByteClass::NonBlank)
    } else {
        match mark_slot(v, mark) {
            Some(i) => v.marks[i] as int,
            None => from,
        }
    }
}

/// The validity of a buffer, as far as its view shows it.
pub open spec fn view_ok(v: BufferView) -> bool {
    &&& v.text.len() <= v.capacity <= u32::MAX
    &&& 0 <= v.point <= v.text.len()
    &&& 0 <= v.topline <= v.text.len()
    &&& v.marks.len() == MAX_MARKS
    &&& forall|i: int| 0 <= i < MAX_MARKS ==> #[trigger] v.marks[i] <= v.text.len()
    &&& 0 <= v.perm_count <= MARK_MAX_PERM
    &&& 0 <= v.temp_base <= v.temp_last <= MAX_MARKS
    &&& v.stack.len() <= MAX_MARKS
    &&& forall|i: int, j: int| 0 <= i <= j < v.stack.len() ==> v.stack[i] <= v.stack[j]
    &&& forall|i: int| 0 <= i < v.stack.len() ==> #[trigger] v.stack[i] <= v.temp_base
    &&& v.tab_width > 0
}

/// Whether the two line counters agree with the text: the line of point is
/// the number of line feeds before point, and the total is that of the text.
pub open spec fn lines_ok(v: BufferView) -> bool {
    &&& v.point_line == count_byte(v.text.subrange(0, v.point), EOLCHAR)
    &&& v.newlines == count_byte(v.text, EOLCHAR)
}

pub proof fn lemma_first_from_bounds(text: Seq<u8>, pos: int, c: ByteClass)
    requires
        0 <= pos,
    ensures
        pos <= text.len() ==> pos <= first_from(text, pos, c) <= text.len(),
        pos > text.len() ==> first_from(text, pos, c) == text.len(),
        first_from(text, pos, c) < text.len() ==> in_class(c, text[first_from(text, pos, c)]),
        forall|i: int| pos <= i < first_from(text, pos, c) ==> !in_class(c, #[trigger] text[i]),
    decreases text.len() - pos,
{
    if pos >= text.len() {
    } else if in_class(c, text[pos]) {
    } else {
        lemma_first_from_bounds(text, pos + 1, c);
    }
}

pub proof fn lemma_last_before_bounds(text: Seq<u8>, pos: int, c: ByteClass)
    ensures
        -1 <= last_before(text, pos, c),
        last_before(text, pos, c) < text.len(),
        pos >= 0 ==> last_before(text, pos, c) < pos,
        last_before(text, pos, c) >= 0 ==> in_class(c, text[last_before(text, pos, c)]),
        forall|i: int|
            last_before(text, pos, c) < i < pos && 0 <= i < text.len() ==> !in_class(
                c,
                #[trigger] text[i],
            ),
    decreases pos,
{
    if pos <= 0 {
    } else if pos - 1 < text.len() && in_class(c, text[pos - 1]) {
    } else {
        lemma_last_before_bounds(text, pos - 1, c);
    }
}

/// A mark seen from inside the text lies inside the text.
pub proof fn lemma_mark_position_bounds(v: BufferView, mark: u8, from: int)
    requires
        view_ok(v),
        0 <= from,
    ensures
        0 <= mark_position(v, mark, from),
        from <= v.text.len() ==> mark_position(v, mark, from) <= v.text.len(),
        mark_position(v, mark, from) <= v.text.len() || mark_position(v, mark, from) <= from,
{
    lemma_first_from_bounds(v.text, from, ByteClass::Newline);
    lemma_first_from_bounds(v.text, from, ByteClass::Blank);
    lemma_first_from_bounds(v.text, from, ByteClass::NonBlank);
    lemma_last_before_bounds(v.text, from, ByteClass::Newline);
    lemma_last_before_bounds(v.text, from, ByteClass::Blank);
    lemma_last_before_bounds(v.text, from, ByteClass::NonBlank);
    match mark_slot(v, mark) {
        Some(i) => {
            assert(v.marks[i] <= v.text.len());
        },
        None => {},
    }
}

/// A mark that was set reads back, from anywhere, as the position it was
/// set to, cut off at the end of the text; setting it changes the view in
/// no other mark and in nothing else.
pub proof fn law_mark_set_then_read(v: BufferView, mark: u8, position: int, from: int)
    requires
        view_ok(v),
        0 <= position <= u32::MAX,
        mark_slot(v, mark).is_some(),
    ensures
        view_ok(with_mark(v, mark, position)),
        mark_slot(with_mark(v, mark, position), mark) == mark_slot(v, mark),
        mark_position(with_mark(v, mark, position), mark, from) == if position <= v.text.len() {
            position
        } else {
            v.text.len() as int
        },
        forall|other: u8|
            mark_slot(v, other) != mark_slot(v, mark) ==> #[trigger] mark_position(
                with_mark(v, mark, position),
                other,
                from,
            ) == mark_position(v, other, from),
{
}

fn class_has(c: ByteClass, ch: MintChar) -> (r: bool)
    ensures
        r == in_class(c, ch),
{
    let blank = ch == 32 || ch == 9 || ch == 10 || ch == 12 || ch == 13;
    match c {
        ByteClass::Newline => ch == EOLCHAR,
        ByteClass::Blank => blank,
        ByteClass::NonBlank => !blank,
    }
}

pub struct EmacsBuffer {
    wp: bool,
    modified: bool,
    point: MintCount,
    topline: MintCount,
    leftcol: MintCount,
    tab_width: MintCount,
    temp_mark_base: usize,
    temp_mark_last: usize,
    perm_mark_count: usize,
    marks_sp: usize,
    marks: Vec<MintCount>,
    mark_stack: Vec<usize>,
    point_line: MintCount,
    topline_line: MintCount,
    count_newlines: MintCount,
    bufno: MintCount,
    text: GapBuffer,
}

impl View for EmacsBuffer {
    type V = BufferView;

    closed spec fn view(&self) -> BufferView {
        BufferView {
            text: self.text@,
            capacity: self.text.capacity() as int,
            point: self.point as int,
            topline: self.topline as int,
            leftcol: self.leftcol as int,
            tab_width: self.tab_width as int,
            marks: self.marks@,
            temp_base: self.temp_mark_base as int,
            temp_last: self.temp_mark_last as int,
            perm_count: self.perm_mark_count as int,
            stack: self.mark_stack@.subrange(0, self.marks_sp as int),
            point_line: self.point_line as int,
            topline_line: self.topline_line as int,
            newlines: self.count_newlines as int,
            wp: self.wp,
            modified: self.modified,
            bufno: self.bufno as int,
        }
    }
}

impl EmacsBuffer {
    /// The text store is valid and the stack of mark windows has its fixed size.
    pub closed spec fn store_ok(&self) -> bool {
        &&& self.text.wf()
        &&& self.mark_stack@.len() == MAX_MARKS
        &&& self.marks_sp <= MAX_MARKS
    }

    /// The store is valid, and so is the view.
    pub open spec fn wf(&self) -> bool {
        self.store_ok() && view_ok(self@)
    }

    /// A buffer over `text`, with point at the start, one permanent mark
    /// and no temporary marks, and tabs eight columns apart.
    pub fn new(bufno: MintCount, text: GapBuffer) -> (b: Self)
        requires
            text.wf(),
        ensures
            b.wf(),
            b@ == initial_view(text@, text.capacity() as int, bufno as int),
    {
        proof {
            text.lemma_size();
        }
        let b = Self {
            wp: false,
            modified: false,
            point: 0,
            topline: 0,
            leftcol: 0,
            tab_width: 8,
            temp_mark_base: 1,
            temp_mark_last: 1,
            perm_mark_count: 1,
            marks_sp: 0,
            marks: vec![0u32; MAX_MARKS],
            mark_stack: vec![0usize; MAX_MARKS],
            point_line: 0,
            topline_line: 0,
            count_newlines: 0,
            bufno,
            text,
        };
        assert(b@.marks =~= Seq::new(MAX_MARKS as nat, |i: int| 0u32));
        assert(b@.stack =~= Seq::<usize>::empty());
        b
    }

    pub fn is_write_protected(&self) -> (r: bool)
        ensures
            r == self@.wp,
    {
        self.wp
    }

    pub fn set_write_protected(&mut self, iswp: bool)
        ensures
            final(self)@ == (BufferView { wp: iswp, ..old(self)@ }),
            old(self).store_ok() ==> final(self).store_ok(),
    {
        self.wp = iswp;
    }

    pub fn is_modified(&self) -> (r: bool)
        ensures
            r == self@.modified,
    {
        self.modified
    }

    pub fn set_modified(&mut self, ismodified: bool)
        ensures
            final(self)@ == (BufferView { modified: ismodified, ..old(self)@ }),
            old(self).store_ok() ==> final(self).store_ok(),
    {
        self.modified = ismodified;
    }

    pub fn get_buf_number(&self) -> (r: MintCount)
        ensures
            r == self@.bufno,
    {
        self.bufno
    }

    /// The length of the text.
    pub fn size(&self) -> (r: MintCount)
        requires
            self.wf(),
        ensures
            r == self@.text.len(),
    {
        self.text.size()
    }

    pub fn get_point_line(&self) -> (r: MintCount)
        ensures
            r == self@.point_line,
    {
        self.point_line
    }

    pub fn count_newlines_total(&self) -> (r: MintCount)
        ensures
            r == self@.newlines,
    {
        self.count_newlines
    }

    pub fn get_left_column(&self) -> (r: MintCount)
        ensures
            r == self@.leftcol,
    {
        self.leftcol
    }

    /// Sets the distance of the tab stops, which is at least one column.
    pub fn set_tab_width(&mut self, n: MintCount)
        requires
            n > 0,
        ensures
            final(self)@ == (BufferView { tab_width: n as int, ..old(self)@ }),
            old(self).store_ok() ==> final(self).store_ok(),
    {
        self.tab_width = n;
    }

    pub fn get_tab_width(&self) -> (r: MintCount)
        ensures
            r == self@.tab_width,
    {
        self.tab_width
    }

    /// The first offset at or behind `frompos` with a byte of class `c`.
    fn scan_forward(&self, frompos: MintCount, c: ByteClass) -> (r: MintCount)
        requires
            self.wf(),
        ensures
            r == first_from(self@.text, frompos as int, c),
    {
        let size = self.text.size();
        let mut pos = frompos;
        while pos < size
            invariant
                self.wf(),
                size == self@.text.len(),
                frompos <= pos,
                first_from(self@.text, pos as int, c) == first_from(self@.text, frompos as int, c),
            decreases size - pos,
        {
            if let Some(ch) = self.text.get(pos) {
                if class_has(c, ch) {
                    return pos;
                }
            }
            pos += 1;
        }
        size
    }

    /// The last offset before `frompos` with a byte of class `c`.
    fn scan_backward(&self, frompos: MintCount, c: ByteClass) -> (r: Option<MintCount>)
        requires
            self.wf(),
        ensures
            match r {
                Some(i) => i == last_before(self@.text, frompos as int, c),
                None => last_before(self@.text, frompos as int, c) == -1,
            },
    {
        let mut pos = frompos;
        while pos > 0
            invariant
                self.wf(),
                pos <= frompos,
                last_before(self@.text, pos as int, c) == last_before(
                    self@.text,
                    frompos as int,
                    c,
                ),
            decreases pos,
        {
            pos -= 1;
            if let Some(ch) = self.text.get(pos) {
                if class_has(c, ch) {
                    return Some(pos);
                }
            }
        }
        None
    }

    fn find_bol(&self, frompos: MintCount) -> (r: MintCount)
        requires
            self.wf(),
        ensures
            r == line_start(self@.text, frompos as int),
    {
        proof {
            lemma_last_before_bounds(self@.text, frompos as int, ByteClass::Newline);
        }
        match self.scan_backward(frompos, ByteClass::Newline) {
            Some(i) => i + 1,
            None => 0,
        }
    }

    fn find_eol(&self, frompos: MintCount) -> (r: MintCount)
        requires
            self.wf(),
        ensures
            r == line_end(self@.text, frompos as int),
    {
        self.scan_forward(frompos, ByteClass::Newline)
    }

    fn find_prev_blank(&self, frompos: MintCount) -> (r: MintCount)
        requires
            self.wf(),
        ensures
            r == mark_position(self@, MARK_PREV_BLANK, frompos as int),
    {
        match self.scan_backward(frompos, ByteClass::Blank) {
            Some(i) => i,
            None => 0,
        }
    }

    fn find_next_blank(&self, frompos: MintCount) -> (r: MintCount)
        requires
            self.wf(),
        ensures
            r == mark_position(self@, MARK_NEXT_BLANK, frompos as int),
    {
        self.scan_forward(frompos, ByteClass::Blank)
    }

    fn find_prev_nblank(&self, frompos: MintCount) -> (r: MintCount)
        requires
            self.wf(),
        ensures
            r == mark_position(self@, MARK_PREV_NBLANK, frompos as int),
    {
        match self.scan_backward(frompos, ByteClass::NonBlank) {
            Some(i) => i,
            None => 0,
        }
    }

    fn find_next_nblank(&self, frompos: MintCount) -> (r: MintCount)
        requires
            self.wf(),
        ensures
            r == mark_position(self@, MARK_NEXT_NBLANK, frompos as int),
    {
        self.scan_forward(frompos, ByteClass::NonBlank)
    }

    /// The offset that `mark` stands for, seen from point.
    pub fn get_mark_position(&self, mark: MintChar) -> (r: MintCount)
        requires
            self.wf(),
        ensures
            r == mark_position(self@, mark, self@.point),
            r <= self@.text.len(),
    {
        proof {
            lemma_mark_position_bounds(self@, mark, self@.point);
        }
        self.get_mark_position_from(mark, self.point)
    }

    /// The offset that `mark` stands for, seen from `frompos`. A character
    /// that is no mark stands for `frompos` itself.
    pub fn get_mark_position_from(&self, mark: MintChar, frompos: MintCount) -> (r: MintCount)
        requires
            self.wf(),
        ensures
            r == mark_position(self@, mark, frompos as int),
            frompos <= self@.text.len() ==> r <= self@.text.len(),
    {
        proof {
            lemma_mark_position_bounds(self@, mark, frompos as int);
        }
        if mark == MARK_POINT {
            self.point
        } else if mark == MARK_BOB {
            0
        } else if mark == MARK_EOB {
            self.text.size()
        } else if mark == MARK_TOPLINE {
            self.topline
        } else if mark == MARK_BOL {
            self.find_bol(frompos)
        } else if mark == MARK_EOL {
            self.find_eol(frompos)
        } else if mark == MARK_PREV_CHAR {
            if frompos > 0 {
                frompos - 1
            } else {
                0
            }
        } else if mark == MARK_NEXT_CHAR {
            let size = self.text.size();
            if frompos < size {
                frompos + 1
            } else {
                size
            }
        } else if mark == MARK_PREV_BLANK {
            self.find_prev_blank(frompos)
        } else if mark == MARK_NEXT_BLANK {
            self.find_next_blank(frompos)
        } else if mark == MARK_PREV_NBLANK {
            self.find_prev_nblank(frompos)
        } else if mark == MARK_NEXT_NBLANK {
            self.find_next_nblank(frompos)
        } else {
            if mark >= MARK_FIRST_TEMP && mark <= MARK_LAST_TEMP {
                let temp_markno = (mark - MARK_FIRST_TEMP) as usize;
                if self.temp_mark_base + temp_markno < self.temp_mark_last {
                    return self.marks[self.temp_mark_base + temp_markno];
                }
            }
            if mark >= MARK_FIRST_PERM && mark <= MARK_LAST_PERM {
                let perm_markno = (mark - MARK_FIRST_PERM) as usize;
                if perm_markno < self.perm_mark_count {
                    return self.marks[perm_markno];
                }
            }
            frompos
        }
    }

    /// Stores `position`, cut off at the end of the text, in the slot that
    /// `mark` names. Fails iff `mark` names no slot.
    pub fn set_mark_position(&mut self, mark: MintChar, position: MintCount) -> (ok: bool)
        requires
            old(self).wf(),
        ensures
            final(self).wf(),
            ok == mark_slot(old(self)@, mark).is_some(),
            final(self)@ == with_mark(old(self)@, mark, position as int),
    {
        let size = self.text.size();
        let adjusted_pos = if size < position {
            size
        } else {
            position
        };
        if mark >= MARK_FIRST_TEMP && mark <= MARK_LAST_TEMP {
            let temp_markno = (mark - MARK_FIRST_TEMP) as usize;
            if self.temp_mark_base + temp_markno < self.temp_mark_last {
                self.marks.set(self.temp_mark_base + temp_markno, adjusted_pos);
                return true;
            }
        }
        if mark >= MARK_FIRST_PERM && mark <= MARK_LAST_PERM {
            let perm_markno = (mark - MARK_FIRST_PERM) as usize;
            if perm_markno < self.perm_mark_count {
                self.marks.set(perm_markno, adjusted_pos);
                return true;
            }
        }
        false
    }

    /// Sets `mark` to where `dest_mark` stands, seen from point.
    pub fn set_mark(&mut self, mark: MintChar, dest_mark: MintChar) -> (ok: bool)
        requires
            old(self).wf(),
        ensures
            final(self).wf(),
            ok == mark_slot(old(self)@, mark).is_some(),
            final(self)@ == with_mark(
                old(self)@,
                mark,
                mark_position(old(self)@, dest_mark, old(self)@.point),
            ),
    {
        let dest_pos = self.get_mark_position(dest_mark);
        self.set_mark_position(mark, dest_pos)
    }
}

/// A counter after an addition or a subtraction that wraps at 32 bits.
pub open spec fn wrapped(x: int) -> int {
    if x < 0 {
        x + 0x1_0000_0000
    } else if x > u32::MAX {
        x - 0x1_0000_0000
    } else {
        x
    }
}

/// A stored offset after `n` bytes were inserted at `point`: offsets behind
/// point move up, the others stay.
pub open spec fn shifted_up(m: int, point: int, n: int) -> int {
    if m > point {
        m + n
    } else {
        m
    }
}

/// A stored offset after `n` bytes were deleted at `point`: offsets behind
/// point move down, and those inside the deleted range move to point.
pub open spec fn shifted_down(m: int, point: int, n: int) -> int {
    if m > point {
        if m - n > point {
            m - n
        } else {
            point
        }
    } else {
        m
    }
}

/// Whether the text store of a buffer finds room for `n` more bytes,
/// after growing by whole blocks if need be.
pub open spec fn room_in(v: BufferView, n: int) -> bool {
    has_room(v.capacity, v.capacity - v.text.len(), n)
}

/// The buffer after `s` was inserted at point.
pub open spec fn inserted(v: BufferView, s: Seq<u8>) -> BufferView {
    let nl = count_byte(s, EOLCHAR) as int;
    BufferView {
        text: v.text.subrange(0, v.point) + s + v.text.subrange(v.point, v.text.len() as int),
        capacity: grown_capacity(v.capacity, v.capacity - v.text.len(), s.len() as int),
        point: v.point + s.len(),
        topline: shifted_up(v.topline, v.point, s.len() as int),
        marks: Seq::new(
            v.marks.len(),
            |i: int| shifted_up(v.marks[i] as int, v.point, s.len() as int) as u32,
        ),
        point_line: wrapped(v.point_line + nl),
        newlines: wrapped(v.newlines + nl),
        modified: true,
        ..v
    }
}

/// The buffer after the text between point and `to` was deleted.
pub open spec fn deleted(v: BufferView, to: int) -> BufferView {
    let lo = if to < v.point { to } else { v.point };
    let hi = if to < v.point { v.point } else { to };
    let n = hi - lo;
    let nl = count_byte(v.text.subrange(lo, hi), EOLCHAR) as int;
    if n == 0 {
        v
    } else {
        BufferView {
            text: v.text.subrange(0, lo) + v.text.subrange(hi, v.text.len() as int),
            point: lo,
            topline: shifted_down(v.topline, lo, n),
            marks: Seq::new(v.marks.len(), |i: int| shifted_down(v.marks[i] as int, lo, n) as u32),
            point_line: if to < v.point { wrapped(v.point_line - nl) } else { v.point_line },
            newlines: wrapped(v.newlines - nl),
            modified: true,
            ..v
        }
    }
}

/// The buffer after the deletions to each of `marks` in turn, as far as
/// they go: a write-protected buffer stays as it is.
pub open spec fn deleted_to_marks(v: BufferView, marks: Seq<u8>) -> BufferView
    decreases marks.len(),
{
    if marks.len() == 0 || v.wp {
        v
    } else {
        let before = deleted_to_marks(v, marks.drop_last());
        deleted(before, mark_position(before, marks.last(), before.point))
    }
}

/// The buffer after point was set to `to`.
pub open spec fn point_at(v: BufferView, to: int) -> BufferView {
    BufferView { point: to, point_line: newlines_between(v.text, 0, to) as int, ..v }
}

/// The buffer after point was set to each of `marks` in turn, each seen
/// from where the one before it left point.
pub open spec fn point_at_marks(v: BufferView, marks: Seq<u8>) -> BufferView
    decreases marks.len(),
{
    if marks.len() == 0 {
        v
    } else {
        let before = point_at_marks(v, marks.drop_last());
        point_at(before, mark_position(before, marks.last(), before.point))
    }
}

/// Counting the line feeds of a text before an offset is counting them in the range from 0.
pub proof fn lemma_newlines_prefix(text: Seq<u8>, to: int)
    requires
        0 <= to <= text.len(),
    ensures
        newlines_between(text, 0, to) == count_byte(text.subrange(0, to), EOLCHAR),
{
    if to == 0 {
        assert(text.subrange(0, 0) =~= Seq::<u8>::empty());
    }
}

/// An insertion at point keeps the line counters in step with the text.
pub proof fn lemma_inserted_lines(v: BufferView, s: Seq<u8>)
    requires
        view_ok(v),
        lines_ok(v),
        v.text.len() + s.len() <= u32::MAX,
    ensures
        lines_ok(inserted(v, s)),
{
    let w = inserted(v, s);
    let head = v.text.subrange(0, v.point);
    let tail = v.text.subrange(v.point, v.text.len() as int);
    crate::bytes::lemma_count_byte_concat(head, s, EOLCHAR);
    crate::bytes::lemma_count_byte_concat(head + s, tail, EOLCHAR);
    crate::bytes::lemma_count_byte_concat(head, tail, EOLCHAR);
    assert(head + tail =~= v.text);
    assert(w.text.subrange(0, w.point) =~= head + s);
    crate::bytes::lemma_count_byte_bound(w.text, EOLCHAR);
    crate::bytes::lemma_count_byte_bound(head + s, EOLCHAR);
}

/// A deletion between point and an offset keeps the line counters in step with the text.
pub proof fn lemma_deleted_lines(v: BufferView, to: int)
    requires
        view_ok(v),
        lines_ok(v),
        0 <= to <= v.text.len(),
    ensures
        lines_ok(deleted(v, to)),
{
    let w = deleted(v, to);
    let lo = if to < v.point { to } else { v.point };
    let hi = if to < v.point { v.point } else { to };
    if hi - lo > 0 {
        let head = v.text.subrange(0, lo);
        let mid = v.text.subrange(lo, hi);
        let tail = v.text.subrange(hi, v.text.len() as int);
        crate::bytes::lemma_count_byte_concat(head, mid, EOLCHAR);
        crate::bytes::lemma_count_byte_concat(head + mid, tail, EOLCHAR);
        crate::bytes::lemma_count_byte_concat(head, tail, EOLCHAR);
        assert(head + mid + tail =~= v.text);
        assert(head + mid =~= v.text.subrange(0, hi));
        assert(w.text.subrange(0, w.point) =~= head);
        crate::bytes::lemma_count_byte_bound(v.text, EOLCHAR);
        crate::bytes::lemma_count_byte_bound(head + mid, EOLCHAR);
    }
}

impl EmacsBuffer {
    /// The number of line feeds in `[from, to)`, the range cut off at the end of the text.
    pub fn count_newlines(&self, from: MintCount, to: MintCount) -> (r: MintCount)
        requires
            self.wf(),
        ensures
            r == newlines_between(self@.text, from as int, to as int),
    {
        let size = self.text.size();
        let hi = if to < size {
            to
        } else {
            size
        };
        if from >= hi {
            return 0;
        }
        let mut count: MintCount = 0;
        let mut i = from;
        while i < hi
            invariant
                self.wf(),
                from <= i <= hi <= self@.text.len(),
                count == count_byte(self@.text.subrange(from as int, i as int), EOLCHAR),
                count <= i - from,
            decreases hi - i,
        {
            proof {
                let t = self@.text.subrange(from as int, i + 1);
                assert(t.drop_last() =~= self@.text.subrange(from as int, i as int));
                assert(t.last() == self@.text[i as int]);
            }
            if let Some(ch) = self.text.get(i) {
                if ch == EOLCHAR {
                    count += 1;
                }
            }
            i += 1;
        }
        count
    }

    /// The text between two offsets, in either order, cut off at the end of the text.
    pub fn read(&self, from_pos: MintCount, to_pos: MintCount) -> (r: MintString)
        requires
            self.wf(),
        ensures
            r@ == search_window(
                self@.text,
                if from_pos < to_pos { from_pos as int } else { to_pos as int },
                if from_pos < to_pos { to_pos as int } else { from_pos as int },
            ),
    {
        let min_pos = if from_pos < to_pos {
            from_pos
        } else {
            to_pos
        };
        let max_pos = if from_pos < to_pos {
            to_pos
        } else {
            from_pos
        };
        let span = self.text.slice(min_pos, max_pos);
        crate::bytes::copy_bytes(span.as_slice())
    }

    /// The text between point and `mark`.
    pub fn read_to_mark(&self, mark: MintChar) -> (r: MintString)
        requires
            self.wf(),
        ensures
            r@ == text_between(self@, self@.point, mark_position(self@, mark, self@.point)),
    {
        self.read_to_mark_from(mark, self.point)
    }

    /// The text between `frompos` and `mark` seen from there.
    pub fn read_to_mark_from(&self, mark: MintChar, frompos: MintCount) -> (r: MintString)
        requires
            self.wf(),
        ensures
            r@ == text_between(
                self@,
                frompos as int,
                mark_position(self@, mark, frompos as int),
            ),
    {
        self.read(frompos, self.get_mark_position_from(mark, frompos))
    }

    /// The number of bytes between point and `mark`.
    pub fn chars_to_mark(&self, mark: MintChar) -> (r: MintCount)
        requires
            self.wf(),
        ensures
            r == vstd::math::abs(mark_position(self@, mark, self@.point) - self@.point),
    {
        let mark_pos = self.get_mark_position(mark);
        if mark_pos < self.point {
            self.point - mark_pos
        } else {
            mark_pos - self.point
        }
    }

    /// Whether `mark` stands before point.
    pub fn mark_before_point(&self, mark: MintChar) -> (r: bool)
        requires
            self.wf(),
        ensures
            r == (mark_position(self@, mark, self@.point) < self@.point),
    {
        self.get_mark_position(mark) < self.point
    }

    /// Moves the stored offsets behind point up by `n`.
    fn adjust_marks_ins(&mut self, n: MintCount)
        requires
            old(self).text.wf(),
            old(self).marks@.len() == MAX_MARKS,
            forall|i: int| 0 <= i < MAX_MARKS ==> #[trigger] old(self).marks@[i] + n <= u32::MAX,
            old(self).topline + n <= u32::MAX,
        ensures
            final(self)@ == (BufferView {
                topline: shifted_up(old(self)@.topline, old(self)@.point, n as int),
                marks: Seq::new(
                    old(self)@.marks.len(),
                    |i: int| shifted_up(old(self)@.marks[i] as int, old(self)@.point, n as int) as u32,
                ),
                ..old(self)@
            }),
            final(self).text == old(self).text,
            final(self).mark_stack == old(self).mark_stack,
            final(self).marks_sp == old(self).marks_sp,
    {
        let mut i: usize = 0;
        while i < MAX_MARKS
            invariant
                0 <= i <= MAX_MARKS,
                self.marks@.len() == MAX_MARKS,
                forall|k: int|
                    0 <= k < i ==> self.marks@[k] == shifted_up(
                        old(self).marks@[k] as int,
                        old(self).point as int,
                        n as int,
                    ),
                forall|k: int| i <= k < MAX_MARKS ==> self.marks@[k] == old(self).marks@[k],
                forall|k: int| 0 <= k < MAX_MARKS ==> #[trigger] old(self).marks@[k] + n <= u32::MAX,
                *self == (EmacsBuffer { marks: self.marks, ..*old(self) }),
            decreases MAX_MARKS - i,
        {
            if self.marks[i] > self.point {
                let m = self.marks[i] + n;
                self.marks.set(i, m);
            }
            i += 1;
        }
        if self.topline > self.point {
            self.topline = self.topline + n;
        }
        assert(self@.marks =~= Seq::new(
            old(self)@.marks.len(),
            |i: int| shifted_up(old(self)@.marks[i] as int, old(self)@.point, n as int) as u32,
        ));
    }

    /// Moves the stored offsets behind point down by `n`, but not before point.
    fn adjust_marks_del(&mut self, n: MintCount)
        requires
            old(self).marks@.len() == MAX_MARKS,
        ensures
            final(self)@ == (BufferView {
                topline: shifted_down(old(self)@.topline, old(self)@.point, n as int),
                marks: Seq::new(
                    old(self)@.marks.len(),
                    |i: int|
                        shifted_down(old(self)@.marks[i] as int, old(self)@.point, n as int) as u32,
                ),
                ..old(self)@
            }),
            final(self).text == old(self).text,
            final(self).mark_stack == old(self).mark_stack,
            final(self).marks_sp == old(self).marks_sp,
    {
        let mut i: usize = 0;
        while i < MAX_MARKS
            invariant
                0 <= i <= MAX_MARKS,
                self.marks@.len() == MAX_MARKS,
                forall|k: int|
                    0 <= k < i ==> self.marks@[k] == shifted_down(
                        old(self).marks@[k] as int,
                        old(self).point as int,
                        n as int,
                    ),
                forall|k: int| i <= k < MAX_MARKS ==> self.marks@[k] == old(self).marks@[k],
                *self == (EmacsBuffer { marks: self.marks, ..*old(self) }),
            decreases MAX_MARKS - i,
        {
            let m = self.marks[i];
            if m > self.point {
                let moved = if m - self.point > n {
                    m - n
                } else {
                    self.point
                };
                self.marks.set(i, moved);
            }
            i += 1;
        }
        if self.topline > self.point {
            self.topline = if self.topline - self.point > n {
                self.topline - n
            } else {
                self.point
            };
        }
        assert(self@.marks =~= Seq::new(
            old(self)@.marks.len(),
            |i: int| shifted_down(old(self)@.marks[i] as int, old(self)@.point, n as int) as u32,
        ));
    }

    /// Inserts `s` at point. Fails, and changes nothing, iff the buffer is
    /// write-protected or the text store finds no room. On success point
    /// moves behind `s`, every mark behind the old point moves with it, and
    /// the buffer counts as modified.
    pub fn insert_string(&mut self, s: &MintString) -> (ok: bool)
        requires
            old(self).wf(),
        ensures
            final(self).wf(),
            ok == (!old(self)@.wp && room_in(old(self)@, s@.len() as int)),
            ok ==> final(self)@ == inserted(old(self)@, s@),
            !ok ==> final(self)@ == old(self)@,
            lines_ok(old(self)@) ==> lines_ok(final(self)@),
    {
        if self.wp {
            return false;
        }
        proof {
            self.text.lemma_size();
        }
        if !self.text.insert(self.point, s) {
            return false;
        }
        proof {
            self.text.lemma_size();
            if lines_ok(old(self)@) {
                lemma_inserted_lines(old(self)@, s@);
            }
            crate::bytes::lemma_count_byte_bound(s@, EOLCHAR);
        }
        let newline_count = crate::bytes::count_in(s.as_slice(), EOLCHAR) as MintCount;
        let n = s.len() as MintCount;
        self.adjust_marks_ins(n);
        self.point += n;
        self.point_line = self.point_line.wrapping_add(newline_count);
        self.count_newlines = self.count_newlines.wrapping_add(newline_count);
        self.modified = true;
        assert(self@ == inserted(old(self)@, s@));
        true
    }

    /// Deletes the text between point and `mark`. Fails, and changes
    /// nothing, iff the buffer is write-protected.
    fn delete_to_mark(&mut self, mark: MintChar) -> (ok: bool)
        requires
            old(self).wf(),
        ensures
            final(self).wf(),
            ok == !old(self)@.wp,
            ok ==> final(self)@ == deleted(
                old(self)@,
                mark_position(old(self)@, mark, old(self)@.point),
            ),
            !ok ==> final(self)@ == old(self)@,
            lines_ok(old(self)@) ==> lines_ok(final(self)@),
    {
        if self.wp {
            return false;
        }
        let mark_pos = self.get_mark_position(mark);
        let min_pos = if mark_pos < self.point {
            mark_pos
        } else {
            self.point
        };
        let max_pos = if mark_pos < self.point {
            self.point
        } else {
            mark_pos
        };
        let delete_len = max_pos - min_pos;
        if delete_len == 0 {
            return true;
        }
        let newline_count = self.count_newlines(min_pos, max_pos);
        proof {
            self.text.lemma_size();
            if lines_ok(old(self)@) {
                lemma_deleted_lines(old(self)@, mark_pos as int);
            }
        }
        let erased = self.text.erase(min_pos, delete_len);
        assert(erased);
        self.point = min_pos;
        self.adjust_marks_del(delete_len);
        if mark_pos < max_pos {
            self.point_line = self.point_line.wrapping_sub(newline_count);
        }
        self.count_newlines = self.count_newlines.wrapping_sub(newline_count);
        self.modified = true;
        assert(self@ == deleted(old(self)@, mark_pos as int));
        true
    }

    /// Deletes from point to each of `marks` in turn. Fails, and changes
    /// nothing, iff the buffer is write-protected and `marks` is not empty.
    pub fn delete_to_marks(&mut self, marks: &MintString) -> (ok: bool)
        requires
            old(self).wf(),
        ensures
            final(self).wf(),
            ok == (!old(self)@.wp || marks@.len() == 0),
            final(self)@ == deleted_to_marks(old(self)@, marks@),
            final(self)@.bufno == old(self)@.bufno,
            lines_ok(old(self)@) ==> lines_ok(final(self)@),
    {
        let mut i: usize = 0;
        while i < marks.len()
            invariant
                self.wf(),
                self@.bufno == old(self)@.bufno,
                0 <= i <= marks@.len(),
                self@.wp == old(self)@.wp,
                i > 0 ==> !self@.wp,
                self@ == deleted_to_marks(old(self)@, marks@.subrange(0, i as int)),
                lines_ok(old(self)@) ==> lines_ok(self@),
            decreases marks@.len() - i,
        {
            proof {
                let t = marks@.subrange(0, i + 1);
                assert(t.drop_last() =~= marks@.subrange(0, i as int));
                assert(t.last() == marks@[i as int]);
            }
            if !self.delete_to_mark(marks[i]) {
                proof {
                    lemma_deleted_wp(old(self)@, marks@);
                }
                return false;
            }
            i += 1;
        }
        assert(marks@.subrange(0, marks@.len() as int) =~= marks@);
        true
    }

    /// Sets point to where `mark` stands, and the line of point to the
    /// number of line feeds before it.
    pub fn set_point_to_mark(&mut self, mark: MintChar)
        requires
            old(self).wf(),
        ensures
            final(self).wf(),
            final(self)@ == point_at(old(self)@, mark_position(old(self)@, mark, old(self)@.point)),
            final(self)@.newlines == count_byte(final(self)@.text, EOLCHAR) ==> lines_ok(
                final(self)@,
            ),
    {
        self.point = self.get_mark_position(mark);
        self.point_line = self.count_newlines(0, self.point);
        proof {
            lemma_newlines_prefix(self@.text, self@.point);
        }
    }

    /// Sets point to each of `marks` in turn.
    pub fn set_point_to_marks(&mut self, marks: &MintString)
        requires
            old(self).wf(),
        ensures
            final(self).wf(),
            final(self)@ == point_at_marks(old(self)@, marks@),
            final(self)@.bufno == old(self)@.bufno,
            lines_ok(old(self)@) ==> lines_ok(final(self)@),
    {
        proof {
            lemma_point_at_marks(old(self)@, marks@);
        }
        let mut i: usize = 0;
        while i < marks.len()
            invariant
                self.wf(),
                self@.bufno == old(self)@.bufno,
                0 <= i <= marks@.len(),
                self@ == point_at_marks(old(self)@, marks@.subrange(0, i as int)),
            decreases marks@.len() - i,
        {
            proof {
                let t = marks@.subrange(0, i + 1);
                assert(t.drop_last() =~= marks@.subrange(0, i as int));
                assert(t.last() == marks@[i as int]);
            }
            self.set_point_to_mark(marks[i]);
            i += 1;
        }
        assert(marks@.subrange(0, marks@.len() as int) =~= marks@);
    }

    /// Opens a window of `n` temporary marks, all set to point; the window
    /// in use is pushed aside. Fails, and changes nothing, iff the marks do
    /// not fit the table or the stack of windows is full.
    pub fn push_temp_marks(&mut self, n: MintCount) -> (ok: bool)
        requires
            old(self).wf(),
        ensures
            final(self).wf(),
            ok == can_push_marks(old(self)@, n as int),
            final(self)@ == marks_pushed(old(self)@, n as int),
    {
        if n as usize > MAX_MARKS || self.temp_mark_last + n as usize > MAX_MARKS || self.marks_sp
            >= MAX_MARKS {
            return false;
        }
        let n = n as usize;
        self.mark_stack.set(self.marks_sp, self.temp_mark_base);
        self.marks_sp += 1;
        self.temp_mark_base = self.temp_mark_last;
        self.temp_mark_last = self.temp_mark_base + n;
        let mut i: usize = 0;
        while i < n
            invariant
                0 <= i <= n,
                self.temp_mark_base + n <= MAX_MARKS,
                self.marks@.len() == MAX_MARKS,
                self.temp_mark_base == old(self).temp_mark_last,
                self.point <= self.text@.len(),
                forall|k: int|
                    0 <= k < MAX_MARKS ==> self.marks@[k] == if self.temp_mark_base <= k
                        < self.temp_mark_base + i {
                        self.point
                    } else {
                        old(self).marks@[k]
                    },
                *self == (EmacsBuffer { marks: self.marks, ..*self }),
                self.text == old(self).text,
                self.point == old(self).point,
                self.topline == old(self).topline,
                self.perm_mark_count == old(self).perm_mark_count,
                self.tab_width == old(self).tab_width,
                self.temp_mark_last == self.temp_mark_base + n,
                self.marks_sp == old(self).marks_sp + 1,
                self.mark_stack@ == old(self).mark_stack@.update(
                    old(self).marks_sp as int,
                    old(self).temp_mark_base,
                ),
                self.wp == old(self).wp,
                self.modified == old(self).modified,
                self.leftcol == old(self).leftcol,
                self.point_line == old(self).point_line,
                self.topline_line == old(self).topline_line,
                self.count_newlines == old(self).count_newlines,
                self.bufno == old(self).bufno,
            decreases n - i,
        {
            self.marks.set(self.temp_mark_base + i, self.point);
            i += 1;
        }
        assert(self@.stack =~= old(self)@.stack.push(old(self)@.temp_base as usize));
        assert(self@.marks =~= Seq::new(
            MAX_MARKS as nat,
            |i: int|
                if old(self)@.temp_last <= i < old(self)@.temp_last + n {
                    old(self)@.point as u32
                } else {
                    old(self)@.marks[i]
                },
        ));
        true
    }

    /// Closes the window of temporary marks in use and brings back the one
    /// pushed aside last. Fails, and changes nothing, iff none was pushed aside.
    pub fn pop_temp_marks(&mut self) -> (ok: bool)
        requires
            old(self).wf(),
        ensures
            final(self).wf(),
            ok == (old(self)@.stack.len() > 0),
            final(self)@ == marks_popped(old(self)@),
    {
        if self.marks_sp > 0 {
            assert(old(self)@.stack[self.marks_sp - 1] <= old(self)@.temp_base);
            self.temp_mark_last = self.temp_mark_base;
            self.marks_sp -= 1;
            self.temp_mark_base = self.mark_stack[self.marks_sp];
            assert(self@.stack =~= old(self)@.stack.drop_last());
            assert forall|i: int| 0 <= i < self@.stack.len() implies #[trigger] self@.stack[i]
                <= self@.temp_base by {
                assert(old(self)@.stack[i] <= old(self)@.stack[self.marks_sp as int]);
            }
            true
        } else {
            false
        }
    }

    /// Makes the first `n` slots the permanent marks and forgets all
    /// windows of temporary marks. Fails, and changes nothing, iff `n` is
    /// more than the permanent marks there can be.
    pub fn create_perm_marks(&mut self, n: MintCount) -> (ok: bool)
        requires
            old(self).wf(),
        ensures
            final(self).wf(),
            ok == (n <= MARK_MAX_PERM),
            final(self)@ == perm_marks_made(old(self)@, n as int),
    {
        if n as usize <= MARK_MAX_PERM {
            let n = n as usize;
            self.perm_mark_count = n;
            self.temp_mark_base = n;
            self.temp_mark_last = n;
            self.marks_sp = 0;
            assert(self@.stack =~= Seq::<usize>::empty());
            true
        } else {
            false
        }
    }
}

/// The text between two offsets of a buffer, in either order.
pub open spec fn text_between(v: BufferView, a: int, b: int) -> Seq<u8> {
    search_window(v.text, if a < b { a } else { b }, if a < b { b } else { a })
}

/// Deleting to marks leaves a write-protected buffer as it is.
pub proof fn lemma_deleted_wp(v: BufferView, marks: Seq<u8>)
    requires
        v.wp,
    ensures
        deleted_to_marks(v, marks) == v,
{
}

/// The first index of `ch` in `s`, or -1.
pub open spec fn index_in(s: Seq<u8>, ch: u8) -> int
    decreases s.len(),
{
    if s.len() == 0 {
        -1
    } else {
        let i = index_in(s.drop_last(), ch);
        if i >= 0 {
            i
        } else if s.last() == ch {
            s.len() - 1
        } else {
            -1
        }
    }
}

/// What a translation string makes of a byte. The string is two halves:
/// a byte found in the first half becomes the byte at the same place of
/// the second half; any other byte stays.
pub open spec fn translated_byte(ch: u8, trstr: Seq<u8>) -> u8 {
    let half = trstr.len() / 2;
    let i = index_in(trstr.subrange(0, half as int), ch);
    if i >= 0 {
        trstr[half + i]
    } else {
        ch
    }
}

/// Whether a translation string translates a byte, be it to itself.
pub open spec fn translates(ch: u8, trstr: Seq<u8>) -> bool {
    index_in(trstr.subrange(0, (trstr.len() / 2) as int), ch) >= 0
}

/// The text with the bytes in `[lo, hi)` translated.
pub open spec fn translated_text(text: Seq<u8>, lo: int, hi: int, trstr: Seq<u8>) -> Seq<u8> {
    Seq::new(
        text.len(),
        |i: int|
            if lo <= i < hi {
                translated_byte(text[i], trstr)
            } else {
                text[i]
            },
    )
}

/// Whether a translation translates some byte in `[lo, hi)`.
pub open spec fn translates_some(text: Seq<u8>, lo: int, hi: int, trstr: Seq<u8>) -> bool {
    exists|i: int| lo <= i < hi && 0 <= i < text.len() && translates(#[trigger] text[i], trstr)
}

pub proof fn lemma_index_in(s: Seq<u8>, ch: u8)
    ensures
        -1 <= index_in(s, ch) < s.len(),
        index_in(s, ch) >= 0 ==> s[index_in(s, ch)] == ch,
        forall|k: int| 0 <= k < s.len() && s[k] == ch ==> 0 <= index_in(s, ch) <= k,
    decreases s.len(),
{
    if s.len() > 0 {
        lemma_index_in(s.drop_last(), ch);
        assert forall|k: int| 0 <= k < s.len() && s[k] == ch implies 0 <= index_in(s, ch)
            <= k by {
            if k < s.len() - 1 {
                assert(s.drop_last()[k] == ch);
            }
        }
    }
}

/// Two texts that hold `b` at the same places hold it equally often.
pub proof fn lemma_count_same_places(x: Seq<u8>, y: Seq<u8>, b: u8)
    requires
        x.len() == y.len(),
        forall|i: int| 0 <= i < x.len() ==> ((#[trigger] x[i] == b) <==> (y[i] == b)),
    ensures
        count_byte(x, b) == count_byte(y, b),
    decreases x.len(),
{
    if x.len() > 0 {
        assert forall|i: int| 0 <= i < x.drop_last().len() implies ((
        #[trigger] x.drop_last()[i] == b) <==> (y.drop_last()[i] == b)) by {
            assert(x[i] == x.drop_last()[i]);
        }
        lemma_count_same_places(x.drop_last(), y.drop_last(), b);
    }
}

/// A translation that knows no line feed leaves the line feeds where they are.
pub proof fn lemma_translated_lines(text: Seq<u8>, lo: int, hi: int, trstr: Seq<u8>, to: int)
    requires
        !trstr.contains(EOLCHAR),
        0 <= to <= text.len(),
    ensures
        count_byte(translated_text(text, lo, hi, trstr).subrange(0, to), EOLCHAR) == count_byte(
            text.subrange(0, to),
            EOLCHAR,
        ),
{
    let t = translated_text(text, lo, hi, trstr);
    let half = (trstr.len() / 2) as int;
    assert forall|i: int| 0 <= i < to implies ((#[trigger] t.subrange(0, to)[i] == EOLCHAR) <==> (
    text.subrange(0, to)[i] == EOLCHAR)) by {
        let ch = text[i];
        lemma_index_in(trstr.subrange(0, half), ch);
        let k = index_in(trstr.subrange(0, half), ch);
        if lo <= i < hi && k >= 0 {
            assert(trstr.subrange(0, half)[k] == trstr[k]);
            assert(trstr.contains(trstr[k]));
            assert(trstr.contains(trstr[half + k]));
        }
    }
    lemma_count_same_places(t.subrange(0, to), text.subrange(0, to), EOLCHAR);
}

impl EmacsBuffer {
    /// The first index of `ch` in `s[..n]`.
    fn position_in(s: &MintString, n: usize, ch: MintChar) -> (r: Option<usize>)
        requires
            n <= s@.len(),
        ensures
            match r {
                Some(i) => i < n && i == index_in(s@.subrange(0, n as int), ch),
                None => index_in(s@.subrange(0, n as int), ch) == -1,
            },
    {
        let mut i: usize = 0;
        while i < n
            invariant
                0 <= i <= n <= s@.len(),
                forall|k: int| 0 <= k < i ==> s@[k] != ch,
            decreases n - i,
        {
            if s[i] == ch {
                proof {
                    lemma_index_in(s@.subrange(0, n as int), ch);
                    assert(s@.subrange(0, n as int)[i as int] == ch);
                    let found = index_in(s@.subrange(0, n as int), ch);
                    assert(s@.subrange(0, n as int)[found] == s@[found]);
                }
                return Some(i);
            }
            i += 1;
        }
        proof {
            lemma_index_in(s@.subrange(0, n as int), ch);
            let found = index_in(s@.subrange(0, n as int), ch);
            if found >= 0 {
                assert(s@.subrange(0, n as int)[found] == s@[found]);
            }
        }
        None
    }

    /// Translates the bytes between point and `mark` by `trstr`. Returns
    /// whether any byte was translated, and marks the buffer as modified if
    /// so. Nothing happens in a write-protected buffer or with a string of
    /// fewer than two bytes.
    pub fn translate(&mut self, mark: MintChar, trstr: &MintString) -> (changed: bool)
        requires
            old(self).wf(),
        ensures
            final(self).wf(),
            changed == translation_hits(old(self)@, mark, trstr@),
            final(self)@ == translated(old(self)@, mark, trstr@),
            lines_ok(old(self)@) && !trstr@.contains(EOLCHAR) ==> lines_ok(final(self)@),
    {
        if self.wp || trstr.len() < 2 {
            return false;
        }
        let half = trstr.len() / 2;
        let mark_pos = self.get_mark_position(mark);
        let min_pos = if mark_pos < self.point {
            mark_pos
        } else {
            self.point
        };
        let max_pos = if mark_pos < self.point {
            self.point
        } else {
            mark_pos
        };
        let ghost text0 = self@.text;
        let mut changed = false;
        let mut pos = min_pos;
        while pos < max_pos
            invariant
                self.text.wf(),
                min_pos <= pos <= max_pos <= text0.len(),
                half == trstr@.len() / 2,
                2 <= trstr@.len() <= usize::MAX,
                text0.len() <= u32::MAX,
                self.text@ == translated_text(text0, min_pos as int, pos as int, trstr@),
                self.text.capacity() == old(self).text.capacity(),
                changed == translates_some(text0, min_pos as int, pos as int, trstr@),
                *self == (EmacsBuffer { text: self.text, ..*old(self) }),
            decreases max_pos - pos,
        {
            let ghost before = self.text@;
            let ch = self.text.get(pos);
            let ghost c0 = text0[pos as int];
            assert(ch == Some(c0));
            let mut hit = false;
            if let Some(c) = ch {
                if let Some(idx) = Self::position_in(trstr, half, c) {
                    let mut replacement: MintString = Vec::new();
                    replacement.push(trstr[half + idx]);
                    proof {
                        self.text.lemma_size();
                    }
                    let ok = self.text.replace(pos, 1, &replacement);
                    assert(ok);
                    hit = true;
                    changed = true;
                }
            }
            proof {
                assert(hit == translates(c0, trstr@));
                assert(self.text@ =~= translated_text(text0, min_pos as int, pos + 1, trstr@));
                if translates_some(text0, min_pos as int, pos as int, trstr@) {
                    let w = choose|i: int|
                        min_pos <= i < pos && 0 <= i < text0.len() && translates(
                            #[trigger] text0[i],
                            trstr@,
                        );
                    assert(min_pos <= w < pos + 1 && translates(text0[w], trstr@));
                }
                if hit {
                    assert(min_pos <= pos < pos + 1 && translates(text0[pos as int], trstr@));
                }
                if translates_some(text0, min_pos as int, pos + 1, trstr@) {
                    let w = choose|i: int|
                        min_pos <= i < pos + 1 && 0 <= i < text0.len() && translates(
                            #[trigger] text0[i],
                            trstr@,
                        );
                    if w < pos {
                        assert(translates_some(text0, min_pos as int, pos as int, trstr@));
                    }
                }
            }
            pos += 1;
        }
        if changed {
            self.modified = true;
        }
        proof {
            assert(self@.marks == old(self)@.marks);
            if lines_ok(old(self)@) && !trstr@.contains(EOLCHAR) {
                lemma_translated_lines(
                    text0,
                    min_pos as int,
                    max_pos as int,
                    trstr@,
                    self@.point,
                );
                lemma_translated_lines(
                    text0,
                    min_pos as int,
                    max_pos as int,
                    trstr@,
                    text0.len() as int,
                );
                assert(self@.text.subrange(0, text0.len() as int) =~= self@.text);
                assert(text0.subrange(0, text0.len() as int) =~= text0);
            }
        }
        changed
    }

    /// The leftmost match of `pattern` in `[start, end)`.
    pub fn find_forward(&self, pattern: &SearchPattern, start: MintCount, end: MintCount) -> (r:
        Option<(MintCount, MintCount)>)
        requires
            self.wf(),
        ensures
            found_at(r) == match_in_text(
                first_match(pattern@, search_window(self@.text, start as int, end as int)),
                start as int,
            ),
            r matches Some((s, e)) ==> start <= s <= e <= start + search_window(
                self@.text,
                start as int,
                end as int,
            ).len(),
    {
        self.text.find_forward(pattern, start, end)
    }

    /// The last match of `pattern` in `[start, end)`.
    pub fn find_backward(&self, pattern: &SearchPattern, start: MintCount, end: MintCount) -> (r:
        Option<(MintCount, MintCount)>)
        requires
            self.wf(),
        ensures
            found_at(r) == match_in_text(
                last_match(pattern@, search_window(self@.text, start as int, end as int)),
                start as int,
            ),
            r matches Some((s, e)) ==> start <= s <= e <= start + search_window(
                self@.text,
                start as int,
                end as int,
            ).len(),
    {
        self.text.find_backward(pattern, start, end)
    }
}

/// The lower end of the range between point and `mark`.
pub open spec fn range_lo(v: BufferView, mark: u8) -> int {
    let m = mark_position(v, mark, v.point);
    if m < v.point {
        m
    } else {
        v.point
    }
}

/// The upper end of the range between point and `mark`.
pub open spec fn range_hi(v: BufferView, mark: u8) -> int {
    let m = mark_position(v, mark, v.point);
    if m < v.point {
        v.point
    } else {
        m
    }
}

/// The number of columns that `ch` takes at column `col`: a tab reaches to
/// the next tab stop, printable ASCII takes one column, and any other byte
/// is shown as an escape of two.
pub open spec fn width_at(col: int, ch: u8, tab: int) -> int {
    if ch == 9 {
        tab - col % tab
    } else if ch < 32 || ch >= 127 {
        2
    } else {
        1
    }
}

/// The column reached by showing `text[from..to)` from column 0.
pub open spec fn columns_between(text: Seq<u8>, from: int, to: int, tab: int) -> int
    decreases to - from,
{
    if to <= from {
        0
    } else {
        let c = columns_between(text, from, to - 1, tab);
        c + width_at(c, text[to - 1], tab)
    }
}

/// The same, with the range cut off at the end of the text.
pub open spec fn columns_in(text: Seq<u8>, from: int, to: int, tab: int) -> int {
    columns_between(text, from, if to < text.len() { to } else { text.len() as int }, tab)
}

/// Where a walk from `pos` at column `cur` stops: at the first offset
/// whose column reaches `col`, at the latest at `eol`.
pub open spec fn column_stop(text: Seq<u8>, pos: int, eol: int, cur: int, col: int, tab: int) -> int
    decreases eol - pos,
{
    if pos >= eol || cur >= col {
        pos
    } else {
        column_stop(text, pos + 1, eol, cur + width_at(cur, text[pos], tab), col, tab)
    }
}

/// The offset `n` lines down from `pos`: each step goes to the end of
/// the line and one byte on, and stops at the end of the text.
pub open spec fn lines_forward(text: Seq<u8>, pos: int, n: int) -> int
    decreases n,
{
    if n <= 0 {
        pos
    } else {
        let e = line_end(text, lines_forward(text, pos, n - 1));
        if e < text.len() {
            e + 1
        } else {
            text.len() as int
        }
    }
}

/// The offset `n` lines up from `pos`: each step goes one byte back and
/// from there to the start of the line.
pub open spec fn lines_backward(text: Seq<u8>, pos: int, n: int) -> int
    decreases n,
{
    if n <= 0 {
        pos
    } else {
        let p = lines_backward(text, pos, n - 1);
        line_start(text, if p > 0 { p - 1 } else { 0 })
    }
}

/// The buffer after the scroll anchor was moved so that point shows in a
/// window of `li` rows, with `tp` and `bp` percent of them as the margins
/// at the top and at the bottom.
pub open spec fn scrolled(v: BufferView, li: int, tp: int, bp: int) -> BufferView {
    let tl = li * tp / 100;
    let bl = li * bp / 100;
    let back = if li > 0 { li - 1 } else { 0 };
    if v.point_line <= tl {
        BufferView { topline: 0, topline_line: 0, ..v }
    } else if v.point_line >= v.newlines - bl {
        BufferView {
            topline: lines_backward(v.text, line_start(v.text, v.text.len() as int), back),
            topline_line: if v.newlines > back { v.newlines - back } else { 0 },
            ..v
        }
    } else if v.point_line < v.topline_line + tl {
        BufferView {
            topline: lines_backward(v.text, v.topline, v.topline_line + tl - v.point_line),
            topline_line: v.point_line - tl,
            ..v
        }
    } else if v.point_line >= v.topline_line + (li - bl) {
        BufferView {
            topline: lines_forward(v.text, v.topline, v.point_line - (v.topline_line + (li - bl))),
            topline_line: v.point_line - (li - bl),
            ..v
        }
    } else {
        v
    }
}

pub proof fn lemma_lines_forward_bounds(text: Seq<u8>, pos: int, n: int)
    requires
        0 <= pos,
    ensures
        0 <= lines_forward(text, pos, n),
        pos <= text.len() ==> lines_forward(text, pos, n) <= text.len(),
        lines_forward(text, pos, n) <= text.len() || lines_forward(text, pos, n) == pos,
    decreases n,
{
    if n > 0 {
        lemma_lines_forward_bounds(text, pos, n - 1);
        lemma_first_from_bounds(text, lines_forward(text, pos, n - 1), ByteClass::Newline);
    }
}

pub proof fn lemma_lines_backward_bounds(text: Seq<u8>, pos: int, n: int)
    requires
        0 <= pos,
    ensures
        0 <= lines_backward(text, pos, n) <= pos,
        pos <= text.len() ==> lines_backward(text, pos, n) <= text.len(),
    decreases n,
{
    if n > 0 {
        lemma_lines_backward_bounds(text, pos, n - 1);
        let p = lines_backward(text, pos, n - 1);
        lemma_last_before_bounds(text, if p > 0 { p - 1 } else { 0 }, ByteClass::Newline);
    }
}

pub proof fn lemma_column_stop_bounds(
    text: Seq<u8>,
    pos: int,
    eol: int,
    cur: int,
    col: int,
    tab: int,
)
    requires
        pos <= eol,
    ensures
        pos <= column_stop(text, pos, eol, cur, col, tab) <= eol,
    decreases eol - pos,
{
    if pos >= eol || cur >= col {
    } else {
        lemma_column_stop_bounds(text, pos + 1, eol, cur + width_at(cur, text[pos], tab), col, tab);
    }
}

/// A text without the byte `b` counts none.
pub proof fn lemma_count_none(s: Seq<u8>, b: u8)
    requires
        forall|i: int| 0 <= i < s.len() ==> #[trigger] s[i] != b,
    ensures
        count_byte(s, b) == 0,
    decreases s.len(),
{
    if s.len() > 0 {
        assert forall|i: int| 0 <= i < s.drop_last().len() implies #[trigger] s.drop_last()[i]
            != b by {
            assert(s.drop_last()[i] == s[i]);
        }
        lemma_count_none(s.drop_last(), b);
        assert(s.last() == s[s.len() - 1]);
    }
}

/// Every offset of a line has as many line feeds before it as any other.
pub proof fn lemma_same_line(text: Seq<u8>, pos: int, q: int)
    requires
        0 <= pos <= text.len(),
        line_start(text, pos) <= q <= line_end(text, pos),
    ensures
        count_byte(text.subrange(0, q), EOLCHAR) == count_byte(text.subrange(0, pos), EOLCHAR),
{
    let bol = line_start(text, pos);
    let eol = line_end(text, pos);
    lemma_last_before_bounds(text, pos, ByteClass::Newline);
    lemma_first_from_bounds(text, pos, ByteClass::Newline);
    assert forall|i: int| bol <= i < eol implies text[i] != EOLCHAR by {
        if i < pos {
            assert(!in_class(ByteClass::Newline, text[i]));
        } else {
            assert(!in_class(ByteClass::Newline, text[i]));
        }
    }
    let a = text.subrange(bol, q);
    let b = text.subrange(bol, pos);
    assert forall|i: int| 0 <= i < a.len() implies #[trigger] a[i] != EOLCHAR by {
        assert(a[i] == text[bol + i]);
    }
    assert forall|i: int| 0 <= i < b.len() implies #[trigger] b[i] != EOLCHAR by {
        assert(b[i] == text[bol + i]);
    }
    lemma_count_none(a, EOLCHAR);
    lemma_count_none(b, EOLCHAR);
    crate::bytes::lemma_count_byte_split(text, 0, bol, q, EOLCHAR);
    crate::bytes::lemma_count_byte_split(text, 0, bol, pos, EOLCHAR);
}

/// The number of columns that `ch` takes at column `col`.
fn width_of(col: u64, ch: MintChar, tab: MintCount) -> (r: MintCount)
    requires
        tab > 0,
    ensures
        r == width_at(col as int, ch, tab as int),
        1 <= r,
        r <= tab || r <= 2,
{
    if ch == 9 {
        tab - (col % (tab as u64)) as MintCount
    } else if ch < 32 || ch >= 127 {
        2
    } else {
        1
    }
}

impl EmacsBuffer {
    /// The number of columns that `ch` takes at column `cur_col`.
    pub fn char_width(&self, cur_col: MintCount, ch: MintChar) -> (r: MintCount)
        requires
            self.wf(),
        ensures
            r == width_at(cur_col as int, ch, self@.tab_width),
    {
        width_of(cur_col as u64, ch, self.tab_width)
    }

    /// The column reached by showing `[from, to)` from column 0; a column
    /// beyond the counter's range reads as its maximum.
    pub fn count_columns(&self, from: MintCount, to: MintCount) -> (r: MintCount)
        requires
            self.wf(),
        ensures
            r == if columns_in(self@.text, from as int, to as int, self@.tab_width) <= u32::MAX {
                columns_in(self@.text, from as int, to as int, self@.tab_width)
            } else {
                u32::MAX as int
            },
    {
        let size = self.text.size();
        let hi = if to < size {
            to
        } else {
            size
        };
        let tab = self.tab_width;
        let widest: u64 = if tab < 2 {
            2
        } else {
            tab as u64
        };
        let mut col: u64 = 0;
        let mut i = from;
        if from >= hi {
            return 0;
        }
        while i < hi
            invariant
                self.wf(),
                tab == self@.tab_width,
                tab > 0,
                widest == if tab < 2 { 2 } else { tab as int },
                from <= i <= hi <= self@.text.len(),
                self@.text.len() <= u32::MAX,
                col == columns_between(self@.text, from as int, i as int, tab as int),
                col <= (i - from) * widest,
            decreases hi - i,
        {
            assert((i - from) * widest + widest == (i + 1 - from) * widest) by (nonlinear_arith);
            assert((i + 1 - from) * widest <= 0xFFFF_FFFF * 0xFFFF_FFFF) by (nonlinear_arith)
                requires
                    0 <= i + 1 - from <= 0xFFFF_FFFF,
                    0 <= widest <= 0xFFFF_FFFF,
            ;
            if let Some(ch) = self.text.get(i) {
                col += width_of(col, ch, tab) as u64;
            }
            i += 1;
        }
        if col > u32::MAX as u64 {
            u32::MAX
        } else {
            col as MintCount
        }
    }

    /// The column of point.
    pub fn get_column(&self) -> (r: MintCount)
        requires
            self.wf(),
        ensures
            r == column_of(self@),
    {
        let bol = self.find_bol(self.point);
        self.count_columns(bol, self.point)
    }

    /// Moves point along its line to the first offset whose column reaches
    /// `col`, at the latest to the end of the line.
    pub fn set_column(&mut self, col: MintCount)
        requires
            old(self).wf(),
        ensures
            final(self).wf(),
            final(self)@ == column_set(old(self)@, col as int),
            lines_ok(old(self)@) ==> lines_ok(final(self)@),
    {
        let bol = self.find_bol(self.point);
        let eol = self.find_eol(self.point);
        proof {
            lemma_last_before_bounds(self@.text, self@.point, ByteClass::Newline);
            lemma_first_from_bounds(self@.text, self@.point, ByteClass::Newline);
            lemma_column_stop_bounds(self@.text, bol as int, eol as int, 0, col as int, self@.tab_width);
        }
        let tab = self.tab_width;
        let mut cur_col: u64 = 0;
        let mut pos = bol;
        while pos < eol && cur_col < col as u64
            invariant
                self.wf(),
                *self == *old(self),
                tab == self@.tab_width,
                bol <= pos <= eol <= self@.text.len(),
                column_stop(self@.text, pos as int, eol as int, cur_col as int, col as int, tab as int)
                    == column_stop(self@.text, bol as int, eol as int, 0, col as int, tab as int),
            decreases eol - pos,
        {
            if let Some(c) = self.text.get(pos) {
                cur_col += width_of(cur_col, c, tab) as u64;
            }
            pos += 1;
        }
        proof {
            assert(column_stop(
                self@.text,
                pos as int,
                eol as int,
                cur_col as int,
                col as int,
                tab as int,
            ) == pos);
            if lines_ok(old(self)@) {
                lemma_same_line(self@.text, self@.point, pos as int);
            }
        }
        self.point = pos;
    }

    /// The offset `lines` lines down from `pos`.
    fn forward_lines(&self, pos: MintCount, lines: MintCount) -> (r: MintCount)
        requires
            self.wf(),
        ensures
            r == lines_forward(self@.text, pos as int, lines as int),
            pos <= self@.text.len() ==> r <= self@.text.len(),
    {
        let mut current_pos = pos;
        let mut k: MintCount = 0;
        proof {
            lemma_lines_forward_bounds(self@.text, pos as int, lines as int);
        }
        while k < lines
            invariant
                self.wf(),
                0 <= k <= lines,
                current_pos == lines_forward(self@.text, pos as int, k as int),
            decreases lines - k,
        {
            current_pos = self.get_mark_position_from(MARK_EOL, current_pos);
            current_pos = self.get_mark_position_from(MARK_NEXT_CHAR, current_pos);
            k += 1;
        }
        current_pos
    }

    /// The offset `lines` lines up from `pos`.
    fn backward_lines(&self, pos: MintCount, lines: MintCount) -> (r: MintCount)
        requires
            self.wf(),
        ensures
            r == lines_backward(self@.text, pos as int, lines as int),
            r <= pos,
    {
        let mut current_pos = pos;
        let mut k: MintCount = 0;
        proof {
            lemma_lines_backward_bounds(self@.text, pos as int, lines as int);
        }
        while k < lines
            invariant
                self.wf(),
                0 <= k <= lines,
                current_pos == lines_backward(self@.text, pos as int, k as int),
            decreases lines - k,
        {
            current_pos = self.get_mark_position_from(MARK_PREV_CHAR, current_pos);
            current_pos = self.get_mark_position_from(MARK_BOL, current_pos);
            k += 1;
        }
        current_pos
    }

    /// Moves point by as many lines as `lno` differs from the line of
    /// point, up or down, and sets the line of point to `lno`.
    pub fn set_point_line(&mut self, lno: MintCount)
        requires
            old(self).wf(),
        ensures
            final(self).wf(),
            final(self)@ == point_line_set(old(self)@, lno as int),
            lines_ok(old(self)@) && (lno == old(self)@.point_line || (lno > old(self)@.point_line
                && lno <= old(self)@.newlines) || (lno < old(self)@.point_line && at_line_start(
                old(self)@.text,
                old(self)@.point,
            ))) ==> lines_ok(final(self)@),
    {
        proof {
            if lines_ok(old(self)@) && (lno == old(self)@.point_line || (lno > old(
                self,
            )@.point_line && lno <= old(self)@.newlines) || (lno < old(self)@.point_line
                && at_line_start(old(self)@.text, old(self)@.point))) {
                law_line_bookkeeping_by_lines(old(self)@, lno as int);
            }
        }
        if lno <= self.point_line {
            let lines_back = self.point_line - lno;
            self.point = self.backward_lines(self.point, lines_back);
        } else {
            let lines_forward = lno - self.point_line;
            self.point = self.forward_lines(self.point, lines_forward);
        }
        self.point_line = lno;
    }

    /// Moves the scroll anchor, in whole lines, so that point shows in a
    /// window of `li` rows; `tp` and `bp` are the margins at the top and at
    /// the bottom, in percent of the rows.
    pub fn force_point_in_window(
        &mut self,
        li: MintCount,
        _co: MintCount,
        tp: MintCount,
        bp: MintCount,
    )
        requires
            old(self).wf(),
        ensures
            final(self).wf(),
            final(self)@ == scrolled(old(self)@, li as int, tp as int, bp as int),
    {
        assert(li * tp <= 0xFFFF_FFFF * 0xFFFF_FFFF) by (nonlinear_arith)
            requires
                0 <= li <= 0xFFFF_FFFF,
                0 <= tp <= 0xFFFF_FFFF,
        ;
        assert(li * bp <= 0xFFFF_FFFF * 0xFFFF_FFFF) by (nonlinear_arith)
            requires
                0 <= li <= 0xFFFF_FFFF,
                0 <= bp <= 0xFFFF_FFFF,
        ;
        let tl: u64 = (li as u64) * (tp as u64) / 100;
        if self.point_line as u64 <= tl {
            self.topline = 0;
            self.topline_line = 0;
        } else {
            let bl: u64 = (li as u64) * (bp as u64) / 100;
            if self.point_line as u64 + bl >= self.count_newlines as u64 {
                let size = self.text.size();
                let back = if li > 0 {
                    li - 1
                } else {
                    0
                };
                let bol = self.find_bol(size);
                proof {
                    lemma_last_before_bounds(self@.text, size as int, ByteClass::Newline);
                }
                self.topline = self.backward_lines(bol, back);
                self.topline_line = if self.count_newlines > back {
                    self.count_newlines - back
                } else {
                    0
                };
            } else if (self.point_line as u64) < self.topline_line as u64 + tl {
                let blines = (self.topline_line as u64 + tl - self.point_line as u64) as MintCount;
                self.topline = self.backward_lines(self.topline, blines);
                self.topline_line -= blines;
            } else if self.point_line as u64 + bl >= self.topline_line as u64 + li as u64 {
                let flines = (self.point_line as u64 + bl - self.topline_line as u64 - li as u64) as MintCount;
                self.topline = self.forward_lines(self.topline, flines);
                self.topline_line += flines;
            }
        }
    }

    /// Moves the scroll anchor `li` lines up from the line of point, or to
    /// the start of the text if there are not that many lines before point.
    pub fn set_point_row(&mut self, li: MintCount)
        requires
            old(self).wf(),
        ensures
            final(self).wf(),
            final(self)@ == point_row_set(old(self)@, li as int),
    {
        if self.point_line <= li {
            self.topline = 0;
            self.topline_line = 0;
        } else {
            let bol = self.get_mark_position(MARK_BOL);
            self.topline = self.backward_lines(bol, li);
            self.topline_line = self.count_newlines(bol, self.topline);
        }
    }

    /// The row of the window that shows point: the distance of its line
    /// from that of the scroll anchor, in a counter that wraps.
    pub fn get_point_row(&self) -> (r: MintCount)
        ensures
            r == wrapped(self@.point_line - self@.topline_line),
    {
        self.point_line.wrapping_sub(self.topline_line)
    }
}

/// Whether a window of `n` temporary marks can be opened: the marks
/// fit the table and the stack of windows is not full.
pub open spec fn can_push_marks(v: BufferView, n: int) -> bool {
    v.temp_last + n <= MAX_MARKS && v.stack.len() < MAX_MARKS
}

/// The buffer after a window of `n` temporary marks was opened, all set
/// to point, and the window in use pushed aside; unchanged if that cannot be.
pub open spec fn marks_pushed(v: BufferView, n: int) -> BufferView {
    if can_push_marks(v, n) {
        BufferView {
            stack: v.stack.push(v.temp_base as usize),
            temp_base: v.temp_last,
            temp_last: v.temp_last + n,
            marks: Seq::new(
                MAX_MARKS as nat,
                |i: int|
                    if v.temp_last <= i < v.temp_last + n {
                        v.point as u32
                    } else {
                        v.marks[i]
                    },
            ),
            ..v
        }
    } else {
        v
    }
}

/// The buffer after the window of temporary marks in use was closed and
/// the one pushed aside last brought back; unchanged if none was pushed aside.
pub open spec fn marks_popped(v: BufferView) -> BufferView {
    if v.stack.len() > 0 {
        BufferView {
            stack: v.stack.drop_last(),
            temp_base: v.stack.last() as int,
            temp_last: v.temp_base,
            ..v
        }
    } else {
        v
    }
}

/// The buffer after the first `n` slots were made the permanent marks
/// and all windows of temporary marks forgotten; unchanged if `n` is too large.
pub open spec fn perm_marks_made(v: BufferView, n: int) -> BufferView {
    if n <= MARK_MAX_PERM {
        BufferView { stack: Seq::empty(), temp_base: n, temp_last: n, perm_count: n, ..v }
    } else {
        v
    }
}

/// Whether a translation between point and `mark` translates any byte.
pub open spec fn translation_hits(v: BufferView, mark: u8, trstr: Seq<u8>) -> bool {
    !v.wp && trstr.len() >= 2 && translates_some(v.text, range_lo(v, mark), range_hi(v, mark), trstr)
}

/// The buffer after the bytes between point and `mark` were translated
/// by `trstr`; a write-protected buffer and a string of fewer than two
/// bytes change nothing.
pub open spec fn translated(v: BufferView, mark: u8, trstr: Seq<u8>) -> BufferView {
    if v.wp || trstr.len() < 2 {
        v
    } else {
        BufferView {
            text: translated_text(v.text, range_lo(v, mark), range_hi(v, mark), trstr),
            modified: v.modified || translation_hits(v, mark, trstr),
            ..v
        }
    }
}

/// The column of point; a column beyond the counter's range reads as its maximum.
pub open spec fn column_of(v: BufferView) -> int {
    let c = columns_in(v.text, line_start(v.text, v.point), v.point, v.tab_width);
    if c <= u32::MAX {
        c
    } else {
        u32::MAX as int
    }
}

/// The buffer after point was moved along its line to the column `col`.
pub open spec fn column_set(v: BufferView, col: int) -> BufferView {
    BufferView {
        point: column_stop(
            v.text,
            line_start(v.text, v.point),
            line_end(v.text, v.point),
            0,
            col,
            v.tab_width,
        ),
        ..v
    }
}

/// The buffer after point was moved by as many lines as `lno` differs
/// from the line of point, and the line of point set to `lno`.
pub open spec fn point_line_set(v: BufferView, lno: int) -> BufferView {
    BufferView {
        point: if lno <= v.point_line {
            lines_backward(v.text, v.point, v.point_line - lno)
        } else {
            lines_forward(v.text, v.point, lno - v.point_line)
        },
        point_line: lno,
        ..v
    }
}

/// The buffer after the scroll anchor was moved `li` lines up from the
/// line of point, or to the start of the text if point is not that far down.
pub open spec fn point_row_set(v: BufferView, li: int) -> BufferView {
    if v.point_line <= li {
        BufferView { topline: 0, topline_line: 0, ..v }
    } else {
        let top = lines_backward(v.text, line_start(v.text, v.point), li);
        BufferView {
            topline: top,
            topline_line: newlines_between(v.text, line_start(v.text, v.point), top) as int,
            ..v
        }
    }
}

/// A deletion between point and an offset in the text keeps a buffer valid.
pub proof fn lemma_deleted_ok(v: BufferView, to: int)
    requires
        view_ok(v),
        0 <= to <= v.text.len(),
    ensures
        view_ok(deleted(v, to)),
{
    let w = deleted(v, to);
    let lo = if to < v.point { to } else { v.point };
    let hi = if to < v.point { v.point } else { to };
    if hi - lo > 0 {
        assert forall|i: int| 0 <= i < MAX_MARKS implies #[trigger] w.marks[i] <= w.text.len() by {
            assert(v.marks[i] <= v.text.len());
        }
    }
}

/// Deleting to marks keeps a buffer valid and its line counters in step with the text.
pub proof fn lemma_deleted_to_marks(v: BufferView, marks: Seq<u8>)
    requires
        view_ok(v),
    ensures
        view_ok(deleted_to_marks(v, marks)),
        lines_ok(v) ==> lines_ok(deleted_to_marks(v, marks)),
    decreases marks.len(),
{
    if marks.len() == 0 || v.wp {
    } else {
        let before = deleted_to_marks(v, marks.drop_last());
        lemma_deleted_to_marks(v, marks.drop_last());
        lemma_mark_position_bounds(before, marks.last(), before.point);
        let to = mark_position(before, marks.last(), before.point);
        lemma_deleted_ok(before, to);
        if lines_ok(v) {
            lemma_deleted_lines(before, to);
        }
    }
}

/// Setting point to marks keeps a buffer valid and brings the line of point in step with the text.
pub proof fn lemma_point_at_marks(v: BufferView, marks: Seq<u8>)
    requires
        view_ok(v),
    ensures
        view_ok(point_at_marks(v, marks)),
        lines_ok(v) ==> lines_ok(point_at_marks(v, marks)),
    decreases marks.len(),
{
    if marks.len() > 0 {
        let before = point_at_marks(v, marks.drop_last());
        lemma_point_at_marks(v, marks.drop_last());
        lemma_mark_position_bounds(before, marks.last(), before.point);
        lemma_newlines_prefix(before.text, mark_position(before, marks.last(), before.point));
    }
}

/// The line bookkeeping: a buffer is made with its line counters in
/// step with its text, and they stay so under insertion, deletion,
/// setting point to marks, setting and stacking marks, moving point
/// along its line, scrolling, and a translation that knows no line feed.
pub proof fn law_line_bookkeeping(
    v: BufferView,
    s: Seq<u8>,
    marks: Seq<u8>,
    mark: u8,
    position: int,
    n: int,
    trstr: Seq<u8>,
    li: int,
    tp: int,
    bp: int,
)
    requires
        view_ok(v),
        lines_ok(v),
    ensures
        lines_ok(initial_view(Seq::empty(), v.capacity, v.bufno)),
        v.text.len() + s.len() <= u32::MAX ==> lines_ok(inserted(v, s)),
        lines_ok(deleted_to_marks(v, marks)),
        lines_ok(point_at_marks(v, marks)),
        lines_ok(with_mark(v, mark, position)),
        lines_ok(marks_pushed(v, n)),
        lines_ok(marks_popped(v)),
        lines_ok(perm_marks_made(v, n)),
        lines_ok(column_set(v, n)),
        lines_ok(scrolled(v, li, tp, bp)),
        lines_ok(point_row_set(v, li)),
        !trstr.contains(EOLCHAR) ==> lines_ok(translated(v, mark, trstr)),
{
    assert(Seq::<u8>::empty().subrange(0, 0) =~= Seq::<u8>::empty());
    if v.text.len() + s.len() <= u32::MAX {
        lemma_inserted_lines(v, s);
    }
    lemma_deleted_to_marks(v, marks);
    lemma_point_at_marks(v, marks);
    lemma_last_before_bounds(v.text, v.point, ByteClass::Newline);
    lemma_first_from_bounds(v.text, v.point, ByteClass::Newline);
    lemma_column_stop_bounds(
        v.text,
        line_start(v.text, v.point),
        line_end(v.text, v.point),
        0,
        n,
        v.tab_width,
    );
    lemma_same_line(v.text, v.point, column_set(v, n).point);
    if !trstr.contains(EOLCHAR) && !v.wp && trstr.len() >= 2 {
        lemma_translated_lines(v.text, range_lo(v, mark), range_hi(v, mark), trstr, v.point);
        lemma_translated_lines(
            v.text,
            range_lo(v, mark),
            range_hi(v, mark),
            trstr,
            v.text.len() as int,
        );
        let t = translated(v, mark, trstr).text;
        assert(t.subrange(0, v.text.len() as int) =~= t);
        assert(v.text.subrange(0, v.text.len() as int) =~= v.text);
    }
}

/// One line of the window: where it starts in the text and where it ends.
#[derive(Debug, Clone, Copy, PartialEq, Eq, Structural)]
pub struct LineSpan {
    pub bol: MintCount,
    pub eol: MintCount,
}

/// The lines that a window of `rows` rows shows when its first line
/// starts at `from`: each reaches to the end of its line, and the next
/// starts one byte behind that, at the latest at the end of the text.
pub open spec fn window_lines(text: Seq<u8>, from: int, rows: int) -> Seq<LineSpan>
    decreases rows,
{
    if rows <= 0 {
        Seq::empty()
    } else {
        let before = window_lines(text, from, rows - 1);
        let bol = if rows == 1 {
            from
        } else {
            let e = before.last().eol as int;
            if e < text.len() {
                e + 1
            } else {
                text.len() as int
            }
        };
        before.push(LineSpan { bol: bol as u32, eol: line_end(text, bol) as u32 })
    }
}

impl EmacsBuffer {
    /// The lines that a window of `rows` rows shows, from the scroll anchor on.
    pub fn window_rows(&self, rows: u16) -> (r: Vec<LineSpan>)
        requires
            self.wf(),
        ensures
            r@ == window_lines(self@.text, self@.topline, rows as int),
    {
        let mut lines: Vec<LineSpan> = Vec::new();
        let mut curline = self.topline;
        let mut i: u16 = 0;
        while i < rows
            invariant
                self.wf(),
                0 <= i <= rows,
                curline <= self@.text.len(),
                lines@ == window_lines(self@.text, self@.topline, i as int),
                curline == if i == 0 {
                    self@.topline
                } else {
                    let e = lines@.last().eol as int;
                    if e < self@.text.len() {
                        e + 1
                    } else {
                        self@.text.len() as int
                    }
                },
            decreases rows - i,
        {
            proof {
                lemma_first_from_bounds(self@.text, curline as int, ByteClass::Newline);
            }
            let eol = self.get_mark_position_from(MARK_EOL, curline);
            lines.push(LineSpan { bol: curline, eol });
            curline = self.get_mark_position_from(MARK_NEXT_CHAR, eol);
            i += 1;
        }
        lines
    }

    /// Where point shows in the window: its row, counted from the scroll
    /// anchor, and its column, counted from the left edge of the window.
    pub fn screen_cursor(&self) -> (r: (MintCount, i64))
        requires
            self.wf(),
        ensures
            r.0 == newlines_between(self@.text, self@.topline, self@.point),
            r.1 == column_of(self@) - self@.leftcol,
    {
        let screen_line = self.count_newlines(self.topline, self.point);
        let screen_col = self.get_column() as i64 - self.leftcol as i64;
        (screen_line, screen_col)
    }
}

/// The number of line feeds before an offset of the text.
pub open spec fn line_of(text: Seq<u8>, pos: int) -> int {
    count_byte(text.subrange(0, pos), EOLCHAR) as int
}

/// Whether an offset is the start of a line.
pub open spec fn at_line_start(text: Seq<u8>, pos: int) -> bool {
    pos == 0 || (0 < pos <= text.len() && text[pos - 1] == EOLCHAR)
}

/// Before an offset there are no more line feeds than in the whole
/// text, and before its end there are all of them.
pub proof fn lemma_line_of_bound(text: Seq<u8>, pos: int)
    requires
        0 <= pos <= text.len(),
    ensures
        line_of(text, pos) <= count_byte(text, EOLCHAR),
        line_of(text, text.len() as int) == count_byte(text, EOLCHAR),
{
    assert(text.subrange(0, text.len() as int) =~= text);
    crate::bytes::lemma_count_byte_split(text, 0, pos, text.len() as int, EOLCHAR);
}

/// Up to the end of its line an offset has no line feed behind it, and
/// one byte further on there is one more.
pub proof fn lemma_line_step(text: Seq<u8>, pos: int)
    requires
        0 <= pos <= text.len(),
    ensures
        pos <= line_end(text, pos) <= text.len(),
        line_of(text, line_end(text, pos)) == line_of(text, pos),
        line_end(text, pos) < text.len() ==> line_of(text, line_end(text, pos) + 1) == line_of(
            text,
            pos,
        ) + 1,
{
    let e = line_end(text, pos);
    lemma_first_from_bounds(text, pos, ByteClass::Newline);
    let run = text.subrange(pos, e);
    assert forall|i: int| 0 <= i < run.len() implies #[trigger] run[i] != EOLCHAR by {
        assert(run[i] == text[pos + i]);
        assert(!in_class(ByteClass::Newline, text[pos + i]));
    }
    lemma_count_none(run, EOLCHAR);
    crate::bytes::lemma_count_byte_split(text, 0, pos, e, EOLCHAR);
    if e < text.len() {
        assert(in_class(ByteClass::Newline, text[e]));
        let one = text.subrange(0, e + 1);
        assert(one.drop_last() =~= text.subrange(0, e));
        assert(one.last() == text[e]);
    }
}

/// One line down is one line feed more, while there is one.
pub proof fn lemma_lines_forward_count(text: Seq<u8>, pos: int, n: int)
    requires
        0 <= pos <= text.len(),
        0 <= n,
    ensures
        0 <= lines_forward(text, pos, n) <= text.len(),
        line_of(text, lines_forward(text, pos, n)) == if line_of(text, pos) + n <= count_byte(
            text,
            EOLCHAR,
        ) {
            line_of(text, pos) + n
        } else {
            count_byte(text, EOLCHAR) as int
        },
    decreases n,
{
    lemma_line_of_bound(text, pos);
    if n > 0 {
        lemma_lines_forward_count(text, pos, n - 1);
        let p = lines_forward(text, pos, n - 1);
        lemma_line_step(text, p);
        lemma_line_of_bound(text, lines_forward(text, pos, n));
    }
}

/// One line up from the start of a line is one line feed less, while there is one.
pub proof fn lemma_lines_backward_count(text: Seq<u8>, pos: int, n: int)
    requires
        0 <= pos <= text.len(),
        at_line_start(text, pos),
        0 <= n,
    ensures
        0 <= lines_backward(text, pos, n) <= pos,
        at_line_start(text, lines_backward(text, pos, n)),
        line_of(text, lines_backward(text, pos, n)) == if n <= line_of(text, pos) {
            line_of(text, pos) - n
        } else {
            0
        },
    decreases n,
{
    if n > 0 {
        lemma_lines_backward_count(text, pos, n - 1);
        let p = lines_backward(text, pos, n - 1);
        if p == 0 {
            lemma_last_before_bounds(text, 0, ByteClass::Newline);
            assert(text.subrange(0, 0) =~= Seq::<u8>::empty());
        } else {
            let q = p - 1;
            let b = line_start(text, q);
            lemma_last_before_bounds(text, q, ByteClass::Newline);
            if b > 0 {
                assert(in_class(ByteClass::Newline, text[b - 1]));
            }
            let run = text.subrange(b, q);
            assert forall|i: int| 0 <= i < run.len() implies #[trigger] run[i] != EOLCHAR by {
                assert(run[i] == text[b + i]);
                assert(!in_class(ByteClass::Newline, text[b + i]));
            }
            lemma_count_none(run, EOLCHAR);
            crate::bytes::lemma_count_byte_split(text, 0, b, q, EOLCHAR);
            let one = text.subrange(0, p);
            assert(one.drop_last() =~= text.subrange(0, q));
            assert(one.last() == text[q]);
        }
    }
}

/// The line bookkeeping under a move by lines: setting the line of point
/// keeps the line counters in step with the text when the line is the
/// line of point, or a line further down that the text has, or a line
/// further up and point stands at the start of its line.
pub proof fn law_line_bookkeeping_by_lines(v: BufferView, lno: int)
    requires
        view_ok(v),
        lines_ok(v),
        0 <= lno,
        lno == v.point_line || (lno > v.point_line && lno <= v.newlines) || (lno < v.point_line
            && at_line_start(v.text, v.point)),
    ensures
        lines_ok(point_line_set(v, lno)),
{
    if lno > v.point_line {
        lemma_lines_forward_count(v.text, v.point, lno - v.point_line);
    } else if lno < v.point_line {
        lemma_lines_backward_count(v.text, v.point, v.point_line - lno);
    }
}

} // verus!
