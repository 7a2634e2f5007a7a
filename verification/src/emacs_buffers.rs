//! The registry of buffers: numbered buffers, the current one among them,
//! and the one search pattern that all of them share.

use vstd::prelude::*;
use crate::emacs_buffer::{
    initial_view, mark_position, with_mark, BufferView, EmacsBuffer, MARK_POINT,
};
use crate::gap_buffer::{match_in_text, search_window, BLOCK_SIZE, GapBuffer};
use crate::mint_types::{MintChar, MintCount, MintString};
use crate::search::{
    first_match, is_valid, last_match, literal_pattern, regex_pattern, PatternView, SearchPattern,
};

verus! {

/// What a registry is: its buffers in the order of their numbers, which
/// start at 1; the index of the current one; the search pattern, if one is set.
pub struct RegistryView {
    pub buffers: Seq<BufferView>,
    pub current: int,
    pub pattern: Option<PatternView>,
}

impl RegistryView {
    /// The current buffer.
    pub open spec fn cur(self) -> BufferView {
        self.buffers[self.current]
    }

    /// The registry with another buffer in the place of the current one.
    pub open spec fn with_cur(self, b: BufferView) -> RegistryView {
        RegistryView { buffers: self.buffers.update(self.current, b), ..self }
    }
}

/// Where a search finds its match in a buffer. It runs between the marks
/// `ss` and `se`: forward for the leftmost match if `ss` is not behind
/// `se`, else backward for the last one. With no pattern set it finds
/// point.
pub open spec fn search_hit(v: BufferView, p: Option<PatternView>, ss: u8, se: u8) -> Option<
    (int, int),
> {
    match p {
        None => Some((v.point, v.point)),
        Some(pat) => {
            let a = mark_position(v, ss, v.point);
            let b = mark_position(v, se, v.point);
            if a <= b {
                match_in_text(first_match(pat, search_window(v.text, a, b)), a)
            } else {
                match_in_text(last_match(pat, search_window(v.text, b, a)), b)
            }
        },
    }
}

/// The buffer after a match was stored in the marks `ms` and `me`; the
/// zero byte stands for no mark.
pub open spec fn with_match(v: BufferView, hit: (int, int), ms: u8, me: u8) -> BufferView {
    let v1 = if ms != 0 {
        with_mark(v, ms, hit.0)
    } else {
        v
    };
    if me != 0 {
        with_mark(v1, me, hit.1)
    } else {
        v1
    }
}

/// The registry as it is made: one empty buffer, number 1, and no search pattern.
pub open spec fn initial_registry() -> RegistryView {
    RegistryView {
        buffers: seq![initial_view(Seq::empty(), BLOCK_SIZE as int, 1)],
        current: 0,
        pattern: None,
    }
}

/// The registry after an empty buffer was added and made the current
/// one; unchanged when the numbers have run out.
pub open spec fn buffer_added(r: RegistryView) -> RegistryView {
    if r.buffers.len() < u32::MAX {
        RegistryView {
            buffers: r.buffers.push(
                initial_view(Seq::empty(), BLOCK_SIZE as int, (r.buffers.len() + 1) as int),
            ),
            current: r.buffers.len() as int,
            ..r
        }
    } else {
        r
    }
}

/// The registry after the buffer with the number `bufno` was made the
/// current one; unchanged if there is no such buffer.
pub open spec fn buffer_selected(r: RegistryView, bufno: int) -> RegistryView {
    if 1 <= bufno <= r.buffers.len() {
        RegistryView { current: bufno - 1, ..r }
    } else {
        r
    }
}

/// Whether a plain search string is accepted: it is empty, or the
/// engine accepts the pattern it stands for.
pub open spec fn literal_accepted(s: Seq<u8>, fold_case: bool) -> bool {
    s.len() == 0 || is_valid(literal_pattern(s, fold_case))
}

/// The registry after the search pattern was set to a plain search string.
pub open spec fn literal_set(r: RegistryView, s: Seq<u8>, fold_case: bool) -> RegistryView {
    RegistryView {
        pattern: if s.len() > 0 && literal_accepted(s, fold_case) {
            Some(literal_pattern(s, fold_case))
        } else {
            None
        },
        ..r
    }
}

/// Whether a regular expression is accepted: it is empty, or the engine accepts it.
pub open spec fn regex_accepted(exp: Seq<u8>, fold_case: bool) -> bool {
    exp.len() == 0 || is_valid(regex_pattern(exp, fold_case))
}

/// The registry after the search pattern was set to a regular expression.
pub open spec fn regex_set(r: RegistryView, exp: Seq<u8>, fold_case: bool) -> RegistryView {
    RegistryView {
        pattern: if exp.len() > 0 && regex_accepted(exp, fold_case) {
            Some(regex_pattern(exp, fold_case))
        } else {
            None
        },
        ..r
    }
}

/// The registry after a search in the current buffer: a match is
/// stored in the marks `ms` and `me`; without one nothing changes.
pub open spec fn searched(r: RegistryView, ss: u8, se: u8, ms: u8, me: u8) -> RegistryView {
    match search_hit(r.cur(), r.pattern, ss, se) {
        Some(hit) => r.with_cur(with_match(r.cur(), hit, ms, me)),
        None => r,
    }
}

/// The views of a sequence of buffers.
pub open spec fn views_of(buffers: Seq<EmacsBuffer>) -> Seq<BufferView> {
    buffers.map_values(|b: EmacsBuffer| b@)
}

pub struct EmacsBuffers {
    buffers: Vec<EmacsBuffer>,
    current: usize,
    search: Option<SearchPattern>,
}

impl View for EmacsBuffers {
    type V = RegistryView;

    closed spec fn view(&self) -> RegistryView {
        RegistryView {
            buffers: views_of(self.buffers@),
            current: self.current as int,
            pattern: match self.search {
                Some(p) => Some(p@),
                None => None,
            },
        }
    }
}

/// The validity of a registry, as far as its view shows it: there is a
/// current buffer, and the buffer at index `i` has the number `i + 1`.
pub open spec fn registry_ok(r: RegistryView) -> bool {
    &&& 0 <= r.current < r.buffers.len()
    &&& r.buffers.len() <= u32::MAX
    &&& forall|i: int| 0 <= i < r.buffers.len() ==> (#[trigger] r.buffers[i]).bufno == i + 1
}

impl EmacsBuffers {
    /// Every buffer is valid.
    pub closed spec fn buffers_ok(&self) -> bool {
        forall|i: int| 0 <= i < self.buffers@.len() ==> (#[trigger] self.buffers@[i]).wf()
    }

    /// The buffers are valid, and so is the view.
    pub open spec fn wf(&self) -> bool {
        self.buffers_ok() && registry_ok(self@)
    }

    /// A registry with one empty buffer, number 1, and no search pattern.
    pub fn new() -> (r: Self)
        ensures
            r.wf(),
            r@ == initial_registry(),
    {
        let b = EmacsBuffer::new(1, GapBuffer::with_default_size());
        let mut buffers: Vec<EmacsBuffer> = Vec::new();
        buffers.push(b);
        let r = Self { buffers, current: 0, search: None };
        assert(r@.buffers[0] == b@);
        assert(r@.buffers =~= initial_registry().buffers);
        r
    }

    /// The current buffer.
    pub fn get_cur_buffer(&self) -> (b: &EmacsBuffer)
        requires
            self.wf(),
        ensures
            b.wf(),
            b@ == self@.cur(),
    {
        &self.buffers[self.current]
    }

    /// The current buffer, to change it. Its number must stay.
    pub fn cur_buffer_mut(&mut self) -> (b: &mut EmacsBuffer)
        requires
            old(self).wf(),
        ensures
            b.wf(),
            b@ == old(self)@.cur(),
            final(b).wf() && final(b)@.bufno == b@.bufno ==> final(self).wf(),
            final(self)@ == old(self)@.with_cur(final(b)@),
    {
        let ghost cur = self.current as int;
        let ghost before = self.buffers@;
        let b = &mut self.buffers[self.current];
        assert(views_of(before.update(cur, *final(b))) =~= views_of(before).update(
            cur,
            final(b)@,
        ));
        assert(final(b).wf() && final(b)@.bufno == b@.bufno ==> {
            &&& forall|i: int|
                0 <= i < before.len() ==> (#[trigger] before.update(cur, *final(b))[i]).wf()
            &&& forall|i: int|
                0 <= i < before.len() ==> (#[trigger] views_of(before).update(
                    cur,
                    final(b)@,
                )[i]).bufno == i + 1
        }) by {
            assert(forall|i: int|
                0 <= i < before.len() ==> (#[trigger] before[i]).wf() && views_of(
                    before,
                )[i].bufno == i + 1);
        }
        b
    }

    /// Adds an empty buffer, makes it the current one and returns its
    /// number; returns 0, and changes nothing, when the numbers have run out.
    pub fn new_buffer(&mut self) -> (bufno: MintCount)
        requires
            old(self).wf(),
        ensures
            final(self).wf(),
            bufno == if old(self)@.buffers.len() < u32::MAX {
                old(self)@.buffers.len() + 1
            } else {
                0
            },
            final(self)@ == buffer_added(old(self)@),
    {
        if self.buffers.len() >= u32::MAX as usize {
            return 0;
        }
        let bufno = (self.buffers.len() + 1) as MintCount;
        let b = EmacsBuffer::new(bufno, GapBuffer::with_default_size());
        self.buffers.push(b);
        self.current = self.buffers.len() - 1;
        assert(self@.buffers.subrange(0, bufno - 1) =~= old(self)@.buffers);
        assert(self@.buffers[bufno - 1] == b@);
        assert(self@.buffers =~= buffer_added(old(self)@).buffers);
        assert forall|i: int| 0 <= i < self.buffers@.len() implies (#[trigger] self.buffers@[i]).wf() by {
            if i < bufno - 1 {
                assert(self.buffers@[i] == old(self).buffers@[i]);
            }
        }
        assert forall|i: int| 0 <= i < self@.buffers.len() implies (#[trigger] self@.buffers[i]).bufno
            == i + 1 by {
            if i < bufno - 1 {
                assert(self@.buffers[i] == old(self)@.buffers[i]);
            }
        }
        bufno
    }

    /// Makes the buffer with the number `bufno` the current one. Fails,
    /// and changes nothing, iff there is no such buffer.
    pub fn select_buffer(&mut self, bufno: MintCount) -> (ok: bool)
        requires
            old(self).wf(),
        ensures
            final(self).wf(),
            ok == (1 <= bufno <= old(self)@.buffers.len()),
            final(self)@ == buffer_selected(old(self)@, bufno as int),
    {
        if bufno >= 1 && bufno as usize <= self.buffers.len() {
            self.current = (bufno - 1) as usize;
            true
        } else {
            false
        }
    }

    /// Sets the search pattern to the one that matches `s` literally; an
    /// empty `s` unsets it. Fails, leaving no pattern set, iff the engine
    /// refuses the pattern.
    pub fn set_search_string(&mut self, s: &MintString, fold_case: bool) -> (ok: bool)
        requires
            old(self).wf(),
        ensures
            final(self).wf(),
            ok == literal_accepted(s@, fold_case),
            final(self)@ == literal_set(old(self)@, s@, fold_case),
    {
        if s.len() == 0 {
            self.search = None;
            return true;
        }
        self.search = SearchPattern::literal(s.as_slice(), fold_case);
        self.search.is_some()
    }

    /// Sets the search pattern to the regular expression `exp`, with `^`
    /// and `$` anchoring at line breaks; an empty `exp` unsets it. Fails,
    /// leaving no pattern set, iff the engine refuses the expression.
    pub fn set_search_regex(&mut self, exp: &MintString, fold_case: bool) -> (ok: bool)
        requires
            old(self).wf(),
        ensures
            final(self).wf(),
            ok == regex_accepted(exp@, fold_case),
            final(self)@ == regex_set(old(self)@, exp@, fold_case),
    {
        if exp.len() == 0 {
            self.search = None;
            return true;
        }
        self.search = SearchPattern::regex(exp.as_slice(), fold_case);
        self.search.is_some()
    }

    /// Searches the current buffer between the marks `ss` and `se` and
    /// stores the match in the marks `ms` and `me`. Returns whether there
    /// was a match; without one the buffer stays as it is.
    pub fn search(&mut self, ss: MintChar, se: MintChar, ms: MintChar, me: MintChar) -> (found:
        bool)
        requires
            old(self).wf(),
        ensures
            final(self).wf(),
            found == search_hit(old(self)@.cur(), old(self)@.pattern, ss, se).is_some(),
            final(self)@ == searched(old(self)@, ss, se, ms, me),
    {
        let ghost cur = self.current as int;
        let ghost before = self.buffers@;
        let buf = &mut self.buffers[self.current];
        let size = buf.size();
        let ss_n = buf.get_mark_position(ss);
        let se_n = buf.get_mark_position(se);
        let hit = match &self.search {
            None => Some((buf.get_mark_position(MARK_POINT), buf.get_mark_position(MARK_POINT))),
            Some(pattern) => {
                if ss_n <= se_n {
                    buf.find_forward(pattern, ss_n, se_n)
                } else {
                    buf.find_backward(pattern, se_n, ss_n)
                }
            },
        };
        let found = match hit {
            Some((match_start, match_end)) => {
                if ms != 0 {
                    buf.set_mark_position(ms, match_start);
                }
                if me != 0 {
                    buf.set_mark_position(me, match_end);
                }
                true
            },
            None => false,
        };
        proof {
            let after = before.update(cur, *buf);
            assert(views_of(after) =~= views_of(before).update(cur, buf@));
            if !found {
                assert(views_of(before).update(cur, buf@) =~= views_of(before));
            }
        }
        found
    }
}

} // verus!
