//! A gap buffer: editable text in one allocation, with a movable gap at
//! which all edits happen. Offsets handed in and out address the text as if
//! the gap were not there.

use vstd::prelude::*;
use vstd::slice::slice_subrange;
use crate::mint_types::{MintChar, MintCount, MintString};
use crate::search::{first_match, last_match, SearchPattern};

verus! {

/// The capacity grows in blocks of this size.
pub const BLOCK_SIZE: MintCount = 65536;

/// The text that a store with its gap at `[lo, hi)` holds.
pub open spec fn text_around_gap(store: Seq<u8>, lo: int, hi: int) -> Seq<u8> {
    store.subrange(0, lo) + store.subrange(hi, store.len() as int)
}

/// The capacity after making room for `n` more bytes: unchanged if the gap
/// holds them or if the grown capacity would pass the counter's range, else
/// grown by whole blocks.
pub open spec fn grown_capacity(capacity: int, gap: int, n: int) -> int {
    if n <= gap {
        capacity
    } else {
        let blocks = (n - gap + BLOCK_SIZE) / (BLOCK_SIZE as int);
        let grown = capacity + blocks * BLOCK_SIZE;
        if grown <= u32::MAX {
            grown
        } else {
            capacity
        }
    }
}

/// Whether `n` more bytes find room, after growing if need be.
pub open spec fn has_room(capacity: int, gap: int, n: int) -> bool {
    n <= gap + (grown_capacity(capacity, gap, n) - capacity)
}

/// The part of `text` that a search over `[start, end)` looks at: the range
/// cut off at the end of the text, empty if `start` is not before its end.
pub open spec fn search_window(text: Seq<u8>, start: int, end: int) -> Seq<u8> {
    let hi = if end < text.len() { end } else { text.len() as int };
    if 0 <= start < hi {
        text.subrange(start, hi)
    } else {
        Seq::empty()
    }
}

/// A match found in a window that starts at `start`, in the offsets of the whole text.
pub open spec fn match_in_text(m: Option<(usize, usize)>, start: int) -> Option<(int, int)> {
    match m {
        Some((s, e)) => Some((start + s, start + e)),
        None => None,
    }
}

/// A stretch of the text: borrowed from the store where it lies on one side
/// of the gap, copied where it spans the gap.
pub enum Span<'a> {
    Borrowed(&'a [MintChar]),
    Owned(Vec<MintChar>),
}

impl<'a> Span<'a> {
    /// The bytes of the stretch.
    pub open spec fn bytes(&self) -> Seq<u8> {
        match self {
            Span::Borrowed(s) => s@,
            Span::Owned(v) => v@,
        }
    }

    pub fn as_slice(&self) -> (r: &[MintChar])
        ensures
            r@ == self.bytes(),
    {
        match self {
            Span::Borrowed(s) => s,
            Span::Owned(v) => v.as_slice(),
        }
    }
}

#[derive(Debug)]
pub struct GapBuffer {
    bottop: MintCount,
    topbot: MintCount,
    buffer: Vec<MintChar>,
}

impl View for GapBuffer {
    type V = Seq<u8>;

    /// The text held, the gap left out.
    closed spec fn view(&self) -> Seq<u8> {
        text_around_gap(self.buffer@, self.bottop as int, self.topbot as int)
    }
}

impl GapBuffer {
    /// The gap lies inside the store, and the store's length fits the counter.
    pub closed spec fn wf(&self) -> bool {
        self.bottop <= self.topbot <= self.buffer@.len() <= u32::MAX
    }

    /// The length of the store, gap included.
    pub closed spec fn capacity(&self) -> nat {
        self.buffer@.len()
    }

    /// The length of the gap.
    pub closed spec fn gap(&self) -> nat {
        (self.topbot - self.bottop) as nat
    }

    /// The offset in the text at which the gap stands.
    pub closed spec fn gap_start(&self) -> nat {
        self.bottop as nat
    }

    /// Text and gap together fill the store.
    pub proof fn lemma_size(&self)
        requires
            self.wf(),
        ensures
            self@.len() + self.gap() == self.capacity(),
            self.gap_start() <= self@.len(),
            self.capacity() <= u32::MAX,
    {
    }

    /// An empty buffer with a gap of `size` bytes.
    pub fn new(size: MintCount) -> (gb: Self)
        ensures
            gb.wf(),
            gb@ == Seq::<u8>::empty(),
            gb.capacity() == size,
            gb.gap() == size,
    {
        let gb = Self { bottop: 0, topbot: size, buffer: vec![0u8; size as usize] };
        assert(gb@ =~= Seq::<u8>::empty());
        gb
    }

    /// An empty buffer of one block.
    pub fn with_default_size() -> (gb: Self)
        ensures
            gb.wf(),
            gb@ == Seq::<u8>::empty(),
            gb.capacity() == BLOCK_SIZE,
            gb.gap() == BLOCK_SIZE,
    {
        Self::new(BLOCK_SIZE)
    }

    /// The length of the gap.
    pub fn free(&self) -> (r: MintCount)
        requires
            self.wf(),
        ensures
            r == self.gap(),
    {
        self.topbot - self.bottop
    }

    /// The length of the store.
    pub fn allocated(&self) -> (r: MintCount)
        requires
            self.wf(),
        ensures
            r == self.capacity(),
    {
        self.buffer.len() as MintCount
    }

    /// The length of the text.
    pub fn size(&self) -> (r: MintCount)
        requires
            self.wf(),
        ensures
            r == self@.len(),
    {
        self.allocated() - self.free()
    }

    /// The byte at `offset`, if the text reaches that far.
    pub fn get(&self, offset: MintCount) -> (r: Option<MintChar>)
        requires
            self.wf(),
        ensures
            r == if offset < self@.len() {
                Some(self@[offset as int])
            } else {
                None
            },
    {
        if offset >= self.size() {
            return None;
        }
        let actual_offset = if offset >= self.bottop {
            offset + self.free()
        } else {
            offset
        };
        Some(self.buffer[actual_offset as usize])
    }

    /// Moves the gap to `offset`; the text stays as it is. Fails for an
    /// offset behind the end of the text.
    fn move_gap_to(&mut self, offset: MintCount) -> (ok: bool)
        requires
            old(self).wf(),
        ensures
            final(self).wf(),
            final(self)@ == old(self)@,
            final(self).capacity() == old(self).capacity(),
            final(self).gap() == old(self).gap(),
            ok == (offset <= old(self)@.len()),
            ok ==> final(self).gap_start() == offset,
            !ok ==> final(self).gap_start() == old(self).gap_start(),
    {
        if offset > self.size() {
            return false;
        }
        while self.bottop > offset
            invariant
                self.wf(),
                self@ == old(self)@,
                self.buffer@.len() == old(self).buffer@.len(),
                self.topbot - self.bottop == old(self).topbot - old(self).bottop,
                offset <= self@.len(),
            decreases self.bottop,
        {
            let ghost before = *self;
            self.bottop -= 1;
            self.topbot -= 1;
            let ch = self.buffer[self.bottop as usize];
            self.buffer.set(self.topbot as usize, ch);
            assert(self@ =~= before@);
        }
        while self.bottop < offset
            invariant
                self.wf(),
                self@ == old(self)@,
                self.buffer@.len() == old(self).buffer@.len(),
                self.topbot - self.bottop == old(self).topbot - old(self).bottop,
                offset <= self@.len(),
                self.bottop <= offset,
            decreases offset - self.bottop,
        {
            let ghost before = *self;
            let ch = self.buffer[self.topbot as usize];
            self.buffer.set(self.bottop as usize, ch);
            self.bottop += 1;
            self.topbot += 1;
            assert(self@ =~= before@);
        }
        true
    }

    /// Makes room for `extra_space` more bytes than the gap holds, in whole
    /// blocks; does nothing if the grown store would pass the counter's range.
    fn expand(&mut self, extra_space: MintCount)
        requires
            old(self).wf(),
        ensures
            final(self).wf(),
            final(self)@ == old(self)@,
            final(self).capacity() == grown_capacity(
                old(self).capacity() as int,
                old(self).gap() as int,
                old(self).gap() + extra_space,
            ),
            final(self).gap() == old(self).gap() + (final(self).capacity() - old(self).capacity()),
    {
        if extra_space > 0 {
            let additional_blocks: u64 = (extra_space as u64 + BLOCK_SIZE as u64) / (
            BLOCK_SIZE as u64);
            let new_size: u64 = self.allocated() as u64 + additional_blocks * (BLOCK_SIZE as u64);
            if new_size <= u32::MAX as u64 {
                let size = self.size();
                self.move_gap_to(size);
                let ghost before = *self;
                self.buffer.resize(new_size as usize, 0u8);
                self.topbot = new_size as MintCount;
                assert(self.buffer@.subrange(0, before.bottop as int) =~= before.buffer@.subrange(
                    0,
                    before.bottop as int,
                )) by {
                    assert(self.buffer@.subrange(0, before.buffer@.len() as int) == before.buffer@);
                    assert forall|i: int| 0 <= i < before.bottop implies self.buffer@[i]
                        == before.buffer@[i] by {
                        assert(self.buffer@.subrange(0, before.buffer@.len() as int)[i]
                            == self.buffer@[i]);
                    }
                }
                assert(self@ =~= before@);
            }
        }
    }

    /// The text in `[start, end)`, the range cut off at the end of the text.
    /// It is borrowed where the range, so cut off, is empty or lies on one
    /// side of the gap, and copied where it spans the gap.
    pub fn slice<'a>(&'a self, start: MintCount, end: MintCount) -> (r: Span<'a>)
        requires
            self.wf(),
        ensures
            r.bytes() == search_window(self@, start as int, end as int),
            r is Borrowed == ({
                let end = if end < self@.len() {
                    end as int
                } else {
                    self@.len() as int
                };
                start >= end || end <= self.gap_start() || start >= self.gap_start()
            }),
    {
        let size = self.size();
        let end = if end < size {
            end
        } else {
            size
        };
        if start >= end {
            return Span::Borrowed(slice_subrange(self.buffer.as_slice(), 0, 0));
        }
        if end <= self.bottop {
            let s = slice_subrange(self.buffer.as_slice(), start as usize, end as usize);
            assert(s@ =~= self@.subrange(start as int, end as int));
            return Span::Borrowed(s);
        }
        if start >= self.bottop {
            let actual_start = start as usize + self.free() as usize;
            let actual_end = actual_start + (end - start) as usize;
            let s = slice_subrange(self.buffer.as_slice(), actual_start, actual_end);
            assert(s@ =~= self@.subrange(start as int, end as int));
            return Span::Borrowed(s);
        }
        let mut v: Vec<MintChar> = Vec::new();
        let mut i = start;
        while i < end
            invariant
                self.wf(),
                start <= i <= end <= self@.len(),
                v@ == self@.subrange(start as int, i as int),
            decreases end - i,
        {
            if let Some(ch) = self.get(i) {
                v.push(ch);
            }
            assert(v@ =~= self@.subrange(start as int, i + 1));
            i += 1;
        }
        Span::Owned(v)
    }

    /// Replaces `n` bytes at `offset` by `replacement`: an erase, then an
    /// insert. Where the erase succeeds and the insert finds no room, the
    /// erase stays.
    pub fn replace(&mut self, offset: MintCount, n: MintCount, replacement: &MintString) -> (ok:
        bool)
        requires
            old(self).wf(),
        ensures
            final(self).wf(),
            ok == (offset + n <= old(self)@.len() && has_room(
                old(self).capacity() as int,
                old(self).gap() + n,
                replacement@.len() as int,
            )),
            offset + n > old(self)@.len() ==> final(self)@ == old(self)@,
            offset + n <= old(self)@.len() && !ok ==> final(self)@ == old(self)@.subrange(
                0,
                offset as int,
            ) + old(self)@.subrange(offset + n, old(self)@.len() as int),
            ok ==> final(self)@ == old(self)@.subrange(0, offset as int) + replacement@ + old(
                self,
            )@.subrange(offset + n, old(self)@.len() as int),
            final(self).capacity() == if offset + n <= old(self)@.len() {
                grown_capacity(
                    old(self).capacity() as int,
                    old(self).gap() + n,
                    replacement@.len() as int,
                )
            } else {
                old(self).capacity() as int
            },
            ok ==> final(self).gap_start() == offset + replacement@.len(),
            offset + n > old(self)@.len() ==> final(self).gap_start() == old(self).gap_start(),
    {
        if !self.erase(offset, n) {
            return false;
        }
        let ghost mid = self@;
        let ok = self.insert(offset, replacement);
        proof {
            if ok {
                assert(mid.subrange(0, offset as int) =~= old(self)@.subrange(0, offset as int));
                assert(mid.subrange(offset as int, mid.len() as int) =~= old(self)@.subrange(
                    offset + n,
                    old(self)@.len() as int,
                ));
            }
        }
        ok
    }

    /// Removes `n` bytes at `offset`. Fails, and changes nothing, iff the
    /// range reaches behind the end of the text.
    pub fn erase(&mut self, offset: MintCount, n: MintCount) -> (ok: bool)
        requires
            old(self).wf(),
        ensures
            final(self).wf(),
            ok == (offset + n <= old(self)@.len()),
            ok ==> final(self)@ == old(self)@.subrange(0, offset as int) + old(self)@.subrange(
                offset + n,
                old(self)@.len() as int,
            ),
            !ok ==> final(self)@ == old(self)@,
            final(self).capacity() == old(self).capacity(),
            ok ==> final(self).gap() == old(self).gap() + n,
            !ok ==> final(self).gap() == old(self).gap(),
            ok ==> final(self).gap_start() == offset,
            !ok ==> final(self).gap_start() == old(self).gap_start(),
    {
        let size = self.size();
        if size >= offset && size - offset >= n && self.move_gap_to(offset + n) {
            let ghost before = *self;
            self.bottop -= n;
            assert(self@ =~= before@.subrange(0, offset as int) + before@.subrange(
                offset + n,
                before@.len() as int,
            ));
            true
        } else {
            false
        }
    }

    /// Inserts `to_insert` at `offset`, growing the store by whole blocks if
    /// the gap is too small. Fails, and leaves the text as it is, iff the
    /// offset lies behind the end of the text or there is no room.
    pub fn insert(&mut self, offset: MintCount, to_insert: &MintString) -> (ok: bool)
        requires
            old(self).wf(),
        ensures
            final(self).wf(),
            ok == (offset <= old(self)@.len() && has_room(
                old(self).capacity() as int,
                old(self).gap() as int,
                to_insert@.len() as int,
            )),
            ok ==> final(self)@ == old(self)@.subrange(0, offset as int) + to_insert@ + old(
                self,
            )@.subrange(offset as int, old(self)@.len() as int),
            !ok ==> final(self)@ == old(self)@,
            final(self).capacity() == grown_capacity(
                old(self).capacity() as int,
                old(self).gap() as int,
                to_insert@.len() as int,
            ),
            final(self).gap() == old(self).gap() + (final(self).capacity() - old(self).capacity())
                - (if ok { to_insert@.len() } else { 0 }),
            ok ==> final(self).gap_start() == offset + to_insert@.len(),
    {
        let insert_size = to_insert.len();
        if insert_size > u32::MAX as usize {
            proof {
                self.lemma_room_bound(insert_size as int);
            }
            return false;
        }
        if (self.free() as usize) < insert_size {
            self.expand(insert_size as MintCount - self.free());
        }
        if (self.free() as usize) >= insert_size && self.move_gap_to(offset) {
            let ghost before = *self;
            let base = self.bottop as usize;
            let mut k: usize = 0;
            while k < insert_size
                invariant
                    0 <= k <= insert_size,
                    insert_size == to_insert@.len(),
                    base == before.bottop,
                    self.bottop == before.bottop,
                    self.topbot == before.topbot,
                    before.wf(),
                    base + insert_size <= self.topbot,
                    self.buffer@.len() == before.buffer@.len(),
                    forall|i: int| 0 <= i < base ==> self.buffer@[i] == before.buffer@[i],
                    forall|i: int|
                        before.topbot <= i < self.buffer@.len() ==> self.buffer@[i]
                            == before.buffer@[i],
                    forall|j: int| 0 <= j < k ==> self.buffer@[base + j] == to_insert@[j],
                decreases insert_size - k,
            {
                self.buffer.set(base + k, to_insert[k]);
                k += 1;
            }
            self.bottop += insert_size as MintCount;
            assert(self@ =~= before@.subrange(0, offset as int) + to_insert@ + before@.subrange(
                offset as int,
                before@.len() as int,
            ));
            true
        } else {
            false
        }
    }

    /// What cannot be counted finds no room.
    proof fn lemma_room_bound(&self, n: int)
        requires
            self.wf(),
            n > u32::MAX,
        ensures
            !has_room(self.capacity() as int, self.gap() as int, n),
            grown_capacity(self.capacity() as int, self.gap() as int, n) == self.capacity(),
    {
        let capacity = self.capacity() as int;
        let gap = self.gap() as int;
        let blocks = (n - gap + BLOCK_SIZE) / (BLOCK_SIZE as int);
        assert(blocks * BLOCK_SIZE > n - gap) by {
            vstd::arithmetic::div_mod::lemma_fundamental_div_mod(
                n - gap + BLOCK_SIZE,
                BLOCK_SIZE as int,
            );
            vstd::arithmetic::div_mod::lemma_mod_bound(n - gap + BLOCK_SIZE, BLOCK_SIZE as int);
        }
    }

    /// The leftmost match of `pattern` in `[start, end)`, in offsets of the text.
    pub fn find_forward(&self, pattern: &SearchPattern, start: MintCount, end: MintCount) -> (r:
        Option<(MintCount, MintCount)>)
        requires
            self.wf(),
        ensures
            found_at(r) == match_in_text(
                first_match(pattern@, search_window(self@, start as int, end as int)),
                start as int,
            ),
            r matches Some((s, e)) ==> start <= s <= e <= start + search_window(
                self@,
                start as int,
                end as int,
            ).len(),
    {
        let slice = self.slice(start, end);
        match pattern.first_in(slice.as_slice()) {
            Some((s, e)) => Some((start + s as MintCount, start + e as MintCount)),
            None => None,
        }
    }

    /// The last match of `pattern` in `[start, end)`, in offsets of the text.
    pub fn find_backward(&self, pattern: &SearchPattern, start: MintCount, end: MintCount) -> (r:
        Option<(MintCount, MintCount)>)
        requires
            self.wf(),
        ensures
            found_at(r) == match_in_text(
                last_match(pattern@, search_window(self@, start as int, end as int)),
                start as int,
            ),
            r matches Some((s, e)) ==> start <= s <= e <= start + search_window(
                self@,
                start as int,
                end as int,
            ).len(),
    {
        let slice = self.slice(start, end);
        match pattern.last_in(slice.as_slice()) {
            Some((s, e)) => Some((start + s as MintCount, start + e as MintCount)),
            None => None,
        }
    }
}

/// A match as a pair of mathematical offsets.
pub open spec fn found_at(r: Option<(MintCount, MintCount)>) -> Option<(int, int)> {
    match r {
        Some((s, e)) => Some((s as int, e as int)),
        None => None,
    }
}

} // verus!
