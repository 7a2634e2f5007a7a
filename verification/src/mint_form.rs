//! A form: a byte string with a read cursor.

use vstd::prelude::*;
use crate::bytes::{
    append_bytes, bytes_eq, bytes_lt, copy_bytes, copy_range, has_prefix, lemma_lex_lt_asymmetric,
    lemma_lex_lt_total, lemma_lex_lt_transitive, lex_lt, starts_with,
};
use crate::mint_types::{MintChar, MintCount, MintString};

verus! {

/// What a form is: its content and the position of its read cursor.
pub struct FormView {
    pub content: Seq<u8>,
    pub pos: nat,
}

#[derive(Debug)]
pub struct MintForm {
    content: MintString,
    index: usize,
}

impl View for MintForm {
    type V = FormView;

    closed spec fn view(&self) -> FormView {
        FormView { content: self.content@, pos: self.index as nat }
    }
}

impl Clone for MintForm {
    fn clone(&self) -> (r: Self)
        ensures
            r@ == self@,
    {
        MintForm { content: copy_bytes(self.content.as_slice()), index: self.index }
    }
}

impl MintForm {
    /// The cursor never passes the end of the content.
    pub open spec fn wf(&self) -> bool {
        self@.pos <= self@.content.len()
    }

    /// A form holding `s`, with its cursor at the start.
    pub fn from_string(s: &[MintChar]) -> (f: Self)
        ensures
            f.wf(),
            f@ == (FormView { content: s@, pos: 0 }),
    {
        Self { content: copy_bytes(s), index: 0 }
    }

    /// Moves the cursor to `n`, or to the end if `n` lies behind it.
    pub fn set_pos(&mut self, n: MintCount)
        ensures
            final(self).wf(),
            final(self)@.content == old(self)@.content,
            final(self)@.pos == if n <= old(self)@.content.len() {
                n as nat
            } else {
                old(self)@.content.len()
            },
    {
        self.index = if (n as usize) <= self.content.len() {
            n as usize
        } else {
            self.content.len()
        };
    }

    /// The cursor's position; a position beyond the counter's range reads as its maximum.
    pub fn get_pos(&self) -> (r: MintCount)
        ensures
            r == if self@.pos <= u32::MAX {
                self@.pos
            } else {
                u32::MAX as nat
            },
    {
        if self.index <= u32::MAX as usize {
            self.index as u32
        } else {
            u32::MAX
        }
    }

    /// The cursor's position.
    pub fn cursor(&self) -> (r: usize)
        ensures
            r == self@.pos,
    {
        self.index
    }

    /// Whether the cursor stands at the end of the content.
    pub fn at_end(&self) -> (r: bool)
        ensures
            r == (self@.pos >= self@.content.len()),
    {
        self.index >= self.content.len()
    }

    /// Reads up to `n` bytes at the cursor and moves the cursor behind them.
    /// Nothing is read for `n <= 0`.
    pub fn get_n(&mut self, n: i32) -> (r: MintString)
        requires
            old(self).wf(),
        ensures
            final(self).wf(),
            final(self)@.content == old(self)@.content,
            r@ == old(self)@.content.subrange(old(self)@.pos as int, final(self)@.pos as int),
            final(self)@.pos == old(self)@.pos + Self::take_len(old(self)@, n as int),
    {
        let rest = self.content.len() - self.index;
        let want: usize = if n <= 0 {
            0
        } else {
            n as usize
        };
        let len = if rest < want {
            rest
        } else {
            want
        };
        let start = self.index;
        let result = copy_range(self.content.as_slice(), start, start + len);
        self.index = start + len;
        result
    }

    /// How many bytes a read of `n` takes from a form in state `f`.
    pub open spec fn take_len(f: FormView, n: int) -> nat {
        let rest = f.content.len() - f.pos;
        if n <= 0 {
            0
        } else if rest < n {
            rest as nat
        } else {
            n as nat
        }
    }

    /// The content from the cursor to the end; the cursor stays.
    pub fn get(&self) -> (r: MintString)
        requires
            self.wf(),
        ensures
            r@ == self@.content.subrange(self@.pos as int, self@.content.len() as int),
    {
        copy_range(self.content.as_slice(), self.index, self.content.len())
    }

    /// The whole content, whatever the cursor.
    pub fn content(&self) -> (r: &MintString)
        ensures
            r@ == self@.content,
    {
        &self.content
    }
}

/// A form under its name.
pub struct FormRecord {
    pub name: Seq<u8>,
    pub form: FormView,
}

/// Whether the names of a store rise strictly, so that none occurs twice.
pub open spec fn names_rise(s: Seq<FormRecord>) -> bool {
    forall|i: int, j: int| 0 <= i < j < s.len() ==> lex_lt(s[i].name, s[j].name)
}

/// The index of the form named `name`, or -1.
pub open spec fn store_find(s: Seq<FormRecord>, name: Seq<u8>) -> int
    decreases s.len(),
{
    if s.len() == 0 {
        -1
    } else if s.last().name == name {
        s.len() - 1
    } else {
        store_find(s.drop_last(), name)
    }
}

/// The number of names of the store below `name`: where `name` belongs.
pub open spec fn store_rank(s: Seq<FormRecord>, name: Seq<u8>) -> int
    decreases s.len(),
{
    if s.len() == 0 {
        0
    } else {
        store_rank(s.drop_last(), name) + (if lex_lt(s.last().name, name) { 1int } else { 0int })
    }
}

/// The form named `name`, if the store has one.
pub open spec fn store_get(s: Seq<FormRecord>, name: Seq<u8>) -> Option<FormView> {
    if store_find(s, name) >= 0 {
        Some(s[store_find(s, name)].form)
    } else {
        None
    }
}

/// The store after `form` was bound to `name`, in place of a form of that name or anew.
pub open spec fn store_put(s: Seq<FormRecord>, name: Seq<u8>, form: FormView) -> Seq<FormRecord> {
    let i = store_find(s, name);
    if i >= 0 {
        s.update(i, FormRecord { name, form })
    } else {
        s.insert(store_rank(s, name), FormRecord { name, form })
    }
}

/// The store without the form named `name`.
pub open spec fn store_del(s: Seq<FormRecord>, name: Seq<u8>) -> Seq<FormRecord> {
    let i = store_find(s, name);
    if i >= 0 {
        s.remove(i)
    } else {
        s
    }
}

/// The names of the store that start with `prefix`, in the store's order,
/// with `sep` between one and the next.
pub open spec fn store_list(s: Seq<FormRecord>, sep: Seq<u8>, prefix: Seq<u8>) -> Seq<u8>
    decreases s.len(),
{
    if s.len() == 0 {
        Seq::empty()
    } else {
        let before = store_list(s.drop_last(), sep, prefix);
        if has_prefix(s.last().name, prefix) {
            if names_listed(s.drop_last(), prefix) {
                before + sep + s.last().name
            } else {
                before + s.last().name
            }
        } else {
            before
        }
    }
}

/// Whether any name of the store starts with `prefix`.
pub open spec fn names_listed(s: Seq<FormRecord>, prefix: Seq<u8>) -> bool {
    exists|i: int| 0 <= i < s.len() && has_prefix(#[trigger] s[i].name, prefix)
}

pub proof fn lemma_store_find(s: Seq<FormRecord>, name: Seq<u8>)
    ensures
        -1 <= store_find(s, name) < s.len(),
        store_find(s, name) >= 0 ==> s[store_find(s, name)].name == name,
        store_find(s, name) < 0 ==> forall|i: int| 0 <= i < s.len() ==> (#[trigger] s[i]).name != name,
    decreases s.len(),
{
    if s.len() > 0 && s.last().name != name {
        lemma_store_find(s.drop_last(), name);
        assert forall|i: int| 0 <= i < s.len() && store_find(s, name) < 0 implies (#[trigger] s[i]).name
            != name by {
            if i < s.len() - 1 {
                assert(s.drop_last()[i] == s[i]);
            }
        }
    }
}

/// In a store whose names rise, a name is found where it stands.
pub proof fn lemma_store_find_at(s: Seq<FormRecord>, i: int)
    requires
        names_rise(s),
        0 <= i < s.len(),
    ensures
        store_find(s, s[i].name) == i,
    decreases s.len(),
{
    if s.last().name == s[i].name {
        if i < s.len() - 1 {
            lemma_lex_lt_asymmetric(s[i].name, s.last().name);
        }
    } else {
        let t = s.drop_last();
        assert forall|a: int, b: int| 0 <= a < b < t.len() implies lex_lt(t[a].name, t[b].name) by {
            assert(t[a] == s[a] && t[b] == s[b]);
        }
        lemma_store_find_at(t, i);
    }
}

/// In a store whose names rise, the names below `name` are the first `store_rank` ones.
pub proof fn lemma_store_rank(s: Seq<FormRecord>, name: Seq<u8>)
    requires
        names_rise(s),
    ensures
        0 <= store_rank(s, name) <= s.len(),
        forall|i: int| 0 <= i < store_rank(s, name) ==> lex_lt((#[trigger] s[i]).name, name),
        forall|i: int| store_rank(s, name) <= i < s.len() ==> !lex_lt((#[trigger] s[i]).name, name),
    decreases s.len(),
{
    if s.len() > 0 {
        let t = s.drop_last();
        assert forall|a: int, b: int| 0 <= a < b < t.len() implies lex_lt(t[a].name, t[b].name) by {
            assert(t[a] == s[a] && t[b] == s[b]);
        }
        lemma_store_rank(t, name);
        let r = store_rank(t, name);
        if lex_lt(s.last().name, name) {
            assert forall|i: int| 0 <= i < t.len() implies lex_lt((#[trigger] t[i]).name, name) by {
                assert(t[i] == s[i]);
                lemma_lex_lt_transitive(s[i].name, s.last().name, name);
            }
            assert(r == t.len()) by {
                if r < t.len() {
                    assert(!lex_lt(t[r].name, name));
                }
            }
        }
        assert forall|i: int| 0 <= i < store_rank(s, name) implies lex_lt(
            (#[trigger] s[i]).name,
            name,
        ) by {
            if i < t.len() {
                assert(t[i] == s[i]);
            }
        }
        assert forall|i: int| store_rank(s, name) <= i < s.len() implies !lex_lt(
            (#[trigger] s[i]).name,
            name,
        ) by {
            if i < t.len() {
                assert(t[i] == s[i]);
            }
        }
    }
}

/// Binding a form keeps the names rising, binds the name, and leaves every other name as it was.
pub proof fn lemma_store_put(s: Seq<FormRecord>, name: Seq<u8>, form: FormView)
    requires
        names_rise(s),
    ensures
        names_rise(store_put(s, name, form)),
        store_get(store_put(s, name, form), name) == Some(form),
        forall|other: Seq<u8>|
            other != name ==> #[trigger] store_get(store_put(s, name, form), other) == store_get(
                s,
                other,
            ),
{
    let t = store_put(s, name, form);
    let i = store_find(s, name);
    lemma_store_find(s, name);
    lemma_store_rank(s, name);
    let r = store_rank(s, name);
    let at = if i >= 0 { i } else { r };
    if i >= 0 {
        assert forall|a: int, b: int| 0 <= a < b < t.len() implies lex_lt(t[a].name, t[b].name) by {
            assert(t[a].name == s[a].name && t[b].name == s[b].name);
        }
    } else {
        assert forall|a: int, b: int| 0 <= a < b < t.len() implies lex_lt(t[a].name, t[b].name) by {
            if b == r {
                assert(t[a] == s[a]);
            } else if a == r {
                assert(t[b] == s[b - 1]);
                lemma_lex_lt_total(s[b - 1].name, name);
            } else {
                assert(t[a] == s[if a < r { a } else { a - 1 }]);
                assert(t[b] == s[if b < r { b } else { b - 1 }]);
            }
        }
    }
    assert(t[at].name == name);
    lemma_store_find_at(t, at);
    assert forall|other: Seq<u8>| other != name implies #[trigger] store_get(t, other) == store_get(
        s,
        other,
    ) by {
        lemma_store_find(s, other);
        lemma_store_find(t, other);
        let k = store_find(s, other);
        let m = store_find(t, other);
        if k >= 0 {
            let k2 = if i >= 0 || k < r { k } else { k + 1 };
            assert(t[k2] == s[k]);
            lemma_store_find_at(t, k2);
        } else if m >= 0 {
            let m2 = if i >= 0 || m < r { m } else { m - 1 };
            assert(s[m2] == t[m]);
        }
    }
}

/// Removing a form keeps the names rising, unbinds the name, and leaves every other name as it was.
pub proof fn lemma_store_del(s: Seq<FormRecord>, name: Seq<u8>)
    requires
        names_rise(s),
    ensures
        names_rise(store_del(s, name)),
        store_get(store_del(s, name), name).is_none(),
        forall|other: Seq<u8>|
            other != name ==> #[trigger] store_get(store_del(s, name), other) == store_get(s, other),
{
    let t = store_del(s, name);
    let i = store_find(s, name);
    lemma_store_find(s, name);
    lemma_store_find(t, name);
    if i >= 0 {
        assert forall|a: int, b: int| 0 <= a < b < t.len() implies lex_lt(t[a].name, t[b].name) by {
            assert(t[a] == s[if a < i { a } else { a + 1 }]);
            assert(t[b] == s[if b < i { b } else { b + 1 }]);
        }
        let m = store_find(t, name);
        if m >= 0 {
            let m2 = if m < i { m } else { m + 1 };
            assert(s[m2] == t[m]);
            lemma_store_find_at(s, m2);
        }
    }
    assert forall|other: Seq<u8>| other != name implies #[trigger] store_get(t, other) == store_get(
        s,
        other,
    ) by {
        lemma_store_find(s, other);
        lemma_store_find(t, other);
        let k = store_find(s, other);
        let m = store_find(t, other);
        if i >= 0 {
            if k >= 0 {
                let k2 = if k < i { k } else { k - 1 };
                assert(t[k2] == s[k]);
                lemma_store_find_at(t, k2);
            } else if m >= 0 {
                let m2 = if m < i { m } else { m + 1 };
                assert(s[m2] == t[m]);
            }
        }
    }
}

/// One form of a store, as it is held.
pub struct FormEntry {
    name: MintString,
    form: MintForm,
}

impl View for FormEntry {
    type V = FormRecord;

    closed spec fn view(&self) -> FormRecord {
        FormRecord { name: self.name@, form: self.form@ }
    }
}

/// The records of a sequence of entries.
pub open spec fn records_of(entries: Seq<FormEntry>) -> Seq<FormRecord> {
    entries.map_values(|e: FormEntry| e@)
}

/// The forms by name. The names are kept in rising order, so that a
/// listing comes out sorted and no name occurs twice.
pub struct FormStore {
    entries: Vec<FormEntry>,
}

impl View for FormStore {
    type V = Seq<FormRecord>;

    closed spec fn view(&self) -> Seq<FormRecord> {
        records_of(self.entries@)
    }
}

/// The validity of a store, as far as its view shows it.
pub open spec fn store_ok(s: Seq<FormRecord>) -> bool {
    &&& names_rise(s)
    &&& forall|i: int| 0 <= i < s.len() ==> (#[trigger] s[i]).form.pos <= s[i].form.content.len()
}

impl FormStore {
    /// The names rise, and every cursor stands inside its form.
    pub open spec fn wf(&self) -> bool {
        store_ok(self@)
    }

    pub fn new() -> (s: Self)
        ensures
            s.wf(),
            s@ == Seq::<FormRecord>::empty(),
    {
        let s = Self { entries: Vec::new() };
        assert(s@ =~= Seq::<FormRecord>::empty());
        s
    }

    /// The number of forms.
    pub fn len(&self) -> (r: usize)
        ensures
            r == self@.len(),
    {
        self.entries.len()
    }

    /// The name of the form at `index`.
    pub fn name_at(&self, index: usize) -> (r: &MintString)
        requires
            index < self@.len(),
        ensures
            r@ == self@[index as int].name,
    {
        &self.entries[index].name
    }

    /// The form at `index`.
    pub fn form_at(&self, index: usize) -> (r: &MintForm)
        requires
            self.wf(),
            index < self@.len(),
        ensures
            r@ == self@[index as int].form,
            r.wf(),
    {
        &self.entries[index].form
    }

    /// Where `name` stands in the store, or where it belongs: a search
    /// by halving, which the rising names allow.
    fn locate(&self, name: &[MintChar]) -> (r: (usize, bool))
        requires
            self.wf(),
        ensures
            r.1 == (store_find(self@, name@) >= 0),
            r.1 ==> r.0 == store_find(self@, name@),
            !r.1 ==> r.0 == store_rank(self@, name@),
            r.0 <= self@.len(),
            r.1 ==> r.0 < self@.len(),
    {
        let mut lo: usize = 0;
        let mut hi: usize = self.entries.len();
        while lo < hi
            invariant
                self.wf(),
                0 <= lo <= hi <= self@.len(),
                self@.len() == self.entries@.len(),
                forall|k: int| 0 <= k < lo ==> lex_lt((#[trigger] self@[k]).name, name@),
                forall|k: int| hi <= k < self@.len() ==> lex_lt(name@, (#[trigger] self@[k]).name),
            decreases hi - lo,
        {
            let mid = lo + (hi - lo) / 2;
            let entry_name = self.entries[mid].name.as_slice();
            assert(entry_name@ == self@[mid as int].name);
            if bytes_eq(entry_name, name) {
                proof {
                    lemma_store_find_at(self@, mid as int);
                }
                return (mid, true);
            }
            if bytes_lt(entry_name, name) {
                proof {
                    assert forall|k: int| 0 <= k < mid + 1 implies lex_lt(
                        (#[trigger] self@[k]).name,
                        name@,
                    ) by {
                        if k < mid {
                            lemma_lex_lt_transitive(self@[k].name, self@[mid as int].name, name@);
                        }
                    }
                }
                lo = mid + 1;
            } else {
                proof {
                    lemma_lex_lt_total(self@[mid as int].name, name@);
                    assert forall|k: int| mid <= k < self@.len() implies lex_lt(
                        name@,
                        (#[trigger] self@[k]).name,
                    ) by {
                        if k > mid {
                            lemma_lex_lt_transitive(name@, self@[mid as int].name, self@[k].name);
                        }
                    }
                }
                hi = mid;
            }
        }
        proof {
            lemma_store_rank(self@, name@);
            lemma_store_find(self@, name@);
            let r = store_rank(self@, name@);
            if r > lo {
                lemma_lex_lt_asymmetric(self@[lo as int].name, name@);
            }
            if r < lo {
                assert(lex_lt(self@[r].name, name@));
            }
            let f = store_find(self@, name@);
            if f >= 0 {
                if f < lo {
                    lemma_lex_lt_asymmetric(self@[f].name, name@);
                } else {
                    lemma_lex_lt_asymmetric(name@, self@[f].name);
                }
            }
        }
        (lo, false)
    }

    /// The index of the form named `name`.
    pub fn find(&self, name: &[MintChar]) -> (r: Option<usize>)
        requires
            self.wf(),
        ensures
            match r {
                Some(i) => i == store_find(self@, name@) && i < self@.len(),
                None => store_find(self@, name@) < 0,
            },
    {
        let (i, found) = self.locate(name);
        if found {
            Some(i)
        } else {
            None
        }
    }

    /// The form named `name`.
    pub fn get(&self, name: &[MintChar]) -> (r: Option<&MintForm>)
        requires
            self.wf(),
        ensures
            match r {
                Some(f) => store_get(self@, name@) == Some(f@) && f.wf(),
                None => store_get(self@, name@).is_none(),
            },
    {
        match self.find(name) {
            Some(i) => Some(&self.entries[i].form),
            None => None,
        }
    }

    /// The form named `name`, to read from it and to move its cursor.
    pub fn get_mut(&mut self, name: &[MintChar]) -> (r: Option<&mut MintForm>)
        requires
            old(self).wf(),
        ensures
            match r {
                Some(f) => {
                    let i = store_find(old(self)@, name@);
                    &&& i >= 0
                    &&& f@ == old(self)@[i].form
                    &&& f.wf()
                    &&& final(self)@ == old(self)@.update(
                        i,
                        FormRecord { name: old(self)@[i].name, form: final(f)@ },
                    )
                    &&& final(f).wf() ==> final(self).wf()
                },
                None => store_find(old(self)@, name@) < 0 && final(self)@ == old(self)@,
            },
    {
        match self.find(name) {
            Some(i) => {
                let ghost before = self.entries@;
                let f = &mut self.entries[i].form;
                assert(records_of(
                    before.update(i as int, FormEntry { name: before[i as int].name, form: *final(f) }),
                ) =~= records_of(before).update(
                    i as int,
                    FormRecord { name: records_of(before)[i as int].name, form: final(f)@ },
                ));
                Some(f)
            },
            None => None,
        }
    }

    /// Binds a form holding `value`, with its cursor at the start, to
    /// `name`; a form of that name is replaced.
    pub fn set(&mut self, name: &[MintChar], value: &[MintChar])
        requires
            old(self).wf(),
        ensures
            final(self).wf(),
            final(self)@ == store_put(old(self)@, name@, FormView { content: value@, pos: 0 }),
    {
        let (i, found) = self.locate(name);
        let entry = FormEntry { name: copy_bytes(name), form: MintForm::from_string(value) };
        proof {
            lemma_store_put(self@, name@, FormView { content: value@, pos: 0 });
        }
        if found {
            self.entries.set(i, entry);
            assert(self@ =~= store_put(old(self)@, name@, FormView { content: value@, pos: 0 }));
        } else {
            self.entries.insert(i, entry);
            assert(self@ =~= store_put(old(self)@, name@, FormView { content: value@, pos: 0 }));
        }
        assert forall|k: int| 0 <= k < self@.len() implies (#[trigger] self@[k]).form.pos
            <= self@[k].form.content.len() by {
            if found {
                if k != i {
                    assert(self@[k] == old(self)@[k]);
                }
            } else {
                if k < i {
                    assert(self@[k] == old(self)@[k]);
                } else if k > i {
                    assert(self@[k] == old(self)@[k - 1]);
                }
            }
        }
    }

    /// Removes the form named `name`, if there is one.
    pub fn remove(&mut self, name: &[MintChar])
        requires
            old(self).wf(),
        ensures
            final(self).wf(),
            final(self)@ == store_del(old(self)@, name@),
    {
        let (i, found) = self.locate(name);
        proof {
            lemma_store_del(self@, name@);
        }
        if found {
            self.entries.remove(i);
            assert(self@ =~= store_del(old(self)@, name@));
            assert forall|k: int| 0 <= k < self@.len() implies (#[trigger] self@[k]).form.pos
                <= self@[k].form.content.len() by {
                if k < i {
                    assert(self@[k] == old(self)@[k]);
                } else {
                    assert(self@[k] == old(self)@[k + 1]);
                }
            }
        }
    }

    /// Moves the cursor of the form at `index`.
    pub fn set_pos_at(&mut self, index: usize, n: MintCount)
        requires
            old(self).wf(),
            index < old(self)@.len(),
        ensures
            final(self).wf(),
            final(self)@ == old(self)@.update(
                index as int,
                FormRecord {
                    name: old(self)@[index as int].name,
                    form: moved_to(old(self)@[index as int].form, n as int),
                },
            ),
    {
        let ghost before = self.entries@;
        let entry = &mut self.entries[index];
        entry.form.set_pos(n);
        assert(self@ =~= old(self)@.update(
            index as int,
            FormRecord {
                name: old(self)@[index as int].name,
                form: moved_to(old(self)@[index as int].form, n as int),
            },
        ));
        assert forall|a: int, b: int| 0 <= a < b < self@.len() implies lex_lt(
            self@[a].name,
            self@[b].name,
        ) by {
            assert(self@[a].name == old(self)@[a].name && self@[b].name == old(self)@[b].name);
        }
        assert forall|k: int| 0 <= k < self@.len() implies (#[trigger] self@[k]).form.pos
            <= self@[k].form.content.len() by {
            if k != index {
                assert(self@[k] == old(self)@[k]);
            }
        }
    }

    /// Reads up to `n` bytes from the form at `index` and moves its cursor behind them.
    pub fn take_at(&mut self, index: usize, n: i32) -> (r: MintString)
        requires
            old(self).wf(),
            index < old(self)@.len(),
        ensures
            final(self).wf(),
            final(self)@ == old(self)@.update(
                index as int,
                FormRecord {
                    name: old(self)@[index as int].name,
                    form: FormView {
                        pos: old(self)@[index as int].form.pos + MintForm::take_len(
                            old(self)@[index as int].form,
                            n as int,
                        ),
                        ..old(self)@[index as int].form
                    },
                },
            ),
            r@ == old(self)@[index as int].form.content.subrange(
                old(self)@[index as int].form.pos as int,
                (old(self)@[index as int].form.pos + MintForm::take_len(
                    old(self)@[index as int].form,
                    n as int,
                )) as int,
            ),
    {
        assert(old(self)@[index as int].form.pos <= old(self)@[index as int].form.content.len());
        let entry = &mut self.entries[index];
        let r = entry.form.get_n(n);
        assert(self@ =~= old(self)@.update(
            index as int,
            FormRecord {
                name: old(self)@[index as int].name,
                form: FormView {
                    pos: old(self)@[index as int].form.pos + MintForm::take_len(
                        old(self)@[index as int].form,
                        n as int,
                    ),
                    ..old(self)@[index as int].form
                },
            },
        ));
        assert forall|a: int, b: int| 0 <= a < b < self@.len() implies lex_lt(
            self@[a].name,
            self@[b].name,
        ) by {
            assert(self@[a].name == old(self)@[a].name && self@[b].name == old(self)@[b].name);
        }
        assert forall|k: int| 0 <= k < self@.len() implies (#[trigger] self@[k]).form.pos
            <= self@[k].form.content.len() by {
            if k != index {
                assert(self@[k] == old(self)@[k]);
            }
        }
        r
    }

    /// The names that start with `prefix`, in rising order, with `sep`
    /// between one and the next. An empty prefix lists every name.
    pub fn list(&self, sep: &[MintChar], prefix: &[MintChar]) -> (r: MintString)
        requires
            self.wf(),
        ensures
            r@ == store_list(self@, sep@, prefix@),
    {
        let mut result: MintString = Vec::new();
        let mut need_sep = false;
        let mut i: usize = 0;
        while i < self.entries.len()
            invariant
                0 <= i <= self@.len(),
                self@.len() == self.entries@.len(),
                result@ == store_list(self@.subrange(0, i as int), sep@, prefix@),
                need_sep == names_listed(self@.subrange(0, i as int), prefix@),
            decreases self@.len() - i,
        {
            let name = self.entries[i].name.as_slice();
            let ghost head = self@.subrange(0, i as int);
            let ghost next = self@.subrange(0, i + 1);
            proof {
                assert(next.drop_last() =~= head);
                assert(next.last() == self@[i as int]);
                assert(name@ == self@[i as int].name);
            }
            if starts_with(name, prefix) {
                if need_sep {
                    append_bytes(&mut result, sep);
                }
                append_bytes(&mut result, name);
                need_sep = true;
                assert(has_prefix(next[i as int].name, prefix@));
            } else {
                proof {
                    if names_listed(next, prefix@) {
                        let w = choose|k: int|
                            0 <= k < next.len() && has_prefix(#[trigger] next[k].name, prefix@);
                        assert(head[w] == next[w]);
                    }
                    if names_listed(head, prefix@) {
                        let w = choose|k: int|
                            0 <= k < head.len() && has_prefix(#[trigger] head[k].name, prefix@);
                        assert(head[w] == next[w]);
                    }
                }
            }
            i += 1;
        }
        assert(self@.subrange(0, self@.len() as int) =~= self@);
        result
    }
}

/// A form with its cursor moved to `n`, or to its end if `n` lies behind it.
pub open spec fn moved_to(f: FormView, n: int) -> FormView {
    FormView { pos: if n <= f.content.len() { n as nat } else { f.content.len() }, ..f }
}

} // verus!
