//! The interpreter: the active string that is scanned, the neutral string
//! in which the arguments of the calls under way are built, the forms, and
//! the dispatch of a completed call to a primitive or a form.
//!
//! Primitives and variables are native code behind a trait. Each says, as
//! a relation between the state before and the state after, what a call
//! of it may do; a step of the interpreter hands on the relation of the
//! primitive that the call names, and registering says which relation
//! stands behind a name from then on.

use vstd::prelude::*;
use std::collections::VecDeque;
use crate::bytes::{bytes_eq, copy_bytes, copy_range};
use crate::emacs_buffer::{BufferView, EmacsBuffer};
use crate::emacs_buffers::{initial_registry, registry_ok, EmacsBuffers, RegistryView};
use crate::mint_arg::{arg_at, ArgType, ArgView, MintArg, MintArgList};
use crate::mint_form::{
    moved_to, store_del, store_find, store_get, store_list, store_ok, store_put, FormRecord,
    FormStore, FormView, MintForm,
};
use crate::mint_string::{append_num, clamp_base, number_text};
use crate::mint_types::{MintChar, MintCount, MintString};

verus! {

/// The text that the interpreter scans next when there is nothing else to
/// scan and a key is waiting: `#(d,#(g))`.
pub open spec fn default_key_text() -> Seq<u8> {
    seq![35u8, 40u8, 100u8, 44u8, 35u8, 40u8, 103u8, 41u8, 41u8]
}

/// The same when no key is waiting: `#(k)#(d,#(g))`.
pub open spec fn default_nokey_text() -> Seq<u8> {
    seq![35u8, 40u8, 107u8, 41u8, 35u8, 40u8, 100u8, 44u8, 35u8, 40u8, 103u8, 41u8, 41u8]
}

/// The name of the form that stands in for an unknown name in an active call: `dflta`.
pub open spec fn default_active_name() -> Seq<u8> {
    seq![100u8, 102u8, 108u8, 116u8, 97u8]
}

/// The same for a neutral call: `dfltn`.
pub open spec fn default_neutral_name() -> Seq<u8> {
    seq![100u8, 102u8, 108u8, 116u8, 110u8]
}

fn default_key_string() -> (r: MintString)
    ensures
        r@ == default_key_text(),
{
    let r = vec![35u8, 40u8, 100u8, 44u8, 35u8, 40u8, 103u8, 41u8, 41u8];
    assert(r@ =~= default_key_text());
    r
}

fn default_nokey_string() -> (r: MintString)
    ensures
        r@ == default_nokey_text(),
{
    let r = vec![35u8, 40u8, 107u8, 41u8, 35u8, 40u8, 100u8, 44u8, 35u8, 40u8, 103u8, 41u8, 41u8];
    assert(r@ =~= default_nokey_text());
    r
}

fn default_form_name(is_active: bool) -> (r: MintString)
    ensures
        r@ == if is_active {
            default_active_name()
        } else {
            default_neutral_name()
        },
{
    let r = if is_active {
        vec![100u8, 102u8, 108u8, 116u8, 97u8]
    } else {
        vec![100u8, 102u8, 108u8, 116u8, 110u8]
    };
    assert(is_active ==> r@ =~= default_active_name());
    assert(!is_active ==> r@ =~= default_neutral_name());
    r
}

/// The text still to be scanned. What a call returns in active mode goes to its front.
pub struct ActiveString {
    data: VecDeque<MintChar>,
}

impl View for ActiveString {
    type V = Seq<u8>;

    closed spec fn view(&self) -> Seq<u8> {
        self.data@
    }
}

impl ActiveString {
    pub fn new() -> (a: Self)
        ensures
            a@ == Seq::<u8>::empty(),
    {
        Self { data: VecDeque::new() }
    }

    /// Puts `s` in front of the text.
    pub fn push_front(&mut self, s: &[MintChar])
        ensures
            final(self)@ == s@ + old(self)@,
    {
        let mut i: usize = s.len();
        while i > 0
            invariant
                0 <= i <= s@.len(),
                self@ == s@.subrange(i as int, s@.len() as int) + old(self)@,
            decreases i,
        {
            i -= 1;
            self.data.push_front(s[i]);
            assert(self@ =~= s@.subrange(i as int, s@.len() as int) + old(self)@);
        }
        assert(s@.subrange(0, s@.len() as int) =~= s@);
    }

    /// Puts one byte in front of the text.
    pub fn push_front_char(&mut self, ch: MintChar)
        ensures
            final(self)@ == seq![ch] + old(self)@,
    {
        self.data.push_front(ch);
        assert(self@ =~= seq![ch] + old(self)@);
    }

    pub fn is_empty(&self) -> (r: bool)
        ensures
            r == (self@.len() == 0),
    {
        self.data.len() == 0
    }

    pub fn len(&self) -> (r: usize)
        ensures
            r == self@.len(),
    {
        self.data.len()
    }

    /// The byte at `index`.
    pub fn get(&self, index: usize) -> (r: MintChar)
        requires
            index < self@.len(),
        ensures
            r == self@[index as int],
    {
        self.data[index]
    }

    pub fn clear(&mut self)
        ensures
            final(self)@ == Seq::<u8>::empty(),
    {
        self.data.clear();
    }

    /// Replaces the text by `s`.
    pub fn load(&mut self, s: &[MintChar])
        ensures
            final(self)@ == s@,
    {
        self.data.clear();
        let mut i: usize = 0;
        while i < s.len()
            invariant
                0 <= i <= s@.len(),
                self@ == s@.subrange(0, i as int),
            decreases s@.len() - i,
        {
            self.data.push_back(s[i]);
            assert(self@ =~= s@.subrange(0, i + 1));
            i += 1;
        }
        assert(s@.subrange(0, s@.len() as int) =~= s@);
    }

    /// Removes the first `n` bytes.
    pub fn drain(&mut self, n: usize)
        requires
            n <= old(self)@.len(),
        ensures
            final(self)@ == old(self)@.subrange(n as int, old(self)@.len() as int),
    {
        let mut i: usize = 0;
        while i < n
            invariant
                0 <= i <= n <= old(self)@.len(),
                self@ == old(self)@.subrange(i as int, old(self)@.len() as int),
            decreases n - i,
        {
            let _ = self.data.pop_front();
            assert(self@ =~= old(self)@.subrange(i + 1, old(self)@.len() as int));
            i += 1;
        }
    }

    /// A copy of the bytes in `[from, to)`.
    pub fn copy_range(&self, from: usize, to: usize) -> (r: MintString)
        requires
            from <= to <= self@.len(),
        ensures
            r@ == self@.subrange(from as int, to as int),
    {
        let mut r: MintString = Vec::new();
        let mut i: usize = from;
        while i < to
            invariant
                from <= i <= to <= self@.len(),
                r@ == self@.subrange(from as int, i as int),
            decreases to - i,
        {
            r.push(self.data[i]);
            assert(r@ =~= self@.subrange(from as int, i + 1));
            i += 1;
        }
        r
    }
}

/// What the neutral string is: the arguments under construction, the
/// newest first, and the number of them that belong to the innermost call.
pub struct NeutralView {
    pub args: Seq<ArgView>,
    pub last_func: int,
}

/// An argument of the given kind with no bytes.
pub open spec fn fresh_arg(kind: ArgType) -> ArgView {
    ArgView { kind, value: Seq::empty() }
}

/// The index of the first argument that starts a call; the length if there is none.
pub open spec fn first_term(args: Seq<ArgView>) -> int
    decreases args.len(),
{
    if args.len() == 0 {
        0
    } else if args[0].kind.spec_starts_call() {
        0
    } else {
        1 + first_term(args.subrange(1, args.len() as int))
    }
}

/// The neutral string with nothing under construction: one vacant call head.
pub open spec fn neutral_empty() -> NeutralView {
    NeutralView { args: seq![fresh_arg(ArgType::Null)], last_func: 1 }
}

/// Whether the oldest argument starts a call.
pub open spec fn bottom_starts_call(args: Seq<ArgView>) -> bool {
    args.len() >= 1 && args.last().kind.spec_starts_call()
}

/// The validity of a neutral string: the oldest argument starts a call,
/// and the innermost call reaches up to the newest that does.
pub open spec fn neutral_ok(n: NeutralView) -> bool {
    &&& bottom_starts_call(n.args)
    &&& n.last_func == first_term(n.args) + 1
}

/// The neutral string after `s` was appended to the newest argument.
pub open spec fn neutral_append(n: NeutralView, s: Seq<u8>) -> NeutralView {
    NeutralView {
        args: n.args.update(0, ArgView { kind: n.args[0].kind, value: n.args[0].value + s }),
        ..n
    }
}

/// The neutral string after an argument of the given kind was opened.
pub open spec fn neutral_mark(n: NeutralView, kind: ArgType) -> NeutralView {
    NeutralView {
        args: seq![fresh_arg(kind)] + n.args,
        last_func: if kind.spec_starts_call() {
            1
        } else {
            n.last_func + 1
        },
    }
}

/// The arguments of the innermost call, the head first.
pub open spec fn neutral_top(n: NeutralView) -> Seq<ArgView> {
    n.args.subrange(0, n.last_func).reverse()
}

/// The neutral string after the arguments of the innermost call were taken off.
pub open spec fn neutral_pop(n: NeutralView) -> NeutralView {
    let rest = n.args.subrange(n.last_func, n.args.len() as int);
    if rest.len() == 0 {
        neutral_empty()
    } else {
        NeutralView { args: rest, last_func: first_term(rest) + 1 }
    }
}

pub proof fn lemma_first_term(args: Seq<ArgView>)
    ensures
        0 <= first_term(args) <= args.len(),
        first_term(args) < args.len() ==> args[first_term(args)].kind.spec_starts_call(),
        forall|i: int| 0 <= i < first_term(args) ==> !(#[trigger] args[i]).kind.spec_starts_call(),
    decreases args.len(),
{
    if args.len() > 0 && !args[0].kind.spec_starts_call() {
        let t = args.subrange(1, args.len() as int);
        lemma_first_term(t);
        assert forall|i: int| 0 <= i < first_term(args) implies !(#[trigger] args[i]).kind.spec_starts_call() by {
            if i > 0 {
                assert(t[i - 1] == args[i]);
            }
        }
    }
}

/// The first argument that starts a call is the one with none before it.
pub proof fn lemma_first_term_is(args: Seq<ArgView>, k: int)
    requires
        0 <= k < args.len(),
        args[k].kind.spec_starts_call(),
        forall|i: int| 0 <= i < k ==> !(#[trigger] args[i]).kind.spec_starts_call(),
    ensures
        first_term(args) == k,
    decreases args.len(),
{
    if k > 0 {
        let t = args.subrange(1, args.len() as int);
        assert(!args[0].kind.spec_starts_call());
        assert forall|i: int| 0 <= i < k - 1 implies !(#[trigger] t[i]).kind.spec_starts_call() by {
            assert(t[i] == args[i + 1]);
        }
        lemma_first_term_is(t, k - 1);
    }
}

/// Where the oldest argument starts a call, some argument behind any cut does.
pub proof fn lemma_last_term(args: Seq<ArgView>, cut: int)
    requires
        0 <= cut < args.len(),
        bottom_starts_call(args),
    ensures
        first_term(args.subrange(cut, args.len() as int)) < args.len() - cut,
        bottom_starts_call(args.subrange(cut, args.len() as int)),
{
    let rest = args.subrange(cut, args.len() as int);
    lemma_first_term(rest);
    assert(rest[rest.len() - 1] == args.last());
}

/// Appending to the newest argument, opening an argument and taking off a call keep a
/// neutral string valid.
pub proof fn lemma_neutral_ok(n: NeutralView)
    requires
        neutral_ok(n),
    ensures
        1 <= n.last_func <= n.args.len(),
        n.args[n.last_func - 1].kind.spec_starts_call(),
        forall|s: Seq<u8>| neutral_ok(#[trigger] neutral_append(n, s)),
        forall|kind: ArgType| neutral_ok(#[trigger] neutral_mark(n, kind)),
        neutral_ok(neutral_pop(n)),
        neutral_ok(neutral_empty()),
{
    lemma_first_term(n.args);
    lemma_last_term(n.args, 0);
    assert(n.args.subrange(0, n.args.len() as int) =~= n.args);
    let k = first_term(n.args);
    assert forall|s: Seq<u8>| neutral_ok(#[trigger] neutral_append(n, s)) by {
        let m = neutral_append(n, s);
        assert forall|i: int| 0 <= i < k implies !(#[trigger] m.args[i]).kind.spec_starts_call() by {
            assert(m.args[i].kind == n.args[i].kind);
        }
        assert(m.args[k].kind == n.args[k].kind);
        assert(m.args.last().kind == n.args.last().kind);
        lemma_first_term_is(m.args, k);
    }
    assert forall|kind: ArgType| neutral_ok(#[trigger] neutral_mark(n, kind)) by {
        let m = neutral_mark(n, kind);
        assert(m.args.last() == n.args.last());
        if kind.spec_starts_call() {
            lemma_first_term_is(m.args, 0);
        } else {
            assert forall|i: int| 0 <= i < k + 1 implies !(#[trigger] m.args[i]).kind.spec_starts_call() by {
                if i > 0 {
                    assert(m.args[i] == n.args[i - 1]);
                }
            }
            assert(m.args[k + 1] == n.args[k]);
            lemma_first_term_is(m.args, k + 1);
        }
    }
    lemma_first_term_is(neutral_empty().args, 0);
    if n.last_func < n.args.len() {
        lemma_last_term(n.args, n.last_func);
    }
}

/// The views of a sequence of arguments.
pub open spec fn arg_views(args: Seq<MintArg>) -> Seq<ArgView> {
    args.map_values(|a: MintArg| a@)
}

/// The arguments of the calls under way, the newest first.
pub struct NeutralString {
    args: VecDeque<MintArg>,
    last_func: usize,
}

impl View for NeutralString {
    type V = NeutralView;

    closed spec fn view(&self) -> NeutralView {
        NeutralView { args: arg_views(self.args@), last_func: self.last_func as int }
    }
}

impl NeutralString {
    pub open spec fn wf(&self) -> bool {
        neutral_ok(self@)
    }

    pub fn new() -> (n: Self)
        ensures
            n.wf(),
            n@ == neutral_empty(),
    {
        let mut ns = Self { args: VecDeque::new(), last_func: 0 };
        ns.clear();
        ns
    }

    /// Drops everything under construction.
    pub fn clear(&mut self)
        ensures
            final(self).wf(),
            final(self)@ == neutral_empty(),
    {
        self.args.clear();
        self.args.push_back(MintArg::new(ArgType::Null));
        self.save_func();
        assert(self@.args =~= neutral_empty().args);
        proof {
            lemma_first_term_is(self@.args, 0);
        }
    }

    /// Appends one byte to the newest argument.
    pub fn append(&mut self, ch: MintChar)
        requires
            old(self).wf(),
        ensures
            final(self).wf(),
            final(self)@ == neutral_append(old(self)@, seq![ch]),
    {
        proof {
            lemma_neutral_ok(self@);
        }
        if let Some(mut arg) = self.args.pop_front() {
            arg.append(ch);
            assert(arg@.value =~= old(self)@.args[0].value + seq![ch]);
            self.args.push_front(arg);
        }
        assert(self@.args =~= neutral_append(old(self)@, seq![ch]).args);
    }

    /// Appends a byte string to the newest argument.
    pub fn append_slice(&mut self, s: &[MintChar])
        requires
            old(self).wf(),
        ensures
            final(self).wf(),
            final(self)@ == neutral_append(old(self)@, s@),
    {
        proof {
            lemma_neutral_ok(self@);
        }
        if let Some(mut arg) = self.args.pop_front() {
            arg.append_slice(s);
            self.args.push_front(arg);
        }
        assert(self@.args =~= neutral_append(old(self)@, s@).args);
    }

    /// Opens an argument of the given kind.
    fn mark(&mut self, kind: ArgType)
        requires
            old(self).wf(),
        ensures
            final(self).wf(),
            final(self)@ == neutral_mark(old(self)@, kind),
    {
        proof {
            lemma_neutral_ok(self@);
        }
        self.args.push_front(MintArg::new(kind));
        let n = self.args.len();
        if kind.starts_call() {
            self.save_func();
        } else {
            self.increment_last_func();
        }
        assert(self@.args =~= neutral_mark(old(self)@, kind).args);
    }

    /// Opens an ordinary argument.
    pub fn mark_argument(&mut self)
        requires
            old(self).wf(),
        ensures
            final(self).wf(),
            final(self)@ == neutral_mark(old(self)@, ArgType::Arg),
    {
        self.mark(ArgType::Arg);
    }

    /// Opens the head of an active call.
    pub fn mark_active_function(&mut self)
        requires
            old(self).wf(),
        ensures
            final(self).wf(),
            final(self)@ == neutral_mark(old(self)@, ArgType::Active),
    {
        self.mark(ArgType::Active);
    }

    /// Opens the head of a neutral call.
    pub fn mark_neutral_function(&mut self)
        requires
            old(self).wf(),
        ensures
            final(self).wf(),
            final(self)@ == neutral_mark(old(self)@, ArgType::Neutral),
    {
        self.mark(ArgType::Neutral);
    }

    /// Closes the innermost call with the terminator.
    pub fn mark_end_function(&mut self)
        requires
            old(self).wf(),
        ensures
            final(self).wf(),
            final(self)@ == neutral_mark(old(self)@, ArgType::End),
    {
        self.mark(ArgType::End);
    }

    fn save_func(&mut self)
        ensures
            final(self).args == old(self).args,
            final(self).last_func == 1,
    {
        self.last_func = 1;
    }

    fn increment_last_func(&mut self)
        requires
            old(self).last_func < usize::MAX,
        ensures
            final(self).args == old(self).args,
            final(self).last_func == old(self).last_func + 1,
    {
        self.last_func += 1;
    }

    /// Takes the arguments of the innermost call off the string and
    /// returns them, the head first.
    pub fn pop_arguments(&mut self) -> (r: MintArgList)
        requires
            old(self).wf(),
        ensures
            final(self).wf(),
            r.wf(),
            r@ == neutral_top(old(self)@),
            final(self)@ == neutral_pop(old(self)@),
    {
        proof {
            lemma_neutral_ok(self@);
        }
        let at = if self.last_func < self.args.len() {
            self.last_func
        } else {
            self.args.len()
        };
        let mut result = MintArgList::new();
        let mut k: usize = 0;
        while k < at
            invariant
                0 <= k <= at,
                at == old(self)@.last_func,
                at <= old(self)@.args.len(),
                result.wf(),
                self.last_func == old(self).last_func,
                arg_views(self.args@) == old(self)@.args.subrange(k as int, old(self)@.args.len() as int),
                result@ == old(self)@.args.subrange(0, k as int).reverse(),
            decreases at - k,
        {
            let ghost cur = self.args@;
            assert(arg_views(cur).len() == cur.len());
            assert(cur.len() == old(self)@.args.len() - k);
            assert(arg_views(cur)[0] == cur[0]@);
            if let Some(arg) = self.args.pop_front() {
                assert(arg@ == old(self)@.args[k as int]);
                result.push_front(arg);
            }
            assert(arg_views(self.args@) =~= old(self)@.args.subrange(
                k + 1,
                old(self)@.args.len() as int,
            )) by {
                assert(self.args@ == cur.subrange(1, cur.len() as int));
                assert forall|j: int| 0 <= j < self.args@.len() implies arg_views(self.args@)[j]
                    == old(self)@.args[k + 1 + j] by {
                    assert(self.args@[j] == cur[j + 1]);
                    assert(arg_views(cur)[j + 1] == cur[j + 1]@);
                    assert(arg_views(cur)[j + 1] == old(self)@.args[k + (j + 1)]);
                }
            }
            assert(result@ =~= old(self)@.args.subrange(0, k + 1).reverse());
            k += 1;
        }
        if self.args.len() == 0 {
            self.clear();
        } else {
            let ghost rest = arg_views(self.args@);
            proof {
                lemma_last_term(old(self)@.args, at as int);
                lemma_first_term(rest);
            }
            let mut i: usize = 0;
            while i < self.args.len() && !self.args[i].starts_call()
                invariant
                    0 <= i <= self.args@.len(),
                    rest == arg_views(self.args@),
                    forall|j: int| 0 <= j < i ==> !(#[trigger] rest[j]).kind.spec_starts_call(),
                    first_term(rest) < rest.len(),
                    rest[first_term(rest)].kind.spec_starts_call(),
                decreases self.args@.len() - i,
            {
                assert(rest[i as int] == self.args@[i as int]@);
                i += 1;
            }
            proof {
                if i < self.args@.len() {
                    assert(rest[i as int] == self.args@[i as int]@);
                    lemma_first_term_is(rest, i as int);
                } else {
                    assert(!rest[first_term(rest)].kind.spec_starts_call());
                }
            }
            self.last_func = i + 1;
        }
        result
    }
}

/// What the interpreter's state is.
pub struct CoreView {
    pub active: Seq<u8>,
    pub neutral: NeutralView,
    pub forms: Seq<FormRecord>,
    pub idle_max: int,
    pub idle_count: int,
    pub idle_string: Seq<u8>,
    pub buffers: RegistryView,
}

/// The validity of a state, as far as its view shows it.
pub open spec fn core_ok(v: CoreView) -> bool {
    &&& neutral_ok(v.neutral)
    &&& store_ok(v.forms)
    &&& registry_ok(v.buffers)
}

/// The current buffer of a state.
pub open spec fn cur_of(v: CoreView) -> BufferView {
    v.buffers.cur()
}

/// The state with another buffer in the place of the current one.
pub open spec fn with_buffer(v: CoreView, b: BufferView) -> CoreView {
    CoreView { buffers: v.buffers.with_cur(b), ..v }
}

/// The state after a call returned `s`: in active mode `s` stands in
/// front of the text to be scanned, and will be scanned; in neutral mode
/// it is appended to the argument under construction, and will not.
pub open spec fn returned(v: CoreView, is_active: bool, s: Seq<u8>) -> CoreView {
    if is_active {
        CoreView { active: s + v.active, ..v }
    } else {
        CoreView { neutral: neutral_append(v.neutral, s), ..v }
    }
}

/// The index of the argument that the parameter marker `ch` stands for,
/// in a list of `len` arguments: its distance from 0x80, but not more
/// than the last index.
pub open spec fn marker_index(ch: u8, len: int) -> int {
    let last = if len > 0 { len - 1 } else { 0 };
    if ch - 0x80 < last {
        ch - 0x80
    } else {
        last
    }
}

/// What one byte of a form becomes when the form is returned: a
/// parameter marker becomes the value of its argument, any other byte
/// stays.
pub open spec fn expanded_byte(ch: u8, args: Seq<ArgView>) -> Seq<u8> {
    if ch >= 0x80 {
        arg_at(args, marker_index(ch, args.len() as int)).value
    } else {
        seq![ch]
    }
}

/// What the content of a form becomes when the form is returned with `args`.
pub open spec fn expanded(ss: Seq<u8>, args: Seq<ArgView>) -> Seq<u8>
    decreases ss.len(),
{
    if ss.len() == 0 {
        Seq::empty()
    } else {
        expanded(ss.drop_last(), args) + expanded_byte(ss.last(), args)
    }
}

/// A single byte expands to what it stands for.
pub proof fn lemma_expanded_one(ch: u8, args: Seq<ArgView>)
    ensures
        expanded(seq![ch], args) == expanded_byte(ch, args),
{
    assert(seq![ch].drop_last() =~= Seq::<u8>::empty());
    assert(expanded(Seq::<u8>::empty(), args) =~= Seq::<u8>::empty());
    assert(expanded(seq![ch], args) =~= expanded_byte(ch, args));
}

/// Appending twice to the newest argument is appending both at once.
pub proof fn lemma_neutral_append_twice(n: NeutralView, a: Seq<u8>, b: Seq<u8>)
    requires
        n.args.len() >= 1,
    ensures
        neutral_append(neutral_append(n, a), b) == neutral_append(n, a + b),
        neutral_append(n, Seq::empty()) == n,
{
    assert((n.args[0].value + a) + b =~= n.args[0].value + (a + b));
    assert(neutral_append(neutral_append(n, a), b).args =~= neutral_append(n, a + b).args);
    assert(n.args[0].value + Seq::<u8>::empty() =~= n.args[0].value);
    assert(neutral_append(n, Seq::empty()).args =~= n.args);
}

/// Expansion goes byte by byte, so it distributes over concatenation.
pub proof fn lemma_expanded_concat(x: Seq<u8>, y: Seq<u8>, args: Seq<ArgView>)
    ensures
        expanded(x + y, args) == expanded(x, args) + expanded(y, args),
    decreases y.len(),
{
    if y.len() == 0 {
        assert(x + y =~= x);
        assert(expanded(x, args) + expanded(y, args) =~= expanded(x, args));
    } else {
        assert((x + y).drop_last() =~= x + y.drop_last());
        assert((x + y).last() == y.last());
        lemma_expanded_concat(x, y.drop_last(), args);
        assert(expanded(x + y, args) =~= expanded(x, args) + expanded(y, args));
    }
}

/// The state after a read of up to `n` bytes from the form `name` was
/// returned. At the end of the form `not_found` is returned instead, in
/// active mode whatever the call's; without such a form nothing is.
pub open spec fn returned_n_form(
    v: CoreView,
    is_active: bool,
    name: Seq<u8>,
    n: int,
    not_found: Seq<u8>,
) -> CoreView {
    let i = store_find(v.forms, name);
    if i < 0 {
        v
    } else {
        let f = v.forms[i].form;
        if f.pos >= f.content.len() {
            returned(v, true, not_found)
        } else {
            let take = MintForm::take_len(f, n);
            returned(
                CoreView {
                    forms: v.forms.update(
                        i,
                        FormRecord { name: v.forms[i].name, form: FormView { pos: f.pos + take, ..f } },
                    ),
                    ..v
                },
                is_active,
                f.content.subrange(f.pos as int, (f.pos + take) as int),
            )
        }
    }
}

/// The state as it is made: nothing to scan, nothing under
/// construction, no forms, no idle script, and one empty buffer.
pub open spec fn initial_core() -> CoreView {
    CoreView {
        active: Seq::empty(),
        neutral: neutral_empty(),
        forms: Seq::empty(),
        idle_max: 0,
        idle_count: 0,
        idle_string: Seq::empty(),
        buffers: initial_registry(),
    }
}

/// The state of the interpreter: what is to be scanned, what is under
/// construction, the forms, the idle script, and the buffers.
pub struct MintCore {
    idle_max: i32,
    idle_count: i32,
    idle_string: MintString,
    active_string: ActiveString,
    neutral_string: NeutralString,
    forms: FormStore,
    buffers: EmacsBuffers,
}

impl View for MintCore {
    type V = CoreView;

    closed spec fn view(&self) -> CoreView {
        CoreView {
            active: self.active_string@,
            neutral: self.neutral_string@,
            forms: self.forms@,
            idle_max: self.idle_max as int,
            idle_count: self.idle_count as int,
            idle_string: self.idle_string@,
            buffers: self.buffers@,
        }
    }
}

impl MintCore {
    /// The buffers are valid.
    pub closed spec fn store_ok(&self) -> bool {
        self.buffers.wf()
    }

    /// The buffers are valid, and so is the view.
    pub open spec fn wf(&self) -> bool {
        self.store_ok() && core_ok(self@)
    }

    /// A state with nothing to scan, no forms, no idle script, and one empty buffer.
    pub fn new() -> (c: Self)
        ensures
            c.wf(),
            c@ == initial_core(),
    {
        Self {
            idle_max: 0,
            idle_count: 0,
            idle_string: Vec::new(),
            active_string: ActiveString::new(),
            neutral_string: NeutralString::new(),
            forms: FormStore::new(),
            buffers: EmacsBuffers::new(),
        }
    }

    /// The buffers.
    pub fn buffers(&self) -> (b: &EmacsBuffers)
        requires
            self.wf(),
        ensures
            b.wf(),
            b@ == self@.buffers,
    {
        &self.buffers
    }

    /// The buffers, to change them.
    pub fn buffers_mut(&mut self) -> (b: &mut EmacsBuffers)
        requires
            old(self).wf(),
        ensures
            b.wf(),
            b@ == old(self)@.buffers,
            final(b).wf() ==> final(self).wf(),
            final(self)@ == (CoreView { buffers: final(b)@, ..old(self)@ }),
    {
        &mut self.buffers
    }

    /// The current buffer.
    pub fn cur_buffer(&self) -> (b: &EmacsBuffer)
        requires
            self.wf(),
        ensures
            b.wf(),
            b@ == cur_of(self@),
    {
        self.buffers.get_cur_buffer()
    }

    /// The current buffer, to change it. Its number must stay.
    pub fn cur_buffer_mut(&mut self) -> (b: &mut EmacsBuffer)
        requires
            old(self).wf(),
        ensures
            b.wf(),
            b@ == cur_of(old(self)@),
            final(b).wf() && final(b)@.bufno == b@.bufno ==> final(self).wf(),
            final(self)@ == with_buffer(old(self)@, final(b)@),
    {
        self.buffers.cur_buffer_mut()
    }

    /// The text still to be scanned.
    pub fn active(&self) -> (a: &ActiveString)
        ensures
            a@ == self@.active,
    {
        &self.active_string
    }

    /// Whether there is nothing left to scan.
    pub fn is_idle(&self) -> (r: bool)
        ensures
            r == (self@.active.len() == 0),
    {
        self.active_string.is_empty()
    }

    /// Sets the script that is scanned once when there is nothing else to scan.
    pub fn set_idle_string(&mut self, s: &[MintChar])
        ensures
            final(self)@ == (CoreView { idle_string: s@, ..old(self)@ }),
            old(self).store_ok() ==> final(self).store_ok(),
    {
        self.idle_string = copy_bytes(s);
    }

    /// A call returns nothing.
    pub fn return_null(&self, _is_active: bool) {
    }

    /// A call returns `s`.
    pub fn return_string(&mut self, is_active: bool, s: &MintString)
        requires
            old(self).wf(),
        ensures
            final(self).wf(),
            final(self)@ == returned(old(self)@, is_active, s@),
    {
        proof {
            lemma_neutral_ok(self@.neutral);
        }
        if is_active {
            self.active_string.push_front(s.as_slice());
        } else {
            self.neutral_string.append_slice(s.as_slice());
        }
    }

    /// A call returns the number `n`, written in `base`.
    pub fn return_integer(&mut self, is_active: bool, n: i32, base: i32)
        requires
            old(self).wf(),
        ensures
            final(self).wf(),
            final(self)@ == returned(
                old(self)@,
                is_active,
                number_text(n as int, clamp_base(base as int)),
            ),
    {
        let mut s: MintString = Vec::new();
        append_num(&mut s, n, base);
        assert(s@ =~= number_text(n as int, clamp_base(base as int)));
        self.return_string(is_active, &s);
    }

    /// A call returns `prefix` followed by the number `n`, written in `base`.
    pub fn return_integer_with_prefix(
        &mut self,
        is_active: bool,
        prefix: &MintString,
        n: i32,
        base: i32,
    )
        requires
            old(self).wf(),
        ensures
            final(self).wf(),
            final(self)@ == returned(
                old(self)@,
                is_active,
                prefix@ + number_text(n as int, clamp_base(base as int)),
            ),
    {
        let mut s = copy_bytes(prefix.as_slice());
        append_num(&mut s, n, base);
        self.return_string(is_active, &s);
    }

    /// A call returns up to `n` bytes read from the form `form_name` at
    /// its cursor, which moves behind them.
    pub fn return_n_form(
        &mut self,
        is_active: bool,
        form_name: &MintString,
        n: i32,
        not_found: &MintString,
    )
        requires
            old(self).wf(),
        ensures
            final(self).wf(),
            final(self)@ == returned_n_form(old(self)@, is_active, form_name@, n as int, not_found@),
    {
        match self.forms.find(form_name.as_slice()) {
            Some(i) => {
                if self.forms.form_at(i).at_end() {
                    self.return_string(true, not_found);
                } else {
                    let result = self.forms.take_at(i, n);
                    self.return_string(is_active, &result);
                }
            },
            None => {
                self.return_null(is_active);
            },
        }
    }

    /// A call returns the names of the forms that start with `prefix`,
    /// sorted, with `sep` between one and the next.
    pub fn return_form_list(&mut self, is_active: bool, sep: &MintString, prefix: &MintString)
        requires
            old(self).wf(),
        ensures
            final(self).wf(),
            final(self)@ == returned(
                old(self)@,
                is_active,
                store_list(old(self)@.forms, sep@, prefix@),
            ),
    {
        let result = self.forms.list(sep.as_slice(), prefix.as_slice());
        self.return_string(is_active, &result);
    }

    /// Sets the number of keystrokes between two runs of the idle script;
    /// anything not positive switches it off.
    pub fn set_idle_max(&mut self, n: i32)
        ensures
            final(self)@ == (CoreView {
                idle_max: if n > 0 { n as int } else { 0 },
                idle_count: if n > 0 { n as int } else { 0 },
                ..old(self)@
            }),
            old(self).store_ok() ==> final(self).store_ok(),
    {
        if n > 0 {
            self.idle_max = n;
            self.idle_count = n;
        } else {
            self.idle_max = 0;
            self.idle_count = 0;
        }
    }

    pub fn get_idle_max(&self) -> (r: i32)
        ensures
            r == self@.idle_max,
    {
        self.idle_max
    }

    /// Moves the cursor of the form `form_name`, if there is such a form.
    pub fn set_form_pos(&mut self, form_name: &MintString, n: MintCount)
        requires
            old(self).wf(),
        ensures
            final(self).wf(),
            final(self)@ == (CoreView {
                forms: forms_moved(old(self)@.forms, form_name@, n as int),
                ..old(self)@
            }),
    {
        if let Some(i) = self.forms.find(form_name.as_slice()) {
            self.forms.set_pos_at(i, n);
        }
    }

    /// The form `form_name`.
    pub fn get_form(&self, form_name: &MintString) -> (r: Option<&MintForm>)
        requires
            self.wf(),
        ensures
            match r {
                Some(f) => store_get(self@.forms, form_name@) == Some(f@) && f.wf(),
                None => store_get(self@.forms, form_name@).is_none(),
            },
    {
        self.forms.get(form_name.as_slice())
    }

    /// The form `form_name`, to read from it and to move its cursor.
    pub fn get_form_mut(&mut self, form_name: &MintString) -> (r: Option<&mut MintForm>)
        requires
            old(self).wf(),
        ensures
            match r {
                Some(f) => {
                    let i = store_find(old(self)@.forms, form_name@);
                    &&& i >= 0
                    &&& f@ == old(self)@.forms[i].form
                    &&& f.wf()
                    &&& final(self)@ == (CoreView {
                        forms: old(self)@.forms.update(
                            i,
                            FormRecord { name: old(self)@.forms[i].name, form: final(f)@ },
                        ),
                        ..old(self)@
                    })
                    &&& final(f).wf() ==> final(self).wf()
                },
                None => store_find(old(self)@.forms, form_name@) < 0 && final(self)@ == old(
                    self,
                )@,
            },
    {
        self.forms.get_mut(form_name.as_slice())
    }

    /// Removes the form `form_name`, if there is such a form.
    pub fn del_form(&mut self, form_name: &MintString)
        requires
            old(self).wf(),
        ensures
            final(self).wf(),
            final(self)@ == (CoreView {
                forms: store_del(old(self)@.forms, form_name@),
                ..old(self)@
            }),
    {
        self.forms.remove(form_name.as_slice());
    }

    /// Binds a form holding `value` to `form_name`, with its cursor at the start.
    pub fn set_form_value(&mut self, form_name: &MintString, value: &MintString)
        requires
            old(self).wf(),
        ensures
            final(self).wf(),
            final(self)@ == (CoreView {
                forms: store_put(
                    old(self)@.forms,
                    form_name@,
                    FormView { content: value@, pos: 0 },
                ),
                ..old(self)@
            }),
    {
        self.forms.set(form_name.as_slice(), value.as_slice());
    }

    /// A call returns the form content `ss`, each parameter marker in it
    /// replaced by the value of its argument.
    pub fn return_seg_string(&mut self, is_active: bool, ss: &MintString, args: &MintArgList)
        requires
            old(self).wf(),
            args.wf(),
        ensures
            final(self).wf(),
            final(self)@ == returned(old(self)@, is_active, expanded(ss@, args@)),
    {
        let last_index = if args.len() > 0 {
            args.len() - 1
        } else {
            0
        };
        if is_active {
            let mut i: usize = ss.len();
            while i > 0
                invariant
                    0 <= i <= ss@.len(),
                    args.wf(),
                    last_index == if args@.len() > 0 { args@.len() - 1 } else { 0 },
                    *self == (MintCore { active_string: self.active_string, ..*old(self) }),
                    self.active_string@ == expanded(ss@.subrange(i as int, ss@.len() as int), args@)
                        + old(self)@.active,
                decreases i,
            {
                i -= 1;
                let ch = ss[i];
                proof {
                    let tail = ss@.subrange(i + 1, ss@.len() as int);
                    assert(ss@.subrange(i as int, ss@.len() as int) =~= seq![ch] + tail);
                    lemma_expanded_concat(seq![ch], tail, args@);
                    lemma_expanded_one(ch, args@);
                }
                if ch >= 0x80 {
                    let m = (ch - 0x80) as usize;
                    let index = if m < last_index {
                        m
                    } else {
                        last_index
                    };
                    self.active_string.push_front(args.get(index).value().as_slice());
                } else {
                    self.active_string.push_front_char(ch);
                }
                assert(self.active_string@ =~= expanded(
                    ss@.subrange(i as int, ss@.len() as int),
                    args@,
                ) + old(self)@.active);
            }
            assert(ss@.subrange(0, ss@.len() as int) =~= ss@);
        } else {
            proof {
                lemma_neutral_append_twice(old(self)@.neutral, Seq::empty(), Seq::empty());
                assert(ss@.subrange(0, 0) =~= Seq::<u8>::empty());
                assert(expanded(Seq::<u8>::empty(), args@) =~= Seq::<u8>::empty());
            }
            let mut i: usize = 0;
            while i < ss.len()
                invariant
                    0 <= i <= ss@.len(),
                    args.wf(),
                    last_index == if args@.len() > 0 { args@.len() - 1 } else { 0 },
                    self.neutral_string.wf(),
                    old(self)@.neutral.args.len() >= 1,
                    *self == (MintCore { neutral_string: self.neutral_string, ..*old(self) }),
                    self.neutral_string@ == neutral_append(
                        old(self)@.neutral,
                        expanded(ss@.subrange(0, i as int), args@),
                    ),
                decreases ss@.len() - i,
            {
                let ch = ss[i];
                proof {
                    let t = ss@.subrange(0, i + 1);
                    assert(t.drop_last() =~= ss@.subrange(0, i as int));
                    assert(t.last() == ch);
                    lemma_neutral_append_twice(
                        old(self)@.neutral,
                        expanded(ss@.subrange(0, i as int), args@),
                        expanded_byte(ch, args@),
                    );
                }
                if ch >= 0x80 {
                    let m = (ch - 0x80) as usize;
                    let index = if m < last_index {
                        m
                    } else {
                        last_index
                    };
                    self.neutral_string.append_slice(args.get(index).value().as_slice());
                } else {
                    self.neutral_string.append(ch);
                }
                i += 1;
            }
            assert(ss@.subrange(0, ss@.len() as int) =~= ss@);
        }
    }
}

/// The forms after the cursor of the form `name` was moved to `n`.
pub open spec fn forms_moved(forms: Seq<FormRecord>, name: Seq<u8>, n: int) -> Seq<FormRecord> {
    let i = store_find(forms, name);
    if i >= 0 {
        forms.update(i, FormRecord { name: forms[i].name, form: moved_to(forms[i].form, n) })
    } else {
        forms
    }
}

/// The offset just behind the `)` that closes a bracket opened
/// before `pos`, at nesting depth `depth`; -1 if the text ends first.
pub open spec fn close_paren(a: Seq<u8>, pos: int, depth: int) -> int
    decreases a.len() - pos,
{
    if pos >= a.len() {
        -1
    } else if a[pos] == 40u8 {
        close_paren(a, pos + 1, depth + 1)
    } else if a[pos] == 41u8 {
        if depth <= 1 {
            pos + 1
        } else {
            close_paren(a, pos + 1, depth - 1)
        }
    } else {
        close_paren(a, pos + 1, depth)
    }
}

pub proof fn lemma_close_paren(a: Seq<u8>, pos: int, depth: int)
    requires
        0 <= pos,
    ensures
        close_paren(a, pos, depth) == -1 || pos < close_paren(a, pos, depth) <= a.len(),
    decreases a.len() - pos,
{
    if pos < a.len() {
        lemma_close_paren(a, pos + 1, depth + 1);
        lemma_close_paren(a, pos + 1, depth - 1);
        lemma_close_paren(a, pos + 1, depth);
    }
}

/// How a scan of the active string ends.
pub enum Lexed {
    /// A `)` completed a call; the text from `next` on is still to be scanned.
    Call { next: int, neutral: NeutralView },
    /// A `(` has no balancing `)`.
    Unbalanced { neutral: NeutralView },
    /// The text ran out.
    Drained { neutral: NeutralView },
}

/// The scan of the text `a` from `pos` on, up to the first call that
/// completes. Tab, carriage return and line feed are skipped; bracketed
/// text goes to the argument under construction as it is, without its
/// outer brackets; `,` opens an argument, `#(` an active call and `##(` a
/// neutral call; `)` completes a call; any other byte goes to the
/// argument under construction.
pub open spec fn lexed(a: Seq<u8>, pos: int, n: NeutralView) -> Lexed
    decreases a.len() - pos,
{
    if pos < 0 || pos >= a.len() {
        Lexed::Drained { neutral: n }
    } else {
        let ch = a[pos];
        if ch == 9u8 || ch == 13u8 || ch == 10u8 {
            lexed(a, pos + 1, n)
        } else if ch == 40u8 {
            let next = close_paren(a, pos + 1, 1);
            if next <= pos || next > a.len() {
                Lexed::Unbalanced { neutral: n }
            } else {
                lexed(a, next, neutral_append(n, a.subrange(pos + 1, next - 1)))
            }
        } else if ch == 44u8 {
            lexed(a, pos + 1, neutral_mark(n, ArgType::Arg))
        } else if ch == 35u8 {
            if pos + 1 < a.len() && a[pos + 1] == 40u8 {
                lexed(a, pos + 2, neutral_mark(n, ArgType::Active))
            } else if pos + 2 < a.len() && a[pos + 1] == 35u8 && a[pos + 2] == 40u8 {
                lexed(a, pos + 3, neutral_mark(n, ArgType::Neutral))
            } else {
                lexed(a, pos + 1, neutral_append(n, seq![35u8]))
            }
        } else if ch == 41u8 {
            Lexed::Call { next: pos + 1, neutral: n }
        } else {
            lexed(a, pos + 1, neutral_append(n, seq![ch]))
        }
    }
}

/// How one step of the interpreter ended.
#[derive(Debug, Clone, Copy, PartialEq, Eq, Structural)]
pub enum ScanStatus {
    /// A call was completed and dispatched.
    Called,
    /// A `)` closed no call; it was dropped.
    NoFunction,
    /// A `(` has no balancing `)`; the text to be scanned stays as it is.
    Unbalanced,
    /// The text ran out without another call.
    Drained,
}

/// The state before a scan: when there is nothing to scan, whatever is
/// under construction is dropped, and the idle script is to be scanned,
/// once, or else the default text for a key that is or is not waiting.
pub open spec fn refilled(v: CoreView, key_waiting: bool) -> CoreView {
    if v.active.len() > 0 {
        v
    } else {
        CoreView {
            neutral: neutral_empty(),
            active: if v.idle_string.len() > 0 {
                v.idle_string
            } else if key_waiting {
                default_key_text()
            } else {
                default_nokey_text()
            },
            idle_string: Seq::empty(),
            ..v
        }
    }
}

/// The state after the scan up to the first call that completes.
pub open spec fn scanned(v: CoreView) -> CoreView {
    match lexed(v.active, 0, v.neutral) {
        Lexed::Call { next, neutral } => CoreView {
            active: v.active.subrange(next, v.active.len() as int),
            neutral,
            ..v
        },
        Lexed::Unbalanced { neutral } => CoreView { neutral, ..v },
        Lexed::Drained { neutral } => CoreView { active: Seq::empty(), neutral, ..v },
    }
}

/// The arguments of the call that a `)` completes: those of the
/// innermost call under construction, closed with the terminator.
pub open spec fn call_args(v: CoreView) -> Seq<ArgView> {
    neutral_top(neutral_mark(v.neutral, ArgType::End))
}

/// The state with the arguments of the completed call taken off.
pub open spec fn call_taken(v: CoreView) -> CoreView {
    CoreView { neutral: neutral_pop(neutral_mark(v.neutral, ArgType::End)), ..v }
}

/// The form that a call of `name` expands when `name` is no primitive:
/// the form of that name or, if there is none, the default form for the
/// mode of the call.
pub open spec fn called_form(forms: Seq<FormRecord>, name: Seq<u8>, is_active: bool) -> Option<
    FormView,
> {
    match store_get(forms, name) {
        Some(f) => Some(f),
        None => store_get(
            forms,
            if is_active {
                default_active_name()
            } else {
                default_neutral_name()
            },
        ),
    }
}

/// The state after a call of a form with `args`: the rest of the form
/// from its cursor on is returned, its parameter markers replaced; a
/// call of nothing known returns nothing.
pub open spec fn form_called(v: CoreView, args: Seq<ArgView>) -> CoreView {
    let is_active = args[0].kind is Active;
    match called_form(v.forms, args[0].value, is_active) {
        Some(f) => returned(
            v,
            is_active,
            expanded(f.content.subrange(f.pos as int, f.content.len() as int), args),
        ),
        None => v,
    }
}

/// The index of the first of `names` that is `name`, or -1.
pub open spec fn name_index(names: Seq<Seq<u8>>, name: Seq<u8>) -> int
    decreases names.len(),
{
    if names.len() == 0 {
        -1
    } else if names[0] == name {
        0
    } else {
        let r = name_index(names.subrange(1, names.len() as int), name);
        if r < 0 {
            -1
        } else {
            r + 1
        }
    }
}

pub proof fn lemma_name_index(names: Seq<Seq<u8>>, name: Seq<u8>)
    ensures
        -1 <= name_index(names, name) < names.len(),
        name_index(names, name) >= 0 ==> names[name_index(names, name)] == name,
        forall|i: int|
            0 <= i < names.len() && names[i] == name ==> 0 <= name_index(names, name) <= i,
    decreases names.len(),
{
    if names.len() > 0 && names[0] != name {
        let t = names.subrange(1, names.len() as int);
        lemma_name_index(t, name);
        assert forall|i: int| 0 <= i < names.len() && names[i] == name implies 0 <= name_index(
            names,
            name,
        ) <= i by {
            assert(t[i - 1] == names[i]);
        }
    }
}

/// A name added to a list is in it, and so is every name that was.
pub proof fn lemma_name_added(names: Seq<Seq<u8>>, name: Seq<u8>)
    ensures
        name_index(names.push(name), name) >= 0,
        forall|n: Seq<u8>| name_index(names, n) >= 0 ==> #[trigger] name_index(names.push(name), n) >= 0,
{
    let longer = names.push(name);
    lemma_name_index(longer, name);
    assert(longer[names.len() as int] == name);
    assert forall|n: Seq<u8>| name_index(names, n) >= 0 implies #[trigger] name_index(longer, n)
        >= 0 by {
        lemma_name_index(names, n);
        lemma_name_index(longer, n);
        assert(longer[name_index(names, n)] == n);
    }
}

/// A name added to a list leaves every other name where it was found.
pub proof fn lemma_name_elsewhere(names: Seq<Seq<u8>>, name: Seq<u8>, n: Seq<u8>)
    requires
        n != name,
    ensures
        name_index(names.push(name), n) == name_index(names, n),
{
    let longer = names.push(name);
    let a = name_index(names, n);
    let b = name_index(longer, n);
    lemma_name_index(names, n);
    lemma_name_index(longer, n);
    if a >= 0 {
        assert(longer[a] == n);
        assert(names[b] == longer[b]);
    } else if b >= 0 {
        if b < names.len() {
            assert(names[b] == longer[b]);
        } else {
            assert(longer[b] == name);
        }
    }
}

impl MintCore {
    /// Makes sure there is something to scan.
    pub fn refill(&mut self, key_waiting: bool)
        requires
            old(self).wf(),
        ensures
            final(self).wf(),
            final(self)@ == refilled(old(self)@, key_waiting),
    {
        if self.active_string.is_empty() {
            self.neutral_string.clear();
            if self.idle_string.len() > 0 {
                self.active_string.load(self.idle_string.as_slice());
                self.idle_string.clear();
            } else {
                let default = if key_waiting {
                    default_key_string()
                } else {
                    default_nokey_string()
                };
                self.active_string.load(default.as_slice());
                assert(self.idle_string@ =~= Seq::<u8>::empty());
            }
        }
    }

    /// Finds the `)` that balances a `(` at `start`, and appends the text
    /// between the two to the argument under construction. Returns the
    /// offset behind the `)`, or `None`, with nothing appended, if there is none.
    fn copy_to_close_paren(&mut self, start: usize) -> (r: Option<usize>)
        requires
            old(self).wf(),
            start < old(self)@.active.len(),
        ensures
            final(self).wf(),
            match r {
                Some(next) => {
                    &&& next == close_paren(old(self)@.active, start + 1, 1)
                    &&& start + 2 <= next <= old(self)@.active.len()
                    &&& final(self)@ == (CoreView {
                        neutral: neutral_append(
                            old(self)@.neutral,
                            old(self)@.active.subrange(start + 1, next - 1),
                        ),
                        ..old(self)@
                    })
                },
                None => close_paren(old(self)@.active, start + 1, 1) == -1 && final(self)@ == old(
                    self,
                )@,
            },
    {
        let len = self.active_string.len();
        let mut parens: usize = 1;
        let mut next: usize = start + 1;
        proof {
            lemma_close_paren(self@.active, start + 1, 1);
        }
        while parens > 0
            invariant
                *self == *old(self),
                self.wf(),
                len == self@.active.len(),
                start + 1 <= next <= len,
                parens <= next - start,
                parens > 0 ==> close_paren(self@.active, next as int, parens as int) == close_paren(
                    self@.active,
                    start + 1,
                    1,
                ),
                parens == 0 ==> next == close_paren(self@.active, start + 1, 1) && next >= start + 2,
            decreases len - next, parens,
        {
            if next >= len {
                return None;
            }
            let ch = self.active_string.get(next);
            next += 1;
            if ch == 40u8 {
                parens += 1;
            } else if ch == 41u8 {
                parens -= 1;
            }
        }
        let content = self.active_string.copy_range(start + 1, next - 1);
        self.neutral_string.append_slice(content.as_slice());
        Some(next)
    }

    /// Scans the active string up to the first call that completes, and
    /// removes what was scanned from it.
    pub fn scan_to_call(&mut self) -> (status: ScanStatus)
        requires
            old(self).wf(),
        ensures
            final(self).wf(),
            final(self)@ == scanned(old(self)@),
            match lexed(old(self)@.active, 0, old(self)@.neutral) {
                Lexed::Call { .. } => status == ScanStatus::Called,
                Lexed::Unbalanced { .. } => status == ScanStatus::Unbalanced,
                Lexed::Drained { .. } => status == ScanStatus::Drained,
            },
    {
        let ghost a = self@.active;
        let len = self.active_string.len();
        let mut pos: usize = 0;
        while pos < len
            invariant
                self.wf(),
                len == a.len(),
                0 <= pos <= len,
                self@ == (CoreView { neutral: self@.neutral, ..old(self)@ }),
                a == old(self)@.active,
                lexed(a, pos as int, self@.neutral) == lexed(a, 0, old(self)@.neutral),
            decreases len - pos,
        {
            let ch = self.active_string.get(pos);
            if ch == 9u8 || ch == 13u8 || ch == 10u8 {
                pos += 1;
            } else if ch == 40u8 {
                match self.copy_to_close_paren(pos) {
                    Some(next) => {
                        pos = next;
                    },
                    None => {
                        return ScanStatus::Unbalanced;
                    },
                }
            } else if ch == 44u8 {
                pos += 1;
                self.neutral_string.mark_argument();
            } else if ch == 35u8 {
                if pos + 1 < len && self.active_string.get(pos + 1) == 40u8 {
                    pos += 2;
                    self.neutral_string.mark_active_function();
                } else if len - pos > 2 && self.active_string.get(pos + 1) == 35u8
                    && self.active_string.get(pos + 2) == 40u8 {
                    pos += 3;
                    self.neutral_string.mark_neutral_function();
                } else {
                    self.neutral_string.append(35u8);
                    pos += 1;
                }
            } else if ch == 41u8 {
                pos += 1;
                self.active_string.drain(pos);
                return ScanStatus::Called;
            } else {
                self.neutral_string.append(ch);
                pos += 1;
            }
        }
        self.active_string.clear();
        ScanStatus::Drained
    }

    /// Expands the form that a call with `args` names, if it names one.
    pub fn call_form(&mut self, args: &MintArgList)
        requires
            old(self).wf(),
            args.wf(),
            args@.len() > 0,
        ensures
            final(self).wf(),
            final(self)@ == form_called(old(self)@, args@),
    {
        let is_active = args.get(0).arg_type() == ArgType::Active;
        let func_name = args.get(0).value();
        let found = match self.forms.find(func_name.as_slice()) {
            Some(i) => Some(i),
            None => {
                let default_name = default_form_name(is_active);
                self.forms.find(default_name.as_slice())
            },
        };
        if let Some(i) = found {
            let content = self.forms.form_at(i).get();
            self.return_seg_string(is_active, &content, args);
        }
    }
}

/// An item under its name. It is generic, and so are the two functions
/// behind it: what they ensure of an item is proved for every type, and
/// so holds of a boxed trait object as well, of which Verus proves no
/// field access.
pub struct Named<T> {
    name: MintString,
    item: T,
}

impl<T> Named<T> {
    fn new(name: MintString, item: T) -> (e: Self)
        ensures
            e.name == name,
            e.item == item,
    {
        Self { name, item }
    }
}

/// Puts `item` behind the last of `items`.
fn push_item<T>(items: &mut Vec<T>, item: T)
    ensures
        final(items)@.len() == old(items)@.len() + 1,
        final(items)@[old(items)@.len() as int] == item,
        forall|k: int| 0 <= k < old(items)@.len() ==> final(items)@[k] == old(items)@[k],
{
    items.push(item);
}

/// Puts `item` in the place of the one at `i`.
fn set_item<T>(items: &mut Vec<T>, i: usize, item: T)
    requires
        i < old(items)@.len(),
    ensures
        final(items)@.len() == old(items)@.len(),
        final(items)@[i as int] == item,
        forall|k: int| 0 <= k < old(items)@.len() && k != i ==> final(items)@[k] == old(items)@[k],
{
    items.set(i, item);
}

/// A variable: a named value that the interpreter reads and writes
/// through `lv` and `sv`, computed by native code.
pub trait MintVar {
    /// Whether the variable may have the value `value` in the state `v`.
    /// A variable that does not say otherwise may have any value: what it
    /// tells of lies outside the interpreter.
    open spec fn reads(&self, v: CoreView, value: Seq<u8>) -> bool {
        true
    }

    /// The value of the variable.
    fn get_val(&self, interp: &MintCore) -> (r: MintString)
        requires
            interp.wf(),
        ensures
            self.reads(interp@, r@),
    ;

    /// The state that setting the variable to `val` makes of the state
    /// `v`. A variable that does not say otherwise leaves the state as it
    /// is: what it sets lies outside the interpreter.
    open spec fn assigned(&self, v: CoreView, val: Seq<u8>) -> CoreView {
        v
    }

    /// Sets the variable to `val`.
    fn set_val(&self, interp: &mut MintCore, val: &MintString)
        requires
            old(interp).wf(),
        ensures
            final(interp).wf(),
            final(interp)@ == self.assigned(old(interp)@, val@),
    ;
}

/// A variable under its name.
pub type VarEntry = Named<Box<dyn MintVar>>;

/// The names of a sequence of variables.
pub closed spec fn var_names_of(vars: Seq<VarEntry>) -> Seq<Seq<u8>> {
    vars.map_values(|e: VarEntry| e.name@)
}

/// Whether the variable `name` among `vars` may have the value `value`
/// in the state `v`: what the first variable of that name reads there;
/// where there is no such variable, whether `value` is empty.
pub closed spec fn read_by(vars: Seq<VarEntry>, name: Seq<u8>, v: CoreView, value: Seq<u8>) -> bool {
    let i = name_index(var_names_of(vars), name);
    if 0 <= i < vars.len() {
        vars[i].item.reads(v, value)
    } else {
        value == Seq::<u8>::empty()
    }
}

/// Whether the variable `name` among `vars` reads and is set as `var` is.
pub open spec fn var_is<V: MintVar>(vars: Seq<VarEntry>, name: Seq<u8>, var: V) -> bool {
    &&& forall|v: CoreView, value: Seq<u8>| #[trigger]
        read_by(vars, name, v, value) == var.reads(v, value)
    &&& forall|v: CoreView, val: Seq<u8>| #[trigger]
        assigned_by(vars, name, v, val) == var.assigned(v, val)
}

/// A variable that is not there reads as nothing, and setting it changes nothing.
pub proof fn law_unknown_variable(vars: Seq<VarEntry>, name: Seq<u8>, v: CoreView, val: Seq<u8>)
    requires
        name_index(var_names_of(vars), name) < 0,
    ensures
        read_by(vars, name, v, val) == (val == Seq::<u8>::empty()),
        assigned_by(vars, name, v, val) == v,
{
}

/// The state that setting the variable `name` among `vars` to `val` makes
/// of the state `v`: what the first variable of that name makes of it;
/// `v` itself if there is no such variable.
pub closed spec fn assigned_by(vars: Seq<VarEntry>, name: Seq<u8>, v: CoreView, val: Seq<u8>) -> CoreView {
    let i = name_index(var_names_of(vars), name);
    if 0 <= i < vars.len() {
        vars[i].item.assigned(v, val)
    } else {
        v
    }
}

/// The interpreter's state together with its variables: what a primitive works on.
pub struct MintMachine {
    state: MintCore,
    vars: Vec<VarEntry>,
}

impl View for MintMachine {
    type V = CoreView;

    closed spec fn view(&self) -> CoreView {
        self.state@
    }
}

impl MintMachine {
    /// The state's stores are valid.
    pub closed spec fn store_ok(&self) -> bool {
        self.state.store_ok()
    }

    /// The stores are valid, and so is the view.
    pub open spec fn wf(&self) -> bool {
        self.store_ok() && core_ok(self@)
    }

    /// The variables, in the order in which they are searched.
    pub closed spec fn vars(&self) -> Seq<VarEntry> {
        self.vars@
    }

    /// The names of the variables, in the order in which they are searched.
    pub open spec fn var_names(&self) -> Seq<Seq<u8>> {
        var_names_of(self.vars())
    }

    /// Whether there is a variable named `name`.
    pub open spec fn has_var(&self, name: Seq<u8>) -> bool {
        name_index(self.var_names(), name) >= 0
    }

    /// The state that setting the variable `name` to `val` makes of the
    /// state as it is: what the variable registered under that name
    /// makes of it; the state as it is if there is no such variable.
    pub open spec fn var_assigned(&self, name: Seq<u8>, val: Seq<u8>) -> CoreView {
        assigned_by(self.vars(), name, self@, val)
    }

    /// The state.
    pub fn state(&self) -> (c: &MintCore)
        ensures
            c@ == self@,
            self.wf() ==> c.wf(),
    {
        &self.state
    }

    /// The buffers.
    pub fn buffers(&self) -> (b: &EmacsBuffers)
        requires
            self.wf(),
        ensures
            b.wf(),
            b@ == self@.buffers,
    {
        self.state.buffers()
    }

    /// The buffers, to change them.
    pub fn buffers_mut(&mut self) -> (b: &mut EmacsBuffers)
        requires
            old(self).wf(),
        ensures
            b.wf(),
            b@ == old(self)@.buffers,
            final(b).wf() ==> final(self).wf(),
            final(self)@ == (CoreView { buffers: final(b)@, ..old(self)@ }),
            final(self).vars() == old(self).vars(),
    {
        self.state.buffers_mut()
    }

    /// The current buffer.
    pub fn cur_buffer(&self) -> (b: &EmacsBuffer)
        requires
            self.wf(),
        ensures
            b.wf(),
            b@ == cur_of(self@),
    {
        self.state.cur_buffer()
    }

    /// The current buffer, to change it. Its number must stay.
    pub fn cur_buffer_mut(&mut self) -> (b: &mut EmacsBuffer)
        requires
            old(self).wf(),
        ensures
            b.wf(),
            b@ == cur_of(old(self)@),
            final(b).wf() && final(b)@.bufno == b@.bufno ==> final(self).wf(),
            final(self)@ == with_buffer(old(self)@, final(b)@),
            final(self).vars() == old(self).vars(),
    {
        self.state.cur_buffer_mut()
    }

    /// The state, to change it.
    pub fn state_mut(&mut self) -> (c: &mut MintCore)
        ensures
            c@ == old(self)@,
            old(self).wf() ==> c.wf(),
            final(self)@ == final(c)@,
            final(c).wf() ==> final(self).wf(),
            final(self).vars() == old(self).vars(),
    {
        &mut self.state
    }

    /// The state as it is made, with no variables.
    pub fn new() -> (m: Self)
        ensures
            m.wf(),
            m@ == initial_core(),
            m.var_names() == Seq::<Seq<u8>>::empty(),
    {
        let m = Self { state: MintCore::new(), vars: Vec::new() };
        assert(m.var_names() =~= Seq::<Seq<u8>>::empty());
        m
    }

    /// The index of the variable named `name`.
    fn find_var(&self, name: &[MintChar]) -> (r: Option<usize>)
        ensures
            match r {
                Some(i) => i == name_index(self.var_names(), name@) && i < self.vars@.len(),
                None => name_index(self.var_names(), name@) < 0,
            },
    {
        let mut i: usize = 0;
        while i < self.vars.len()
            invariant
                0 <= i <= self.vars@.len(),
                forall|k: int| 0 <= k < i ==> self.var_names()[k] != name@,
            decreases self.vars@.len() - i,
        {
            assert(self.var_names()[i as int] == self.vars@[i as int].name@);
            if bytes_eq(self.vars[i].name.as_slice(), name) {
                proof {
                    lemma_name_index(self.var_names(), name@);
                }
                return Some(i);
            }
            i += 1;
        }
        proof {
            lemma_name_index(self.var_names(), name@);
        }
        None
    }

    /// Registers the variable `var` under `name`, in place of a
    /// variable of that name or anew.
    pub fn add_var(&mut self, name: MintString, var: Box<dyn MintVar>)
        ensures
            final(self)@ == old(self)@,
            old(self).wf() ==> final(self).wf(),
            final(self).var_names() == if old(self).has_var(name@) {
                old(self).var_names()
            } else {
                old(self).var_names().push(name@)
            },
            forall|n: Seq<u8>| #[trigger] final(self).has_var(n) == (old(self).has_var(n) || n == name@),
            forall|v: CoreView, val: Seq<u8>| #[trigger]
                assigned_by(final(self).vars(), name@, v, val) == var.assigned(v, val),
            forall|n: Seq<u8>, v: CoreView, val: Seq<u8>|
                n != name@ ==> #[trigger] assigned_by(final(self).vars(), n, v, val) == assigned_by(
                    old(self).vars(),
                    n,
                    v,
                    val,
                ),
            forall|v: CoreView, value: Seq<u8>| #[trigger]
                read_by(final(self).vars(), name@, v, value) == var.reads(v, value),
            forall|n: Seq<u8>, v: CoreView, value: Seq<u8>|
                n != name@ ==> #[trigger] read_by(final(self).vars(), n, v, value) == read_by(
                    old(self).vars(),
                    n,
                    v,
                    value,
                ),
    {
        proof {
            lemma_name_added(self.var_names(), name@);
        }
        let found = self.find_var(name.as_slice());
        let ghost key = name@;
        let entry = Named::new(name, var);
        match found {
            Some(i) => {
                proof {
                    lemma_name_index(self.var_names(), entry.name@);
                }
                set_item(&mut self.vars, i, entry);
                assert(self.var_names() =~= old(self).var_names());
            },
            None => {
                push_item(&mut self.vars, entry);
                assert(self.var_names() =~= old(self).var_names().push(key));
            },
        }
        proof {
            lemma_name_index(self.var_names(), key);
            lemma_name_index(old(self).var_names(), key);
            assert forall|n: Seq<u8>| n != key implies name_index(self.var_names(), n)
                == name_index(old(self).var_names(), n) by {
                if found is None {
                    lemma_name_elsewhere(old(self).var_names(), key, n);
                }
            }
            assert forall|n: Seq<u8>, v: CoreView, val: Seq<u8>| n != key implies #[trigger] assigned_by(
                self.vars(),
                n,
                v,
                val,
            ) == assigned_by(old(self).vars(), n, v, val) by {
                lemma_name_index(old(self).var_names(), n);
                let k = name_index(old(self).var_names(), n);
                if 0 <= k < old(self).vars@.len() {
                    assert(old(self).var_names()[k] == old(self).vars@[k].name@);
                    assert(self.vars@[k] == old(self).vars@[k]);
                }
            }
            assert forall|n: Seq<u8>, v: CoreView, value: Seq<u8>| n != key implies #[trigger] read_by(
                self.vars(),
                n,
                v,
                value,
            ) == read_by(old(self).vars(), n, v, value) by {
                lemma_name_index(old(self).var_names(), n);
                let k = name_index(old(self).var_names(), n);
                if 0 <= k < old(self).vars@.len() {
                    assert(old(self).var_names()[k] == old(self).vars@[k].name@);
                    assert(self.vars@[k] == old(self).vars@[k]);
                }
            }
            let at = name_index(self.var_names(), key);
            assert(0 <= at < self.vars@.len());
            assert(self.vars@[at].item == var);
        }
    }

    /// The value of the variable `var_name`; empty if there is no such variable.
    pub fn get_var(&self, var_name: &MintString) -> (r: MintString)
        requires
            self.wf(),
        ensures
            read_by(self.vars(), var_name@, self@, r@),
            !self.has_var(var_name@) ==> r@ == Seq::<u8>::empty(),
    {
        match self.find_var(var_name.as_slice()) {
            Some(i) => self.vars[i].item.get_val(&self.state),
            None => Vec::new(),
        }
    }

    /// Sets the variable `var_name` to `val`; does nothing if there is no such variable.
    pub fn set_var(&mut self, var_name: &MintString, val: &MintString)
        requires
            old(self).wf(),
        ensures
            final(self).wf(),
            final(self).vars() == old(self).vars(),
            final(self)@ == old(self).var_assigned(var_name@, val@),
            !old(self).has_var(var_name@) ==> final(self)@ == old(self)@,
    {
        if let Some(i) = self.find_var(var_name.as_slice()) {
            self.vars[i].item.set_val(&mut self.state, val);
        }
    }

    /// A call returns nothing.
    pub fn return_null(&self, is_active: bool) {
        self.state.return_null(is_active);
    }

    /// A call returns `s`.
    pub fn return_string(&mut self, is_active: bool, s: &MintString)
        requires
            old(self).wf(),
        ensures
            final(self).wf(),
            final(self)@ == returned(old(self)@, is_active, s@),
            final(self).vars() == old(self).vars(),
    {
        self.state.return_string(is_active, s);
    }

    /// A call returns the number `n`, written in `base`.
    pub fn return_integer(&mut self, is_active: bool, n: i32, base: i32)
        requires
            old(self).wf(),
        ensures
            final(self).wf(),
            final(self)@ == returned(
                old(self)@,
                is_active,
                number_text(n as int, clamp_base(base as int)),
            ),
            final(self).vars() == old(self).vars(),
    {
        self.state.return_integer(is_active, n, base);
    }

    /// A call returns `prefix` followed by the number `n`, written in `base`.
    pub fn return_integer_with_prefix(
        &mut self,
        is_active: bool,
        prefix: &MintString,
        n: i32,
        base: i32,
    )
        requires
            old(self).wf(),
        ensures
            final(self).wf(),
            final(self)@ == returned(
                old(self)@,
                is_active,
                prefix@ + number_text(n as int, clamp_base(base as int)),
            ),
            final(self).vars() == old(self).vars(),
    {
        self.state.return_integer_with_prefix(is_active, prefix, n, base);
    }
}

/// A primitive: a named native operation that a call dispatches to. It
/// reads its arguments, changes the state, and returns through the
/// `return_` functions of the machine.
pub trait MintPrim {
    /// Whether a call of the primitive with the arguments `args`, in
    /// active mode or not, may lead from the state `before` with the
    /// variables `vars` to the state `after` with the variables
    /// `vars_after`. A primitive that does not say otherwise may lead
    /// anywhere: what it does lies outside the interpreter.
    open spec fn admits(
        &self,
        vars: Seq<VarEntry>,
        before: CoreView,
        is_active: bool,
        args: Seq<ArgView>,
        after: CoreView,
        vars_after: Seq<VarEntry>,
    ) -> bool {
        true
    }

    /// Runs the primitive on the arguments of a call; `args[0]` is the
    /// call's head.
    fn execute(&self, interp: &mut MintMachine, is_active: bool, args: &MintArgList)
        requires
            old(interp).wf(),
            args.wf(),
        ensures
            final(interp).wf(),
            self.admits(
                old(interp).vars(),
                old(interp)@,
                is_active,
                args@,
                final(interp)@,
                final(interp).vars(),
            ),
    ;
}

/// A primitive under its name.
pub type PrimEntry = Named<Box<dyn MintPrim>>;

/// The names of a sequence of primitives.
pub closed spec fn prim_names_of(prims: Seq<PrimEntry>) -> Seq<Seq<u8>> {
    prims.map_values(|e: PrimEntry| e.name@)
}

/// The interpreter.
pub struct Mint {
    machine: MintMachine,
    prims: Vec<PrimEntry>,
}

impl View for Mint {
    type V = CoreView;

    closed spec fn view(&self) -> CoreView {
        self.machine@
    }
}

impl Mint {
    /// The state's stores are valid.
    pub closed spec fn store_ok(&self) -> bool {
        self.machine.store_ok()
    }

    /// The stores are valid, and so is the view.
    pub open spec fn wf(&self) -> bool {
        self.store_ok() && core_ok(self@)
    }

    /// The names of the primitives, in the order in which they are searched.
    pub closed spec fn prim_names(&self) -> Seq<Seq<u8>> {
        prim_names_of(self.prims@)
    }

    /// The variables, in the order in which they are searched.
    pub closed spec fn vars(&self) -> Seq<VarEntry> {
        self.machine.vars()
    }

    /// The names of the variables, in the order in which they are searched.
    pub open spec fn var_names(&self) -> Seq<Seq<u8>> {
        var_names_of(self.vars())
    }

    /// Whether there is a primitive named `name`.
    pub open spec fn has_prim(&self, name: Seq<u8>) -> bool {
        name_index(self.prim_names(), name) >= 0
    }

    /// Whether there is a variable named `name`.
    pub open spec fn has_var(&self, name: Seq<u8>) -> bool {
        name_index(self.var_names(), name) >= 0
    }

    /// Whether there is a primitive named `name`, and a call of it with
    /// the arguments `args` may lead from `before` with the variables
    /// `vars` to `after` with the variables `vars_after`: what the
    /// primitive registered under that name admits.
    pub closed spec fn prim_admits(
        &self,
        name: Seq<u8>,
        vars: Seq<VarEntry>,
        before: CoreView,
        is_active: bool,
        args: Seq<ArgView>,
        after: CoreView,
        vars_after: Seq<VarEntry>,
    ) -> bool {
        let i = name_index(self.prim_names(), name);
        0 <= i < self.prims@.len() && self.prims@[i].item.admits(
            vars,
            before,
            is_active,
            args,
            after,
            vars_after,
        )
    }

    /// Whether the primitive named `name` admits what `prim` admits.
    pub open spec fn prim_is<P: MintPrim>(&self, name: Seq<u8>, prim: P) -> bool {
        forall|
            vars: Seq<VarEntry>,
            before: CoreView,
            is_active: bool,
            args: Seq<ArgView>,
            after: CoreView,
            vars_after: Seq<VarEntry>,
        | #[trigger]
            self.prim_admits(name, vars, before, is_active, args, after, vars_after) == prim.admits(
                vars,
                before,
                is_active,
                args,
                after,
                vars_after,
            )
    }

    /// Whether this interpreter has the primitives of `other`: the same
    /// names in the same order, each with the same primitive behind it.
    pub open spec fn same_prims(&self, other: Mint) -> bool {
        &&& self.prim_names() == other.prim_names()
        &&& forall|
            name: Seq<u8>,
            vars: Seq<VarEntry>,
            before: CoreView,
            is_active: bool,
            args: Seq<ArgView>,
            after: CoreView,
            vars_after: Seq<VarEntry>,
        | #[trigger]
            self.prim_admits(name, vars, before, is_active, args, after, vars_after)
                == other.prim_admits(name, vars, before, is_active, args, after, vars_after)
    }

    /// The state that setting the variable `name` to `val` makes of the
    /// state as it is.
    pub open spec fn var_assigned(&self, name: Seq<u8>, val: Seq<u8>) -> CoreView {
        assigned_by(self.vars(), name, self@, val)
    }

    /// The state and the variables.
    pub fn machine(&self) -> (m: &MintMachine)
        ensures
            m@ == self@,
            m.vars() == self.vars(),
            self.wf() ==> m.wf(),
    {
        &self.machine
    }

    /// The state and the variables, to change them.
    pub fn machine_mut(&mut self) -> (m: &mut MintMachine)
        ensures
            m@ == old(self)@,
            m.vars() == old(self).vars(),
            old(self).wf() ==> m.wf(),
            final(self)@ == final(m)@,
            final(self).vars() == final(m).vars(),
            final(m).wf() ==> final(self).wf(),
            final(self).same_prims(*old(self)),
    {
        &mut self.machine
    }

    /// An interpreter with no primitives, variables or forms, about to
    /// scan the default text for no key waiting.
    pub fn new() -> (m: Self)
        ensures
            m.wf(),
            m@ == (CoreView { active: default_nokey_text(), ..initial_core() }),
            m.prim_names() == Seq::<Seq<u8>>::empty(),
            m.var_names() == Seq::<Seq<u8>>::empty(),
    {
        let mut m = Self { machine: MintMachine::new(), prims: Vec::new() };
        let text = default_nokey_string();
        m.machine.state.active_string.push_front(text.as_slice());
        assert(m@.active =~= default_nokey_text());
        assert(m.prim_names() =~= Seq::<Seq<u8>>::empty());
        m
    }

    /// An interpreter about to scan `s`.
    pub fn with_initial_string(s: &[MintChar]) -> (m: Self)
        ensures
            m.wf(),
            m@ == (CoreView { active: s@, ..initial_core() }),
            m.prim_names() == Seq::<Seq<u8>>::empty(),
            m.var_names() == Seq::<Seq<u8>>::empty(),
    {
        let mut m = Self::new();
        m.machine.state.active_string.clear();
        m.machine.state.active_string.push_front(s);
        assert(m@.active =~= s@);
        m
    }

    /// The index of the primitive named `name`.
    fn find_prim(&self, name: &[MintChar]) -> (r: Option<usize>)
        ensures
            match r {
                Some(i) => i == name_index(self.prim_names(), name@) && i < self.prims@.len(),
                None => name_index(self.prim_names(), name@) < 0,
            },
    {
        let mut i: usize = 0;
        while i < self.prims.len()
            invariant
                0 <= i <= self.prims@.len(),
                forall|k: int| 0 <= k < i ==> self.prim_names()[k] != name@,
            decreases self.prims@.len() - i,
        {
            assert(self.prim_names()[i as int] == self.prims@[i as int].name@);
            if bytes_eq(self.prims[i].name.as_slice(), name) {
                proof {
                    lemma_name_index(self.prim_names(), name@);
                }
                return Some(i);
            }
            i += 1;
        }
        proof {
            lemma_name_index(self.prim_names(), name@);
        }
        None
    }

    /// Registers the variable `var` under `name`.
    pub fn add_var(&mut self, name: MintString, var: Box<dyn MintVar>)
        ensures
            final(self)@ == old(self)@,
            old(self).wf() ==> final(self).wf(),
            final(self).same_prims(*old(self)),
            final(self).var_names() == if old(self).has_var(name@) {
                old(self).var_names()
            } else {
                old(self).var_names().push(name@)
            },
            forall|n: Seq<u8>| #[trigger] final(self).has_var(n) == (old(self).has_var(n) || n == name@),
            forall|n: Seq<u8>| old(self).has_prim(n) == #[trigger] final(self).has_prim(n),
            forall|v: CoreView, val: Seq<u8>| #[trigger]
                assigned_by(final(self).vars(), name@, v, val) == var.assigned(v, val),
            forall|n: Seq<u8>, v: CoreView, val: Seq<u8>|
                n != name@ ==> #[trigger] assigned_by(final(self).vars(), n, v, val) == assigned_by(
                    old(self).vars(),
                    n,
                    v,
                    val,
                ),
            forall|v: CoreView, value: Seq<u8>| #[trigger]
                read_by(final(self).vars(), name@, v, value) == var.reads(v, value),
            forall|n: Seq<u8>, v: CoreView, value: Seq<u8>|
                n != name@ ==> #[trigger] read_by(final(self).vars(), n, v, value) == read_by(
                    old(self).vars(),
                    n,
                    v,
                    value,
                ),
    {
        // the entry is made here and not by the machine: a boxed trait
        // object that is handed on is not known to be the one received
        proof {
            lemma_name_added(self.machine.var_names(), name@);
        }
        let found = self.machine.find_var(name.as_slice());
        let ghost key = name@;
        let entry = Named::new(name, var);
        match found {
            Some(i) => {
                proof {
                    lemma_name_index(self.machine.var_names(), entry.name@);
                }
                set_item(&mut self.machine.vars, i, entry);
                assert(self.machine.var_names() =~= old(self).machine.var_names());
            },
            None => {
                push_item(&mut self.machine.vars, entry);
                assert(self.machine.var_names() =~= old(self).machine.var_names().push(key));
            },
        }
        proof {
            lemma_name_index(self.machine.var_names(), key);
            lemma_name_index(old(self).machine.var_names(), key);
            assert forall|n: Seq<u8>| n != key implies name_index(self.machine.var_names(), n)
                == name_index(old(self).machine.var_names(), n) by {
                if found is None {
                    lemma_name_elsewhere(old(self).machine.var_names(), key, n);
                }
            }
            assert forall|n: Seq<u8>, v: CoreView, val: Seq<u8>| n != key implies #[trigger] assigned_by(
                self.machine.vars(),
                n,
                v,
                val,
            ) == assigned_by(old(self).machine.vars(), n, v, val) by {
                lemma_name_index(old(self).machine.var_names(), n);
                let k = name_index(old(self).machine.var_names(), n);
                if 0 <= k < old(self).machine.vars@.len() {
                    assert(old(self).machine.var_names()[k] == old(self).machine.vars@[k].name@);
                    assert(self.machine.vars@[k] == old(self).machine.vars@[k]);
                }
            }
            assert forall|n: Seq<u8>, v: CoreView, value: Seq<u8>| n != key implies #[trigger] read_by(
                self.machine.vars(),
                n,
                v,
                value,
            ) == read_by(old(self).machine.vars(), n, v, value) by {
                lemma_name_index(old(self).machine.var_names(), n);
                let k = name_index(old(self).machine.var_names(), n);
                if 0 <= k < old(self).machine.vars@.len() {
                    assert(old(self).machine.var_names()[k] == old(self).machine.vars@[k].name@);
                    assert(self.machine.vars@[k] == old(self).machine.vars@[k]);
                }
            }
            let at = name_index(self.machine.var_names(), key);
            assert(0 <= at < self.machine.vars@.len());
            assert(self.machine.vars@[at].item == var);
        }
    }

    /// Registers the primitive `prim` under `name`, in place of a
    /// primitive of that name or anew.
    pub fn add_prim(&mut self, name: MintString, prim: Box<dyn MintPrim>)
        ensures
            final(self)@ == old(self)@,
            old(self).wf() ==> final(self).wf(),
            final(self).vars() == old(self).vars(),
            final(self).prim_names() == if old(self).has_prim(name@) {
                old(self).prim_names()
            } else {
                old(self).prim_names().push(name@)
            },
            forall|n: Seq<u8>|
                #[trigger] final(self).has_prim(n) == (old(self).has_prim(n) || n == name@),
            forall|n: Seq<u8>| old(self).has_var(n) == #[trigger] final(self).has_var(n),
            forall|
                vars: Seq<VarEntry>,
                before: CoreView,
                is_active: bool,
                args: Seq<ArgView>,
                after: CoreView,
                vars_after: Seq<VarEntry>,
            | #[trigger]
                final(self).prim_admits(name@, vars, before, is_active, args, after, vars_after)
                    == prim.admits(vars, before, is_active, args, after, vars_after),
            forall|
                n: Seq<u8>,
                vars: Seq<VarEntry>,
                before: CoreView,
                is_active: bool,
                args: Seq<ArgView>,
                after: CoreView,
                vars_after: Seq<VarEntry>,
            |
                n != name@ ==> #[trigger] final(self).prim_admits(
                    n,
                    vars,
                    before,
                    is_active,
                    args,
                    after,
                    vars_after,
                ) == old(self).prim_admits(n, vars, before, is_active, args, after, vars_after),
    {
        proof {
            lemma_name_added(self.prim_names(), name@);
        }
        let found = self.find_prim(name.as_slice());
        let ghost key = name@;
        let entry = Named::new(name, prim);
        match found {
            Some(i) => {
                proof {
                    lemma_name_index(self.prim_names(), entry.name@);
                }
                set_item(&mut self.prims, i, entry);
                assert(self.prim_names() =~= old(self).prim_names());
            },
            None => {
                push_item(&mut self.prims, entry);
                assert(self.prim_names() =~= old(self).prim_names().push(key));
            },
        }
        proof {
            lemma_name_index(self.prim_names(), key);
            lemma_name_index(old(self).prim_names(), key);
            assert forall|n: Seq<u8>| n != key implies name_index(self.prim_names(), n)
                == name_index(old(self).prim_names(), n) by {
                if found is None {
                    lemma_name_elsewhere(old(self).prim_names(), key, n);
                }
            }
            assert forall|
                n: Seq<u8>,
                vars: Seq<VarEntry>,
                before: CoreView,
                is_active: bool,
                args: Seq<ArgView>,
                after: CoreView,
                vars_after: Seq<VarEntry>,
            | n != key implies #[trigger] self.prim_admits(
                n,
                vars,
                before,
                is_active,
                args,
                after,
                vars_after,
            ) == old(self).prim_admits(n, vars, before, is_active, args, after, vars_after) by {
                lemma_name_index(old(self).prim_names(), n);
                let k = name_index(old(self).prim_names(), n);
                if 0 <= k < old(self).prims@.len() {
                    assert(old(self).prim_names()[k] == old(self).prims@[k].name@);
                    assert(self.prims@[k] == old(self).prims@[k]);
                }
            }
            let at = name_index(self.prim_names(), key);
            assert(0 <= at < self.prims@.len());
            assert(self.prims@[at].item == prim);
        }
    }

    /// Dispatches the call that a `)` has just completed: to the
    /// primitive of its name, else to the form of its name, else to the
    /// default form. Returns false, with the arguments dropped, iff the
    /// `)` closed no call.
    fn execute_function(&mut self) -> (r: bool)
        requires
            old(self).wf(),
        ensures
            final(self).wf(),
            final(self).same_prims(*old(self)),
            r == !(call_args(old(self)@)[0].kind is Null),
            !r ==> final(self)@ == call_taken(old(self)@),
            r && !old(self).has_prim(call_args(old(self)@)[0].value) ==> final(self)@
                == form_called(call_taken(old(self)@), call_args(old(self)@)),
            r && old(self).has_prim(call_args(old(self)@)[0].value) ==> old(self).prim_admits(
                call_args(old(self)@)[0].value,
                old(self).vars(),
                call_taken(old(self)@),
                call_args(old(self)@)[0].kind is Active,
                call_args(old(self)@),
                final(self)@,
                final(self).vars(),
            ),
            !r || !old(self).has_prim(call_args(old(self)@)[0].value) ==> final(self).vars() == old(
                self,
            ).vars(),
    {
        proof {
            lemma_neutral_ok(self@.neutral);
            lemma_neutral_ok(neutral_mark(self@.neutral, ArgType::End));
        }
        self.machine.state.neutral_string.mark_end_function();
        let args = self.machine.state.neutral_string.pop_arguments();
        if args.is_empty() || args.get(0).arg_type() == ArgType::Null {
            return false;
        }
        let is_active = args.get(0).arg_type() == ArgType::Active;
        match self.find_prim(args.get(0).value().as_slice()) {
            Some(i) => {
                self.prims[i].item.execute(&mut self.machine, is_active, &args);
            },
            None => {
                self.machine.state.call_form(&args);
            },
        }
        true
    }

    /// One step of the interpreter: scans up to the first call that
    /// completes and dispatches it. When there is nothing to scan, the
    /// idle script or the default text is scanned; `key_waiting` tells
    /// which default text.
    pub fn scan(&mut self, key_waiting: bool) -> (status: ScanStatus)
        requires
            old(self).wf(),
        ensures
            final(self).wf(),
            final(self).same_prims(*old(self)),
            match lexed(
                refilled(old(self)@, key_waiting).active,
                0,
                refilled(old(self)@, key_waiting).neutral,
            ) {
                Lexed::Call { .. } => {
                    let v = scanned(refilled(old(self)@, key_waiting));
                    let args = call_args(v);
                    if args[0].kind is Null {
                        status == ScanStatus::NoFunction && final(self)@ == call_taken(v)
                            && final(self).vars() == old(self).vars()
                    } else {
                        status == ScanStatus::Called && if old(self).has_prim(args[0].value) {
                            old(self).prim_admits(
                                args[0].value,
                                old(self).vars(),
                                call_taken(v),
                                args[0].kind is Active,
                                args,
                                final(self)@,
                                final(self).vars(),
                            )
                        } else {
                            final(self)@ == form_called(call_taken(v), args) && final(self).vars()
                                == old(self).vars()
                        }
                    }
                },
                Lexed::Unbalanced { .. } => status == ScanStatus::Unbalanced && final(self)@
                    == scanned(refilled(old(self)@, key_waiting)) && final(self).vars() == old(
                    self,
                ).vars(),
                Lexed::Drained { .. } => status == ScanStatus::Drained && final(self)@ == scanned(
                    refilled(old(self)@, key_waiting),
                ) && final(self).vars() == old(self).vars(),
            },
    {
        self.machine.state.refill(key_waiting);
        match self.machine.state.scan_to_call() {
            ScanStatus::Called => {
                if self.execute_function() {
                    ScanStatus::Called
                } else {
                    ScanStatus::NoFunction
                }
            },
            other => other,
        }
    }
}

impl MintMachine {
    /// A call returns up to `n` bytes read from the form `form_name` at
    /// its cursor, which moves behind them; at the end of the form it
    /// returns `not_found` in active mode, and without such a form nothing.
    pub fn return_n_form(
        &mut self,
        is_active: bool,
        form_name: &MintString,
        n: i32,
        not_found: &MintString,
    )
        requires
            old(self).wf(),
        ensures
            final(self).wf(),
            final(self)@ == returned_n_form(old(self)@, is_active, form_name@, n as int, not_found@),
            final(self).vars() == old(self).vars(),
    {
        self.state.return_n_form(is_active, form_name, n, not_found);
    }

    /// A call returns the names of the forms that start with `prefix`,
    /// sorted, with `sep` between one and the next.
    pub fn return_form_list(&mut self, is_active: bool, sep: &MintString, prefix: &MintString)
        requires
            old(self).wf(),
        ensures
            final(self).wf(),
            final(self)@ == returned(
                old(self)@,
                is_active,
                store_list(old(self)@.forms, sep@, prefix@),
            ),
            final(self).vars() == old(self).vars(),
    {
        self.state.return_form_list(is_active, sep, prefix);
    }

    /// Sets the number of keystrokes between two runs of the idle script;
    /// anything not positive switches it off.
    pub fn set_idle_max(&mut self, n: i32)
        requires
            old(self).wf(),
        ensures
            final(self).wf(),
            final(self)@ == (CoreView {
                idle_max: if n > 0 { n as int } else { 0 },
                idle_count: if n > 0 { n as int } else { 0 },
                ..old(self)@
            }),
            final(self).vars() == old(self).vars(),
    {
        self.state.set_idle_max(n);
    }

    /// Moves the cursor of the form `form_name`, if there is such a form.
    pub fn set_form_pos(&mut self, form_name: &MintString, n: MintCount)
        requires
            old(self).wf(),
        ensures
            final(self).wf(),
            final(self)@ == (CoreView {
                forms: forms_moved(old(self)@.forms, form_name@, n as int),
                ..old(self)@
            }),
            final(self).vars() == old(self).vars(),
    {
        self.state.set_form_pos(form_name, n);
    }

    /// The form `form_name`, to read from it and to move its cursor.
    pub fn get_form_mut(&mut self, form_name: &MintString) -> (r: Option<&mut MintForm>)
        requires
            old(self).wf(),
        ensures
            match r {
                Some(f) => {
                    let i = store_find(old(self)@.forms, form_name@);
                    &&& i >= 0
                    &&& f@ == old(self)@.forms[i].form
                    &&& f.wf()
                    &&& final(self)@ == (CoreView {
                        forms: old(self)@.forms.update(
                            i,
                            FormRecord { name: old(self)@.forms[i].name, form: final(f)@ },
                        ),
                        ..old(self)@
                    })
                    &&& final(f).wf() ==> final(self).wf()
                },
                None => store_find(old(self)@.forms, form_name@) < 0 && final(self)@ == old(
                    self,
                )@,
            },
            final(self).vars() == old(self).vars(),
    {
        self.state.get_form_mut(form_name)
    }

    /// Removes the form `form_name`, if there is such a form.
    pub fn del_form(&mut self, form_name: &MintString)
        requires
            old(self).wf(),
        ensures
            final(self).wf(),
            final(self)@ == (CoreView {
                forms: store_del(old(self)@.forms, form_name@),
                ..old(self)@
            }),
            final(self).vars() == old(self).vars(),
    {
        self.state.del_form(form_name);
    }

    /// Binds a form holding `value` to `form_name`, with its cursor at the start.
    pub fn set_form_value(&mut self, form_name: &MintString, value: &MintString)
        requires
            old(self).wf(),
        ensures
            final(self).wf(),
            final(self)@ == (CoreView {
                forms: store_put(
                    old(self)@.forms,
                    form_name@,
                    FormView { content: value@, pos: 0 },
                ),
                ..old(self)@
            }),
            final(self).vars() == old(self).vars(),
    {
        self.state.set_form_value(form_name, value);
    }

    /// A call returns the form content `ss`, each parameter marker in it
    /// replaced by the value of its argument.
    pub fn return_seg_string(&mut self, is_active: bool, ss: &MintString, args: &MintArgList)
        requires
            old(self).wf(),
            args.wf(),
        ensures
            final(self).wf(),
            final(self)@ == returned(old(self)@, is_active, expanded(ss@, args@)),
            final(self).vars() == old(self).vars(),
    {
        self.state.return_seg_string(is_active, ss, args);
    }

    pub fn get_idle_max(&self) -> (r: i32)
        ensures
            r == self@.idle_max,
    {
        self.state.get_idle_max()
    }

    /// The form `form_name`.
    pub fn get_form(&self, form_name: &MintString) -> (r: Option<&MintForm>)
        requires
            self.wf(),
        ensures
            match r {
                Some(f) => store_get(self@.forms, form_name@) == Some(f@) && f.wf(),
                None => store_get(self@.forms, form_name@).is_none(),
            },
    {
        self.state.get_form(form_name)
    }

    /// Whether there is nothing left to scan.
    pub fn is_idle(&self) -> (r: bool)
        ensures
            r == (self@.active.len() == 0),
    {
        self.state.is_idle()
    }
}

impl Mint {
    /// The value of the variable `var_name`; empty if there is no such variable.
    pub fn get_var(&self, var_name: &MintString) -> (r: MintString)
        requires
            self.wf(),
        ensures
            read_by(self.vars(), var_name@, self@, r@),
            !self.has_var(var_name@) ==> r@ == Seq::<u8>::empty(),
    {
        self.machine.get_var(var_name)
    }

    /// Sets the variable `var_name` to `val`; does nothing if there is no such variable.
    pub fn set_var(&mut self, var_name: &MintString, val: &MintString)
        requires
            old(self).wf(),
        ensures
            final(self).wf(),
            final(self).vars() == old(self).vars(),
            final(self).same_prims(*old(self)),
            final(self)@ == old(self).var_assigned(var_name@, val@),
            !old(self).has_var(var_name@) ==> final(self)@ == old(self)@,
    {
        self.machine.set_var(var_name, val);
    }

    /// A call returns nothing.
    pub fn return_null(&self, is_active: bool)
    {
        self.machine.return_null(is_active);
    }

    /// A call returns `s`.
    pub fn return_string(&mut self, is_active: bool, s: &MintString)
        requires
            old(self).wf(),
        ensures
            final(self).wf(),
            final(self)@ == returned(old(self)@, is_active, s@),
            final(self).vars() == old(self).vars(),
            final(self).same_prims(*old(self)),
    {
        self.machine.return_string(is_active, s);
    }

    /// A call returns the number `n`, written in `base`.
    pub fn return_integer(&mut self, is_active: bool, n: i32, base: i32)
        requires
            old(self).wf(),
        ensures
            final(self).wf(),
            final(self)@ == returned(
                old(self)@,
                is_active,
                number_text(n as int, clamp_base(base as int)),
            ),
            final(self).vars() == old(self).vars(),
            final(self).same_prims(*old(self)),
    {
        self.machine.return_integer(is_active, n, base);
    }

    /// A call returns `prefix` followed by the number `n`, written in `base`.
    pub fn return_integer_with_prefix(
        &mut self,
        is_active: bool,
        prefix: &MintString,
        n: i32,
        base: i32,
    )
        requires
            old(self).wf(),
        ensures
            final(self).wf(),
            final(self)@ == returned(
                old(self)@,
                is_active,
                prefix@ + number_text(n as int, clamp_base(base as int)),
            ),
            final(self).vars() == old(self).vars(),
            final(self).same_prims(*old(self)),
    {
        self.machine.return_integer_with_prefix(is_active, prefix, n, base);
    }

    /// A call returns up to `n` bytes read from the form `form_name` at
    /// its cursor, which moves behind them; at the end of the form it
    /// returns `not_found` in active mode, and without such a form nothing.
    pub fn return_n_form(
        &mut self,
        is_active: bool,
        form_name: &MintString,
        n: i32,
        not_found: &MintString,
    )
        requires
            old(self).wf(),
        ensures
            final(self).wf(),
            final(self)@ == returned_n_form(old(self)@, is_active, form_name@, n as int, not_found@),
            final(self).vars() == old(self).vars(),
            final(self).same_prims(*old(self)),
    {
        self.machine.return_n_form(is_active, form_name, n, not_found);
    }

    /// A call returns the names of the forms that start with `prefix`,
    /// sorted, with `sep` between one and the next.
    pub fn return_form_list(&mut self, is_active: bool, sep: &MintString, prefix: &MintString)
        requires
            old(self).wf(),
        ensures
            final(self).wf(),
            final(self)@ == returned(
                old(self)@,
                is_active,
                store_list(old(self)@.forms, sep@, prefix@),
            ),
            final(self).vars() == old(self).vars(),
            final(self).same_prims(*old(self)),
    {
        self.machine.return_form_list(is_active, sep, prefix);
    }

    /// Sets the number of keystrokes between two runs of the idle script;
    /// anything not positive switches it off.
    pub fn set_idle_max(&mut self, n: i32)
        requires
            old(self).wf(),
        ensures
            final(self).wf(),
            final(self)@ == (CoreView {
                idle_max: if n > 0 { n as int } else { 0 },
                idle_count: if n > 0 { n as int } else { 0 },
                ..old(self)@
            }),
            final(self).vars() == old(self).vars(),
            final(self).same_prims(*old(self)),
    {
        self.machine.set_idle_max(n);
    }

    /// Moves the cursor of the form `form_name`, if there is such a form.
    pub fn set_form_pos(&mut self, form_name: &MintString, n: MintCount)
        requires
            old(self).wf(),
        ensures
            final(self).wf(),
            final(self)@ == (CoreView {
                forms: forms_moved(old(self)@.forms, form_name@, n as int),
                ..old(self)@
            }),
            final(self).vars() == old(self).vars(),
            final(self).same_prims(*old(self)),
    {
        self.machine.set_form_pos(form_name, n);
    }

    /// The form `form_name`, to read from it and to move its cursor.
    pub fn get_form_mut(&mut self, form_name: &MintString) -> (r: Option<&mut MintForm>)
        requires
            old(self).wf(),
        ensures
            match r {
                Some(f) => {
                    let i = store_find(old(self)@.forms, form_name@);
                    &&& i >= 0
                    &&& f@ == old(self)@.forms[i].form
                    &&& f.wf()
                    &&& final(self)@ == (CoreView {
                        forms: old(self)@.forms.update(
                            i,
                            FormRecord { name: old(self)@.forms[i].name, form: final(f)@ },
                        ),
                        ..old(self)@
                    })
                    &&& final(f).wf() ==> final(self).wf()
                },
                None => store_find(old(self)@.forms, form_name@) < 0 && final(self)@ == old(
                    self,
                )@,
            },
            final(self).vars() == old(self).vars(),
            final(self).same_prims(*old(self)),
    {
        self.machine.get_form_mut(form_name)
    }

    /// Removes the form `form_name`, if there is such a form.
    pub fn del_form(&mut self, form_name: &MintString)
        requires
            old(self).wf(),
        ensures
            final(self).wf(),
            final(self)@ == (CoreView {
                forms: store_del(old(self)@.forms, form_name@),
                ..old(self)@
            }),
            final(self).vars() == old(self).vars(),
            final(self).same_prims(*old(self)),
    {
        self.machine.del_form(form_name);
    }

    /// Binds a form holding `value` to `form_name`, with its cursor at the start.
    pub fn set_form_value(&mut self, form_name: &MintString, value: &MintString)
        requires
            old(self).wf(),
        ensures
            final(self).wf(),
            final(self)@ == (CoreView {
                forms: store_put(
                    old(self)@.forms,
                    form_name@,
                    FormView { content: value@, pos: 0 },
                ),
                ..old(self)@
            }),
            final(self).vars() == old(self).vars(),
            final(self).same_prims(*old(self)),
    {
        self.machine.set_form_value(form_name, value);
    }

    /// A call returns the form content `ss`, each parameter marker in it
    /// replaced by the value of its argument.
    pub fn return_seg_string(&mut self, is_active: bool, ss: &MintString, args: &MintArgList)
        requires
            old(self).wf(),
            args.wf(),
        ensures
            final(self).wf(),
            final(self)@ == returned(old(self)@, is_active, expanded(ss@, args@)),
            final(self).vars() == old(self).vars(),
            final(self).same_prims(*old(self)),
    {
        self.machine.return_seg_string(is_active, ss, args);
    }

    pub fn get_idle_max(&self) -> (r: i32)
        ensures
            r == self@.idle_max,
    {
        self.machine.get_idle_max()
    }

    /// The form `form_name`.
    pub fn get_form(&self, form_name: &MintString) -> (r: Option<&MintForm>)
        requires
            self.wf(),
        ensures
            match r {
                Some(f) => store_get(self@.forms, form_name@) == Some(f@) && f.wf(),
                None => store_get(self@.forms, form_name@).is_none(),
            },
    {
        self.machine.get_form(form_name)
    }

    /// Whether there is nothing left to scan.
    pub fn is_idle(&self) -> (r: bool)
        ensures
            r == (self@.active.len() == 0),
    {
        self.machine.is_idle()
    }
}

} // verus!
