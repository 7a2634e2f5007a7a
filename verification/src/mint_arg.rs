//! Arguments and argument lists, as the interpreter hands them to a call.

use vstd::prelude::*;
use std::collections::VecDeque;
use crate::bytes::{append_bytes, copy_bytes};
use crate::mint_types::{MintChar, MintString};

verus! {

/// The role of an argument in the list of a call.
#[derive(Debug, Clone, Copy, PartialEq, Eq, Structural)]
pub enum ArgType {
    /// A vacant call head.
    Null,
    /// An ordinary argument.
    Arg,
    /// The head of an active call; its value is the function's name.
    Active,
    /// The head of a neutral call; its value is the function's name.
    Neutral,
    /// The terminator behind the last argument.
    End,
}

impl ArgType {
    /// The terminal kinds: every kind but that of an ordinary argument.
    pub open spec fn spec_is_term(self) -> bool {
        self is Null || self is Active || self is Neutral || self is End
    }

    /// Whether this kind is terminal.
    #[verifier::when_used_as_spec(spec_is_term)]
    pub fn is_term(self) -> (r: bool)
        ensures
            r == self.spec_is_term(),
    {
        match self {
            ArgType::Null | ArgType::Active | ArgType::Neutral | ArgType::End => true,
            ArgType::Arg => false,
        }
    }

    /// The kinds of a call head: the terminal kinds but the terminator.
    pub open spec fn spec_starts_call(self) -> bool {
        self is Null || self is Active || self is Neutral
    }

    /// Whether this kind is that of a call head.
    #[verifier::when_used_as_spec(spec_starts_call)]
    pub fn starts_call(self) -> (r: bool)
        ensures
            r == self.spec_starts_call(),
    {
        match self {
            ArgType::Null | ArgType::Active | ArgType::Neutral => true,
            ArgType::Arg | ArgType::End => false,
        }
    }
}

/// What an argument is: its kind and its bytes.
pub struct ArgView {
    pub kind: ArgType,
    pub value: Seq<u8>,
}

/// The argument that stands at every position behind the end of a list.
pub open spec fn end_arg() -> ArgView {
    ArgView { kind: ArgType::End, value: Seq::empty() }
}

#[derive(Debug)]
pub struct MintArg {
    arg_type: ArgType,
    value: MintString,
}

impl View for MintArg {
    type V = ArgView;

    closed spec fn view(&self) -> ArgView {
        ArgView { kind: self.arg_type, value: self.value@ }
    }
}

impl Clone for MintArg {
    fn clone(&self) -> (r: Self)
        ensures
            r@ == self@,
    {
        MintArg { arg_type: self.arg_type, value: copy_bytes(self.value.as_slice()) }
    }
}

impl MintArg {
    /// An argument of the given kind with no bytes.
    pub fn new(arg_type: ArgType) -> (a: Self)
        ensures
            a@ == (ArgView { kind: arg_type, value: Seq::empty() }),
    {
        Self { arg_type, value: Vec::new() }
    }

    /// Appends one byte to the value.
    pub fn append(&mut self, ch: MintChar)
        ensures
            final(self)@ == (ArgView { kind: old(self)@.kind, value: old(self)@.value.push(ch) }),
    {
        self.value.push(ch);
    }

    /// Appends a byte string to the value.
    pub fn append_slice(&mut self, s: &[MintChar])
        ensures
            final(self)@ == (ArgView { kind: old(self)@.kind, value: old(self)@.value + s@ }),
    {
        append_bytes(&mut self.value, s);
    }

    pub fn arg_type(&self) -> (r: ArgType)
        ensures
            r == self@.kind,
    {
        self.arg_type
    }

    pub fn is_term(&self) -> (r: bool)
        ensures
            r == self@.kind.spec_is_term(),
    {
        self.arg_type.is_term()
    }

    pub fn starts_call(&self) -> (r: bool)
        ensures
            r == self@.kind.spec_starts_call(),
    {
        self.arg_type.starts_call()
    }

    pub fn value(&self) -> (r: &MintString)
        ensures
            r@ == self@.value,
    {
        &self.value
    }

    pub fn is_empty(&self) -> (r: bool)
        ensures
            r == (self@.value.len() == 0),
    {
        self.value.len() == 0
    }

    /// The number at the end of the value, read in `base`.
    pub fn get_int_value(&self, base: i32) -> (r: i32)
        ensures
            r == crate::mint_string::int_value_of(
                self@.value,
                crate::mint_string::clamp_base(base as int),
            ),
    {
        crate::mint_string::get_int_value(&self.value, base)
    }

    /// The text in front of the number at the end of the value.
    pub fn get_int_prefix(&self, base: i32) -> (r: MintString)
        ensures
            r@ == crate::mint_string::int_prefix_of(
                self@.value,
                crate::mint_string::clamp_base(base as int),
            ),
    {
        crate::mint_string::get_int_prefix(&self.value, base)
    }

    pub fn get_first_char(&self) -> (r: Option<MintChar>)
        ensures
            r == if self@.value.len() > 0 {
                Some(self@.value[0])
            } else {
                None
            },
    {
        if self.value.len() > 0 {
            Some(self.value[0])
        } else {
            None
        }
    }
}

/// The arguments of one call: the head, the arguments, the terminator.
/// Reading behind the end yields the terminator, so a primitive written for
/// four arguments works when two were given.
#[derive(Debug)]
pub struct MintArgList {
    args: VecDeque<MintArg>,
    end: MintArg,
}

impl View for MintArgList {
    type V = Seq<ArgView>;

    closed spec fn view(&self) -> Seq<ArgView> {
        self.args@.map_values(|a: MintArg| a@)
    }
}

/// The argument at position `i` of a list, the terminator behind its end.
pub open spec fn arg_at(args: Seq<ArgView>, i: int) -> ArgView {
    if 0 <= i < args.len() {
        args[i]
    } else {
        end_arg()
    }
}

/// The value of the argument at position `i`; empty behind the end of the list.
pub open spec fn val(args: Seq<ArgView>, i: int) -> Seq<u8> {
    arg_at(args, i).value
}

/// The arguments from position `from` on; none if there are not that many.
pub open spec fn args_from(args: Seq<ArgView>, from: int) -> Seq<ArgView> {
    if 0 <= from <= args.len() {
        args.subrange(from, args.len() as int)
    } else {
        Seq::empty()
    }
}

impl MintArgList {
    /// The terminator held for reads behind the end is the terminator.
    pub closed spec fn wf(&self) -> bool {
        self.end@ == end_arg()
    }

    pub fn new() -> (l: Self)
        ensures
            l.wf(),
            l@ == Seq::<ArgView>::empty(),
    {
        let l = Self { args: VecDeque::new(), end: MintArg::new(ArgType::End) };
        assert(l@ =~= Seq::<ArgView>::empty());
        l
    }

    pub fn len(&self) -> (r: usize)
        ensures
            r == self@.len(),
    {
        self.args.len()
    }

    pub fn is_empty(&self) -> (r: bool)
        ensures
            r == (self@.len() == 0),
    {
        self.args.len() == 0
    }

    pub fn push_front(&mut self, arg: MintArg)
        requires
            old(self).wf(),
        ensures
            final(self).wf(),
            final(self)@ == seq![arg@] + old(self)@,
    {
        self.args.push_front(arg);
        assert(self@ =~= seq![arg@] + old(self)@);
    }

    pub fn push_back(&mut self, arg: MintArg)
        requires
            old(self).wf(),
        ensures
            final(self).wf(),
            final(self)@ == old(self)@.push(arg@),
    {
        self.args.push_back(arg);
        assert(self@ =~= old(self)@.push(arg@));
    }

    /// The argument at `index`; the terminator for an index behind the end.
    pub fn get(&self, index: usize) -> (r: &MintArg)
        requires
            self.wf(),
        ensures
            r@ == arg_at(self@, index as int),
    {
        if index < self.args.len() {
            &self.args[index]
        } else {
            &self.end
        }
    }

    /// A copy of the arguments from position `from` on.
    pub fn tail(&self, from: usize) -> (r: Self)
        requires
            self.wf(),
        ensures
            r.wf(),
            r@ == if from <= self@.len() {
                self@.subrange(from as int, self@.len() as int)
            } else {
                Seq::<ArgView>::empty()
            },
    {
        let mut r = Self::new();
        let mut i: usize = from;
        while i < self.args.len()
            invariant
                r.wf(),
                from <= i,
                from <= self@.len() ==> i <= self@.len(),
                i <= self@.len() ==> r@ == self@.subrange(from as int, i as int),
                i > self@.len() ==> r@ == Seq::<ArgView>::empty(),
                self@.len() == self.args@.len(),
            decreases self.args@.len() - i,
        {
            let a = self.args[i].clone();
            r.push_back(a);
            assert(r@ =~= self@.subrange(from as int, i + 1));
            i += 1;
        }
        assert(from <= self@.len() ==> i == self@.len());
        r
    }
}

impl std::ops::Index<usize> for MintArgList {
    type Output = MintArg;

    /// The argument at `index`; the terminator for an index behind the end.
    fn index(&self, index: usize) -> (r: &MintArg)
        ensures
            self.wf() ==> r@ == arg_at(self@, index as int),
    {
        if index < self.args.len() {
            &self.args[index]
        } else {
            &self.end
        }
    }
}

impl Default for MintArgList {
    fn default() -> (l: Self)
        ensures
            l.wf(),
            l@ == Seq::<ArgView>::empty(),
    {
        Self::new()
    }
}

} // verus!
