//! The system primitive that needs no operating system: `ev`, which
//! defines the forms of the environment from values handed to it; and
//! the two system variables that are constants.

use vstd::prelude::*;
use crate::bytes::{append_bytes, name2};
use crate::mint::{
    assigned_by, read_by, var_is, CoreView, Mint, MintCore, MintMachine, MintPrim, MintVar,
    VarEntry,
};
use crate::mint_arg::{ArgView, MintArgList};
use crate::mint_form::{store_put, FormRecord, FormView};
use crate::mint_string::digit_of;
use crate::mint_types::MintString;

verus! {

/// One variable of the environment.
pub struct EnvVar {
    pub key: MintString,
    pub value: MintString,
}

/// What a variable of the environment is.
pub struct EnvPair {
    pub key: Seq<u8>,
    pub value: Seq<u8>,
}

impl View for EnvVar {
    type V = EnvPair;

    open spec fn view(&self) -> EnvPair {
        EnvPair { key: self.key@, value: self.value@ }
    }
}

/// `env.`
pub open spec fn env_prefix() -> Seq<u8> {
    seq![101u8, 110u8, 118u8, 46u8]
}

/// `env.SWITCHAR`
pub open spec fn env_switchar() -> Seq<u8> {
    env_prefix() + seq![83u8, 87u8, 73u8, 84u8, 67u8, 72u8, 65u8, 82u8]
}

/// `env.SCREEN`
pub open spec fn env_screen() -> Seq<u8> {
    env_prefix() + seq![83u8, 67u8, 82u8, 69u8, 69u8, 78u8]
}

/// `env.FULLPATH`
pub open spec fn env_fullpath() -> Seq<u8> {
    env_prefix() + seq![70u8, 85u8, 76u8, 76u8, 80u8, 65u8, 84u8, 72u8]
}

/// `env.RUNLINE`
pub open spec fn env_runline() -> Seq<u8> {
    env_prefix() + seq![82u8, 85u8, 78u8, 76u8, 73u8, 78u8, 69u8]
}

/// The words one after the other, each followed by a space.
pub open spec fn spaced(words: Seq<Seq<u8>>) -> Seq<u8>
    decreases words.len(),
{
    if words.len() == 0 {
        Seq::empty()
    } else {
        spaced(words.drop_last()) + words.last() + seq![32u8]
    }
}

/// The forms with `value` bound to `name`.
pub open spec fn defined(forms: Seq<FormRecord>, name: Seq<u8>, value: Seq<u8>) -> Seq<FormRecord> {
    store_put(forms, name, FormView { content: value, pos: 0 })
}

/// The forms with each of the variables bound to `env.` and its key, one after the other.
pub open spec fn env_defined(forms: Seq<FormRecord>, envp: Seq<EnvPair>) -> Seq<FormRecord>
    decreases envp.len(),
{
    if envp.len() == 0 {
        forms
    } else {
        defined(
            env_defined(forms, envp.drop_last()),
            env_prefix() + envp.last().key,
            envp.last().value,
        )
    }
}

/// The forms after `#(ev)`: the switch character `-`, an empty screen,
/// the program's path and the rest of the command line if there is a
/// command line, and the variables of the environment.
pub open spec fn environment_defined(
    forms: Seq<FormRecord>,
    argv: Seq<Seq<u8>>,
    envp: Seq<EnvPair>,
) -> Seq<FormRecord> {
    let f1 = defined(forms, env_switchar(), seq![45u8]);
    let f2 = defined(f1, env_screen(), Seq::empty());
    let f3 = if argv.len() > 0 {
        defined(
            defined(f2, env_fullpath(), argv[0]),
            env_runline(),
            spaced(argv.subrange(1, argv.len() as int)),
        )
    } else {
        f2
    };
    env_defined(f3, envp)
}

/// The texts that a sequence of byte strings holds.
pub open spec fn words_of(v: Seq<MintString>) -> Seq<Seq<u8>> {
    v.map_values(|x: MintString| x@)
}

/// The pairs that a sequence of variables holds.
pub open spec fn pairs_of(v: Seq<EnvVar>) -> Seq<EnvPair> {
    v.map_values(|x: EnvVar| x@)
}

fn env_name(suffix: &[u8]) -> (r: MintString)
    ensures
        r@ == env_prefix() + suffix@,
{
    let mut r: MintString = vec![101u8, 110u8, 118u8, 46u8];
    assert(r@ =~= env_prefix());
    append_bytes(&mut r, suffix);
    r
}

/// `#(ev)`: defines the forms of the environment. Returns nothing.
pub struct EvPrim {
    argv: Vec<MintString>,
    envp: Vec<EnvVar>,
}

impl EvPrim {
    /// The command line of the primitive.
    pub closed spec fn argv(&self) -> Seq<Seq<u8>> {
        words_of(self.argv@)
    }

    /// The variables of the primitive.
    pub closed spec fn envp(&self) -> Seq<EnvPair> {
        pairs_of(self.envp@)
    }

    /// The primitive for the command line `argv` and the variables `envp`.
    pub fn new(argv: Vec<MintString>, envp: Vec<EnvVar>) -> (p: Self)
        ensures
            p.argv() == words_of(argv@),
            p.envp() == pairs_of(envp@),
    {
        Self { argv, envp }
    }
}

impl MintPrim for EvPrim {
    open spec fn admits(
        &self,
        vars: Seq<VarEntry>,
        before: CoreView,
        is_active: bool,
        args: Seq<ArgView>,
        after: CoreView,
        vars_after: Seq<VarEntry>,
    ) -> bool {
        vars_after == vars && after == (CoreView {
            forms: environment_defined(before.forms, self.argv(), self.envp()),
            ..before
        })
    }

    fn execute(&self, interp: &mut MintMachine, is_active: bool, _args: &MintArgList) {
        let switchar = env_name(vec![83u8, 87u8, 73u8, 84u8, 67u8, 72u8, 65u8, 82u8].as_slice());
        let dash: MintString = vec![45u8];
        assert(dash@ =~= seq![45u8]);
        interp.set_form_value(&switchar, &dash);
        let screen = env_name(vec![83u8, 67u8, 82u8, 69u8, 69u8, 78u8].as_slice());
        let empty: MintString = Vec::new();
        interp.set_form_value(&screen, &empty);
        if self.argv.len() > 0 {
            let fullpath = env_name(vec![70u8, 85u8, 76u8, 76u8, 80u8, 65u8, 84u8, 72u8].as_slice());
            assert(self.argv()[0] == self.argv@[0]@);
            interp.set_form_value(&fullpath, &self.argv[0]);
            let mut runline: MintString = Vec::new();
            let ghost words = self.argv().subrange(1, self.argv().len() as int);
            let mut i: usize = 1;
            assert(words.subrange(0, 0) =~= Seq::<Seq<u8>>::empty());
            while i < self.argv.len()
                invariant
                    1 <= i <= self.argv@.len(),
                    words == self.argv().subrange(1, self.argv().len() as int),
                    runline@ == spaced(words.subrange(0, i - 1)),
                decreases self.argv@.len() - i,
            {
                proof {
                    let next = words.subrange(0, i as int);
                    assert(next.drop_last() =~= words.subrange(0, i - 1));
                    assert(next.last() == self.argv@[i as int]@);
                }
                append_bytes(&mut runline, self.argv[i].as_slice());
                runline.push(32u8);
                assert(runline@ =~= spaced(words.subrange(0, i - 1)) + self.argv@[i as int]@
                    + seq![32u8]);
                i += 1;
            }
            assert(words.subrange(0, words.len() as int) =~= words);
            let name = env_name(vec![82u8, 85u8, 78u8, 76u8, 73u8, 78u8, 69u8].as_slice());
            interp.set_form_value(&name, &runline);
        }
        let ghost base = interp@.forms;
        let mut k: usize = 0;
        assert(self.envp().subrange(0, 0) =~= Seq::<EnvPair>::empty());
        while k < self.envp.len()
            invariant
                0 <= k <= self.envp@.len(),
                interp.wf(),
                interp.vars() == old(interp).vars(),
                interp@ == (CoreView { forms: interp@.forms, ..old(interp)@ }),
                interp@.forms == env_defined(base, self.envp().subrange(0, k as int)),
            decreases self.envp@.len() - k,
        {
            proof {
                let next = self.envp().subrange(0, k + 1);
                assert(next.drop_last() =~= self.envp().subrange(0, k as int));
                assert(next.last() == self.envp@[k as int]@);
            }
            let form_name = env_name(self.envp[k].key.as_slice());
            interp.set_form_value(&form_name, &self.envp[k].value);
            k += 1;
        }
        assert(self.envp().subrange(0, self.envp().len() as int) =~= self.envp());
        interp.return_null(is_active);
    }
}

/// `is`: the snow-inhibit flag of an old display adapter. It is always 0
/// and cannot be set.
pub struct IsVar;

impl MintVar for IsVar {
    open spec fn reads(&self, v: CoreView, value: Seq<u8>) -> bool {
        value == seq![48u8]
    }

    fn get_val(&self, _interp: &MintCore) -> (r: MintString) {
        let r = vec![48u8];
        assert(r@ =~= seq![48u8]);
        r
    }

    /// Setting the variable changes nothing.
    open spec fn assigned(&self, v: CoreView, val: Seq<u8>) -> CoreView {
        v
    }

    fn set_val(&self, _interp: &mut MintCore, _val: &MintString) {
    }
}

/// `bp`: the pitch of the bell. It is always 440 and cannot be set.
pub struct BpVar;

impl MintVar for BpVar {
    open spec fn reads(&self, v: CoreView, value: Seq<u8>) -> bool {
        value == seq![52u8, 52u8, 48u8]
    }

    fn get_val(&self, _interp: &MintCore) -> (r: MintString) {
        let r = vec![52u8, 52u8, 48u8];
        assert(r@ =~= seq![52u8, 52u8, 48u8]);
        r
    }

    /// Setting the variable changes nothing.
    open spec fn assigned(&self, v: CoreView, val: Seq<u8>) -> CoreView {
        v
    }

    fn set_val(&self, _interp: &mut MintCore, _val: &MintString) {
    }
}

/// Whether `n` is the name of one of the variables that `register_sys_prims` registers.
pub open spec fn is_sys_var_name(n: Seq<u8>) -> bool {
    n == seq![98u8, 112u8]
    || n == seq![105u8, 115u8]
}

/// Whether `n` is the name of one of the primitives that `register_sys_prims` registers.
pub open spec fn is_sys_prim_name(n: Seq<u8>) -> bool {
    n == seq![101u8, 118u8]
}

/// Registers the primitive `ev` for the command line `argv` and the
/// variables `envp`, and the variables `bp` and `is`.
pub fn register_sys_prims(interp: &mut Mint, argv: Vec<MintString>, envp: Vec<EnvVar>)
    ensures
        final(interp)@ == old(interp)@,
        old(interp).wf() ==> final(interp).wf(),
        forall|n: Seq<u8>|
            #[trigger] final(interp).has_prim(n) == (old(interp).has_prim(n) || is_sys_prim_name(n)),
        forall|n: Seq<u8>|
            #[trigger] final(interp).has_var(n) == (old(interp).has_var(n) || is_sys_var_name(n)),
        forall|
            n: Seq<u8>,
            vars: Seq<VarEntry>,
            before: CoreView,
            is_active: bool,
            args: Seq<ArgView>,
            after: CoreView,
            vars_after: Seq<VarEntry>,
        |
            n == seq![101u8, 118u8] ==> #[trigger] final(interp).prim_admits(
                n,
                vars,
                before,
                is_active,
                args,
                after,
                vars_after,
            ) == (vars_after == vars && after == (CoreView {
                forms: environment_defined(before.forms, words_of(argv@), pairs_of(envp@)),
                ..before
            })),
        forall|
            n: Seq<u8>,
            vars: Seq<VarEntry>,
            before: CoreView,
            is_active: bool,
            args: Seq<ArgView>,
            after: CoreView,
            vars_after: Seq<VarEntry>,
        |
            !is_sys_prim_name(n) ==> #[trigger] final(interp).prim_admits(
                n,
                vars,
                before,
                is_active,
                args,
                after,
                vars_after,
            ) == old(interp).prim_admits(
                n,
                vars,
                before,
                is_active,
                args,
                after,
                vars_after,
            ),
        var_is(final(interp).vars(), seq![98u8, 112u8], BpVar),
        var_is(final(interp).vars(), seq![105u8, 115u8], IsVar),
        forall|n: Seq<u8>, v: CoreView, value: Seq<u8>|
            !is_sys_var_name(n) ==> #[trigger] read_by(final(interp).vars(), n, v, value) == read_by(
                old(interp).vars(),
                n,
                v,
                value,
            ),
        forall|n: Seq<u8>, v: CoreView, val: Seq<u8>|
            !is_sys_var_name(n) ==> #[trigger] assigned_by(final(interp).vars(), n, v, val)
                == assigned_by(old(interp).vars(), n, v, val),
{
    proof {
        assert(seq![98u8, 112u8][0] == 98 && seq![98u8, 112u8][1] == 112);
        assert(seq![105u8, 115u8][0] == 105 && seq![105u8, 115u8][1] == 115);
        assert(seq![101u8, 118u8][0] == 101 && seq![101u8, 118u8][1] == 118);
    }
    interp.add_prim(name2(101, 118), Box::new(EvPrim::new(argv, envp)));
    interp.add_var(name2(98, 112), Box::new(BpVar));
    interp.add_var(name2(105, 115), Box::new(IsVar));
}

/// The attributes of a file as six binary digits, the highest bit
/// first: bit 4 for a directory, bit 2 for what is neither a directory
/// nor a plain file; the other bits are not set.
pub open spec fn attribute_text(is_dir: bool, is_file: bool) -> Seq<u8> {
    seq![
        48u8,
        if is_dir { 49u8 } else { 48u8 },
        48u8,
        if !is_dir && !is_file { 49u8 } else { 48u8 },
        48u8,
        48u8,
    ]
}

/// The decimal digits of a size.
pub open spec fn size_text(size: u64) -> Seq<u8>
    decreases size,
{
    if size < 10 {
        seq![digit_of(size as int)]
    } else {
        size_text(size / 10).push(digit_of((size % 10) as int))
    }
}

fn push_size(out: &mut MintString, size: u64)
    ensures
        final(out)@ == old(out)@ + size_text(size),
    decreases size,
{
    if size >= 10 {
        push_size(out, size / 10);
    }
    out.push(48 + (size % 10) as u8);
    assert(out@ =~= old(out)@ + size_text(size));
}

/// What `#(ct,X,Y)` returns of a file with a non-empty `Y`: its
/// attributes, the time it was last modified, a space, and its size.
pub fn file_report(is_dir: bool, is_file: bool, time: &[u8], size: u64) -> (r: MintString)
    ensures
        r@ == attribute_text(is_dir, is_file) + time@ + seq![32u8] + size_text(size),
{
    let mut r: MintString = vec![
        48u8,
        if is_dir { 49u8 } else { 48u8 },
        48u8,
        if !is_dir && !is_file { 49u8 } else { 48u8 },
        48u8,
        48u8,
    ];
    assert(r@ =~= attribute_text(is_dir, is_file));
    append_bytes(&mut r, time);
    r.push(32u8);
    push_size(&mut r, size);
    r
}

} // verus!
