//! The form primitives: define, get, read, reset, match, test, list,
//! erase, parameterise and hook.

use vstd::prelude::*;
use crate::bytes::{copy_bytes, copy_range, find_bytes, first_at, matches_at, name2, occurs_at};
use crate::mint::{
    expanded, expanded_byte, forms_moved, lemma_expanded_concat, lemma_expanded_one, marker_index,
    returned, returned_n_form, CoreView, Mint, MintMachine, MintPrim, VarEntry,
};
use crate::mint_arg::{arg_at, args_from, val, ArgView, MintArgList};
use crate::mint_form::{
    store_del, store_find, store_get, store_list, store_put, FormRecord, FormView,
};
use crate::mint_string::int_value_of;
use crate::mint_types::MintString;

verus! {

/// What is left of a form from its cursor on.
pub open spec fn rest_of(f: FormView) -> Seq<u8> {
    f.content.subrange(f.pos as int, f.content.len() as int)
}

/// `#(ds,X,Y)`: defines the form `X` with the value `Y`. Returns nothing.
pub struct DsPrim;

impl MintPrim for DsPrim {
    open spec fn admits(
        &self,
        vars: Seq<VarEntry>,
        before: CoreView,
        is_active: bool,
        args: Seq<ArgView>,
        after: CoreView,
        vars_after: Seq<VarEntry>,
    ) -> bool {
        vars_after == vars && after == (CoreView {
            forms: store_put(
                before.forms,
                val(args, 1),
                FormView { content: val(args, 2), pos: 0 },
            ),
            ..before
        })
    }

    fn execute(&self, interp: &mut MintMachine, is_active: bool, args: &MintArgList) {
        let form_name = args.get(1).value();
        let form_value = args.get(2).value();
        interp.set_form_value(form_name, form_value);
        interp.return_null(is_active);
    }
}

/// `#(gs,X,Y1,...,Yn)`: returns what is left of the form `X`, each
/// parameter marker replaced by its `Yi`. An unknown form returns nothing.
pub struct GsPrim;

impl MintPrim for GsPrim {
    open spec fn admits(
        &self,
        vars: Seq<VarEntry>,
        before: CoreView,
        is_active: bool,
        args: Seq<ArgView>,
        after: CoreView,
        vars_after: Seq<VarEntry>,
    ) -> bool {
        vars_after == vars && after == returned(
            before,
            is_active,
            match store_get(before.forms, val(args, 1)) {
                Some(f) => expanded(rest_of(f), args_from(args, 2)),
                None => Seq::empty(),
            },
        )
    }

    fn execute(&self, interp: &mut MintMachine, is_active: bool, args: &MintArgList) {
        let form_name = args.get(1).value();
        let new_args = args.tail(2);
        let form = match interp.get_form(form_name) {
            Some(f) => f.get(),
            None => Vec::new(),
        };
        proof {
            assert(expanded(Seq::<u8>::empty(), new_args@) =~= Seq::<u8>::empty());
        }
        interp.return_seg_string(is_active, &form, &new_args);
    }
}

/// `#(go,X,Y)`: returns the next byte of the form `X` and moves its
/// cursor on; at the end of the form returns `Y` in active mode. An
/// unknown form returns nothing.
pub struct GoPrim;

impl MintPrim for GoPrim {
    open spec fn admits(
        &self,
        vars: Seq<VarEntry>,
        before: CoreView,
        is_active: bool,
        args: Seq<ArgView>,
        after: CoreView,
        vars_after: Seq<VarEntry>,
    ) -> bool {
        vars_after == vars && after == returned_n_form(
            before,
            is_active,
            val(args, 1),
            1,
            val(args, 2),
        )
    }

    fn execute(&self, interp: &mut MintMachine, is_active: bool, args: &MintArgList) {
        let form_name = args.get(1).value();
        let error_string = args.get(2).value();
        interp.return_n_form(is_active, form_name, 1, error_string);
    }
}

/// `#(gn,X,Y,Z)`: returns the next `Y` bytes of the form `X`, or as
/// many as are left, and moves its cursor on; at the end of the form
/// returns `Z` in active mode. An unknown form returns nothing.
pub struct GnPrim;

impl MintPrim for GnPrim {
    open spec fn admits(
        &self,
        vars: Seq<VarEntry>,
        before: CoreView,
        is_active: bool,
        args: Seq<ArgView>,
        after: CoreView,
        vars_after: Seq<VarEntry>,
    ) -> bool {
        vars_after == vars && after == returned_n_form(
            before,
            is_active,
            val(args, 1),
            int_value_of(val(args, 2), 10) as int,
            val(args, 3),
        )
    }

    fn execute(&self, interp: &mut MintMachine, is_active: bool, args: &MintArgList) {
        let form_name = args.get(1).value();
        let count = args.get(2).get_int_value(10);
        let error_string = args.get(3).value();
        interp.return_n_form(is_active, form_name, count, error_string);
    }
}

/// `#(rs,X)`: moves the cursor of the form `X` back to its start. Returns nothing.
pub struct RsPrim;

impl MintPrim for RsPrim {
    open spec fn admits(
        &self,
        vars: Seq<VarEntry>,
        before: CoreView,
        is_active: bool,
        args: Seq<ArgView>,
        after: CoreView,
        vars_after: Seq<VarEntry>,
    ) -> bool {
        vars_after == vars && after == (CoreView {
            forms: forms_moved(before.forms, val(args, 1), 0),
            ..before
        })
    }

    fn execute(&self, interp: &mut MintMachine, is_active: bool, args: &MintArgList) {
        let form_name = args.get(1).value();
        interp.set_form_pos(form_name, 0);
        interp.return_null(is_active);
    }
}

/// `#(n?,X,A,B)`: returns `A` if there is a form `X`, else `B`.
pub struct NxPrim;

impl MintPrim for NxPrim {
    open spec fn admits(
        &self,
        vars: Seq<VarEntry>,
        before: CoreView,
        is_active: bool,
        args: Seq<ArgView>,
        after: CoreView,
        vars_after: Seq<VarEntry>,
    ) -> bool {
        vars_after == vars && after == returned(
            before,
            is_active,
            if store_get(before.forms, val(args, 1)).is_some() {
                val(args, 2)
            } else {
                val(args, 3)
            },
        )
    }

    fn execute(&self, interp: &mut MintMachine, is_active: bool, args: &MintArgList) {
        let form_name = args.get(1).value();
        let exists = interp.get_form(form_name).is_some();
        let result = if exists {
            args.get(2).value()
        } else {
            args.get(3).value()
        };
        interp.return_string(is_active, result);
    }
}

/// `#(ls,X,Y)`: returns the names of the forms that start with `Y`,
/// sorted, with `X` between one and the next.
pub struct LsPrim;

impl MintPrim for LsPrim {
    open spec fn admits(
        &self,
        vars: Seq<VarEntry>,
        before: CoreView,
        is_active: bool,
        args: Seq<ArgView>,
        after: CoreView,
        vars_after: Seq<VarEntry>,
    ) -> bool {
        vars_after == vars && after == returned(
            before,
            is_active,
            store_list(before.forms, val(args, 1), val(args, 2)),
        )
    }

    fn execute(&self, interp: &mut MintMachine, is_active: bool, args: &MintArgList) {
        let separator = args.get(1).value();
        let prefix = args.get(2).value();
        interp.return_form_list(is_active, separator, prefix);
    }
}

/// The state after the first match of `pat` in the form `name` was
/// looked for, from the cursor of the form on. When there is a match,
/// what lies before it is returned and the cursor moves behind it; when
/// there is none, or `pat` is empty, `not_found` is returned in active
/// mode; without such a form nothing is returned.
pub open spec fn first_match_returned(
    v: CoreView,
    is_active: bool,
    name: Seq<u8>,
    pat: Seq<u8>,
    not_found: Seq<u8>,
) -> CoreView {
    match store_get(v.forms, name) {
        None => v,
        Some(f) => {
            let at = first_at(f.content, f.pos as int, pat);
            if pat.len() == 0 || at < 0 {
                returned(v, true, not_found)
            } else {
                returned(
                    CoreView {
                        forms: forms_moved(
                            v.forms,
                            name,
                            if at + pat.len() <= u32::MAX {
                                at + pat.len()
                            } else {
                                u32::MAX as int
                            },
                        ),
                        ..v
                    },
                    is_active,
                    f.content.subrange(f.pos as int, at),
                )
            }
        },
    }
}

/// `#(fm,X,Y,Z)`: finds the first match of `Y` in the form `X`.
pub struct FmPrim;

impl MintPrim for FmPrim {
    open spec fn admits(
        &self,
        vars: Seq<VarEntry>,
        before: CoreView,
        is_active: bool,
        args: Seq<ArgView>,
        after: CoreView,
        vars_after: Seq<VarEntry>,
    ) -> bool {
        vars_after == vars && after == first_match_returned(
            before,
            is_active,
            val(args, 1),
            val(args, 2),
            val(args, 3),
        )
    }

    fn execute(&self, interp: &mut MintMachine, is_active: bool, args: &MintArgList) {
        let form_name = args.get(1).value();
        let search_str = args.get(2).value();
        let not_found_str = args.get(3).value();
        let mut exists = false;
        let mut hit = false;
        let mut result: MintString = Vec::new();
        let mut end: usize = 0;
        match interp.get_form(form_name) {
            Some(form) => {
                exists = true;
                let content = form.content();
                let pos = form.cursor();
                let _content_len = content.len();
                if search_str.len() > 0 {
                    if let Some(at) = find_bytes(content.as_slice(), pos, search_str.as_slice()) {
                        hit = true;
                        result = copy_range(content.as_slice(), pos, at);
                        end = at + search_str.len();
                    }
                }
            },
            None => {},
        }
        if hit {
            let new_pos: u32 = if end <= u32::MAX as usize {
                end as u32
            } else {
                u32::MAX
            };
            interp.set_form_pos(form_name, new_pos);
            interp.return_string(is_active, &result);
        } else if exists {
            interp.return_string(true, not_found_str);
        } else {
            interp.return_null(is_active);
        }
    }
}

/// The forms without those named by the arguments in `[from, to)`.
pub open spec fn forms_erased(forms: Seq<FormRecord>, args: Seq<ArgView>, from: int, to: int) -> Seq<
    FormRecord,
>
    decreases to - from,
{
    if to <= from {
        forms
    } else {
        store_del(forms_erased(forms, args, from, to - 1), val(args, to - 1))
    }
}

/// `#(es,X1,...,Xn)`: erases the forms `X1` to `Xn`. Returns nothing.
pub struct EsPrim;

impl MintPrim for EsPrim {
    open spec fn admits(
        &self,
        vars: Seq<VarEntry>,
        before: CoreView,
        is_active: bool,
        args: Seq<ArgView>,
        after: CoreView,
        vars_after: Seq<VarEntry>,
    ) -> bool {
        vars_after == vars && after == (CoreView {
            forms: forms_erased(before.forms, args, 1, args.len() - 1),
            ..before
        })
    }

    fn execute(&self, interp: &mut MintMachine, is_active: bool, args: &MintArgList) {
        let last = if args.len() > 0 {
            args.len() - 1
        } else {
            0
        };
        let mut i: usize = 1;
        while i < last
            invariant
                1 <= i,
                i <= last || i == 1,
                last == if args@.len() > 0 { args@.len() - 1 } else { 0 },
                args.wf(),
                interp.wf(),
                interp@ == (CoreView {
                    forms: forms_erased(old(interp)@.forms, args@, 1, i as int),
                    ..old(interp)@
                }),
                interp.vars() == old(interp).vars(),
            decreases last - i,
        {
            interp.del_form(args.get(i).value());
            i += 1;
        }
        interp.return_null(is_active);
    }
}

/// The text `s` with every occurrence of `pat` replaced by the byte
/// `marker`, found from left to right, none overlapping another. An
/// empty `pat` occurs nowhere.
pub open spec fn marked(s: Seq<u8>, pat: Seq<u8>, marker: u8) -> Seq<u8>
    decreases s.len(),
{
    if s.len() == 0 || pat.len() == 0 {
        s
    } else if occurs_at(s, 0, pat) {
        seq![marker] + marked(s.subrange(pat.len() as int, s.len() as int), pat, marker)
    } else {
        seq![s[0]] + marked(s.subrange(1, s.len() as int), pat, marker)
    }
}

/// The parameter marker with the number `k`: the byte 0x80 + `k`, in a byte that wraps.
pub open spec fn marker_byte(k: int) -> u8 {
    ((0x80 + k) % 256) as u8
}

/// The text `s` with the values of the arguments in `[from, to)`
/// replaced by parameter markers, one argument after the other; the
/// argument at `from` gets the marker 0x80.
pub open spec fn marked_params(s: Seq<u8>, args: Seq<ArgView>, from: int, to: int) -> Seq<u8>
    decreases to - from,
{
    if to <= from {
        s
    } else {
        marked(marked_params(s, args, from, to - 1), val(args, to - 1), marker_byte(to - 1 - from))
    }
}

/// Replaces every occurrence of `pat` in `s` by `marker`.
pub fn mark_param(s: &[u8], pat: &[u8], marker: u8) -> (r: MintString)
    ensures
        r@ == marked(s@, pat@, marker),
{
    if pat.len() == 0 {
        return copy_bytes(s);
    }
    let mut out: MintString = Vec::new();
    let mut pos: usize = 0;
    assert(s@.subrange(0, s@.len() as int) =~= s@);
    assert(out@ + marked(s@, pat@, marker) =~= marked(s@, pat@, marker));
    while pos < s.len()
        invariant
            0 <= pos <= s@.len(),
            pat@.len() > 0,
            out@ + marked(s@.subrange(pos as int, s@.len() as int), pat@, marker) == marked(
                s@,
                pat@,
                marker,
            ),
        decreases s@.len() - pos,
    {
        let ghost rest = s@.subrange(pos as int, s@.len() as int);
        if matches_at(s, pos, pat) {
            proof {
                assert(rest.subrange(0, pat@.len() as int) =~= s@.subrange(
                    pos as int,
                    pos + pat@.len(),
                ));
                assert(occurs_at(rest, 0, pat@));
                assert(rest.subrange(pat@.len() as int, rest.len() as int) =~= s@.subrange(
                    pos + pat@.len(),
                    s@.len() as int,
                ));
                assert((out@ + seq![marker]) + marked(
                    s@.subrange(pos + pat@.len(), s@.len() as int),
                    pat@,
                    marker,
                ) =~= out@ + marked(rest, pat@, marker));
            }
            out.push(marker);
            pos += pat.len();
        } else {
            proof {
                if pos + pat@.len() <= s@.len() {
                    assert(rest.subrange(0, pat@.len() as int) =~= s@.subrange(
                        pos as int,
                        pos + pat@.len(),
                    ));
                }
                assert(!occurs_at(rest, 0, pat@));
                assert(rest.subrange(1, rest.len() as int) =~= s@.subrange(
                    pos + 1,
                    s@.len() as int,
                ));
                assert((out@ + seq![s@[pos as int]]) + marked(
                    s@.subrange(pos + 1, s@.len() as int),
                    pat@,
                    marker,
                ) =~= out@ + marked(rest, pat@, marker));
            }
            out.push(s[pos]);
            pos += 1;
        }
    }
    assert(s@.subrange(s@.len() as int, s@.len() as int) =~= Seq::<u8>::empty());
    assert(out@ + Seq::<u8>::empty() =~= out@);
    out
}

/// `#(mp,X,Y1,...,Yn)`: replaces each `Yi` in the form `X` by the
/// parameter marker with the number `i - 1`, and moves the cursor of
/// the form to its start. Returns nothing.
pub struct MpPrim;

impl MintPrim for MpPrim {
    open spec fn admits(
        &self,
        vars: Seq<VarEntry>,
        before: CoreView,
        is_active: bool,
        args: Seq<ArgView>,
        after: CoreView,
        vars_after: Seq<VarEntry>,
    ) -> bool {
        vars_after == vars && after == match store_get(before.forms, val(args, 1)) {
            Some(f) => CoreView {
                forms: store_put(
                    before.forms,
                    val(args, 1),
                    FormView {
                        content: marked_params(f.content, args, 2, args.len() - 1),
                        pos: 0,
                    },
                ),
                ..before
            },
            None => before,
        }
    }

    fn execute(&self, interp: &mut MintMachine, is_active: bool, args: &MintArgList) {
        let form_name = args.get(1).value();
        let content = match interp.get_form(form_name) {
            Some(form) => Some(copy_bytes(form.content().as_slice())),
            None => None,
        };
        if let Some(mut form_value) = content {
            let ghost content0 = form_value@;
            let last = if args.len() > 0 {
                args.len() - 1
            } else {
                0
            };
            let mut param_marker: u8 = 0x80;
            let mut i: usize = 2;
            while i < last
                invariant
                    2 <= i,
                    i <= last || i == 2,
                    last == if args@.len() > 0 { args@.len() - 1 } else { 0 },
                    args.wf(),
                    param_marker == marker_byte(i - 2),
                    form_value@ == marked_params(content0, args@, 2, i as int),
                decreases last - i,
            {
                form_value = mark_param(
                    form_value.as_slice(),
                    args.get(i).value().as_slice(),
                    param_marker,
                );
                param_marker = param_marker.wrapping_add(1);
                i += 1;
            }
            interp.set_form_value(form_name, &form_value);
        }
        interp.return_null(is_active);
    }
}

/// The position of the first argument in `[i, len - 1)` that names a form, or -1.
pub open spec fn first_form_arg(forms: Seq<FormRecord>, args: Seq<ArgView>, i: int) -> int
    decreases args.len() - i,
{
    if i < 0 || i + 1 >= args.len() {
        -1
    } else if store_find(forms, val(args, i)) >= 0 {
        i
    } else {
        first_form_arg(forms, args, i + 1)
    }
}

/// `#(hk,X1,...,Xn)`: returns the first of the forms `X1` to `Xn` that
/// exists, whole, with the arguments from its name on as its parameters;
/// nothing if none exists.
pub struct HkPrim;

impl MintPrim for HkPrim {
    open spec fn admits(
        &self,
        vars: Seq<VarEntry>,
        before: CoreView,
        is_active: bool,
        args: Seq<ArgView>,
        after: CoreView,
        vars_after: Seq<VarEntry>,
    ) -> bool {
        vars_after == vars && after == {
            let k = first_form_arg(before.forms, args, 1);
            if k >= 0 {
                returned(
                    before,
                    is_active,
                    expanded(
                        match store_get(before.forms, val(args, k)) {
                            Some(f) => f.content,
                            None => Seq::empty(),
                        },
                        args_from(args, k),
                    ),
                )
            } else {
                before
            }
        }
    }

    fn execute(&self, interp: &mut MintMachine, is_active: bool, args: &MintArgList) {
        let last = if args.len() > 0 {
            args.len() - 1
        } else {
            0
        };
        let mut i: usize = 1;
        while i < last
            invariant
                1 <= i,
                last == if args@.len() > 0 { args@.len() - 1 } else { 0 },
                args.wf(),
                interp.wf(),
                *interp == *old(interp),
                first_form_arg(interp@.forms, args@, i as int) == first_form_arg(
                    interp@.forms,
                    args@,
                    1,
                ),
            decreases last - i,
        {
            let content = match interp.get_form(args.get(i).value()) {
                Some(form) => Some(copy_bytes(form.content().as_slice())),
                None => None,
            };
            if let Some(content) = content {
                let param_args = args.tail(i);
                interp.return_seg_string(is_active, &content, &param_args);
                return ;
            }
            i += 1;
        }
        interp.return_null(is_active);
    }
}

/// Whether `n` is the name of one of the primitives that `register_frm_prims` registers.
pub open spec fn is_frm_prim_name(n: Seq<u8>) -> bool {
    n == seq![100u8, 115u8]
    || n == seq![103u8, 115u8]
    || n == seq![103u8, 111u8]
    || n == seq![103u8, 110u8]
    || n == seq![114u8, 115u8]
    || n == seq![102u8, 109u8]
    || n == seq![110u8, 63u8]
    || n == seq![108u8, 115u8]
    || n == seq![101u8, 115u8]
    || n == seq![109u8, 112u8]
    || n == seq![104u8, 107u8]
}

/// Registers the form primitives: `ds`, `gs`, `go`, `gn`, `rs`, `fm`,
/// `n?`, `ls`, `es`, `mp` and `hk`.
pub fn register_frm_prims(interp: &mut Mint)
    ensures
        final(interp)@ == old(interp)@,
        old(interp).wf() ==> final(interp).wf(),
        final(interp).vars() == old(interp).vars(),
        forall|n: Seq<u8>|
            #[trigger] final(interp).has_prim(n) == (old(interp).has_prim(n) || is_frm_prim_name(n)),
        final(interp).prim_is(seq![100u8, 115u8], DsPrim),
        final(interp).prim_is(seq![103u8, 115u8], GsPrim),
        final(interp).prim_is(seq![103u8, 111u8], GoPrim),
        final(interp).prim_is(seq![103u8, 110u8], GnPrim),
        final(interp).prim_is(seq![114u8, 115u8], RsPrim),
        final(interp).prim_is(seq![102u8, 109u8], FmPrim),
        final(interp).prim_is(seq![110u8, 63u8], NxPrim),
        final(interp).prim_is(seq![108u8, 115u8], LsPrim),
        final(interp).prim_is(seq![101u8, 115u8], EsPrim),
        final(interp).prim_is(seq![109u8, 112u8], MpPrim),
        final(interp).prim_is(seq![104u8, 107u8], HkPrim),
        forall|
            n: Seq<u8>,
            vars: Seq<VarEntry>,
            before: CoreView,
            is_active: bool,
            args: Seq<ArgView>,
            after: CoreView,
            vars_after: Seq<VarEntry>,
        |
            !is_frm_prim_name(n) ==> #[trigger] final(interp).prim_admits(
                n,
                vars,
                before,
                is_active,
                args,
                after,
                vars_after,
            ) == old(interp).prim_admits(
                n,
                vars,
                before,
                is_active,
                args,
                after,
                vars_after,
            ),
{
    proof {
        assert(seq![100u8, 115u8][0] == 100 && seq![100u8, 115u8][1] == 115);
        assert(seq![103u8, 115u8][0] == 103 && seq![103u8, 115u8][1] == 115);
        assert(seq![103u8, 111u8][0] == 103 && seq![103u8, 111u8][1] == 111);
        assert(seq![103u8, 110u8][0] == 103 && seq![103u8, 110u8][1] == 110);
        assert(seq![114u8, 115u8][0] == 114 && seq![114u8, 115u8][1] == 115);
        assert(seq![102u8, 109u8][0] == 102 && seq![102u8, 109u8][1] == 109);
        assert(seq![110u8, 63u8][0] == 110 && seq![110u8, 63u8][1] == 63);
        assert(seq![108u8, 115u8][0] == 108 && seq![108u8, 115u8][1] == 115);
        assert(seq![101u8, 115u8][0] == 101 && seq![101u8, 115u8][1] == 115);
        assert(seq![109u8, 112u8][0] == 109 && seq![109u8, 112u8][1] == 112);
        assert(seq![104u8, 107u8][0] == 104 && seq![104u8, 107u8][1] == 107);
    }
    interp.add_prim(name2(100, 115), Box::new(DsPrim));
    interp.add_prim(name2(103, 115), Box::new(GsPrim));
    interp.add_prim(name2(103, 111), Box::new(GoPrim));
    interp.add_prim(name2(103, 110), Box::new(GnPrim));
    interp.add_prim(name2(114, 115), Box::new(RsPrim));
    interp.add_prim(name2(102, 109), Box::new(FmPrim));
    interp.add_prim(name2(110, 63), Box::new(NxPrim));
    interp.add_prim(name2(108, 115), Box::new(LsPrim));
    interp.add_prim(name2(101, 115), Box::new(EsPrim));
    interp.add_prim(name2(109, 112), Box::new(MpPrim));
    interp.add_prim(name2(104, 107), Box::new(HkPrim));
}

/// The text `s` with every occurrence of `pat` replaced by the text
/// `by`, found from left to right, none overlapping another, and every
/// parameter marker outside them replaced by the value of its argument.
pub open spec fn substituted(s: Seq<u8>, pat: Seq<u8>, by: Seq<u8>, args: Seq<ArgView>) -> Seq<u8>
    decreases s.len(),
{
    if s.len() == 0 {
        Seq::empty()
    } else if pat.len() > 0 && occurs_at(s, 0, pat) {
        by + substituted(s.subrange(pat.len() as int, s.len() as int), pat, by, args)
    } else {
        expanded_byte(s[0], args) + substituted(s.subrange(1, s.len() as int), pat, by, args)
    }
}

/// The text `s` with every occurrence of `pat` replaced by the text `by`.
pub open spec fn replaced(s: Seq<u8>, pat: Seq<u8>, by: Seq<u8>) -> Seq<u8>
    decreases s.len(),
{
    if s.len() == 0 {
        Seq::empty()
    } else if pat.len() > 0 && occurs_at(s, 0, pat) {
        by + replaced(s.subrange(pat.len() as int, s.len() as int), pat, by)
    } else {
        seq![s[0]] + replaced(s.subrange(1, s.len() as int), pat, by)
    }
}

/// Whether a text holds no parameter marker.
pub open spec fn marker_free(s: Seq<u8>) -> bool {
    forall|i: int| 0 <= i < s.len() ==> s[i] < 0x80
}

/// One step of the parameter round trip: when the occurrences of `pat`
/// in a form are replaced by the parameter marker with the number `k`,
/// and the form is then returned with `args`, the result is the form
/// with each of those occurrences replaced by the value of the
/// argument `k`, and every marker that was in the form before by the
/// value of its own argument.
pub proof fn law_parameter_step(s: Seq<u8>, pat: Seq<u8>, k: int, args: Seq<ArgView>)
    requires
        0 <= k < 128,
        k < args.len(),
    ensures
        expanded(marked(s, pat, marker_byte(k)), args) == substituted(
            s,
            pat,
            arg_at(args, k).value,
            args,
        ),
    decreases s.len(),
{
    let m = marker_byte(k);
    let by = arg_at(args, k).value;
    assert(m == 0x80 + k);
    assert(marker_index(m, args.len() as int) == k);
    assert(expanded_byte(m, args) == by);
    if s.len() == 0 {
        assert(expanded(s, args) =~= Seq::<u8>::empty());
    } else if pat.len() == 0 {
        law_parameter_step(s.subrange(1, s.len() as int), pat, k, args);
        assert(marked(s.subrange(1, s.len() as int), pat, m) == s.subrange(1, s.len() as int));
        assert(s =~= seq![s[0]] + s.subrange(1, s.len() as int));
        lemma_expanded_concat(seq![s[0]], s.subrange(1, s.len() as int), args);
        lemma_expanded_one(s[0], args);
    } else if occurs_at(s, 0, pat) {
        let rest = s.subrange(pat.len() as int, s.len() as int);
        law_parameter_step(rest, pat, k, args);
        lemma_expanded_concat(seq![m], marked(rest, pat, m), args);
        lemma_expanded_one(m, args);
    } else {
        let rest = s.subrange(1, s.len() as int);
        law_parameter_step(rest, pat, k, args);
        lemma_expanded_concat(seq![s[0]], marked(rest, pat, m), args);
        lemma_expanded_one(s[0], args);
    }
}

/// In a text without parameter markers, substituting is plain replacing.
pub proof fn lemma_substituted_plain(s: Seq<u8>, pat: Seq<u8>, by: Seq<u8>, args: Seq<ArgView>)
    requires
        marker_free(s),
    ensures
        substituted(s, pat, by, args) == replaced(s, pat, by),
    decreases s.len(),
{
    if s.len() == 0 {
    } else if pat.len() > 0 && occurs_at(s, 0, pat) {
        let rest = s.subrange(pat.len() as int, s.len() as int);
        assert forall|i: int| 0 <= i < rest.len() implies rest[i] < 0x80 by {
            assert(rest[i] == s[i + pat.len()]);
        }
        lemma_substituted_plain(rest, pat, by, args);
    } else {
        let rest = s.subrange(1, s.len() as int);
        assert forall|i: int| 0 <= i < rest.len() implies rest[i] < 0x80 by {
            assert(rest[i] == s[i + 1]);
        }
        lemma_substituted_plain(rest, pat, by, args);
        assert(s[0] < 0x80);
    }
}

/// The parameter round trip: when a form `body` that holds no
/// parameter markers is defined, the occurrences of `pat` in it are
/// made the parameter with the number `k`, and the form is returned
/// with `args`, the result is `body` with `pat` replaced by the value
/// of the argument `k`. In a call of the form by its name the argument
/// 0 is that name, and the argument `i` the `i`-th behind it.
pub proof fn law_parameter_round_trip(body: Seq<u8>, pat: Seq<u8>, k: int, args: Seq<ArgView>)
    requires
        marker_free(body),
        0 <= k < 128,
        k < args.len(),
    ensures
        expanded(marked(body, pat, marker_byte(k)), args) == replaced(
            body,
            pat,
            arg_at(args, k).value,
        ),
{
    law_parameter_step(body, pat, k, args);
    lemma_substituted_plain(body, pat, arg_at(args, k).value, args);
}

} // verus!
