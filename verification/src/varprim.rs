//! The variable primitives `lv` and `sv`, and the variables of the
//! interpreter itself.

use vstd::prelude::*;
use crate::bytes::name2;
use crate::mint::{
    assigned_by, read_by, returned, var_is, CoreView, Mint, MintCore, MintMachine, MintPrim,
    MintVar, VarEntry,
};
use crate::mint_arg::{val, ArgView, MintArgList};
use crate::mint_string::{append_num, get_int_value, int_value_of, number_text};
use crate::mint_types::MintString;

verus! {

/// `#(lv,X)`: returns the value of the variable `X`; nothing for an
/// unknown variable. With no argument nothing happens.
pub struct LvPrim;

impl MintPrim for LvPrim {
    open spec fn admits(
        &self,
        vars: Seq<VarEntry>,
        before: CoreView,
        is_active: bool,
        args: Seq<ArgView>,
        after: CoreView,
        vars_after: Seq<VarEntry>,
    ) -> bool {
        vars_after == vars && if args.len() < 2 {
            after == before
        } else {
            exists|value: Seq<u8>|
                read_by(vars, val(args, 1), before, value) && after == returned(
                    before,
                    is_active,
                    value,
                )
        }
    }

    fn execute(&self, interp: &mut MintMachine, is_active: bool, args: &MintArgList) {
        if args.len() < 2 {
            interp.return_null(is_active);
            return ;
        }
        let var_name = args.get(1).value();
        let value = interp.get_var(var_name);
        interp.return_string(is_active, &value);
    }
}

/// `#(sv,X,Y)`: sets the variable `X` to `Y`; an unknown variable is
/// not set. Returns nothing. With fewer than two arguments nothing happens.
pub struct SvPrim;

impl MintPrim for SvPrim {
    open spec fn admits(
        &self,
        vars: Seq<VarEntry>,
        before: CoreView,
        is_active: bool,
        args: Seq<ArgView>,
        after: CoreView,
        vars_after: Seq<VarEntry>,
    ) -> bool {
        vars_after == vars && after == if args.len() < 3 {
            before
        } else {
            assigned_by(vars, val(args, 1), before, val(args, 2))
        }
    }

    fn execute(&self, interp: &mut MintMachine, is_active: bool, args: &MintArgList) {
        if args.len() < 3 {
            return ;
        }
        let var_name = args.get(1).value();
        let value = args.get(2).value();
        interp.set_var(var_name, value);
        interp.return_null(is_active);
    }
}

/// The version text: `2.0a`.
pub open spec fn version_text() -> Seq<u8> {
    seq![50u8, 46u8, 48u8, 97u8]
}

/// `vn`: the version. It cannot be set.
pub struct VnVar;

impl MintVar for VnVar {
    open spec fn reads(&self, v: CoreView, value: Seq<u8>) -> bool {
        value == version_text()
    }

    fn get_val(&self, _interp: &MintCore) -> (r: MintString) {
        let r = vec![50u8, 46u8, 48u8, 97u8];
        assert(r@ =~= version_text());
        r
    }

    /// Setting the variable changes nothing.
    open spec fn assigned(&self, v: CoreView, val: Seq<u8>) -> CoreView {
        v
    }

    fn set_val(&self, _interp: &mut MintCore, _val: &MintString) {
    }
}

/// `as`: the number of keystrokes between two runs of the idle script.
pub struct AsVar;

impl MintVar for AsVar {
    open spec fn reads(&self, v: CoreView, value: Seq<u8>) -> bool {
        value == number_text(v.idle_max, 10)
    }

    fn get_val(&self, interp: &MintCore) -> (r: MintString) {
        let val = interp.get_idle_max();
        let mut s: MintString = Vec::new();
        append_num(&mut s, val, 10);
        assert(s@ =~= number_text(interp@.idle_max, 10));
        s
    }

    open spec fn assigned(&self, v: CoreView, val: Seq<u8>) -> CoreView {
        CoreView {
            idle_max: if int_value_of(val, 10) > 0 { int_value_of(val, 10) as int } else { 0 },
            idle_count: if int_value_of(val, 10) > 0 {
                int_value_of(val, 10) as int
            } else {
                0
            },
            ..v
        }
    }

    fn set_val(&self, interp: &mut MintCore, val: &MintString) {
        let limit = get_int_value(val, 10);
        interp.set_idle_max(limit);
    }
}

/// Whether `n` is the name of one of the variables that `register_var_prims` registers.
pub open spec fn is_var_var_name(n: Seq<u8>) -> bool {
    n == seq![118u8, 110u8]
    || n == seq![97u8, 115u8]
}

/// Whether `n` is the name of one of the primitives that `register_var_prims` registers.
pub open spec fn is_var_prim_name(n: Seq<u8>) -> bool {
    n == seq![108u8, 118u8]
    || n == seq![115u8, 118u8]
}

/// Registers the primitives `lv` and `sv` and the variables `vn` and `as`.
pub fn register_var_prims(interp: &mut Mint)
    ensures
        final(interp)@ == old(interp)@,
        old(interp).wf() ==> final(interp).wf(),
        forall|n: Seq<u8>|
            #[trigger] final(interp).has_prim(n) == (old(interp).has_prim(n) || is_var_prim_name(n)),
        forall|n: Seq<u8>|
            #[trigger] final(interp).has_var(n) == (old(interp).has_var(n) || is_var_var_name(n)),
        final(interp).prim_is(seq![108u8, 118u8], LvPrim),
        final(interp).prim_is(seq![115u8, 118u8], SvPrim),
        forall|
            n: Seq<u8>,
            vars: Seq<VarEntry>,
            before: CoreView,
            is_active: bool,
            args: Seq<ArgView>,
            after: CoreView,
            vars_after: Seq<VarEntry>,
        |
            !is_var_prim_name(n) ==> #[trigger] final(interp).prim_admits(
                n,
                vars,
                before,
                is_active,
                args,
                after,
                vars_after,
            ) == old(interp).prim_admits(
                n,
                vars,
                before,
                is_active,
                args,
                after,
                vars_after,
            ),
        var_is(final(interp).vars(), seq![118u8, 110u8], VnVar),
        var_is(final(interp).vars(), seq![97u8, 115u8], AsVar),
        forall|n: Seq<u8>, v: CoreView, value: Seq<u8>|
            !is_var_var_name(n) ==> #[trigger] read_by(final(interp).vars(), n, v, value) == read_by(
                old(interp).vars(),
                n,
                v,
                value,
            ),
        forall|n: Seq<u8>, v: CoreView, val: Seq<u8>|
            !is_var_var_name(n) ==> #[trigger] assigned_by(final(interp).vars(), n, v, val)
                == assigned_by(old(interp).vars(), n, v, val),
{
    proof {
        assert(seq![118u8, 110u8][0] == 118 && seq![118u8, 110u8][1] == 110);
        assert(seq![97u8, 115u8][0] == 97 && seq![97u8, 115u8][1] == 115);
        assert(seq![108u8, 118u8][0] == 108 && seq![108u8, 118u8][1] == 118);
        assert(seq![115u8, 118u8][0] == 115 && seq![115u8, 118u8][1] == 118);
    }
    interp.add_prim(name2(108, 118), Box::new(LvPrim));
    interp.add_prim(name2(115, 118), Box::new(SvPrim));
    interp.add_var(name2(118, 110), Box::new(VnVar));
    interp.add_var(name2(97, 115), Box::new(AsVar));
}

} // verus!
