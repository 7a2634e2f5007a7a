//! The arithmetic primitives: base conversion, the binary operations, and
//! the numeric comparison.

use vstd::prelude::*;
use crate::bytes::name2;
use crate::mint::{returned, CoreView, Mint, MintMachine, MintPrim, VarEntry};
use crate::mint_arg::{val, ArgView, MintArgList};
use crate::mint_string::{
    append_num, clamp_base, int_prefix_of, int_value_of, number_text, to_upper, upper_of,
};
use crate::mint_types::MintString;

verus! {

/// The base that a base letter stands for, in either case: `a` or `c`
/// for a character code (0), `b` binary, `o` octal, `d` decimal, `h`
/// hexadecimal; `default` for anything else.
pub open spec fn base_of(base_chr: u8, default: int) -> int {
    let u = upper_of(base_chr);
    if u == 65 || u == 67 {
        0
    } else if u == 66 {
        2
    } else if u == 79 {
        8
    } else if u == 68 {
        10
    } else if u == 72 {
        16
    } else {
        default
    }
}

pub fn get_base(base_chr: u8, default: i32) -> (r: i32)
    ensures
        r == base_of(base_chr, default as int),
{
    let u = to_upper(base_chr);
    if u == 65 || u == 67 {
        0
    } else if u == 66 {
        2
    } else if u == 79 {
        8
    } else if u == 68 {
        10
    } else if u == 72 {
        16
    } else {
        default
    }
}

/// The first byte of a text, or `default` if it is empty.
pub open spec fn first_or(s: Seq<u8>, default: u8) -> u8 {
    if s.len() > 0 {
        s[0]
    } else {
        default
    }
}

/// The number that `x` holds when read in the base `sbase`: its numeric
/// part, or for the base 0 the code of its first byte.
pub open spec fn source_number(x: Seq<u8>, sbase: int) -> i32 {
    if sbase != 0 {
        int_value_of(x, clamp_base(sbase))
    } else if x.len() > 0 {
        x[0] as i32
    } else {
        0
    }
}

/// What `#(bc,X,Y,Z)` returns: `X`, read in the base `Y`, written in
/// the base `Z`. Text in front of the number stays in front; written as
/// a character code, the result is the one byte with that code.
pub open spec fn converted(x: Seq<u8>, y: Seq<u8>, z: Seq<u8>) -> Seq<u8> {
    let sbase = base_of(first_or(y, 97), 0);
    let dbase = base_of(first_or(z, 100), 10);
    let num = source_number(x, sbase);
    if dbase != 0 {
        (if sbase != 0 {
            int_prefix_of(x, clamp_base(sbase))
        } else {
            Seq::empty()
        }) + number_text(num as int, clamp_base(dbase))
    } else {
        seq![num as u8]
    }
}

/// `#(bc,X,Y,Z)`: base conversion. With fewer than three arguments nothing happens.
pub struct BcPrim;

impl MintPrim for BcPrim {
    open spec fn admits(
        &self,
        vars: Seq<VarEntry>,
        before: CoreView,
        is_active: bool,
        args: Seq<ArgView>,
        after: CoreView,
        vars_after: Seq<VarEntry>,
    ) -> bool {
        vars_after == vars && after == if args.len() < 4 {
            before
        } else {
            returned(
                before,
                is_active,
                converted(val(args, 1), val(args, 2), val(args, 3)),
            )
        }
    }

    fn execute(&self, interp: &mut MintMachine, is_active: bool, args: &MintArgList) {
        if args.len() < 4 {
            return ;
        }
        let arg1 = args.get(1);
        let arg2 = args.get(2);
        let arg3 = args.get(3);
        let sbase_chr = match arg2.get_first_char() {
            Some(c) => c,
            None => 97u8,
        };
        let sbase = get_base(sbase_chr, 0);
        let mut prefix: MintString = Vec::new();
        let num: i32 = if sbase != 0 {
            prefix = arg1.get_int_prefix(sbase);
            arg1.get_int_value(sbase)
        } else {
            match arg1.get_first_char() {
                Some(ch) => ch as i32,
                None => 0,
            }
        };
        let dbase_chr = match arg3.get_first_char() {
            Some(c) => c,
            None => 100u8,
        };
        let dbase = get_base(dbase_chr, 10);
        if dbase != 0 {
            append_num(&mut prefix, num, dbase);
            interp.return_string(is_active, &prefix);
        } else {
            let mut result: MintString = Vec::new();
            result.push(#[verifier::truncate] (num as u8));
            assert(result@ =~= seq![num as u8]);
            interp.return_string(is_active, &result);
        }
    }
}

/// A binary operation on 32-bit numbers.
#[derive(Debug, Clone, Copy, PartialEq, Eq, Structural)]
pub enum BinaryOp {
    Add,
    Sub,
    Mul,
    Div,
    Mod,
    Ior,
    And,
    Xor,
}

/// A sum or a difference of two 32-bit numbers, wrapped in two's complement.
pub open spec fn wrap_near(x: int) -> i32 {
    if x > i32::MAX {
        (x - 0x1_0000_0000) as i32
    } else if x < i32::MIN {
        (x + 0x1_0000_0000) as i32
    } else {
        x as i32
    }
}

/// Any number wrapped into 32 bits in two's complement.
pub open spec fn wrap_far(x: int) -> i32 {
    if x % 0x1_0000_0000 > i32::MAX {
        (x % 0x1_0000_0000 - 0x1_0000_0000) as i32
    } else {
        (x % 0x1_0000_0000) as i32
    }
}

/// The magnitude of a number.
pub open spec fn magnitude(a: int) -> int {
    if a < 0 {
        -a
    } else {
        a
    }
}

/// The quotient rounded towards zero.
pub open spec fn quotient(a: int, b: int) -> int {
    if (a < 0) != (b < 0) {
        -(magnitude(a) / magnitude(b))
    } else {
        magnitude(a) / magnitude(b)
    }
}

/// The remainder that goes with the quotient rounded towards zero: it has the sign of `a`.
pub open spec fn remainder(a: int, b: int) -> int {
    if a < 0 {
        -(magnitude(a) % magnitude(b))
    } else {
        magnitude(a) % magnitude(b)
    }
}

impl BinaryOp {
    /// The result of the operation. Sums, differences, products and the
    /// one quotient out of range wrap in 32-bit two's complement; a
    /// division by zero yields the dividend.
    pub open spec fn result(self, a1: i32, a2: i32) -> i32 {
        match self {
            BinaryOp::Add => wrap_near(a1 + a2),
            BinaryOp::Sub => wrap_near(a1 - a2),
            BinaryOp::Mul => wrap_far(a1 * a2),
            BinaryOp::Div => if a2 == 0 {
                a1
            } else {
                wrap_near(quotient(a1 as int, a2 as int))
            },
            BinaryOp::Mod => if a2 == 0 {
                a1
            } else {
                remainder(a1 as int, a2 as int) as i32
            },
            BinaryOp::Ior => a1 | a2,
            BinaryOp::And => a1 & a2,
            BinaryOp::Xor => a1 ^ a2,
        }
    }

    pub fn perform(self, a1: i32, a2: i32) -> (r: i32)
        ensures
            r == self.result(a1, a2),
    {
        match self {
            BinaryOp::Add => a1.wrapping_add(a2),
            BinaryOp::Sub => a1.wrapping_sub(a2),
            BinaryOp::Mul => a1.wrapping_mul(a2),
            BinaryOp::Div => {
                if a2 == 0 {
                    a1
                } else {
                    let m1: u64 = if a1 < 0 {
                        (-(a1 as i64)) as u64
                    } else {
                        a1 as u64
                    };
                    let m2: u64 = if a2 < 0 {
                        (-(a2 as i64)) as u64
                    } else {
                        a2 as u64
                    };
                    let q = m1 / m2;
                    assert(q <= m1) by (nonlinear_arith)
                        requires
                            q == m1 / m2,
                            m2 >= 1,
                            m1 >= 0,
                    ;
                    if (a1 < 0) != (a2 < 0) {
                        (-(q as i64)) as i32
                    } else if q > i32::MAX as u64 {
                        i32::MIN
                    } else {
                        q as i32
                    }
                }
            },
            BinaryOp::Mod => {
                if a2 == 0 {
                    a1
                } else {
                    let m1: u64 = if a1 < 0 {
                        (-(a1 as i64)) as u64
                    } else {
                        a1 as u64
                    };
                    let m2: u64 = if a2 < 0 {
                        (-(a2 as i64)) as u64
                    } else {
                        a2 as u64
                    };
                    let r = m1 % m2;
                    assert(r <= m1) by (nonlinear_arith)
                        requires
                            r == m1 % m2,
                            m2 >= 1,
                            m1 >= 0,
                    ;
                    if a1 < 0 {
                        (-(r as i64)) as i32
                    } else {
                        r as i32
                    }
                }
            },
            BinaryOp::Ior => a1 | a2,
            BinaryOp::And => a1 & a2,
            BinaryOp::Xor => a1 ^ a2,
        }
    }
}

/// `#(op,X,Y)`: returns `X op Y`; text in front of the number in `X`
/// stays in front of the result. With fewer than two arguments nothing happens.
pub struct BinaryOpPrim {
    pub op: BinaryOp,
}

impl MintPrim for BinaryOpPrim {
    open spec fn admits(
        &self,
        vars: Seq<VarEntry>,
        before: CoreView,
        is_active: bool,
        args: Seq<ArgView>,
        after: CoreView,
        vars_after: Seq<VarEntry>,
    ) -> bool {
        vars_after == vars && after == if args.len() < 3 {
            before
        } else {
            returned(
                before,
                is_active,
                int_prefix_of(val(args, 1), 10) + number_text(
                    self.op.result(int_value_of(val(args, 1), 10), int_value_of(val(args, 2), 10)) as int,
                    10,
                ),
            )
        }
    }

    fn execute(&self, interp: &mut MintMachine, is_active: bool, args: &MintArgList) {
        if args.len() < 3 {
            return ;
        }
        let a1 = args.get(1).get_int_value(10);
        let prefix = args.get(1).get_int_prefix(10);
        let a2 = args.get(2).get_int_value(10);
        let result = self.op.perform(a1, a2);
        interp.return_integer_with_prefix(is_active, &prefix, result, 10);
    }
}

/// `#(g?,X,Y,A,B)`: returns `A` if the number in `X` is greater than
/// that in `Y`, else `B`. With fewer than four arguments nothing happens.
pub struct GtPrim;

impl MintPrim for GtPrim {
    open spec fn admits(
        &self,
        vars: Seq<VarEntry>,
        before: CoreView,
        is_active: bool,
        args: Seq<ArgView>,
        after: CoreView,
        vars_after: Seq<VarEntry>,
    ) -> bool {
        vars_after == vars && after == if args.len() < 5 {
            before
        } else {
            returned(
                before,
                is_active,
                if int_value_of(val(args, 1), 10) > int_value_of(val(args, 2), 10) {
                    val(args, 3)
                } else {
                    val(args, 4)
                },
            )
        }
    }

    fn execute(&self, interp: &mut MintMachine, is_active: bool, args: &MintArgList) {
        if args.len() < 5 {
            return ;
        }
        let a1 = args.get(1).get_int_value(10);
        let a2 = args.get(2).get_int_value(10);
        let result = if a1 > a2 {
            args.get(3).value()
        } else {
            args.get(4).value()
        };
        interp.return_string(is_active, result);
    }
}

/// Whether `n` is the name of one of the primitives that `register_mth_prims` registers.
pub open spec fn is_mth_prim_name(n: Seq<u8>) -> bool {
    n == seq![98u8, 99u8]
    || n == seq![43u8, 43u8]
    || n == seq![45u8, 45u8]
    || n == seq![42u8, 42u8]
    || n == seq![47u8, 47u8]
    || n == seq![37u8, 37u8]
    || n == seq![124u8, 124u8]
    || n == seq![38u8, 38u8]
    || n == seq![94u8, 94u8]
    || n == seq![103u8, 63u8]
}

/// Registers the arithmetic primitives: `bc`, `++`, `--`, `**`, `//`,
/// `%%`, `||`, `&&`, `^^` and `g?`.
pub fn register_mth_prims(interp: &mut Mint)
    ensures
        final(interp)@ == old(interp)@,
        old(interp).wf() ==> final(interp).wf(),
        final(interp).vars() == old(interp).vars(),
        forall|n: Seq<u8>|
            #[trigger] final(interp).has_prim(n) == (old(interp).has_prim(n) || is_mth_prim_name(n)),
        final(interp).prim_is(seq![98u8, 99u8], BcPrim),
        final(interp).prim_is(seq![43u8, 43u8], (BinaryOpPrim { op: BinaryOp::Add })),
        final(interp).prim_is(seq![45u8, 45u8], (BinaryOpPrim { op: BinaryOp::Sub })),
        final(interp).prim_is(seq![42u8, 42u8], (BinaryOpPrim { op: BinaryOp::Mul })),
        final(interp).prim_is(seq![47u8, 47u8], (BinaryOpPrim { op: BinaryOp::Div })),
        final(interp).prim_is(seq![37u8, 37u8], (BinaryOpPrim { op: BinaryOp::Mod })),
        final(interp).prim_is(seq![124u8, 124u8], (BinaryOpPrim { op: BinaryOp::Ior })),
        final(interp).prim_is(seq![38u8, 38u8], (BinaryOpPrim { op: BinaryOp::And })),
        final(interp).prim_is(seq![94u8, 94u8], (BinaryOpPrim { op: BinaryOp::Xor })),
        final(interp).prim_is(seq![103u8, 63u8], GtPrim),
        forall|
            n: Seq<u8>,
            vars: Seq<VarEntry>,
            before: CoreView,
            is_active: bool,
            args: Seq<ArgView>,
            after: CoreView,
            vars_after: Seq<VarEntry>,
        |
            !is_mth_prim_name(n) ==> #[trigger] final(interp).prim_admits(
                n,
                vars,
                before,
                is_active,
                args,
                after,
                vars_after,
            ) == old(interp).prim_admits(
                n,
                vars,
                before,
                is_active,
                args,
                after,
                vars_after,
            ),
{
    proof {
        assert(seq![98u8, 99u8][0] == 98 && seq![98u8, 99u8][1] == 99);
        assert(seq![43u8, 43u8][0] == 43 && seq![43u8, 43u8][1] == 43);
        assert(seq![45u8, 45u8][0] == 45 && seq![45u8, 45u8][1] == 45);
        assert(seq![42u8, 42u8][0] == 42 && seq![42u8, 42u8][1] == 42);
        assert(seq![47u8, 47u8][0] == 47 && seq![47u8, 47u8][1] == 47);
        assert(seq![37u8, 37u8][0] == 37 && seq![37u8, 37u8][1] == 37);
        assert(seq![124u8, 124u8][0] == 124 && seq![124u8, 124u8][1] == 124);
        assert(seq![38u8, 38u8][0] == 38 && seq![38u8, 38u8][1] == 38);
        assert(seq![94u8, 94u8][0] == 94 && seq![94u8, 94u8][1] == 94);
        assert(seq![103u8, 63u8][0] == 103 && seq![103u8, 63u8][1] == 63);
    }
    interp.add_prim(name2(98, 99), Box::new(BcPrim));
    interp.add_prim(name2(43, 43), Box::new(BinaryOpPrim { op: BinaryOp::Add }));
    interp.add_prim(name2(45, 45), Box::new(BinaryOpPrim { op: BinaryOp::Sub }));
    interp.add_prim(name2(42, 42), Box::new(BinaryOpPrim { op: BinaryOp::Mul }));
    interp.add_prim(name2(47, 47), Box::new(BinaryOpPrim { op: BinaryOp::Div }));
    interp.add_prim(name2(37, 37), Box::new(BinaryOpPrim { op: BinaryOp::Mod }));
    interp.add_prim(name2(124, 124), Box::new(BinaryOpPrim { op: BinaryOp::Ior }));
    interp.add_prim(name2(38, 38), Box::new(BinaryOpPrim { op: BinaryOp::And }));
    interp.add_prim(name2(94, 94), Box::new(BinaryOpPrim { op: BinaryOp::Xor }));
    interp.add_prim(name2(103, 63), Box::new(GtPrim));
}

} // verus!
