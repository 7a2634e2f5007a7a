//! What the window primitives ask of a window: the arguments of a call
//! turned into a request, which the program that owns the window carries out.

use vstd::prelude::*;
use crate::bytes::copy_bytes;
use crate::mint_arg::{val, ArgType, ArgView, MintArgList};
use crate::mint_string::int_value_of;
use crate::mint_types::{MintCount, MintString};

verus! {

/// A product of two 32-bit numbers, wrapped in two's complement, read as a counter.
pub open spec fn scaled(n: i32, by: int) -> u32 {
    ((n * by) % 0x1_0000_0000) as u32
}

fn scale(n: i32, by: u32) -> (r: u32)
    requires
        by <= 100,
    ensures
        r == scaled(n, by as int),
{
    assert(-0x3200000000 <= n * by <= 0x3200000000) by (nonlinear_arith)
        requires
            -0x8000_0000 <= n <= 0x7fff_ffff,
            0 <= by <= 100,
    ;
    let product: i64 = (n as i64) * (by as i64);
    let wrapped: i64 = if product < 0 {
        let m: i64 = (-product) % 0x1_0000_0000;
        if m == 0 {
            0
        } else {
            0x1_0000_0000 - m
        }
    } else {
        product % 0x1_0000_0000
    };
    proof {
        lemma_wrapped_product(product as int);
    }
    wrapped as u32
}

/// The remainder of a negative number by 2^32, from that of its magnitude.
proof fn lemma_wrapped_product(product: int)
    ensures
        product < 0 ==> product % 0x1_0000_0000 == if (-product) % 0x1_0000_0000 == 0 {
            0
        } else {
            0x1_0000_0000 - (-product) % 0x1_0000_0000
        },
{
    let r = 0x1_0000_0000int;
    if product < 0 {
        let m = (-product) % r;
        vstd::arithmetic::div_mod::lemma_fundamental_div_mod(-product, r);
        vstd::arithmetic::div_mod::lemma_mod_bound(-product, r);
        let q = (-product) / r;
        if m == 0 {
            assert(product == r * (-q)) by (nonlinear_arith)
                requires
                    -product == r * q + m,
                    m == 0,
            ;
            vstd::arithmetic::div_mod::lemma_mod_multiples_basic(-q, r);
            assert((-q) * r == r * (-q)) by (nonlinear_arith);
        } else {
            assert(product == r * (-q - 1) + (r - m)) by (nonlinear_arith)
                requires
                    -product == r * q + m,
            ;
            vstd::arithmetic::div_mod::lemma_mod_multiples_vanish(-q - 1, r - m, r);
            vstd::arithmetic::div_mod::lemma_small_mod((r - m) as nat, r as nat);
        }
    }
}

/// The time in milliseconds that `#(it,X)` waits for a key: `X`
/// hundredths of a second.
pub fn input_timeout(args: &MintArgList) -> (r: MintCount)
    requires
        args.wf(),
    ensures
        r == scaled(int_value_of(val(args@, 1), 10), 10),
{
    scale(args.get(1).get_int_value(10), 10)
}

/// The texts that `#(ow,X1,...)` writes to the screen: its arguments but the terminator.
pub open spec fn texts_to_write(args: Seq<ArgView>, upto: int) -> Seq<Seq<u8>>
    decreases upto,
{
    if upto <= 1 {
        Seq::empty()
    } else if args[upto - 1].kind is End {
        texts_to_write(args, upto - 1)
    } else {
        texts_to_write(args, upto - 1).push(args[upto - 1].value)
    }
}

/// The texts that `#(ow,X1,...)` writes to the screen.
pub fn overwrite_texts(args: &MintArgList) -> (r: Vec<MintString>)
    requires
        args.wf(),
    ensures
        r@.map_values(|t: MintString| t@) == texts_to_write(args@, args@.len() as int),
{
    let mut out: Vec<MintString> = Vec::new();
    let mut i: usize = 1;
    assert(out@.map_values(|t: MintString| t@) =~= texts_to_write(args@, 1));
    if args.len() < 1 {
        assert(out@.map_values(|t: MintString| t@) =~= texts_to_write(args@, 0));
        return out;
    }
    while i < args.len()
        invariant
            1 <= i <= args@.len(),
            args.wf(),
            out@.map_values(|t: MintString| t@) == texts_to_write(args@, i as int),
        decreases args@.len() - i,
    {
        let arg = args.get(i);
        if arg.arg_type() != ArgType::End {
            let ghost before = out@;
            out.push(copy_bytes(arg.value().as_slice()));
            assert(out@.map_values(|t: MintString| t@) =~= before.map_values(
                |t: MintString| t@,
            ).push(arg@.value));
        }
        i += 1;
    }
    out
}

/// What `#(an,X,Y,Z)` announces, and where.
pub struct Announcement {
    /// On the mode line rather than on the message line.
    pub mode_line: bool,
    pub left: MintString,
    pub right: MintString,
}

/// What `#(an,X,Y,Z)` announces: `X` and `Z`, on the mode line if `Y` is
/// not empty, else on the message line.
pub fn announcement(args: &MintArgList) -> (r: Announcement)
    requires
        args.wf(),
    ensures
        r.mode_line == (val(args@, 2).len() > 0),
        r.left@ == val(args@, 1),
        r.right@ == val(args@, 3),
{
    Announcement {
        mode_line: !args.get(2).is_empty(),
        left: copy_bytes(args.get(1).value().as_slice()),
        right: copy_bytes(args.get(3).value().as_slice()),
    }
}

/// Where `#(xy,X,Y)` puts the cursor: column and row.
pub fn cursor_target(args: &MintArgList) -> (r: (i32, i32))
    requires
        args.wf(),
    ensures
        r.0 == int_value_of(val(args@, 1), 10),
        r.1 == int_value_of(val(args@, 2), 10),
{
    (args.get(1).get_int_value(10), args.get(2).get_int_value(10))
}

/// A bell to ring.
#[derive(Debug, Clone, Copy, PartialEq, Eq, Structural)]
pub enum Bell {
    /// A flash of the screen, for a time in milliseconds.
    Visual(MintCount),
    /// A tone of a pitch, for a time in milliseconds.
    Audible(MintCount, MintCount),
}

/// The bell that `#(bl,X,Y)` rings: at the pitch `X` for `Y`
/// eighteenths of a second, 56 milliseconds each; a flash of the screen
/// for a negative `X`.
pub fn bell_request(args: &MintArgList) -> (r: Bell)
    requires
        args.wf(),
    ensures
        r == if int_value_of(val(args@, 1), 10) < 0 {
            Bell::Visual(scaled(int_value_of(val(args@, 2), 10), 56))
        } else {
            Bell::Audible(
                int_value_of(val(args@, 1), 10) as u32,
                scaled(int_value_of(val(args@, 2), 10), 56),
            )
        },
{
    let freq = args.get(1).get_int_value(10);
    let millis = scale(args.get(2).get_int_value(10), 56);
    if freq < 0 {
        Bell::Visual(millis)
    } else {
        Bell::Audible(freq as u32, millis)
    }
}

/// Whether `#(rd,X)` paints all of the screen: when `X` is not empty.
pub fn redisplay_all(args: &MintArgList) -> (r: bool)
    requires
        args.wf(),
    ensures
        r == (val(args@, 1).len() > 0),
{
    !args.get(1).is_empty()
}

/// The exit code of `#(hl,X)`: the number `X`, or 0 without an argument.
pub fn exit_code(args: &MintArgList) -> (r: i32)
    requires
        args.wf(),
    ensures
        r == if args@.len() >= 2 {
            int_value_of(val(args@, 1), 10)
        } else {
            0
        },
{
    if args.len() >= 2 {
        args.get(1).get_int_value(10)
    } else {
        0
    }
}

} // verus!
