//! The buffer primitives: select, insert, mark, move, delete, read,
//! translate, copy between buffers and search; and the variables of the
//! current buffer.

use vstd::prelude::*;
use crate::bytes::name2;
use crate::emacs_buffer::{
    column_of, column_set, deleted_to_marks, inserted, mark_position, marks_popped, marks_pushed,
    perm_marks_made, point_at_marks, point_line_set, point_row_set, room_in, text_between,
    translated, with_mark, wrapped, BufferView, MARK_BOB, MARK_EOB, MARK_POINT,
};
use crate::emacs_buffers::{
    buffer_added, buffer_selected, literal_accepted, literal_set, regex_accepted, regex_set,
    search_hit, searched, RegistryView,
};
use crate::mint::{
    assigned_by, cur_of, read_by, returned, var_is, with_buffer, CoreView, Mint, MintCore,
    MintMachine, MintPrim, MintVar, VarEntry,
};
use crate::mint_arg::{val, ArgView, MintArgList};
use crate::mint_string::{append_num, get_int_value, int_value_of, number_text};
use crate::mint_types::MintString;
use crate::mthprim::first_or;

verus! {

/// The registry after `#(ba,X)` with the number `what`: 0 adds a
/// buffer, a positive number selects that buffer, a negative one
/// leaves everything as it is.
pub open spec fn buffer_chosen(r: RegistryView, what: int) -> RegistryView {
    if what == 0 {
        buffer_added(r)
    } else if what < 0 {
        r
    } else {
        buffer_selected(r, what)
    }
}

/// The number that `#(ba,X)` returns: that of the buffer added or
/// selected or, for a negative `X`, of the current one; 0 if there is no
/// such buffer.
pub open spec fn buffer_number(r: RegistryView, what: int) -> int {
    if what == 0 {
        if r.buffers.len() < u32::MAX {
            (r.buffers.len() + 1) as int
        } else {
            0
        }
    } else if what < 0 || what <= r.buffers.len() {
        buffer_chosen(r, what).cur().bufno
    } else {
        0
    }
}

/// `#(ba,X)`: adds or selects a buffer and returns its number. With no
/// argument nothing happens.
pub struct BaPrim;

impl MintPrim for BaPrim {
    open spec fn admits(
        &self,
        vars: Seq<VarEntry>,
        before: CoreView,
        is_active: bool,
        args: Seq<ArgView>,
        after: CoreView,
        vars_after: Seq<VarEntry>,
    ) -> bool {
        vars_after == vars && after == if args.len() < 2 {
            before
        } else {
            let what = int_value_of(val(args, 1), 10) as int;
            returned(
                CoreView { buffers: buffer_chosen(before.buffers, what), ..before },
                is_active,
                number_text((buffer_number(before.buffers, what) as i32) as int, 10),
            )
        }
    }

    fn execute(&self, interp: &mut MintMachine, is_active: bool, args: &MintArgList) {
        if args.len() < 2 {
            return ;
        }
        let whattodo = args.get(1).get_int_value(10);
        let buffers = interp.buffers_mut();
        let buf_num: u32 = if whattodo == 0 {
            buffers.new_buffer()
        } else if whattodo < 0 || buffers.select_buffer(whattodo as u32) {
            buffers.get_cur_buffer().get_buf_number()
        } else {
            0
        };
        interp.return_integer(is_active, #[verifier::truncate] (buf_num as i32), 10);
    }
}

/// `#(is,X,Y)`: inserts `X` at point of the current buffer. Returns `Y`
/// if that succeeded.
pub struct IsPrim;

impl MintPrim for IsPrim {
    open spec fn admits(
        &self,
        vars: Seq<VarEntry>,
        before: CoreView,
        is_active: bool,
        args: Seq<ArgView>,
        after: CoreView,
        vars_after: Seq<VarEntry>,
    ) -> bool {
        vars_after == vars && after == if args.len() < 2 {
            before
        } else {
            let b = cur_of(before);
            if !b.wp && room_in(b, val(args, 1).len() as int) {
                let v = with_buffer(before, inserted(b, val(args, 1)));
                if args.len() > 2 {
                    returned(v, is_active, val(args, 2))
                } else {
                    v
                }
            } else {
                before
            }
        }
    }

    fn execute(&self, interp: &mut MintMachine, is_active: bool, args: &MintArgList) {
        if args.len() < 2 {
            return ;
        }
        let string = args.get(1).value();
        let ghost before = interp@;
        let buf = interp.cur_buffer_mut();
        let success = buf.insert_string(string);
        proof {
            if !success {
                assert(with_buffer(before, cur_of(before)).buffers.buffers =~= before.buffers.buffers);
            }
        }
        if success && args.len() > 2 {
            interp.return_string(is_active, args.get(2).value());
        } else if !success {
            interp.return_null(is_active);
        }
    }
}

/// The buffer after `#(pm,X)` with the number `n`: a positive number
/// opens that many temporary marks, 0 closes the window in use, and a
/// negative number makes that many permanent marks.
pub open spec fn marks_changed(b: BufferView, n: int) -> BufferView {
    if n > 0 {
        marks_pushed(b, n)
    } else if n == 0 {
        marks_popped(b)
    } else {
        perm_marks_made(b, -n)
    }
}

/// Whether `#(pm,X)` with the number `n` succeeds.
pub open spec fn marks_change_ok(b: BufferView, n: int) -> bool {
    if n > 0 {
        crate::emacs_buffer::can_push_marks(b, n)
    } else if n == 0 {
        b.stack.len() > 0
    } else {
        -n <= crate::emacs_buffer::MARK_MAX_PERM
    }
}

/// `#(pm,X,Y)`: pushes or pops marks. Returns `Y` in active mode if
/// that failed.
pub struct PmPrim;

impl MintPrim for PmPrim {
    open spec fn admits(
        &self,
        vars: Seq<VarEntry>,
        before: CoreView,
        is_active: bool,
        args: Seq<ArgView>,
        after: CoreView,
        vars_after: Seq<VarEntry>,
    ) -> bool {
        vars_after == vars && after == if args.len() < 2 {
            before
        } else {
            let n = int_value_of(val(args, 1), 10) as int;
            let b = cur_of(before);
            let v = with_buffer(before, marks_changed(b, n));
            if !marks_change_ok(b, n) && args.len() > 2 {
                returned(v, true, val(args, 2))
            } else {
                v
            }
        }
    }

    fn execute(&self, interp: &mut MintMachine, is_active: bool, args: &MintArgList) {
        if args.len() < 2 {
            return ;
        }
        let whattodo = args.get(1).get_int_value(10);
        let buf = interp.cur_buffer_mut();
        let ok = if whattodo > 0 {
            buf.push_temp_marks(whattodo as u32)
        } else if whattodo == 0 {
            buf.pop_temp_marks()
        } else {
            buf.create_perm_marks((-(whattodo as i64)) as u32)
        };
        if ok {
            interp.return_null(is_active);
        } else if args.len() > 2 {
            interp.return_string(true, args.get(2).value());
        }
    }
}

/// `#(sm,X,Y)`: sets the mark `X` to where the mark `Y` stands, or to
/// point if there is no `Y`. Returns nothing.
pub struct SmPrim;

impl MintPrim for SmPrim {
    open spec fn admits(
        &self,
        vars: Seq<VarEntry>,
        before: CoreView,
        is_active: bool,
        args: Seq<ArgView>,
        after: CoreView,
        vars_after: Seq<VarEntry>,
    ) -> bool {
        vars_after == vars && after == if args.len() < 2 || val(args, 1).len() == 0 {
            before
        } else {
            let b = cur_of(before);
            with_buffer(
                before,
                with_mark(
                    b,
                    val(args, 1)[0],
                    mark_position(b, first_or(val(args, 2), MARK_POINT), b.point),
                ),
            )
        }
    }

    fn execute(&self, interp: &mut MintMachine, is_active: bool, args: &MintArgList) {
        if args.len() < 2 {
            return ;
        }
        let user_mark = args.get(1).value();
        if user_mark.len() > 0 {
            let mark = if args.len() > 2 && args.get(2).value().len() > 0 {
                args.get(2).value()[0]
            } else {
                MARK_POINT
            };
            let buf = interp.cur_buffer_mut();
            buf.set_mark(user_mark[0], mark);
        }
        interp.return_null(is_active);
    }
}

/// `#(sp,X)`: sets point to each of the marks in `X` in turn. Returns nothing.
pub struct SpPrim;

impl MintPrim for SpPrim {
    open spec fn admits(
        &self,
        vars: Seq<VarEntry>,
        before: CoreView,
        is_active: bool,
        args: Seq<ArgView>,
        after: CoreView,
        vars_after: Seq<VarEntry>,
    ) -> bool {
        vars_after == vars && after == if args.len() < 2 {
            before
        } else {
            with_buffer(before, point_at_marks(cur_of(before), val(args, 1)))
        }
    }

    fn execute(&self, interp: &mut MintMachine, is_active: bool, args: &MintArgList) {
        if args.len() < 2 {
            return ;
        }
        let marks = args.get(1).value();
        let buf = interp.cur_buffer_mut();
        buf.set_point_to_marks(marks);
        interp.return_null(is_active);
    }
}

/// `#(dm,X)`: deletes from point to each of the marks in `X` in turn.
/// Returns nothing.
pub struct DmPrim;

impl MintPrim for DmPrim {
    open spec fn admits(
        &self,
        vars: Seq<VarEntry>,
        before: CoreView,
        is_active: bool,
        args: Seq<ArgView>,
        after: CoreView,
        vars_after: Seq<VarEntry>,
    ) -> bool {
        vars_after == vars && after == if args.len() < 2 {
            before
        } else {
            with_buffer(before, deleted_to_marks(cur_of(before), val(args, 1)))
        }
    }

    fn execute(&self, interp: &mut MintMachine, is_active: bool, args: &MintArgList) {
        if args.len() < 2 {
            return ;
        }
        let marks = args.get(1).value();
        let buf = interp.cur_buffer_mut();
        buf.delete_to_marks(marks);
        interp.return_null(is_active);
    }
}

/// `#(rm,X,Y)`: returns the text between point and the mark `X`; with
/// an empty `X` returns `Y` in active mode.
pub struct RmPrim;

impl MintPrim for RmPrim {
    open spec fn admits(
        &self,
        vars: Seq<VarEntry>,
        before: CoreView,
        is_active: bool,
        args: Seq<ArgView>,
        after: CoreView,
        vars_after: Seq<VarEntry>,
    ) -> bool {
        vars_after == vars && after == if args.len() < 2 {
            before
        } else if val(args, 1).len() > 0 {
            let b = cur_of(before);
            returned(
                before,
                is_active,
                text_between(b, b.point, mark_position(b, val(args, 1)[0], b.point)),
            )
        } else if args.len() > 2 {
            returned(before, true, val(args, 2))
        } else {
            before
        }
    }

    fn execute(&self, interp: &mut MintMachine, is_active: bool, args: &MintArgList) {
        if args.len() < 2 {
            return ;
        }
        let mark = args.get(1).value();
        if mark.len() > 0 {
            let s = interp.cur_buffer().read_to_mark(mark[0]);
            interp.return_string(is_active, &s);
        } else if args.len() > 2 {
            interp.return_string(true, args.get(2).value());
        }
    }
}

/// `#(rc,X)`: returns the number of bytes between point and the mark
/// `X`, in decimal; 0 for an empty `X`.
pub struct RcPrim;

impl MintPrim for RcPrim {
    open spec fn admits(
        &self,
        vars: Seq<VarEntry>,
        before: CoreView,
        is_active: bool,
        args: Seq<ArgView>,
        after: CoreView,
        vars_after: Seq<VarEntry>,
    ) -> bool {
        vars_after == vars && after == if args.len() < 2 {
            before
        } else {
            let b = cur_of(before);
            returned(
                before,
                is_active,
                number_text(
                    (if val(args, 1).len() > 0 {
                        vstd::math::abs(mark_position(b, val(args, 1)[0], b.point) - b.point)
                    } else {
                        0
                    }) as i32 as int,
                    10,
                ),
            )
        }
    }

    fn execute(&self, interp: &mut MintMachine, is_active: bool, args: &MintArgList) {
        if args.len() < 2 {
            return ;
        }
        let mark = args.get(1).value();
        let count: u32 = if mark.len() > 0 {
            interp.cur_buffer().chars_to_mark(mark[0])
        } else {
            0
        };
        interp.return_integer(is_active, #[verifier::truncate] (count as i32), 10);
    }
}

/// `#(mb,X,A,B)`: returns `A` if the mark `X` stands before point, else `B`.
pub struct MbPrim;

impl MintPrim for MbPrim {
    open spec fn admits(
        &self,
        vars: Seq<VarEntry>,
        before: CoreView,
        is_active: bool,
        args: Seq<ArgView>,
        after: CoreView,
        vars_after: Seq<VarEntry>,
    ) -> bool {
        vars_after == vars && after == if args.len() < 2 {
            before
        } else {
            let b = cur_of(before);
            let precedes = val(args, 1).len() > 0 && mark_position(
                b,
                val(args, 1)[0],
                b.point,
            ) < b.point;
            returned(
                before,
                is_active,
                if precedes && args.len() > 2 {
                    val(args, 2)
                } else if args.len() > 3 {
                    val(args, 3)
                } else {
                    Seq::empty()
                },
            )
        }
    }

    fn execute(&self, interp: &mut MintMachine, is_active: bool, args: &MintArgList) {
        if args.len() < 2 {
            return ;
        }
        let mark = args.get(1).value();
        let before = if mark.len() > 0 {
            interp.cur_buffer().mark_before_point(mark[0])
        } else {
            false
        };
        if before && args.len() > 2 {
            interp.return_string(is_active, args.get(2).value());
        } else if args.len() > 3 {
            interp.return_string(is_active, args.get(3).value());
        } else {
            let empty: MintString = Vec::new();
            interp.return_string(is_active, &empty);
        }
    }
}

/// `#(tr,X,Y)`: translates the bytes between point and the mark `X` by
/// the translation string `Y`. Returns nothing.
pub struct TrPrim;

impl MintPrim for TrPrim {
    open spec fn admits(
        &self,
        vars: Seq<VarEntry>,
        before: CoreView,
        is_active: bool,
        args: Seq<ArgView>,
        after: CoreView,
        vars_after: Seq<VarEntry>,
    ) -> bool {
        vars_after == vars && after == if args.len() < 3 || val(args, 1).len() == 0 {
            before
        } else {
            with_buffer(
                before,
                translated(cur_of(before), val(args, 1)[0], val(args, 2)),
            )
        }
    }

    fn execute(&self, interp: &mut MintMachine, is_active: bool, args: &MintArgList) {
        if args.len() < 3 {
            return ;
        }
        let mark = args.get(1).value();
        let trstr = args.get(2).value();
        if mark.len() > 0 {
            let buf = interp.cur_buffer_mut();
            buf.translate(mark[0], trstr);
        }
        interp.return_null(is_active);
    }
}

/// The text that `#(bi,X,Y)` copies: what lies between point and the
/// mark `mark` in the buffer with the number `bufno`, if there is such a buffer.
pub open spec fn text_to_copy(r: RegistryView, bufno: int, mark: u8) -> Option<Seq<u8>> {
    if 1 <= bufno <= r.buffers.len() {
        let b = r.buffers[bufno - 1];
        Some(text_between(b, b.point, mark_position(b, mark, b.point)))
    } else {
        None
    }
}

/// `#(bi,X,Y,A,B)`: inserts into the current buffer the text between
/// point and the mark `Y` of the buffer `X`. Returns `A` if that
/// succeeded. With fewer than four arguments nothing happens.
pub struct BiPrim;

impl MintPrim for BiPrim {
    open spec fn admits(
        &self,
        vars: Seq<VarEntry>,
        before: CoreView,
        is_active: bool,
        args: Seq<ArgView>,
        after: CoreView,
        vars_after: Seq<VarEntry>,
    ) -> bool {
        vars_after == vars && after == if args.len() < 5 || val(args, 2).len() == 0 {
            before
        } else {
            let b = cur_of(before);
            match text_to_copy(
                before.buffers,
                (int_value_of(val(args, 1), 10) as u32) as int,
                val(args, 2)[0],
            ) {
                Some(text) => if !b.wp && room_in(b, text.len() as int) {
                    returned(
                        with_buffer(before, inserted(b, text)),
                        is_active,
                        val(args, 3),
                    )
                } else {
                    before
                },
                None => before,
            }
        }
    }

    fn execute(&self, interp: &mut MintMachine, is_active: bool, args: &MintArgList) {
        if args.len() < 5 {
            interp.return_null(is_active);
            return ;
        }
        let buf_num = #[verifier::truncate] (args.get(1).get_int_value(10) as u32);
        let mark = args.get(2).value();
        let success_str = args.get(3).value();
        let ghost before = interp@;
        let mut success = false;
        if mark.len() > 0 {
            let mark_char = mark[0];
            let buffers = interp.buffers_mut();
            proof {
                assert(before.buffers.buffers[before.buffers.current].bufno == before.buffers.current
                    + 1);
            }
            let cur_buf_num = buffers.get_cur_buffer().get_buf_number();
            let text = if buffers.select_buffer(buf_num) {
                let text = buffers.get_cur_buffer().read_to_mark(mark_char);
                buffers.select_buffer(cur_buf_num);
                Some(text)
            } else {
                None
            };
            assert(interp@ == before);
            if let Some(text) = text {
                let buf = interp.cur_buffer_mut();
                success = buf.insert_string(&text);
            }
        }
        proof {
            if !success {
                assert(with_buffer(before, cur_of(before)).buffers.buffers =~= before.buffers.buffers);
            }
        }
        if success {
            interp.return_string(is_active, success_str);
        } else {
            interp.return_null(is_active);
        }
    }
}

/// `#(st,X)`: the syntax table. It does nothing and returns nothing.
pub struct StPrim;

impl MintPrim for StPrim {
    open spec fn admits(
        &self,
        vars: Seq<VarEntry>,
        before: CoreView,
        is_active: bool,
        args: Seq<ArgView>,
        after: CoreView,
        vars_after: Seq<VarEntry>,
    ) -> bool {
        vars_after == vars && after == before
    }

    fn execute(&self, interp: &mut MintMachine, is_active: bool, _args: &MintArgList) {
        interp.return_null(is_active);
    }
}

/// `#(lp,X,Y,A,B)`: sets the search pattern to `X`: a regular
/// expression if `A` is not empty, else a plain string; case is folded
/// if `B` is not empty. Returns `Y` in active mode if the pattern is
/// refused. With fewer than four arguments nothing happens.
pub struct LpPrim;

impl MintPrim for LpPrim {
    open spec fn admits(
        &self,
        vars: Seq<VarEntry>,
        before: CoreView,
        is_active: bool,
        args: Seq<ArgView>,
        after: CoreView,
        vars_after: Seq<VarEntry>,
    ) -> bool {
        vars_after == vars && after == if args.len() < 5 {
            before
        } else {
            let fold = val(args, 4).len() > 0;
            if val(args, 3).len() == 0 {
                let v = CoreView {
                    buffers: literal_set(before.buffers, val(args, 1), fold),
                    ..before
                };
                if literal_accepted(val(args, 1), fold) {
                    v
                } else {
                    returned(v, true, val(args, 2))
                }
            } else {
                let v = CoreView {
                    buffers: regex_set(before.buffers, val(args, 1), fold),
                    ..before
                };
                if regex_accepted(val(args, 1), fold) {
                    v
                } else {
                    returned(v, true, val(args, 2))
                }
            }
        }
    }

    fn execute(&self, interp: &mut MintMachine, is_active: bool, args: &MintArgList) {
        if args.len() < 5 {
            interp.return_null(is_active);
            return ;
        }
        let pattern = args.get(1).value();
        let error_str = args.get(2).value();
        let is_plain = args.get(3).value().len() == 0;
        let fold_case = args.get(4).value().len() > 0;
        let buffers = interp.buffers_mut();
        let success = if is_plain {
            buffers.set_search_string(pattern, fold_case)
        } else {
            buffers.set_search_regex(pattern, fold_case)
        };
        if success {
            interp.return_null(is_active);
        } else {
            interp.return_string(true, error_str);
        }
    }
}

/// `#(l?,A,B,C,D,X,Y)`: searches the current buffer between the marks
/// `A` and `B`, which default to the start and the end of the text,
/// and stores a match in the marks `C` and `D`. Returns `X` if there
/// was a match, else `Y`. With fewer than six arguments nothing happens.
pub struct LkPrim;

impl MintPrim for LkPrim {
    open spec fn admits(
        &self,
        vars: Seq<VarEntry>,
        before: CoreView,
        is_active: bool,
        args: Seq<ArgView>,
        after: CoreView,
        vars_after: Seq<VarEntry>,
    ) -> bool {
        vars_after == vars && after == if args.len() < 7 {
            before
        } else {
            let ss = first_or(val(args, 1), MARK_BOB);
            let se = first_or(val(args, 2), MARK_EOB);
            let ms = first_or(val(args, 3), 0);
            let me = first_or(val(args, 4), 0);
            let r = before.buffers;
            returned(
                CoreView { buffers: searched(r, ss, se, ms, me), ..before },
                is_active,
                if search_hit(r.cur(), r.pattern, ss, se).is_some() {
                    val(args, 5)
                } else {
                    val(args, 6)
                },
            )
        }
    }

    fn execute(&self, interp: &mut MintMachine, is_active: bool, args: &MintArgList) {
        if args.len() < 7 {
            interp.return_null(is_active);
            return ;
        }
        let mark1 = match args.get(1).get_first_char() {
            Some(c) => c,
            None => MARK_BOB,
        };
        let mark2 = match args.get(2).get_first_char() {
            Some(c) => c,
            None => MARK_EOB,
        };
        let mark3 = match args.get(3).get_first_char() {
            Some(c) => c,
            None => 0,
        };
        let mark4 = match args.get(4).get_first_char() {
            Some(c) => c,
            None => 0,
        };
        let buffers = interp.buffers_mut();
        let found = buffers.search(mark1, mark2, mark3, mark4);
        if found {
            interp.return_string(is_active, args.get(5).value());
        } else {
            interp.return_string(is_active, args.get(6).value());
        }
    }
}

/// A 32-bit counter read as a signed number in two's complement.
pub open spec fn signed(n: int) -> int {
    if n > i32::MAX {
        n - 0x1_0000_0000
    } else {
        n
    }
}

/// A signed 32-bit number read as a counter in two's complement.
pub open spec fn unsigned(n: int) -> int {
    if n < 0 {
        n + 0x1_0000_0000
    } else {
        n
    }
}

pub fn to_signed(n: u32) -> (r: i32)
    ensures
        r == signed(n as int),
{
    if n > i32::MAX as u32 {
        ((n as i64) - 0x1_0000_0000) as i32
    } else {
        n as i32
    }
}

pub fn to_unsigned(n: i32) -> (r: u32)
    ensures
        r == unsigned(n as int),
{
    if n < 0 {
        ((n as i64) + 0x1_0000_0000) as u32
    } else {
        n as u32
    }
}

/// The text of a counter, read as a signed number, in decimal.
pub open spec fn counter_text(n: int) -> Seq<u8> {
    number_text(signed(n), 10)
}

fn counter_string(n: u32) -> (r: MintString)
    ensures
        r@ == counter_text(n as int),
{
    let mut s: MintString = Vec::new();
    append_num(&mut s, to_signed(n), 10);
    assert(s@ =~= counter_text(n as int));
    s
}

/// `cl`: the line of point, counted from 1.
pub struct ClVar;

impl MintVar for ClVar {
    open spec fn reads(&self, v: CoreView, value: Seq<u8>) -> bool {
        value == counter_text(wrapped(cur_of(v).point_line + 1))
    }

    fn get_val(&self, interp: &MintCore) -> (r: MintString) {
        let line_no = interp.cur_buffer().get_point_line().wrapping_add(1);
        counter_string(line_no)
    }

    open spec fn assigned(&self, v: CoreView, val: Seq<u8>) -> CoreView {
        with_buffer(
            v,
            point_line_set(
                cur_of(v),
                if int_value_of(val, 10) > 1 {
                    int_value_of(val, 10) - 1
                } else {
                    0
                },
            ),
        )
    }

    fn set_val(&self, interp: &mut MintCore, val: &MintString) {
        let line_no = get_int_value(val, 10);
        let target: u32 = if line_no > 1 {
            (line_no - 1) as u32
        } else {
            0
        };
        let buf = interp.cur_buffer_mut();
        buf.set_point_line(target);
    }
}

/// `cs`: the column of point, counted from 1.
pub struct CsVar;

impl MintVar for CsVar {
    open spec fn reads(&self, v: CoreView, value: Seq<u8>) -> bool {
        value == counter_text(wrapped(column_of(cur_of(v)) + 1))
    }

    fn get_val(&self, interp: &MintCore) -> (r: MintString) {
        let col_no = interp.cur_buffer().get_column().wrapping_add(1);
        counter_string(col_no)
    }

    open spec fn assigned(&self, v: CoreView, val: Seq<u8>) -> CoreView {
        if int_value_of(val, 10) > 0 {
            with_buffer(v, column_set(cur_of(v), int_value_of(val, 10) - 1))
        } else {
            v
        }
    }

    fn set_val(&self, interp: &mut MintCore, val: &MintString) {
        let col_no = get_int_value(val, 10);
        if col_no > 0 {
            let buf = interp.cur_buffer_mut();
            buf.set_column((col_no - 1) as u32);
        }
    }
}

/// `mb`: the flags of the current buffer: 1 for modified, 2 for write-protected.
pub struct MbVar;

impl MintVar for MbVar {
    open spec fn reads(&self, v: CoreView, value: Seq<u8>) -> bool {
        value == number_text(
            (if cur_of(v).modified { 1int } else { 0int }) + (if cur_of(v).wp {
                2int
            } else {
                0int
            }),
            10,
        )
    }

    fn get_val(&self, interp: &MintCore) -> (r: MintString) {
        let cb = interp.cur_buffer();
        let mod_flag: i32 = if cb.is_modified() {
            1
        } else {
            0
        };
        let wp_flag: i32 = if cb.is_write_protected() {
            2
        } else {
            0
        };
        let mut s: MintString = Vec::new();
        append_num(&mut s, mod_flag + wp_flag, 10);
        assert(s@ =~= number_text((mod_flag + wp_flag) as int, 10));
        s
    }

    open spec fn assigned(&self, v: CoreView, val: Seq<u8>) -> CoreView {
        with_buffer(
            v,
            BufferView {
                modified: (int_value_of(val, 10) & 1) != 0,
                wp: (int_value_of(val, 10) & 2) != 0,
                ..cur_of(v)
            },
        )
    }

    fn set_val(&self, interp: &mut MintCore, val: &MintString) {
        let flags = get_int_value(val, 10);
        let cb = interp.cur_buffer_mut();
        cb.set_modified((flags & 1) != 0);
        cb.set_write_protected((flags & 2) != 0);
    }
}

/// `nl`: the number of lines of the current buffer: its line feeds and one. It cannot be set.
pub struct NlVar;

impl MintVar for NlVar {
    open spec fn reads(&self, v: CoreView, value: Seq<u8>) -> bool {
        value == counter_text(wrapped(cur_of(v).newlines + 1))
    }

    fn get_val(&self, interp: &MintCore) -> (r: MintString) {
        let n = interp.cur_buffer().count_newlines_total().wrapping_add(1);
        counter_string(n)
    }

    /// Setting the variable changes nothing.
    open spec fn assigned(&self, v: CoreView, val: Seq<u8>) -> CoreView {
        v
    }

    fn set_val(&self, _interp: &mut MintCore, _val: &MintString) {
    }
}

/// How far down the text point stands, in percent of its lines; a
/// number beyond the range of 32 bits reads as the largest in it.
pub open spec fn percent_of(b: BufferView) -> int {
    let p = (b.point_line + 1) * 100 / (b.newlines + 1);
    if p > i32::MAX {
        i32::MAX as int
    } else {
        p
    }
}

/// `pb`: the position of point in percent of the lines. It cannot be set.
pub struct PbVar;

impl MintVar for PbVar {
    open spec fn reads(&self, v: CoreView, value: Seq<u8>) -> bool {
        value == number_text(percent_of(cur_of(v)), 10)
    }

    fn get_val(&self, interp: &MintCore) -> (r: MintString) {
        let cb = interp.cur_buffer();
        let point_line = cb.get_point_line() as u64;
        let newline_count = cb.count_newlines_total() as u64;
        let p: u64 = (point_line + 1) * 100 / (newline_count + 1);
        let n: i32 = if p > i32::MAX as u64 {
            i32::MAX
        } else {
            p as i32
        };
        let mut s: MintString = Vec::new();
        append_num(&mut s, n, 10);
        assert(s@ =~= number_text(n as int, 10));
        s
    }

    /// Setting the variable changes nothing.
    open spec fn assigned(&self, v: CoreView, val: Seq<u8>) -> CoreView {
        v
    }

    fn set_val(&self, _interp: &mut MintCore, _val: &MintString) {
    }
}

/// `rs`: the row of the window that shows point.
pub struct RsVar;

impl MintVar for RsVar {
    open spec fn reads(&self, v: CoreView, value: Seq<u8>) -> bool {
        value == counter_text(
            wrapped(cur_of(v).point_line - cur_of(v).topline_line),
        )
    }

    fn get_val(&self, interp: &MintCore) -> (r: MintString) {
        let row = interp.cur_buffer().get_point_row();
        counter_string(row)
    }

    open spec fn assigned(&self, v: CoreView, val: Seq<u8>) -> CoreView {
        with_buffer(v, point_row_set(cur_of(v), unsigned(int_value_of(val, 10) as int)))
    }

    fn set_val(&self, interp: &mut MintCore, val: &MintString) {
        let row = to_unsigned(get_int_value(val, 10));
        let cb = interp.cur_buffer_mut();
        cb.set_point_row(row);
    }
}

/// `tc`: the distance of the tab stops. Zero is not a distance and is not set.
pub struct TcVar;

impl MintVar for TcVar {
    open spec fn reads(&self, v: CoreView, value: Seq<u8>) -> bool {
        value == counter_text(cur_of(v).tab_width)
    }

    fn get_val(&self, interp: &MintCore) -> (r: MintString) {
        let tab_width = interp.cur_buffer().get_tab_width();
        counter_string(tab_width)
    }

    open spec fn assigned(&self, v: CoreView, val: Seq<u8>) -> CoreView {
        if int_value_of(val, 10) != 0 {
            with_buffer(
                v,
                BufferView {
                    tab_width: unsigned(int_value_of(val, 10) as int),
                    ..cur_of(v)
                },
            )
        } else {
            v
        }
    }

    fn set_val(&self, interp: &mut MintCore, val: &MintString) {
        let n = to_unsigned(get_int_value(val, 10));
        if n > 0 {
            let cb = interp.cur_buffer_mut();
            cb.set_tab_width(n);
        }
    }
}

/// Whether `n` is the name of one of the variables that `register_buf_prims` registers.
pub open spec fn is_buf_var_name(n: Seq<u8>) -> bool {
    n == seq![99u8, 108u8]
    || n == seq![99u8, 115u8]
    || n == seq![109u8, 98u8]
    || n == seq![110u8, 108u8]
    || n == seq![112u8, 98u8]
    || n == seq![114u8, 115u8]
    || n == seq![116u8, 99u8]
}

/// Whether `n` is the name of one of the primitives that `register_buf_prims` registers.
pub open spec fn is_buf_prim_name(n: Seq<u8>) -> bool {
    n == seq![98u8, 97u8]
    || n == seq![105u8, 115u8]
    || n == seq![112u8, 109u8]
    || n == seq![115u8, 109u8]
    || n == seq![115u8, 112u8]
    || n == seq![100u8, 109u8]
    || n == seq![114u8, 109u8]
    || n == seq![114u8, 99u8]
    || n == seq![109u8, 98u8]
    || n == seq![116u8, 114u8]
    || n == seq![98u8, 105u8]
    || n == seq![115u8, 116u8]
    || n == seq![108u8, 112u8]
    || n == seq![108u8, 63u8]
}

/// Registers the buffer primitives `ba`, `is`, `pm`, `sm`, `sp`, `dm`,
/// `rm`, `rc`, `mb`, `tr`, `bi`, `st`, `lp` and `l?`, and the variables
/// `cl`, `cs`, `mb`, `nl`, `pb`, `rs` and `tc`.
pub fn register_buf_prims(interp: &mut Mint)
    ensures
        final(interp)@ == old(interp)@,
        old(interp).wf() ==> final(interp).wf(),
        forall|n: Seq<u8>|
            #[trigger] final(interp).has_prim(n) == (old(interp).has_prim(n) || is_buf_prim_name(n)),
        forall|n: Seq<u8>|
            #[trigger] final(interp).has_var(n) == (old(interp).has_var(n) || is_buf_var_name(n)),
        final(interp).prim_is(seq![98u8, 97u8], BaPrim),
        final(interp).prim_is(seq![105u8, 115u8], IsPrim),
        final(interp).prim_is(seq![112u8, 109u8], PmPrim),
        final(interp).prim_is(seq![115u8, 109u8], SmPrim),
        final(interp).prim_is(seq![115u8, 112u8], SpPrim),
        final(interp).prim_is(seq![100u8, 109u8], DmPrim),
        final(interp).prim_is(seq![114u8, 109u8], RmPrim),
        final(interp).prim_is(seq![114u8, 99u8], RcPrim),
        final(interp).prim_is(seq![109u8, 98u8], MbPrim),
        final(interp).prim_is(seq![116u8, 114u8], TrPrim),
        final(interp).prim_is(seq![98u8, 105u8], BiPrim),
        final(interp).prim_is(seq![115u8, 116u8], StPrim),
        final(interp).prim_is(seq![108u8, 112u8], LpPrim),
        final(interp).prim_is(seq![108u8, 63u8], LkPrim),
        forall|
            n: Seq<u8>,
            vars: Seq<VarEntry>,
            before: CoreView,
            is_active: bool,
            args: Seq<ArgView>,
            after: CoreView,
            vars_after: Seq<VarEntry>,
        |
            !is_buf_prim_name(n) ==> #[trigger] final(interp).prim_admits(
                n,
                vars,
                before,
                is_active,
                args,
                after,
                vars_after,
            ) == old(interp).prim_admits(
                n,
                vars,
                before,
                is_active,
                args,
                after,
                vars_after,
            ),
        var_is(final(interp).vars(), seq![99u8, 108u8], ClVar),
        var_is(final(interp).vars(), seq![99u8, 115u8], CsVar),
        var_is(final(interp).vars(), seq![109u8, 98u8], MbVar),
        var_is(final(interp).vars(), seq![110u8, 108u8], NlVar),
        var_is(final(interp).vars(), seq![112u8, 98u8], PbVar),
        var_is(final(interp).vars(), seq![114u8, 115u8], RsVar),
        var_is(final(interp).vars(), seq![116u8, 99u8], TcVar),
        forall|n: Seq<u8>, v: CoreView, value: Seq<u8>|
            !is_buf_var_name(n) ==> #[trigger] read_by(final(interp).vars(), n, v, value) == read_by(
                old(interp).vars(),
                n,
                v,
                value,
            ),
        forall|n: Seq<u8>, v: CoreView, val: Seq<u8>|
            !is_buf_var_name(n) ==> #[trigger] assigned_by(final(interp).vars(), n, v, val)
                == assigned_by(old(interp).vars(), n, v, val),
{
    proof {
        assert(seq![99u8, 108u8][0] == 99 && seq![99u8, 108u8][1] == 108);
        assert(seq![99u8, 115u8][0] == 99 && seq![99u8, 115u8][1] == 115);
        assert(seq![109u8, 98u8][0] == 109 && seq![109u8, 98u8][1] == 98);
        assert(seq![110u8, 108u8][0] == 110 && seq![110u8, 108u8][1] == 108);
        assert(seq![112u8, 98u8][0] == 112 && seq![112u8, 98u8][1] == 98);
        assert(seq![114u8, 115u8][0] == 114 && seq![114u8, 115u8][1] == 115);
        assert(seq![116u8, 99u8][0] == 116 && seq![116u8, 99u8][1] == 99);
        assert(seq![98u8, 97u8][0] == 98 && seq![98u8, 97u8][1] == 97);
        assert(seq![105u8, 115u8][0] == 105 && seq![105u8, 115u8][1] == 115);
        assert(seq![112u8, 109u8][0] == 112 && seq![112u8, 109u8][1] == 109);
        assert(seq![115u8, 109u8][0] == 115 && seq![115u8, 109u8][1] == 109);
        assert(seq![115u8, 112u8][0] == 115 && seq![115u8, 112u8][1] == 112);
        assert(seq![100u8, 109u8][0] == 100 && seq![100u8, 109u8][1] == 109);
        assert(seq![114u8, 109u8][0] == 114 && seq![114u8, 109u8][1] == 109);
        assert(seq![114u8, 99u8][0] == 114 && seq![114u8, 99u8][1] == 99);
        assert(seq![109u8, 98u8][0] == 109 && seq![109u8, 98u8][1] == 98);
        assert(seq![116u8, 114u8][0] == 116 && seq![116u8, 114u8][1] == 114);
        assert(seq![98u8, 105u8][0] == 98 && seq![98u8, 105u8][1] == 105);
        assert(seq![115u8, 116u8][0] == 115 && seq![115u8, 116u8][1] == 116);
        assert(seq![108u8, 112u8][0] == 108 && seq![108u8, 112u8][1] == 112);
        assert(seq![108u8, 63u8][0] == 108 && seq![108u8, 63u8][1] == 63);
    }
    interp.add_prim(name2(98, 97), Box::new(BaPrim));
    interp.add_prim(name2(105, 115), Box::new(IsPrim));
    interp.add_prim(name2(112, 109), Box::new(PmPrim));
    interp.add_prim(name2(115, 109), Box::new(SmPrim));
    interp.add_prim(name2(115, 112), Box::new(SpPrim));
    interp.add_prim(name2(100, 109), Box::new(DmPrim));
    interp.add_prim(name2(114, 109), Box::new(RmPrim));
    interp.add_prim(name2(114, 99), Box::new(RcPrim));
    interp.add_prim(name2(109, 98), Box::new(MbPrim));
    interp.add_prim(name2(116, 114), Box::new(TrPrim));
    interp.add_prim(name2(98, 105), Box::new(BiPrim));
    interp.add_prim(name2(115, 116), Box::new(StPrim));
    interp.add_prim(name2(108, 112), Box::new(LpPrim));
    interp.add_prim(name2(108, 63), Box::new(LkPrim));
    interp.add_var(name2(99, 108), Box::new(ClVar));
    interp.add_var(name2(99, 115), Box::new(CsVar));
    interp.add_var(name2(109, 98), Box::new(MbVar));
    interp.add_var(name2(110, 108), Box::new(NlVar));
    interp.add_var(name2(112, 98), Box::new(PbVar));
    interp.add_var(name2(114, 115), Box::new(RsVar));
    interp.add_var(name2(116, 99), Box::new(TcVar));
}

} // verus!
