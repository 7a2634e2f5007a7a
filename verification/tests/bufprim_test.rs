//! The buffer primitives and the buffer variables, run from scripts.

use std::cell::RefCell;
use std::rc::Rc;

use freemacs::bufprim::register_buf_prims;
use freemacs::frmprim::register_frm_prims;
use freemacs::mint::{Mint, MintMachine, MintPrim, ScanStatus};
use freemacs::mint_arg::MintArgList;
use freemacs::mthprim::register_mth_prims;
use freemacs::strprim::register_str_prims;
use freemacs::varprim::register_var_prims;

struct Out {
    output: Rc<RefCell<String>>,
}

impl MintPrim for Out {
    fn execute(&self, interp: &mut MintMachine, is_active: bool, args: &MintArgList) {
        let mut output = self.output.borrow_mut();
        for i in 1..args.len() {
            output.push_str(&String::from_utf8_lossy(args.get(i).value()));
        }
        interp.return_null(is_active);
    }
}

fn run(script: &str) -> String {
    let mut interp = Mint::with_initial_string(script.as_bytes());
    let output = Rc::new(RefCell::new(String::new()));
    interp.add_prim(b"ow".to_vec(), Box::new(Out { output: output.clone() }));
    register_buf_prims(&mut interp);
    register_frm_prims(&mut interp);
    register_mth_prims(&mut interp);
    register_str_prims(&mut interp);
    register_var_prims(&mut interp);
    while interp.scan(false) == ScanStatus::Called && !interp.is_idle() {}
    let r = output.borrow().clone();
    r
}

#[test]
fn is_inserts_and_returns_its_second_argument() {
    assert_eq!("OK OK", run("#(ow,##(is,he,OK)( )#(is,llo,OK))"));
    assert_eq!("hello", run("#(is,hello)#(ow,##(rm,[))"));
    assert_eq!("", run("#(is,hello)#(ow,##(rm,]))"));
}

#[test]
fn sp_applies_marks_in_turn() {
    assert_eq!("he", run("#(is,hello)#(sp,<<<)#(ow,##(rm,[))"));
    assert_eq!("llo", run("#(is,hello)#(sp,<<<)#(ow,##(rm,]))"));
    assert_eq!("2", run("#(is,hello)#(sp,<<<)#(ow,##(rc,[))"));
    assert_eq!("3", run("#(is,hello)#(sp,<<<)#(ow,##(rc,]))"));
    assert_eq!("0", run("#(is,hello)#(ow,##(rc))"));
    assert_eq!("he", run("#(is,hello)#(sp,[>>)#(ow,##(rm,[))"));
}

#[test]
fn rm_without_mark_returns_the_alternative() {
    assert_eq!("alt", run("#(is,hello)#(ow,#(rm,,alt))"));
}

#[test]
fn dm_deletes_to_marks() {
    assert_eq!("lo", run("#(is,hello)#(sp,[>>>)#(dm,[)#(ow,##(rm,])##(rm,[))"));
    assert_eq!("", run("#(is,hello)#(dm,[])#(sp,[)#(ow,##(rm,]))"));
}

#[test]
fn mb_tells_whether_a_mark_is_before_point() {
    assert_eq!("True", run("#(is,hello)#(ow,##(mb,<,True,False))"));
    assert_eq!("False", run("#(is,hello)#(ow,##(mb,>,True,False))"));
    assert_eq!("False", run("#(is,hello)#(ow,##(mb,.,True,False))"));
    assert_eq!("", run("#(is,hello)#(ow,##(mb,.,True))"));
    assert_eq!("False", run("#(is,hello)#(ow,##(mb,,True,False))"));
}

#[test]
fn pm_pushes_pops_and_reports_overflow() {
    assert_eq!("Oops", run("#(ow,##(pm,1000,Oops))"));
    assert_eq!("", run("#(ow,##(pm,10,Oops))"));
    assert_eq!(
        "Oops",
        run("#(pm,10)#(pm,10)#(pm,10)#(pm,10)#(ow,##(pm,10,Oops))")
    );
    assert_eq!("Oops", run("#(ow,##(pm,,Oops))"));
    assert_eq!("", run("#(pm,3)#(ow,##(pm,0,Oops))"));
    assert_eq!("Oops", run("#(ow,##(pm,-28,Oops))"));
    assert_eq!("", run("#(ow,##(pm,-27,Oops))"));
}

#[test]
fn sm_sets_user_marks() {
    assert_eq!(
        "This",
        run("#(pm,10)#(is,(This is a test string))#(sp,[>>>>)#(sm,0)#(sp,[)#(ow,##(rm,0))")
    );
    assert_eq!(
        "",
        run("#(pm,10)#(is,(This is a test string))#(sp,[>>>>)#(sm,0)#(sp,[)#(pm)#(ow,##(rm,0))")
    );
    assert_eq!(
        "This",
        run("#(is,(This is a test string))#(sp,[>>>>)#(sm,@)#(sp,[)#(ow,##(rm,@))")
    );
    assert_eq!(
        "This is",
        run("#(pm,1)#(is,(This is a test string))#(sp,[)#(sm,0,])#(sp,[>>>>>>>)#(sm,0,.)#(sp,[)#(ow,##(rm,0))")
    );
}

#[test]
fn tr_translates_to_the_mark() {
    assert_eq!("HELLo", run("#(is,hello)#(sp,<)#(tr,[,helHEL)#(sp,])#(ow,##(rm,[))"));
    assert_eq!("hello", run("#(is,hello)#(tr,,helHEL)#(ow,##(rm,[))"));
}

#[test]
fn bi_copies_from_another_buffer() {
    assert_eq!(
        "OK:abc",
        run("#(is,abc)#(sp,[)#(ba,0)#(ow,##(bi,1,],OK,BAD):##(rm,[))")
    );
    assert_eq!("", run("#(is,abc)#(ow,##(bi,7,],OK,BAD))"));
    assert_eq!("", run("#(is,abc)#(ow,##(bi,1,,OK,BAD))"));
    assert_eq!("", run("#(is,abc)#(ow,##(bi,1,]))"));
}

#[test]
fn ba_selects_and_creates() {
    assert_eq!("1,2,2,1,0,1", run(
        "#(ow,##(ba,-1)(,)##(ba,0)(,)##(ba,-5)(,)##(ba,1)(,)##(ba,9)(,)##(ba,-1))"
    ));
}

#[test]
fn lp_and_lk_search_the_buffer() {
    assert_eq!(
        "yes:3:7",
        run("#(pm,2)#(is,0123456789)#(sp,[>>>>>)#(is,ABCDEFGHIJ)#(lp,34AB,BAD,,)#(ow,##(l?,,,0,1,yes,no)#(sp,0):##(rc,[)#(sp,1):##(rc,[))")
    );
    assert_eq!(
        "no",
        run("#(is,0123456789)#(lp,xyz,BAD,,)#(ow,##(l?,,,,,yes,no))")
    );
    assert_eq!("BAD", run("#(ow,#(lp,[,BAD,regex,))"));
    assert_eq!("", run("#(ow,#(lp,[,BAD,,))"));
    assert_eq!(
        "yes",
        run("#(is,Hello)#(lp,h.l+O,BAD,regex,fold)#(ow,##(l?,[,],,,yes,no))")
    );
    assert_eq!(
        "no",
        run("#(is,Hello)#(lp,h.l+O,BAD,regex,)#(ow,##(l?,[,],,,yes,no))")
    );
    assert_eq!("", run("#(ow,##(l?,[,],,yes))"));
    assert_eq!("", run("#(ow,##(lp,a,b,c))"));
}

#[test]
fn st_does_nothing() {
    assert_eq!("", run("#(ow,##(st,whatever))"));
}

#[test]
fn buffer_variables_read() {
    assert_eq!("1 1 0 1 100 0 8", run(
        "#(ow,##(lv,cl) ##(lv,cs) ##(lv,mb) ##(lv,nl) ##(lv,pb) ##(lv,rs) ##(lv,tc))"
    ));
    assert_eq!("3 3 1 3 100", run(
        "#(is,(a\nb\ncd))#(ow,##(lv,cl) ##(lv,cs) ##(lv,mb) ##(lv,nl) ##(lv,pb))"
    ));
    assert_eq!("33", run("#(is,(a\nb\ncd))#(sp,[)#(ow,##(lv,pb))"));
}

#[test]
fn buffer_variables_set() {
    // from inside a line the first step back goes to the start of that line
    assert_eq!("2:cd", run("#(is,(a\nb\ncd))#(sv,cl,2)#(ow,##(lv,cl):##(rm,$))"));
    assert_eq!("1:b", run("#(is,(a\nb\ncd))#(sv,cl,-7)#(ow,##(lv,cl):##(rm,$))"));
    assert_eq!("2:b", run("#(is,(a\nb\ncd))#(sp,^)#(sv,cl,2)#(ow,##(lv,cl):##(rm,$))"));
    assert_eq!("3:cd", run("#(is,(a\nb\ncd))#(sp,[)#(sv,cl,3)#(ow,##(lv,cl):##(rm,$))"));
    assert_eq!("2:d", run("#(is,(a\nb\ncd))#(sv,cs,2)#(ow,##(lv,cs):##(rm,$))"));
    assert_eq!("3:", run("#(is,(a\nb\ncd))#(sv,cs,0)#(ow,##(lv,cs):##(rm,$))"));
    assert_eq!("2", run("#(is,abc)#(sv,mb,2)#(is,def)#(ow,##(lv,mb))"));
    assert_eq!("0", run("#(is,abc)#(sv,mb,0)#(ow,##(lv,mb))"));
    assert_eq!("3", run("#(sv,mb,7)#(ow,##(lv,mb))"));
    assert_eq!("4", run("#(sv,tc,4)#(ow,##(lv,tc))"));
    assert_eq!("8", run("#(sv,tc,0)#(ow,##(lv,tc))"));
    assert_eq!("1", run("#(sv,nl,9)#(sv,pb,9)#(ow,##(lv,nl))"));
    // the line of the anchor is counted from the line of point upwards, which counts nothing
    assert_eq!("2", run("#(is,(a\nb\ncd))#(sv,rs,1)#(ow,##(lv,rs))"));
    assert_eq!("2", run("#(is,(a\nb\ncd))#(sv,rs,5)#(ow,##(lv,rs))"));
    assert_eq!("6", run("#(is,(a\tb))#(sv,tc,4)#(ow,##(lv,cs))"));
}
