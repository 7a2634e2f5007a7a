//! The scanner and the dispatch of calls, step by step.

use std::cell::RefCell;
use std::rc::Rc;

use freemacs::frmprim::register_frm_prims;
use freemacs::mint::{ActiveString, Mint, MintMachine, MintPrim, NeutralString, ScanStatus};
use freemacs::mint_arg::{ArgType, MintArgList};
use freemacs::strprim::register_str_prims;
use freemacs::varprim::register_var_prims;

struct Collect {
    calls: Rc<RefCell<Vec<(bool, Vec<Vec<u8>>)>>>,
}

impl MintPrim for Collect {
    fn execute(&self, interp: &mut MintMachine, is_active: bool, args: &MintArgList) {
        let mut all = Vec::new();
        for i in 0..args.len() {
            all.push(args.get(i).value().clone());
        }
        self.calls.borrow_mut().push((is_active, all));
        interp.return_null(is_active);
    }
}

fn interp_with(script: &[u8]) -> (Mint, Rc<RefCell<Vec<(bool, Vec<Vec<u8>>)>>>) {
    let mut interp = Mint::with_initial_string(script);
    let calls = Rc::new(RefCell::new(Vec::new()));
    interp.add_prim(b"ow".to_vec(), Box::new(Collect { calls: calls.clone() }));
    register_frm_prims(&mut interp);
    register_str_prims(&mut interp);
    register_var_prims(&mut interp);
    (interp, calls)
}

fn run(interp: &mut Mint) -> ScanStatus {
    loop {
        let status = interp.scan(false);
        if status != ScanStatus::Called || interp.is_idle() {
            return status;
        }
    }
}

fn texts(calls: &Rc<RefCell<Vec<(bool, Vec<Vec<u8>>)>>>) -> Vec<Vec<String>> {
    calls
        .borrow()
        .iter()
        .map(|(_, args)| args.iter().map(|a| String::from_utf8_lossy(a).to_string()).collect())
        .collect()
}

#[test]
fn one_step_completes_one_call() {
    let (mut interp, calls) = interp_with(b"#(ow,a)#(ow,b)rest");
    assert_eq!(ScanStatus::Called, interp.scan(false));
    assert_eq!(1, calls.borrow().len());
    assert!(!interp.is_idle());
    assert_eq!(ScanStatus::Called, interp.scan(false));
    assert_eq!(2, calls.borrow().len());
    assert_eq!(ScanStatus::Drained, interp.scan(false));
    assert!(interp.is_idle());
    assert_eq!(vec![vec!["ow", "a", ""], vec!["ow", "b", ""]], texts(&calls));
}

#[test]
fn calls_carry_their_mode() {
    let (mut interp, calls) = interp_with(b"#(ow,a)##(ow,b)");
    run(&mut interp);
    assert_eq!(true, calls.borrow()[0].0);
    assert_eq!(false, calls.borrow()[1].0);
}

#[test]
fn arguments_are_split_at_commas_and_brackets_protect() {
    let (mut interp, calls) = interp_with(b"#(ow,a,,(b,c),(d(e)f),# ##x,\t\r\ng)");
    run(&mut interp);
    assert_eq!(vec![vec!["ow", "a", "", "b,c", "d(e)f", "# ##x", "g", ""]], texts(&calls));
}

#[test]
fn nested_calls_are_evaluated_first_and_left_to_right() {
    let (mut interp, calls) = interp_with(b"#(ow,1,#(ow,2)#(ow,3),4)");
    run(&mut interp);
    assert_eq!(
        vec![vec!["ow", "2", ""], vec!["ow", "3", ""], vec!["ow", "1", "", "4", ""]],
        texts(&calls)
    );
}

#[test]
fn active_return_is_rescanned_and_neutral_is_not() {
    let (mut interp, calls) = interp_with(b"#(ds,f,(#(ow,in)))#(ow,#(f))#(ow,##(f))");
    run(&mut interp);
    assert_eq!(
        vec![vec!["ow", "in", ""], vec!["ow", "", ""], vec!["ow", "#(ow,in)", ""]],
        texts(&calls)
    );
}

#[test]
fn unbalanced_bracket_stops_the_scan() {
    let (mut interp, calls) = interp_with(b"#(ow,a)#(ow,(b");
    assert_eq!(ScanStatus::Called, interp.scan(false));
    assert_eq!(ScanStatus::Unbalanced, interp.scan(false));
    assert!(!interp.is_idle());
    assert_eq!(1, calls.borrow().len());
}

#[test]
fn closing_bracket_without_call_is_dropped() {
    let (mut interp, calls) = interp_with(b"a,b)#(ow,c)");
    assert_eq!(ScanStatus::NoFunction, interp.scan(false));
    assert_eq!(ScanStatus::Called, interp.scan(false));
    assert_eq!(vec![vec!["ow", "c", ""]], texts(&calls));
}

#[test]
fn unknown_name_falls_back_to_the_default_forms() {
    let (mut interp, calls) =
        interp_with(b"#(ow,#(nope,x))#(ds,dflta,(A))#(ds,dfltn,(N))#(ow,#(nope,x)##(nope,x))");
    run(&mut interp);
    assert_eq!(vec![vec!["ow", "", ""], vec!["ow", "AN", ""]], texts(&calls));
}

#[test]
fn default_form_sees_the_call_as_its_arguments() {
    let (mut interp, calls) =
        interp_with(b"#(ds,dfltn,(<SELF:ARG>))#(mp,dfltn,SELF,ARG)#(ow,##(what,ever))");
    run(&mut interp);
    assert_eq!(vec![vec!["ow", "<what:ever>", ""]], texts(&calls));
}

#[test]
fn form_call_expands_from_the_cursor() {
    let (mut interp, calls) = interp_with(b"#(ds,f,ABCD)#(ow,##(go,f)##(f))");
    run(&mut interp);
    assert_eq!(vec![vec!["ow", "ABCD", ""]], texts(&calls));
    assert_eq!(1, interp.get_form(&b"f".to_vec()).unwrap().get_pos());
    let (mut interp, calls) = interp_with(b"#(ds,f,ABCD)#(ow,##(go,f),##(f))");
    run(&mut interp);
    assert_eq!(vec![vec!["ow", "A", "BCD", ""]], texts(&calls));
}

#[test]
fn parameter_markers_clamp_to_the_last_argument() {
    let (mut interp, calls) = interp_with(b"#(ds,f,(a-b-c))#(mp,f,a,b,c)#(ow,##(f,1))");
    run(&mut interp);
    // a is the name, b the first argument, c is clamped to the terminator
    assert_eq!(vec![vec!["ow", "f-1-", ""]], texts(&calls));
}

#[test]
fn parameter_round_trip_through_gs() {
    let (mut interp, calls) =
        interp_with(b"#(ds,f,(x Y1 y Y2 z Y1))#(mp,f,Y1,Y2)#(ow,##(gs,f,one,two))");
    run(&mut interp);
    assert_eq!(vec![vec!["ow", "x one y two z one", ""]], texts(&calls));
}

#[test]
fn idle_refill_uses_the_default_texts() {
    let mut interp = Mint::with_initial_string(b"");
    let calls = Rc::new(RefCell::new(Vec::new()));
    interp.add_prim(b"d".to_vec(), Box::new(Collect { calls: calls.clone() }));
    interp.add_prim(b"g".to_vec(), Box::new(Collect { calls: calls.clone() }));
    interp.add_prim(b"k".to_vec(), Box::new(Collect { calls: calls.clone() }));
    assert!(interp.is_idle());
    // a key is waiting: #(d,#(g))
    assert_eq!(ScanStatus::Called, interp.scan(true));
    assert_eq!(ScanStatus::Called, interp.scan(true));
    assert!(interp.is_idle());
    assert_eq!(vec![vec!["g", ""], vec!["d", "", ""]], texts(&calls));
}

#[test]
fn idle_script_is_scanned_once() {
    let mut interp = Mint::with_initial_string(b"");
    let calls = Rc::new(RefCell::new(Vec::new()));
    interp.add_prim(b"ow".to_vec(), Box::new(Collect { calls: calls.clone() }));
    interp.add_prim(b"d".to_vec(), Box::new(Collect { calls: calls.clone() }));
    interp.add_prim(b"g".to_vec(), Box::new(Collect { calls: calls.clone() }));
    interp.machine_mut().state_mut().set_idle_string(b"#(ow,idle)");
    assert_eq!(ScanStatus::Called, interp.scan(true));
    assert!(interp.is_idle());
    assert_eq!(vec![vec!["ow", "idle", ""]], texts(&calls));
    // the idle script is used up: the default text is next
    assert_eq!(ScanStatus::Called, interp.scan(true));
    assert_eq!("g", texts(&calls)[1][0]);
}

#[test]
fn new_interpreter_starts_with_the_no_key_text() {
    let mut interp = Mint::new();
    let calls = Rc::new(RefCell::new(Vec::new()));
    interp.add_prim(b"d".to_vec(), Box::new(Collect { calls: calls.clone() }));
    interp.add_prim(b"g".to_vec(), Box::new(Collect { calls: calls.clone() }));
    interp.add_prim(b"k".to_vec(), Box::new(Collect { calls: calls.clone() }));
    assert!(!interp.is_idle());
    run(&mut interp);
    assert_eq!(vec![vec!["k", ""], vec!["g", ""], vec!["d", "", ""]], texts(&calls));
    // nothing left and no key waiting: the same text again
    assert!(interp.is_idle());
    run(&mut interp);
    assert_eq!(6, calls.borrow().len());
}

#[test]
fn later_registration_replaces_a_primitive() {
    let (mut interp, calls) = interp_with(b"#(ow,a)");
    let other = Rc::new(RefCell::new(Vec::new()));
    interp.add_prim(b"ow".to_vec(), Box::new(Collect { calls: other.clone() }));
    run(&mut interp);
    assert_eq!(0, calls.borrow().len());
    assert_eq!(1, other.borrow().len());
}

#[test]
fn variables_are_read_and_set() {
    let (mut interp, calls) = interp_with(b"#(ow,##(lv,vn),##(lv,as),##(lv,nope))#(sv,as,25)#(sv,vn,9)#(ow,##(lv,as),##(lv,vn))#(sv,as,-4)#(ow,##(lv,as))");
    run(&mut interp);
    assert_eq!(
        vec![vec!["ow", "2.0a", "0", "", ""], vec!["ow", "25", "2.0a", ""], vec!["ow", "0", ""]],
        texts(&calls)
    );
    assert_eq!(0, interp.get_idle_max());
    assert_eq!(b"2.0a".to_vec(), interp.get_var(&b"vn".to_vec()));
    interp.set_var(&b"as".to_vec(), &b"12".to_vec());
    assert_eq!(12, interp.get_idle_max());
    interp.set_idle_max(-1);
    assert_eq!(0, interp.get_idle_max());
}

#[test]
fn return_routes_of_the_interpreter() {
    let mut interp = Mint::with_initial_string(b"#(ow,");
    let calls = Rc::new(RefCell::new(Vec::new()));
    interp.add_prim(b"ow".to_vec(), Box::new(Collect { calls: calls.clone() }));
    assert_eq!(ScanStatus::Drained, interp.scan(false));
    // the call is open: what is returned in neutral mode goes to its argument
    interp.return_string(false, &b"n".to_vec());
    interp.return_integer(false, -255, 16);
    interp.return_integer_with_prefix(false, &b" p".to_vec(), 7, 2);
    interp.return_null(false);
    // what is returned in active mode is scanned next
    interp.return_string(true, &b",x)".to_vec());
    interp.return_integer(true, 42, 10);
    assert_eq!(ScanStatus::Called, interp.scan(false));
    assert_eq!(vec![vec!["ow", "n-FF p11142", "x", ""]], texts(&calls));
}

#[test]
fn form_api_of_the_interpreter() {
    let mut interp = Mint::new();
    let name = b"f".to_vec();
    assert!(interp.get_form(&name).is_none());
    interp.set_form_value(&name, &b"hello".to_vec());
    interp.set_form_pos(&name, 3);
    assert_eq!(3, interp.get_form(&name).unwrap().get_pos());
    interp.set_form_pos(&name, 99);
    assert_eq!(5, interp.get_form(&name).unwrap().get_pos());
    interp.set_form_pos(&b"none".to_vec(), 1);
    interp.set_form_value(&name, &b"again".to_vec());
    assert_eq!(0, interp.get_form(&name).unwrap().get_pos());
    interp.del_form(&name);
    interp.del_form(&name);
    assert!(interp.get_form(&name).is_none());
}

#[test]
fn form_can_be_read_through_a_mutable_handle() {
    let mut interp = Mint::new();
    let name = b"f".to_vec();
    assert!(interp.get_form_mut(&name).is_none());
    interp.set_form_value(&name, &b"hello".to_vec());
    {
        let f = interp.get_form_mut(&name).unwrap();
        assert_eq!(b"he".to_vec(), f.get_n(2));
    }
    assert_eq!(2, interp.get_form(&name).unwrap().get_pos());
    interp.get_form_mut(&name).unwrap().set_pos(0);
    assert_eq!(b"hello".to_vec(), interp.get_form(&name).unwrap().get());
}

#[test]
fn active_string_is_a_queue_of_bytes() {
    let mut a = ActiveString::new();
    assert!(a.is_empty());
    a.load(b"cd");
    a.push_front(b"ab");
    a.push_front_char(b'!');
    assert_eq!(5, a.len());
    assert_eq!(b'!', a.get(0));
    assert_eq!(b"abc".to_vec(), a.copy_range(1, 4));
    a.drain(3);
    assert_eq!(b"cd".to_vec(), a.copy_range(0, 2));
    a.clear();
    assert!(a.is_empty());
}

#[test]
fn neutral_string_pops_the_innermost_call() {
    let mut n = NeutralString::new();
    n.append(b'x');
    n.mark_active_function();
    n.append_slice(b"outer");
    n.mark_argument();
    n.append(b'1');
    n.mark_neutral_function();
    n.append_slice(b"inner");
    n.mark_argument();
    n.append(b'2');
    n.mark_end_function();
    let inner = n.pop_arguments();
    assert_eq!(3, inner.len());
    assert_eq!(ArgType::Neutral, inner.get(0).arg_type());
    assert_eq!(b"inner".to_vec(), *inner.get(0).value());
    assert_eq!(b"2".to_vec(), *inner.get(1).value());
    assert_eq!(ArgType::End, inner.get(2).arg_type());
    n.append(b'r');
    n.mark_end_function();
    let outer = n.pop_arguments();
    assert_eq!(3, outer.len());
    assert_eq!(ArgType::Active, outer.get(0).arg_type());
    assert_eq!(b"1r".to_vec(), *outer.get(1).value());
    n.mark_end_function();
    let bottom = n.pop_arguments();
    assert_eq!(2, bottom.len());
    assert_eq!(ArgType::Null, bottom.get(0).arg_type());
    assert_eq!(b"x".to_vec(), *bottom.get(0).value());
    n.mark_end_function();
    let fresh = n.pop_arguments();
    assert_eq!(ArgType::Null, fresh.get(0).arg_type());
    assert!(fresh.get(0).value().is_empty());
    n.clear();
}

#[test]
fn form_returned_by_an_active_call_runs_its_nested_call() {
    let (mut interp, calls) = interp_with(b"#(ds,f,(#(nc,abc)))#(ow,#(f))");
    run(&mut interp);
    assert_eq!(vec![vec!["ow", "3", ""]], texts(&calls));
}

#[test]
fn form_returned_by_a_neutral_call_stays_text() {
    let (mut interp, calls) = interp_with(b"#(ds,f,(#(nc,abc)))#(ow,##(f))");
    run(&mut interp);
    assert_eq!(vec![vec!["ow", "#(nc,abc)", ""]], texts(&calls));
}

#[test]
fn line_feed_is_skipped_and_space_and_lone_hash_are_kept() {
    let (mut interp, calls) = interp_with(b"#(ds,f,(x,y))#(ow,\n##(f) #(f)#)");
    run(&mut interp);
    assert_eq!(vec![vec!["ow", "x,y x", "y#", ""]], texts(&calls));
}

#[test]
fn a_primitive_stands_before_a_form_of_its_name() {
    let (mut interp, calls) = interp_with(b"#(ds,ow,form text)#(ow,a)##(ow,b)");
    run(&mut interp);
    assert_eq!(vec![vec!["ow", "a", ""], vec!["ow", "b", ""]], texts(&calls));
    assert_eq!(vec![true, false], calls.borrow().iter().map(|c| c.0).collect::<Vec<bool>>());
}
