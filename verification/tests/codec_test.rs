//! Numbers written and read in bases 2 to 36, forms and their cursors,
//! and argument lists.

use freemacs::mint_arg::{ArgType, MintArg, MintArgList};
use freemacs::mint_form::{FormStore, MintForm};
use freemacs::mint_string::{append_num, get_int_prefix, get_int_value};

fn num(n: i32, base: i32) -> String {
    let mut s = Vec::new();
    append_num(&mut s, n, base);
    String::from_utf8(s).unwrap()
}

#[test]
fn append_num_writes_digits_and_sign() {
    assert_eq!("0", num(0, 10));
    assert_eq!("64", num(64, 10));
    assert_eq!("-15", num(-15, 10));
    assert_eq!("1000000", num(64, 2));
    assert_eq!("FF", num(255, 16));
    assert_eq!("Z", num(35, 36));
    assert_eq!("-2147483648", num(i32::MIN, 10));
    assert_eq!("2147483647", num(i32::MAX, 10));
}

#[test]
fn append_num_clamps_the_base() {
    assert_eq!("101", num(5, 1));
    assert_eq!("101", num(5, -7));
    assert_eq!("10", num(36, 99));
}

#[test]
fn append_num_keeps_what_was_there() {
    let mut s = b"Prefix ".to_vec();
    append_num(&mut s, 15, 10);
    assert_eq!(b"Prefix 15".to_vec(), s);
}

#[test]
fn get_int_value_reads_the_numeric_suffix() {
    assert_eq!(12, get_int_value(&b"Prefix 12".to_vec(), 10));
    assert_eq!(-12, get_int_value(&b"Prefix -12".to_vec(), 10));
    assert_eq!(0, get_int_value(&b"Prefix".to_vec(), 10));
    assert_eq!(0, get_int_value(&b"".to_vec(), 10));
    assert_eq!(255, get_int_value(&b"ff".to_vec(), 16));
    assert_eq!(255, get_int_value(&b"FF".to_vec(), 16));
    assert_eq!(5, get_int_value(&b"2101".to_vec(), 2));
    assert_eq!(35, get_int_value(&b"z".to_vec(), 36));
}

#[test]
fn get_int_value_wraps_on_overflow() {
    assert_eq!(i32::MIN, get_int_value(&b"2147483648".to_vec(), 10));
    assert_eq!(0, get_int_value(&b"4294967296".to_vec(), 10));
    assert_eq!(i32::MIN, get_int_value(&b"-2147483648".to_vec(), 10));
}

#[test]
fn get_int_prefix_is_what_stands_before_the_number() {
    assert_eq!(b"Prefix ".to_vec(), get_int_prefix(&b"Prefix 12".to_vec(), 10));
    assert_eq!(b"Prefix ".to_vec(), get_int_prefix(&b"Prefix -12".to_vec(), 10));
    assert_eq!(b"Prefix".to_vec(), get_int_prefix(&b"Prefix".to_vec(), 10));
    assert_eq!(b"".to_vec(), get_int_prefix(&b"12".to_vec(), 10));
    assert_eq!(b"Fis".to_vec(), get_int_prefix(&b"Fish".to_vec(), 18));
    assert_eq!(b"a-".to_vec(), get_int_prefix(&b"a--1".to_vec(), 10));
}

#[test]
fn form_cursor_moves_and_stops_at_the_end() {
    let mut f = MintForm::from_string(b"ABCDE");
    assert_eq!(0, f.get_pos());
    assert!(!f.at_end());
    assert_eq!(b"AB".to_vec(), f.get_n(2));
    assert_eq!(2, f.get_pos());
    assert_eq!(b"CDE".to_vec(), f.get());
    assert_eq!(b"".to_vec(), f.get_n(0));
    assert_eq!(b"".to_vec(), f.get_n(-3));
    assert_eq!(2, f.get_pos());
    assert_eq!(b"CDE".to_vec(), f.get_n(10));
    assert!(f.at_end());
    assert_eq!(b"".to_vec(), f.get_n(1));
    f.set_pos(100);
    assert_eq!(5, f.get_pos());
    f.set_pos(1);
    assert_eq!(1, f.get_pos());
    assert_eq!(&b"ABCDE".to_vec(), f.content());
}

#[test]
fn form_clone_keeps_content_and_cursor() {
    let mut f = MintForm::from_string(b"ABC");
    f.set_pos(2);
    let g = f.clone();
    assert_eq!(2, g.get_pos());
    assert_eq!(b"C".to_vec(), g.get());
}

#[test]
fn form_store_keeps_names_sorted_and_unique() {
    let mut s = FormStore::new();
    s.set(b"zz", b"1");
    s.set(b"a", b"2");
    s.set(b"m", b"3");
    s.set(b"a", b"4");
    assert_eq!(3, s.len());
    assert_eq!(b"a,m,zz".to_vec(), s.list(b",", b""));
    assert_eq!(b"4".to_vec(), s.get(b"a").unwrap().get());
    assert_eq!(b"zz".to_vec(), s.list(b"--", b"z"));
    assert_eq!(b"".to_vec(), s.list(b",", b"q"));
    s.remove(b"m");
    s.remove(b"nothing");
    assert_eq!(b"a;zz".to_vec(), s.list(b";", b""));
    assert!(s.get(b"m").is_none());
    assert_eq!(Some(1), s.find(b"zz"));
}

#[test]
fn arg_kinds_that_are_terminal() {
    assert!(ArgType::Null.is_term());
    assert!(ArgType::Active.is_term());
    assert!(ArgType::Neutral.is_term());
    assert!(ArgType::End.is_term());
    assert!(!ArgType::Arg.is_term());
}

#[test]
fn arg_kinds_that_start_a_call() {
    assert!(ArgType::Null.starts_call());
    assert!(ArgType::Active.starts_call());
    assert!(ArgType::Neutral.starts_call());
    assert!(!ArgType::Arg.starts_call());
    assert!(!ArgType::End.starts_call());
    assert!(MintArg::new(ArgType::Neutral).starts_call());
    assert!(MintArg::new(ArgType::End).is_term());
    assert!(!MintArg::new(ArgType::End).starts_call());
}

#[test]
fn arg_list_reads_the_terminator_behind_its_end() {
    let mut al = MintArgList::new();
    assert!(al.is_empty());
    let mut a = MintArg::new(ArgType::Arg);
    a.append(b'x');
    a.append_slice(b"yz 7");
    al.push_front(a);
    al.push_front(MintArg::new(ArgType::Active));
    assert_eq!(2, al.len());
    assert_eq!(ArgType::Active, al.get(0).arg_type());
    assert!(al.get(0).is_term());
    assert!(al.get(0).is_empty());
    assert_eq!(b"xyz 7".to_vec(), *al.get(1).value());
    assert_eq!(7, al.get(1).get_int_value(10));
    assert_eq!(b"xyz ".to_vec(), al.get(1).get_int_prefix(10));
    assert_eq!(Some(b'x'), al.get(1).get_first_char());
    assert_eq!(b"xyz 7".to_vec(), *al[1].value());
    assert_eq!(ArgType::End, al[2].arg_type());
    assert_eq!(ArgType::End, al[usize::MAX].arg_type());
    assert_eq!(ArgType::End, al.get(2).arg_type());
    assert_eq!(ArgType::End, al.get(200).arg_type());
    assert!(al.get(200).value().is_empty());
    assert_eq!(None, al.get(200).get_first_char());
    let t = al.tail(1);
    assert_eq!(1, t.len());
    assert_eq!(b"xyz 7".to_vec(), *t.get(0).value());
    assert_eq!(0, al.tail(5).len());
    assert_eq!(0, MintArgList::default().len());
}
