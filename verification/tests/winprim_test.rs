//! The requests that the window primitives make of a window.

use freemacs::mint_arg::{ArgType, MintArg, MintArgList};
use freemacs::winprim::{
    announcement, bell_request, cursor_target, exit_code, input_timeout, overwrite_texts,
    redisplay_all, Bell,
};

fn call(items: &[&str]) -> MintArgList {
    let mut al = MintArgList::new();
    al.push_front(MintArg::new(ArgType::End));
    for item in items.iter().skip(1).rev() {
        let mut a = MintArg::new(ArgType::Arg);
        a.append_slice(item.as_bytes());
        al.push_front(a);
    }
    let mut head = MintArg::new(ArgType::Active);
    head.append_slice(items[0].as_bytes());
    al.push_front(head);
    al
}

#[test]
fn input_timeout_is_in_hundredths_of_a_second() {
    assert_eq!(100000, input_timeout(&call(&["it", "10000"])));
    assert_eq!(0, input_timeout(&call(&["it"])));
    assert_eq!(70, input_timeout(&call(&["it", "wait 7"])));
    // a negative number wraps as a counter of 32 bits
    assert_eq!(4294967286, input_timeout(&call(&["it", "-1"])));
    assert_eq!(4294967286, input_timeout(&call(&["it", "2147483647"])));
}

#[test]
fn overwrite_takes_every_argument() {
    assert_eq!(
        vec![b"a".to_vec(), b"".to_vec(), b"b c".to_vec()],
        overwrite_texts(&call(&["ow", "a", "", "b c"]))
    );
    assert!(overwrite_texts(&call(&["ow"])).is_empty());
    assert!(overwrite_texts(&MintArgList::new()).is_empty());
}

#[test]
fn announcement_goes_to_the_message_or_the_mode_line() {
    let a = announcement(&call(&["an", "left", "", "right"]));
    assert!(!a.mode_line);
    assert_eq!(b"left".to_vec(), a.left);
    assert_eq!(b"right".to_vec(), a.right);
    let a = announcement(&call(&["an", "left", "x"]));
    assert!(a.mode_line);
    assert_eq!(b"".to_vec(), a.right);
    let a = announcement(&call(&["an"]));
    assert!(!a.mode_line);
    assert!(a.left.is_empty());
}

#[test]
fn cursor_target_reads_column_and_row() {
    assert_eq!((3, 14), cursor_target(&call(&["xy", "3", "14"])));
    assert_eq!((-3, 0), cursor_target(&call(&["xy", "-3"])));
}

#[test]
fn bell_is_audible_or_visual() {
    assert_eq!(Bell::Audible(440, 560), bell_request(&call(&["bl", "440", "10"])));
    assert_eq!(Bell::Audible(0, 0), bell_request(&call(&["bl"])));
    assert_eq!(Bell::Visual(56), bell_request(&call(&["bl", "-1", "1"])));
}

#[test]
fn redisplay_is_forced_by_an_argument() {
    assert!(redisplay_all(&call(&["rd", "x"])));
    assert!(!redisplay_all(&call(&["rd", ""])));
    assert!(!redisplay_all(&call(&["rd"])));
}

#[test]
fn exit_code_defaults_to_zero() {
    assert_eq!(1, exit_code(&call(&["hl", "1"])));
    assert_eq!(0, exit_code(&call(&["hl"])));
    assert_eq!(0, exit_code(&MintArgList::new()));
    assert_eq!(-2, exit_code(&call(&["hl", "code -2"])));
}
