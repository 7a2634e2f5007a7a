//! The registry of buffers and the search pattern that they share.

use freemacs::emacs_buffers::EmacsBuffers;
use freemacs::search::SearchPattern;

fn registry_with(text: &str) -> EmacsBuffers {
    let mut r = EmacsBuffers::new();
    assert!(r.cur_buffer_mut().insert_string(&text.as_bytes().to_vec()));
    assert!(r.cur_buffer_mut().push_temp_marks(2));
    r
}

#[test]
fn buffers_are_numbered_from_one() {
    let mut r = EmacsBuffers::new();
    assert_eq!(1, r.get_cur_buffer().get_buf_number());
    assert_eq!(2, r.new_buffer());
    assert_eq!(2, r.get_cur_buffer().get_buf_number());
    assert_eq!(3, r.new_buffer());
    assert!(r.select_buffer(1));
    assert_eq!(1, r.get_cur_buffer().get_buf_number());
    assert!(!r.select_buffer(0));
    assert!(!r.select_buffer(4));
    assert_eq!(1, r.get_cur_buffer().get_buf_number());
    assert!(r.select_buffer(3));
    assert_eq!(3, r.get_cur_buffer().get_buf_number());
}

#[test]
fn buffers_keep_their_own_text() {
    let mut r = registry_with("first");
    r.new_buffer();
    assert_eq!(0, r.get_cur_buffer().size());
    assert!(r.cur_buffer_mut().insert_string(&b"second".to_vec()));
    assert!(r.select_buffer(1));
    assert_eq!(b"first".to_vec(), r.get_cur_buffer().read(0, 100));
    assert!(r.select_buffer(2));
    assert_eq!(b"second".to_vec(), r.get_cur_buffer().read(0, 100));
}

#[test]
fn search_without_a_pattern_finds_point() {
    let mut r = registry_with("0123456789");
    r.cur_buffer_mut().set_point_to_marks(&b"[>>>".to_vec());
    assert!(r.search(b'[', b']', b'0', b'1'));
    assert_eq!(3, r.get_cur_buffer().get_mark_position(b'0'));
    assert_eq!(3, r.get_cur_buffer().get_mark_position(b'1'));
}

#[test]
fn search_forward_finds_the_first_match() {
    let mut r = registry_with("abc abc abc");
    assert!(r.set_search_string(&b"abc".to_vec(), false));
    assert!(r.search(b'[', b']', b'0', b'1'));
    assert_eq!(0, r.get_cur_buffer().get_mark_position(b'0'));
    assert_eq!(3, r.get_cur_buffer().get_mark_position(b'1'));
}

#[test]
fn search_backward_finds_the_last_match() {
    let mut r = registry_with("abc abc abc");
    assert!(r.set_search_string(&b"abc".to_vec(), false));
    assert!(r.search(b']', b'[', b'0', b'1'));
    assert_eq!(8, r.get_cur_buffer().get_mark_position(b'0'));
    assert_eq!(11, r.get_cur_buffer().get_mark_position(b'1'));
}

#[test]
fn search_leaves_marks_alone_without_a_match() {
    let mut r = registry_with("abc abc abc");
    assert!(r.cur_buffer_mut().set_mark_position(b'0', 5));
    assert!(r.set_search_string(&b"xyz".to_vec(), false));
    assert!(!r.search(b'[', b']', b'0', b'1'));
    assert_eq!(5, r.get_cur_buffer().get_mark_position(b'0'));
    assert!(!r.search(b']', b'[', b'0', b'1'));
}

#[test]
fn search_skips_the_marks_named_by_zero() {
    let mut r = registry_with("abc abc abc");
    assert!(r.cur_buffer_mut().set_mark_position(b'0', 5));
    assert!(r.cur_buffer_mut().set_mark_position(b'1', 6));
    assert!(r.set_search_string(&b"abc".to_vec(), false));
    assert!(r.search(b'[', b']', 0, b'1'));
    assert_eq!(5, r.get_cur_buffer().get_mark_position(b'0'));
    assert_eq!(3, r.get_cur_buffer().get_mark_position(b'1'));
    assert!(r.search(b']', b'[', b'0', 0));
    assert_eq!(8, r.get_cur_buffer().get_mark_position(b'0'));
    assert_eq!(3, r.get_cur_buffer().get_mark_position(b'1'));
}

#[test]
fn plain_search_string_is_taken_literally() {
    let mut r = registry_with("abc a.c");
    assert!(r.set_search_string(&b"a.c".to_vec(), false));
    assert!(r.search(b'[', b']', b'0', b'1'));
    assert_eq!(4, r.get_cur_buffer().get_mark_position(b'0'));
    assert_eq!(7, r.get_cur_buffer().get_mark_position(b'1'));
    assert!(r.set_search_string(&b"(".to_vec(), false));
    assert!(!r.search(b'[', b']', b'0', b'1'));
}

#[test]
fn regex_search_uses_the_engine() {
    let mut r = registry_with("abc a.c\nxyz");
    assert!(r.set_search_regex(&b"a.c".to_vec(), false));
    assert!(r.search(b'[', b']', b'0', b'1'));
    assert_eq!(0, r.get_cur_buffer().get_mark_position(b'0'));
    // multi-line: ^ anchors behind a line feed
    assert!(r.set_search_regex(&b"^x".to_vec(), false));
    assert!(r.search(b'[', b']', b'0', b'1'));
    assert_eq!(8, r.get_cur_buffer().get_mark_position(b'0'));
    assert_eq!(9, r.get_cur_buffer().get_mark_position(b'1'));
}

#[test]
fn invalid_regex_is_refused_and_unsets_the_pattern() {
    let mut r = registry_with("abc");
    assert!(r.set_search_regex(&b"abc".to_vec(), false));
    assert!(!r.set_search_regex(&b"(".to_vec(), false));
    // no pattern: the search finds point
    r.cur_buffer_mut().set_point_to_mark(b'[');
    assert!(r.search(b'[', b']', b'0', b'1'));
    assert_eq!(0, r.get_cur_buffer().get_mark_position(b'1'));
}

#[test]
fn empty_pattern_unsets_the_search() {
    let mut r = registry_with("abc");
    assert!(r.set_search_string(&b"zzz".to_vec(), false));
    assert!(!r.search(b'[', b']', 0, 0));
    assert!(r.set_search_string(&Vec::new(), false));
    assert!(r.search(b'[', b']', 0, 0));
    assert!(r.set_search_regex(&b"zzz".to_vec(), false));
    assert!(!r.search(b'[', b']', 0, 0));
    assert!(r.set_search_regex(&Vec::new(), true));
    assert!(r.search(b'[', b']', 0, 0));
}

#[test]
fn case_folding_matches_either_case() {
    let mut r = registry_with("Hello");
    assert!(r.set_search_string(&b"hello".to_vec(), false));
    assert!(!r.search(b'[', b']', b'0', b'1'));
    assert!(r.set_search_string(&b"hello".to_vec(), true));
    assert!(r.search(b'[', b']', b'0', b'1'));
    assert!(r.set_search_regex(&b"h.LLO".to_vec(), true));
    assert!(r.search(b'[', b']', b'0', b'1'));
}

#[test]
fn pattern_finds_first_and_last() {
    let p = SearchPattern::regex(b"[0-9]+", false).unwrap();
    assert_eq!(Some((1, 3)), p.first_in(b"a12b345c"));
    assert_eq!(Some((4, 7)), p.last_in(b"a12b345c"));
    assert_eq!(None, p.first_in(b"abc"));
    assert_eq!(None, p.last_in(b""));
    let q = SearchPattern::literal(b"[0-9]+", false).unwrap();
    assert_eq!(None, q.first_in(b"a12b345c"));
    assert_eq!(Some((1, 7)), q.first_in(b"x[0-9]+"));
    assert!(SearchPattern::regex(b"[", false).is_none());
}

#[test]
fn gap_spanning_search_from_the_registry() {
    let mut r = EmacsBuffers::new();
    assert!(r.cur_buffer_mut().insert_string(&b"0123456789".to_vec()));
    r.cur_buffer_mut().set_point_to_marks(&b"[>>>>>".to_vec());
    assert!(r.cur_buffer_mut().insert_string(&b"ABCDEFGHIJ".to_vec()));
    assert!(r.cur_buffer_mut().push_temp_marks(2));
    assert!(r.set_search_string(&b"34AB".to_vec(), false));
    assert!(r.search(b'[', b']', b'0', b'1'));
    assert_eq!(3, r.get_cur_buffer().get_mark_position(b'0'));
    assert_eq!(7, r.get_cur_buffer().get_mark_position(b'1'));
    assert!(r.search(b']', b'[', b'1', b'0'));
    assert_eq!(7, r.get_cur_buffer().get_mark_position(b'0'));
    assert_eq!(3, r.get_cur_buffer().get_mark_position(b'1'));
}

#[test]
fn search_string_that_is_no_text_stands_for_the_replacement_character() {
    let mut r = EmacsBuffers::new();
    assert!(r.cur_buffer_mut().insert_string(&b"a\xffb\xef\xbf\xbdc".to_vec()));
    assert!(r.cur_buffer_mut().push_temp_marks(2));
    assert!(r.set_search_string(&b"\xff".to_vec(), false));
    assert!(r.search(b'[', b']', b'0', b'1'));
    assert_eq!(3, r.get_cur_buffer().get_mark_position(b'0'));
    assert_eq!(6, r.get_cur_buffer().get_mark_position(b'1'));
}
