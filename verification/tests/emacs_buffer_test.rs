//! The editing buffer: point, marks, lines, columns, deletion,
//! translation and the scroll anchor.

use freemacs::emacs_buffer::{EmacsBuffer, LineSpan};
use freemacs::gap_buffer::GapBuffer;

fn buffer_with(text: &str) -> EmacsBuffer {
    let mut b = EmacsBuffer::new(1, GapBuffer::with_default_size());
    assert!(b.insert_string(&text.as_bytes().to_vec()));
    b
}

fn text_of(b: &EmacsBuffer) -> String {
    String::from_utf8(b.read(0, b.size())).unwrap()
}

#[test]
fn new_buffer_is_empty_and_unmodified() {
    let b = EmacsBuffer::new(7, GapBuffer::new(16));
    assert_eq!(7, b.get_buf_number());
    assert_eq!(0, b.size());
    assert!(!b.is_modified());
    assert!(!b.is_write_protected());
    assert_eq!(8, b.get_tab_width());
    assert_eq!(0, b.get_left_column());
    assert_eq!(0, b.get_point_line());
    assert_eq!(0, b.count_newlines_total());
    assert_eq!(0, b.get_mark_position(b'.'));
}

#[test]
fn insert_moves_point_and_counts_lines() {
    let mut b = buffer_with("one\ntwo\n");
    assert_eq!(8, b.size());
    assert_eq!(8, b.get_mark_position(b'.'));
    assert_eq!(2, b.get_point_line());
    assert_eq!(2, b.count_newlines_total());
    assert!(b.is_modified());
    b.set_point_to_mark(b'[');
    assert_eq!(0, b.get_point_line());
    assert!(b.insert_string(&b"zero\n".to_vec()));
    assert_eq!("zero\none\ntwo\n", text_of(&b));
    assert_eq!(1, b.get_point_line());
    assert_eq!(3, b.count_newlines_total());
    assert_eq!(b.count_newlines(0, b.size()), b.count_newlines_total());
    assert_eq!(b.count_newlines(0, b.get_mark_position(b'.')), b.get_point_line());
}

#[test]
fn insert_into_write_protected_buffer_fails() {
    let mut b = buffer_with("abc");
    b.set_modified(false);
    b.set_write_protected(true);
    assert!(!b.insert_string(&b"x".to_vec()));
    assert!(!b.delete_to_marks(&b"[".to_vec()));
    assert!(!b.translate(b'[', &b"aA".to_vec()));
    assert_eq!("abc", text_of(&b));
    assert!(!b.is_modified());
    assert!(b.delete_to_marks(&Vec::new()));
}

#[test]
fn marks_behind_point_shift_on_insert() {
    let mut b = buffer_with("0123456789");
    assert!(b.push_temp_marks(3));
    assert!(b.set_mark_position(b'0', 2));
    assert!(b.set_mark_position(b'1', 5));
    assert!(b.set_mark_position(b'2', 8));
    b.set_point_to_mark(b'1');
    assert!(b.insert_string(&b"abc".to_vec()));
    // a mark at point stays, one before it stays, one behind it moves
    assert_eq!(2, b.get_mark_position(b'0'));
    assert_eq!(5, b.get_mark_position(b'1'));
    assert_eq!(11, b.get_mark_position(b'2'));
    assert_eq!(8, b.get_mark_position(b'.'));
}

#[test]
fn marks_behind_point_shift_on_delete() {
    let mut b = buffer_with("0123456789");
    assert!(b.push_temp_marks(4));
    assert!(b.set_mark_position(b'0', 1));
    assert!(b.set_mark_position(b'1', 4));
    assert!(b.set_mark_position(b'2', 9));
    assert!(b.set_mark_position(b'3', 6));
    b.set_point_to_mark(b'[');
    b.set_point_to_marks(&b">>".to_vec());
    // delete [2, 6): point is 2, mark 3 stands at 6
    assert!(b.delete_to_marks(&b"3".to_vec()));
    assert_eq!("016789", text_of(&b));
    assert_eq!(2, b.get_mark_position(b'.'));
    assert_eq!(1, b.get_mark_position(b'0'));
    assert_eq!(2, b.get_mark_position(b'1'));
    assert_eq!(5, b.get_mark_position(b'2'));
    assert_eq!(2, b.get_mark_position(b'3'));
}

#[test]
fn delete_before_point_keeps_line_of_point() {
    let mut b = buffer_with("a\nb\nc\nd");
    assert_eq!(3, b.get_point_line());
    b.set_point_to_marks(&b"[>>>>".to_vec());
    assert_eq!(4, b.get_mark_position(b'.'));
    assert_eq!(2, b.get_point_line());
    assert!(b.delete_to_marks(&b"[".to_vec()));
    assert_eq!("c\nd", text_of(&b));
    assert_eq!(0, b.get_point_line());
    assert_eq!(1, b.count_newlines_total());
    assert!(b.delete_to_marks(&b"]".to_vec()));
    assert_eq!("", text_of(&b));
    assert_eq!(0, b.count_newlines_total());
}

#[test]
fn symbolic_marks_resolve_from_point() {
    let mut b = buffer_with("ab cd\nef  gh\nij");
    b.set_point_to_marks(&b"[>>>>>>>>".to_vec());
    assert_eq!(8, b.get_mark_position(b'.'));
    assert_eq!(0, b.get_mark_position(b'['));
    assert_eq!(15, b.get_mark_position(b']'));
    assert_eq!(0, b.get_mark_position(b'!'));
    assert_eq!(7, b.get_mark_position(b'<'));
    assert_eq!(9, b.get_mark_position(b'>'));
    assert_eq!(6, b.get_mark_position(b'^'));
    assert_eq!(12, b.get_mark_position(b'$'));
    assert_eq!(5, b.get_mark_position(b'-'));
    assert_eq!(8, b.get_mark_position(b'+'));
    assert_eq!(7, b.get_mark_position(b'{'));
    assert_eq!(10, b.get_mark_position(b'}'));
    // no mark at all: the place looked from
    assert_eq!(8, b.get_mark_position(b'*'));
    assert_eq!(3, b.get_mark_position_from(b'*', 3));
    // a temporary mark outside the window in use: the place looked from
    assert_eq!(8, b.get_mark_position(b'0'));
    // the one permanent mark
    assert_eq!(0, b.get_mark_position(b'@'));
    assert_eq!(8, b.get_mark_position(b'A'));
    assert_eq!(0, b.get_mark_position_from(b'<', 0));
    assert_eq!(15, b.get_mark_position_from(b'>', 15));
    assert_eq!(0, b.get_mark_position_from(b'^', 3));
    assert_eq!(15, b.get_mark_position_from(b'$', 13));
}

#[test]
fn set_mark_clamps_to_the_size() {
    let mut b = buffer_with("abc");
    assert!(b.set_mark_position(b'@', 100));
    assert_eq!(3, b.get_mark_position(b'@'));
    assert!(!b.set_mark_position(b'0', 1));
    assert!(!b.set_mark_position(b'.', 1));
    b.set_point_to_mark(b'[');
    assert!(b.set_mark(b'@', b'>'));
    assert_eq!(1, b.get_mark_position(b'@'));
    assert!(!b.set_mark(b'5', b'>'));
}

#[test]
fn mark_windows_push_and_pop() {
    let mut b = buffer_with("abcdef");
    assert!(!b.pop_temp_marks());
    assert!(b.push_temp_marks(10));
    assert!(b.push_temp_marks(10));
    assert!(b.push_temp_marks(10));
    assert!(b.push_temp_marks(10));
    // 1 + 40 marks are in use: 10 more do not fit, 9 do
    assert!(!b.push_temp_marks(10));
    assert!(b.push_temp_marks(9));
    assert!(!b.push_temp_marks(1));
    assert!(b.pop_temp_marks());
    assert!(b.set_mark_position(b'3', 2));
    assert_eq!(2, b.get_mark_position(b'3'));
    assert!(b.pop_temp_marks());
    assert!(b.pop_temp_marks());
    assert!(b.pop_temp_marks());
    assert!(b.pop_temp_marks());
    assert!(!b.pop_temp_marks());
    assert!(!b.push_temp_marks(1000));
    // new marks stand at point
    assert!(b.push_temp_marks(2));
    assert_eq!(6, b.get_mark_position_from(b'1', 0));
}

#[test]
fn permanent_marks_are_bounded() {
    let mut b = buffer_with("abcdef");
    assert!(b.push_temp_marks(3));
    assert!(!b.create_perm_marks(28));
    assert!(b.create_perm_marks(27));
    assert!(!b.pop_temp_marks());
    assert!(b.set_mark_position(b'Z', 4));
    assert_eq!(4, b.get_mark_position(b'Z'));
    assert!(b.create_perm_marks(0));
    assert!(!b.set_mark_position(b'@', 4));
}

#[test]
fn read_and_count_between_point_and_mark() {
    let mut b = buffer_with("hello world");
    b.set_point_to_marks(&b"[>>>>>".to_vec());
    assert_eq!(b"hello".to_vec(), b.read_to_mark(b'['));
    assert_eq!(b" world".to_vec(), b.read_to_mark(b']'));
    assert_eq!(b"".to_vec(), b.read_to_mark(b'.'));
    assert_eq!(b"world".to_vec(), b.read_to_mark_from(b']', 6));
    assert_eq!(b"lo w".to_vec(), b.read(7, 3));
    assert_eq!(b"rld".to_vec(), b.read(8, 100));
    assert_eq!(5, b.chars_to_mark(b'['));
    assert_eq!(6, b.chars_to_mark(b']'));
    assert!(b.mark_before_point(b'['));
    assert!(!b.mark_before_point(b']'));
    assert!(!b.mark_before_point(b'.'));
}

#[test]
fn translate_maps_the_first_half_to_the_second() {
    let mut b = buffer_with("abcabc");
    b.set_modified(false);
    assert!(b.translate(b'[', &b"abAB".to_vec()));
    assert_eq!("ABcABc", text_of(&b));
    assert!(b.is_modified());
    b.set_modified(false);
    assert!(!b.translate(b'[', &b"xyXY".to_vec()));
    assert!(!b.is_modified());
    assert!(!b.translate(b'[', &b"a".to_vec()));
    // an odd length: the second half is the longer one
    assert!(b.translate(b'[', &b"cXY".to_vec()));
    assert_eq!("ABXABX", text_of(&b));
    // nothing between point and itself
    assert!(!b.translate(b'.', &b"AB".to_vec()));
}

#[test]
fn char_width_and_columns() {
    let mut b = buffer_with("a\tbc\x01d\x7fe\n\tx");
    assert_eq!(1, b.char_width(0, b'a'));
    assert_eq!(8, b.char_width(0, b'\t'));
    assert_eq!(5, b.char_width(3, b'\t'));
    assert_eq!(1, b.char_width(7, b'\t'));
    assert_eq!(2, b.char_width(0, 1));
    assert_eq!(2, b.char_width(0, 127));
    assert_eq!(2, b.char_width(0, 200));
    assert_eq!(1, b.char_width(0, b' '));
    assert_eq!(1, b.char_width(0, b'~'));
    // a, tab to 8, b, c, ^A (2), d, 0x7f (2), e
    assert_eq!(16, b.count_columns(0, 8));
    // and the line feed, a control byte, two more
    assert_eq!(18, b.count_columns(0, 9));
    assert_eq!(0, b.count_columns(5, 5));
    assert_eq!(9, b.get_column());
    b.set_tab_width(4);
    assert_eq!(5, b.get_column());
    b.set_point_to_mark(b'[');
    assert_eq!(0, b.get_column());
    b.set_column(3);
    assert_eq!(2, b.get_mark_position(b'.'));
    b.set_column(100);
    assert_eq!(8, b.get_mark_position(b'.'));
    b.set_column(0);
    assert_eq!(0, b.get_mark_position(b'.'));
}

#[test]
fn set_point_line_walks_whole_lines() {
    let mut b = buffer_with("l0\nl1\nl2\nl3");
    b.set_point_to_mark(b'[');
    b.set_point_line(2);
    assert_eq!(6, b.get_mark_position(b'.'));
    assert_eq!(2, b.get_point_line());
    b.set_point_line(0);
    assert_eq!(0, b.get_mark_position(b'.'));
    b.set_point_line(3);
    assert_eq!(9, b.get_mark_position(b'.'));
    assert_eq!(3, b.count_newlines(0, 9));
}

#[test]
fn force_point_in_window_scrolls_by_lines() {
    let mut text = String::new();
    for i in 0..100 {
        text.push_str(&format!("line {}\n", i));
    }
    let mut b = buffer_with(&text);
    // point on the last line: the window shows the last rows
    b.force_point_in_window(10, 80, 10, 10);
    assert_eq!(91, b.count_newlines(0, b.get_mark_position(b'!')));
    assert_eq!(9, b.get_point_row());
    // point on the first line: the window shows the start
    b.set_point_to_mark(b'[');
    b.force_point_in_window(10, 80, 10, 10);
    assert_eq!(0, b.get_mark_position(b'!'));
    assert_eq!(0, b.get_point_row());
    // point in the middle, below the window: the window follows
    b.set_point_line(50);
    b.force_point_in_window(10, 80, 10, 10);
    assert_eq!(41, b.count_newlines(0, b.get_mark_position(b'!')));
    assert_eq!(9, b.get_point_row());
    // point in the window: nothing moves
    b.set_point_line(45);
    b.force_point_in_window(10, 80, 10, 10);
    assert_eq!(41, b.count_newlines(0, b.get_mark_position(b'!')));
    // point above the window: the window follows
    b.set_point_line(30);
    b.force_point_in_window(10, 80, 10, 10);
    assert_eq!(29, b.count_newlines(0, b.get_mark_position(b'!')));
    assert_eq!(1, b.get_point_row());
}

#[test]
fn set_point_row_anchors_above_point() {
    let mut b = buffer_with("l0\nl1\nl2\nl3\nl4");
    b.set_point_row(2);
    assert_eq!(6, b.get_mark_position(b'!'));
    b.set_point_row(10);
    assert_eq!(0, b.get_mark_position(b'!'));
}

#[test]
fn window_rows_follow_the_lines() {
    let mut b = buffer_with("l0\nl1\n\nlast");
    assert_eq!(
        vec![
            LineSpan { bol: 0, eol: 2 },
            LineSpan { bol: 3, eol: 5 },
            LineSpan { bol: 6, eol: 6 },
            LineSpan { bol: 7, eol: 11 },
            LineSpan { bol: 11, eol: 11 },
        ],
        b.window_rows(5)
    );
    assert_eq!(0, b.window_rows(0).len());
    assert_eq!((3, 4), b.screen_cursor());
    b.set_point_row(1);
    assert_eq!(LineSpan { bol: 6, eol: 6 }, b.window_rows(1)[0]);
    assert_eq!((1, 4), b.screen_cursor());
}

#[test]
fn line_counters_stay_in_step_with_the_text() {
    let mut b = EmacsBuffer::new(1, GapBuffer::new(4));
    let mut seed: u64 = 7;
    let mut next = |below: u32| {
        seed = seed.wrapping_mul(6364136223846793005).wrapping_add(1442695040888963407);
        ((seed >> 33) as u32) % below
    };
    assert!(b.push_temp_marks(3));
    for _ in 0..600 {
        match next(5) {
            0 | 1 => {
                let piece: Vec<u8> =
                    (0..next(6)).map(|_| if next(3) == 0 { b'\n' } else { b'x' }).collect();
                assert!(b.insert_string(&piece));
            }
            2 => {
                let mark = [b'[', b']', b'<', b'>', b'^', b'$', b'0', b'1'][next(8) as usize];
                assert!(b.delete_to_marks(&vec![mark]));
            }
            3 => {
                let mark = [b'[', b']', b'<', b'>', b'^', b'$', b'-', b'+'][next(8) as usize];
                b.set_point_to_mark(mark);
            }
            _ => {
                let mark = [b'0', b'1', b'2', b'@'][next(4) as usize];
                let at = next(b.size() + 2);
                assert!(b.set_mark_position(mark, at));
                b.set_column(next(4));
            }
        }
        let point = b.get_mark_position(b'.');
        assert_eq!(b.count_newlines(0, point), b.get_point_line());
        assert_eq!(b.count_newlines(0, b.size()), b.count_newlines_total());
        for mark in [b'0', b'1', b'2', b'@', b'!'] {
            assert!(b.get_mark_position(mark) <= b.size());
        }
    }
}

#[test]
fn a_mark_that_was_set_reads_back() {
    let mut b = buffer_with("abc");
    assert!(b.push_temp_marks(20));
    // `@` is a permanent mark, however many temporary marks there are
    assert!(b.set_mark_position(b'@', 2));
    assert_eq!(2, b.get_mark_position(b'@'));
    for mark in b'0'..=b'9' {
        let position = (mark - b'0') as u32;
        assert!(b.set_mark_position(mark, position));
        assert_eq!(position.min(3), b.get_mark_position(mark));
        assert_eq!(position.min(3), b.get_mark_position_from(mark, 1));
    }
    assert_eq!(2, b.get_mark_position(b'@'));
}

#[test]
fn only_mark_characters_name_a_slot() {
    let mut b = buffer_with("abc");
    assert!(b.push_temp_marks(20));
    assert!(b.create_perm_marks(27));
    assert!(b.push_temp_marks(20));
    assert!(b.set_mark_position(b'9', 1));
    assert!(b.set_mark_position(b'Z', 1));
    // behind `9` and behind `Z` there is no mark
    for mark in [b':', b';', b'=', b'?', b'[', b'\\', b']', b'_', b'a', b'z', 0xffu8] {
        assert!(!b.set_mark_position(mark, 2));
        assert!(!b.set_mark(mark, b'['));
    }
    for mark in b'0'..=b'9' {
        assert!(b.get_mark_position(mark) <= 3);
        assert_ne!(2, b.get_mark_position(mark));
    }
    for mark in b'@'..=b'Z' {
        assert_ne!(2, b.get_mark_position(mark));
    }
}
