//! The gap buffer: construction, insertion, erasure, replacement, and
//! search in ranges on either side of the gap and across it.

use freemacs::gap_buffer::{GapBuffer, Span};
use freemacs::search::{last_of, SearchPattern};

fn to_ms(s: &str) -> Vec<u8> {
    s.bytes().collect()
}

fn to_string(buf: &GapBuffer) -> String {
    let mut ms: Vec<u8> = Vec::new();
    for i in 0..buf.size() {
        ms.push(buf.get(i).unwrap());
    }
    String::from_utf8(ms).unwrap()
}

#[test]
fn gap_buffer_basic_construction() {
    let gb = GapBuffer::with_default_size();
    assert_eq!(65536, gb.allocated());
    assert_eq!(65536, gb.free());
    assert_eq!(0, gb.size());
}

#[test]
fn gap_buffer_basic_insert() {
    let mut gb = GapBuffer::with_default_size();
    assert!(gb.insert(0, &to_ms("0123456789")));
    assert_eq!(65536, gb.allocated());
    assert_eq!(65526, gb.free());
    assert_eq!(10, gb.size());
    assert_eq!("0123456789", to_string(&gb));
}

#[test]
fn gap_buffer_basic_erase() {
    let mut gb = GapBuffer::with_default_size();
    assert!(gb.insert(0, &to_ms("0123456789")));
    assert!(gb.erase(0, 1));
    assert_eq!(65536, gb.allocated());
    assert_eq!(65527, gb.free());
    assert_eq!(9, gb.size());
    assert_eq!("123456789", to_string(&gb));
}

#[test]
fn gap_buffer_erase_nonexistent_returns_false() {
    let mut gb = GapBuffer::with_default_size();
    assert!(!gb.erase(0, 1));
}

#[test]
fn gap_buffer_insert_at_end() {
    let mut gb = GapBuffer::with_default_size();
    assert!(gb.insert(0, &to_ms("0123456789")));
    assert!(gb.insert(10, &to_ms("ABCDEFGHIJ")));
    assert_eq!(65536, gb.allocated());
    assert_eq!(65516, gb.free());
    assert_eq!(20, gb.size());
    assert_eq!("0123456789ABCDEFGHIJ", to_string(&gb));
}

#[test]
fn gap_buffer_insert_at_begin() {
    let mut gb = GapBuffer::with_default_size();
    assert!(gb.insert(0, &to_ms("0123456789")));
    assert!(gb.insert(0, &to_ms("ABCDEFGHIJ")));
    assert_eq!(65536, gb.allocated());
    assert_eq!(65516, gb.free());
    assert_eq!(20, gb.size());
    assert_eq!("ABCDEFGHIJ0123456789", to_string(&gb));
}

#[test]
fn gap_buffer_insert_in_middle() {
    let mut gb = GapBuffer::with_default_size();
    assert!(gb.insert(0, &to_ms("0123456789")));
    assert!(gb.insert(5, &to_ms("ABCDEFGHIJ")));
    assert_eq!(65536, gb.allocated());
    assert_eq!(65516, gb.free());
    assert_eq!(20, gb.size());
    assert_eq!("01234ABCDEFGHIJ56789", to_string(&gb));
}

#[test]
fn gap_buffer_insert_off_end() {
    let mut gb = GapBuffer::with_default_size();
    assert!(gb.insert(0, &to_ms("0123456789")));
    assert!(!gb.insert(20, &to_ms("ABCDEFGHIJ")));
    assert_eq!(65536, gb.allocated());
    assert_eq!(65526, gb.free());
    assert_eq!(10, gb.size());
    assert_eq!("0123456789", to_string(&gb));
}

#[test]
fn gap_buffer_insert_move_forward() {
    let mut gb = GapBuffer::with_default_size();
    assert!(gb.insert(0, &to_ms("56789")));
    assert!(gb.insert(0, &to_ms("01234")));
    assert!(gb.insert(10, &to_ms("ABCDEFGHIJ")));
    assert_eq!(65536, gb.allocated());
    assert_eq!(65516, gb.free());
    assert_eq!(20, gb.size());
    assert_eq!("0123456789ABCDEFGHIJ", to_string(&gb));
}

#[test]
fn gap_buffer_insert_resize() {
    let mut gb = GapBuffer::new(5);
    assert_eq!(5, gb.allocated());
    assert_eq!(5, gb.free());
    assert_eq!(0, gb.size());
    assert!(gb.insert(0, &to_ms("0123456789")));
    assert_eq!(65541, gb.allocated());
    assert_eq!(65531, gb.free());
    assert_eq!(10, gb.size());
    assert_eq!("0123456789", to_string(&gb));
}

#[test]
fn gap_buffer_get_nonexistent_returns_none() {
    let gb = GapBuffer::with_default_size();
    assert_eq!(None, gb.get(0));
}

#[test]
fn gap_buffer_replace_basic() {
    let mut gb = GapBuffer::with_default_size();
    assert!(gb.insert(0, &to_ms("0123456789")));
    assert!(gb.replace(0, 5, &to_ms("ABCDE")));
    assert_eq!(65536, gb.allocated());
    assert_eq!(65526, gb.free());
    assert_eq!(10, gb.size());
    assert_eq!("ABCDE56789", to_string(&gb));
}

#[test]
fn gap_buffer_replace_shorter() {
    let mut gb = GapBuffer::with_default_size();
    assert!(gb.insert(0, &to_ms("0123456789")));
    assert!(gb.replace(0, 5, &to_ms("A")));
    assert_eq!(65536, gb.allocated());
    assert_eq!(65530, gb.free());
    assert_eq!(6, gb.size());
    assert_eq!("A56789", to_string(&gb));
}

#[test]
fn gap_buffer_replace_longer() {
    let mut gb = GapBuffer::with_default_size();
    assert!(gb.insert(0, &to_ms("0123456789")));
    assert!(gb.replace(0, 5, &to_ms("ABCDEFG")));
    assert_eq!(65536, gb.allocated());
    assert_eq!(65524, gb.free());
    assert_eq!(12, gb.size());
    assert_eq!("ABCDEFG56789", to_string(&gb));
}

#[test]
fn gap_buffer_replace_off_end_fails() {
    let mut gb = GapBuffer::with_default_size();
    assert!(!gb.replace(5, 5, &to_ms("ABCDE")));
}

#[test]
fn gap_buffer_find_forward_basic() {
    let mut gb = GapBuffer::with_default_size();
    assert!(gb.insert(0, &to_ms("01234567890123456789")));
    let re = SearchPattern::regex(b"345", false).unwrap();
    let result = gb.find_forward(&re, 0, gb.size());
    assert_eq!(Some((3, 6)), result);
}

#[test]
fn gap_buffer_find_backward_basic() {
    let mut gb = GapBuffer::with_default_size();
    assert!(gb.insert(0, &to_ms("01234567890123456789")));
    let re = SearchPattern::regex(b"345", false).unwrap();
    let result = gb.find_backward(&re, 0, gb.size());
    assert_eq!(Some((13, 16)), result);
}

#[test]
fn gap_buffer_find_forward_no_match() {
    let mut gb = GapBuffer::with_default_size();
    assert!(gb.insert(0, &to_ms("01234567890123456789")));
    let re = SearchPattern::regex(b"XYZ", false).unwrap();
    let result = gb.find_forward(&re, 0, gb.size());
    assert_eq!(None, result);
}

#[test]
fn gap_buffer_find_backward_no_match() {
    let mut gb = GapBuffer::with_default_size();
    assert!(gb.insert(0, &to_ms("01234567890123456789")));
    let re = SearchPattern::regex(b"XYZ", false).unwrap();
    let result = gb.find_backward(&re, 0, gb.size());
    assert_eq!(None, result);
}

#[test]
fn gap_buffer_find_forward_partial_range() {
    let mut gb = GapBuffer::with_default_size();
    assert!(gb.insert(0, &to_ms("01234567890123456789")));
    let re = SearchPattern::regex(b"345", false).unwrap();
    let result = gb.find_forward(&re, 5, gb.size());
    assert_eq!(Some((13, 16)), result);
}

#[test]
fn gap_buffer_find_backward_partial_range() {
    let mut gb = GapBuffer::with_default_size();
    assert!(gb.insert(0, &to_ms("01234567890123456789")));
    let re = SearchPattern::regex(b"345", false).unwrap();
    let result = gb.find_backward(&re, 0, 15);
    assert_eq!(Some((3, 6)), result);
}

#[test]
fn gap_buffer_find_forward_empty_range() {
    let mut gb = GapBuffer::with_default_size();
    assert!(gb.insert(0, &to_ms("01234567890123456789")));
    let re = SearchPattern::regex(b"345", false).unwrap();
    let result = gb.find_forward(&re, 5, 5);
    assert_eq!(None, result);
}

#[test]
fn gap_buffer_find_backward_empty_range() {
    let mut gb = GapBuffer::with_default_size();
    assert!(gb.insert(0, &to_ms("01234567890123456789")));
    let re = SearchPattern::regex(b"345", false).unwrap();
    let result = gb.find_backward(&re, 5, 5);
    assert_eq!(None, result);
}

#[test]
fn gap_buffer_find_forward_across_gap() {
    let mut gb = GapBuffer::with_default_size();
    assert!(gb.insert(0, &to_ms("0123456789")));
    assert!(gb.insert(5, &to_ms("ABCDEFGHIJ")));
    let re = SearchPattern::regex(b"34AB", false).unwrap();
    let result = gb.find_forward(&re, 0, gb.size());
    assert_eq!(Some((3, 7)), result);
}

#[test]
fn gap_buffer_find_backward_across_gap() {
    let mut gb = GapBuffer::with_default_size();
    assert!(gb.insert(0, &to_ms("0123456789")));
    assert!(gb.insert(5, &to_ms("ABCDEFGHIJ")));
    let re = SearchPattern::regex(b"34AB", false).unwrap();
    let result = gb.find_backward(&re, 0, gb.size());
    assert_eq!(Some((3, 7)), result);
}

#[test]
fn gap_buffer_find_forward_bottom_only() {
    let mut gb = GapBuffer::with_default_size();
    assert!(gb.insert(0, &to_ms("0123456789")));
    assert!(gb.insert(0, &to_ms("A")));
    let re = SearchPattern::regex(b"89", false).unwrap();
    let result = gb.find_forward(&re, 1, gb.size());
    assert_eq!(Some((9, 11)), result);
}

/// A small generator of numbers, the same on every run.
struct Numbers(u64);

impl Numbers {
    fn next(&mut self, below: u32) -> u32 {
        self.0 = self.0.wrapping_mul(6364136223846793005).wrapping_add(1442695040888963407);
        ((self.0 >> 33) as u32) % below.max(1)
    }
}

#[test]
fn gap_buffer_follows_a_plain_model() {
    let mut numbers = Numbers(42);
    let mut gb = GapBuffer::new(3);
    let mut model: Vec<u8> = Vec::new();
    for step in 0..2000u32 {
        let len = model.len() as u32;
        let text: Vec<u8> =
            (0..numbers.next(9)).map(|k| b'a' + ((step + k) % 26) as u8).collect();
        match numbers.next(4) {
            0 | 1 => {
                let at = numbers.next(len + 3);
                let ok = gb.insert(at, &text);
                assert_eq!(at <= len, ok);
                if ok {
                    model.splice(at as usize..at as usize, text.iter().copied());
                }
            }
            2 => {
                let at = numbers.next(len + 2);
                let n = numbers.next(6);
                let ok = gb.erase(at, n);
                assert_eq!(at + n <= len, ok);
                if ok {
                    model.drain(at as usize..(at + n) as usize);
                }
            }
            _ => {
                let at = numbers.next(len + 2);
                let n = numbers.next(6);
                let ok = gb.replace(at, n, &text);
                assert_eq!(at + n <= len, ok);
                if ok {
                    model.splice(at as usize..(at + n) as usize, text.iter().copied());
                }
            }
        }
        assert_eq!(model.len() as u32, gb.size());
        assert_eq!(gb.allocated() - gb.free(), gb.size());
    }
    assert_eq!(String::from_utf8(model.clone()).unwrap(), to_string(&gb));
    assert_eq!(None, gb.get(model.len() as u32));
}

#[test]
fn gap_buffer_search_agrees_with_a_search_of_the_plain_text() {
    let text = b"one two three two one two";
    let pattern = SearchPattern::regex(b"t[a-z]+", false).unwrap();
    // the same text with the gap at every place
    for gap_at in 0..=text.len() as u32 {
        let mut gb = GapBuffer::new(64);
        assert!(gb.insert(0, &text.to_vec()));
        assert!(gb.insert(gap_at, &Vec::new()));
        for start in 0..=text.len() as u32 {
            for end in 0..=text.len() as u32 + 2 {
                let hi = (end as usize).min(text.len());
                let window: &[u8] = if (start as usize) < hi {
                    &text[start as usize..hi]
                } else {
                    &[]
                };
                let first = pattern.first_in(window).map(|(s, e)| (start + s as u32, start + e as u32));
                let last = pattern.last_in(window).map(|(s, e)| (start + s as u32, start + e as u32));
                assert_eq!(first, gb.find_forward(&pattern, start, end));
                assert_eq!(last, gb.find_backward(&pattern, start, end));
            }
        }
    }
}

#[test]
fn gap_buffer_slice_is_the_text_of_the_range() {
    let mut gb = GapBuffer::new(8);
    assert!(gb.insert(0, &to_ms("0123456789")));
    assert!(gb.insert(5, &to_ms("AB")));
    assert_eq!(b"0123".to_vec(), gb.slice(0, 4).as_slice().to_vec());
    assert_eq!(b"56789".to_vec(), gb.slice(7, 100).as_slice().to_vec());
    assert_eq!(b"34AB56".to_vec(), gb.slice(3, 9).as_slice().to_vec());
    assert_eq!(b"".to_vec(), gb.slice(9, 3).as_slice().to_vec());
    assert_eq!(b"".to_vec(), gb.slice(50, 60).as_slice().to_vec());
}

#[test]
fn gap_buffer_grows_by_whole_blocks() {
    let mut gb = GapBuffer::new(0);
    let big = vec![b'x'; 70000];
    assert!(gb.insert(0, &big));
    assert_eq!(2 * 65536, gb.allocated());
    assert_eq!(70000, gb.size());
    assert!(gb.insert(35000, &to_ms("y")));
    assert_eq!(Some(b'y'), gb.get(35000));
    assert_eq!(Some(b'x'), gb.get(70000));
    assert_eq!(2 * 65536, gb.allocated());
}

#[test]
fn gap_stands_behind_what_was_inserted() {
    let mut gb = GapBuffer::new(8);
    assert!(gb.insert(0, &to_ms("0123456789")));
    assert!(gb.insert(5, &to_ms("AB")));
    // the gap stands at 7: a stretch is borrowed where it does not span it
    assert!(matches!(gb.slice(0, 7), Span::Borrowed(_)));
    assert!(matches!(gb.slice(7, 12), Span::Borrowed(_)));
    assert!(matches!(gb.slice(6, 8), Span::Owned(_)));
    assert_eq!(b"B5".to_vec(), gb.slice(6, 8).as_slice().to_vec());
}

#[test]
fn gap_stands_where_text_was_erased() {
    let mut gb = GapBuffer::new(8);
    assert!(gb.insert(0, &to_ms("0123456789")));
    assert!(gb.erase(2, 3));
    assert!(matches!(gb.slice(0, 2), Span::Borrowed(_)));
    assert!(matches!(gb.slice(2, 7), Span::Borrowed(_)));
    assert!(matches!(gb.slice(1, 3), Span::Owned(_)));
    assert_eq!(b"15".to_vec(), gb.slice(1, 3).as_slice().to_vec());
    // a failed erase leaves the gap where it was
    assert!(!gb.erase(6, 2));
    assert!(matches!(gb.slice(1, 3), Span::Owned(_)));
}

#[test]
fn gap_stands_behind_the_replacement() {
    let mut gb = GapBuffer::new(8);
    assert!(gb.insert(0, &to_ms("0123456789")));
    assert!(gb.replace(2, 3, &to_ms("abcd")));
    assert_eq!(b"01abcd56789".to_vec(), gb.slice(0, 100).as_slice().to_vec());
    assert!(matches!(gb.slice(0, 6), Span::Borrowed(_)));
    assert!(matches!(gb.slice(6, 11), Span::Borrowed(_)));
    assert!(matches!(gb.slice(5, 7), Span::Owned(_)));
}

#[test]
fn literal_pattern_escapes_every_meta_character() {
    let all = b"\\.+*?()|[]{}^$#&-~";
    let p = SearchPattern::literal(all, false).unwrap();
    let mut hay = b"xy ".to_vec();
    hay.extend_from_slice(all);
    assert_eq!(Some((3, 3 + all.len())), p.first_in(&hay));
    let dot = SearchPattern::literal(b"a.c", false).unwrap();
    assert_eq!(None, dot.first_in(b"abc"));
    assert_eq!(Some((4, 7)), dot.first_in(b"abc a.c"));
    let plus = SearchPattern::literal(b"1+1", false).unwrap();
    assert_eq!(None, plus.first_in(b"11 111"));
    assert_eq!(Some((2, 5)), plus.last_in(b"= 1+1"));
}

#[test]
fn last_match_is_the_last_of_the_non_overlapping_ones() {
    let p = SearchPattern::literal(b"aa", false).unwrap();
    assert_eq!(vec![(0, 2)], p.all_in(b"aaa"));
    assert_eq!(Some((0, 2)), p.last_in(b"aaa"));
    assert_eq!(vec![(0, 2), (2, 4)], p.all_in(b"aaaa"));
    assert_eq!(Some((2, 4)), p.last_in(b"aaaa"));
    assert_eq!(Vec::<(usize, usize)>::new(), p.all_in(b"xyz"));
    assert_eq!(None, p.last_in(b"xyz"));
    let digits = SearchPattern::regex(b"[0-9]+", false).unwrap();
    assert_eq!(vec![(1, 3), (4, 7)], digits.all_in(b"a12b345c"));
}

#[test]
fn last_of_picks_the_last_span() {
    assert_eq!(None, last_of(&Vec::new()));
    assert_eq!(Some((5, 9)), last_of(&vec![(5, 9)]));
    assert_eq!(Some((3, 4)), last_of(&vec![(0, 1), (1, 1), (3, 4)]));
}

#[test]
fn backward_search_with_overlapping_candidates() {
    let mut gb = GapBuffer::new(8);
    assert!(gb.insert(0, &to_ms("xaaay")));
    let p = SearchPattern::literal(b"aa", false).unwrap();
    assert_eq!(Some((1, 3)), gb.find_forward(&p, 0, 5));
    assert_eq!(Some((1, 3)), gb.find_backward(&p, 0, 5));
    assert_eq!(Some((2, 4)), gb.find_backward(&p, 2, 5));
}
