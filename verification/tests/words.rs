use first_word::words::{first_word_end_of, first_word_improved, first_word_index, first_word_slice};

#[test]
fn test_first_word_improved() {
    let my_string = String::from("hello world");
    let word = first_word_improved(&my_string);
    assert_eq!(word, "hello");
}

#[test]
fn test_first_word_index() {
    let s = String::from("one two");
    assert_eq!(3, first_word_index(&s));
}

#[test]
fn test_first_word_slice() {
    let s = String::from("one two");
    assert_eq!(&s[0..3], first_word_slice(&s));
}

#[test]
fn one_two_breaks_at_three() {
    assert_eq!(first_word_improved("one two"), "one");
    assert_eq!(first_word_end_of("one two".as_bytes()), 3);
}

#[test]
fn single_word_is_returned_whole() {
    assert_eq!(first_word_improved("single"), "single");
    assert_eq!(first_word_index(&String::from("single")), 6);
}

#[test]
fn empty_text_gives_empty_word() {
    assert_eq!(first_word_improved(""), "");
    assert_eq!(first_word_index(&String::new()), 0);
    assert_eq!(first_word_slice(&String::new()), "");
    assert_eq!(first_word_end_of(&[]), 0);
}

#[test]
fn leading_space_gives_empty_word() {
    assert_eq!(first_word_improved(" leading"), "");
    assert_eq!(first_word_index(&String::from(" leading")), 0);
}

#[test]
fn only_the_first_space_counts() {
    assert_eq!(first_word_improved("a b c d"), "a");
    assert_eq!(first_word_improved("ab  cd"), "ab");
    assert_eq!(first_word_improved("trailing "), "trailing");
    assert_eq!(first_word_improved(" "), "");
}

#[test]
fn other_whitespace_is_not_a_delimiter() {
    assert_eq!(first_word_improved("tab\tnewline\nend stop"), "tab\tnewline\nend");
    assert_eq!(first_word_improved("no\u{a0}break space"), "no\u{a0}break");
    assert_eq!(first_word_improved("wide\u{3000}space"), "wide\u{3000}space");
}

#[test]
fn multibyte_text_is_cut_between_characters() {
    assert_eq!(first_word_improved("héllo wörld"), "héllo");
    assert_eq!(first_word_index(&String::from("héllo wörld")), 6);
    assert_eq!(first_word_improved("日本語 テキスト"), "日本語");
    assert_eq!(first_word_index(&String::from("日本語 テキスト")), 9);
    assert_eq!(first_word_improved("🦀 crab"), "🦀");
    assert_eq!(first_word_improved("\u{820}\u{2020}\u{20020} x"), "\u{820}\u{2020}\u{20020}");
}

#[test]
fn word_without_space_equals_input() {
    for s in ["a", "abc", "hello,world", "x\ty", "ünïcödé", "0123456789"] {
        assert_eq!(first_word_improved(s), s);
        assert_eq!(first_word_index(&String::from(s)), s.len());
    }
}

#[test]
fn word_before_space_is_returned() {
    for a in ["", "a", "abc", "héllo", "tab\there"] {
        for b in ["", "b", " ", "more words here", " leading"] {
            let text = format!("{} {}", a, b);
            assert_eq!(first_word_improved(&text), a);
            assert_eq!(first_word_slice(&text), a);
            assert_eq!(first_word_index(&text), a.len());
        }
    }
}

#[test]
fn first_word_is_a_fixed_point() {
    for s in ["", " ", "one two", "hello world", "single", " leading", "a b c", "日本語 テキスト"] {
        let once = first_word_improved(s);
        assert!(!once.contains(' '));
        assert_eq!(first_word_improved(once), once);
    }
}

#[test]
fn word_is_a_view_into_the_input() {
    let text = String::from("hello world");
    let word = first_word_improved(&text);
    assert_eq!(word.as_ptr(), text.as_ptr());
    assert_eq!(word.len(), 5);
    let whole = first_word_improved("single");
    assert_eq!(whole.len(), 6);
}

#[test]
fn scan_over_raw_bytes() {
    assert_eq!(first_word_end_of(&[0x20]), 0);
    assert_eq!(first_word_end_of(&[0x41, 0x42, 0x20, 0x43, 0x20]), 2);
    assert_eq!(first_word_end_of(&[0xff, 0x00, 0x21, 0x1f]), 4);
    assert_eq!(first_word_end_of(&[0xa0, 0x20]), 1);
}
