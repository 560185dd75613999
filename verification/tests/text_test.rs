use bl::fold::{folded, folded_text};
use bl::number::{aligned_left, aligned_right, decimal, decimal_count, read_count, read_signed};
use bl::order::{is_before, sorted, Key, Texts};
use bl::tally::{count, distinct_names, tally};
use bl::text::{
    among, begins, cut_once, has, is_blank, joined, keep_nonblank, lines_of, pieces, repeated, replaced, replaced_char,
    same, space, stripped_end, stripped_start, trimmed, trimmed_end, words_of, Sep,
};

const SAMPLES: [&str; 16] = [
    "",
    " ",
    "a",
    " a b ",
    "one\ntwo\n",
    "one\r\ntwo\r\n\r\n",
    "\r",
    "a\rb",
    "\n\n",
    "tail\r",
    "x\u{a0}y\u{2003}z",
    "  # db: ~/x/y.db  ",
    "key=value=more",
    "日本語 テキスト",
    "[note] body [abc1234]",
    "a,b,,c, d",
];

fn strings(v: &[&str]) -> Vec<String> {
    v.iter().map(|s| s.to_string()).collect()
}

#[test]
fn space_is_unicode_white_space() {
    for n in 0..=0x10ffff_u32 {
        if let Some(c) = char::from_u32(n) {
            assert_eq!(space(c), c.is_whitespace(), "U+{:04x}", n);
        }
    }
}

#[test]
fn folding_touches_ascii_capitals_only() {
    for n in 0..=0x10ffff_u32 {
        if let Some(c) = char::from_u32(n) {
            assert_eq!(folded(c), c.to_ascii_lowercase());
        }
    }
    assert_eq!(folded_text("Ärger ABC"), "Ärger abc");
}

#[test]
fn trimming_agrees_with_std() {
    for s in SAMPLES {
        assert_eq!(trimmed(s), s.trim());
        assert_eq!(trimmed_end(s), s.trim_end());
        assert_eq!(is_blank(s), s.trim().is_empty());
    }
}

#[test]
fn trimming_twice_is_trimming_once() {
    for s in SAMPLES {
        assert_eq!(trimmed(&trimmed(s)), trimmed(s));
    }
}

#[test]
fn lines_and_words_agree_with_std() {
    for s in SAMPLES {
        assert_eq!(lines_of(s), s.lines().map(|l| l.to_string()).collect::<Vec<_>>(), "{:?}", s);
        assert_eq!(words_of(s), s.split_whitespace().map(|l| l.to_string()).collect::<Vec<_>>());
        assert_eq!(pieces(s, Sep::Char(',')), s.split(',').map(|l| l.to_string()).collect::<Vec<_>>());
    }
}

#[test]
fn joining_and_splitting_undo_each_other() {
    let v = strings(&["a", "", "b c"]);
    assert_eq!(joined(&v, ","), "a,,b c");
    assert_eq!(pieces("a,,b c", Sep::Char(',')), v);
    assert_eq!(joined(&Vec::new(), ","), "");
}

#[test]
fn replacing_agrees_with_std() {
    for s in SAMPLES {
        for (from, to) in [("a", "bb"), ("\n", " | "), ("key", ""), ("{{DB}}", "x")] {
            assert_eq!(replaced(s, from, to), s.replace(from, to));
        }
        assert_eq!(replaced_char(s, '\n', "\n    "), s.replace('\n', "\n    "));
    }
    assert_eq!(replaced("aaaa", "aa", "b"), "bb");
    assert_eq!(replaced("{{DB}}{{DB}}", "{{DB}}", "{{DB}}"), "{{DB}}{{DB}}");
}

#[test]
fn searching_agrees_with_std() {
    for s in SAMPLES {
        for needle in ["", "a", "two", "] ", "zzz", "語"] {
            assert_eq!(has(s, needle), s.contains(needle));
            assert_eq!(begins(s, needle), s.starts_with(needle));
        }
        let cut = cut_once(s, '=').map(|(a, b)| (a, b));
        assert_eq!(cut, s.split_once('=').map(|(a, b)| (a.to_string(), b.to_string())));
    }
    assert!(same("x", "x"));
    assert!(!same("x", "X"));
    assert!(among(&strings(&["new", "done"]), "done"));
    assert!(!among(&strings(&["new", "done"]), "ready"));
}

#[test]
fn stripping_agrees_with_std() {
    for s in ["##12", "#", "", "12#", "\"q\"\"", "plain"] {
        assert_eq!(stripped_start(s, '#'), s.trim_start_matches('#'));
        assert_eq!(stripped_end(s, '"'), s.trim_end_matches('"'));
    }
    assert_eq!(repeated("ab", 3), "ababab");
    assert_eq!(repeated("ab", 0), "");
    assert_eq!(keep_nonblank(strings(&["a", " ", "", "b"])), strings(&["a", "b"]));
}

#[test]
fn numbers_are_written_and_read_back() {
    for n in [i64::MIN, -10, -1, 0, 7, 10, 5000, i64::MAX] {
        assert_eq!(decimal(n), n.to_string());
        assert_eq!(read_signed(&decimal(n), i64::MIN, i64::MAX), Some(n));
    }
    assert_eq!(decimal_count(0), "0");
    assert_eq!(decimal_count(usize::MAX), usize::MAX.to_string());
}

#[test]
fn reading_numbers_agrees_with_std() {
    for s in [
        "", "+", "-", "+5", "-5", "0", "007", " 5", "5 ", "5x", "9223372036854775807", "9223372036854775808",
        "-9223372036854775808", "-9223372036854775809", "99999999999999999999999", "+-1", "١",
    ] {
        assert_eq!(read_signed(s, i64::MIN, i64::MAX), s.parse::<i64>().ok(), "{:?}", s);
        assert_eq!(
            read_signed(s, i32::MIN as i64, i32::MAX as i64),
            s.parse::<i32>().ok().map(|n| n as i64),
            "{:?}",
            s
        );
        assert_eq!(read_count(s), s.parse::<usize>().ok(), "{:?}", s);
    }
}

#[test]
fn alignment_agrees_with_format() {
    for s in ["", "7", "5000", "10000", "123456", "日本"] {
        assert_eq!(aligned_right(s, 5), format!("{:>5}", s));
        assert_eq!(aligned_left(s, 12), format!("{:<12}", s));
    }
}

#[test]
fn text_order_agrees_with_std() {
    for a in SAMPLES {
        for b in SAMPLES {
            assert_eq!(is_before(a, b), a < b);
        }
    }
}

#[test]
fn sorting_is_by_number_then_text_then_place() {
    let keys = vec![
        Key { number: 2, text: "b".to_string() },
        Key { number: 1, text: "z".to_string() },
        Key { number: 2, text: "a".to_string() },
        Key { number: 2, text: "b".to_string() },
    ];
    assert_eq!(sorted(&keys, Texts::Ascending), vec![1, 2, 0, 3]);
    assert_eq!(sorted(&keys, Texts::Descending), vec![1, 0, 3, 2]);
    assert_eq!(sorted(&Vec::new(), Texts::Ascending), Vec::<usize>::new());
}

#[test]
fn tally_counts_and_ranks() {
    let v = strings(&["ui", "art", "ui", "auth", "art", "ui"]);
    assert_eq!(distinct_names(&v), strings(&["art", "auth", "ui"]));
    assert_eq!(count(&v, "art"), 2);
    assert_eq!(count(&v, "none"), 0);
    assert_eq!(
        tally(&v),
        vec![("ui".to_string(), 3), ("art".to_string(), 2), ("auth".to_string(), 1)]
    );
    let tied = strings(&["b", "a", "c"]);
    assert_eq!(
        tally(&tied),
        vec![("a".to_string(), 1), ("b".to_string(), 1), ("c".to_string(), 1)]
    );
}
