use build_script_runner::text::{
    before, contains, ends_with, join_texts, repeat_text, replace_text, same_text, split_text,
    strip_start, text_lines, upper_text,
};

const SAMPLES: [&str; 14] = [
    "", "a", "b", "ab", "aab", "abab", "a\nb", "a\r\nb\n", "\r", "\n\n", "x\r\r\n", "é", "aé\u{10ffff}", "ß_target",
];

#[test]
fn searching_agrees_with_the_standard_library() {
    for s in SAMPLES {
        for p in SAMPLES {
            assert_eq!(contains(s, p), s.contains(p));
            assert_eq!(ends_with(s, p), s.ends_with(p));
            assert_eq!(same_text(s, p), s == p);
            assert_eq!(before(s, p), s < p);
            assert_eq!(strip_start(s, p), s.strip_prefix(p).map(|r| r.to_string()));
        }
    }
}

#[test]
fn replacing_agrees_with_the_standard_library() {
    for s in SAMPLES {
        for from in SAMPLES {
            for to in ["", "-", "ab", "é"] {
                assert_eq!(replace_text(s, from, to), s.replace(from, to));
            }
        }
    }
    assert_eq!(replace_text("aaa", "aa", "b"), "ba");
}

#[test]
fn splitting_agrees_with_the_standard_library() {
    for s in SAMPLES {
        for c in ['a', '\n', 'é'] {
            let expected: Vec<String> = s.split(c).map(|p| p.to_string()).collect();
            assert_eq!(split_text(s, c), expected);
        }
        let expected: Vec<String> = s.lines().map(|l| l.to_string()).collect();
        assert_eq!(text_lines(s), expected);
    }
}

#[test]
fn upper_case_agrees_with_the_standard_library() {
    for s in ["", "unix", "target_feature", "Already UP 1", "straße", "ŉ ﬁ", "éÀσς", "target_ǆ"] {
        assert_eq!(upper_text(s), s.to_uppercase());
    }
}

#[test]
fn joining_and_repeating() {
    let parts: Vec<String> = ["a", "", "c"].iter().map(|s| s.to_string()).collect();
    assert_eq!(join_texts(&parts, ","), "a,,c");
    assert_eq!(join_texts(&vec![], ","), "");
    assert_eq!(join_texts(&vec!["x".to_string()], ","), "x");
    assert_eq!(repeat_text("../", 3), "../../../");
    assert_eq!(repeat_text("../", 0), "");
}
