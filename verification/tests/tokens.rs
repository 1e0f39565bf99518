use notebook::tokens::{compare_tokens, get_tokens, remove_utf8_bom, Verdict};

fn words(list: &[&str]) -> Vec<String> {
    list.iter().map(|w| w.to_string()).collect()
}

#[test]
fn bom_is_removed_once() {
    assert_eq!(remove_utf8_bom("\u{feff}abc"), "abc");
    assert_eq!(remove_utf8_bom("abc"), "abc");
    assert_eq!(remove_utf8_bom(""), "");
    assert_eq!(remove_utf8_bom("\u{feff}"), "");
    assert_eq!(remove_utf8_bom("\u{feff}\u{feff}x"), "\u{feff}x");
    assert_eq!(remove_utf8_bom("a\u{feff}"), "a\u{feff}");
    assert_eq!(remove_utf8_bom("\u{feff}é√"), "é√");
}

#[test]
fn tokens_are_split_and_lowered() {
    assert_eq!(get_tokens("YES\n1 2  3\r\n\tNo "), words(&["yes", "1", "2", "3", "no"]));
    assert_eq!(get_tokens("\u{feff}Hello World"), words(&["hello", "world"]));
    assert_eq!(get_tokens(""), Vec::<String>::new());
    assert_eq!(get_tokens(" \n\t "), Vec::<String>::new());
    assert_eq!(get_tokens("ÄB\u{2003}Ç"), words(&["äb", "ç"]));
}

#[test]
fn compare_equal_lists() {
    assert_eq!(compare_tokens(&words(&["1", "2"]), &words(&["1", "2"])), Verdict::Correct(2));
    assert_eq!(compare_tokens(&words(&[]), &words(&[])), Verdict::Correct(0));
}

#[test]
fn compare_different_counts() {
    assert_eq!(
        compare_tokens(&words(&["1", "2"]), &words(&["1"])),
        Verdict::CountMismatch { expected: 2, found: 1 }
    );
    assert_eq!(
        compare_tokens(&words(&[]), &words(&["x"])),
        Verdict::CountMismatch { expected: 0, found: 1 }
    );
}

#[test]
fn compare_reports_first_difference() {
    assert_eq!(
        compare_tokens(&words(&["1", "2", "3", "4"]), &words(&["1", "x", "3", "y"])),
        Verdict::TokenMismatch(1)
    );
    assert_eq!(compare_tokens(&words(&["a"]), &words(&["A"])), Verdict::TokenMismatch(0));
}

#[test]
fn tokens_then_compare() {
    let expected = get_tokens("Yes\n42\n");
    let output = get_tokens("\u{feff}YES 42");
    assert_eq!(compare_tokens(&expected, &output), Verdict::Correct(2));
}
