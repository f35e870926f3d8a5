use toast::format::render_code;
use toast::text::{is_whitespace, trim};
use toast::format::{code_str, number, series};

#[test]
fn number_zero() {
    assert_eq!(number(0, "cow"), "0 cows");
}

#[test]
fn number_one() {
    assert_eq!(number(1, "cow"), "1 cow");
}

#[test]
fn number_two() {
    assert_eq!(number(2, "cow"), "2 cows");
}

#[test]
fn number_ten() {
    assert_eq!(number(10, "task"), "10 tasks");
}

#[test]
fn series_empty() {
    assert_eq!(series(&[]), "");
}

#[test]
fn series_one() {
    assert_eq!(series(&["foo".to_owned()]), "foo");
}

#[test]
fn series_two() {
    assert_eq!(series(&["foo".to_owned(), "bar".to_owned()]), "foo and bar");
}

#[test]
fn series_three() {
    assert_eq!(
        series(&["foo".to_owned(), "bar".to_owned(), "baz".to_owned()]),
        "foo, bar, and baz"
    );
}

#[test]
fn series_four() {
    assert_eq!(
        series(&["a".to_owned(), "b".to_owned(), "c".to_owned(), "d".to_owned()]),
        "a, b, c, and d"
    );
}

#[test]
fn code_str_marks_text() {
    let r = code_str("foo");
    assert!(r == "`foo`" || r == "foo" || (r.starts_with("\u{1b}[35m") && r.ends_with("\u{1b}[0m")));
    assert!(r.contains("foo"));
}

#[test]
fn render_code_by_terminal() {
    assert_eq!(render_code("foo", false), "`foo`");
    let r = render_code("foo", true);
    assert!(r == "foo" || r == "\u{1b}[35mfoo\u{1b}[0m");
}

#[test]
fn white_space() {
    assert!(is_whitespace(' ') && is_whitespace('\t') && is_whitespace('\u{3000}'));
    assert!(!is_whitespace('a') && !is_whitespace('\u{200b}'));
    for c in ['\u{85}', '\u{a0}', '\u{1680}', '\u{2000}', '\u{200a}', '\u{2028}', '\u{202f}', '\u{205f}'] {
        assert_eq!(is_whitespace(c), c.is_whitespace());
    }
    assert_eq!(trim("\u{a0} yes\n"), "yes");
}
