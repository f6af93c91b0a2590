use tailshare::text::{
    byte_len_at_least, chars_of, contains, rejoin_lines, replace_all, split_lines,
    split_lines_with_endings, split_on,
    str_eq_ignore_ascii_case, string_of, trim_bounds,
};

fn lines(s: &str) -> Vec<String> {
    split_lines(&chars_of(s)).iter().map(|l| string_of(l)).collect()
}

#[test]
fn lines_match_str_lines() {
    for s in ["", "\n", "a", "a\n", "a\r\nb", "a\n\nb\n", "a\r", "x\r\r\n", "\r\n\r\n"] {
        let expected: Vec<String> = s.lines().map(|l| l.to_string()).collect();
        assert_eq!(lines(s), expected, "input {:?}", s);
    }
}

#[test]
fn lines_with_endings_give_back_the_text() {
    for s in ["", "\n", "a", "a\n", "a\r\nb", "a\n\nb\n", "a\r", "x\r\r\n", "\r\n\r\n"] {
        let (ls, es) = split_lines_with_endings(&chars_of(s));
        let bodies: Vec<String> = ls.iter().map(|l| string_of(l)).collect();
        let expected: Vec<String> = s.lines().map(|l| l.to_string()).collect();
        assert_eq!(bodies, expected, "input {:?}", s);
        assert_eq!(string_of(&rejoin_lines(&ls, &es)), s);
    }
    let (_, es) = split_lines_with_endings(&chars_of("a\r\nb\nc"));
    let endings: Vec<String> = es.iter().map(|e| string_of(e)).collect();
    assert_eq!(endings, vec!["\r\n", "\n", ""]);
}

#[test]
fn replace_all_matches_str_replace() {
    let cases = [("ab", "", "x"), ("aaaa", "aa", "b"), ("Host a Host a", "Host a", "Host b"), ("", "a", "b"), ("abc", "abcd", "x")];
    for (s, p, r) in cases {
        let got = string_of(&replace_all(&chars_of(s), &chars_of(p), &chars_of(r)));
        assert_eq!(got, s.replace(p, r), "{:?}", (s, p, r));
    }
}

#[test]
fn trim_matches_str_trim() {
    for s in ["  a b  ", "\t\u{3000}x\u{85}", "", "   ", "x"] {
        let cs = chars_of(s);
        let (lo, hi) = trim_bounds(&cs);
        assert_eq!(string_of(&cs[lo..hi]), s.trim());
    }
}

#[test]
fn split_and_search() {
    let parts: Vec<String> = split_on(&chars_of("dons-mac--mini-"), '-').iter().map(|p| string_of(p)).collect();
    assert_eq!(parts, vec!["dons", "mac", "", "mini", ""]);
    assert!(contains(&chars_of("abc"), &chars_of("")));
    assert!(contains(&chars_of("abc"), &chars_of("bc")));
    assert!(!contains(&chars_of("abc"), &chars_of("cb")));
    assert!(str_eq_ignore_ascii_case("Mac-Mini", "mac-MINI"));
    assert!(!str_eq_ignore_ascii_case("É", "é"));
    assert!(byte_len_at_least(&chars_of("é"), 2));
    assert!(!byte_len_at_least(&chars_of("é"), 3));
}
