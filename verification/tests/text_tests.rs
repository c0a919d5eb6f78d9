use jack_vm::text::{
    comment_start, line_ranges, parse_i16, range_is, split_ranges, text_chars, trim_range,
    white_space,
};

fn chars(s: &str) -> Vec<char> {
    text_chars(s)
}

fn pieces(v: &Vec<char>, r: &Vec<(usize, usize)>) -> Vec<String> {
    r.iter().map(|(s, e)| v[*s..*e].iter().collect()).collect()
}

#[test]
fn text_chars_keeps_every_char() {
    assert_eq!(text_chars("aé b"), vec!['a', 'é', ' ', 'b']);
    assert!(text_chars("").is_empty());
}

#[test]
fn white_space_set() {
    for c in [' ', '\t', '\n', '\r', '\u{0B}', '\u{0C}', '\u{85}', '\u{A0}', '\u{2003}', '\u{3000}'] {
        assert!(white_space(c));
        assert_eq!(white_space(c), c.is_whitespace());
    }
    for c in ['a', '0', '/', '\u{200B}'] {
        assert!(!white_space(c));
        assert_eq!(white_space(c), c.is_whitespace());
    }
}

#[test]
fn split_on_single_spaces() {
    let v = chars("push  constant 1");
    let r = split_ranges(&v, 0, v.len(), ' ');
    assert_eq!(pieces(&v, &r), vec!["push", "", "constant", "1"]);
    let e = chars("");
    assert_eq!(split_ranges(&e, 0, 0, ' ').len(), 1);
}

#[test]
fn lines_like_std() {
    for t in ["a\nb", "a\n", "", "\n", "a\r\nb\r\n", "a\r", "\n\nx\r\r\n", "one"] {
        let v = chars(t);
        let r = line_ranges(&v);
        let expected: Vec<String> = t.lines().map(|l| l.to_string()).collect();
        assert_eq!(pieces(&v, &r), expected, "text {:?}", t);
    }
}

#[test]
fn comment_is_cut_at_first_double_slash() {
    let v = chars("push local 1 // x // y");
    assert_eq!(comment_start(&v, 0, v.len()), 13);
    let w = chars("a/b/");
    assert_eq!(comment_start(&w, 0, w.len()), 4);
    let u = chars("///");
    assert_eq!(comment_start(&u, 0, u.len()), 0);
}

#[test]
fn trim_both_ends() {
    let v = chars(" \t add \u{A0}");
    assert_eq!(trim_range(&v, 0, v.len()), (3, 6));
    let w = chars("   ");
    let (s, e) = trim_range(&w, 0, w.len());
    assert_eq!(s, e);
}

#[test]
fn range_is_compares_exactly() {
    let v = chars("if-goto X");
    assert!(range_is(&v, 0, 7, "if-goto"));
    assert!(!range_is(&v, 0, 6, "if-goto"));
    assert!(!range_is(&v, 0, 7, "if-gotO"));
}

#[test]
fn parse_i16_like_std() {
    for t in ["0", "-0", "+7", "32767", "-32768", "32768", "-32769", "", "-", "+", "1a", "99999999999", "+-1", "007", "٣"] {
        let v = chars(t);
        assert_eq!(parse_i16(&v, 0, v.len()), t.parse::<i16>().ok(), "text {:?}", t);
    }
}
