use grotsky::strings::{chr, ord, split, to_lower, to_upper};

fn std_split(s: &str, sep: &str) -> Vec<String> {
    s.split(sep).map(|p| p.to_string()).collect()
}

#[test]
fn split_at_commas() {
    assert_eq!(split("a,b,c", ","), vec!["a", "b", "c"]);
    assert_eq!(split("a,b,", ","), vec!["a", "b", ""]);
    assert_eq!(split(",", ","), vec!["", ""]);
}

#[test]
fn split_without_occurrence_keeps_the_text() {
    assert_eq!(split("hello", ";"), vec!["hello"]);
    assert_eq!(split("", ";"), vec![""]);
}

#[test]
fn split_on_the_empty_separator() {
    assert_eq!(split("rust", ""), vec!["", "r", "u", "s", "t", ""]);
    assert_eq!(split("", ""), vec!["", ""]);
}

#[test]
fn split_occurrences_do_not_overlap() {
    assert_eq!(split("aaa", "aa"), vec!["", "a"]);
    assert_eq!(split("aaaa", "aa"), vec!["", "", ""]);
}

#[test]
fn split_agrees_with_str_split() {
    let cases = [
        ("one two  three", " "),
        ("a--b---c", "--"),
        ("ñandú,über,ß", ","),
        ("ab€cd€", "€"),
        ("xyz", "xyzw"),
        ("mississippi", "ss"),
        ("mississippi", "issi"),
        ("héllo", ""),
    ];
    for (s, sep) in cases {
        assert_eq!(split(s, sep), std_split(s, sep), "{:?} split at {:?}", s, sep);
    }
}

#[test]
fn ord_is_the_first_byte() {
    assert_eq!(ord("A"), 65);
    assert_eq!(ord("abc"), 97);
    assert_eq!(ord("é"), 0xC3);
}

#[test]
fn chr_of_ascii_and_of_other_bytes() {
    assert_eq!(chr(65), "A");
    assert_eq!(chr(0), "\u{0}");
    assert_eq!(chr(127), "\u{7f}");
    assert_eq!(chr(128), "\u{FFFD}");
    assert_eq!(chr(255), "\u{FFFD}");
    for b in 0u8..=255 {
        let expected = match String::from_utf8(vec![b]) {
            Ok(s) => s,
            Err(e) => String::from_utf8_lossy(e.as_bytes()).into_owned(),
        };
        assert_eq!(chr(b), expected);
    }
}

#[test]
fn split_pieces_joined_give_the_text_back() {
    let cases = [("a,b,,c", ","), ("", ","), ("rust", ""), ("", ""), ("aaaa", "aa"), ("x--y--", "--"), ("héllo wörld", "ö")];
    for (s, sep) in cases {
        assert_eq!(split(s, sep).join(sep), s);
    }
}

#[test]
fn to_lower_and_to_upper_change_the_case() {
    assert_eq!(to_lower("AbC 1"), "abc 1");
    assert_eq!(to_upper("AbC 1"), "ABC 1");
    assert_eq!(to_lower(&to_upper("grotsky")), "grotsky");
}
