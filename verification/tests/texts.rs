use memory_search::order::{bytes_before, text_before};
use memory_search::strmap::StrMap;
use memory_search::text::{
    blank, chars_of, find_in, is_space, lines_of, split_on, string_of, trimmed, unquoted,
    without_suffixes,
};

fn all_lines(s: &str) -> Vec<String> {
    let c = chars_of(s);
    lines_of(&c).iter().map(|l| string_of(l)).collect()
}

#[test]
fn lines_are_those_of_the_standard_library() {
    for s in ["", "\n", "a", "a\n", "a\nb", "a\r\nb\r", "\n\na\n\n", "a\r\r\nb", "\r\n"] {
        let want: Vec<String> = s.lines().map(|l| l.to_owned()).collect();
        assert_eq!(all_lines(s), want, "{s:?}");
    }
}

#[test]
fn parts_are_those_of_the_standard_library() {
    for s in ["", "a", "a\n\nb", "\n\n", "\n\n\n\n\n", "a\n\n\nb\n\n"] {
        let c = chars_of(s);
        let p = chars_of("\n\n");
        let got: Vec<String> = split_on(&c, &p).iter().map(|l| string_of(l)).collect();
        let want: Vec<String> = s.split("\n\n").map(|l| l.to_owned()).collect();
        assert_eq!(got, want, "{s:?}");
    }
}

#[test]
fn white_space_is_that_of_the_standard_library() {
    for u in 0..0x11_0000u32 {
        if let Some(c) = char::from_u32(u) {
            assert_eq!(is_space(c), c.is_whitespace(), "{u:x}");
        }
    }
}

#[test]
fn trimming_is_that_of_the_standard_library() {
    for s in ["", "  ", " a ", "\u{3000}a b\u{a0}", "\u{feff}a", "a\n"] {
        let c = chars_of(s);
        assert_eq!(string_of(trimmed(&c)), s.trim());
        assert_eq!(blank(&c), s.trim().is_empty());
    }
    for s in ["", "\"", "\"\"\"", "\"a\"b\"", "a"] {
        let c = chars_of(s);
        assert_eq!(string_of(unquoted(&c)), s.trim_matches('"'));
    }
    for s in ["", ".md", "a.md", "a.md.md", "a.mdx", "md"] {
        let c = chars_of(s);
        let p = chars_of(".md");
        assert_eq!(string_of(without_suffixes(&c, &p)), s.trim_end_matches(".md"));
    }
}

#[test]
fn the_first_occurrence_is_found() {
    let s = chars_of("ก[[ข]] [[ค]]");
    assert_eq!(find_in(&s, &chars_of("[[")), Some(1));
    assert_eq!(find_in(&s, &chars_of("]]")), Some(4));
    assert_eq!(find_in(&s, &chars_of("((")), None);
}

#[test]
fn orders_are_those_of_the_standard_library() {
    let texts = ["", "a", "ab", "b", "Z", "é", "ก", "a-b", "a.b", "\u{10000}", "\u{ffff}"];
    for a in texts {
        for b in texts {
            assert_eq!(text_before(a, b), a < b, "{a:?} {b:?}");
            assert_eq!(bytes_before(a.as_bytes(), b.as_bytes()), a.as_bytes() < b.as_bytes());
        }
    }
}

#[test]
fn a_map_keeps_the_last_value_of_a_key() {
    let mut m: StrMap<u32> = StrMap::new();
    for (k, v) in [("b", 1), ("a", 2), ("c", 3), ("b", 4)] {
        m.insert(k.to_owned(), v);
    }
    assert_eq!(m.len(), 3);
    assert_eq!(m.get("b"), Some(&4));
    assert_eq!(m.get("d"), None);
    assert!(m.contains_key("a"));
    let keys: Vec<&str> = m.entries().iter().map(|e| e.0.as_str()).collect();
    assert_eq!(keys, vec!["a", "b", "c"]);
    assert_eq!(m.remove("a"), Some(2));
    assert_eq!(m.remove("a"), None);
    assert_eq!(m.len(), 2);
}
