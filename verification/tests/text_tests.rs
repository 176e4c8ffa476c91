use backpack_wiki::text::{
    contains_chars, decimal_of, join_chars, replace_chars, same_chars, slice_text,
    string_of, trim_chars, utf8_len_of,
};

fn v(s: &str) -> Vec<char> {
    s.chars().collect()
}

fn t(c: &[char]) -> String {
    c.iter().collect()
}

#[test]
fn trim_removes_unicode_whitespace_at_both_ends() {
    assert_eq!(t(&trim_chars(&v("  \t Heals 5. \n"))), "Heals 5.");
    assert_eq!(t(&trim_chars(&v("\u{3000}x y\u{a0}"))), "x y");
    assert_eq!(t(&trim_chars(&v("   "))), "");
    assert_eq!(t(&trim_chars(&v(""))), "");
}

#[test]
fn contains_finds_substrings() {
    assert!(contains_chars(&v("FIRE SWORD"), &v("SWORD")));
    assert!(!contains_chars(&v("SWORD"), &v("FIRE SWORD")));
    assert!(contains_chars(&v("abc"), &v("")));
    assert!(!contains_chars(&v("abc"), &v("ac")));
}

#[test]
fn replace_matches_std_replace() {
    for (s, p, r) in [
        ("Stacks with SWORD and SWORD", "SWORD", "[[Sword]]"),
        ("aaaa", "aa", "b"),
        ("abc", "", "x"),
        ("", "", "x"),
        ("abc", "z", "y"),
        ("ééé", "é", "e"),
    ] {
        assert_eq!(t(&replace_chars(&v(s), &v(p), &v(r))), s.replace(p, r));
    }
    assert_eq!(t(&replace_chars(&v("abc"), &v(""), &v("x"))), "xaxbxcx");
}

#[test]
fn join_puts_separator_between_parts() {
    let parts = vec![v("a"), v("b"), v("c")];
    assert_eq!(t(&join_chars(&parts, &v(", "))), "a, b, c");
    assert_eq!(t(&join_chars(&vec![], &v(", "))), "");
    assert_eq!(t(&join_chars(&vec![v("one")], &v(", "))), "one");
}

#[test]
fn decimal_matches_display() {
    for x in [0, 7, 10, -1, 1234567, i32::MAX, i32::MIN] {
        assert_eq!(t(&decimal_of(x)), format!("{}", x));
    }
}

#[test]
fn utf8_length_counts_bytes() {
    assert_eq!(utf8_len_of(&v("abc")), 3);
    assert_eq!(utf8_len_of(&v("é€😀")), ("é€😀").len() as u128);
}

#[test]
fn slicing_follows_byte_offsets() {
    let s = "aé€b";
    assert_eq!(slice_text(s, 1, 3).as_deref(), Some("é"));
    assert_eq!(slice_text(s, 0, s.len()).as_deref(), Some(s));
    assert_eq!(slice_text(s, 2, 3), None);
    assert_eq!(slice_text(s, 3, 1), None);
    assert_eq!(slice_text(s, 0, 100), None);
}

#[test]
fn conversions_round_trip() {
    let c = v("Ümlaut");
    assert_eq!(string_of(&c), "Ümlaut");
    assert!(same_chars(&v("ab"), &v("ab")));
    assert!(!same_chars(&v("ab"), &v("abc")));
}
