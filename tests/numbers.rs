use puzzle_ciphers::cipher::numbers_;
use puzzle_ciphers::search::reverse_numbers_;

#[test]
fn numbers_short_plaintext() {
    assert_eq!(
        numbers_("572943", Some("abcdef")),
        Some("1bad0fcabc1ebdce".to_owned())
    );
}

#[test]
fn numbers_long_key() {
    assert_eq!(
        numbers_(
            "5729438873698993183185",
            Some("92270bf339b1a31d0498defb0573fc7c")
        ),
        Some("83e1090eeb3b82e0e933802e32803120".to_owned())
    );
}

#[test]
fn reverse_finds_plaintext() {
    assert!(reverse_numbers_("1bad0fcabc1ebdce").contains(&"572943".to_owned()));
}

#[test]
fn numbers_default_key_matches_explicit() {
    assert_eq!(numbers_("572943", None), numbers_("572943", Some("abcdef")));
}

#[test]
fn numbers_is_deterministic() {
    assert_eq!(numbers_("1234", Some("fe")), numbers_("1234", Some("fe")));
}

#[test]
fn numbers_rejects_bad_input() {
    assert_eq!(numbers_("", None), None);
    assert_eq!(numbers_("12a", None), None);
    assert_eq!(numbers_("12", Some("")), None);
}

#[test]
fn numbers_without_substitution() {
    // "2" "91" -> 2091 * 5 = 10455, "104556" mirrored "655401", * 9 = 5898609
    assert_eq!(numbers_("0", Some("0")), Some("17589860924".to_owned()));
}

#[test]
fn reverse_round_trips() {
    for p in ["1", "7", "42", "3333", "222", "9081726354", "100000000000000000000000000007"] {
        let c = numbers_(p, None).unwrap();
        let found = reverse_numbers_(&c);
        assert!(found.contains(&p.to_owned()), "{p} -> {c}: {found:?}");
        for f in &found {
            assert_eq!(numbers_(f, None), Some(c.clone()));
        }
        let mut sorted = found.clone();
        sorted.sort();
        sorted.dedup();
        assert_eq!(sorted, found);
    }
}

#[test]
fn reverse_rejects_gated_input() {
    assert!(reverse_numbers_("17g24").is_empty());
    assert!(reverse_numbers_("172").is_empty());
    assert!(reverse_numbers_("").is_empty());
    assert!(reverse_numbers_("0123456789abcdef").is_empty());
    assert!(reverse_numbers_("1724 ").is_empty());
}

#[test]
fn reverse_rejects_wrong_frame() {
    assert!(reverse_numbers_("1bad0fcabc1ebdc5").is_empty());
    assert!(reverse_numbers_("2bad0fcabc1ebdce").is_empty());
}
