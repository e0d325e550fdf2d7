use aes::cipher::{BlockEncrypt, KeyInit};
use base64::Engine;
use puzzle_ciphers::codec::{compress_, decompress_, decrypt_, unpad};
use puzzle_ciphers::grid::numbers_III_;
use puzzle_ciphers::shift::Shift;
use puzzle_ciphers::vigenere::vigenere_;

#[test]
fn test() {
    let test_data = r#"{"data":"a","algo":"test"}"#;
    assert_eq!(
        decompress_(&compress_(test_data).unwrap()).unwrap(),
        test_data
    );
    assert_eq!(
        vigenere_("abcdefgh", "test", "abcdefghijklmnopqrstuvwxyz", false),
        "hxkklboo"
    );
}

#[test]
fn compress_round_trips_other_texts() {
    for s in ["", "a", "héllo wörld", "aaaaaaaaaaaaaaaaaaaaaaaaaaaaaaaaaaaaaaaaa"] {
        let c = compress_(s).unwrap();
        assert_ne!(c, s);
        assert!(c.chars().all(|ch| ch.is_ascii_alphanumeric() || ch == '-' || ch == '_'));
        assert_eq!(decompress_(&c).unwrap(), s);
    }
}

#[test]
fn decompress_rejects_bad_text() {
    assert_eq!(decompress_("!!!"), None);
}

#[test]
fn vigenere_inverse_undoes_encoding() {
    let a = "abcdefghijklmnopqrstuvwxyz";
    assert_eq!(vigenere_("hxkklboo", "test", a, true), "abcdefgh");
    assert_eq!(vigenere_("a b-c", "b", a, true), "b c-d");
    assert_eq!(vigenere_("abc", "", a, true), "abc");
    assert_eq!(vigenere_("abc", "b", "", true), "abc");
}

#[test]
fn unpad_strips_valid_padding() {
    let mut d = vec![1u8, 2, 3, 3, 3];
    assert!(unpad(&mut d));
    assert_eq!(d, vec![1, 2]);
}

#[test]
fn unpad_rejects_bad_padding() {
    let mut d = vec![1u8, 2, 2, 3];
    assert!(!unpad(&mut d));
    assert_eq!(d, vec![1, 2, 2, 3]);
    let mut z = vec![5u8, 0];
    assert!(!unpad(&mut z));
    let mut e: Vec<u8> = vec![];
    assert!(!unpad(&mut e));
    let mut long = vec![9u8, 9];
    assert!(!unpad(&mut long));
}

fn encrypt_128(key: &[u8], plain: &str) -> String {
    let mut data = plain.as_bytes().to_vec();
    let pad = 16 - data.len() % 16;
    data.extend(std::iter::repeat(pad as u8).take(pad));
    let c = aes::Aes128::new_from_slice(key).unwrap();
    for chunk in data.chunks_mut(16) {
        c.encrypt_block(chunk.into());
    }
    base64::engine::general_purpose::STANDARD.encode(data)
}

#[test]
fn decrypt_reads_aes_128() {
    let key = "0123456789abcdef";
    let text = encrypt_128(key.as_bytes(), "secret message");
    assert_eq!(decrypt_(&text, key), Some("secret message".to_owned()));
    let url = text.replace('/', "-").replace('+', "_");
    assert_eq!(decrypt_(&url, key), Some("secret message".to_owned()));
}

#[test]
fn decrypt_rejects_bad_input() {
    let key = "0123456789abcdef";
    let text = encrypt_128(key.as_bytes(), "secret message");
    assert_eq!(decrypt_(&text, "short"), None);
    assert_eq!(decrypt_("QUJD", key), None);
    assert_eq!(decrypt_("%%%", key), None);
}

#[test]
fn shift_steps_back_until_exhausted() {
    let mut s = Shift::new("b a");
    assert_eq!(s.next(), Some("b a".to_owned()));
    assert_eq!(s.next(), Some("a `".to_owned()));
    let mut blank = Shift::new("  ");
    assert_eq!(blank.next(), None);
    let mut z = Shift::new("\u{1}");
    assert_eq!(z.next(), Some("\u{1}".to_owned()));
    assert_eq!(z.next(), None);
}

#[test]
fn shift_with_key_adds_key_codes() {
    let mut s = Shift::with_key("ab c", "\u{1}\u{2}", false, true);
    assert_eq!(s.next(), Some("bd d".to_owned()));
    let mut t = Shift::with_key("ab c", "\u{1}\u{2}", false, false);
    assert_eq!(t.next(), Some("bd!e".to_owned()));
    let mut u = Shift::with_key("aa", "\u{1}\u{3}", true, false);
    assert_eq!(u.next(), Some("db".to_owned()));
}

#[test]
fn grid_without_key_is_unchanged() {
    let out = numbers_III_("", None).unwrap();
    let row = "\\na b c d e f \\ng h i j q l \\nm n o p q r \\ns t u v w x \\ny z 1 2 3 4 \\n5 6 7 8 9 0 ";
    assert_eq!(
        out,
        format!("Original Grid:{row} \\n \\nEncrypted Grid after Rotating{row}")
    );
}

#[test]
fn grid_rotates_rows_and_columns() {
    let out = numbers_III_("1", None).unwrap();
    assert!(out.ends_with("\\nf a b c d e \\ng h i j q l \\nm n o p q r \\ns t u v w x \\ny z 1 2 3 4 \\n5 6 7 8 9 0 "));
    let out = numbers_III_("0,0,0,0,0,0,1", None).unwrap();
    assert!(out.ends_with("\\n5 b c d e f \\na h i j q l \\ng n o p q r \\nm t u v w x \\ns z 1 2 3 4 \\ny 6 7 8 9 0 "));
    assert_eq!(numbers_III_("1 x", None), None);
    assert_eq!(numbers_III_("1,", None), None);
}
