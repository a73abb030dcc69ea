use homoglyph_tools::vigenere::{decrypt, encrypt, get_mappings, validate_key, LoopingKey};

fn chars(s: &str) -> Vec<char> {
    s.chars().collect()
}

fn lower() -> Vec<char> {
    chars("abcdefghijklmnopqrstuvwxyz")
}

#[test]
fn encrypt_shifts_by_key() {
    let out = encrypt(&chars("attack at dawn"), &chars("lemon"), &lower());
    assert_eq!(out, chars("lxfopv mh oeib"));
}

#[test]
fn decrypt_inverts_encrypt() {
    let out = decrypt(&chars("lxfopv mh oeib"), &chars("lemon"), &lower());
    assert_eq!(out, chars("attack at dawn"));
}

#[test]
fn empty_key_gives_empty_text() {
    assert_eq!(encrypt(&chars("abc"), &[], &lower()), Vec::<char>::new());
    assert_eq!(decrypt(&chars("abc"), &[], &lower()), Vec::<char>::new());
}

#[test]
fn wrap_around_alphabet() {
    assert_eq!(encrypt(&chars("z"), &chars("b"), &lower()), chars("a"));
    assert_eq!(decrypt(&chars("a"), &chars("b"), &lower()), chars("z"));
}

#[test]
fn key_validation() {
    assert!(validate_key(&chars("abc"), &lower()));
    assert!(!validate_key(&[], &lower()));
    assert!(!validate_key(&chars("ab1"), &lower()));
}

#[test]
fn mappings_pair_chars_and_indices() {
    let (to_idx, to_char) = get_mappings(&chars("xyz"));
    assert_eq!(to_idx, vec![('x', 0), ('y', 1), ('z', 2)]);
    assert_eq!(to_char, vec![(0, 'x'), (1, 'y'), (2, 'z')]);
}

#[test]
fn looping_key_repeats() {
    let mut it = LoopingKey::new(&chars("ab")).into_iter();
    let got: Vec<Option<char>> = (0..5).map(|_| it.next()).collect();
    assert_eq!(got, vec![Some('a'), Some('b'), Some('a'), Some('b'), Some('a')]);
    let mut empty = LoopingKey::new(&[]).into_iter();
    assert_eq!(empty.next(), None);
}
