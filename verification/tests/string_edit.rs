use rust_exercises::string_edit::Operation;

fn parse(s: &str) -> Result<Operation, String> {
    assert!(Operation::parse_completes(s));
    Operation::parse(s)
}

#[test]
fn parse_each_command() {
    assert!(matches!(parse("Set hello world"), Ok(Operation::SetString(s)) if s == "hello world"));
    assert!(matches!(parse("Clear"), Ok(Operation::Clear)));
    assert!(matches!(parse("Remove 3"), Ok(Operation::Remove(3))));
    assert!(matches!(parse("Insert 2 ab cd"), Ok(Operation::Insert(2, s)) if s == "ab cd"));
    assert!(matches!(parse("Uppercase"), Ok(Operation::Uppercase)));
    assert!(matches!(parse("Lowercase"), Ok(Operation::Lowercase)));
    assert!(matches!(parse("Vigenere cipher KEY"), Ok(Operation::VigenereCipher(k)) if k == "KEY"));
    assert!(matches!(parse("Vigenere decipher KEY"), Ok(Operation::VigenereDecipher(k)) if k == "KEY"));
}

#[test]
fn parse_errors() {
    assert!(matches!(parse("Remove"), Err(e) if e == "Command usage:\n Remove index"));
    assert!(matches!(parse("Remove x"), Err(e) if e == "Index must be an integer"));
    assert!(matches!(parse("Insert"), Err(e) if e == "Command usage:\n Insert index string"));
    assert!(matches!(parse("Insert -1 a"), Err(e) if e == "Index must be an integer"));
    assert!(matches!(parse("Vigenere shift k"), Err(e) if e == "Option only supports cipher and decipher"));
    assert!(matches!(parse("Reverse"), Err(e) if e == "Invalid operation"));
}

#[test]
fn parse_fixed_offsets() {
    // The argument of Set starts at byte 4 of the line, whatever precedes it.
    assert!(matches!(parse("Set    x"), Ok(Operation::SetString(s)) if s == "   x"));
    assert!(!Operation::parse_completes("Set"));
    assert!(!Operation::parse_completes("   "));
    assert!(!Operation::parse_completes("Insert 2"));
    assert!(Operation::parse_completes("Insert 2 abc"));
    assert!(!Operation::parse_completes("Vigenere"));
    assert!(Operation::parse_completes("Insert 2 abc d"));
}

#[test]
fn apply_each_operation() {
    assert_eq!(Operation::SetString("abc".to_string()).apply("xyz"), "abc");
    assert_eq!(Operation::Clear.apply("xyz"), "");
    assert_eq!(Operation::Remove(1).apply("xyz"), "xz");
    assert_eq!(Operation::Insert(1, "AB".to_string()).apply("xyz"), "xAByz");
    assert_eq!(Operation::Insert(3, "!".to_string()).apply("xyz"), "xyz!");
    assert_eq!(Operation::Uppercase.apply("Olá mundo"), "OLÁ MUNDO");
    assert_eq!(Operation::Lowercase.apply("ÉCOLE"), "école");
}

#[test]
fn byte_offsets_respect_characters() {
    let s = "aéb";
    assert!(Operation::Remove(1).applies_to(s));
    assert!(!Operation::Remove(2).applies_to(s));
    assert!(Operation::Remove(3).applies_to(s));
    assert!(!Operation::Remove(4).applies_to(s));
    assert_eq!(Operation::Remove(1).apply(s), "ab");
    assert_eq!(Operation::Insert(3, "-".to_string()).apply(s), "aé-b");
    assert!(Operation::Insert(4, "-".to_string()).applies_to(s));
    assert!(!Operation::Insert(5, "-".to_string()).applies_to(s));
}

#[test]
fn cipher_single_bytes() {
    assert_eq!(Operation::cipher(&b'A', b'B'), 'B');
    assert_eq!(Operation::cipher(&b'Z', b'B'), 'A');
    assert_eq!(Operation::cipher(&b'h', b'k'), 'r');
    assert_eq!(Operation::cipher(&b'!', b'k'), '!');
    assert_eq!(Operation::decipher(&b'B', b'B'), 'A');
    assert_eq!(Operation::decipher(&b'A', b'B'), 'Z');
    assert_eq!(Operation::decipher(&b'r', b'k'), 'h');
    assert_eq!(Operation::decipher(&b' ', b'k'), ' ');
}

#[test]
fn vigenere_round_trip() {
    let key = "LEMON".to_string();
    let plain = "ATTACK AT DAWN";
    let c = Operation::VigenereCipher(key.clone());
    assert!(c.applies_to(plain));
    let secret = c.apply(plain);
    assert_eq!(secret, "LXFOPV MH OEIB");
    let d = Operation::VigenereDecipher(key);
    assert!(d.applies_to(&secret));
    assert_eq!(d.apply(&secret), plain);
}

#[test]
fn vigenere_refuses_empty_key_and_mixed_cases() {
    assert!(!Operation::VigenereCipher("".to_string()).applies_to("abc"));
    assert!(!Operation::VigenereCipher("A".to_string()).applies_to("abc"));
    assert!(Operation::VigenereCipher("a".to_string()).applies_to("abc"));
}

#[test]
fn vigenere_works_on_bytes() {
    // Non-ASCII text is ciphered byte by byte; the bytes come back as
    // the characters of the same code.
    let out = Operation::VigenereCipher("a".to_string()).apply("é");
    assert_eq!(out, "\u{c3}\u{a9}");
}

#[test]
fn remove_undoes_insert() {
    let s = "aéb";
    let grown = Operation::Insert(1, "ü".to_string()).apply(s);
    assert_eq!(grown, "aüéb");
    assert!(Operation::Remove(1).applies_to(&grown));
    assert_eq!(Operation::Remove(1).apply(&grown), s);
}
