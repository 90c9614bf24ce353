use st_rust::luhn;
use st_rust::protocol::luhn::{luhn32, LuhnError};

#[test]
fn luhn_test_ok() {
    let s = b"AB725E4GHIQPL3ZFGT";
    assert_eq!(luhn32(s).unwrap(), b'G');
    assert_eq!(luhn::luhn32("AB725E4GHIQPL3ZFGT").unwrap(), 'G');
}

#[test]
fn luhn_test_invalid() {
    let s = b"3734EJEKMRHWPZQTWYQ1";
    assert!(luhn32(s).is_err());
    assert!(luhn::luhn32("3734EJEKMRHWPZQTWYQ1").is_err());
}

#[test]
fn luhn_reports_first_invalid_byte() {
    assert_eq!(luhn32(b"AB1C0"), Err(LuhnError::InvalidCharacter(b'1')));
    assert_eq!(
        luhn::luhn32("ABéC"),
        Err(luhn::LuhnError::InvalidCharacter('é'))
    );
}

#[test]
fn luhn_of_empty_input() {
    assert_eq!(luhn32(b""), Ok(b'A'));
    assert_eq!(luhn::luhn32(""), Ok('A'));
}

#[test]
fn luhn_single_symbols() {
    // 'B' has value 1: sum 1, check value 31 -> '7'.
    assert_eq!(luhn32(b"B"), Ok(b'7'));
    // 'AB': the second symbol counts twice: sum 2, check value 30 -> '6'.
    assert_eq!(luhn32(b"AB"), Ok(b'6'));
    // '7' has value 31; doubled it is 62 = 1*32 + 30, folded to 31.
    assert_eq!(luhn32(b"A7"), Ok(b'B'));
}

#[test]
fn luhn_of_long_input() {
    // Every 'A' has value 0, so the sum stays 0 however long the input.
    let s = "A".repeat(100_000);
    assert_eq!(luhn32(s.as_bytes()), Ok(b'A'));
    assert_eq!(luhn::luhn32(&s), Ok('A'));
    // 'B' at even positions counts 1, at odd positions 2: 3 per pair.
    let t = "B".repeat(64);
    assert_eq!(luhn32(t.as_bytes()), Ok(b'A'));
}
