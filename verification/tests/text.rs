use bitmap::text::{bit_characters, text_from_bits};
use bitmap::BitmapError;

#[test]
fn test_bit_characters_accepts_zeros_and_ones() {
    assert_eq!(bit_characters(""), Ok(&b""[..]));
    assert_eq!(bit_characters("0"), Ok(&b"0"[..]));
    assert_eq!(bit_characters("1"), Ok(&b"1"[..]));
    assert_eq!(bit_characters("0110100"), Ok(&b"0110100"[..]));
}

#[test]
fn test_bit_characters_refuses_other_characters() {
    for text in ["2", "01a", "a01", "0 1", "-1", "١", "01\n", "０１", "0/1", "0:1"] {
        assert_eq!(bit_characters(text), Err(BitmapError::UnexpectedCharacter));
    }
}

#[test]
fn test_text_from_bits_puts_position_zero_last() {
    assert_eq!(text_from_bits(&vec![]), "");
    assert_eq!(text_from_bits(&vec![true]), "1");
    assert_eq!(text_from_bits(&vec![true, false]), "01");
    assert_eq!(text_from_bits(&vec![true, false, false, true, true]), "11001");
    assert_eq!(text_from_bits(&vec![false; 7]), "0000000");
}
