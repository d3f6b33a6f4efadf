//! The textual form of a bitmap: one `'0'` or `'1'` per position, the
//! rightmost character being position 0.

use crate::error::BitmapError;
use vstd::prelude::*;
use vstd::string::*;

verus! {

/// The text holds no character but `'0'` and `'1'`.
pub open spec fn is_bit_string(text: Seq<char>) -> bool {
    forall|i: int| 0 <= i < text.len() ==> #[trigger] text[i] == '0' || text[i] == '1'
}

/// The bits that a text stands for: position `p` is set where the
/// character `p` places from the right is `'1'`.
pub open spec fn bits_of(text: Seq<char>) -> Seq<bool> {
    Seq::new(text.len(), |p: int| text[text.len() - 1 - p] == '1')
}

/// The text that stands for a sequence of bits.
pub open spec fn text_of(bits: Seq<bool>) -> Seq<char> {
    Seq::new(
        bits.len(),
        |k: int|
            if bits[bits.len() - 1 - k] {
                '1'
            } else {
                '0'
            },
    )
}

/// Reading back what was written gives the same text.
pub proof fn lemma_text_round_trip(text: Seq<char>)
    requires
        is_bit_string(text),
    ensures
        text_of(bits_of(text)) == text,
{
    assert(text_of(bits_of(text)) =~= text);
}

/// Writing out what was read gives the same bits.
pub proof fn lemma_bits_round_trip(bits: Seq<bool>)
    ensures
        bits_of(text_of(bits)) == bits,
        is_bit_string(text_of(bits)),
{
    assert(bits_of(text_of(bits)) =~= bits);
}

/// The text's characters as bytes, one per character, for a text of `'0'`
/// and `'1'`; any other text is refused.
pub fn bit_characters(value: &str) -> (outcome: Result<&[u8], BitmapError>)
    ensures
        match outcome {
            Ok(bytes) => {
                &&& is_bit_string(value@)
                &&& bytes@.len() == value@.len()
                &&& forall|i: int|
                    0 <= i < bytes@.len() ==> (#[trigger] bytes@[i] == 49u8) == (value@[i] == '1')
            },
            Err(e) => e == BitmapError::UnexpectedCharacter && !is_bit_string(value@),
        },
{
    if !value.is_ascii() {
        proof {
            if is_bit_string(value@) {
                assert forall|i: int| 0 <= i < value@.len() implies '\0' <= #[trigger] value@[i]
                    <= '\u{7f}' by {
                    assert(value@[i] == '0' || value@[i] == '1');
                }
            }
        }
        return Err(BitmapError::UnexpectedCharacter);
    }
    let bytes = value.as_bytes();
    proof {
        is_ascii_spec_bytes(value);
        assert(bytes@.len() == value@.len());
    }
    let mut k: usize = 0;
    while k < bytes.len()
        invariant
            k <= bytes@.len(),
            bytes@.len() == value@.len(),
            is_ascii(value),
            bytes@ == value.spec_bytes(),
            forall|i: int| 0 <= i < k ==> #[trigger] value@[i] == '0' || value@[i] == '1',
        decreases bytes.len() - k,
    {
        let byte = bytes[k];
        proof {
            is_ascii_spec_bytes(value);
            assert(byte == value@[k as int] as u8);
            assert('\0' <= value@[k as int] <= '\u{7f}');
        }
        if byte != 48u8 && byte != 49u8 {
            assert(!(value@[k as int] == '0' || value@[k as int] == '1'));
            return Err(BitmapError::UnexpectedCharacter);
        }
        k += 1;
    }
    proof {
        is_ascii_spec_bytes(value);
        assert forall|i: int| 0 <= i < bytes@.len() implies (#[trigger] bytes@[i] == 49u8) == (
        value@[i] == '1') by {
            assert(bytes@[i] == value@[i] as u8);
            assert(value@[i] == '0' || value@[i] == '1');
        }
    }
    Ok(bytes)
}

/// The text that stands for `bits`.
pub fn text_from_bits(bits: &Vec<bool>) -> (text: String)
    ensures
        text@ == text_of(bits@),
{
    let size = bits.len();
    let mut text = String::new();
    let mut k: usize = 0;
    while k < size
        invariant
            k <= size,
            size == bits@.len(),
            text@.len() == k,
            forall|i: int| 0 <= i < k ==> #[trigger] text@[i] == text_of(bits@)[i],
        decreases size - k,
    {
        proof {
            reveal_strlit("1");
            reveal_strlit("0");
        }
        if bits[size - 1 - k] {
            text.append("1");
        } else {
            text.append("0");
        }
        k += 1;
    }
    assert(text@ =~= text_of(bits@));
    text
}

} // verus!
