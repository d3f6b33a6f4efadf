use bitmap::{Bitmap, SparseBitmap};

#[test]
fn test_encodings_agree_on_get() {
    for text in ["", "0", "1", "11001", "0101101", "1111111111", "0000000000"] {
        let dense = Bitmap::from(text);
        let sparse = SparseBitmap::from(text);
        assert_eq!(dense.size, sparse.size);
        for position in 0..text.len() {
            assert_eq!(dense.get(position), sparse.get(position));
            assert_eq!(
                dense.get(position),
                text.as_bytes()[text.len() - 1 - position] == b'1'
            );
        }
    }
}

#[test]
fn test_encodings_agree_on_operators() {
    let texts = ["110010", "011011", "000000", "111111", "101010", "000111", "100001"];
    for a in texts {
        for b in texts {
            let (dense_a, dense_b) = (Bitmap::from(a), Bitmap::from(b));
            let (sparse_a, sparse_b) = (SparseBitmap::from(a), SparseBitmap::from(b));
            let pairs = [
                (&dense_a & &dense_b, &sparse_a & &sparse_b),
                (&dense_a | &dense_b, &sparse_a | &sparse_b),
                (&dense_a ^ &dense_b, &sparse_a ^ &sparse_b),
            ];
            for (dense, sparse) in pairs {
                let bits = sparse.to_bits();
                for position in 0..6 {
                    assert_eq!(dense.get(position), bits[position]);
                }
            }
        }
    }
}

#[test]
fn test_encodings_agree_on_not_up_to_last_run() {
    for text in ["110010", "100001", "111111", "101010"] {
        let dense = !&Bitmap::from(text);
        let sparse = !&SparseBitmap::from(text);
        for position in 0..6 {
            assert_eq!(dense.get(position), sparse.get(position));
        }
    }
    let dense = !&Bitmap::from("000110");
    let sparse = !&SparseBitmap::from("000110");
    assert_eq!(sparse.to_string(), "000001");
    assert_eq!(dense.get(0), sparse.get(0));
    assert_eq!(dense.get(3), true);
    assert_eq!(sparse.get(3), false);
}

#[test]
fn test_examples_from_text() {
    let bitmap = Bitmap::from("11001");
    assert_eq!(
        [0, 1, 2, 3, 4].map(|position| bitmap.get(position)),
        [true, false, false, true, true]
    );
    assert_eq!(
        (&SparseBitmap::from("00011") & &SparseBitmap::from("00010")).to_string(),
        "00010"
    );
    assert_eq!(
        (&SparseBitmap::from("00001") | &SparseBitmap::from("00010")).to_string(),
        "00011"
    );
    assert_eq!(
        (&SparseBitmap::from("11111") ^ &SparseBitmap::from("01101")).to_string(),
        "10010"
    );
    let not = !&Bitmap::from("10101");
    assert_eq!(
        [0, 1, 2, 3, 4].map(|position| not.get(position)),
        [false, true, false, true, false]
    );
}
