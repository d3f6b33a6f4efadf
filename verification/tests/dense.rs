use bitmap::{bit_index, chunks_count, Bitmap, BitmapError};

#[test]
fn test_bitmap_chunks_of_size() {
    assert_eq!(0, chunks_count(0, 16));
    assert_eq!(1, chunks_count(1, 16));
    assert_eq!(1, chunks_count(15, 16));
    assert_eq!(1, chunks_count(16, 16));
    assert_eq!(2, chunks_count(17, 16));
}

#[test]
fn test_bitmap_get() {
    let bitmap = Bitmap::from("11001");

    assert_eq!(bitmap.get(0), true);
    assert_eq!(bitmap.get(1), false);
    assert_eq!(bitmap.get(2), false);
    assert_eq!(bitmap.get(3), true);
    assert_eq!(bitmap.get(4), true);
    assert_eq!(bitmap.get(5), false);
    assert_eq!(bitmap.get(6), false);
}

#[test]
fn test_bitmap_set() {
    let mut bitmap = Bitmap::from("00111");
    bitmap.set(4, true);
    assert_eq!(bitmap, Bitmap::from("10111"));
    bitmap.set(4, false);
    assert_eq!(bitmap, Bitmap::from("00111"));
}

#[test]
fn test_bitmap_or() {
    let first = Bitmap::from("00001");
    let second = Bitmap::from("00010");

    assert_eq!(&first | &second, Bitmap::from("00011"));
}

#[test]
fn test_bitmap_and() {
    let first = Bitmap::from("00011");
    let second = Bitmap::from("00010");

    assert_eq!(&first & &second, Bitmap::from("00010"));
}

#[test]
fn test_bitmap_not() {
    let first = Bitmap::from("10101"); // 21

    assert_eq!(
        !&first,
        Bitmap {
            size: first.size,
            chunks: vec![!21]
        }
    );
}

#[test]
fn test_bitmap_xor() {
    assert_eq!(
        &Bitmap::from("00011") ^ &Bitmap::from("00010"),
        Bitmap::from("00001")
    );
    assert_eq!(
        &Bitmap::from("11001") ^ &Bitmap::from("01100"),
        Bitmap::from("10101")
    );
    assert_eq!(
        &Bitmap::from("11111") ^ &Bitmap::from("01101"),
        Bitmap::from("10010")
    );
    assert_eq!(
        &Bitmap::from("11111") ^ &Bitmap::from("11111"),
        Bitmap::from("00000")
    );
    assert_eq!(
        &Bitmap::from("00110") ^ &Bitmap::from("00110"),
        Bitmap::from("00000")
    );
    assert_eq!(
        &Bitmap::from("10101") ^ &Bitmap::from("01010"),
        Bitmap::from("11111")
    );
    assert_eq!(
        &Bitmap::from("11111") ^ &Bitmap::from("00000"),
        Bitmap::from("11111")
    );
}

#[test]
fn test_bitmap_new_is_cleared() {
    let word = usize::BITS as usize;
    for size in [0, 1, word - 1, word, word + 1, 3 * word] {
        let bitmap = Bitmap::new(size);
        assert_eq!(bitmap.size, size);
        assert_eq!(bitmap.chunks.len(), (size + word - 1) / word);
        assert!(bitmap.chunks.iter().all(|chunk| *chunk == 0));
        for position in 0..size {
            assert!(!bitmap.get(position));
        }
    }
}

#[test]
fn test_bitmap_chunks_count_without_overflow() {
    assert_eq!(chunks_count(usize::MAX, 64), usize::MAX / 64 + 1);
    assert_eq!(chunks_count(usize::MAX, 1), usize::MAX);
    assert_eq!(chunks_count(usize::MAX, usize::MAX), 1);
    assert_eq!(chunks_count(64, 64), 1);
    assert_eq!(chunks_count(65, 64), 2);
}

#[test]
fn test_bitmap_bit_index() {
    assert_eq!(bit_index(0, 64), (0, 0));
    assert_eq!(bit_index(63, 64), (0, 63));
    assert_eq!(bit_index(64, 64), (1, 0));
    assert_eq!(bit_index(200, 64), (3, 8));
    assert_eq!(bit_index(17, 16), (1, 1));
}

#[test]
fn test_bitmap_set_across_chunks() {
    let word = usize::BITS as usize;
    let size = 2 * word + 5;
    let mut bitmap = Bitmap::new(size);
    let touched = [0, word - 1, word, 2 * word, size - 1];
    for position in touched {
        bitmap.set(position, true);
    }
    for position in 0..size {
        assert_eq!(bitmap.get(position), touched.contains(&position));
    }
    assert_eq!(bitmap.chunks, vec![1 | (1 << (word - 1)), 1, 1 | (1 << 4)]);
    bitmap.set(word, false);
    bitmap.set(word, false);
    for position in 0..size {
        assert_eq!(
            bitmap.get(position),
            position != word && touched.contains(&position)
        );
    }
    assert_eq!(bitmap.chunks[1], 0);
}

#[test]
fn test_bitmap_set_then_get_leaves_others() {
    for text in ["00000", "11111", "10110", "01001"] {
        for position in 0..5 {
            for value in [false, true] {
                let before = Bitmap::from(text);
                let mut after = before.clone();
                after.set(position, value);
                for other in 0..5 {
                    let expected = if other == position {
                        value
                    } else {
                        before.get(other)
                    };
                    assert_eq!(after.get(other), expected);
                }
            }
        }
    }
}

#[test]
fn test_bitmap_try_set() {
    let mut bitmap = Bitmap::from("00111");
    assert_eq!(bitmap.try_set(4, true), Ok(()));
    assert_eq!(bitmap, Bitmap::from("10111"));
    assert_eq!(bitmap.try_set(5, true), Err(BitmapError::IndexOutOfBounds));
    assert_eq!(bitmap.try_set(usize::MAX, false), Err(BitmapError::IndexOutOfBounds));
    assert_eq!(bitmap, Bitmap::from("10111"));
    let mut empty = Bitmap::new(0);
    assert_eq!(empty.try_set(0, true), Err(BitmapError::IndexOutOfBounds));
}

#[test]
fn test_bitmap_parse() {
    assert_eq!(Bitmap::parse("11001"), Ok(Bitmap::from("11001")));
    assert_eq!(Bitmap::parse("11001").unwrap().chunks, vec![25]);
    assert_eq!(Bitmap::parse(""), Ok(Bitmap::new(0)));
    assert_eq!(Bitmap::parse("1"), Ok(Bitmap { chunks: vec![1], size: 1 }));
    assert_eq!(Bitmap::parse("10"), Ok(Bitmap { chunks: vec![2], size: 2 }));
    assert_eq!(Bitmap::parse("11021"), Err(BitmapError::UnexpectedCharacter));
    assert_eq!(Bitmap::parse("1 0"), Err(BitmapError::UnexpectedCharacter));
    assert_eq!(Bitmap::parse("10é1"), Err(BitmapError::UnexpectedCharacter));
    assert_eq!(Bitmap::parse("x"), Err(BitmapError::UnexpectedCharacter));
}

#[test]
fn test_bitmap_from_long_text() {
    let word = usize::BITS as usize;
    let mut text = String::new();
    for index in 0..(2 * word + 3) {
        text.push(if index % 3 == 0 { '1' } else { '0' });
    }
    let bitmap = Bitmap::from(&text);
    let size = text.len();
    assert_eq!(bitmap.size, size);
    assert_eq!(bitmap.chunks.len(), 3);
    for position in 0..size {
        assert_eq!(bitmap.get(position), (size - 1 - position) % 3 == 0);
    }
    for position in size..(3 * word) {
        assert!(!bitmap.get(position));
    }
}

#[test]
fn test_bitmap_operator_sizes() {
    let long = Bitmap::from("1111111");
    let short = Bitmap::from("101");
    assert_eq!((&long & &short).size, 3);
    assert_eq!((&short & &long).size, 3);
    assert_eq!((&long | &short).size, 3);
    assert_eq!((&long ^ &short).size, 3);
    assert_eq!((!&long).size, 7);
    assert_eq!(long.bitand(&short).size, 3);
    assert_eq!(long.bitor(&short).size, 3);
    assert_eq!(long.bitxor(&short).size, 3);
    assert_eq!(long.not().size, 7);

    let word = usize::BITS as usize;
    let wide = Bitmap::new(3 * word);
    let narrow = Bitmap::new(word + 1);
    assert_eq!((&wide | &narrow).chunks.len(), 2);
    assert_eq!((&narrow ^ &wide).chunks.len(), 2);
}

#[test]
fn test_bitmap_operators_on_differing_sizes() {
    let long = Bitmap::from("1111111");
    let short = Bitmap::from("101");
    let and = &long & &short;
    let xor = &long ^ &short;
    for (position, bit) in [true, false, true].into_iter().enumerate() {
        assert_eq!(and.get(position), bit);
        assert_eq!(xor.get(position), !bit);
    }
    assert_eq!(xor.chunks, vec![0b1111010]);
    assert_eq!(and.chunks, vec![0b101]);
    assert_eq!((&long | &short).chunks, vec![0b1111111]);
}

#[test]
fn test_bitmap_not_flips_padding() {
    let bitmap = Bitmap::from("10101");
    let flipped = !&bitmap;
    for (position, bit) in [false, true, false, true, false].into_iter().enumerate() {
        assert_eq!(flipped.get(position), bit);
    }
    assert_eq!(flipped.get(5), true);
    assert_eq!(flipped.get(usize::BITS as usize - 1), true);
    assert_eq!(!&flipped, bitmap);
    assert_eq!(bitmap.not().not(), bitmap);
}

#[test]
fn test_bitmap_algebra_on_all_small_inputs() {
    let texts = all_texts(4);
    for a in &texts {
        let x = Bitmap::from(a);
        assert_eq!(&x & &x, x);
        assert_eq!(&x | &x, x);
        assert_eq!(&x ^ &x, Bitmap::new(4));
        assert_eq!(!&!&x, x);
        for b in &texts {
            let y = Bitmap::from(b);
            assert_eq!(&x & &y, &y & &x);
            assert_eq!(&x | &y, &y | &x);
            assert_eq!(&x ^ &y, &y ^ &x);
            assert_eq!(!&(&x & &y), &!&x | &!&y);
            assert_eq!(!&(&x | &y), &!&x & &!&y);
            for position in 0..4 {
                assert_eq!((&x & &y).get(position), x.get(position) && y.get(position));
                assert_eq!((&x | &y).get(position), x.get(position) || y.get(position));
                assert_eq!((&x ^ &y).get(position), x.get(position) != y.get(position));
                assert_eq!((!&x).get(position), !x.get(position));
            }
        }
    }
}

fn all_texts(length: usize) -> Vec<String> {
    let mut texts = vec![String::new()];
    for _ in 0..length {
        let mut longer = Vec::new();
        for text in &texts {
            longer.push(format!("{text}0"));
            longer.push(format!("{text}1"));
        }
        texts = longer;
    }
    texts
}

#[test]
fn test_bitmap_set_one_and_set_zero() {
    let word = usize::BITS as usize;
    let mut bitmap = Bitmap::new(2 * word);
    bitmap.set_one(1, 3);
    bitmap.set_one(1, 3);
    bitmap.set_one(0, word - 1);
    assert_eq!(bitmap.chunks, vec![1 << (word - 1), 8]);
    assert!(bitmap.get(word + 3));
    assert!(bitmap.get(word - 1));
    bitmap.set_zero(1, 3);
    bitmap.set_zero(1, 4);
    assert_eq!(bitmap.chunks, vec![1 << (word - 1), 0]);
    bitmap.set_zero(0, word - 1);
    assert_eq!(bitmap, Bitmap::new(2 * word));
}

#[test]
fn test_bitmap_chunks_with_size() {
    let word = usize::BITS as usize;
    assert_eq!(Bitmap::chunks_with_size(0), Vec::<usize>::new());
    assert_eq!(Bitmap::chunks_with_size(1), vec![0]);
    assert_eq!(Bitmap::chunks_with_size(word), vec![0]);
    assert_eq!(Bitmap::chunks_with_size(word + 1), vec![0, 0]);
    assert_eq!(Bitmap::chunks_with_size(5 * word).len(), 5);
}

#[test]
fn test_bitmap_clone() {
    let bitmap = Bitmap::from("1011001");
    let copy = bitmap.clone();
    assert_eq!(copy, bitmap);
    assert_eq!(copy.chunks, vec![0b1011001]);
    assert_eq!(copy.size, 7);
}
