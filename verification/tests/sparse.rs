use bitmap::{BitmapError, Run, SparseBitmap};

#[test]
fn test_set_sparse() {
    let mut bitmap = SparseBitmap::new(5);

    bitmap.set(0, true);
    bitmap.set(1, true);
    bitmap.set(2, true);

    assert_eq!(bitmap, SparseBitmap::from("00111"));

    bitmap = SparseBitmap::from("11111");

    bitmap.set(0, true);
    bitmap.set(1, true);
    bitmap.set(2, true);

    assert_eq!(bitmap, SparseBitmap::from("11111"));

    bitmap.set(0, false);
    bitmap.set(2, false);
    bitmap.set(4, false);

    assert_eq!(bitmap, SparseBitmap::from("01010"));
}

#[test]
fn test_set_merges_runs_sparse() {
    let mut bitmap = SparseBitmap::new(5);

    bitmap.set(0, true);
    bitmap.set(2, true);
    bitmap.set(3, true);
    bitmap.set(1, true);

    assert_eq!(bitmap.runs, vec![Run::new(0, 4)]);
    assert_eq!(bitmap, SparseBitmap::from("01111"));
}

#[test]
fn test_set_splits_runs_sparse() {
    let mut bitmap = SparseBitmap::new(5);

    bitmap.set(0, true);
    bitmap.set(1, true);
    bitmap.set(2, true);
    bitmap.set(3, true);
    bitmap.set(4, true);
    bitmap.set(1, true);

    bitmap.set(2, false);

    assert_eq!(bitmap.runs, vec![Run::new(0, 2), Run::new(3, 2)]);
    assert_eq!(bitmap, SparseBitmap::from("11011"));
}

#[test]
fn test_set_add_zero_empty_runs_sparse() {
    let mut bitmap = SparseBitmap::new(5);

    bitmap.set(0, false);
    bitmap.set(1, false);
    bitmap.set(2, false);
    bitmap.set(3, false);

    assert_eq!(bitmap.runs, vec![]);
    assert_eq!(bitmap, SparseBitmap::from("00000"));
}

#[test]
fn test_get_sparse() {
    let bitmap = SparseBitmap::from("11001");

    assert_eq!(bitmap.get(0), true);
    assert_eq!(bitmap.get(1), false);
    assert_eq!(bitmap.get(2), false);
    assert_eq!(bitmap.get(3), true);
    assert_eq!(bitmap.get(4), true);
    assert_eq!(bitmap.get(5), false);
    assert_eq!(bitmap.get(6), false);
}

#[test]
fn test_sparse_and() {
    let first = SparseBitmap::from("00011");
    let second = SparseBitmap::from("01010");

    assert_eq!(&first & &second, SparseBitmap::from("00010"));
}

#[test]
fn test_sparse_or() {
    let first = SparseBitmap::from("01001");
    let second = SparseBitmap::from("10010");

    assert_eq!(&first | &second, SparseBitmap::from("11011"));
}

#[test]
fn test_sparse_not() {
    assert_eq!(!&SparseBitmap::from("10101"), SparseBitmap::from("01010"));
    assert_eq!(!&SparseBitmap::from("11000"), SparseBitmap::from("00111"));
    assert_eq!(!&SparseBitmap::from("11011"), SparseBitmap::from("00100"));
    assert_eq!(!&SparseBitmap::from("11111"), SparseBitmap::from("00000"));
}

#[test]
fn test_sparse_xor() {
    assert_eq!(
        &SparseBitmap::from("00011") ^ &SparseBitmap::from("00010"),
        SparseBitmap::from("00001")
    );
    assert_eq!(
        &SparseBitmap::from("11001") ^ &SparseBitmap::from("01100"),
        SparseBitmap::from("10101")
    );
    assert_eq!(
        &SparseBitmap::from("11111") ^ &SparseBitmap::from("01101"),
        SparseBitmap::from("10010")
    );
    assert_eq!(
        &SparseBitmap::from("11111") ^ &SparseBitmap::from("11111"),
        SparseBitmap::from("00000")
    );
    assert_eq!(
        &SparseBitmap::from("00110") ^ &SparseBitmap::from("00110"),
        SparseBitmap::from("00000")
    );
    assert_eq!(
        &SparseBitmap::from("10101") ^ &SparseBitmap::from("01010"),
        SparseBitmap::from("11111")
    );
    assert_eq!(
        &SparseBitmap::from("11111") ^ &SparseBitmap::from("00000"),
        SparseBitmap::from("11111")
    );
}

#[test]
fn test_sparse_new() {
    let bitmap = SparseBitmap::new(9);
    assert_eq!(bitmap.size, 9);
    assert_eq!(bitmap.runs, vec![]);
    for position in 0..12 {
        assert!(!bitmap.get(position));
    }
    assert_eq!(bitmap.to_string(), "000000000");
    assert_eq!(SparseBitmap::new(0).to_string(), "");
}

#[test]
fn test_sparse_from_runs() {
    assert_eq!(SparseBitmap::from("").runs, vec![]);
    assert_eq!(SparseBitmap::from("0").runs, vec![]);
    assert_eq!(SparseBitmap::from("1").runs, vec![Run::new(0, 1)]);
    assert_eq!(SparseBitmap::from("11001").runs, vec![Run::new(0, 1), Run::new(3, 2)]);
    assert_eq!(SparseBitmap::from("0111010").runs, vec![Run::new(1, 1), Run::new(3, 3)]);
    assert_eq!(SparseBitmap::from("1111").runs, vec![Run::new(0, 4)]);
    assert_eq!(SparseBitmap::from("1000").runs, vec![Run::new(3, 1)]);
    assert_eq!(SparseBitmap::from("0111010").size, 7);
}

#[test]
fn test_sparse_parse() {
    assert_eq!(SparseBitmap::parse("11001"), Ok(SparseBitmap::from("11001")));
    assert_eq!(
        SparseBitmap::parse("0110"),
        Ok(SparseBitmap { runs: vec![Run::new(1, 2)], size: 4 })
    );
    assert_eq!(SparseBitmap::parse(""), Ok(SparseBitmap::new(0)));
    assert_eq!(SparseBitmap::parse("1x1"), Err(BitmapError::UnexpectedCharacter));
    assert_eq!(SparseBitmap::parse("2"), Err(BitmapError::UnexpectedCharacter));
    assert_eq!(SparseBitmap::parse("01 "), Err(BitmapError::UnexpectedCharacter));
    assert_eq!(SparseBitmap::parse("01\u{661}"), Err(BitmapError::UnexpectedCharacter));
}

#[test]
fn test_sparse_round_trip() {
    for text in all_texts(6) {
        assert_eq!(SparseBitmap::from(&text).to_string(), text);
    }
    for text in ["", "0", "1", "0000000000", "1111111111", "1010101010101010101"] {
        assert_eq!(SparseBitmap::from(text).to_string(), text);
    }
}

#[test]
fn test_sparse_to_bits() {
    assert_eq!(
        SparseBitmap::from("11001").to_bits(),
        vec![true, false, false, true, true]
    );
    assert_eq!(SparseBitmap::new(3).to_bits(), vec![false, false, false]);
    assert_eq!(
        SparseBitmap::from("011101").to_bits(),
        vec![true, false, true, true, true, false]
    );
}

#[test]
fn test_sparse_set_then_render() {
    let mut bitmap = SparseBitmap::from("00111");
    bitmap.set(4, true);
    assert_eq!(bitmap.to_string(), "10111");
    assert_eq!(bitmap, SparseBitmap::from("10111"));
    bitmap.set(4, false);
    assert_eq!(bitmap.to_string(), "00111");
    assert_eq!(bitmap.runs, vec![Run::new(0, 3)]);
    assert_eq!(bitmap, SparseBitmap::from("00111"));
}

#[test]
fn test_sparse_clear_inside_splits() {
    let mut bitmap = SparseBitmap::from("11111");
    bitmap.set(2, false);
    assert_eq!(bitmap.runs, vec![Run::new(0, 2), Run::new(3, 2)]);
    assert_eq!(bitmap.to_string(), "11011");

    let mut bitmap = SparseBitmap::from("11111");
    bitmap.set(3, false);
    assert_eq!(bitmap.runs, vec![Run::new(0, 3), Run::new(4, 1)]);
    assert_eq!(bitmap.to_string(), "10111");

    let mut bitmap = SparseBitmap::from("1110111");
    bitmap.set(1, false);
    assert_eq!(bitmap.runs, vec![Run::new(0, 1), Run::new(2, 1), Run::new(4, 3)]);
    assert_eq!(bitmap, SparseBitmap::from("1110101"));
}

#[test]
fn test_sparse_set_without_touching_run() {
    let mut bitmap = SparseBitmap::from("0100010");
    bitmap.set(3, true);
    assert_eq!(bitmap.runs, vec![Run::new(1, 1), Run::new(3, 1), Run::new(5, 1)]);
    assert_eq!(bitmap, SparseBitmap::from("0101010"));
    bitmap.set(3, false);
    assert_eq!(bitmap.runs, vec![Run::new(1, 1), Run::new(5, 1)]);
    assert_eq!(bitmap, SparseBitmap::from("0100010"));

    let mut bitmap = SparseBitmap::from("0100000");
    bitmap.set(4, true);
    assert_eq!(bitmap.runs, vec![Run::new(4, 2)]);
    bitmap.set(0, false);
    assert_eq!(bitmap.runs, vec![Run::new(4, 2)]);
    bitmap.set(0, true);
    assert_eq!(bitmap.runs, vec![Run::new(0, 1), Run::new(4, 2)]);
    bitmap.set(2, true);
    assert_eq!(bitmap.runs, vec![Run::new(0, 1), Run::new(2, 1), Run::new(4, 2)]);
}

#[test]
fn test_sparse_set_new_and_find_starting_after() {
    let mut bitmap = SparseBitmap::from("001000100");
    assert_eq!(bitmap.find_starting_after(0), 0);
    assert_eq!(bitmap.find_starting_after(2), 1);
    assert_eq!(bitmap.find_starting_after(5), 1);
    assert_eq!(bitmap.find_starting_after(6), 2);
    bitmap.set_new(4);
    assert_eq!(bitmap.runs, vec![Run::new(2, 1), Run::new(4, 1), Run::new(6, 1)]);
    bitmap.set_new(0);
    assert_eq!(bitmap.runs, vec![Run::new(0, 1), Run::new(2, 1), Run::new(4, 1), Run::new(6, 1)]);
    bitmap.set_new(8);
    assert_eq!(bitmap, SparseBitmap::from("101010101"));
    let mut bitmap = SparseBitmap::from("001100000");
    bitmap.set_new(4);
    assert_eq!(bitmap.runs, vec![Run::new(4, 3)]);
}

#[test]
fn test_sparse_append_span() {
    let mut bitmap = SparseBitmap::new(6);
    bitmap.append_span(1, 3);
    assert_eq!(bitmap.runs, vec![Run::new(1, 2)]);
    bitmap.append_span(3, 3);
    bitmap.append_span(4, 2);
    assert_eq!(bitmap.runs, vec![Run::new(1, 2)]);
    bitmap.append_span(3, 4);
    assert_eq!(bitmap.runs, vec![Run::new(1, 3)]);
    bitmap.append_span(5, 9);
    assert_eq!(bitmap.runs, vec![Run::new(1, 3), Run::new(5, 1)]);
    bitmap.append_span(6, 9);
    bitmap.append_span(7, 9);
    assert_eq!(bitmap.runs, vec![Run::new(1, 3), Run::new(5, 1)]);
}

#[test]
fn test_sparse_set_after_set() {
    let mut bitmap = SparseBitmap::new(6);
    bitmap.set(4, true);
    bitmap.set(4, false);
    bitmap.set(5, true);
    assert_eq!(bitmap.get(5), true);
    assert_eq!(bitmap.get(4), false);
    assert_eq!(bitmap, SparseBitmap::from("100000"));

    let mut bitmap = SparseBitmap::new(5);
    bitmap.set(4, true);
    bitmap.set(2, true);
    assert_eq!(bitmap, SparseBitmap::from("10100"));
    assert_eq!(bitmap.get(2), true);
    assert_eq!((&bitmap & &bitmap).get(2), true);
    assert_eq!(&bitmap & &bitmap, bitmap);
    assert_eq!(&bitmap | &bitmap, bitmap);
    assert_eq!(&bitmap ^ &bitmap, SparseBitmap::new(5));
}

#[test]
fn test_sparse_set_keeps_canonical_runs() {
    for text in all_texts(6) {
        let before = SparseBitmap::from(&text);
        for position in 0..6 {
            for value in [false, true] {
                let mut after = before.clone();
                after.set(position, value);
                assert_eq!(after, SparseBitmap::from(&after.to_string()));
            }
        }
    }
    let mut bitmap = SparseBitmap::new(7);
    for position in [5, 1, 3, 6, 0, 4, 2] {
        bitmap.set(position, true);
        assert_eq!(bitmap, SparseBitmap::from(&bitmap.to_string()));
    }
    assert_eq!(bitmap.runs, vec![Run::new(0, 7)]);
    for position in [3, 0, 6, 5, 1] {
        bitmap.set(position, false);
        assert_eq!(bitmap, SparseBitmap::from(&bitmap.to_string()));
    }
}

#[test]
fn test_sparse_set_at_run_start_grows_left() {
    let mut bitmap = SparseBitmap::from("00110");
    bitmap.set(1, true);
    assert_eq!(bitmap.runs, vec![Run::new(0, 3)]);
    assert_eq!(bitmap.to_string(), "00111");
    bitmap.set(0, true);
    assert_eq!(bitmap.runs, vec![Run::new(0, 3)]);

    let mut bitmap = SparseBitmap::from("0110011");
    bitmap.set(4, true);
    assert_eq!(bitmap.runs, vec![Run::new(0, 2), Run::new(3, 3)]);
    bitmap.set(3, true);
    assert_eq!(bitmap.runs, vec![Run::new(0, 6)]);
    assert_eq!(bitmap.to_string(), "0111111");
}

#[test]
fn test_sparse_set_after_run_end_grows_right() {
    let mut bitmap = SparseBitmap::from("0100011");
    bitmap.set(2, true);
    assert_eq!(bitmap.runs, vec![Run::new(0, 3), Run::new(5, 1)]);
    bitmap.set(3, true);
    assert_eq!(bitmap.runs, vec![Run::new(0, 4), Run::new(5, 1)]);
    bitmap.set(4, true);
    assert_eq!(bitmap.runs, vec![Run::new(0, 6)]);
    assert_eq!(bitmap.to_string(), "0111111");
}

#[test]
fn test_sparse_set_joins_neighbours() {
    let mut bitmap = SparseBitmap::from("00110111");
    bitmap.set(3, true);
    assert_eq!(bitmap.runs, vec![Run::new(0, 6)]);

    let mut bitmap = SparseBitmap::from("10011011");
    bitmap.set(3, true);
    assert_eq!(bitmap.runs, vec![Run::new(0, 5), Run::new(7, 1)]);
    assert_eq!(bitmap.to_string(), "10011111");

    let mut bitmap = SparseBitmap::from("00110111");
    bitmap.set(6, true);
    assert_eq!(bitmap.runs, vec![Run::new(0, 3), Run::new(4, 3)]);
}

#[test]
fn test_sparse_clear_after_run_end_shrinks() {
    let mut bitmap = SparseBitmap::from("00011");
    bitmap.set(2, false);
    assert_eq!(bitmap.runs, vec![Run::new(0, 1)]);
    assert_eq!(bitmap.to_string(), "00001");
    bitmap.set(1, false);
    assert_eq!(bitmap.runs, vec![]);
    assert_eq!(bitmap, SparseBitmap::new(5));
    bitmap.set(0, false);
    assert_eq!(bitmap.runs, vec![]);
    bitmap.set(1, true);
    assert_eq!(bitmap.runs, vec![Run::new(1, 1)]);
    assert_eq!(bitmap.to_string(), "00010");
}

#[test]
fn test_sparse_try_set() {
    let mut bitmap = SparseBitmap::from("00111");
    assert_eq!(bitmap.try_set(4, true), Ok(()));
    assert_eq!(bitmap.to_string(), "10111");
    assert_eq!(bitmap.try_set(5, true), Err(BitmapError::IndexOutOfBounds));
    assert_eq!(bitmap.try_set(usize::MAX, false), Err(BitmapError::IndexOutOfBounds));
    assert_eq!(bitmap.to_string(), "10111");
    let mut empty = SparseBitmap::new(0);
    assert_eq!(empty.try_set(0, true), Err(BitmapError::IndexOutOfBounds));
}

#[test]
fn test_sparse_get_at_size() {
    let bitmap = SparseBitmap::from("11111");
    assert_eq!(bitmap.get(4), true);
    assert_eq!(bitmap.get(5), false);
    let passing = SparseBitmap { runs: vec![Run::new(0, 8)], size: 5 };
    assert_eq!(passing.get(5), true);
    assert_eq!(passing.get(6), false);
    assert_eq!(passing.get(7), false);
}

#[test]
fn test_sparse_find() {
    let bitmap = SparseBitmap { runs: vec![Run::new(6, 2), Run::new(0, 3), Run::new(3, 1)], size: 9 };
    assert_eq!(bitmap.find_touching(0), Some(1));
    assert_eq!(bitmap.find_touching(3), Some(1));
    assert_eq!(bitmap.find_touching(4), Some(2));
    assert_eq!(bitmap.find_touching(5), None);
    assert_eq!(bitmap.find_touching(8), Some(0));
    assert_eq!(bitmap.find_stopping_at(3), Some(1));
    assert_eq!(bitmap.find_stopping_at(8), Some(0));
    assert_eq!(bitmap.find_stopping_at(5), None);
    assert_eq!(bitmap.find_starting_at(3), Some(2));
    assert_eq!(bitmap.find_starting_at(6), Some(0));
    assert_eq!(bitmap.find_starting_at(1), None);
}

#[test]
fn test_sparse_append() {
    let mut bitmap = SparseBitmap::new(10);
    bitmap.append(Run::new(1, 2));
    assert_eq!(bitmap.runs, vec![Run::new(1, 2)]);
    bitmap.append(Run::new(3, 1));
    assert_eq!(bitmap.runs, vec![Run::new(1, 3)]);
    bitmap.append(Run::new(2, 4));
    assert_eq!(bitmap.runs, vec![Run::new(1, 5)]);
    bitmap.append(Run::new(8, 1));
    assert_eq!(bitmap.runs, vec![Run::new(1, 5), Run::new(8, 1)]);
    bitmap.append(Run::new(7, 1));
    assert_eq!(bitmap.runs, vec![Run::new(1, 5), Run::new(7, 2)]);
    bitmap.append(Run::new(6, 0));
    assert_eq!(bitmap.runs, vec![Run::new(1, 5), Run::new(7, 2), Run::new(6, 0)]);
    bitmap.append(Run::new(5, 1));
    assert_eq!(bitmap.runs, vec![Run::new(1, 5), Run::new(7, 2), Run::new(5, 1)]);
    bitmap.append(Run::new(0, 1));
    assert_eq!(
        bitmap.runs,
        vec![Run::new(1, 5), Run::new(7, 2), Run::new(5, 1), Run::new(0, 1)]
    );
}

#[test]
fn test_sparse_operator_sizes() {
    let long = SparseBitmap::from("0101101");
    let short = SparseBitmap::from("101");
    assert_eq!((&long & &short).size, 3);
    assert_eq!((&short & &long).size, 3);
    assert_eq!((&long | &short).size, 3);
    assert_eq!((&long ^ &short).size, 3);
    assert_eq!((!&long).size, 7);
    assert_eq!(long.bitand(&short).size, 3);
    assert_eq!(long.bitor(&short).size, 3);
    assert_eq!(long.bitxor(&short).size, 3);
    assert_eq!(long.not().size, 7);
}

#[test]
fn test_sparse_operators_cut_runs_at_size() {
    let long = SparseBitmap::from("11111111");
    let short = SparseBitmap::from("00000");
    let or = &long | &short;
    assert_eq!(or.size, 5);
    assert_eq!(or.runs, vec![Run::new(0, 5)]);
    assert_eq!(or.get(4), true);
    assert_eq!(or.get(5), false);
    assert_eq!(&short | &long, SparseBitmap::from("11111"));
    assert_eq!(&long ^ &short, SparseBitmap::from("11111"));
    assert_eq!(&short ^ &long, SparseBitmap::from("11111"));
    assert_eq!(&long & &short, SparseBitmap::from("00000"));

    let high = SparseBitmap::from("11000");
    let or = &high | &SparseBitmap::new(3);
    assert_eq!(or.size, 3);
    assert_eq!(or.runs, vec![]);
    assert_eq!(or.get(3), false);
    assert_eq!(&high ^ &SparseBitmap::new(3), SparseBitmap::new(3));
    assert_eq!(&SparseBitmap::from("11010") ^ &SparseBitmap::from("011"), SparseBitmap::from("001"));
    assert_eq!(&SparseBitmap::from("01110") | &SparseBitmap::from("001"), SparseBitmap::from("111"));

    for a in all_texts(5) {
        for b in all_texts(3) {
            let (x, y) = (SparseBitmap::from(&a), SparseBitmap::from(&b));
            let low = &a[2..];
            let expect = |op: fn(bool, bool) -> bool| -> String {
                low.chars().zip(b.chars()).map(|(l, r)| if op(l == '1', r == '1') { '1' } else { '0' }).collect()
            };
            assert_eq!(&x & &y, SparseBitmap::from(&expect(|l, r| l && r)));
            assert_eq!(&x | &y, SparseBitmap::from(&expect(|l, r| l || r)));
            assert_eq!(&x ^ &y, SparseBitmap::from(&expect(|l, r| l != r)));
            assert_eq!(&y | &x, SparseBitmap::from(&expect(|l, r| l || r)));
            assert_eq!(&y ^ &x, SparseBitmap::from(&expect(|l, r| l != r)));
        }
    }
}

#[test]
fn test_sparse_and_of_touching_runs() {
    let and = &SparseBitmap::from("00011") & &SparseBitmap::from("01100");
    assert_eq!(and.runs, vec![]);
    assert_eq!(and, SparseBitmap::from("00000"));
    let and = &SparseBitmap::from("0100") & &SparseBitmap::from("1000");
    assert_eq!(and, SparseBitmap::from("0000"));
    let and = &SparseBitmap::from("1110111") & &SparseBitmap::from("0111110");
    assert_eq!(and.runs, vec![Run::new(1, 2), Run::new(4, 2)]);
}

#[test]
fn test_sparse_or_in_order_of_starts() {
    let or = &SparseBitmap::from("0000100") | &SparseBitmap::from("0010001");
    assert_eq!(or.runs, vec![Run::new(0, 1), Run::new(2, 1), Run::new(4, 1)]);
    assert_eq!(or, SparseBitmap::from("0010101"));
    let or = &SparseBitmap::from("0010001") | &SparseBitmap::from("0000100");
    assert_eq!(or, SparseBitmap::from("0010101"));
    let or = &SparseBitmap::from("00101") | &SparseBitmap::from("10000");
    assert_eq!(or.runs, vec![Run::new(0, 1), Run::new(2, 1), Run::new(4, 1)]);
    assert_eq!(or, SparseBitmap::from("10101"));
    let or = &SparseBitmap::from("0110110") | &SparseBitmap::from("1001001");
    assert_eq!(or.runs, vec![Run::new(0, 7)]);
    let or = &SparseBitmap::from("0011100") | &SparseBitmap::from("0001111");
    assert_eq!(or.runs, vec![Run::new(0, 5)]);
}

#[test]
fn test_sparse_not_stops_at_last_run() {
    assert_eq!((!&SparseBitmap::from("00111")).runs, vec![]);
    assert_eq!((!&SparseBitmap::from("00100")).runs, vec![Run::new(0, 2)]);
    assert_eq!((!&SparseBitmap::from("00100")).to_string(), "00011");
    assert_eq!((!&SparseBitmap::from("00000")).to_string(), "00000");
    assert_eq!((!&SparseBitmap::from("10101")).to_string(), "01010");
    let twice = !&!&SparseBitmap::from("10101");
    assert_eq!(twice.runs, vec![Run::new(0, 1), Run::new(2, 1)]);
    assert_eq!(twice.to_string(), "00101");
}

#[test]
fn test_sparse_xor_rest_of_longer_operand() {
    let xor = &SparseBitmap::from("1100001") ^ &SparseBitmap::from("0000001");
    assert_eq!(xor.runs, vec![Run::new(5, 2)]);
    assert_eq!(xor.to_string(), "1100000");
    let xor = &SparseBitmap::from("0000011") ^ &SparseBitmap::from("1100000");
    assert_eq!(xor.runs, vec![Run::new(0, 2), Run::new(5, 2)]);
    let xor = &SparseBitmap::from("1111111") ^ &SparseBitmap::from("0010100");
    assert_eq!(xor.runs, vec![Run::new(0, 2), Run::new(3, 1), Run::new(5, 2)]);
}

#[test]
fn test_sparse_algebra_on_all_small_inputs() {
    let texts = all_texts(5);
    for a in &texts {
        let x = SparseBitmap::from(a);
        assert_eq!((&x & &x).to_string(), *a);
        assert_eq!((&x | &x).to_string(), *a);
        assert_eq!((&x ^ &x).to_string(), "00000");
        for b in &texts {
            let y = SparseBitmap::from(b);
            assert_eq!((&x & &y).to_string(), (&y & &x).to_string());
            assert_eq!((&x | &y).to_string(), (&y | &x).to_string());
            assert_eq!((&x ^ &y).to_string(), (&y ^ &x).to_string());
            let and = (&x & &y).to_bits();
            let or = (&x | &y).to_bits();
            let xor = (&x ^ &y).to_bits();
            for position in 0..5 {
                assert_eq!(and[position], x.get(position) && y.get(position));
                assert_eq!(or[position], x.get(position) || y.get(position));
                assert_eq!(xor[position], x.get(position) != y.get(position));
            }
        }
    }
}

fn all_texts(length: usize) -> Vec<String> {
    let mut texts = vec![String::new()];
    for _ in 0..length {
        let mut longer = Vec::new();
        for text in &texts {
            longer.push(format!("{text}0"));
            longer.push(format!("{text}1"));
        }
        texts = longer;
    }
    texts
}

#[test]
fn test_sparse_set_changes_one_position_but_in_two_cases() {
    for text in all_texts(5) {
        let before = SparseBitmap::from(&text);
        let old = before.to_bits();
        for position in 0..5 {
            for value in [false, true] {
                let mut after = before.clone();
                after.set(position, value);
                let mut expected = old.clone();
                if value && position > 0 && old[position] && !old[position - 1] {
                    expected[position - 1] = true;
                } else if !value && position > 0 && !old[position] && old[position - 1] {
                    expected[position - 1] = false;
                } else {
                    expected[position] = value;
                }
                assert_eq!(after.size, 5);
                assert_eq!(after.to_bits(), expected);
                for (other, bit) in expected.iter().enumerate() {
                    assert_eq!(after.get(other), *bit);
                }
            }
        }
    }
}

#[test]
fn test_sparse_not_twice_drops_last_run() {
    for text in all_texts(6) {
        let bitmap = SparseBitmap::from(&text);
        let twice = !&!&bitmap;
        let mut expected = bitmap.runs.clone();
        expected.pop();
        assert_eq!(twice.runs, expected);
        assert_eq!(twice.size, 6);
        assert_eq!(twice == bitmap, bitmap.runs.is_empty());
    }
}

#[test]
fn test_sparse_not_is_complement_below_last_run() {
    for text in all_texts(6) {
        let bitmap = SparseBitmap::from(&text);
        let limit = bitmap.runs.last().map_or(0, |run| run.end());
        let not = (!&bitmap).to_bits();
        for position in 0..6 {
            assert_eq!(not[position], position < limit && !bitmap.get(position));
        }
    }
}

#[test]
fn test_sparse_de_morgan_where_it_holds() {
    let texts = all_texts(4);
    let last = |bitmap: &SparseBitmap| bitmap.runs.last().map_or(0, |run| run.end());
    for a in &texts {
        for b in &texts {
            let (x, y) = (SparseBitmap::from(a), SparseBitmap::from(b));
            let and = &x & &y;
            let left = (!&and).to_bits();
            let right = (&!&x | &!&y).to_bits();
            for position in 0..4 {
                let holds = position < last(&and)
                    || ((position >= last(&x) || x.get(position))
                        && (position >= last(&y) || y.get(position)));
                assert_eq!(left[position] == right[position], holds);
            }
            if a.starts_with('1') && b.starts_with('1') {
                assert_eq!(left, right);
            }
        }
    }
    let left = !&(&SparseBitmap::from("00000") & &SparseBitmap::from("00010"));
    let right = &!&SparseBitmap::from("00000") | &!&SparseBitmap::from("00010");
    assert_eq!(left.to_string(), "00000");
    assert_eq!(right.to_string(), "00001");
}

#[test]
fn test_sparse_de_morgan_for_or_where_it_holds() {
    let texts = all_texts(4);
    let last = |bitmap: &SparseBitmap| bitmap.runs.last().map_or(0, |run| run.end());
    for a in &texts {
        for b in &texts {
            let (x, y) = (SparseBitmap::from(a), SparseBitmap::from(b));
            let or = &x | &y;
            let left = (!&or).to_bits();
            let right = (&!&x & &!&y).to_bits();
            for position in 0..4 {
                let holds = x.get(position)
                    || y.get(position)
                    || ((position < last(&or)) == (position < last(&x) && position < last(&y)));
                assert_eq!(left[position] == right[position], holds);
            }
        }
    }
}

#[test]
fn test_sparse_operators_keep_canonical_runs() {
    let texts = all_texts(5);
    for a in &texts {
        let x = SparseBitmap::from(a);
        let not = !&x;
        assert_eq!(not, SparseBitmap::from(&not.to_string()));
        for b in &texts {
            let y = SparseBitmap::from(b);
            for result in [&x ^ &y, &x & &y, &x | &y] {
                assert_eq!(result, SparseBitmap::from(&result.to_string()));
            }
        }
    }
}

#[test]
fn test_sparse_runs_follow_from_bits() {
    for text in all_texts(6) {
        let bitmap = SparseBitmap::from(&text);
        let mut runs: Vec<Run> = Vec::new();
        let bits = bitmap.to_bits();
        let mut position = 0;
        while position < 6 {
            if bits[position] {
                let start = position;
                while position < 6 && bits[position] {
                    position += 1;
                }
                runs.push(Run::new(start, position - start));
            } else {
                position += 1;
            }
        }
        assert_eq!(bitmap.runs, runs);
    }
}

#[test]
fn test_sparse_set_one_and_set_zero() {
    let mut bitmap = SparseBitmap { runs: vec![Run::new(2, 2), Run::new(6, 1)], size: 9 };
    bitmap.set_one(3, 0);
    assert_eq!(bitmap.runs, vec![Run::new(2, 2), Run::new(6, 1)]);
    bitmap.set_one(4, 0);
    assert_eq!(bitmap.runs, vec![Run::new(2, 3), Run::new(6, 1)]);
    bitmap.set_one(5, 0);
    assert_eq!(bitmap.runs, vec![Run::new(2, 5)]);
    bitmap.set_one(2, 0);
    assert_eq!(bitmap.runs, vec![Run::new(1, 6)]);
    bitmap.set_zero(1, 0);
    assert_eq!(bitmap.runs, vec![Run::new(2, 5)]);
    bitmap.set_zero(7, 0);
    assert_eq!(bitmap.runs, vec![Run::new(2, 4)]);
    bitmap.set_zero(4, 0);
    assert_eq!(bitmap.runs, vec![Run::new(2, 2), Run::new(5, 1)]);
    bitmap.set_zero(5, 1);
    assert_eq!(bitmap.runs, vec![Run::new(2, 2)]);
    bitmap.set_zero(4, 0);
    assert_eq!(bitmap.runs, vec![Run::new(2, 1)]);
    bitmap.set_zero(3, 0);
    assert_eq!(bitmap.runs, vec![]);

    let mut bitmap = SparseBitmap::from("10");
    bitmap.set_zero(1, 0);
    assert_eq!(bitmap, SparseBitmap::from("00"));
}

#[test]
fn test_sparse_clone() {
    let bitmap = SparseBitmap::from("1011001");
    let copy = bitmap.clone();
    assert_eq!(copy, bitmap);
    assert_eq!(copy.runs, vec![Run::new(0, 1), Run::new(3, 2), Run::new(6, 1)]);
    assert_eq!(copy.size, 7);
}
