use mkp::format::parse_number;
use mkp::format::parse_row;
use mkp::format::parse_rows;
use mkp::format::split_lines;
use mkp::format::split_words;
use mkp::Knapsack;
use mkp::MalformedInstance;
use mkp::Ratio;

#[test]
fn text_is_read_into_items_and_capacities() {
    let knapsack = Knapsack::from(b"3 2 7 0\n6 5 4\n5 4 3\n1 2 3\n10 20\n").unwrap();
    assert_eq!(knapsack.item_count(), 3);
    assert_eq!(knapsack.dimension_count(), 2);
    assert_eq!(knapsack.capacity(), &vec![10, 20]);
    let items = knapsack.items();
    assert_eq!(items.len(), 3);
    assert_eq!(items[0].id, 1);
    assert_eq!(items[0].profit, 6);
    assert_eq!(items[0].weights, vec![5, 1]);
    assert_eq!(items[0].weighted_profit, Ratio { numerator: 6, denominator: 6 });
    assert_eq!(items[1].id, 2);
    assert_eq!(items[1].weights, vec![4, 2]);
    assert_eq!(items[2].id, 3);
    assert_eq!(items[2].profit, 4);
    assert_eq!(items[2].weights, vec![3, 3]);
    assert_eq!(items[2].weighted_profit, Ratio { numerator: 4, denominator: 6 });
}

#[test]
fn final_newline_is_optional() {
    assert!(Knapsack::from(b"1 1 0 0\n2\n3\n4").is_ok());
    assert!(Knapsack::from(b"1 1 0 0\n2\n3\n4\n").is_ok());
}

#[test]
fn blanks_of_all_kinds_separate_tokens() {
    let knapsack = Knapsack::from(b"  2\t1  0 0 \r\n+6   05\r\n\x0b5 4\x0c\r\n10\r\n").unwrap();
    assert_eq!(knapsack.items()[0].profit, 6);
    assert_eq!(knapsack.items()[1].profit, 5);
    assert_eq!(knapsack.items()[1].weights, vec![4]);
}

#[test]
fn token_that_is_no_number_is_refused() {
    let bad: [&[u8]; 7] = [
        b"3 1 0 0\n6 x 4\n5 4 3\n10\n",
        b"3 1 0 0\n6 5 4\n5 4 3\n-10\n",
        b"3 1 0 0\n6 5 4\n5 4 3\n65536\n",
        b"3 1 0 0\n6 5 4\n5 4 3\n1.5\n",
        b"3 1 0 0\n6 5 4\n5 4 3\n+\n",
        b"3 1 0 0\n6 5 4\n5 4 3\n1+\n",
        b"3 1 0 0\n6 5 4\n5 4 3\n99999999999999999999999\n",
    ];
    for text in bad {
        assert_eq!(Knapsack::from(text).err(), Some(MalformedInstance::NonNumericToken));
    }
}

#[test]
fn token_that_is_no_number_is_found_before_a_wrong_count() {
    assert_eq!(Knapsack::from(b"3 1 0\nx\n").err(), Some(MalformedInstance::NonNumericToken));
}

#[test]
fn line_with_a_wrong_number_of_tokens_is_refused() {
    let bad: [&[u8]; 7] = [
        b"",
        b"3 1 0\n6 5 4\n5 4 3\n10\n",
        b"3 1 0 0 0\n6 5 4\n5 4 3\n10\n",
        b"3 1 0 0\n6 5\n5 4 3\n10\n",
        b"3 1 0 0\n6 5 4\n5 4 3 2\n10\n",
        b"3 1 0 0\n6 5 4\n5 4 3\n10 11\n",
        b"3 1 0 0\n6 5 4\n5 4 3\n\n",
    ];
    for text in bad {
        assert_eq!(Knapsack::from(text).err(), Some(MalformedInstance::WrongTokenCount));
    }
}

#[test]
fn wrong_number_of_lines_is_refused() {
    let bad: [&[u8]; 4] = [
        b"3 1 0 0\n",
        b"3 1 0 0\n6 5 4\n5 4 3\n",
        b"3 2 0 0\n6 5 4\n5 4 3\n10 10\n",
        b"3 1 0 0\n6 5 4\n5 4 3\n10\n\n",
    ];
    for text in bad {
        assert_eq!(Knapsack::from(text).err(), Some(MalformedInstance::LengthMismatch));
    }
}

#[test]
fn instance_without_items_or_dimensions_is_refused() {
    assert_eq!(Knapsack::from(b"0 1 0 0\n\n\n10\n").err(), Some(MalformedInstance::Empty));
    assert_eq!(Knapsack::from(b"3 0 0 0\n6 5 4\n\n").err(), Some(MalformedInstance::Empty));
}

#[test]
fn rows_are_read_like_text() {
    let rows = vec![vec![2, 1, 0, 0], vec![6, 5], vec![5, 4], vec![10]];
    let knapsack = Knapsack::from_rows(&rows).unwrap();
    assert_eq!(knapsack.item_count(), 2);
    assert_eq!(knapsack.items()[1].weights, vec![4]);
    assert_eq!(knapsack.capacity(), &vec![10]);
    assert_eq!(Knapsack::from_rows(&Vec::new()).err(), Some(MalformedInstance::WrongTokenCount));
    let rows = vec![vec![2, 1, 0, 0], vec![6, 5], vec![5, 4]];
    assert_eq!(Knapsack::from_rows(&rows).err(), Some(MalformedInstance::LengthMismatch));
    let rows = vec![vec![2, 0, 0, 0], vec![6, 5]];
    assert_eq!(Knapsack::from_rows(&rows).err(), Some(MalformedInstance::Empty));
    let rows = vec![vec![2, 1, 0, 0], vec![6, 5], vec![5], vec![10]];
    assert_eq!(Knapsack::from_rows(&rows).err(), Some(MalformedInstance::WrongTokenCount));
}

#[test]
fn lines_are_cut_at_newlines() {
    assert_eq!(split_lines(b""), Vec::<Vec<u8>>::new());
    assert_eq!(split_lines(b"\n"), vec![b"".to_vec()]);
    assert_eq!(split_lines(b"a\nbc"), vec![b"a".to_vec(), b"bc".to_vec()]);
    assert_eq!(split_lines(b"a\nbc\n"), vec![b"a".to_vec(), b"bc".to_vec()]);
    assert_eq!(split_lines(b"a\n\nbc\n\n"), vec![b"a".to_vec(), b"".to_vec(), b"bc".to_vec(), b"".to_vec()]);
}

#[test]
fn words_are_cut_at_blanks() {
    assert_eq!(split_words(&b"".to_vec()), Vec::<Vec<u8>>::new());
    assert_eq!(split_words(&b"  \t ".to_vec()), Vec::<Vec<u8>>::new());
    assert_eq!(split_words(&b"12 3\t45\r".to_vec()), vec![b"12".to_vec(), b"3".to_vec(), b"45".to_vec()]);
    assert_eq!(split_words(&b" x".to_vec()), vec![b"x".to_vec()]);
}

#[test]
fn numbers_are_read_in_base_ten() {
    assert_eq!(parse_number(&b"0".to_vec()), Some(0));
    assert_eq!(parse_number(&b"65535".to_vec()), Some(65535));
    assert_eq!(parse_number(&b"000000000000000000000000123".to_vec()), Some(123));
    assert_eq!(parse_number(&b"+42".to_vec()), Some(42));
    assert_eq!(parse_number(&b"65536".to_vec()), None);
    assert_eq!(parse_number(&b"".to_vec()), None);
    assert_eq!(parse_number(&b"+".to_vec()), None);
    assert_eq!(parse_number(&b"++1".to_vec()), None);
    assert_eq!(parse_number(&b"-1".to_vec()), None);
    assert_eq!(parse_number(&b"12a".to_vec()), None);
    assert_eq!(parse_number(&b"4294967296".to_vec()), None);
}

#[test]
fn rows_hold_the_numbers_of_each_line() {
    assert_eq!(parse_row(&b" 1 22  333 ".to_vec()), Some(vec![1, 22, 333]));
    assert_eq!(parse_row(&b"".to_vec()), Some(Vec::new()));
    assert_eq!(parse_row(&b"1 two 3".to_vec()), None);
    assert_eq!(parse_rows(b"1 2\n\n3\n"), Some(vec![vec![1, 2], Vec::new(), vec![3]]));
    assert_eq!(parse_rows(b"1 2\n3 x\n"), None);
}
