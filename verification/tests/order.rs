use geotable::order::{before, key_rank, stable_order, text_rank, Rank, SortKey};

fn chars(text: &str) -> Vec<char> {
    text.chars().collect()
}

fn numbers(values: &[u32]) -> Vec<SortKey> {
    values.iter().map(|value| SortKey::Number(*value)).collect()
}

fn texts(values: &[&str]) -> Vec<SortKey> {
    values.iter().map(|value| SortKey::Text(chars(value))).collect()
}

#[test]
fn text_rank_is_by_first_difference() {
    assert_eq!(text_rank(&chars("alpha"), &chars("beta")), Rank::Before);
    assert_eq!(text_rank(&chars("beta"), &chars("alpha")), Rank::After);
    assert_eq!(text_rank(&chars("alpha"), &chars("alpha")), Rank::Same);
    assert_eq!(text_rank(&chars("alpha"), &chars("alps")), Rank::Before);
}

#[test]
fn prefix_ranks_before_the_longer_text() {
    assert_eq!(text_rank(&chars(""), &chars("a")), Rank::Before);
    assert_eq!(text_rank(&chars("a"), &chars("")), Rank::After);
    assert_eq!(text_rank(&chars("ab"), &chars("abc")), Rank::Before);
    assert_eq!(text_rank(&chars(""), &chars("")), Rank::Same);
}

#[test]
fn digits_as_text_rank_by_character() {
    assert_eq!(text_rank(&chars("10"), &chars("5")), Rank::Before);
    assert_eq!(text_rank(&chars("Z"), &chars("a")), Rank::Before);
}

#[test]
fn text_rank_agrees_with_the_standard_library() {
    let samples = [
        "", "a", "A", "ab", "abc", "abd", "b", "10", "9", "é", "e", "z", "日本", "日", "😀", "~",
        "\u{7f}", "\u{80}", "\u{7ff}", "\u{800}", "\u{ffff}", "\u{10000}", "a\u{10000}", "a\u{ffff}",
    ];
    for x in samples {
        for y in samples {
            let expected = match x.cmp(y) {
                std::cmp::Ordering::Less => Rank::Before,
                std::cmp::Ordering::Equal => Rank::Same,
                std::cmp::Ordering::Greater => Rank::After,
            };
            assert_eq!(text_rank(&chars(x), &chars(y)), expected, "{:?} and {:?}", x, y);
        }
    }
}

#[test]
fn key_rank_of_numbers_is_by_size() {
    assert_eq!(key_rank(&SortKey::Number(5), &SortKey::Number(10)), Rank::Before);
    assert_eq!(key_rank(&SortKey::Number(10), &SortKey::Number(5)), Rank::After);
    assert_eq!(key_rank(&SortKey::Number(7), &SortKey::Number(7)), Rank::Same);
    assert_eq!(key_rank(&SortKey::Number(0), &SortKey::Number(u32::MAX)), Rank::Before);
}

#[test]
fn number_ranks_before_text() {
    assert_eq!(key_rank(&SortKey::Number(9), &SortKey::Text(chars("0"))), Rank::Before);
    assert_eq!(key_rank(&SortKey::Text(chars("0")), &SortKey::Number(9)), Rank::After);
}

#[test]
fn before_breaks_ties_by_position() {
    let keys = numbers(&[3, 1, 3]);
    assert!(before(&keys, false, 0, 2));
    assert!(!before(&keys, false, 2, 0));
    assert!(before(&keys, true, 0, 2));
    assert!(!before(&keys, true, 2, 0));
    assert!(!before(&keys, false, 0, 0));
    assert!(before(&keys, false, 1, 0));
    assert!(before(&keys, true, 0, 1));
}

#[test]
fn order_of_no_keys_is_empty() {
    assert_eq!(stable_order(&numbers(&[]), false), Vec::<usize>::new());
    assert_eq!(stable_order(&numbers(&[]), true), Vec::<usize>::new());
}

#[test]
fn order_of_one_key() {
    assert_eq!(stable_order(&texts(&["x"]), false), vec![0]);
    assert_eq!(stable_order(&texts(&["x"]), true), vec![0]);
}

#[test]
fn ascending_order_of_numbers() {
    assert_eq!(stable_order(&numbers(&[5, 10]), false), vec![0, 1]);
    assert_eq!(stable_order(&numbers(&[30, 10, 20]), false), vec![1, 2, 0]);
}

#[test]
fn descending_order_of_numbers() {
    assert_eq!(stable_order(&numbers(&[5, 10]), true), vec![1, 0]);
    assert_eq!(stable_order(&numbers(&[30, 10, 20]), true), vec![0, 2, 1]);
}

#[test]
fn ties_keep_their_positions_in_both_directions() {
    let keys = numbers(&[2, 1, 2, 1, 2]);
    assert_eq!(stable_order(&keys, false), vec![1, 3, 0, 2, 4]);
    assert_eq!(stable_order(&keys, true), vec![0, 2, 4, 1, 3]);
}

#[test]
fn order_of_texts() {
    let keys = texts(&["pear", "apple", "fig", "apple"]);
    assert_eq!(stable_order(&keys, false), vec![1, 3, 2, 0]);
    assert_eq!(stable_order(&keys, true), vec![0, 2, 1, 3]);
}

#[test]
fn order_agrees_with_the_standard_stable_sort() {
    let mut state: u64 = 0x853c49e6748fea9b;
    for round in 0..200 {
        let len = round % 37;
        let mut values: Vec<u32> = Vec::new();
        for _ in 0..len {
            state ^= state << 13;
            state ^= state >> 7;
            state ^= state << 17;
            values.push((state % 8) as u32);
        }
        let keys = numbers(&values);
        let mut ascending: Vec<usize> = (0..values.len()).collect();
        ascending.sort_by(|a, b| values[*a].cmp(&values[*b]));
        let mut descending: Vec<usize> = (0..values.len()).collect();
        descending.sort_by(|a, b| values[*b].cmp(&values[*a]));
        assert_eq!(stable_order(&keys, false), ascending);
        assert_eq!(stable_order(&keys, true), descending);
    }
}

#[test]
fn order_of_many_keys_is_sorted() {
    let values: Vec<u32> = (0..5000u32).map(|i| i.wrapping_mul(2654435761) % 1000).collect();
    let order = stable_order(&numbers(&values), false);
    assert_eq!(order.len(), values.len());
    for pair in order.windows(2) {
        let (a, b) = (pair[0], pair[1]);
        assert!(values[a] < values[b] || (values[a] == values[b] && a < b));
    }
}
