use bag::{bigram, Bag};

#[test]
fn insert_raises_occurrence_by_one() {
    let mut bag = Bag::new();
    for round in 0..5usize {
        let before = bag.occurrence(&'x');
        assert_eq!(before, round);
        bag.insert('x');
        assert_eq!(bag.occurrence(&'x'), before + 1);
        assert_eq!(bag.occurrence(&'y'), 0);
    }
}

#[test]
fn put_is_insert() {
    let mut put = Bag::new();
    let mut inserted = Bag::new();
    for item in [3, 1, 3, 3, 2] {
        put.put(item);
        inserted.insert(item);
    }
    assert!(put == inserted);
    assert_eq!(put.occurrence(&3), 3);
    assert_eq!(put.len(), 5);
}

#[test]
fn len_counts_every_insertion() {
    let items = vec![7, 7, 7, 1, 2, 2, 9, 7];
    let mut bag = Bag::new();
    let mut n = 0;
    for item in items.iter() {
        assert_eq!(bag.len(), n);
        bag.insert(*item);
        n += 1;
    }
    assert_eq!(bag.len(), items.len());
    assert_eq!(Bag::from_iter(items).len(), 8);
}

#[test]
fn occurrences_sum_to_len() {
    let bag = Bag::from_iter(vec!['a', 'b', 'r', 'a', 'c', 'a', 'd', 'a', 'b', 'r', 'a']);
    let mut sum = 0;
    let mut seen = Vec::new();
    let mut walk = bag.distinct();
    while let Some(&e) = walk.next() {
        assert!(!seen.contains(&e));
        seen.push(e);
        sum += bag.occurrence(&e);
    }
    assert_eq!(seen.len(), 5);
    assert_eq!(sum, bag.len());
    assert_eq!(sum, 11);

    let mut pairs = 0;
    let mut total = 0;
    let mut walk = bag.frequency();
    while let Some((_, &c)) = walk.next() {
        pairs += 1;
        total += c;
    }
    assert_eq!(pairs, 5);
    assert_eq!(total, 11);
}

#[test]
fn empty_bag_holds_nothing() {
    let bag: Bag<&str> = Bag::new();
    assert_eq!(bag.occurrence(&"anything"), 0);
    assert_eq!(bag.occurrence(&""), 0);
    assert_eq!(bag.len(), 0);
    assert!(bag.is_empty());
    assert!(bag.frequency().next().is_none());
    assert!(bag.iter().next().is_none());
    assert!(bag.distinct().next().is_none());
    assert_eq!(bag.distinct().size_hint(), (0, Some(0)));
    assert!(Bag::<u8>::from_iter(Vec::new()).is_empty());
}

#[test]
fn is_empty_follows_len() {
    let mut bag = Bag::new();
    assert!(bag.is_empty());
    bag.insert(0u8);
    assert!(!bag.is_empty());
    assert_eq!(bag.len(), 1);
}

#[test]
fn equality_ignores_order() {
    let one = Bag::from_iter(vec![1, 2, 2, 3, 3, 3]);
    let other = Bag::from_iter(vec![3, 2, 3, 1, 3, 2]);
    assert!(one == other);
    assert!(other == one);
    assert!(one.same_as(&other));

    let mut built = Bag::new();
    for item in [3, 3, 3, 2, 2, 1] {
        built.insert(item);
    }
    assert!(built == one);
}

#[test]
fn equality_sees_every_count() {
    let one = Bag::from_iter(vec![1, 2, 2]);
    let fewer = Bag::from_iter(vec![1, 2]);
    let swapped = Bag::from_iter(vec![1, 1, 2]);
    let other_key = Bag::from_iter(vec![1, 2, 3]);
    let empty = Bag::new();
    assert!(one != fewer);
    assert!(fewer != one);
    assert!(one != swapped);
    assert!(one != other_key);
    assert!(other_key != one);
    assert!(one != empty);
    assert!(empty != one);
    assert!(!one.same_as(&swapped));
    assert!(empty == Bag::new());
}

#[test]
fn clone_is_equal_and_apart() {
    let one = Bag::from_iter(vec!["a", "b", "a"]);
    let mut copy = one.clone();
    assert!(copy == one);
    copy.insert("a");
    assert!(copy != one);
    assert_eq!(one.occurrence(&"a"), 2);
    assert_eq!(copy.occurrence(&"a"), 3);
}

#[test]
fn bigram_of_three() {
    let bag = bigram(&['a', 'b', 'c']);
    assert_eq!(bag.occurrence(&('a', 'b')), 1);
    assert_eq!(bag.occurrence(&('b', 'c')), 1);
    assert_eq!(bag.occurrence(&('a', 'c')), 0);
    assert_eq!(bag.occurrence(&('b', 'a')), 0);
    assert_eq!(bag.len(), 2);
}

#[test]
fn bigram_of_short_input_is_empty() {
    let none: [u32; 0] = [];
    assert!(bigram(&none).is_empty());
    assert_eq!(bigram(&none).len(), 0);
    assert!(bigram(&[5u32]).is_empty());
    assert!(bigram(&[5u32]) == Bag::new());
    assert_eq!(bigram(&[5u32, 5]).len(), 1);
    assert_eq!(bigram(&[5u32, 5]).occurrence(&(5, 5)), 1);
}

#[test]
fn bigram_counts_repeated_neighbours() {
    let bag = bigram(&[1, 1, 1, 1]);
    assert_eq!(bag.occurrence(&(1, 1)), 3);
    assert_eq!(bag.len(), 3);
    let mut walk = bag.distinct();
    assert_eq!(walk.next(), Some(&(1, 1)));
    assert_eq!(walk.next(), None);
}

#[test]
fn scenario_one_one_two() {
    let mut bag = Bag::new();
    bag.insert(1);
    bag.insert(1);
    bag.insert(2);
    assert_eq!(bag.occurrence(&1), 2);
    assert_eq!(bag.occurrence(&2), 1);
    assert_eq!(bag.occurrence(&3), 0);
    assert_eq!(bag.len(), 3);
}

#[test]
fn scenario_six_words() {
    let words = vec!["I", "am", "18", "years", "old", "."];
    let bag = Bag::from_iter(words.clone());
    for word in words.iter() {
        assert_eq!(bag.occurrence(word), 1);
    }
    assert_eq!(bag.len(), 6);
    let mut keys = 0;
    let mut walk = bag.distinct();
    while let Some(word) = walk.next() {
        assert!(words.contains(word));
        keys += 1;
    }
    assert_eq!(keys, 6);
}

#[test]
fn scenario_abracadabra_neighbours() {
    let bag = bigram(&['a', 'b', 'r', 'a', 'c', 'a', 'd', 'a', 'b', 'r', 'a']);
    assert_eq!(bag.len(), 10);
    assert_eq!(bag.occurrence(&('a', 'b')), 2);
    assert_eq!(bag.occurrence(&('b', 'r')), 2);
    assert_eq!(bag.occurrence(&('r', 'a')), 2);
    assert_eq!(bag.occurrence(&('a', 'c')), 1);
    assert_eq!(bag.occurrence(&('c', 'a')), 1);
    assert_eq!(bag.occurrence(&('a', 'd')), 1);
    assert_eq!(bag.occurrence(&('d', 'a')), 1);
    assert_eq!(bag.occurrence(&('a', 'a')), 0);
}

#[test]
fn counts_of_mixed_input() {
    let bag = Bag::from_iter(vec![0, 0, 1, 0, 1]);
    assert_eq!(bag.occurrence(&0), 3);
    assert_eq!(bag.occurrence(&1), 2);
    assert_eq!(bag.occurrence(&2), 0);
    assert_eq!(Bag::from_iter(vec![1, 1, 2]).len(), 3);
    assert_eq!(Bag::from_iter(vec![1, 1, 2, 2]).len(), 4);
}

#[test]
fn frequency_hands_out_each_pair_once() {
    let bag = Bag::from_iter(vec![10u8, 20, 10, 30, 10, 20]);
    let mut walk = bag.frequency();
    assert_eq!(walk.size_hint(), (3, Some(3)));
    let mut seen = Vec::new();
    let mut left = 3;
    while let Some((&e, &c)) = walk.next() {
        left -= 1;
        assert_eq!(walk.size_hint(), (left, Some(left)));
        seen.push((e, c));
    }
    assert!(walk.next().is_none());
    assert!(walk.next().is_none());
    seen.sort();
    assert_eq!(seen, vec![(10, 3), (20, 2), (30, 1)]);
}

#[test]
fn traversals_start_over() {
    let bag = Bag::from_iter(vec!['p', 'q', 'p']);
    for _ in 0..2 {
        let mut elems = Vec::new();
        let mut walk = bag.distinct();
        assert_eq!(walk.size_hint(), (2, Some(2)));
        while let Some(&e) = walk.next() {
            elems.push(e);
        }
        elems.sort();
        assert_eq!(elems, vec!['p', 'q']);
    }
}

#[test]
fn debug_shows_every_pair() {
    let shown = format!("{:?}", Bag::from_iter(vec![41, 41, 41]));
    assert!(shown.contains("41: 3"));
    assert!(shown.starts_with("Bag"));
}
