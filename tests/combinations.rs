use gen_combinations::CombinationIterator;

fn binomial(n: u64, k: u64) -> u64 {
    let mut r: u64 = 1;
    for i in 0..k {
        r = r * (n - i) / (i + 1);
    }
    r
}

fn all_combinations(items: &[usize], k: usize) -> Vec<Vec<usize>> {
    let mut c = CombinationIterator::new(items, k);
    let mut out = Vec::new();
    while let Some(combo) = c.next() {
        out.push(combo.into_iter().copied().collect());
    }
    out
}

#[test]
fn generate_combinations() {
    let items = [1, 2, 3];
    let mut c = CombinationIterator::new(&items, 2);
    assert_eq!(c.next(), Some(vec![&1, &2]));
    assert_eq!(c.next(), Some(vec![&1, &3]));
    assert_eq!(c.next(), Some(vec![&2, &3]));
    assert_eq!(c.next(), None);
}

#[test]
fn generate_more_combinations() {
    let items = [1, 2, 3, 4, 5];
    let mut c = CombinationIterator::new(&items, 3);
    assert_eq!(c.next(), Some(vec![&1, &2, &3]));
    assert_eq!(c.next(), Some(vec![&1, &2, &4]));
    assert_eq!(c.next(), Some(vec![&1, &2, &5]));
    assert_eq!(c.next(), Some(vec![&1, &3, &4]));
    assert_eq!(c.next(), Some(vec![&1, &3, &5]));
    assert_eq!(c.next(), Some(vec![&1, &4, &5]));
    assert_eq!(c.next(), Some(vec![&2, &3, &4]));
    assert_eq!(c.next(), Some(vec![&2, &3, &5]));
    assert_eq!(c.next(), Some(vec![&2, &4, &5]));
    assert_eq!(c.next(), Some(vec![&3, &4, &5]));
    assert_eq!(c.next(), None);
}

#[test]
fn generate_combinations_of_things_that_arent_copy_just_to_be_sure() {
    let items = [String::from("one"), String::from("two"), String::from("yeet")];
    let mut c = CombinationIterator::new(&items, 2);
    assert_eq!(c.next(), Some(vec![&String::from("one"), &String::from("two")]));
    assert_eq!(c.next(), Some(vec![&String::from("one"), &String::from("yeet")]));
    assert_eq!(c.next(), Some(vec![&String::from("two"), &String::from("yeet")]));
    assert_eq!(c.next(), None);
}

#[test]
fn misuse_arguments() {
    let items = [1, 2, 3];
    let mut c = CombinationIterator::new(&items, 500);
    assert_eq!(c.next(), None);

    let mut c = CombinationIterator::new(&items, 0);
    assert_eq!(c.next(), None);
}

#[test]
fn count_is_binomial() {
    for n in 1..=9usize {
        let items: Vec<usize> = (0..n).collect();
        for k in 1..=n {
            let all = all_combinations(&items, k);
            assert_eq!(all.len() as u64, binomial(n as u64, k as u64));
        }
    }
    let items: Vec<usize> = (0..6).collect();
    assert_eq!(all_combinations(&items, 3).len(), 20);
}

#[test]
fn each_combination_is_strictly_increasing() {
    let items: Vec<usize> = (0..7).collect();
    for k in 1..=7 {
        for combo in all_combinations(&items, k) {
            assert_eq!(combo.len(), k);
            for w in combo.windows(2) {
                assert!(w[0] < w[1]);
            }
            assert!(combo.iter().all(|&i| i < 7));
        }
    }
}

#[test]
fn combinations_come_in_lexicographic_order() {
    let items: Vec<usize> = (0..7).collect();
    for k in 1..=7 {
        let all = all_combinations(&items, k);
        for w in all.windows(2) {
            assert!(w[0] < w[1]);
        }
    }
}

#[test]
fn exhaustion_is_final() {
    let items = [1, 2, 3];
    let mut c = CombinationIterator::new(&items, 3);
    assert_eq!(c.next(), Some(vec![&1, &2, &3]));
    assert_eq!(c.next(), None);
    assert_eq!(c.next(), None);
    assert_eq!(c.next(), None);

    let mut c = CombinationIterator::new(&items, 0);
    assert_eq!(c.next(), None);
    assert_eq!(c.next(), None);

    let mut c = CombinationIterator::new(&items, 4);
    assert_eq!(c.next(), None);
    assert_eq!(c.next(), None);
}

#[test]
fn empty_items() {
    let items: [u8; 0] = [];
    let mut c = CombinationIterator::new(&items, 0);
    assert_eq!(c.next(), None);
    let mut c = CombinationIterator::new(&items, 1);
    assert_eq!(c.next(), None);
}

#[test]
fn singletons_and_whole() {
    let items = [7, 8, 9, 10];
    let mut c = CombinationIterator::new(&items, 1);
    assert_eq!(c.next(), Some(vec![&7]));
    assert_eq!(c.next(), Some(vec![&8]));
    assert_eq!(c.next(), Some(vec![&9]));
    assert_eq!(c.next(), Some(vec![&10]));
    assert_eq!(c.next(), None);

    let mut c = CombinationIterator::new(&items, 4);
    assert_eq!(c.next(), Some(vec![&7, &8, &9, &10]));
    assert_eq!(c.next(), None);
}

#[test]
fn equal_items_count_as_distinct() {
    let items = [1, 1, 2];
    let mut c = CombinationIterator::new(&items, 2);
    assert_eq!(c.next(), Some(vec![&1, &1]));
    assert_eq!(c.next(), Some(vec![&1, &2]));
    assert_eq!(c.next(), Some(vec![&1, &2]));
    assert_eq!(c.next(), None);
}

#[test]
fn results_reference_the_items() {
    let items = [String::from("a"), String::from("b"), String::from("c")];
    let mut c = CombinationIterator::new(&items, 2);
    let first = c.next().unwrap();
    let second = c.next().unwrap();
    assert!(std::ptr::eq(first[0], &items[0]));
    assert!(std::ptr::eq(first[1], &items[1]));
    assert!(std::ptr::eq(second[1], &items[2]));
}
