use ordsearch::prefetch::{prefetch_mask, prefetch_target};
use ordsearch::walk::last_left_turn_of;
use ordsearch::OrderedCollection;
use std::cell::Cell;
use std::cmp::Ordering;

#[test]
fn complete_exact() {
    let x = OrderedCollection::from(vec![1, 2, 4, 8, 16, 32, 64]);
    assert_eq!(x.find_gte(1), Some(&1));
    assert_eq!(x.find_gte(2), Some(&2));
    assert_eq!(x.find_gte(4), Some(&4));
    assert_eq!(x.find_gte(8), Some(&8));
    assert_eq!(x.find_gte(16), Some(&16));
    assert_eq!(x.find_gte(32), Some(&32));
    assert_eq!(x.find_gte(64), Some(&64));
}

#[test]
fn complete_approximate() {
    let x = OrderedCollection::from(vec![1, 2, 4, 8, 16, 32, 64]);
    assert_eq!(x.find_gte(0), Some(&1));
    assert_eq!(x.find_gte(3), Some(&4));
    assert_eq!(x.find_gte(5), Some(&8));
    assert_eq!(x.find_gte(6), Some(&8));
    assert_eq!(x.find_gte(7), Some(&8));
    for i in 9..16 {
        assert_eq!(x.find_gte(i), Some(&16));
    }
    for i in 17..32 {
        assert_eq!(x.find_gte(i), Some(&32));
    }
    for i in 33..64 {
        assert_eq!(x.find_gte(i), Some(&64));
    }
    assert_eq!(x.find_gte(65), None);
}

#[test]
fn unbalanced_exact() {
    let x = OrderedCollection::from(vec![1, 2, 4, 8, 16, 32, 64, 128, 256]);
    assert_eq!(x.find_gte(1), Some(&1));
    assert_eq!(x.find_gte(2), Some(&2));
    assert_eq!(x.find_gte(4), Some(&4));
    assert_eq!(x.find_gte(8), Some(&8));
    assert_eq!(x.find_gte(16), Some(&16));
    assert_eq!(x.find_gte(32), Some(&32));
    assert_eq!(x.find_gte(64), Some(&64));
    assert_eq!(x.find_gte(128), Some(&128));
    assert_eq!(x.find_gte(256), Some(&256));
}

#[test]
fn unbalanced_approximate() {
    let x = OrderedCollection::from(vec![1, 2, 4, 8, 16, 32, 64, 128, 256]);
    assert_eq!(x.find_gte(0), Some(&1));
    assert_eq!(x.find_gte(3), Some(&4));
    assert_eq!(x.find_gte(5), Some(&8));
    assert_eq!(x.find_gte(6), Some(&8));
    assert_eq!(x.find_gte(7), Some(&8));
    for i in 9..16 {
        assert_eq!(x.find_gte(i), Some(&16));
    }
    for i in 17..32 {
        assert_eq!(x.find_gte(i), Some(&32));
    }
    for i in 33..64 {
        assert_eq!(x.find_gte(i), Some(&64));
    }
    for i in 65..128 {
        assert_eq!(x.find_gte(i), Some(&128));
    }
    for i in 129..256 {
        assert_eq!(x.find_gte(i), Some(&256));
    }
    assert_eq!(x.find_gte(257), None);
}

/// The smallest element of `sorted` that is at least `x`, by binary search.
fn by_binary_search(sorted: &[u32], x: u32) -> Option<&u32> {
    sorted.get(sorted.partition_point(|e| *e < x))
}

/// The smallest element of `all` that is at least `x`, by looking at each.
fn by_scan(all: &[u32], x: u32) -> Option<u32> {
    all.iter().copied().filter(|e| *e >= x).min()
}

#[test]
fn empty_collection_finds_nothing() {
    let built: OrderedCollection<u32> = OrderedCollection::from(Vec::new());
    assert_eq!(built.as_slice().len(), 0);
    for x in [0, 1, 7, u32::MAX] {
        assert_eq!(built.find_gte(x), None);
    }
    let sorted: OrderedCollection<u32> = OrderedCollection::from_sorted_iter(Vec::new());
    assert_eq!(sorted.find_gte(0), None);
    let mut nothing: [u32; 0] = [];
    let borrowed = OrderedCollection::from_slice(&mut nothing);
    assert_eq!(borrowed.find_gte(&0), None);
}

#[test]
fn single_element() {
    let x = OrderedCollection::from(vec![10]);
    assert_eq!(x.find_gte(9), Some(&10));
    assert_eq!(x.find_gte(10), Some(&10));
    assert_eq!(x.find_gte(11), None);
}

#[test]
fn layout_is_breadth_first() {
    let x = OrderedCollection::from_sorted_iter(vec![1, 2, 3, 4, 5, 6, 7]);
    assert_eq!(x.as_slice(), &[4, 2, 6, 1, 3, 5, 7]);
    let x = OrderedCollection::from_sorted_iter(vec![1, 2, 3, 4, 5, 6, 7, 8, 9]);
    assert_eq!(x.as_slice(), &[6, 4, 8, 2, 5, 7, 9, 1, 3]);
    let x = OrderedCollection::from_sorted_iter(vec![1, 2]);
    assert_eq!(x.as_slice(), &[2, 1]);
    let x = OrderedCollection::from_sorted_iter(vec![1, 2, 3]);
    assert_eq!(x.as_slice(), &[2, 1, 3]);
    let x = OrderedCollection::from_sorted_iter(vec![1, 2, 3, 4]);
    assert_eq!(x.as_slice(), &[3, 2, 4, 1]);
}

#[test]
fn from_sorts_its_input() {
    let a = OrderedCollection::from(vec![42, 89, 7, 12]);
    assert_eq!(a.as_slice(), &[42, 12, 89, 7]);
    assert_eq!(a.find_gte(50), Some(&89));
    assert_eq!(a.find_gte(8), Some(&12));
    assert_eq!(a.find_gte(0), Some(&7));
    assert_eq!(a.find_gte(90), None);
}

#[test]
fn from_sorted_iter_keeps_the_given_order() {
    let mut v = vec![42, 89, 7, 12];
    v.sort_unstable();
    let a = OrderedCollection::from_sorted_iter(v);
    assert_eq!(a.find_gte(50), Some(&89));
    assert_eq!(a.find_gte(13), Some(&42));
}

#[test]
fn from_slice_sorts_in_place_and_borrows() {
    let mut vals = [42, 89, 7, 12];
    {
        let a = OrderedCollection::from_slice(&mut vals);
        assert_eq!(a.find_gte(&50), Some(&&89));
        assert_eq!(a.find_gte(&7), Some(&&7));
        assert_eq!(a.find_gte(&100), None);
        assert_eq!(a.as_slice(), &[&42, &12, &89, &7]);
    }
    assert_eq!(vals, [7, 12, 42, 89]);
}

#[test]
fn all_small_sizes_match_a_scan() {
    for n in 0..=40u32 {
        let all: Vec<u32> = (0..n).map(|k| 3 * k + 2).collect();
        let built = OrderedCollection::from_sorted_iter(all.clone());
        for x in 0..(3 * n + 6) {
            assert_eq!(built.find_gte(x).copied(), by_scan(&all, x), "n = {n}, x = {x}");
        }
    }
}

#[test]
fn powers_of_two_and_neighbours() {
    for n in [1usize, 2, 3, 4, 7, 8, 9, 15, 16, 17, 31, 32, 33, 63, 64, 65, 127, 128, 129] {
        let all: Vec<u32> = (0..n as u32).map(|k| 2 * k + 1).collect();
        let built = OrderedCollection::from(all.clone());
        assert_eq!(built.as_slice().len(), n);
        for x in 0..(2 * n as u32 + 3) {
            assert_eq!(built.find_gte(x), by_binary_search(&all, x));
        }
    }
}

#[test]
fn repeated_values() {
    let all = vec![5, 1, 5, 5, 3, 3, 9, 1, 9, 9, 9, 5];
    let built = OrderedCollection::from(all.clone());
    assert_eq!(built.as_slice().len(), all.len());
    for x in 0..12 {
        assert_eq!(built.find_gte(x).copied(), by_scan(&all, x));
    }
    let same = OrderedCollection::from(vec![4; 10]);
    assert_eq!(same.find_gte(3), Some(&4));
    assert_eq!(same.find_gte(4), Some(&4));
    assert_eq!(same.find_gte(5), None);
}

#[test]
fn every_member_finds_itself() {
    let all = vec![17u32, 3, 99, 3, 48, 1000, 0, 77, 48];
    let built = OrderedCollection::from(all.clone());
    for a in all {
        assert_eq!(built.find_gte(a), Some(&a));
    }
}

#[test]
fn larger_queries_find_larger_elements() {
    let built = OrderedCollection::from(vec![10u32, 20, 20, 35, 50, 51, 90]);
    let mut previous = built.find_gte(0).copied();
    for x in 1..100 {
        let found = built.find_gte(x).copied();
        match (previous, found) {
            (Some(p), Some(f)) => assert!(p <= f),
            (None, Some(_)) => panic!("a successor appeared at {x}"),
            _ => {}
        }
        previous = found;
    }
    assert_eq!(previous, None);
}

#[test]
fn literal_scenarios() {
    let x = OrderedCollection::from(vec![1, 2, 4, 8, 16, 32, 64]);
    assert_eq!(x.find_gte(0), Some(&1));
    assert_eq!(x.find_gte(1), Some(&1));
    assert_eq!(x.find_gte(3), Some(&4));
    assert_eq!(x.find_gte(6), Some(&8));
    assert_eq!(x.find_gte(8), Some(&8));
    assert_eq!(x.find_gte(64), Some(&64));
    assert_eq!(x.find_gte(65), None);
    let y = OrderedCollection::from(vec![1, 2, 4, 8, 16, 32, 64, 128, 256]);
    assert_eq!(y.find_gte(257), None);
    assert_eq!(y.find_gte(129), Some(&256));
    assert_eq!(y.find_gte(0), Some(&1));
}

#[test]
fn random_sets_match_binary_search() {
    let mut r: u32 = 12345;
    let mut next = move || {
        r = r.wrapping_mul(1664525).wrapping_add(1013904223);
        r >> 8
    };
    for round in 0..60 {
        let n = (next() % 300) as usize;
        let spread = 1 + next() % 2000;
        let mut all: Vec<u32> = (0..n).map(|_| next() % spread).collect();
        let built = OrderedCollection::from(all.clone());
        all.sort_unstable();
        for _ in 0..200 {
            let x = next() % (spread + 10);
            assert_eq!(built.find_gte(x), by_binary_search(&all, x), "round {round}");
        }
    }
}

#[test]
fn other_element_types() {
    let words = OrderedCollection::from(vec![
        String::from("pear"),
        String::from("apple"),
        String::from("fig"),
    ]);
    assert_eq!(words.find_gte(String::from("b")), Some(&String::from("fig")));
    assert_eq!(words.find_gte(String::from("fig")), Some(&String::from("fig")));
    assert_eq!(words.find_gte(String::from("q")), None);
    let pairs = OrderedCollection::from(vec![(2u8, 'b'), (1, 'z'), (2, 'a')]);
    assert_eq!(pairs.find_gte((1, 'a')), Some(&(1, 'z')));
    assert_eq!(pairs.find_gte((2, 'b')), Some(&(2, 'b')));
    assert_eq!(pairs.find_gte((2, 'c')), None);
    let signed = OrderedCollection::from(vec![-5i64, 7, -9, 0]);
    assert_eq!(signed.find_gte(-8), Some(&-5));
    assert_eq!(signed.find_gte(i64::MIN), Some(&-9));
}

#[test]
fn last_left_turn_reads_the_path() {
    // cursor 0 is the root: no turn was taken
    assert_eq!(last_left_turn_of(0), 0);
    // cursors 1 and 2 are the children of the root
    assert_eq!(last_left_turn_of(1), 1);
    assert_eq!(last_left_turn_of(2), 0);
    assert_eq!(last_left_turn_of(3), 2);
    assert_eq!(last_left_turn_of(4), 1);
    assert_eq!(last_left_turn_of(5), 3);
    assert_eq!(last_left_turn_of(6), 0);
    assert_eq!(last_left_turn_of(7), 4);
    assert_eq!(last_left_turn_of(8), 2);
    assert_eq!(last_left_turn_of(9), 5);
    assert_eq!(last_left_turn_of(10), 1);
    assert_eq!(last_left_turn_of(14), 0);
    // left from the root, then right all the way
    assert_eq!(last_left_turn_of(22), 1);
    assert_eq!(last_left_turn_of((1 << 40) - 2), 0);
    assert_eq!(last_left_turn_of((1 << 40) - 1), 1 << 39);
}

#[test]
fn descend_goes_left_on_at_most() {
    let x = OrderedCollection::from_sorted_iter(vec![10, 20, 30, 40, 50, 60, 70]);
    // the root holds 40
    assert_eq!(x.descend(0, &40), 1);
    assert_eq!(x.descend(0, &39), 1);
    assert_eq!(x.descend(0, &41), 2);
    // position 2 holds 60, position 5 holds 50
    assert_eq!(x.descend(2, &41), 5);
    assert_eq!(x.descend(5, &41), 11);
    assert_eq!(x.descend(5, &51), 12);
    assert_eq!(x.descend(6, &71), 14);
}

#[test]
fn finish_returns_the_last_left_turn() {
    let x = OrderedCollection::from_sorted_iter(vec![10, 20, 30, 40, 50, 60, 70]);
    assert_eq!(x.as_slice(), &[40, 20, 60, 10, 30, 50, 70]);
    assert_eq!(x.finish(7), Some(&10));
    assert_eq!(x.finish(8), Some(&20));
    assert_eq!(x.finish(9), Some(&30));
    assert_eq!(x.finish(10), Some(&40));
    assert_eq!(x.finish(11), Some(&50));
    assert_eq!(x.finish(12), Some(&60));
    assert_eq!(x.finish(13), Some(&70));
    assert_eq!(x.finish(14), None);
    let empty: OrderedCollection<u8> = OrderedCollection::from_sorted_iter(vec![]);
    assert_eq!(empty.finish(0), None);
}

#[test]
fn unsorted_input_is_searched_without_failure() {
    let x = OrderedCollection::from_sorted_iter(vec![9, 1, 8, 2, 7, 3, 6, 4, 5]);
    assert_eq!(x.as_slice().len(), 9);
    for q in 0..12 {
        if let Some(found) = x.find_gte(q) {
            assert!(x.as_slice().contains(found));
        }
    }
}

#[test]
fn elements_of_no_size() {
    let units = OrderedCollection::from(vec![(); 5]);
    assert_eq!(units.as_slice().len(), 5);
    assert_eq!(units.find_gte(()), Some(&()));
}

#[test]
fn mask_is_the_next_run_of_ones() {
    assert_eq!(prefetch_mask(0), 0);
    assert_eq!(prefetch_mask(1), 1);
    assert_eq!(prefetch_mask(2), 3);
    assert_eq!(prefetch_mask(3), 3);
    assert_eq!(prefetch_mask(4), 7);
    assert_eq!(prefetch_mask(7), 7);
    assert_eq!(prefetch_mask(8), 15);
    assert_eq!(prefetch_mask(9), 15);
    assert_eq!(prefetch_mask(1000), 1023);
    assert_eq!(prefetch_mask(1023), 1023);
    assert_eq!(prefetch_mask(1024), 2047);
    assert_eq!(OrderedCollection::from(vec![1, 2, 3, 4, 5]).mask(), 7);
    assert_eq!(OrderedCollection::<u8>::from(vec![]).mask(), 0);
}

#[test]
fn prefetch_target_stays_under_the_mask() {
    // eight-byte elements: eight to a cache line, twelve ahead
    assert_eq!(prefetch_target(0, 8, 1023), 12);
    assert_eq!(prefetch_target(1, 8, 1023), 20);
    assert_eq!(prefetch_target(5, 8, 1023), 52);
    assert_eq!(prefetch_target(200, 8, 1023), (8 * 200 + 12) & 1023);
    // four-byte elements: sixteen to a cache line, twenty-four ahead
    assert_eq!(prefetch_target(3, 4, 63), (16 * 3 + 24) & 63);
    // elements larger than a cache line: nothing to look ahead to
    assert_eq!(prefetch_target(9, 100, 15), 0);
    for i in 0..500 {
        assert!(prefetch_target(i, 1, 255) <= 255);
    }
}

/// A number that counts, in a counter it shares with others, how often it
/// is compared.
struct Counted<'a> {
    value: u32,
    comparisons: &'a Cell<usize>,
}

impl PartialEq for Counted<'_> {
    fn eq(&self, other: &Self) -> bool {
        self.value == other.value
    }
}

impl Eq for Counted<'_> {}

impl PartialOrd for Counted<'_> {
    fn partial_cmp(&self, other: &Self) -> Option<Ordering> {
        Some(self.cmp(other))
    }
}

impl Ord for Counted<'_> {
    fn cmp(&self, other: &Self) -> Ordering {
        self.comparisons.set(self.comparisons.get() + 1);
        self.value.cmp(&other.value)
    }
}

#[test]
fn a_search_compares_once_per_level() {
    let comparisons = Cell::new(0);
    let counted = |value: u32| Counted { value, comparisons: &comparisons };
    for n in 0..70u32 {
        let built = OrderedCollection::from_sorted_iter((0..n).map(|k| counted(2 * k)).collect());
        // the number of levels of a complete tree of n nodes
        let levels = (u32::BITS - n.leading_zeros()) as usize;
        for x in 0..(2 * n + 2) {
            comparisons.set(0);
            let found = built.find_gte(counted(x)).map(|c| c.value);
            let made = comparisons.get();
            assert!(made <= levels, "n = {n}, x = {x}: {made} comparisons");
            assert!(made + 1 >= levels);
            let largest = 2 * n.saturating_sub(1);
            let expected = if n > 0 && x <= largest { Some(x + x % 2) } else { None };
            assert_eq!(found, expected);
        }
    }
}
