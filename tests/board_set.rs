use tokyodoves::board::Board;
use tokyodoves::board_set::{BoardSet, Capacity, RawBoardSet};

/// A distinct packed board for each short board text (its bytes from the top
/// of the word down).
fn board_of(text: &str) -> Board {
    let mut raw: u64 = 0;
    for (i, b) in text.bytes().enumerate() {
        raw |= (b as u64) << (56 - 8 * i as u64);
    }
    Board::from_u64(raw)
}

fn create_from_strs(strs: &[&str]) -> BoardSet {
    let mut set = BoardSet::new();
    for board_str in strs {
        let board = board_of(board_str);
        set.insert(board);
    }
    set
}

#[test]
fn test_empty_capacity() {
    let mut set = BoardSet::new();
    assert_eq!(set.capacity(), Capacity::new());
    set.insert(Board::new());
    set.drain();
    assert_ne!(set.capacity(), Capacity::new());
}

#[test]
fn test_set_calculation() {
    let set1 = create_from_strs(&["Bb", "Bbh", "Bba"]);
    let set2 = create_from_strs(&["Bb", "BbH", "BbA"]);
    let set1and2 = create_from_strs(&["Bb"]);
    let set1or2 = create_from_strs(&["Bb", "Bbh", "Bba", "BbH", "BbA"]);
    let set1xor2 = create_from_strs(&["Bbh", "Bba", "BbH", "BbA"]);
    let set1minus2 = create_from_strs(&["Bbh", "Bba"]);

    assert_eq!(&set1 & &set2, set1and2);
    assert_eq!(set1.raw() & set2.raw(), *set1and2.raw());

    assert_eq!(&set1 | &set2, set1or2);
    assert_eq!(set1.raw() | set2.raw(), *set1or2.raw());

    assert_eq!(&set1 ^ &set2, set1xor2);
    assert_eq!(set1.raw() ^ set2.raw(), *set1xor2.raw());

    assert_eq!(&set1 - &set2, set1minus2);
    assert_eq!(set1.raw() - set2.raw(), *set1minus2.raw());

    assert!(set1or2.is_superset(&set1));
    assert!(set1or2.raw().is_superset(set1.raw()));

    assert!(set1.is_subset(&set1or2));
    assert!(set1.raw().is_subset(set1or2.raw()));

    assert!(set1xor2.is_disjoint(&set1and2));
    assert!(set1xor2.raw().is_disjoint(set1and2.raw()));
}

#[test]
fn test_absorb_extend() {
    let set1 = create_from_strs(&["Bb", "Bbh", "Bba"]);
    let set2 = create_from_strs(&["Bb", "BbH", "BbA"]);
    let set1or2 = create_from_strs(&["Bb", "Bbh", "Bba", "BbH", "BbA"]);

    let mut set1absorb2 = set1.clone();
    set1absorb2.absorb(set2.clone());
    assert_eq!(set1absorb2, set1or2);

    let mut set1absorb2_raw = set1.raw().clone();
    set1absorb2_raw.absorb(set2.raw().clone());
    assert_eq!(set1absorb2_raw, *set1or2.raw());

    let mut set1extend2 = set1.clone();
    set1extend2.extend(set2.iter());
    assert_eq!(set1absorb2, set1extend2);

    let mut set1extend2_raw = set1.raw().clone();
    set1extend2_raw.extend(set2.raw().iter());
    assert_eq!(set1absorb2_raw, set1extend2_raw);
}

#[test]
fn test_drain() {
    let mut set = create_from_strs(&["Bb", "Bbh", "Bba"]);
    let set1 = set.clone();
    let set2 = BoardSet::from_iter(set.drain());
    assert!(set.is_empty());
    assert_eq!(set1, set2);
}

#[test]
fn test_drain_drop() {
    let mut set = create_from_strs(&["Bb", "Bbh", "Bba"]);
    let capacity = set.capacity();
    {
        set.drain();
    }
    assert!(set.is_empty());
    assert_eq!(capacity, set.capacity());
}

#[test]
fn test_split() {
    let set = create_from_strs(&["Bb", "Bbh", "Bba"]);

    let (left, right) = set.clone().split(0);
    assert_eq!(left.len(), 0);
    assert_eq!(right.len(), 3);
    assert_eq!(&left | &right, set);

    let (left, right) = set.clone().split(1);
    assert_eq!(left.len(), 1);
    assert_eq!(right.len(), 2);
    assert_eq!(&left | &right, set);

    let (left, right) = set.clone().split(10);
    assert_eq!(left.len(), 3);
    assert_eq!(&left | &right, set);

    let set = set.into_raw();

    let (left, right) = set.clone().split(0);
    assert_eq!(left.len(), 0);
    assert_eq!(right.len(), 3);
    assert_eq!(&left | &right, set);

    let (left, right) = set.clone().split(1);
    assert_eq!(left.len(), 1);
    assert_eq!(right.len(), 2);
    assert_eq!(&left | &right, set);

    let (left, right) = set.clone().split(10);
    assert_eq!(left.len(), 3);
    assert_eq!(&left | &right, set);
}

#[test]
fn insert_remove_take() {
    let mut set = RawBoardSet::new();
    assert!(set.insert(0x1_0000_0002));
    assert!(!set.insert(0x1_0000_0002));
    assert!(set.insert(0x1_0000_0003));
    assert!(set.insert(0x2_0000_0002));
    assert_eq!(set.len(), 3);
    assert!(set.contains(&0x1_0000_0003));
    assert!(!set.contains(&0x3));
    assert!(set.remove(&0x1_0000_0002));
    assert!(!set.remove(&0x1_0000_0002));
    assert_eq!(set.take(&0x2_0000_0002), Some(0x2_0000_0002));
    assert_eq!(set.take(&0x2_0000_0002), None);
    assert_eq!(set.len(), 1);
    set.clear();
    assert!(set.is_empty());
}

#[test]
fn save_then_load_round_trip() {
    let set = create_from_strs(&["Bb", "Bbh", "Bba", "BbH"]);
    let bytes = set.save();
    assert_eq!(bytes.len() % 4, 0);
    let mut loaded = BoardSet::new();
    loaded.load(bytes.clone());
    assert_eq!(loaded, set);

    let cap = BoardSet::required_capacity(bytes.clone());
    assert_eq!(cap.len(), 4);

    let mut partial = create_from_strs(&["Bb", "BbA"]);
    assert!(partial.remove_loaded_values(bytes.clone()));
    assert_eq!(partial, create_from_strs(&["BbA"]));
    assert!(!partial.remove_loaded_values(bytes.clone()));

    let mut filtered = BoardSet::new();
    let only = board_of("Bbh").to_u64();
    filtered.load_filter(bytes.clone(), |h| h == only);
    assert_eq!(filtered, create_from_strs(&["Bbh"]));
    let cap = BoardSet::required_capacity_filter(bytes, |h| h == only);
    assert_eq!(cap.len(), 1);
}

#[test]
fn save_writes_groups_with_delimiters() {
    let mut set = RawBoardSet::new();
    set.insert(0x0000_0001_0000_0002);
    let bytes = set.save();
    assert_eq!(bytes, vec![0, 0, 0, 1, 0, 0, 0, 2, 0xFF, 0xFF, 0xFF, 0xFF]);
}

#[test]
fn retain_and_shrink() {
    let mut set = create_from_strs(&["Bb", "Bbh", "Bba"]);
    let keep = board_of("Bbh");
    set.retain(|b| b == keep);
    assert_eq!(set, create_from_strs(&["Bbh"]));
    set.shrink_to_fit();
    assert_eq!(set.capacity().len(), 1);
    let mut raw = RawBoardSet::new();
    raw.insert(5);
    raw.insert(6);
    raw.retain(|h| h % 2 == 0);
    assert_eq!(raw.len(), 1);
    assert!(raw.contains(&6));
}

#[test]
fn capacity_reserve() {
    let set = create_from_strs(&["Bb", "Bbh"]);
    let mut other = BoardSet::with_capacity(set.capacity());
    assert!(other.is_empty());
    assert_eq!(other.capacity(), set.capacity());
    other.reserve(set.capacity());
    assert!(other.capacity().len() >= 2);
    let mut drained = set.clone();
    other.absorb_drained(&mut drained);
    assert!(drained.is_empty());
    assert_eq!(other, set);
}

#[test]
fn board_set_iterators() {
    let set1 = create_from_strs(&["Bb", "Bbh"]);
    let set2 = create_from_strs(&["Bb", "BbA"]);
    let mut it = set1.intersection(&set2);
    assert_eq!(it.next(), Some(board_of("Bb")));
    assert_eq!(it.next(), None);
    let mut it = set1.difference(&set2);
    assert_eq!(it.next(), Some(board_of("Bbh")));
    assert_eq!(it.next(), None);
    let mut n = 0;
    let mut it = set1.union(&set2);
    while it.next().is_some() {
        n += 1;
    }
    assert_eq!(n, 3);
    let mut n = 0;
    let mut it = set1.symmetric_difference(&set2);
    while it.next().is_some() {
        n += 1;
    }
    assert_eq!(n, 2);
}
