use xor_redis::hashing::{fingerprint, mixsplit, murmur64, reduce, rotl64, splitmix64};
use xor_redis::keys::prune_duplicates;
use xor_redis::xor::Xor;

fn strings(items: &[&str]) -> Vec<String> {
    items.iter().map(|s| s.to_string()).collect()
}

#[test]
fn populate_rejects_an_empty_list() {
    match Xor::populate(Vec::new()) {
        Err(message) => assert_eq!(message, "Filter requires at least one entry"),
        Ok(_) => panic!("an empty list must be refused"),
    }
}

#[test]
fn populate_then_contains_every_entry() {
    let entries = strings(&["apple", "banana", "cherry", "durian", "elderberry"]);
    let filter = Xor::populate(entries.clone()).expect("small sets peel");
    for entry in &entries {
        assert!(filter.contains(entry));
    }
}

#[test]
fn single_entry_is_contained() {
    let filter = Xor::populate(strings(&["only"])).expect("one key always peels");
    assert!(filter.contains("only"));
}

#[test]
fn many_entries_are_contained_and_few_others_are() {
    let entries: Vec<String> = (0..2000).map(|i| format!("member-{}", i)).collect();
    let filter = Xor::populate(entries.clone()).expect("2000 keys peel");
    for entry in &entries {
        assert!(filter.contains(entry));
    }
    let false_positives = (0..10000)
        .filter(|i| filter.contains(&format!("stranger-{}", i)))
        .count();
    // an 8-bit fingerprint lets about one stranger in 256 through
    assert!(false_positives < 150, "false positives: {}", false_positives);
}

#[test]
fn repeated_entries_are_pruned_and_contained() {
    let entries = strings(&["same", "same", "other", "same", "third"]);
    let filter = Xor::populate(entries).expect("duplicates are removed after ten attempts");
    assert!(filter.contains("same"));
    assert!(filter.contains("other"));
    assert!(filter.contains("third"));
}

#[test]
fn murmur64_known_values() {
    assert_eq!(murmur64(0), 0);
    assert_eq!(murmur64(1), 0xb456bcfc34c2cb2c);
    assert_eq!(murmur64(0x0123456789abcdef), 0x87cbfbfe89022cea);
}

#[test]
fn splitmix64_known_values() {
    let mut state: u64 = 0;
    assert_eq!(splitmix64(&mut state), 0xe220a8397b1dcdaf);
    assert_eq!(state, 0x9e3779b97f4a7c15);
    let mut state: u64 = 1;
    assert_eq!(splitmix64(&mut state), 0x910a2dec89025cc1);
    assert_eq!(state, 0x9e3779b97f4a7c16);
}

#[test]
fn mixsplit_adds_then_mixes() {
    assert_eq!(mixsplit(5, 7), murmur64(12));
    assert_eq!(mixsplit(5, 7), 0x88f52b3844a8b035);
    assert_eq!(mixsplit(u64::MAX, 1), 0);
}

#[test]
fn rotl64_rotates() {
    assert_eq!(rotl64(1, 21), 1 << 21);
    assert_eq!(rotl64(0x8000_0000_0000_0000, 1), 1);
    assert_eq!(rotl64(1, -1), 0x8000_0000_0000_0000);
    assert_eq!(rotl64(0xdead_beef, 0), 0xdead_beef);
    assert_eq!(rotl64(0xdead_beef, 64), 0xdead_beef);
    assert_eq!(rotl64(0x0123_4567_89ab_cdef, 42), 0x0123_4567_89ab_cdef_u64.rotate_left(42));
}

#[test]
fn reduce_maps_into_range() {
    assert_eq!(reduce(u32::MAX, 10), 9);
    assert_eq!(reduce(0x8000_0000, 10), 5);
    assert_eq!(reduce(0, 10), 0);
    assert_eq!(reduce(12345, 0), 0);
}

#[test]
fn fingerprint_folds_halves() {
    assert_eq!(fingerprint(0x0000_0001_0000_0002), 0x0000_0001_0000_0003);
    assert_eq!(fingerprint(0), 0);
    assert_eq!(fingerprint(0xffff_ffff_0000_0000), 0xffff_ffff_ffff_ffff);
}

#[test]
fn prune_duplicates_sorts_and_dedups() {
    assert_eq!(prune_duplicates(vec![3, 1, 3, 2, 1]), vec![1, 2, 3]);
    assert_eq!(prune_duplicates(vec![7, 7, 7]), vec![7]);
    assert_eq!(prune_duplicates(vec![u64::MAX, 0]), vec![0, u64::MAX]);
    assert_eq!(prune_duplicates(Vec::new()), Vec::<u64>::new());
}

#[test]
fn populate_is_deterministic() {
    let entries: Vec<String> = (0..300).map(|i| format!("k{}", i)).collect();
    let first = Xor::populate(entries.clone()).expect("300 keys peel");
    let second = Xor::populate(entries).expect("300 keys peel");
    for i in 0..3000 {
        let probe = format!("probe{}", i);
        assert_eq!(first.contains(&probe), second.contains(&probe));
    }
}

#[test]
fn reduce_stays_below_its_bound() {
    for n in [1u32, 2, 3, 7, 1000, u32::MAX] {
        for hash in [0u32, 1, 0x7fff_ffff, 0x8000_0000, u32::MAX] {
            assert!(reduce(hash, n) < n);
        }
    }
}

#[test]
fn equal_text_gets_the_same_answer() {
    let filter = Xor::populate(strings(&["alpha", "beta"])).expect("two keys peel");
    let owned = String::from("alpha");
    assert_eq!(filter.contains(&owned), filter.contains("alpha"));
    let probe = String::from("gamma");
    assert_eq!(filter.contains(&probe), filter.contains("gamma"));
}

#[test]
fn single_entry_filter_rejects_most_others() {
    let filter = Xor::populate(strings(&["lonely"])).expect("one key always peels");
    assert!(filter.contains("lonely"));
    let admitted = (0..2000).filter(|i| filter.contains(&format!("other-{}", i))).count();
    // all but one cell is zero, so a stranger gets in only by a byte match
    assert!(admitted < 100, "admitted: {}", admitted);
}

#[test]
fn reordered_entries_are_all_contained() {
    let entries: Vec<String> = (0..500).map(|i| format!("item-{}", i)).collect();
    let mut reversed = entries.clone();
    reversed.reverse();
    let forward = Xor::populate(entries.clone()).expect("500 keys peel");
    let backward = Xor::populate(reversed).expect("500 keys peel");
    for entry in &entries {
        assert!(forward.contains(entry));
        assert!(backward.contains(entry));
    }
}
