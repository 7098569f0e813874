use dirsize::error::Error;
use dirsize::listing::bytes_less;
use dirsize::listing::comes_before;
use dirsize::listing::reversed;
use dirsize::listing::sort_entries;
use dirsize::listing::top_entries;
use dirsize::listing::Entry;
use dirsize::listing::SortBy;

fn listing_of(pairs: &[(&str, u64)]) -> Vec<Entry> {
    pairs.iter().map(|(name, size)| Entry { name: name.as_bytes().to_vec(), size: *size }).collect()
}

fn pairs_of(listing: &[Entry]) -> Vec<(String, u64)> {
    listing.iter().map(|e| (String::from_utf8(e.name.clone()).unwrap(), e.size)).collect()
}

fn expect(pairs: &[(&str, u64)]) -> Vec<(String, u64)> {
    pairs.iter().map(|(name, size)| (name.to_string(), *size)).collect()
}

#[test]
fn sort_key_is_read_from_its_name() {
    assert!(matches!(SortBy::from_str("name"), Ok(SortBy::Name)));
    assert!(matches!(SortBy::from_str("size"), Ok(SortBy::Size)));
}

#[test]
fn unknown_sort_key_is_refused_with_the_word() {
    match SortBy::from_str("date") {
        Err(Error::InvalidSort(word)) => assert_eq!(word, "date"),
        _ => panic!("a key that does not exist was accepted"),
    }
    assert!(matches!(SortBy::from_str("Size"), Err(Error::InvalidSort(_))));
    assert!(matches!(SortBy::from_str(""), Err(Error::InvalidSort(_))));
    assert!(matches!(SortBy::from_str("size "), Err(Error::InvalidSort(_))));
}

#[test]
fn error_messages_name_the_failure() {
    assert_eq!(
        Error::InvalidSort("date".to_string()).message(),
        "invalid sort parameter: date"
    );
    assert_eq!(
        Error::OutsideRoot.message(),
        "an entry lies outside the directory that is scanned"
    );
    assert_eq!(Error::OutputWrite.message(), "the report could not be written");
}

#[test]
fn bytes_compare_in_dictionary_order() {
    assert!(bytes_less(&b"a".to_vec(), &b"b".to_vec()));
    assert!(!bytes_less(&b"b".to_vec(), &b"a".to_vec()));
    assert!(bytes_less(&b"a".to_vec(), &b"ab".to_vec()));
    assert!(!bytes_less(&b"ab".to_vec(), &b"a".to_vec()));
    assert!(!bytes_less(&b"abc".to_vec(), &b"abc".to_vec()));
    assert!(bytes_less(&b"".to_vec(), &b"a".to_vec()));
    assert!(!bytes_less(&b"".to_vec(), &b"".to_vec()));
    assert!(bytes_less(&b"Z".to_vec(), &b"a".to_vec()));
    assert!(bytes_less(&b"abd".to_vec(), &b"abe".to_vec()));
    assert!(bytes_less(&vec![0x7fu8], &vec![0x80u8]));
}

#[test]
fn bytes_compare_as_std_does() {
    let words: [&[u8]; 8] = [b"", b"a", b"ab", b"abc", b"abd", b"b", b"B", b"\xff"];
    for a in words {
        for b in words {
            assert_eq!(bytes_less(&a.to_vec(), &b.to_vec()), a < b);
        }
    }
}

#[test]
fn entries_compare_by_the_chosen_key() {
    let small = Entry { name: b"z".to_vec(), size: 1 };
    let large = Entry { name: b"a".to_vec(), size: 9 };
    assert!(comes_before(&small, &large, SortBy::Size, false));
    assert!(!comes_before(&small, &large, SortBy::Size, true));
    assert!(comes_before(&large, &small, SortBy::Name, false));
    assert!(!comes_before(&large, &small, SortBy::Name, true));
    assert!(!comes_before(&small, &small, SortBy::Size, false));
    assert!(!comes_before(&small, &small, SortBy::Name, true));
}

#[test]
fn sort_by_size_goes_upwards() {
    let sorted = sort_entries(listing_of(&[("a", 150), ("b", 25), ("c", 70)]), SortBy::Size, false);
    assert_eq!(pairs_of(&sorted), expect(&[("b", 25), ("c", 70), ("a", 150)]));
}

#[test]
fn sort_by_size_reversed_goes_downwards() {
    let sorted = sort_entries(listing_of(&[("a", 150), ("b", 25), ("c", 70)]), SortBy::Size, true);
    assert_eq!(pairs_of(&sorted), expect(&[("a", 150), ("c", 70), ("b", 25)]));
}

#[test]
fn sort_by_name_goes_through_the_alphabet() {
    let listing = listing_of(&[("pear", 1), ("apple", 2), ("fig", 3), ("app", 4)]);
    let sorted = sort_entries(listing, SortBy::Name, false);
    assert_eq!(pairs_of(&sorted), expect(&[("app", 4), ("apple", 2), ("fig", 3), ("pear", 1)]));
    let listing = listing_of(&[("pear", 1), ("apple", 2), ("fig", 3), ("app", 4)]);
    let sorted = sort_entries(listing, SortBy::Name, true);
    assert_eq!(pairs_of(&sorted), expect(&[("pear", 1), ("fig", 3), ("apple", 2), ("app", 4)]));
}

#[test]
fn equal_sizes_keep_their_order_both_ways() {
    let up = sort_entries(listing_of(&[("x", 5), ("y", 1), ("z", 5), ("w", 5)]), SortBy::Size, false);
    assert_eq!(pairs_of(&up), expect(&[("y", 1), ("x", 5), ("z", 5), ("w", 5)]));
    let down = sort_entries(listing_of(&[("x", 5), ("y", 1), ("z", 5), ("w", 5)]), SortBy::Size, true);
    assert_eq!(pairs_of(&down), expect(&[("x", 5), ("z", 5), ("w", 5), ("y", 1)]));
}

#[test]
fn sort_agrees_with_the_stable_sort_of_std() {
    let pairs = [
        ("k", 3u64), ("a", 9), ("q", 3), ("b", 0), ("z", 9), ("m", 3), ("c", 1), ("y", 0),
        ("d", 7), ("x", 7),
    ];
    let mut by_size = pairs.to_vec();
    by_size.sort_by_key(|p| p.1);
    assert_eq!(pairs_of(&sort_entries(listing_of(&pairs), SortBy::Size, false)), expect(&by_size));
    let mut by_size_down = pairs.to_vec();
    by_size_down.sort_by_key(|p| std::cmp::Reverse(p.1));
    assert_eq!(
        pairs_of(&sort_entries(listing_of(&pairs), SortBy::Size, true)),
        expect(&by_size_down)
    );
    let mut by_name = pairs.to_vec();
    by_name.sort_by_key(|p| p.0);
    assert_eq!(pairs_of(&sort_entries(listing_of(&pairs), SortBy::Name, false)), expect(&by_name));
    let mut by_name_down = pairs.to_vec();
    by_name_down.sort_by_key(|p| std::cmp::Reverse(p.0));
    assert_eq!(
        pairs_of(&sort_entries(listing_of(&pairs), SortBy::Name, true)),
        expect(&by_name_down)
    );
}

#[test]
fn sorting_nothing_gives_nothing() {
    assert!(sort_entries(Vec::new(), SortBy::Size, false).is_empty());
    assert!(sort_entries(Vec::new(), SortBy::Name, true).is_empty());
    let one = sort_entries(listing_of(&[("only", 4)]), SortBy::Name, true);
    assert_eq!(pairs_of(&one), expect(&[("only", 4)]));
}

#[test]
fn distinct_sizes_sort_to_mirror_images() {
    let pairs = [("a", 150u64), ("b", 25), ("c", 70), ("d", 0), ("e", 9000)];
    let up = sort_entries(listing_of(&pairs), SortBy::Size, false);
    let down = sort_entries(listing_of(&pairs), SortBy::Size, true);
    let mut mirrored = pairs_of(&down);
    mirrored.reverse();
    assert_eq!(pairs_of(&up), mirrored);
    assert_eq!(
        pairs_of(&up),
        expect(&[("d", 0), ("b", 25), ("c", 70), ("a", 150), ("e", 9000)])
    );
}

#[test]
fn reversed_turns_a_listing_round() {
    let mirror = reversed(listing_of(&[("a", 1), ("b", 2), ("c", 3)]));
    assert_eq!(pairs_of(&mirror), expect(&[("c", 3), ("b", 2), ("a", 1)]));
    assert!(reversed(Vec::new()).is_empty());
}

#[test]
fn top_one_of_two_extensions_is_the_larger() {
    let top = top_entries(listing_of(&[("txt", 160), ("log", 25)]), 1, false);
    assert_eq!(pairs_of(&top), expect(&[("txt", 160)]));
    let top = top_entries(listing_of(&[("log", 25), ("txt", 160)]), 1, false);
    assert_eq!(pairs_of(&top), expect(&[("txt", 160)]));
}

#[test]
fn top_entries_come_largest_first() {
    let pairs = [("a", 5u64), ("b", 50), ("c", 500), ("d", 1), ("e", 20)];
    let top = top_entries(listing_of(&pairs), 3, false);
    assert_eq!(pairs_of(&top), expect(&[("c", 500), ("b", 50), ("e", 20)]));
}

#[test]
fn reverse_shows_the_same_top_entries_smallest_first() {
    let pairs = [("a", 5u64), ("b", 50), ("c", 500), ("d", 1), ("e", 20)];
    let top = top_entries(listing_of(&pairs), 3, true);
    assert_eq!(pairs_of(&top), expect(&[("e", 20), ("b", 50), ("c", 500)]));
}

#[test]
fn top_entries_are_as_many_as_asked_or_all() {
    let pairs = [("a", 5u64), ("b", 50), ("c", 500)];
    assert_eq!(top_entries(listing_of(&pairs), 0, false).len(), 0);
    assert_eq!(top_entries(listing_of(&pairs), 2, false).len(), 2);
    assert_eq!(top_entries(listing_of(&pairs), 3, true).len(), 3);
    assert_eq!(top_entries(listing_of(&pairs), 4, false).len(), 3);
    assert_eq!(top_entries(listing_of(&pairs), usize::MAX, true).len(), 3);
    assert_eq!(top_entries(Vec::new(), 5, false).len(), 0);
}

#[test]
fn top_entries_with_equal_sizes_prefer_the_earlier() {
    let pairs = [("a", 7u64), ("b", 9), ("c", 7), ("d", 7)];
    let top = top_entries(listing_of(&pairs), 3, false);
    assert_eq!(pairs_of(&top), expect(&[("b", 9), ("a", 7), ("c", 7)]));
    let top = top_entries(listing_of(&pairs), 3, true);
    assert_eq!(pairs_of(&top), expect(&[("c", 7), ("a", 7), ("b", 9)]));
}
