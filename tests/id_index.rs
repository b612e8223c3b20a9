use revset_engine::hex::{common_hex_len, id_from_hex, HexPrefix};
use revset_engine::id_index::{IdIndex, PrefixResolution};

fn hex(s: &str) -> Vec<u8> {
    id_from_hex(s).unwrap()
}

fn sorted(resolution: PrefixResolution<Vec<i32>>) -> PrefixResolution<Vec<i32>> {
    match resolution {
        PrefixResolution::SingleMatch(mut xs) => {
            xs.sort(); // order of values might not be preserved by IdIndex
            PrefixResolution::SingleMatch(xs)
        }
        other => other,
    }
}

#[test]
fn test_id_index_resolve_prefix() {
    let id_index = IdIndex::from_vec(vec![
        (hex("0000"), 0),
        (hex("0099"), 1),
        (hex("0099"), 2),
        (hex("0aaa"), 3),
        (hex("0aab"), 4),
    ]);
    assert_eq!(
        id_index.resolve_prefix_with(&HexPrefix::new("0").unwrap(), |&v| v),
        PrefixResolution::AmbiguousMatch,
    );
    assert_eq!(
        id_index.resolve_prefix_with(&HexPrefix::new("00").unwrap(), |&v| v),
        PrefixResolution::AmbiguousMatch,
    );
    assert_eq!(
        id_index.resolve_prefix_with(&HexPrefix::new("000").unwrap(), |&v| v),
        PrefixResolution::SingleMatch(vec![0]),
    );
    assert_eq!(
        id_index.resolve_prefix_with(&HexPrefix::new("0001").unwrap(), |&v| v),
        PrefixResolution::NoMatch,
    );
    assert_eq!(
        sorted(id_index.resolve_prefix_with(&HexPrefix::new("009").unwrap(), |&v| v)),
        PrefixResolution::SingleMatch(vec![1, 2]),
    );
    assert_eq!(
        id_index.resolve_prefix_with(&HexPrefix::new("0aa").unwrap(), |&v| v),
        PrefixResolution::AmbiguousMatch,
    );
    assert_eq!(
        id_index.resolve_prefix_with(&HexPrefix::new("0aab").unwrap(), |&v| v),
        PrefixResolution::SingleMatch(vec![4]),
    );
    assert_eq!(
        id_index.resolve_prefix_with(&HexPrefix::new("f").unwrap(), |&v| v),
        PrefixResolution::NoMatch,
    );
}

#[test]
fn test_id_index_shortest_unique_prefix_len() {
    // No crash if empty
    let id_index = IdIndex::from_vec(vec![] as Vec<(Vec<u8>, ())>);
    assert_eq!(id_index.shortest_unique_prefix_len(&hex("00")), 0);

    let id_index = IdIndex::from_vec(vec![
        (hex("ab"), ()),
        (hex("acd0"), ()),
        (hex("acd0"), ()), // duplicated key is allowed
    ]);
    assert_eq!(id_index.shortest_unique_prefix_len(&hex("acd0")), 2);
    assert_eq!(id_index.shortest_unique_prefix_len(&hex("ac")), 3);

    let id_index = IdIndex::from_vec(vec![
        (hex("ab"), ()),
        (hex("acd0"), ()),
        (hex("acf0"), ()),
        (hex("a0"), ()),
        (hex("ba"), ()),
    ]);

    assert_eq!(id_index.shortest_unique_prefix_len(&hex("a0")), 2);
    assert_eq!(id_index.shortest_unique_prefix_len(&hex("ba")), 1);
    assert_eq!(id_index.shortest_unique_prefix_len(&hex("ab")), 2);
    assert_eq!(id_index.shortest_unique_prefix_len(&hex("acd0")), 3);
    // If it were there, the length would be 1.
    assert_eq!(id_index.shortest_unique_prefix_len(&hex("c0")), 1);
}

/// Without `acf0` beside it, `acd0` shares only its first digit with `ab`.
#[test]
fn shortest_unique_with_repeated_keys() {
    let id_index = IdIndex::from_vec(vec![
        (hex("ab"), ()),
        (hex("acd0"), ()),
        (hex("acd0"), ()),
        (hex("a0"), ()),
        (hex("ba"), ()),
    ]);
    assert_eq!(id_index.shortest_unique_prefix_len(&hex("a0")), 2);
    assert_eq!(id_index.shortest_unique_prefix_len(&hex("ba")), 1);
    assert_eq!(id_index.shortest_unique_prefix_len(&hex("ab")), 2);
    assert_eq!(id_index.shortest_unique_prefix_len(&hex("acd0")), 2);
    assert_eq!(id_index.shortest_unique_prefix_len(&hex("c0")), 1);
}

#[test]
fn shortest_unique_only_copies_of_key() {
    let id_index = IdIndex::from_vec(vec![(hex("12"), ()), (hex("12"), ())]);
    assert_eq!(id_index.shortest_unique_prefix_len(&hex("12")), 0);
}

#[test]
fn from_vec_sorts_by_key() {
    let id_index = IdIndex::from_vec(vec![(hex("0b"), 1u32), (hex("0a"), 2), (hex("01"), 3)]);
    let keys: Vec<Vec<u8>> = id_index.entries.iter().map(|(k, _)| k.clone()).collect();
    assert_eq!(keys, vec![hex("01"), hex("0a"), hex("0b")]);
}

#[test]
fn resolve_prefix_range_in_key_order() {
    let id_index = IdIndex::from_vec(vec![(hex("0aab"), 4), (hex("0aaa"), 3), (hex("1aaa"), 9)]);
    let range = id_index.resolve_prefix_range(&HexPrefix::new("0aa").unwrap());
    assert_eq!(range, vec![(hex("0aaa"), 3), (hex("0aab"), 4)]);
    assert_eq!(
        id_index.resolve_prefix(&HexPrefix::new("1").unwrap()),
        PrefixResolution::SingleMatch(vec![9])
    );
}

#[test]
fn prefix_extension_keeps_no_match() {
    let id_index = IdIndex::from_vec(vec![(hex("0000"), 0), (hex("0aab"), 4)]);
    assert_eq!(id_index.resolve_prefix(&HexPrefix::new("f").unwrap()), PrefixResolution::NoMatch);
    assert_eq!(id_index.resolve_prefix(&HexPrefix::new("f0").unwrap()), PrefixResolution::NoMatch);
    assert_eq!(id_index.resolve_prefix(&HexPrefix::new("f0a1").unwrap()), PrefixResolution::NoMatch);
}

#[test]
fn hex_prefix_rejects_non_hex() {
    assert!(HexPrefix::new("0g").is_none());
    assert!(HexPrefix::new("aBc").is_some());
    assert!(id_from_hex("abc").is_none());
    assert_eq!(id_from_hex("0aFf"), Some(vec![0x0a, 0xff]));
}

#[test]
fn common_hex_len_counts_nibbles() {
    assert_eq!(common_hex_len(&hex("acd0"), &hex("acf0")), 2);
    assert_eq!(common_hex_len(&hex("ab"), &hex("ac")), 1);
    assert_eq!(common_hex_len(&hex("ab"), &hex("abcd")), 2);
    assert_eq!(common_hex_len(&hex("ab"), &hex("ba")), 0);
}
