use ruffle::{BaselineMode, ChannelId, Direction, OrderedMap, StatFingerprint, UnorderedPair};
use std::collections::BTreeMap;

#[test]
fn channel_id_round_trips_and_displays() {
    let id = ChannelId::new("lexical", "bm25-v1");
    assert_eq!(id.key, "lexical");
    assert_eq!(id.tag, "bm25-v1");
    assert_eq!(id.to_string(), "lexical@bm25-v1");
    assert_eq!(
        id,
        ChannelId::new(String::from("lexical"), String::from("bm25-v1"))
    );
}

#[test]
fn channel_id_orders_by_key_then_tag() {
    // Two ids sharing a key order by tag.
    let a = ChannelId::new("lexical", "v1");
    let b = ChannelId::new("lexical", "v2");
    let c = ChannelId::new("recency", "v1");
    assert!(a < b);
    assert!(b < c);
}

#[test]
fn unordered_pair_is_canonical() {
    let a = String::from("a");
    let b = String::from("b");
    let ab = UnorderedPair::new(a.clone(), b.clone());
    let ba = UnorderedPair::new(b, a);
    assert_eq!(ab, ba);
    assert_eq!(ab.first().as_str(), "a");
    assert_eq!(ab.second().as_str(), "b");
    // A pair keyed in one order is found by the same pair built in the other.
    let mut map = BTreeMap::new();
    map.insert(ab, 1u32);
    assert_eq!(map.get(&ba), Some(&1));
}

#[test]
fn unordered_pair_same_member() {
    let p = UnorderedPair::new(3i32, 3i32);
    assert_eq!(p.first(), &3);
    assert_eq!(p.second(), &3);
}

#[test]
fn unordered_pair_as_tuple_and_into_inner_are_canonical() {
    // Built out of order, both accessors report canonical (sorted) order.
    let p = UnorderedPair::new(5i32, 2i32);
    assert_eq!(p.as_tuple(), (&2, &5));
    // as_tuple borrows, so into_inner can still consume the same pair.
    assert_eq!(p.into_inner(), (2, 5));
}

#[test]
fn fingerprint_carries_version() {
    let mut dirs = OrderedMap::new();
    dirs.insert(String::from("a"), Direction::HigherIsBetter);
    let fp = StatFingerprint::new(BaselineMode::ZScore, dirs);
    assert_eq!(fp.stat_version, StatFingerprint::STAT_VERSION);
    assert_eq!(fp.baseline_mode, BaselineMode::ZScore);
}

#[test]
fn text_pair_orders_by_bytes_as_strings_do() {
    let words = ["", "a", "ab", "b", "é", "z", "Z", "日本", "\u{10000}", "\u{ffff}"];
    for x in words {
        for y in words {
            let pair = ruffle::keys::text_pair(x.to_string(), y.to_string());
            assert_eq!(pair, UnorderedPair::new(x.to_string(), y.to_string()));
            assert_eq!(pair, ruffle::keys::text_pair(y.to_string(), x.to_string()));
        }
    }
}

#[test]
fn baseline_mode_defaults_to_z_scores() {
    assert_eq!(BaselineMode::default(), BaselineMode::ZScore);
}
