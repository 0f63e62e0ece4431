use djmd5::balance::{BalanceError, Thresholds};
use djmd5::grouping::{group_channels, zone_key, ChannelRecord};
use djmd5::rows::{partition, zone_rows};
use djmd5::zones::ZoneRegistry;

fn registry_of(zones: &[(&str, usize)]) -> ZoneRegistry {
    let mut registry = ZoneRegistry::new();
    for (key, size) in zones {
        for i in 0..*size {
            // Names are added in descending order, so that sorting is visible.
            registry.add_channel(key.to_string(), format!("{}-{:03}", key, size - 1 - i));
        }
    }
    registry
}

fn registry_ascending(zones: &[(&str, usize)]) -> ZoneRegistry {
    let mut registry = ZoneRegistry::new();
    for (key, size) in zones {
        for i in 0..*size {
            registry.add_channel(key.to_string(), format!("{}-{:03}", key, i));
        }
    }
    registry
}

fn sizes(registry: &ZoneRegistry) -> Vec<(String, usize)> {
    (0..registry.len())
        .map(|i| (registry.zone(i).key.clone(), registry.zone(i).channels.len()))
        .collect()
}

fn all_names(registry: &ZoneRegistry) -> Vec<String> {
    let mut names: Vec<String> = Vec::new();
    for i in 0..registry.len() {
        names.extend(registry.zone(i).channels.iter().cloned());
    }
    names.sort();
    names
}

fn record(name: &str, group_field: &str) -> ChannelRecord {
    ChannelRecord { name: name.to_string(), group_field: group_field.to_string() }
}

#[test]
fn default_thresholds_are_50_and_100() {
    let t = Thresholds::default();
    assert_eq!(t.merge(), 50);
    assert_eq!(t.split(), 100);
}

#[test]
fn thresholds_must_suit_each_other() {
    assert!(Thresholds::new(50, 100).is_some());
    assert!(Thresholds::new(101, 100).is_some());
    assert!(Thresholds::new(0, 1).is_some());
    assert!(Thresholds::new(102, 100).is_none());
    assert!(Thresholds::new(0, 0).is_none());
    assert!(Thresholds::new(1, 0).is_none());
    assert!(Thresholds::new(usize::MAX, usize::MAX).is_some());
    assert!(Thresholds::new(usize::MAX, usize::MAX - 2).is_none());
}

#[test]
fn merge_joins_the_two_smallest_zones() {
    let mut registry = registry_of(&[("B", 15), ("C", 60), ("A", 10)]);
    let before = all_names(&registry);
    assert_eq!(registry.balance(&Thresholds::default()), Ok(()));
    assert_eq!(sizes(&registry), vec![("C".to_string(), 60), ("A/B".to_string(), 25)]);
    // The smaller zone's channels come first, each list in its own order.
    let merged = &registry.zone(1).channels;
    assert_eq!(merged[0], "A-009");
    assert_eq!(merged[9], "A-000");
    assert_eq!(merged[10], "B-014");
    assert_eq!(merged[24], "B-000");
    assert_eq!(all_names(&registry), before);
}

#[test]
fn merge_orders_the_key_by_size_before_key() {
    // The smaller zone leads the merged key even if its key is the larger.
    let mut registry = registry_of(&[("A", 15), ("B", 10), ("C", 60)]);
    assert_eq!(registry.balance(&Thresholds::default()), Ok(()));
    assert_eq!(sizes(&registry), vec![("C".to_string(), 60), ("B/A".to_string(), 25)]);
}

#[test]
fn merge_breaks_ties_of_size_by_key() {
    let mut registry = registry_of(&[("z", 3), ("m", 3), ("a", 3), ("big", 70)]);
    assert_eq!(registry.balance(&Thresholds::default()), Ok(()));
    // a+m first, then z (3) with a/m (6); big stays.
    assert_eq!(sizes(&registry), vec![("big".to_string(), 70), ("z/a/m".to_string(), 9)]);
}

#[test]
fn split_halves_the_largest_zone() {
    let mut registry = registry_of(&[("Z", 120)]);
    let before = all_names(&registry);
    assert_eq!(registry.balance(&Thresholds::default()), Ok(()));
    assert_eq!(sizes(&registry), vec![("Z_1".to_string(), 60), ("Z_2".to_string(), 60)]);
    let head = &registry.zone(0).channels;
    let tail = &registry.zone(1).channels;
    assert_eq!(head[0], "Z-000");
    assert_eq!(head[59], "Z-059");
    assert_eq!(tail[0], "Z-060");
    assert_eq!(tail[59], "Z-119");
    assert!(head.windows(2).all(|w| w[0] <= w[1]));
    assert!(tail.windows(2).all(|w| w[0] <= w[1]));
    assert_eq!(all_names(&registry), before);
}

#[test]
fn split_of_an_odd_size_gives_the_smaller_half_first() {
    let mut registry = registry_of(&[("Z", 101)]);
    assert_eq!(registry.balance(&Thresholds::default()), Ok(()));
    assert_eq!(sizes(&registry), vec![("Z_1".to_string(), 50), ("Z_2".to_string(), 51)]);
}

#[test]
fn split_skips_suffixes_that_are_taken() {
    let mut registry = registry_of(&[("Z_1", 60), ("Z", 120), ("Z_3", 60)]);
    assert_eq!(registry.balance(&Thresholds::default()), Ok(()));
    assert_eq!(
        sizes(&registry),
        vec![
            ("Z_1".to_string(), 60),
            ("Z_3".to_string(), 60),
            ("Z_2".to_string(), 60),
            ("Z_4".to_string(), 60)
        ]
    );
}

#[test]
fn split_repeats_until_no_zone_is_too_large() {
    let mut registry = registry_of(&[("Z", 250)]);
    assert_eq!(registry.balance(&Thresholds::default()), Ok(()));
    // 250 -> 125 + 125; the larger key of equal sizes is split first.
    assert_eq!(
        sizes(&registry),
        vec![
            ("Z_2_1".to_string(), 62),
            ("Z_2_2".to_string(), 63),
            ("Z_1_1".to_string(), 62),
            ("Z_1_2".to_string(), 63)
        ]
    );
}

#[test]
fn a_zone_of_exactly_the_split_threshold_is_kept() {
    let mut registry = registry_of(&[("Z", 100)]);
    assert_eq!(registry.balance(&Thresholds::default()), Ok(()));
    assert_eq!(sizes(&registry), vec![("Z".to_string(), 100)]);
}

#[test]
fn zones_that_add_up_to_the_merge_threshold_are_kept() {
    let mut registry = registry_of(&[("A", 20), ("B", 30), ("C", 60)]);
    assert_eq!(registry.balance(&Thresholds::default()), Ok(()));
    assert_eq!(
        sizes(&registry),
        vec![("A".to_string(), 20), ("B".to_string(), 30), ("C".to_string(), 60)]
    );
}

#[test]
fn two_small_zones_are_not_merged() {
    let mut registry = registry_of(&[("A", 10), ("B", 15)]);
    assert_eq!(registry.balance(&Thresholds::default()), Ok(()));
    assert_eq!(sizes(&registry), vec![("A".to_string(), 10), ("B".to_string(), 15)]);
}

#[test]
fn an_empty_registry_is_balanced() {
    let mut registry = ZoneRegistry::new();
    assert_eq!(registry.balance(&Thresholds::default()), Ok(()));
    assert_eq!(registry.len(), 0);
    assert!(zone_rows(&registry).is_empty());
}

#[test]
fn balancing_twice_changes_nothing() {
    let mut registry = registry_of(&[("A", 3), ("B", 4), ("C", 230), ("D", 7)]);
    assert_eq!(registry.balance(&Thresholds::default()), Ok(()));
    let once = sizes(&registry);
    let channels: Vec<Vec<String>> =
        (0..registry.len()).map(|i| registry.zone(i).channels.clone()).collect();
    assert_eq!(registry.balance(&Thresholds::default()), Ok(()));
    assert_eq!(sizes(&registry), once);
    let again: Vec<Vec<String>> =
        (0..registry.len()).map(|i| registry.zone(i).channels.clone()).collect();
    assert_eq!(again, channels);
}

#[test]
fn a_merged_key_that_is_taken_stops_the_balancing() {
    let mut registry = registry_of(&[("a", 1), ("b", 1), ("a/b", 2)]);
    let before = sizes(&registry);
    assert_eq!(registry.balance(&Thresholds::default()), Err(BalanceError::KeyCollision));
    assert_eq!(sizes(&registry), before);
}

#[test]
fn other_thresholds_are_honoured() {
    let mut registry = registry_of(&[("A", 2), ("B", 2), ("C", 9)]);
    let thresholds = Thresholds::new(5, 8).unwrap();
    assert_eq!(registry.balance(&thresholds), Ok(()));
    // First A+B (4 < 5) are merged; then C (9 > 8) is split into 4 and 5;
    // then C_1 (4) and A/B (4) are not merged (8 >= 5).
    assert_eq!(
        sizes(&registry),
        vec![("A/B".to_string(), 4), ("C_1".to_string(), 4), ("C_2".to_string(), 5)]
    );
}

#[test]
fn fresh_keys_are_the_two_smallest_free_suffixes() {
    let registry = registry_of(&[("K_2", 1), ("K", 1), ("K_3", 1)]);
    assert_eq!(registry.fresh_keys("K"), Some(("K_1".to_string(), "K_4".to_string())));
    assert_eq!(registry.fresh_keys("Q"), Some(("Q_1".to_string(), "Q_2".to_string())));
}

#[test]
fn zone_key_is_the_leading_token_or_default() {
    assert_eq!(zone_key(""), "Default");
    assert_eq!(zone_key("10 A"), "10");
    assert_eq!(zone_key("2429135"), "2429135");
    assert_eq!(zone_key("NONE"), "NONE");
    assert_eq!(zone_key("abc def ghi"), "abc");
}

#[test]
fn grouping_keeps_the_input_order() {
    let records = vec![
        record("c1", "10 A"),
        record("c2", "20 B"),
        record("c3", "10 A"),
        record("c4", ""),
        record("c5", "20 other"),
    ];
    let registry = group_channels(&records);
    assert_eq!(registry.len(), 3);
    assert_eq!(registry.zone(0).key, "10");
    assert_eq!(registry.zone(0).channels, vec!["c1", "c3"]);
    assert_eq!(registry.zone(1).key, "20");
    assert_eq!(registry.zone(1).channels, vec!["c2", "c5"]);
    assert_eq!(registry.zone(2).key, "Default");
    assert_eq!(registry.zone(2).channels, vec!["c4"]);
}

#[test]
fn five_channels_collapse_to_two_zones() {
    let records = vec![
        record("ch1", "10 A"),
        record("ch2", "10 A"),
        record("ch3", "20 B"),
        record("ch4", ""),
        record("ch5", "30 C"),
    ];
    let mut registry = group_channels(&records);
    assert_eq!(
        sizes(&registry),
        vec![
            ("10".to_string(), 2),
            ("20".to_string(), 1),
            ("Default".to_string(), 1),
            ("30".to_string(), 1)
        ]
    );
    assert_eq!(registry.balance(&Thresholds::default()), Ok(()));
    assert_eq!(registry.len(), 2);
    assert_eq!(sizes(&registry), vec![("20/30".to_string(), 2), ("Default/10".to_string(), 3)]);
    assert_eq!(registry.zone(0).channels, vec!["ch3", "ch5"]);
    assert_eq!(registry.zone(1).channels, vec!["ch4", "ch1", "ch2"]);
    assert_eq!(all_names(&registry), vec!["ch1", "ch2", "ch3", "ch4", "ch5"]);
}

#[test]
fn partition_lays_out_the_balanced_zones() {
    let records = vec![
        record("ch1", "10 A"),
        record("ch2", "10 A"),
        record("ch3", "20 B"),
        record("ch4", ""),
        record("ch5", "30 C"),
    ];
    let rows = partition(&records, &Thresholds::default()).unwrap();
    assert_eq!(rows.len(), 2);
    assert_eq!(rows[0].index, 1);
    assert_eq!(rows[0].key, "20/30");
    assert_eq!(rows[0].channels, vec!["ch3", "ch5"]);
    assert_eq!(rows[0].members(), "ch3|ch5");
    assert_eq!(rows[0].channel_a, "ch3");
    assert_eq!(rows[0].channel_b, "ch5");
    assert_eq!(rows[1].index, 2);
    assert_eq!(rows[1].key, "Default/10");
    assert_eq!(rows[1].channels, vec!["ch1", "ch2", "ch4"]);
    assert_eq!(rows[1].members(), "ch1|ch2|ch4");
    assert_eq!(rows[1].channel_a, "ch1");
    assert_eq!(rows[1].channel_b, "ch4");
}

#[test]
fn partition_is_the_same_on_every_run() {
    let mut records: Vec<ChannelRecord> = Vec::new();
    for i in 0..300 {
        records.push(record(&format!("name{}", (i * 7919) % 300), &format!("{} g", i % 17)));
    }
    let first = partition(&records, &Thresholds::default()).unwrap();
    let second = partition(&records, &Thresholds::default()).unwrap();
    assert_eq!(first.len(), second.len());
    for (a, b) in first.iter().zip(second.iter()) {
        assert_eq!(a.index, b.index);
        assert_eq!(a.key, b.key);
        assert_eq!(a.channels, b.channels);
        assert_eq!(a.channel_a, b.channel_a);
        assert_eq!(a.channel_b, b.channel_b);
    }
    let mut seen: Vec<String> = first.iter().flat_map(|r| r.channels.iter().cloned()).collect();
    seen.sort();
    let mut given: Vec<String> = records.iter().map(|r| r.name.clone()).collect();
    given.sort();
    assert_eq!(seen, given);
}

#[test]
fn partition_reports_a_key_collision() {
    let records =
        vec![record("c1", "a x"), record("c2", "b x"), record("c3", "a/b x"), record("c4", "a/b x")];
    assert!(matches!(
        partition(&records, &Thresholds::default()),
        Err(BalanceError::KeyCollision)
    ));
}

#[test]
fn a_zone_of_one_channel_has_the_same_a_and_b() {
    let registry = registry_of(&[("solo", 1)]);
    let rows = zone_rows(&registry);
    assert_eq!(rows.len(), 1);
    assert_eq!(rows[0].index, 1);
    assert_eq!(rows[0].key, "solo");
    assert_eq!(rows[0].channel_a, "solo-000");
    assert_eq!(rows[0].channel_b, "solo-000");
    assert_eq!(rows[0].members(), "solo-000");
}

#[test]
fn rows_are_ordered_by_key_and_leave_the_registry_alone() {
    let registry = registry_of(&[("b", 2), ("a", 3), ("B", 1)]);
    let rows = zone_rows(&registry);
    let keys: Vec<&str> = rows.iter().map(|r| r.key.as_str()).collect();
    assert_eq!(keys, vec!["B", "a", "b"]);
    assert_eq!(rows[1].channels, vec!["a-000", "a-001", "a-002"]);
    assert_eq!(rows[1].channel_a, "a-000");
    assert_eq!(rows[1].channel_b, "a-002");
    assert_eq!(registry.zone(1).channels, vec!["a-002", "a-001", "a-000"]);
    assert_eq!(registry.zone(0).key, "b");
}

#[test]
fn registry_insert_and_remove() {
    let mut registry = ZoneRegistry::new();
    assert!(registry.insert("k".to_string(), vec!["x".to_string()]));
    assert!(!registry.insert("k".to_string(), vec!["y".to_string()]));
    assert!(!registry.insert("empty".to_string(), Vec::new()));
    assert!(registry.contains_key("k"));
    assert_eq!(registry.find("k"), Some(0));
    assert_eq!(registry.find("absent"), None);
    assert_eq!(registry.remove("absent"), None);
    assert_eq!(registry.remove("k"), Some(vec!["x".to_string()]));
    assert_eq!(registry.len(), 0);
}

#[test]
fn snapshot_is_sorted_by_size_then_key() {
    let registry = registry_of(&[("b", 2), ("c", 1), ("a", 2), ("d", 1)]);
    let snapshot = registry.snapshot();
    let seen: Vec<(usize, &str)> = snapshot.iter().map(|c| (c.size, c.key.as_str())).collect();
    assert_eq!(seen, vec![(1, "c"), (1, "d"), (2, "a"), (2, "b")]);
}

#[test]
fn the_zone_table_does_not_depend_on_the_order_of_the_registry() {
    let mut a = registry_of(&[("A", 3), ("B", 4), ("C", 230), ("D", 7), ("E", 40)]);
    let mut b = registry_ascending(&[("E", 40), ("C", 230), ("A", 3), ("D", 7), ("B", 4)]);
    assert_eq!(a.balance(&Thresholds::default()), Ok(()));
    assert_eq!(b.balance(&Thresholds::default()), Ok(()));
    let rows_a = zone_rows(&a);
    let rows_b = zone_rows(&b);
    assert_eq!(rows_a.len(), rows_b.len());
    for (x, y) in rows_a.iter().zip(rows_b.iter()) {
        assert_eq!(x.index, y.index);
        assert_eq!(x.key, y.key);
        assert_eq!(x.channels, y.channels);
        assert_eq!(x.channel_a, y.channel_a);
        assert_eq!(x.channel_b, y.channel_b);
    }
    let keys: Vec<&str> = rows_a.iter().map(|r| r.key.as_str()).collect();
    assert_eq!(keys, vec!["A/B/D", "C_1_1", "C_1_2", "C_2_1", "C_2_2", "E"]);
}

#[test]
fn a_field_that_starts_with_a_space_goes_to_the_default_zone() {
    assert_eq!(zone_key(" 42"), "Default");
    assert_eq!(zone_key(" "), "Default");
    let registry = group_channels(&vec![record("c1", " 42"), record("c2", "")]);
    assert_eq!(sizes(&registry), vec![("Default".to_string(), 2)]);
}
