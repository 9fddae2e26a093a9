use etl_legs::codec::{encode, SchemaVersion};
use etl_legs::keys::{PartitionKey, TimePeriod};
use etl_legs::recon::{build_required, reconcile, scan_completed, EntityRef};

fn key(entity: &str, year: u16, month: u8) -> PartitionKey {
    PartitionKey::new(entity.as_bytes().to_vec(), TimePeriod::new(year, month))
}

fn entity(id: &str, region: &str) -> EntityRef {
    EntityRef {
        id: id.as_bytes().to_vec(),
        region: region.as_bytes().to_vec(),
    }
}

fn has(keys: &[PartitionKey], k: &PartitionKey) -> bool {
    keys.iter()
        .any(|c| c.entity == k.entity && c.period == k.period)
}

#[test]
fn required_is_entities_times_months() {
    let entities = vec![entity("aaa111", "US"), entity("bbb222", "FR")];
    let years = vec![2023u16, 2024u16];
    let required = build_required(&entities, &years, None);
    // 2 entities x 2 years x 12 months
    assert_eq!(required.len(), 48);
    assert!(has(&required, &key("aaa111", 2023, 1)));
    assert!(has(&required, &key("bbb222", 2024, 12)));
    assert!(!has(&required, &key("ccc333", 2023, 1)));
}

#[test]
fn region_filter_restricts_entities() {
    let entities = vec![entity("aaa111", "US"), entity("bbb222", "FR")];
    let years = vec![2023u16];
    let filter = b"FR".to_vec();
    let required = build_required(&entities, &years, Some(&filter));
    assert_eq!(required.len(), 12);
    assert!(has(&required, &key("bbb222", 2023, 6)));
    assert!(!has(&required, &key("aaa111", 2023, 6)));
}

#[test]
fn malformed_entities_are_skipped() {
    let entities = vec![entity("", "US"), entity("a/b", "US"), entity("ok1", "US")];
    let years = vec![2023u16];
    let required = build_required(&entities, &years, None);
    assert_eq!(required.len(), 12);
    assert!(has(&required, &key("ok1", 2023, 1)));
}

#[test]
fn todo_is_ready_minus_completed() {
    let required = vec![key("aaa", 2023, 1), key("aaa", 2023, 2)];
    let ready = vec![key("aaa", 2023, 1)];
    let completed: Vec<PartitionKey> = Vec::new();
    let todo = reconcile(&required, &ready, &completed);
    assert_eq!(todo.len(), 1);
    assert!(has(&todo, &key("aaa", 2023, 1)));
}

#[test]
fn completed_keys_are_never_rederived() {
    let required = vec![key("aaa", 2023, 1), key("aaa", 2023, 2)];
    let ready = vec![key("aaa", 2023, 1), key("aaa", 2023, 2)];
    let completed = vec![key("aaa", 2023, 1)];
    let todo = reconcile(&required, &ready, &completed);
    assert_eq!(todo.len(), 1);
    assert!(has(&todo, &key("aaa", 2023, 2)));
    assert!(!has(&todo, &key("aaa", 2023, 1)));
}

#[test]
fn todo_is_sorted_by_period_then_entity() {
    let required = vec![
        key("zz", 2023, 2),
        key("aa", 2024, 1),
        key("bb", 2023, 2),
        key("aa", 2023, 1),
    ];
    let ready = required.iter().map(|k| k.dup()).collect::<Vec<_>>();
    // duplicates in the ready listing must not duplicate work
    let mut ready2 = ready.iter().map(|k| k.dup()).collect::<Vec<_>>();
    ready2.extend(ready.iter().map(|k| k.dup()));
    let todo = reconcile(&required, &ready2, &Vec::new());
    assert_eq!(todo.len(), 4);
    assert_eq!(todo[0].entity, b"aa".to_vec());
    assert_eq!(todo[0].period, TimePeriod::new(2023, 1));
    assert_eq!(todo[1].entity, b"bb".to_vec());
    assert_eq!(todo[2].entity, b"zz".to_vec());
    assert_eq!(todo[3].period, TimePeriod::new(2024, 1));
}

#[test]
fn scan_decodes_listing_and_counts_warnings() {
    let k1 = key("aaa", 2023, 1);
    let k2 = key("bbb", 2023, 2);
    let listing = vec![
        encode(SchemaVersion::V2, &k1),
        b"leg/v2/data/garbage".to_vec(),
        encode(SchemaVersion::V2, &k2),
    ];
    let (keys, warnings) = scan_completed(SchemaVersion::V2, &listing);
    assert_eq!(keys.len(), 2);
    assert_eq!(warnings, 1);
    assert!(has(&keys, &k1));
    assert!(has(&keys, &k2));
}
