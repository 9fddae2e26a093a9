use etl_legs::aggregate::{
    aggregate_year_blobs, keys_in_year, merge_partitions, status_json, year_path, years_of,
    StatusEntry,
};
use etl_legs::codec::SchemaVersion;
use etl_legs::keys::{PartitionKey, TimePeriod};
use etl_legs::records::{serialize_partition, Leg, LegRecord, Position};

fn key(entity: &str, year: u16, month: u8) -> PartitionKey {
    PartitionKey::new(entity.as_bytes().to_vec(), TimePeriod::new(year, month))
}

fn record(entity: &str, base: i64) -> LegRecord {
    LegRecord {
        entity: entity.as_bytes().to_vec(),
        leg: Leg {
            start: Position {
                time: base,
                lat: base + 1,
                lon: base + 2,
                alt: base + 3,
            },
            end: Position {
                time: base + 4,
                lat: base + 5,
                lon: base + 6,
                alt: base + 7,
            },
            length: base + 8,
        },
    }
}

#[test]
fn years_are_collected_sorted_and_unique() {
    let keys = vec![
        key("b", 2024, 1),
        key("a", 2019, 3),
        key("c", 2024, 7),
        key("a", 2021, 2),
    ];
    let years = years_of(&keys);
    assert_eq!(years, vec![2019, 2021, 2024]);
}

#[test]
fn keys_of_one_year_keep_their_order() {
    let keys = vec![
        key("b", 2024, 1),
        key("a", 2019, 3),
        key("c", 2024, 7),
    ];
    let of_2024 = keys_in_year(&keys, 2024);
    assert_eq!(of_2024.len(), 2);
    assert_eq!(of_2024[0].entity, b"b".to_vec());
    assert_eq!(of_2024[1].entity, b"c".to_vec());
    assert!(keys_in_year(&keys, 2020).is_empty());
}

#[test]
fn merge_concatenates_partitions() {
    let parts = vec![
        vec![record("a", 1), record("a", 10)],
        vec![],
        vec![record("b", 20)],
    ];
    let merged = merge_partitions(&parts);
    assert_eq!(merged.len(), 3);
    assert_eq!(merged[0].leg, parts[0][0].leg);
    assert_eq!(merged[1].leg, parts[0][1].leg);
    assert_eq!(merged[2].leg, parts[2][0].leg);
}

#[test]
fn yearly_rollup_holds_every_partitions_records() {
    let p1 = vec![record("a", 1)];
    let p2 = vec![record("b", 50), record("b", 60)];
    let blobs = vec![serialize_partition(&p1), serialize_partition(&p2)];
    let rollup = aggregate_year_blobs(&blobs).expect("well-formed blobs aggregate");
    let mut all = p1.clone();
    all.extend(p2.iter().cloned());
    assert_eq!(rollup, serialize_partition(&all));
}

#[test]
fn one_corrupted_partition_aborts_the_year() {
    let p1 = vec![record("a", 1)];
    let good = serialize_partition(&p1);
    let mut bad = serialize_partition(&vec![record("b", 9)]);
    let n = bad.len();
    bad[n - 2] = b'?';
    let blobs = vec![good, bad];
    assert!(aggregate_year_blobs(&blobs).is_err());
}

#[test]
fn year_path_is_the_rollup_location() {
    assert_eq!(
        year_path(SchemaVersion::V2, 2023),
        b"leg/v2/all/year=2023/data.csv".to_vec()
    );
    assert_eq!(
        year_path(SchemaVersion::V1, 2019),
        b"leg/v1/all/year=2019/data.csv".to_vec()
    );
}

#[test]
fn status_document_renders_each_year() {
    let entries = vec![
        StatusEntry {
            year: 2023,
            to_process: 2,
            processed: 1,
            url: b"https://example.net/leg/v2/all/year=2023/data.csv".to_vec(),
        },
        StatusEntry {
            year: 2024,
            to_process: 24,
            processed: 0,
            url: b"https://example.net/leg/v2/all/year=2024/data.csv".to_vec(),
        },
    ];
    let doc = status_json(&entries);
    let mut expected = String::new();
    expected.push_str("{\"2023\":{\"icao_months_to_process\":2,\"icao_months_processed\":1,");
    expected.push_str("\"url\":\"https://example.net/leg/v2/all/year=2023/data.csv\"},");
    expected.push_str("\"2024\":{\"icao_months_to_process\":24,\"icao_months_processed\":0,");
    expected.push_str("\"url\":\"https://example.net/leg/v2/all/year=2024/data.csv\"}}");
    assert_eq!(doc, expected.into_bytes());
}

#[test]
fn empty_status_document_is_an_empty_object() {
    assert_eq!(status_json(&Vec::new()), b"{}".to_vec());
}
