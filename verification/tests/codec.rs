use etl_legs::codec::{decode, encode, SchemaVersion};
use etl_legs::keys::{PartitionKey, TimePeriod};

fn key(entity: &str, year: u16, month: u8) -> PartitionKey {
    PartitionKey::new(entity.as_bytes().to_vec(), TimePeriod::new(year, month))
}

#[test]
fn encode_produces_hive_path() {
    let k = key("a019bc", 2023, 1);
    let path = encode(SchemaVersion::V2, &k);
    assert_eq!(
        path,
        b"leg/v2/data/month=2023-01/icao_number=a019bc/data.json".to_vec()
    );
    let k1 = key("a019bc", 2019, 12);
    let path1 = encode(SchemaVersion::V1, &k1);
    assert_eq!(
        path1,
        b"leg/v1/data/month=2019-12/icao_number=a019bc/data.csv".to_vec()
    );
}

#[test]
fn decode_inverts_encode() {
    let k = key("ab42cd", 2024, 7);
    let path = encode(SchemaVersion::V2, &k);
    let back = decode(SchemaVersion::V2, &path).expect("a produced path must decode");
    assert_eq!(back.entity, k.entity);
    assert_eq!(back.period, k.period);
    // and re-encoding the decoded key reproduces the path
    assert_eq!(encode(SchemaVersion::V2, &back), path);
}

#[test]
fn decode_rejects_foreign_paths() {
    assert!(decode(SchemaVersion::V2, &b"not/a/partition/path".to_vec()).is_err());
    assert!(decode(SchemaVersion::V2, &Vec::new()).is_err());
    // month out of range
    assert!(decode(
        SchemaVersion::V2,
        &b"leg/v2/data/month=2023-13/icao_number=ab/data.json".to_vec()
    )
    .is_err());
    // entity with a reserved byte
    assert!(decode(
        SchemaVersion::V2,
        &b"leg/v2/data/month=2023-01/icao_number=a=b/data.json".to_vec()
    )
    .is_err());
    // empty entity
    assert!(decode(
        SchemaVersion::V2,
        &b"leg/v2/data/month=2023-01/icao_number=/data.json".to_vec()
    )
    .is_err());
    // wrong filename for the generation
    assert!(decode(
        SchemaVersion::V2,
        &b"leg/v2/data/month=2023-01/icao_number=ab/data.csv".to_vec()
    )
    .is_err());
}

#[test]
fn generations_are_not_cross_applied() {
    let k = key("a019bc", 2023, 3);
    let v2_path = encode(SchemaVersion::V2, &k);
    let v1_path = encode(SchemaVersion::V1, &k);
    assert!(decode(SchemaVersion::V1, &v2_path).is_err());
    assert!(decode(SchemaVersion::V2, &v1_path).is_err());
}
