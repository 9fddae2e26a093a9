use etl_legs::records::{
    header_bytes, parse_partition, serialize_partition, transform, Leg, LegRecord, Position,
};

fn leg(base: i64) -> Leg {
    Leg {
        start: Position {
            time: base,
            lat: base + 1,
            lon: base + 2,
            alt: base + 3,
        },
        end: Position {
            time: base + 4,
            lat: base + 5,
            lon: base + 6,
            alt: base + 7,
        },
        length: base + 8,
    }
}

fn record(entity: &str, base: i64) -> LegRecord {
    LegRecord {
        entity: entity.as_bytes().to_vec(),
        leg: leg(base),
    }
}

const HEADER: &str =
    "icao_number,start,start_lat,start_lon,start_altitude,end,end_lat,end_lon,end_altitude,length\n";

#[test]
fn transform_tags_each_leg_with_the_entity() {
    let legs = vec![leg(1), leg(100)];
    let recs = transform(&b"a019bc".to_vec(), &legs);
    assert_eq!(recs.len(), 2);
    assert_eq!(recs[0].entity, b"a019bc".to_vec());
    assert_eq!(recs[0].leg, legs[0]);
    assert_eq!(recs[1].entity, b"a019bc".to_vec());
    assert_eq!(recs[1].leg, legs[1]);
}

#[test]
fn serialize_renders_header_and_rows() {
    let recs = vec![record("ab", 1)];
    let blob = serialize_partition(&recs);
    let expected = format!("{HEADER}ab,1,2,3,4,5,6,7,8,9\n");
    assert_eq!(blob, expected.into_bytes());
}

#[test]
fn serialize_renders_negative_values() {
    let mut r = record("ab", 1);
    r.leg.start.lat = -45;
    r.leg.length = 0;
    let blob = serialize_partition(&vec![r]);
    let expected = format!("{HEADER}ab,1,-45,3,4,5,6,7,8,0\n");
    assert_eq!(blob, expected.into_bytes());
}

#[test]
fn empty_partition_is_just_the_header() {
    let blob = serialize_partition(&Vec::new());
    assert_eq!(blob, header_bytes());
    let parsed = parse_partition(&blob).expect("a header-only blob holds no rows");
    assert!(parsed.is_empty());
}

#[test]
fn parse_inverts_serialize() {
    let recs = vec![record("ab", 1), record("cd9", -2000000), record("e", 0)];
    let blob = serialize_partition(&recs);
    let parsed = parse_partition(&blob).expect("own rendering must parse");
    assert_eq!(parsed.len(), recs.len());
    for (p, r) in parsed.iter().zip(recs.iter()) {
        assert_eq!(p.entity, r.entity);
        assert_eq!(p.leg, r.leg);
    }
}

#[test]
fn handwritten_blob_parses() {
    let blob = format!("{HEADER}ab,1,2,3,4,5,6,7,8,9\n").into_bytes();
    let parsed = parse_partition(&blob).expect("a well-formed blob parses");
    assert_eq!(parsed.len(), 1);
    assert_eq!(parsed[0].entity, b"ab".to_vec());
    assert_eq!(parsed[0].leg, leg(1));
}

#[test]
fn parse_rejects_non_canonical_numbers() {
    // a leading zero is not a rendering this format produces
    let blob = format!("{HEADER}ab,01,2,3,4,5,6,7,8,9\n").into_bytes();
    assert!(parse_partition(&blob).is_err());
    // nor is a signed zero
    let blob2 = format!("{HEADER}ab,-0,2,3,4,5,6,7,8,9\n").into_bytes();
    assert!(parse_partition(&blob2).is_err());
}

#[test]
fn parse_rejects_corrupted_content() {
    let recs = vec![record("ab", 1)];
    let mut blob = serialize_partition(&recs);
    // flip one byte in the middle of the row area
    let n = blob.len();
    blob[n - 3] = b'x';
    assert!(parse_partition(&blob).is_err());
    // truncation is also rejected
    let blob2 = serialize_partition(&recs);
    let truncated = blob2[..blob2.len() - 1].to_vec();
    assert!(parse_partition(&truncated).is_err());
    // so is foreign content
    assert!(parse_partition(&b"hello world".to_vec()).is_err());
}
