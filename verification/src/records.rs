//! Leg records and the row-oriented byte format in which a partition
//! blob stores them: a fixed header line followed by one row per leg,
//! fields comma-separated, rows newline-terminated.

use vstd::prelude::*;

use crate::codec::match_at;
use crate::keys::{copy_bytes, entity_byte_ok, entity_valid_exec, PartitionKey};
use crate::num::{all_digits, dec, dec_signed, push_dec_i64, val_of};
use crate::num::{lemma_dec_is_digits, lemma_val_of_dec, lemma_val_of_take};

verus! {

/// One observed position, as plain values from the upstream source:
/// a timestamp in seconds and fixed-point coordinate and altitude
/// units.
#[derive(Clone, Copy, PartialEq, Eq, Structural, Debug)]
pub struct Position {
    pub time: i64,
    pub lat: i64,
    pub lon: i64,
    pub alt: i64,
}

/// One derived movement segment between two positions, with its path
/// length in fixed-point units.
#[derive(Clone, Copy, PartialEq, Eq, Structural, Debug)]
pub struct Leg {
    pub start: Position,
    pub end: Position,
    pub length: i64,
}

/// One stored row: a leg tagged with the entity it belongs to.
#[derive(Clone, Debug)]
pub struct LegRecord {
    pub entity: Vec<u8>,
    pub leg: Leg,
}

/// The mathematical value of one stored row.
#[verifier::ext_equal]
pub struct RecordModel {
    pub entity: Seq<u8>,
    pub leg: Leg,
}

impl View for LegRecord {
    type V = RecordModel;

    open spec fn view(&self) -> RecordModel {
        RecordModel { entity: self.entity@, leg: self.leg }
    }
}

impl LegRecord {
    /// An explicit copy whose value is known to equal the original's.
    pub fn dup(&self) -> (r: LegRecord)
        ensures
            r@ == self@,
    {
        let r = LegRecord { entity: copy_bytes(&self.entity), leg: self.leg };
        proof {
            assert(r@ =~= self@);
        }
        r
    }
}

/// The row values held by a list of records.
pub open spec fn rec_models(s: Seq<LegRecord>) -> Seq<RecordModel> {
    s.map_values(|r: LegRecord| r@)
}

/// Every numeric field must exceed the smallest machine integer so
/// that its magnitude is renderable.
pub open spec fn pos_valid(p: Position) -> bool {
    p.time > i64::MIN && p.lat > i64::MIN && p.lon > i64::MIN && p.alt > i64::MIN
}

pub open spec fn leg_valid(l: Leg) -> bool {
    pos_valid(l.start) && pos_valid(l.end) && l.length > i64::MIN
}

pub open spec fn record_valid(m: RecordModel) -> bool {
    PartitionKey::entity_valid(m.entity) && leg_valid(m.leg)
}

/// The fixed header line of a partition blob.
pub open spec fn header_model() -> Seq<u8> {
    seq![
        'i' as u8,
        'c' as u8,
        'a' as u8,
        'o' as u8,
        '_' as u8,
        'n' as u8,
        'u' as u8,
        'm' as u8,
        'b' as u8,
        'e' as u8,
        'r' as u8,
        ',' as u8,
        's' as u8,
        't' as u8,
        'a' as u8,
        'r' as u8,
        't' as u8,
        ',' as u8,
        's' as u8,
        't' as u8,
        'a' as u8,
        'r' as u8,
        't' as u8,
        '_' as u8,
        'l' as u8,
        'a' as u8,
        't' as u8,
        ',' as u8,
        's' as u8,
        't' as u8,
        'a' as u8,
        'r' as u8,
        't' as u8,
        '_' as u8,
        'l' as u8,
        'o' as u8,
        'n' as u8,
        ',' as u8,
        's' as u8,
        't' as u8,
        'a' as u8,
        'r' as u8,
        't' as u8,
        '_' as u8,
        'a' as u8,
        'l' as u8,
        't' as u8,
        'i' as u8,
        't' as u8,
        'u' as u8,
        'd' as u8,
        'e' as u8,
        ',' as u8,
        'e' as u8,
        'n' as u8,
        'd' as u8,
        ',' as u8,
        'e' as u8,
        'n' as u8,
        'd' as u8,
        '_' as u8,
        'l' as u8,
        'a' as u8,
        't' as u8,
        ',' as u8,
        'e' as u8,
        'n' as u8,
        'd' as u8,
        '_' as u8,
        'l' as u8,
        'o' as u8,
        'n' as u8,
        ',' as u8,
        'e' as u8,
        'n' as u8,
        'd' as u8,
        '_' as u8,
        'a' as u8,
        'l' as u8,
        't' as u8,
        'i' as u8,
        't' as u8,
        'u' as u8,
        'd' as u8,
        'e' as u8,
        ',' as u8,
        'l' as u8,
        'e' as u8,
        'n' as u8,
        'g' as u8,
        't' as u8,
        'h' as u8,
        10u8,
    ]
}

/// One row: the entity name and the nine numeric fields of its leg,
/// comma-separated and newline-terminated.
pub open spec fn row_model(m: RecordModel) -> Seq<u8> {
    m.entity + seq![44u8] + dec_signed(m.leg.start.time as int) + seq![44u8] + dec_signed(
        m.leg.start.lat as int,
    ) + seq![44u8] + dec_signed(m.leg.start.lon as int) + seq![44u8] + dec_signed(
        m.leg.start.alt as int,
    ) + seq![44u8] + dec_signed(m.leg.end.time as int) + seq![44u8] + dec_signed(
        m.leg.end.lat as int,
    ) + seq![44u8] + dec_signed(m.leg.end.lon as int) + seq![44u8] + dec_signed(
        m.leg.end.alt as int,
    ) + seq![44u8] + dec_signed(m.leg.length as int) + seq![10u8]
}

/// A whole partition blob: the header followed by one row per record,
/// in record order.
pub open spec fn blob_model(rs: Seq<RecordModel>) -> Seq<u8>
    decreases rs.len(),
{
    if rs.len() == 0 {
        header_model()
    } else {
        blob_model(rs.drop_last()) + row_model(rs.last())
    }
}

/// The fixed header line, as bytes.
pub fn header_bytes() -> (r: Vec<u8>)
    ensures
        r@ == header_model(),
{
    let mut r: Vec<u8> = Vec::new();
    r.push('i' as u8);
    r.push('c' as u8);
    r.push('a' as u8);
    r.push('o' as u8);
    r.push('_' as u8);
    r.push('n' as u8);
    r.push('u' as u8);
    r.push('m' as u8);
    r.push('b' as u8);
    r.push('e' as u8);
    r.push('r' as u8);
    r.push(',' as u8);
    r.push('s' as u8);
    r.push('t' as u8);
    r.push('a' as u8);
    r.push('r' as u8);
    r.push('t' as u8);
    r.push(',' as u8);
    r.push('s' as u8);
    r.push('t' as u8);
    r.push('a' as u8);
    r.push('r' as u8);
    r.push('t' as u8);
    r.push('_' as u8);
    r.push('l' as u8);
    r.push('a' as u8);
    r.push('t' as u8);
    r.push(',' as u8);
    r.push('s' as u8);
    r.push('t' as u8);
    r.push('a' as u8);
    r.push('r' as u8);
    r.push('t' as u8);
    r.push('_' as u8);
    r.push('l' as u8);
    r.push('o' as u8);
    r.push('n' as u8);
    r.push(',' as u8);
    r.push('s' as u8);
    r.push('t' as u8);
    r.push('a' as u8);
    r.push('r' as u8);
    r.push('t' as u8);
    r.push('_' as u8);
    r.push('a' as u8);
    r.push('l' as u8);
    r.push('t' as u8);
    r.push('i' as u8);
    r.push('t' as u8);
    r.push('u' as u8);
    r.push('d' as u8);
    r.push('e' as u8);
    r.push(',' as u8);
    r.push('e' as u8);
    r.push('n' as u8);
    r.push('d' as u8);
    r.push(',' as u8);
    r.push('e' as u8);
    r.push('n' as u8);
    r.push('d' as u8);
    r.push('_' as u8);
    r.push('l' as u8);
    r.push('a' as u8);
    r.push('t' as u8);
    r.push(',' as u8);
    r.push('e' as u8);
    r.push('n' as u8);
    r.push('d' as u8);
    r.push('_' as u8);
    r.push('l' as u8);
    r.push('o' as u8);
    r.push('n' as u8);
    r.push(',' as u8);
    r.push('e' as u8);
    r.push('n' as u8);
    r.push('d' as u8);
    r.push('_' as u8);
    r.push('a' as u8);
    r.push('l' as u8);
    r.push('t' as u8);
    r.push('i' as u8);
    r.push('t' as u8);
    r.push('u' as u8);
    r.push('d' as u8);
    r.push('e' as u8);
    r.push(',' as u8);
    r.push('l' as u8);
    r.push('e' as u8);
    r.push('n' as u8);
    r.push('g' as u8);
    r.push('t' as u8);
    r.push('h' as u8);
    r.push(10u8);
    proof {
        assert(r@ =~= header_model());
    }
    r
}

/// Converts the legs derived for one entity into stored rows, one per
/// leg, in order.
pub fn transform(entity: &Vec<u8>, legs: &Vec<Leg>) -> (r: Vec<LegRecord>)
    ensures
        r@.len() == legs@.len(),
        forall|i: int|
            0 <= i < legs@.len() ==> rec_models(r@)[i] == (RecordModel {
                entity: entity@,
                leg: legs@[i],
            }),
{
    let mut r: Vec<LegRecord> = Vec::new();
    let mut i: usize = 0;
    while i < legs.len()
        invariant
            i <= legs@.len(),
            r@.len() == i,
            forall|j: int|
                0 <= j < i ==> rec_models(r@)[j] == (RecordModel {
                    entity: entity@,
                    leg: legs@[j],
                }),
        decreases legs@.len() - i,
    {
        let rec = LegRecord { entity: copy_bytes(entity), leg: legs[i] };
        proof {
            assert(rec@ =~= (RecordModel { entity: entity@, leg: legs@[i as int] }));
        }
        let ghost prev = r@;
        r.push(rec);
        proof {
            assert(rec_models(r@) =~= rec_models(prev).push(rec@));
        }
        i = i + 1;
    }
    r
}

/// Appends one row to `out`.
#[verifier::rlimit(100)]
fn push_row(out: &mut Vec<u8>, rec: &LegRecord)
    requires
        record_valid(rec@),
    ensures
        final(out)@ == old(out)@ + row_model(rec@),
{
    crate::codec::push_bytes(out, &rec.entity);
    out.push(44);
    push_dec_i64(out, rec.leg.start.time);
    out.push(44);
    push_dec_i64(out, rec.leg.start.lat);
    out.push(44);
    push_dec_i64(out, rec.leg.start.lon);
    out.push(44);
    push_dec_i64(out, rec.leg.start.alt);
    out.push(44);
    push_dec_i64(out, rec.leg.end.time);
    out.push(44);
    push_dec_i64(out, rec.leg.end.lat);
    out.push(44);
    push_dec_i64(out, rec.leg.end.lon);
    out.push(44);
    push_dec_i64(out, rec.leg.end.alt);
    out.push(44);
    push_dec_i64(out, rec.leg.length);
    out.push(10);
    proof {
        assert(out@ =~= old(out)@ + row_model(rec@));
    }
}

/// Serializes records into a partition blob. The bytes are a pure
/// function of the records, so rewriting unchanged records rewrites
/// identical bytes.
pub fn serialize_partition(records: &Vec<LegRecord>) -> (r: Vec<u8>)
    requires
        forall|i: int| 0 <= i < records@.len() ==> record_valid(#[trigger] rec_models(records@)[i]),
    ensures
        r@ == blob_model(rec_models(records@)),
{
    let mut out = header_bytes();
    let mut i: usize = 0;
    while i < records.len()
        invariant
            i <= records@.len(),
            forall|j: int|
                0 <= j < records@.len() ==> record_valid(#[trigger] rec_models(records@)[j]),
            out@ == blob_model(rec_models(records@).take(i as int)),
        decreases records@.len() - i,
    {
        proof {
            assert(rec_models(records@)[i as int] == records@[i as int]@);
        }
        push_row(&mut out, &records[i]);
        proof {
            let ms = rec_models(records@);
            assert(ms.take(i + 1).drop_last() =~= ms.take(i as int));
            assert(ms.take(i + 1).last() == ms[i as int]);
        }
        i = i + 1;
    }
    proof {
        assert(rec_models(records@).take(records@.len() as int) =~= rec_models(records@));
    }
    out
}

/// A partition blob whose content is not a well-formed rendering of
/// leg records.
#[derive(Clone, Copy, PartialEq, Eq, Structural, Debug)]
pub struct SerializationError;

/// Where a rendered signed number sits in a byte string: at `i`
/// stands exactly `dec_signed(v)`, followed by the delimiter.
pub open spec fn int_at(b: Seq<u8>, i: int, v: int, delim: u8) -> bool {
    &&& 0 <= i
    &&& i + dec_signed(v).len() + 1 <= b.len()
    &&& b.subrange(i, i + dec_signed(v).len() as int) == dec_signed(v)
    &&& b[i + dec_signed(v).len() as int] == delim
}

/// Unpacks `int_at` into facts about the sign byte, the digit run,
/// its value and the delimiter position.
proof fn lemma_int_at_shape(b: Seq<u8>, i: int, v: int, delim: u8)
    requires
        int_at(b, i, v, delim),
        v > i64::MIN,
        v <= i64::MAX,
    ensures
        ({
            let s: int = if v < 0 { 1int } else { 0int };
            let a: int = if v < 0 { -v } else { v };
            let ld = dec(a).len() as int;
            &&& dec_signed(v).len() == s + ld
            &&& ld >= 1
            &&& i + s + ld + 1 <= b.len()
            &&& (v < 0 ==> b[i] == 45)
            &&& (v >= 0 ==> 48 <= b[i] <= 57)
            &&& all_digits(b.subrange(i + s, i + s + ld))
            &&& val_of(b.subrange(i + s, i + s + ld)) == a
            &&& b[i + s + ld] == delim
        }),
{
    let s: int = if v < 0 { 1int } else { 0int };
    let a: int = if v < 0 { -v } else { v };
    let ld = dec(a).len() as int;
    let d = dec_signed(v);
    lemma_dec_is_digits(a);
    lemma_val_of_dec(a);
    assert(b[i + s + ld] == b[i + d.len() as int]);
    if v < 0 {
        assert(d == seq![45u8] + dec(a));
        assert(b[i] == b.subrange(i, i + d.len() as int)[0]);
        assert(b.subrange(i + 1, i + 1 + ld) =~= b.subrange(i, i + d.len() as int).subrange(
            1,
            d.len() as int,
        ));
        assert(b.subrange(i + 1, i + 1 + ld) =~= dec(a));
    } else {
        assert(d == dec(a));
        assert(b.subrange(i, i + ld) == dec(a));
        assert(b[i] == b.subrange(i, i + ld)[0]);
        assert(48 <= dec(a)[0] <= 57);
    }
}

/// Reads one signed decimal field that ends in `delim`, returning the
/// value and the position just past the delimiter.
///
/// Succeeds on every position where a rendered value stands (and
/// returns that value); what it accepts beyond the renderings, such
/// as leading zeros, is weeded out by the re-rendering check of
/// [`parse_partition`].
fn parse_int_field(bytes: &Vec<u8>, i: usize, delim: u8) -> (r: Option<(i64, usize)>)
    requires
        i <= bytes@.len(),
        delim == 44 || delim == 10,
    ensures
        match r {
            Some(p) => i < p.1 <= bytes@.len() && p.0 > i64::MIN,
            None => true,
        },
        forall|w: i64|
            w > i64::MIN && int_at(bytes@, i as int, w as int, delim) ==> (r matches Some(p)
                && p.0 == w && p.1 as int == i + dec_signed(w as int).len() + 1),
{
    let n = bytes.len();
    let mut j: usize = i;
    let mut neg = false;
    if j < n && bytes[j] == 45 {
        neg = true;
        j = j + 1;
    }
    let ghost i0 = j as int;
    let mut v: u64 = 0;
    let mut seen = false;
    loop
        invariant
            n == bytes@.len(),
            i0 <= j <= n,
            i <= i0 <= i + 1,
            neg ==> (i0 == i + 1 && i < n && bytes@[i as int] == 45),
            !neg ==> (i0 == i && (i < n ==> bytes@[i as int] != 45)),
            seen <==> j > i0,
            all_digits(bytes@.subrange(i0, j as int)),
            v as int == val_of(bytes@.subrange(i0, j as int)),
            v <= 9223372036854775807,
            delim == 44 || delim == 10,
        ensures
            n == bytes@.len(),
            i0 <= j <= n,
            i <= i0 <= i + 1,
            neg ==> (i0 == i + 1 && i < n && bytes@[i as int] == 45),
            !neg ==> (i0 == i && (i < n ==> bytes@[i as int] != 45)),
            seen <==> j > i0,
            all_digits(bytes@.subrange(i0, j as int)),
            v as int == val_of(bytes@.subrange(i0, j as int)),
            v <= 9223372036854775807,
            j == n || !(48 <= bytes@[j as int] <= 57),
        decreases n - j,
    {
        if j >= n {
            break;
        }
        let b = bytes[j];
        if b < 48 || b > 57 {
            break;
        }
        if v > 922337203685477580 {
            proof {
                assert forall|w: i64|
                    w > i64::MIN && int_at(bytes@, i as int, w as int, delim) implies false by {
                    lemma_int_at_shape(bytes@, i as int, w as int, delim);
                    let s: int = if w < 0 { 1int } else { 0int };
                    let a: int = if w < 0 { -(w as int) } else { w as int };
                    let ld = dec(a).len() as int;
                    let region = bytes@.subrange(i0, i0 + ld);
                    assert(i0 == i + s);
                    assert(j as int <= i0 + ld) by {
                        if j as int > i0 + ld {
                            assert(48 <= bytes@.subrange(i0, j as int)[i0 + ld - i0] <= 57);
                        }
                    }
                    assert(j < i0 + ld) by {
                        if j as int == i0 + ld {
                            assert(bytes@[j as int] == delim);
                        }
                    }
                    let k = j - i0;
                    assert(bytes@.subrange(i0, j as int) =~= region.take(k));
                    lemma_val_of_take(region, k);
                    lemma_val_of_take(region, k + 1);
                    assert(region.take(k + 1).drop_last() =~= region.take(k));
                    assert(region.take(k + 1).last() == bytes@[j as int]);
                    assert(val_of(region.take(k + 1)) == v * 10 + (bytes@[j as int] - 48));
                    assert(val_of(region.take(k + 1)) <= a <= i64::MAX);
                }
            }
            return None;
        }
        let d = (b - 48) as u64;
        let next = v * 10 + d;
        if next > 9223372036854775807 {
            proof {
                assert forall|w: i64|
                    w > i64::MIN && int_at(bytes@, i as int, w as int, delim) implies false by {
                    lemma_int_at_shape(bytes@, i as int, w as int, delim);
                    let s: int = if w < 0 { 1int } else { 0int };
                    let a: int = if w < 0 { -(w as int) } else { w as int };
                    let ld = dec(a).len() as int;
                    let region = bytes@.subrange(i0, i0 + ld);
                    assert(i0 == i + s);
                    assert(j as int <= i0 + ld) by {
                        if j as int > i0 + ld {
                            assert(48 <= bytes@.subrange(i0, j as int)[i0 + ld - i0] <= 57);
                        }
                    }
                    assert(j < i0 + ld) by {
                        if j as int == i0 + ld {
                            assert(bytes@[j as int] == delim);
                        }
                    }
                    let k = j - i0;
                    assert(bytes@.subrange(i0, j as int) =~= region.take(k));
                    lemma_val_of_take(region, k + 1);
                    assert(region.take(k + 1).drop_last() =~= region.take(k));
                    assert(region.take(k + 1).last() == bytes@[j as int]);
                    assert(val_of(region.take(k + 1)) == v * 10 + (bytes@[j as int] - 48));
                    assert(val_of(region.take(k + 1)) <= a <= i64::MAX);
                }
            }
            return None;
        }
        v = next;
        seen = true;
        proof {
            assert(bytes@.subrange(i0, j + 1).drop_last() =~= bytes@.subrange(i0, j as int));
            assert(bytes@.subrange(i0, j + 1).last() == bytes@[j as int]);
        }
        j = j + 1;
    }
    proof {
        assert(j == n || !(48 <= bytes@[j as int] <= 57));
    }
    if !seen {
        proof {
            assert forall|w: i64|
                w > i64::MIN && int_at(bytes@, i as int, w as int, delim) implies false by {
                lemma_int_at_shape(bytes@, i as int, w as int, delim);
                let s: int = if w < 0 { 1int } else { 0int };
                let a: int = if w < 0 { -(w as int) } else { w as int };
                let ld = dec(a).len() as int;
                assert(i0 == i + s);
                assert(48 <= bytes@.subrange(i0, i0 + ld)[0] <= 57);
                assert(bytes@[i0] == bytes@.subrange(i0, i0 + ld)[0]);
            }
        }
        return None;
    }
    let value: i64 = if neg {
        -(v as i64)
    } else {
        v as i64
    };
    if j < n && bytes[j] == delim {
        proof {
            assert forall|w: i64|
                w > i64::MIN && int_at(bytes@, i as int, w as int, delim) implies (value == w && j
                + 1 == i + dec_signed(w as int).len() + 1) by {
                lemma_int_at_shape(bytes@, i as int, w as int, delim);
                let s: int = if w < 0 { 1int } else { 0int };
                let a: int = if w < 0 { -(w as int) } else { w as int };
                let ld = dec(a).len() as int;
                let region = bytes@.subrange(i0, i0 + ld);
                assert(i0 == i + s);
                assert(j as int <= i0 + ld) by {
                    if j as int > i0 + ld {
                        assert(48 <= bytes@.subrange(i0, j as int)[i0 + ld - i0] <= 57);
                    }
                }
                assert(j as int == i0 + ld) by {
                    if (j as int) < i0 + ld {
                        assert(48 <= region[j - i0] <= 57);
                        assert(bytes@[j as int] == region[j - i0]);
                    }
                }
                assert(bytes@.subrange(i0, j as int) =~= region);
                assert(v as int == a);
                assert((neg <==> w < 0));
                assert(value == w);
            }
        }
        Some((value, j + 1))
    } else {
        proof {
            assert forall|w: i64|
                w > i64::MIN && int_at(bytes@, i as int, w as int, delim) implies false by {
                lemma_int_at_shape(bytes@, i as int, w as int, delim);
                let s: int = if w < 0 { 1int } else { 0int };
                let a: int = if w < 0 { -(w as int) } else { w as int };
                let ld = dec(a).len() as int;
                let region = bytes@.subrange(i0, i0 + ld);
                assert(i0 == i + s);
                assert(j as int <= i0 + ld) by {
                    if j as int > i0 + ld {
                        assert(48 <= bytes@.subrange(i0, j as int)[i0 + ld - i0] <= 57);
                    }
                }
                assert(j as int == i0 + ld) by {
                    if (j as int) < i0 + ld {
                        assert(48 <= region[j - i0] <= 57);
                        assert(bytes@[j as int] == region[j - i0]);
                    }
                }
                assert(bytes@[j as int] == delim);
            }
        }
        None
    }
}

/// Where an entity name sits in a byte string: at `i` stands exactly
/// the name, followed by a comma.
pub open spec fn entity_at(b: Seq<u8>, i: int, e: Seq<u8>) -> bool {
    &&& PartitionKey::entity_valid(e)
    &&& 0 <= i
    &&& i + e.len() + 1 <= b.len()
    &&& b.subrange(i, i + e.len() as int) == e
    &&& b[i + e.len() as int] == 44
}

/// Reads one entity-name field that ends in a comma.
///
/// Succeeds on every position where a well-formed entity name
/// stands, and returns that name.
fn parse_entity_field(bytes: &Vec<u8>, i: usize) -> (r: Option<(Vec<u8>, usize)>)
    requires
        i <= bytes@.len(),
    ensures
        match r {
            Some(p) => i < p.1 <= bytes@.len() && PartitionKey::entity_valid(p.0@),
            None => true,
        },
        forall|e: Seq<u8>|
            entity_at(bytes@, i as int, e) ==> (r matches Some(p) && p.0@ == e && p.1 as int == i
                + e.len() + 1),
{
    let n = bytes.len();
    let mut j: usize = i;
    while j < n
        invariant
            i <= j <= n,
            n == bytes@.len(),
            forall|j2: int| i <= j2 < j ==> entity_byte_ok(#[trigger] bytes@[j2]),
        ensures
            i <= j <= n,
            n == bytes@.len(),
            forall|j2: int| i <= j2 < j ==> entity_byte_ok(#[trigger] bytes@[j2]),
            j == n || !entity_byte_ok(bytes@[j as int]),
        decreases n - j,
    {
        if !crate::keys::entity_byte_ok_exec(bytes[j]) {
            break;
        }
        j = j + 1;
    }
    proof {
        assert forall|e: Seq<u8>| entity_at(bytes@, i as int, e) implies (j as int == i + e.len()
            && i + e.len() < n) by {
            let ke = i + e.len() as int;
            assert(bytes@[ke] == 44);
            assert(!entity_byte_ok(44));
            assert(j as int <= ke) by {
                if j as int > ke {
                    assert(entity_byte_ok(bytes@[ke]));
                }
            }
            assert(j as int == ke) by {
                if (j as int) < ke {
                    assert(bytes@[j as int] == bytes@.subrange(i as int, ke)[j - i]);
                    assert(entity_byte_ok(e[j - i]));
                }
            }
        }
    }
    if j == i || j >= n || bytes[j] != 44 {
        proof {
            assert forall|e: Seq<u8>| entity_at(bytes@, i as int, e) implies false by {
                assert(e.len() >= 1);
                assert(bytes@[j as int] == 44);
            }
        }
        return None;
    }
    let e = crate::codec::copy_range(bytes, i, j);
    Some((e, j + 1))
}

/// Where a whole row sits in a byte string: at `i` stands exactly
/// `row_model(m)`.
pub open spec fn row_at(b: Seq<u8>, i: int, m: RecordModel) -> bool {
    &&& record_valid(m)
    &&& 0 <= i
    &&& i + row_model(m).len() <= b.len()
    &&& b.subrange(i, i + row_model(m).len() as int) == row_model(m)
}

/// Unpacks `row_at` into the positions of the row's ten fields.
proof fn lemma_row_at_fields(b: Seq<u8>, i: int, m: RecordModel)
    requires
        row_at(b, i, m),
    ensures
        ({
            let o1 = i + m.entity.len() + 1;
            let o2 = o1 + dec_signed(m.leg.start.time as int).len() + 1;
            let o3 = o2 + dec_signed(m.leg.start.lat as int).len() + 1;
            let o4 = o3 + dec_signed(m.leg.start.lon as int).len() + 1;
            let o5 = o4 + dec_signed(m.leg.start.alt as int).len() + 1;
            let o6 = o5 + dec_signed(m.leg.end.time as int).len() + 1;
            let o7 = o6 + dec_signed(m.leg.end.lat as int).len() + 1;
            let o8 = o7 + dec_signed(m.leg.end.lon as int).len() + 1;
            let o9 = o8 + dec_signed(m.leg.end.alt as int).len() + 1;
            let oend = o9 + dec_signed(m.leg.length as int).len() + 1;
            &&& entity_at(b, i, m.entity)
            &&& int_at(b, o1, m.leg.start.time as int, 44)
            &&& int_at(b, o2, m.leg.start.lat as int, 44)
            &&& int_at(b, o3, m.leg.start.lon as int, 44)
            &&& int_at(b, o4, m.leg.start.alt as int, 44)
            &&& int_at(b, o5, m.leg.end.time as int, 44)
            &&& int_at(b, o6, m.leg.end.lat as int, 44)
            &&& int_at(b, o7, m.leg.end.lon as int, 44)
            &&& int_at(b, o8, m.leg.end.alt as int, 44)
            &&& int_at(b, o9, m.leg.length as int, 10)
            &&& oend == i + row_model(m).len()
        }),
{
    lemma_row_regions_a(b, i, m);
    lemma_row_regions_b(b, i, m);
    lemma_row_regions_c(b, i, m);
}

#[verifier::rlimit(100)]
proof fn lemma_row_regions_a(b: Seq<u8>, i: int, m: RecordModel)
    requires
        row_at(b, i, m),
    ensures
        ({
            let o1 = i + m.entity.len() + 1;
            let o2 = o1 + dec_signed(m.leg.start.time as int).len() + 1;
            let o3 = o2 + dec_signed(m.leg.start.lat as int).len() + 1;
            let o4 = o3 + dec_signed(m.leg.start.lon as int).len() + 1;
            let o5 = o4 + dec_signed(m.leg.start.alt as int).len() + 1;
            let o6 = o5 + dec_signed(m.leg.end.time as int).len() + 1;
            let o7 = o6 + dec_signed(m.leg.end.lat as int).len() + 1;
            let o8 = o7 + dec_signed(m.leg.end.lon as int).len() + 1;
            let o9 = o8 + dec_signed(m.leg.end.alt as int).len() + 1;
            let oend = o9 + dec_signed(m.leg.length as int).len() + 1;
            &&& entity_at(b, i, m.entity)
            &&& int_at(b, o1, m.leg.start.time as int, 44)
            &&& int_at(b, o2, m.leg.start.lat as int, 44)
            &&& int_at(b, o3, m.leg.start.lon as int, 44)
        }),
{
    let r = row_model(m);
    let e = m.entity.len() as int;
    let a1 = e + 1;
    let a2 = a1 + dec_signed(m.leg.start.time as int).len() + 1;
    let a3 = a2 + dec_signed(m.leg.start.lat as int).len() + 1;
    let a4 = a3 + dec_signed(m.leg.start.lon as int).len() + 1;
    let a5 = a4 + dec_signed(m.leg.start.alt as int).len() + 1;
    let a6 = a5 + dec_signed(m.leg.end.time as int).len() + 1;
    let a7 = a6 + dec_signed(m.leg.end.lat as int).len() + 1;
    let a8 = a7 + dec_signed(m.leg.end.lon as int).len() + 1;
    let a9 = a8 + dec_signed(m.leg.end.alt as int).len() + 1;
    assert forall|x: int| 0 <= x < r.len() implies b[i + x] == r[x] by {
        assert(b.subrange(i, i + r.len() as int)[x] == b[i + x]);
    }
    assert(r.subrange(0, e) =~= m.entity);
    assert(r[e] == 44);
    assert(b.subrange(i, i + e) =~= r.subrange(0, e));
    assert(b[i + e] == r[e]);
    assert(r.subrange(a1, a1 + dec_signed(m.leg.start.time as int).len() as int) =~= dec_signed(m.leg.start.time as int));
    assert(r[a1 + dec_signed(m.leg.start.time as int).len() as int] == 44);
    assert(b.subrange(i + a1, i + a1 + dec_signed(m.leg.start.time as int).len() as int) =~= r.subrange(a1, a1 + dec_signed(m.leg.start.time as int).len() as int));
    assert(b[i + a1 + dec_signed(m.leg.start.time as int).len() as int] == r[a1 + dec_signed(m.leg.start.time as int).len() as int]);
    assert(r.subrange(a2, a2 + dec_signed(m.leg.start.lat as int).len() as int) =~= dec_signed(m.leg.start.lat as int));
    assert(r[a2 + dec_signed(m.leg.start.lat as int).len() as int] == 44);
    assert(b.subrange(i + a2, i + a2 + dec_signed(m.leg.start.lat as int).len() as int) =~= r.subrange(a2, a2 + dec_signed(m.leg.start.lat as int).len() as int));
    assert(b[i + a2 + dec_signed(m.leg.start.lat as int).len() as int] == r[a2 + dec_signed(m.leg.start.lat as int).len() as int]);
    assert(r.subrange(a3, a3 + dec_signed(m.leg.start.lon as int).len() as int) =~= dec_signed(m.leg.start.lon as int));
    assert(r[a3 + dec_signed(m.leg.start.lon as int).len() as int] == 44);
    assert(b.subrange(i + a3, i + a3 + dec_signed(m.leg.start.lon as int).len() as int) =~= r.subrange(a3, a3 + dec_signed(m.leg.start.lon as int).len() as int));
    assert(b[i + a3 + dec_signed(m.leg.start.lon as int).len() as int] == r[a3 + dec_signed(m.leg.start.lon as int).len() as int]);
}

#[verifier::rlimit(100)]
proof fn lemma_row_regions_b(b: Seq<u8>, i: int, m: RecordModel)
    requires
        row_at(b, i, m),
    ensures
        ({
            let o1 = i + m.entity.len() + 1;
            let o2 = o1 + dec_signed(m.leg.start.time as int).len() + 1;
            let o3 = o2 + dec_signed(m.leg.start.lat as int).len() + 1;
            let o4 = o3 + dec_signed(m.leg.start.lon as int).len() + 1;
            let o5 = o4 + dec_signed(m.leg.start.alt as int).len() + 1;
            let o6 = o5 + dec_signed(m.leg.end.time as int).len() + 1;
            let o7 = o6 + dec_signed(m.leg.end.lat as int).len() + 1;
            let o8 = o7 + dec_signed(m.leg.end.lon as int).len() + 1;
            let o9 = o8 + dec_signed(m.leg.end.alt as int).len() + 1;
            let oend = o9 + dec_signed(m.leg.length as int).len() + 1;
            &&& int_at(b, o4, m.leg.start.alt as int, 44)
            &&& int_at(b, o5, m.leg.end.time as int, 44)
            &&& int_at(b, o6, m.leg.end.lat as int, 44)
        }),
{
    let r = row_model(m);
    let e = m.entity.len() as int;
    let a1 = e + 1;
    let a2 = a1 + dec_signed(m.leg.start.time as int).len() + 1;
    let a3 = a2 + dec_signed(m.leg.start.lat as int).len() + 1;
    let a4 = a3 + dec_signed(m.leg.start.lon as int).len() + 1;
    let a5 = a4 + dec_signed(m.leg.start.alt as int).len() + 1;
    let a6 = a5 + dec_signed(m.leg.end.time as int).len() + 1;
    let a7 = a6 + dec_signed(m.leg.end.lat as int).len() + 1;
    let a8 = a7 + dec_signed(m.leg.end.lon as int).len() + 1;
    let a9 = a8 + dec_signed(m.leg.end.alt as int).len() + 1;
    assert forall|x: int| 0 <= x < r.len() implies b[i + x] == r[x] by {
        assert(b.subrange(i, i + r.len() as int)[x] == b[i + x]);
    }
    assert(r.subrange(a4, a4 + dec_signed(m.leg.start.alt as int).len() as int) =~= dec_signed(m.leg.start.alt as int));
    assert(r[a4 + dec_signed(m.leg.start.alt as int).len() as int] == 44);
    assert(b.subrange(i + a4, i + a4 + dec_signed(m.leg.start.alt as int).len() as int) =~= r.subrange(a4, a4 + dec_signed(m.leg.start.alt as int).len() as int));
    assert(b[i + a4 + dec_signed(m.leg.start.alt as int).len() as int] == r[a4 + dec_signed(m.leg.start.alt as int).len() as int]);
    assert(r.subrange(a5, a5 + dec_signed(m.leg.end.time as int).len() as int) =~= dec_signed(m.leg.end.time as int));
    assert(r[a5 + dec_signed(m.leg.end.time as int).len() as int] == 44);
    assert(b.subrange(i + a5, i + a5 + dec_signed(m.leg.end.time as int).len() as int) =~= r.subrange(a5, a5 + dec_signed(m.leg.end.time as int).len() as int));
    assert(b[i + a5 + dec_signed(m.leg.end.time as int).len() as int] == r[a5 + dec_signed(m.leg.end.time as int).len() as int]);
    assert(r.subrange(a6, a6 + dec_signed(m.leg.end.lat as int).len() as int) =~= dec_signed(m.leg.end.lat as int));
    assert(r[a6 + dec_signed(m.leg.end.lat as int).len() as int] == 44);
    assert(b.subrange(i + a6, i + a6 + dec_signed(m.leg.end.lat as int).len() as int) =~= r.subrange(a6, a6 + dec_signed(m.leg.end.lat as int).len() as int));
    assert(b[i + a6 + dec_signed(m.leg.end.lat as int).len() as int] == r[a6 + dec_signed(m.leg.end.lat as int).len() as int]);
}

#[verifier::rlimit(100)]
proof fn lemma_row_regions_c(b: Seq<u8>, i: int, m: RecordModel)
    requires
        row_at(b, i, m),
    ensures
        ({
            let o1 = i + m.entity.len() + 1;
            let o2 = o1 + dec_signed(m.leg.start.time as int).len() + 1;
            let o3 = o2 + dec_signed(m.leg.start.lat as int).len() + 1;
            let o4 = o3 + dec_signed(m.leg.start.lon as int).len() + 1;
            let o5 = o4 + dec_signed(m.leg.start.alt as int).len() + 1;
            let o6 = o5 + dec_signed(m.leg.end.time as int).len() + 1;
            let o7 = o6 + dec_signed(m.leg.end.lat as int).len() + 1;
            let o8 = o7 + dec_signed(m.leg.end.lon as int).len() + 1;
            let o9 = o8 + dec_signed(m.leg.end.alt as int).len() + 1;
            let oend = o9 + dec_signed(m.leg.length as int).len() + 1;
            &&& int_at(b, o7, m.leg.end.lon as int, 44)
            &&& int_at(b, o8, m.leg.end.alt as int, 44)
            &&& int_at(b, o9, m.leg.length as int, 10)
            &&& oend == i + row_model(m).len()
        }),
{
    let r = row_model(m);
    let e = m.entity.len() as int;
    let a1 = e + 1;
    let a2 = a1 + dec_signed(m.leg.start.time as int).len() + 1;
    let a3 = a2 + dec_signed(m.leg.start.lat as int).len() + 1;
    let a4 = a3 + dec_signed(m.leg.start.lon as int).len() + 1;
    let a5 = a4 + dec_signed(m.leg.start.alt as int).len() + 1;
    let a6 = a5 + dec_signed(m.leg.end.time as int).len() + 1;
    let a7 = a6 + dec_signed(m.leg.end.lat as int).len() + 1;
    let a8 = a7 + dec_signed(m.leg.end.lon as int).len() + 1;
    let a9 = a8 + dec_signed(m.leg.end.alt as int).len() + 1;
    assert forall|x: int| 0 <= x < r.len() implies b[i + x] == r[x] by {
        assert(b.subrange(i, i + r.len() as int)[x] == b[i + x]);
    }
    assert(r.subrange(a7, a7 + dec_signed(m.leg.end.lon as int).len() as int) =~= dec_signed(m.leg.end.lon as int));
    assert(r[a7 + dec_signed(m.leg.end.lon as int).len() as int] == 44);
    assert(b.subrange(i + a7, i + a7 + dec_signed(m.leg.end.lon as int).len() as int) =~= r.subrange(a7, a7 + dec_signed(m.leg.end.lon as int).len() as int));
    assert(b[i + a7 + dec_signed(m.leg.end.lon as int).len() as int] == r[a7 + dec_signed(m.leg.end.lon as int).len() as int]);
    assert(r.subrange(a8, a8 + dec_signed(m.leg.end.alt as int).len() as int) =~= dec_signed(m.leg.end.alt as int));
    assert(r[a8 + dec_signed(m.leg.end.alt as int).len() as int] == 44);
    assert(b.subrange(i + a8, i + a8 + dec_signed(m.leg.end.alt as int).len() as int) =~= r.subrange(a8, a8 + dec_signed(m.leg.end.alt as int).len() as int));
    assert(b[i + a8 + dec_signed(m.leg.end.alt as int).len() as int] == r[a8 + dec_signed(m.leg.end.alt as int).len() as int]);
    assert(r.subrange(a9, a9 + dec_signed(m.leg.length as int).len() as int) =~= dec_signed(m.leg.length as int));
    assert(r[a9 + dec_signed(m.leg.length as int).len() as int] == 10);
    assert(b.subrange(i + a9, i + a9 + dec_signed(m.leg.length as int).len() as int) =~= r.subrange(a9, a9 + dec_signed(m.leg.length as int).len() as int));
    assert(b[i + a9 + dec_signed(m.leg.length as int).len() as int] == r[a9 + dec_signed(m.leg.length as int).len() as int]);
}

/// Reads one row, returning the record and the position just past
/// its terminating newline.
#[verifier::rlimit(100)]
fn parse_row(bytes: &Vec<u8>, i: usize) -> (r: Option<(LegRecord, usize)>)
    requires
        i <= bytes@.len(),
    ensures
        match r {
            Some(p) => i < p.1 <= bytes@.len() && record_valid(p.0@),
            None => true,
        },
        forall|m: RecordModel|
            row_at(bytes@, i as int, m) ==> (r matches Some(p) && p.0@ == m && p.1 as int == i
                + row_model(m).len()),
{
    let (entity, i1) = match parse_entity_field(bytes, i) {
        Some(p) => p,
        None => {
            proof {
                assert forall|m: RecordModel| row_at(bytes@, i as int, m) implies false by {
                    lemma_row_at_fields(bytes@, i as int, m);
                }
            }
            return None;
        },
    };
    let (st, i2) = match parse_int_field(bytes, i1, 44) {
        Some(p) => p,
        None => {
            proof {
                assert forall|m: RecordModel| row_at(bytes@, i as int, m) implies false by {
                    lemma_row_at_fields(bytes@, i as int, m);
                }
            }
            return None;
        },
    };
    let (sla, i3) = match parse_int_field(bytes, i2, 44) {
        Some(p) => p,
        None => {
            proof {
                assert forall|m: RecordModel| row_at(bytes@, i as int, m) implies false by {
                    lemma_row_at_fields(bytes@, i as int, m);
                }
            }
            return None;
        },
    };
    let (slo, i4) = match parse_int_field(bytes, i3, 44) {
        Some(p) => p,
        None => {
            proof {
                assert forall|m: RecordModel| row_at(bytes@, i as int, m) implies false by {
                    lemma_row_at_fields(bytes@, i as int, m);
                }
            }
            return None;
        },
    };
    let (sal, i5) = match parse_int_field(bytes, i4, 44) {
        Some(p) => p,
        None => {
            proof {
                assert forall|m: RecordModel| row_at(bytes@, i as int, m) implies false by {
                    lemma_row_at_fields(bytes@, i as int, m);
                }
            }
            return None;
        },
    };
    let (et, i6) = match parse_int_field(bytes, i5, 44) {
        Some(p) => p,
        None => {
            proof {
                assert forall|m: RecordModel| row_at(bytes@, i as int, m) implies false by {
                    lemma_row_at_fields(bytes@, i as int, m);
                }
            }
            return None;
        },
    };
    let (ela, i7) = match parse_int_field(bytes, i6, 44) {
        Some(p) => p,
        None => {
            proof {
                assert forall|m: RecordModel| row_at(bytes@, i as int, m) implies false by {
                    lemma_row_at_fields(bytes@, i as int, m);
                }
            }
            return None;
        },
    };
    let (elo, i8) = match parse_int_field(bytes, i7, 44) {
        Some(p) => p,
        None => {
            proof {
                assert forall|m: RecordModel| row_at(bytes@, i as int, m) implies false by {
                    lemma_row_at_fields(bytes@, i as int, m);
                }
            }
            return None;
        },
    };
    let (eal, i9) = match parse_int_field(bytes, i8, 44) {
        Some(p) => p,
        None => {
            proof {
                assert forall|m: RecordModel| row_at(bytes@, i as int, m) implies false by {
                    lemma_row_at_fields(bytes@, i as int, m);
                }
            }
            return None;
        },
    };
    let (len, i10) = match parse_int_field(bytes, i9, 10) {
        Some(p) => p,
        None => {
            proof {
                assert forall|m: RecordModel| row_at(bytes@, i as int, m) implies false by {
                    lemma_row_at_fields(bytes@, i as int, m);
                }
            }
            return None;
        },
    };
    let rec = LegRecord {
        entity,
        leg: Leg {
            start: Position { time: st, lat: sla, lon: slo, alt: sal },
            end: Position { time: et, lat: ela, lon: elo, alt: eal },
            length: len,
        },
    };
    proof {
        assert forall|m: RecordModel| row_at(bytes@, i as int, m) implies (rec@ == m && i10 as int
            == i + row_model(m).len()) by {
            lemma_row_at_fields(bytes@, i as int, m);
            assert(rec@ =~= m);
        }
    }
    Some((rec, i10))
}

/// The rows of a blob after the header, in order.
pub open spec fn rows_model(rs: Seq<RecordModel>) -> Seq<u8>
    decreases rs.len(),
{
    if rs.len() == 0 {
        Seq::empty()
    } else {
        rows_model(rs.drop_last()) + row_model(rs.last())
    }
}

/// A blob is the header followed by its rows.
proof fn lemma_blob_is_header_rows(rs: Seq<RecordModel>)
    ensures
        blob_model(rs) == header_model() + rows_model(rs),
    decreases rs.len(),
{
    if rs.len() == 0 {
        assert(blob_model(rs) =~= header_model() + rows_model(rs));
    } else {
        lemma_blob_is_header_rows(rs.drop_last());
        assert(blob_model(rs) =~= header_model() + rows_model(rs));
    }
}

/// The first row of a non-empty row list stands first in its bytes.
proof fn lemma_rows_front(rs: Seq<RecordModel>)
    requires
        rs.len() > 0,
    ensures
        rows_model(rs) == row_model(rs[0]) + rows_model(rs.drop_first()),
    decreases rs.len(),
{
    if rs.len() == 1 {
        assert(rs.drop_last() =~= Seq::<RecordModel>::empty());
        assert(rs.drop_first() =~= Seq::<RecordModel>::empty());
        assert(rows_model(Seq::<RecordModel>::empty()) =~= Seq::<u8>::empty());
        assert(rows_model(rs) =~= row_model(rs[0]) + rows_model(rs.drop_first()));
    } else {
        lemma_rows_front(rs.drop_last());
        assert(rs.drop_last().drop_first() =~= rs.drop_first().drop_last());
        assert(rs.drop_last()[0] == rs[0]);
        assert(rs.drop_first().last() == rs.last());
        assert(rows_model(rs) =~= row_model(rs[0]) + rows_model(rs.drop_first()));
    }
}

/// Row bytes split at any row boundary.
#[verifier::rlimit(100)]
#[verifier::spinoff_prover]
proof fn lemma_rows_split(rs: Seq<RecordModel>, k: int)
    requires
        0 <= k <= rs.len(),
    ensures
        rows_model(rs) == rows_model(rs.take(k)) + rows_model(rs.skip(k)),
    decreases rs.len() - k,
{
    if k == rs.len() {
        assert(rs.take(k) =~= rs);
        assert(rs.skip(k) =~= Seq::<RecordModel>::empty());
        assert(rows_model(Seq::<RecordModel>::empty()) =~= Seq::<u8>::empty());
        assert(rows_model(rs) =~= rows_model(rs.take(k)) + rows_model(rs.skip(k)));
    } else {
        lemma_rows_split(rs, k + 1);
        assert(rs.take(k + 1).drop_last() =~= rs.take(k));
        assert(rs.take(k + 1).last() == rs[k]);
        lemma_rows_front(rs.skip(k));
        assert(rs.skip(k).drop_first() =~= rs.skip(k + 1));
        assert(rs.skip(k)[0] == rs[k]);
        assert(rows_model(rs.take(k + 1)) == rows_model(rs.take(k)) + row_model(rs[k]));
        assert(rows_model(rs.skip(k)) == row_model(rs[k]) + rows_model(rs.skip(k + 1)));
        assert((rows_model(rs.take(k)) + row_model(rs[k])) + rows_model(rs.skip(k + 1))
            =~= rows_model(rs.take(k)) + (row_model(rs[k]) + rows_model(rs.skip(k + 1))));
        assert(rows_model(rs) == rows_model(rs.take(k)) + rows_model(rs.skip(k)));
    }
}

/// Every row takes at least one byte.
proof fn lemma_rows_len(rs: Seq<RecordModel>)
    ensures
        rows_model(rs).len() >= rs.len(),
    decreases rs.len(),
{
    if rs.len() > 0 {
        lemma_rows_len(rs.drop_last());
    }
}

/// A byte string is exactly the blob of the given valid rows.
pub open spec fn blob_at(b: Seq<u8>, ms: Seq<RecordModel>) -> bool {
    &&& forall|j: int| 0 <= j < ms.len() ==> record_valid(#[trigger] ms[j])
    &&& b == blob_model(ms)
}

/// Parses a partition blob back into its leg records.
///
/// Exactly the blobs that `serialize_partition` renders for valid
/// records are accepted, and such a blob parses back to the records
/// it was rendered from; any corrupted or foreign content is
/// rejected with a [`SerializationError`]. The parse is additionally
/// validated by re-rendering, so an accepted blob is byte-identical
/// to the serialization of its result.
#[verifier::rlimit(100)]
pub fn parse_partition(bytes: &Vec<u8>) -> (r: Result<Vec<LegRecord>, SerializationError>)
    ensures
        match r {
            Ok(recs) => {
                &&& forall|i: int|
                    0 <= i < recs@.len() ==> record_valid(#[trigger] rec_models(recs@)[i])
                &&& bytes@ == blob_model(rec_models(recs@))
            },
            Err(_) => true,
        },
        forall|ms: Seq<RecordModel>|
            blob_at(bytes@, ms) ==> (r matches Ok(recs) && rec_models(recs@) == ms),
{
    let header = header_bytes();
    if !match_at(bytes, 0, &header) {
        proof {
            assert forall|ms: Seq<RecordModel>| blob_at(bytes@, ms) implies false by {
                lemma_blob_is_header_rows(ms);
                assert(bytes@.subrange(0, header@.len() as int) =~= header@);
            }
        }
        return Err(SerializationError);
    }
    let mut recs: Vec<LegRecord> = Vec::new();
    let mut i: usize = header.len();
    while i < bytes.len()
        invariant
            i <= bytes@.len(),
            forall|j: int| 0 <= j < recs@.len() ==> record_valid(#[trigger] rec_models(recs@)[j]),
            forall|ms: Seq<RecordModel>|
                blob_at(bytes@, ms) ==> (recs@.len() <= ms.len() && rec_models(recs@) == ms.take(
                    recs@.len() as int,
                ) && i as int == header_model().len() + rows_model(
                    ms.take(recs@.len() as int),
                ).len()),
        decreases bytes@.len() - i,
    {
        let ghost k = recs@.len() as int;
        proof {
            assert forall|ms: Seq<RecordModel>| blob_at(bytes@, ms) implies (k < ms.len()
                && row_at(bytes@, i as int, ms[k])) by {
                lemma_blob_is_header_rows(ms);
                lemma_rows_split(ms, k);
                if k == ms.len() {
                    assert(ms.skip(k) =~= Seq::<RecordModel>::empty());
                    assert(rows_model(Seq::<RecordModel>::empty()) =~= Seq::<u8>::empty());
                    assert(bytes@.len() == i as int);
                }
                lemma_rows_front(ms.skip(k));
                assert(ms.skip(k)[0] == ms[k]);
                let row = row_model(ms[k]);
                assert(bytes@ == header_model() + (rows_model(ms.take(k)) + (row + rows_model(
                    ms.skip(k).drop_first(),
                ))));
                assert(bytes@.subrange(i as int, i + row.len() as int) =~= row);
            }
        }
        match parse_row(bytes, i) {
            Some((rec, ni)) => {
                let ghost prev = recs@;
                recs.push(rec);
                proof {
                    assert(rec_models(recs@) =~= rec_models(prev).push(rec@));
                    assert forall|ms: Seq<RecordModel>| blob_at(bytes@, ms) implies (recs@.len()
                        <= ms.len() && rec_models(recs@) == ms.take(recs@.len() as int)
                        && ni as int == header_model().len() + rows_model(
                        ms.take(recs@.len() as int),
                    ).len()) by {
                        assert(rec@ == ms[k]);
                        assert(ms.take(k + 1).drop_last() =~= ms.take(k));
                        assert(ms.take(k + 1).last() == ms[k]);
                        assert(rec_models(recs@) =~= ms.take(k + 1));
                        assert(rows_model(ms.take(k + 1)) == rows_model(ms.take(k)) + row_model(
                            ms[k],
                        ));
                    }
                }
                i = ni;
            },
            None => {
                proof {
                    assert forall|ms: Seq<RecordModel>| blob_at(bytes@, ms) implies false by {
                        assert(row_at(bytes@, i as int, ms[k]));
                    }
                }
                return Err(SerializationError);
            },
        }
    }
    proof {
        assert forall|ms: Seq<RecordModel>| blob_at(bytes@, ms) implies rec_models(recs@) == ms by {
            let k = recs@.len() as int;
            lemma_blob_is_header_rows(ms);
            lemma_rows_split(ms, k);
            lemma_rows_len(ms.skip(k));
            assert(rows_model(ms.take(k)).len() == bytes@.len() - header_model().len());
            assert(rows_model(ms.skip(k)).len() == 0);
            assert(ms.skip(k).len() == 0);
            assert(ms.take(k) =~= ms);
        }
    }
    let rendered = serialize_partition(&recs);
    if crate::keys::bytes_eq_exec(&rendered, bytes) {
        Ok(recs)
    } else {
        proof {
            assert forall|ms: Seq<RecordModel>| blob_at(bytes@, ms) implies false by {
                assert(rec_models(recs@) == ms);
                assert(rendered@ == bytes@);
            }
        }
        Err(SerializationError)
    }
}

} // verus!
