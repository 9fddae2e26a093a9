//! Yearly aggregation: grouping completed partitions by year,
//! merging their leg records into one rollup blob per year, and the
//! status document that records how much of each year is done.
//!
//! Reading the partitions of one year is fail-fast by policy: one
//! unreadable partition aborts that year's rollup, since a partial
//! yearly blob would misrepresent completeness.

use vstd::prelude::*;
use vstd::seq_lib::lemma_multiset_commutative;

use crate::codec::SchemaVersion;
use crate::keys::{KeyModel, PartitionKey};
use crate::recon::key_models;
use crate::num::{dec, dec4, push_dec4, push_dec_u64};
use crate::records::{blob_at, blob_model, parse_partition, rec_models, record_valid};
use crate::records::serialize_partition;
use crate::records::{LegRecord, RecordModel, SerializationError};

verus! {

/// The years occurring in a list of keys, strictly ascending.
pub fn years_of(keys: &Vec<PartitionKey>) -> (r: Vec<u16>)
    ensures
        forall|y: u16|
            #[trigger] r@.contains(y) <==> exists|i: int|
                0 <= i < keys@.len() && #[trigger] key_models(keys@)[i].year == y as int,
        forall|i: int, j: int| 0 <= i < j < r@.len() ==> r@[i] < r@[j],
{
    let mut r: Vec<u16> = Vec::new();
    let mut i: usize = 0;
    while i < keys.len()
        invariant
            i <= keys@.len(),
            forall|y: u16|
                #[trigger] r@.contains(y) <==> exists|j: int|
                    0 <= j < i && #[trigger] key_models(keys@)[j].year == y as int,
            forall|i2: int, j2: int| 0 <= i2 < j2 < r@.len() ==> r@[i2] < r@[j2],
        decreases keys@.len() - i,
    {
        let y = keys[i].period.year;
        proof {
            assert(key_models(keys@)[i as int] == keys@[i as int]@);
        }
        if !contains_u16(&r, y) {
            insert_sorted_u16(&mut r, y);
        }
        proof {
            assert forall|y2: u16| #[trigger]
                r@.contains(y2) <==> exists|j: int|
                    0 <= j < i + 1 && #[trigger] key_models(keys@)[j].year == y2 as int by {
                if r@.contains(y2) {
                    if y2 == y {
                        assert(key_models(keys@)[i as int].year == y2 as int);
                    }
                }
                if exists|j: int| 0 <= j < i + 1 && #[trigger] key_models(keys@)[j].year == y2 as int {
                    let j = choose|j: int|
                        0 <= j < i + 1 && #[trigger] key_models(keys@)[j].year == y2 as int;
                    if j == i {
                        assert(y2 == y);
                        assert(r@.contains(y2));
                    }
                }
            }
        }
        i = i + 1;
    }
    r
}

fn contains_u16(v: &Vec<u16>, y: u16) -> (r: bool)
    ensures
        r == v@.contains(y),
{
    let mut i: usize = 0;
    while i < v.len()
        invariant
            i <= v@.len(),
            forall|j: int| 0 <= j < i ==> v@[j] != y,
        decreases v@.len() - i,
    {
        if v[i] == y {
            return true;
        }
        i = i + 1;
    }
    false
}

fn find_pos_u16(r: &Vec<u16>, y: u16) -> (pos: usize)
    ensures
        pos <= r@.len(),
        forall|j: int| 0 <= j < pos ==> r@[j] < y,
        pos < r@.len() ==> r@[pos as int] >= y,
{
    let mut j: usize = 0;
    loop
        invariant
            j <= r@.len(),
            forall|j2: int| 0 <= j2 < j ==> r@[j2] < y,
        decreases r@.len() - j,
    {
        if j >= r.len() {
            return j;
        }
        if r[j] >= y {
            return j;
        }
        j = j + 1;
    }
}

fn insert_sorted_u16(r: &mut Vec<u16>, y: u16)
    requires
        forall|i: int, j: int| 0 <= i < j < old(r)@.len() ==> old(r)@[i] < old(r)@[j],
        !old(r)@.contains(y),
    ensures
        forall|i: int, j: int| 0 <= i < j < final(r)@.len() ==> final(r)@[i] < final(r)@[j],
        forall|y2: u16| #[trigger] final(r)@.contains(y2) <==> (old(r)@.contains(y2) || y2 == y),
{
    let ghost s0 = r@;
    let j = find_pos_u16(r, y);
    proof {
        if j < r@.len() {
            if r@[j as int] == y {
                assert(r@.contains(y));
            }
            assert(r@[j as int] > y);
        }
    }
    r.insert(j, y);
    proof {
        let s1 = r@;
        assert(s1 =~= s0.insert(j as int, y));
        assert forall|y2: u16| #[trigger] s1.contains(y2) <==> (s0.contains(y2) || y2 == y) by {
            if s1.contains(y2) {
                let ix = choose|ix: int| 0 <= ix < s1.len() && s1[ix] == y2;
                if ix < j {
                    assert(s0[ix] == y2);
                } else if ix > j {
                    assert(s0[ix - 1] == y2);
                }
            }
            if s0.contains(y2) {
                let ix = choose|ix: int| 0 <= ix < s0.len() && s0[ix] == y2;
                if ix < j {
                    assert(s1[ix] == y2);
                } else {
                    assert(s1[ix + 1] == y2);
                }
            }
            if y2 == y {
                assert(s1[j as int] == y2);
            }
        }
    }
}

/// Whether a key belongs to a year.
pub open spec fn in_year(y: int) -> spec_fn(KeyModel) -> bool {
    |m: KeyModel| m.year == y
}

/// The keys of one year, in their order in the input.
pub fn keys_in_year(keys: &Vec<PartitionKey>, year: u16) -> (r: Vec<PartitionKey>)
    ensures
        key_models(r@) == key_models(keys@).filter(in_year(year as int)),
{
    let mut r: Vec<PartitionKey> = Vec::new();
    let mut i: usize = 0;
    proof {
        reveal(Seq::filter);
        assert(key_models(keys@).take(0) =~= Seq::<KeyModel>::empty());
        assert(key_models(r@) =~= key_models(keys@).take(0).filter(in_year(year as int)));
    }
    while i < keys.len()
        invariant
            i <= keys@.len(),
            key_models(r@) == key_models(keys@).take(i as int).filter(in_year(year as int)),
        decreases keys@.len() - i,
    {
        let ghost ms = key_models(keys@);
        let ghost prev = r@;
        proof {
            assert(ms.take(i + 1).drop_last() =~= ms.take(i as int));
            assert(ms.take(i + 1).last() == ms[i as int]);
            assert(ms[i as int] == keys@[i as int]@);
        }
        if keys[i].period.year == year {
            r.push(keys[i].dup());
            proof {
                reveal(Seq::filter);
                assert(key_models(r@) =~= key_models(prev).push(keys@[i as int]@));
                assert(in_year(year as int)(ms[i as int]));
                assert(ms.take(i + 1).filter(in_year(year as int)) == ms.take(i as int).filter(
                    in_year(year as int),
                ).push(ms[i as int]));
            }
        } else {
            proof {
                reveal(Seq::filter);
                assert(!in_year(year as int)(ms[i as int]));
                assert(ms.take(i + 1).filter(in_year(year as int)) == ms.take(i as int).filter(
                    in_year(year as int),
                ));
            }
        }
        i = i + 1;
    }
    proof {
        assert(key_models(keys@).take(keys@.len() as int) =~= key_models(keys@));
    }
    r
}

/// The record rows held by each of a list of partitions.
pub open spec fn part_models(ps: Seq<Vec<LegRecord>>) -> Seq<Seq<RecordModel>> {
    ps.map_values(|p: Vec<LegRecord>| rec_models(p@))
}

/// Concatenates the records of many partitions into one list,
/// preserving the order within each partition and the order of the
/// partitions.
pub fn merge_partitions(parts: &Vec<Vec<LegRecord>>) -> (r: Vec<LegRecord>)
    ensures
        rec_models(r@) == part_models(parts@).flatten(),
{
    let mut r: Vec<LegRecord> = Vec::new();
    let mut i: usize = 0;
    proof {
        assert(part_models(parts@).take(0) =~= Seq::<Seq<RecordModel>>::empty());
        assert(rec_models(r@) =~= part_models(parts@).take(0).flatten());
    }
    while i < parts.len()
        invariant
            i <= parts@.len(),
            rec_models(r@) == part_models(parts@).take(i as int).flatten(),
        decreases parts@.len() - i,
    {
        let ghost ps = part_models(parts@);
        let ghost prev = r@;
        let part = &parts[i];
        let mut j: usize = 0;
        while j < part.len()
            invariant
                j <= part@.len(),
                part@ == parts@[i as int]@,
                0 <= i < parts@.len(),
                rec_models(r@) == part_models(parts@).take(i as int).flatten() + rec_models(
                    part@,
                ).take(j as int),
            decreases part@.len() - j,
        {
            let ghost prev2 = r@;
            r.push(part[j].dup());
            proof {
                assert(rec_models(r@) =~= rec_models(prev2).push(part@[j as int]@));
                assert(rec_models(part@).take(j + 1) =~= rec_models(part@).take(j as int).push(
                    part@[j as int]@,
                ));
                assert(rec_models(r@) =~= part_models(parts@).take(i as int).flatten()
                    + rec_models(part@).take(j + 1));
            }
            j = j + 1;
        }
        proof {
            assert(rec_models(part@).take(part@.len() as int) =~= rec_models(part@));
            assert(ps.take(i + 1).drop_last() =~= ps.take(i as int));
            assert(ps.take(i + 1).last() == ps[i as int]);
            ps.take(i as int).lemma_flatten_push(ps[i as int]);
            assert(ps.take(i as int).push(ps[i as int]) =~= ps.take(i + 1));
            assert(ps[i as int] == rec_models(parts@[i as int]@));
            assert(rec_models(r@) =~= ps.take(i + 1).flatten());
        }
        i = i + 1;
    }
    proof {
        assert(part_models(parts@).take(parts@.len() as int) =~= part_models(parts@));
    }
    r
}

/// The bag of records contributed by a list of partitions: the union
/// of the partitions' record bags.
pub open spec fn record_union(ps: Seq<Seq<RecordModel>>) -> vstd::multiset::Multiset<RecordModel>
    decreases ps.len(),
{
    if ps.len() == 0 {
        vstd::multiset::Multiset::empty()
    } else {
        record_union(ps.drop_last()).add(ps.last().to_multiset())
    }
}

/// Aggregation correctness: the merged content of a year equals the
/// union of its partitions' records — no duplicates, no omissions.
pub proof fn lemma_merge_is_union(ps: Seq<Seq<RecordModel>>)
    ensures
        ps.flatten().to_multiset() == record_union(ps),
    decreases ps.len(),
{
    broadcast use vstd::seq_lib::group_to_multiset_ensures;
    broadcast use vstd::multiset::group_multiset_axioms;

    if ps.len() == 0 {
        assert(ps.flatten().to_multiset() =~= record_union(ps));
    } else {
        lemma_merge_is_union(ps.drop_last());
        ps.drop_last().lemma_flatten_push(ps.last());
        assert(ps.drop_last().push(ps.last()) =~= ps);
        lemma_multiset_commutative(ps.drop_last().flatten(), ps.last());
        assert(ps.flatten().to_multiset() =~= record_union(ps));
    }
}

/// The union is insensitive to the order in which partitions are
/// listed: any two orders of the same partitions carry the same
/// records. Aggregate content is therefore independent of the order
/// in which tasks completed.
pub proof fn lemma_union_order_insensitive(ps: Seq<Seq<RecordModel>>, qs: Seq<Seq<RecordModel>>)
    requires
        ps.to_multiset() == qs.to_multiset(),
    ensures
        record_union(ps) == record_union(qs),
    decreases ps.len(),
{
    broadcast use vstd::seq_lib::group_to_multiset_ensures;
    broadcast use vstd::multiset::group_multiset_axioms;

    ps.to_multiset_ensures();
    qs.to_multiset_ensures();
    if ps.len() == 0 {
        assert(qs.len() == 0);
        assert(record_union(ps) =~= record_union(qs));
    } else {
        let x = ps.last();
        assert(ps.contains(x));
        assert(qs.to_multiset().count(x) > 0);
        assert(qs.contains(x));
        let j = choose|j: int| 0 <= j < qs.len() && qs[j] == x;
        lemma_union_remove(qs, j);
        assert(ps.remove(ps.len() - 1).to_multiset() =~= ps.to_multiset().remove(x));
        assert(ps.remove(ps.len() - 1) =~= ps.drop_last());
        assert(qs.remove(j).to_multiset() =~= qs.to_multiset().remove(x));
        lemma_union_order_insensitive(ps.drop_last(), qs.remove(j));
        assert(record_union(ps) =~= record_union(qs));
    }
}

/// Removing one partition removes exactly its records from the
/// union.
pub proof fn lemma_union_remove(ps: Seq<Seq<RecordModel>>, j: int)
    requires
        0 <= j < ps.len(),
    ensures
        record_union(ps) == record_union(ps.remove(j)).add(ps[j].to_multiset()),
    decreases ps.len(),
{
    if j == ps.len() - 1 {
        assert(ps.remove(j) =~= ps.drop_last());
    } else {
        lemma_union_remove(ps.drop_last(), j);
        assert(ps.remove(j).drop_last() =~= ps.drop_last().remove(j));
        assert(ps.remove(j).last() == ps.last());
        assert(ps.remove(j).len() == ps.len() - 1);
        assert(record_union(ps.remove(j)) == record_union(ps.drop_last().remove(j)).add(
            ps.last().to_multiset(),
        ));
        assert(record_union(ps) =~= record_union(ps.remove(j)).add(ps[j].to_multiset())) by {
            let a = record_union(ps.drop_last().remove(j));
            let b = ps[j].to_multiset();
            let c = ps.last().to_multiset();
            assert(record_union(ps) == a.add(b).add(c));
            assert(record_union(ps.remove(j)).add(b) == a.add(c).add(b));
            assert(a.add(b).add(c) =~= a.add(c).add(b));
        }
    }
}

/// Each blob in the list renders exactly the corresponding rows.
pub open spec fn blobs_at(bs: Seq<Vec<u8>>, ps: Seq<Seq<RecordModel>>) -> bool {
    &&& ps.len() == bs.len()
    &&& forall|i: int| 0 <= i < ps.len() ==> blob_at(bs[i]@, #[trigger] ps[i])
}

/// Reads the blobs of one year's completed partitions and builds the
/// yearly rollup blob, fail-fast: if any blob does not parse, the
/// year's rollup is abandoned rather than written partially.
///
/// On success the rollup is the serialization of the concatenation of
/// exactly the records each input blob holds.
pub fn aggregate_year_blobs(blobs: &Vec<Vec<u8>>) -> (r: Result<Vec<u8>, SerializationError>)
    ensures
        match r {
            Ok(out) => exists|ps: Seq<Seq<RecordModel>>|
                {
                    &&& ps.len() == blobs@.len()
                    &&& (forall|i: int| 0 <= i < ps.len() ==> blobs@[i]@ == blob_model(#[trigger] ps[i]))
                    &&& out@ == blob_model(ps.flatten())
                },
            Err(_) => true,
        },
        forall|ps: Seq<Seq<RecordModel>>|
            #[trigger] blobs_at(blobs@, ps) ==> (r matches Ok(out) && out@ == blob_model(
                ps.flatten(),
            )),
{
    let mut parts: Vec<Vec<LegRecord>> = Vec::new();
    let mut i: usize = 0;
    while i < blobs.len()
        invariant
            i <= blobs@.len(),
            parts@.len() == i,
            forall|j: int|
                0 <= j < i ==> blobs@[j]@ == blob_model(#[trigger] part_models(parts@)[j]),
            forall|j: int, j2: int|
                0 <= j < i && 0 <= j2 < part_models(parts@)[j].len() ==> record_valid(
                    #[trigger] part_models(parts@)[j][j2],
                ),
            forall|ps: Seq<Seq<RecordModel>>|
                #[trigger] blobs_at(blobs@, ps) ==> part_models(parts@) == ps.take(i as int),
        decreases blobs@.len() - i,
    {
        match parse_partition(&blobs[i]) {
            Ok(recs) => {
                let ghost prev = parts@;
                parts.push(recs);
                proof {
                    assert(part_models(parts@) =~= part_models(prev).push(rec_models(recs@)));
                    assert forall|ps: Seq<Seq<RecordModel>>| #[trigger]
                        blobs_at(blobs@, ps) implies part_models(parts@) == ps.take(i + 1) by {
                        assert(blob_at(blobs@[i as int]@, ps[i as int]));
                        assert(rec_models(recs@) == ps[i as int]);
                        assert(part_models(parts@) =~= ps.take(i + 1));
                    }
                }
            },
            Err(e) => {
                proof {
                    assert forall|ps: Seq<Seq<RecordModel>>| #[trigger]
                        blobs_at(blobs@, ps) implies false by {
                        assert(blob_at(blobs@[i as int]@, ps[i as int]));
                    }
                }
                return Err(e);
            },
        }
        i = i + 1;
    }
    let merged = merge_partitions(&parts);
    proof {
        let ps = part_models(parts@);
        assert forall|k: int| 0 <= k < rec_models(merged@).len() implies record_valid(
            #[trigger] rec_models(merged@)[k],
        ) by {
            lemma_flatten_index(ps, k);
        }
    }
    let out = serialize_partition(&merged);
    proof {
        let ps = part_models(parts@);
        assert(ps.len() == blobs@.len());
        assert(out@ == blob_model(ps.flatten()));
        assert forall|qs: Seq<Seq<RecordModel>>| #[trigger] blobs_at(blobs@, qs) implies out@
            == blob_model(qs.flatten()) by {
            assert(ps == qs.take(blobs@.len() as int));
            assert(qs.take(blobs@.len() as int) =~= qs);
        }
    }
    Ok(out)
}

/// Every record of a flattened list of partitions comes from one of
/// the partitions.
pub proof fn lemma_flatten_index(ps: Seq<Seq<RecordModel>>, k: int)
    requires
        0 <= k < ps.flatten().len(),
    ensures
        exists|j: int, k2: int|
            0 <= j < ps.len() && 0 <= k2 < ps[j].len() && ps.flatten()[k] == #[trigger] ps[j][k2],
    decreases ps.len(),
{
    assert(ps.len() > 0);
    let f = ps.first();
    if k < f.len() {
        assert(ps.flatten()[k] == ps[0][k]);
    } else {
        lemma_flatten_index(ps.drop_first(), k - f.len());
        let (j, k2) = choose|j: int, k2: int|
            0 <= j < ps.drop_first().len() && 0 <= k2 < ps.drop_first()[j].len()
                && ps.drop_first().flatten()[k - f.len()] == #[trigger] ps.drop_first()[j][k2];
        assert(ps.flatten()[k] == ps[j + 1][k2]);
    }
}

/// The storage path of one year's rollup blob:
/// `leg/<generation>/all/year=YYYY/data.csv`.
pub open spec fn year_path_model(v: SchemaVersion, year: int) -> Seq<u8> {
    seq![
        'l' as u8,
        'e' as u8,
        'g' as u8,
        '/' as u8,
        'v' as u8,
        crate::codec::generation_byte(v),
        '/' as u8,
    ] + seq!['a' as u8, 'l' as u8, 'l' as u8, '/' as u8, 'y' as u8, 'e' as u8, 'a' as u8, 'r' as u8, '=' as u8] + dec4(year) + seq!['/' as u8, 'd' as u8, 'a' as u8, 't' as u8, 'a' as u8, '.' as u8, 'c' as u8, 's' as u8, 'v' as u8]
}

/// Builds the rollup path of one year.
pub fn year_path(v: SchemaVersion, year: u16) -> (r: Vec<u8>)
    requires
        1000 <= year <= 9999,
    ensures
        r@ == year_path_model(v, year as int),
{
    let mut r: Vec<u8> = Vec::new();
    r.push('l' as u8);
    r.push('e' as u8);
    r.push('g' as u8);
    r.push('/' as u8);
    r.push('v' as u8);
    match v {
        SchemaVersion::V1 => r.push('1' as u8),
        SchemaVersion::V2 => r.push('2' as u8),
    }
    r.push('/' as u8);
    r.push('a' as u8);
    r.push('l' as u8);
    r.push('l' as u8);
    r.push('/' as u8);
    r.push('y' as u8);
    r.push('e' as u8);
    r.push('a' as u8);
    r.push('r' as u8);
    r.push('=' as u8);
    push_dec4(&mut r, year);
    r.push('/' as u8);
    r.push('d' as u8);
    r.push('a' as u8);
    r.push('t' as u8);
    r.push('a' as u8);
    r.push('.' as u8);
    r.push('c' as u8);
    r.push('s' as u8);
    r.push('v' as u8);
    proof {
        assert(r@ =~= year_path_model(v, year as int));
    }
    r
}

/// One year's status: how many partitions the year requires, how many
/// are processed, and the public address of its rollup.
#[derive(Clone, Debug)]
pub struct StatusEntry {
    pub year: u16,
    pub to_process: usize,
    pub processed: usize,
    pub url: Vec<u8>,
}

/// The mathematical value of one status entry.
#[verifier::ext_equal]
pub struct StatusEntryModel {
    pub year: int,
    pub to_process: int,
    pub processed: int,
    pub url: Seq<u8>,
}

impl View for StatusEntry {
    type V = StatusEntryModel;

    open spec fn view(&self) -> StatusEntryModel {
        StatusEntryModel {
            year: self.year as int,
            to_process: self.to_process as int,
            processed: self.processed as int,
            url: self.url@,
        }
    }
}

pub open spec fn entry_models(s: Seq<StatusEntry>) -> Seq<StatusEntryModel> {
    s.map_values(|e: StatusEntry| e@)
}

/// Bytes allowed in a recorded address: printable ASCII free of the
/// quote and escape characters that would break the document.
pub open spec fn url_valid(u: Seq<u8>) -> bool {
    forall|i: int| 0 <= i < u.len() ==> 32 <= #[trigger] u[i] <= 126 && u[i] != 34u8 && u[i] != 92u8
}

/// One entry of the status document.
pub open spec fn entry_model(e: StatusEntryModel) -> Seq<u8> {
    seq![34u8] + dec(e.year) + seq![34u8, 58u8, 123u8, 34u8, 'i' as u8, 'c' as u8, 'a' as u8, 'o' as u8, '_' as u8, 'm' as u8, 'o' as u8, 'n' as u8, 't' as u8, 'h' as u8, 's' as u8, '_' as u8, 't' as u8, 'o' as u8, '_' as u8, 'p' as u8, 'r' as u8, 'o' as u8, 'c' as u8, 'e' as u8, 's' as u8, 's' as u8, 34u8, 58u8] + dec(e.to_process) + seq![44u8, 34u8, 'i' as u8, 'c' as u8, 'a' as u8, 'o' as u8, '_' as u8, 'm' as u8, 'o' as u8, 'n' as u8, 't' as u8, 'h' as u8, 's' as u8, '_' as u8, 'p' as u8, 'r' as u8, 'o' as u8, 'c' as u8, 'e' as u8, 's' as u8, 's' as u8, 'e' as u8, 'd' as u8, 34u8, 58u8]
        + dec(e.processed) + seq![44u8, 34u8, 'u' as u8, 'r' as u8, 'l' as u8, 34u8, 58u8, 34u8] + e.url + seq![34u8, 125u8]
}

/// The entries of the status document, comma-separated.
pub open spec fn entries_model(s: Seq<StatusEntryModel>) -> Seq<u8>
    decreases s.len(),
{
    if s.len() == 0 {
        Seq::empty()
    } else if s.len() == 1 {
        entry_model(s[0])
    } else {
        entries_model(s.drop_last()) + seq![44u8] + entry_model(s.last())
    }
}

/// The status document: a single object mapping each year to its
/// status entry.
pub open spec fn status_model(s: Seq<StatusEntryModel>) -> Seq<u8> {
    seq![123u8] + entries_model(s) + seq![125u8]
}

#[verifier::rlimit(100)]
fn push_entry(out: &mut Vec<u8>, e: &StatusEntry)
    requires
        url_valid(e.url@),
    ensures
        final(out)@ == old(out)@ + entry_model(e@),
{
    out.push(34);
    push_dec_u64(out, e.year as u64);
    out.push(34u8);
    out.push(58u8);
    out.push(123u8);
    out.push(34u8);
    out.push('i' as u8);
    out.push('c' as u8);
    out.push('a' as u8);
    out.push('o' as u8);
    out.push('_' as u8);
    out.push('m' as u8);
    out.push('o' as u8);
    out.push('n' as u8);
    out.push('t' as u8);
    out.push('h' as u8);
    out.push('s' as u8);
    out.push('_' as u8);
    out.push('t' as u8);
    out.push('o' as u8);
    out.push('_' as u8);
    out.push('p' as u8);
    out.push('r' as u8);
    out.push('o' as u8);
    out.push('c' as u8);
    out.push('e' as u8);
    out.push('s' as u8);
    out.push('s' as u8);
    out.push(34u8);
    out.push(58u8);
    push_dec_u64(out, e.to_process as u64);
    out.push(44u8);
    out.push(34u8);
    out.push('i' as u8);
    out.push('c' as u8);
    out.push('a' as u8);
    out.push('o' as u8);
    out.push('_' as u8);
    out.push('m' as u8);
    out.push('o' as u8);
    out.push('n' as u8);
    out.push('t' as u8);
    out.push('h' as u8);
    out.push('s' as u8);
    out.push('_' as u8);
    out.push('p' as u8);
    out.push('r' as u8);
    out.push('o' as u8);
    out.push('c' as u8);
    out.push('e' as u8);
    out.push('s' as u8);
    out.push('s' as u8);
    out.push('e' as u8);
    out.push('d' as u8);
    out.push(34u8);
    out.push(58u8);
    push_dec_u64(out, e.processed as u64);
    out.push(44u8);
    out.push(34u8);
    out.push('u' as u8);
    out.push('r' as u8);
    out.push('l' as u8);
    out.push(34u8);
    out.push(58u8);
    out.push(34u8);
    crate::codec::push_bytes(out, &e.url);
    out.push(34);
    out.push(125);
    proof {
        assert(out@ =~= old(out)@ + entry_model(e@));
    }
}

/// Renders the status document for the given entries, in order. The
/// bytes are a pure function of the entries, so rewriting an
/// unchanged status rewrites identical bytes.
pub fn status_json(entries: &Vec<StatusEntry>) -> (r: Vec<u8>)
    requires
        forall|i: int| 0 <= i < entries@.len() ==> url_valid(#[trigger] entries@[i].url@),
    ensures
        r@ == status_model(entry_models(entries@)),
{
    let mut out: Vec<u8> = Vec::new();
    out.push(123);
    let mut i: usize = 0;
    proof {
        assert(entry_models(entries@).take(0) =~= Seq::<StatusEntryModel>::empty());
        assert(out@ =~= seq![123u8] + entries_model(entry_models(entries@).take(0)));
    }
    while i < entries.len()
        invariant
            i <= entries@.len(),
            forall|j: int| 0 <= j < entries@.len() ==> url_valid(#[trigger] entries@[j].url@),
            out@ == seq![123u8] + entries_model(entry_models(entries@).take(i as int)),
        decreases entries@.len() - i,
    {
        if i > 0 {
            out.push(44);
        }
        proof {
            assert(url_valid(entries@[i as int].url@));
        }
        push_entry(&mut out, &entries[i]);
        proof {
            let ms = entry_models(entries@);
            assert(ms.take(i + 1).drop_last() =~= ms.take(i as int));
            assert(ms.take(i + 1).last() == ms[i as int]);
            assert(ms[i as int] == entries@[i as int]@);
            if i == 0 {
                assert(entries_model(ms.take(1)) == entry_model(ms[0]));
                assert(out@ =~= seq![123u8] + entries_model(ms.take(i + 1)));
            } else {
                assert(entries_model(ms.take(i + 1)) == entries_model(ms.take(i as int))
                    + seq![44u8] + entry_model(ms[i as int]));
                assert(out@ =~= seq![123u8] + entries_model(ms.take(i + 1)));
            }
        }
        i = i + 1;
    }
    out.push(125);
    proof {
        assert(entry_models(entries@).take(entries@.len() as int) =~= entry_models(entries@));
        assert(out@ =~= status_model(entry_models(entries@)));
    }
    out
}

} // verus!
