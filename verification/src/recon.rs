//! Building the required set, scanning the completed set, and the
//! reconciliation that derives the remaining work as a
//! deterministically ordered list.

use vstd::prelude::*;

use crate::codec::{decode, encode_model, SchemaVersion};
use crate::keys::{key_lt, key_model_valid, KeyModel, PartitionKey};
use crate::keys::{bytes_eq_exec, entity_valid_exec, key_eq_exec, key_lt_exec, TimePeriod};
use crate::keys::{lemma_key_lt_trans, lemma_key_lt_trichotomy};

verus! {

/// The key values held by a list of partition keys.
pub open spec fn key_models(s: Seq<PartitionKey>) -> Seq<KeyModel> {
    s.map_values(|k: PartitionKey| k@)
}

/// Whether a year occurs in a list of years.
pub open spec fn years_contain(ys: Seq<u16>, y: int) -> bool {
    exists|i: int| 0 <= i < ys.len() && ys[i] as int == y
}

/// One tracked entity from the reference data, with the region it is
/// registered in.
pub struct EntityRef {
    pub id: Vec<u8>,
    pub region: Vec<u8>,
}

/// Whether an entity passes the optional region filter.
pub open spec fn region_ok(region: Seq<u8>, filter: Option<Seq<u8>>) -> bool {
    match filter {
        Some(f) => region == f,
        None => true,
    }
}

/// Whether one reference entry contributes keys to the required set:
/// its name must be well formed and must pass the region filter.
pub open spec fn entity_selected(e: EntityRef, filter: Option<Seq<u8>>) -> bool {
    PartitionKey::entity_valid(e.id@) && region_ok(e.region@, filter)
}

/// Whether a list of partition keys contains the given key value.
pub fn contains_key(v: &Vec<PartitionKey>, k: &PartitionKey) -> (r: bool)
    ensures
        r == key_models(v@).contains(k@),
{
    let mut i: usize = 0;
    while i < v.len()
        invariant
            i <= v@.len(),
            forall|j: int| 0 <= j < i ==> key_models(v@)[j] != k@,
        decreases v@.len() - i,
    {
        if key_eq_exec(&v[i], k) {
            proof {
                assert(key_models(v@)[i as int] =~= k@);
            }
            return true;
        }
        proof {
            assert(key_models(v@)[i as int] == v@[i as int]@);
            if key_models(v@)[i as int] == k@ {
                assert(false);
            }
        }
        i = i + 1;
    }
    false
}

/// Builds the required set from the fetched reference data: one key
/// per selected entity and calendar month of the given years. The
/// output is a set in list form; the execution order is imposed later
/// by reconciliation, not here.
pub fn build_required(entities: &Vec<EntityRef>, years: &Vec<u16>, filter: Option<&Vec<u8>>) -> (r:
    Vec<PartitionKey>)
    requires
        forall|i: int| 0 <= i < years@.len() ==> 1000 <= #[trigger] years@[i] <= 9999,
    ensures
        forall|m: KeyModel|
            #[trigger] key_models(r@).contains(m) <==> (key_model_valid(m) && years_contain(
                years@,
                m.year,
            ) && exists|i: int|
                0 <= i < entities@.len() && #[trigger] entity_selected(
                    entities@[i],
                    filter_model(filter),
                ) && entities@[i].id@ == m.entity),
{
    let mut r: Vec<PartitionKey> = Vec::new();
    let mut i: usize = 0;
    while i < entities.len()
        invariant
            i <= entities@.len(),
            forall|j: int| 0 <= j < years@.len() ==> 1000 <= #[trigger] years@[j] <= 9999,
            forall|m: KeyModel|
                #[trigger] key_models(r@).contains(m) <==> (key_model_valid(m) && years_contain(
                    years@,
                    m.year,
                ) && exists|j: int|
                    0 <= j < i && #[trigger] entity_selected(entities@[j], filter_model(filter))
                        && entities@[j].id@ == m.entity),
        decreases entities@.len() - i,
    {
        let e = &entities[i];
        let selected = entity_valid_exec(&e.id) && match filter {
            Some(f) => bytes_eq_exec(&e.region, f),
            None => true,
        };
        proof {
            assert(selected == entity_selected(entities@[i as int], filter_model(filter)));
        }
        let ghost r0 = r@;
        if selected {
            push_entity_months(&mut r, &e.id, years);
        }
        proof {
            assert forall|m: KeyModel| #[trigger]
                key_models(r@).contains(m) <==> (key_model_valid(m) && years_contain(
                    years@,
                    m.year,
                ) && exists|j: int|
                    0 <= j < i + 1 && #[trigger] entity_selected(
                        entities@[j],
                        filter_model(filter),
                    ) && entities@[j].id@ == m.entity) by {
                if key_models(r@).contains(m) {
                    if key_models(r0).contains(m) {
                        let j = choose|j: int|
                            0 <= j < i && #[trigger] entity_selected(
                                entities@[j],
                                filter_model(filter),
                            ) && entities@[j].id@ == m.entity;
                        assert(0 <= j < i + 1 && entity_selected(
                            entities@[j],
                            filter_model(filter),
                        ) && entities@[j].id@ == m.entity);
                    } else {
                        assert(selected);
                        assert(m.entity == entities@[i as int].id@);
                        assert(0 <= i < i + 1 && entity_selected(
                            entities@[i as int],
                            filter_model(filter),
                        ) && entities@[i as int].id@ == m.entity);
                    }
                }
                if key_model_valid(m) && years_contain(years@, m.year) && exists|j: int|
                    0 <= j < i + 1 && #[trigger] entity_selected(
                        entities@[j],
                        filter_model(filter),
                    ) && entities@[j].id@ == m.entity {
                    let j = choose|j: int|
                        0 <= j < i + 1 && #[trigger] entity_selected(
                            entities@[j],
                            filter_model(filter),
                        ) && entities@[j].id@ == m.entity;
                    if j == i {
                        assert(selected);
                        assert(key_models(r@).contains(m));
                    } else {
                        assert(key_models(r0).contains(m));
                        if selected {
                            assert(key_models(r@).contains(m));
                        }
                    }
                }
            }
        }
        i = i + 1;
    }
    r
}

/// Strictly ascending in the execution order; in particular free of
/// duplicates.
pub open spec fn sorted_strict(s: Seq<KeyModel>) -> bool {
    forall|i: int, j: int| 0 <= i < j < s.len() ==> key_lt(s[i], s[j])
}

/// The position in a sorted list before which every key is strictly
/// below `k`.
fn find_pos(r: &Vec<PartitionKey>, k: &PartitionKey) -> (pos: usize)
    ensures
        pos <= r@.len(),
        forall|j: int| 0 <= j < pos ==> key_lt(key_models(r@)[j], k@),
        pos < r@.len() ==> !key_lt(key_models(r@)[pos as int], k@),
{
    let mut j: usize = 0;
    while j < r.len()
        invariant
            j <= r@.len(),
            forall|j2: int| 0 <= j2 < j ==> key_lt(key_models(r@)[j2], k@),
        decreases r@.len() - j,
    {
        proof {
            assert(key_models(r@)[j as int] == r@[j as int]@);
        }
        if !key_lt_exec(&r[j], k) {
            return j;
        }
        j = j + 1;
    }
    j
}

/// Inserts a key not yet present into a strictly sorted list, keeping
/// it strictly sorted.
fn insert_sorted(r: &mut Vec<PartitionKey>, k: PartitionKey)
    requires
        sorted_strict(key_models(old(r)@)),
        !key_models(old(r)@).contains(k@),
    ensures
        sorted_strict(key_models(final(r)@)),
        forall|m: KeyModel|
            #[trigger] key_models(final(r)@).contains(m) <==> (key_models(old(r)@).contains(m) || m
                == k@),
        final(r)@.len() == old(r)@.len() + 1,
{
    let ghost s0 = key_models(r@);
    let j = find_pos(r, &k);
    proof {
        if j < r@.len() {
            lemma_key_lt_trichotomy(key_models(r@)[j as int], k@);
            if key_models(r@)[j as int] == k@ {
                assert(key_models(r@).contains(k@));
            }
            assert(key_lt(k@, key_models(r@)[j as int]));
        }
    }
    r.insert(j, k);
    proof {
        let s1 = key_models(r@);
        assert(s1 =~= s0.insert(j as int, k@));
        assert forall|i1: int, i2: int| 0 <= i1 < i2 < s1.len() implies key_lt(s1[i1], s1[i2]) by {
            if i1 < j {
                assert(s1[i1] == s0[i1]);
                assert(key_lt(s1[i1], k@));
            }
            if i2 > j {
                assert(s1[i2] == s0[i2 - 1]);
                if i2 - 1 == j {
                    assert(key_lt(k@, s1[i2]));
                } else {
                    assert(key_lt(s0[j as int], s0[i2 - 1]));
                    lemma_key_lt_trans(k@, s0[j as int], s0[i2 - 1]);
                }
            }
            if i1 < j && i2 == j {
            } else if i1 == j && i2 > j {
            } else if i1 < j && i2 > j {
                lemma_key_lt_trans(s1[i1], k@, s1[i2]);
            }
        }
        assert forall|m: KeyModel| #[trigger] s1.contains(m) <==> (s0.contains(m) || m == k@) by {
            if s1.contains(m) {
                let ix = choose|ix: int| 0 <= ix < s1.len() && s1[ix] == m;
                if ix < j {
                    assert(s0[ix] == m);
                    assert(s0.contains(m));
                } else if ix == j {
                } else {
                    assert(s0[ix - 1] == m);
                    assert(s0.contains(m));
                }
            }
            if s0.contains(m) {
                let ix = choose|ix: int| 0 <= ix < s0.len() && s0[ix] == m;
                if ix < j {
                    assert(s1[ix] == m);
                } else {
                    assert(s1[ix + 1] == m);
                }
            }
            if m == k@ {
                assert(s1[j as int] == m);
            }
        }
    }
}

/// Reconciliation: the work remaining is what is ready and required
/// but not yet completed, listed in the deterministic execution order
/// (period ascending, then entity ascending) with no duplicates.
///
/// No completed key appears in the result, so no completed key is
/// ever re-executed within a run.
pub fn reconcile(
    required: &Vec<PartitionKey>,
    ready: &Vec<PartitionKey>,
    completed: &Vec<PartitionKey>,
) -> (r: Vec<PartitionKey>)
    ensures
        forall|m: KeyModel|
            #[trigger] key_models(r@).contains(m) <==> (key_models(ready@).contains(m)
                && key_models(required@).contains(m) && !key_models(completed@).contains(m)),
        sorted_strict(key_models(r@)),
{
    let mut r: Vec<PartitionKey> = Vec::new();
    let mut i: usize = 0;
    while i < ready.len()
        invariant
            i <= ready@.len(),
            sorted_strict(key_models(r@)),
            forall|m: KeyModel|
                #[trigger] key_models(r@).contains(m) <==> ((exists|j: int|
                    0 <= j < i && key_models(ready@)[j] == m) && key_models(required@).contains(m)
                    && !key_models(completed@).contains(m)),
        decreases ready@.len() - i,
    {
        let k = &ready[i];
        proof {
            assert(key_models(ready@)[i as int] == ready@[i as int]@);
        }
        if contains_key(required, k) && !contains_key(completed, k) && !contains_key(&r, k) {
            insert_sorted(&mut r, k.dup());
        }
        proof {
            assert forall|m: KeyModel| #[trigger]
                key_models(r@).contains(m) <==> ((exists|j: int|
                    0 <= j < i + 1 && key_models(ready@)[j] == m) && key_models(
                    required@,
                ).contains(m) && !key_models(completed@).contains(m)) by {
                if (exists|j: int| 0 <= j < i + 1 && key_models(ready@)[j] == m) && key_models(
                    required@,
                ).contains(m) && !key_models(completed@).contains(m) {
                    let j = choose|j: int| 0 <= j < i + 1 && key_models(ready@)[j] == m;
                    if j == i {
                        assert(m == k@);
                        assert(key_models(r@).contains(m));
                    }
                }
            }
        }
        i = i + 1;
    }
    proof {
        assert forall|m: KeyModel| #[trigger]
            key_models(r@).contains(m) <==> (key_models(ready@).contains(m) && key_models(
                required@,
            ).contains(m) && !key_models(completed@).contains(m)) by {
            if key_models(ready@).contains(m) {
                assert(exists|j: int| 0 <= j < ready@.len() && key_models(ready@)[j] == m);
            }
        }
    }
    r
}

/// Rebuilds the completed set from a storage listing under the given
/// schema generation: every path that decodes contributes its key,
/// and the count of paths that do not decode is surfaced alongside so
/// that malformed or foreign entries are not silently dropped.
pub fn scan_completed(v: SchemaVersion, listing: &Vec<Vec<u8>>) -> (r: (Vec<PartitionKey>, usize))
    ensures
        r.0@.len() + r.1 == listing@.len(),
        forall|m: KeyModel|
            #[trigger] key_models(r.0@).contains(m) <==> (key_model_valid(m) && exists|i: int|
                0 <= i < listing@.len() && listing@[i]@ == encode_model(v, m)),
{
    let mut keys: Vec<PartitionKey> = Vec::new();
    let mut warnings: usize = 0;
    let mut i: usize = 0;
    while i < listing.len()
        invariant
            i <= listing@.len(),
            keys@.len() + warnings == i,
            forall|m: KeyModel|
                #[trigger] key_models(keys@).contains(m) <==> (key_model_valid(m) && exists|j: int|
                    0 <= j < i && listing@[j]@ == encode_model(v, m)),
        decreases listing@.len() - i,
    {
        let ghost s0 = key_models(keys@);
        match decode(v, &listing[i]) {
            Ok(k) => {
                keys.push(k);
                proof {
                    assert(key_models(keys@) =~= s0.push(k@));
                    assert forall|m: KeyModel| #[trigger]
                        key_models(keys@).contains(m) <==> (key_model_valid(m) && exists|j: int|
                            0 <= j < i + 1 && listing@[j]@ == encode_model(v, m)) by {
                        if key_models(keys@).contains(m) {
                            let ix = choose|ix: int|
                                0 <= ix < key_models(keys@).len() && key_models(keys@)[ix] == m;
                            if ix < s0.len() {
                                assert(s0.contains(m));
                            } else {
                                assert(m == k@);
                                assert(listing@[i as int]@ == encode_model(v, m));
                            }
                        }
                        if key_model_valid(m) && exists|j: int|
                            0 <= j < i + 1 && listing@[j]@ == encode_model(v, m) {
                            let j = choose|j: int|
                                0 <= j < i + 1 && listing@[j]@ == encode_model(v, m);
                            if j == i {
                                crate::codec::lemma_encode_injective(v, m, k@);
                                assert(m == k@);
                                assert(key_models(keys@)[s0.len() as int] == k@);
                            } else {
                                assert(s0.contains(m));
                                let ix = choose|ix: int| 0 <= ix < s0.len() && s0[ix] == m;
                                assert(key_models(keys@)[ix] == m);
                            }
                        }
                    }
                }
            },
            Err(_) => {
                warnings = warnings + 1;
                proof {
                    assert forall|m: KeyModel| #[trigger]
                        key_models(keys@).contains(m) <==> (key_model_valid(m) && exists|j: int|
                            0 <= j < i + 1 && listing@[j]@ == encode_model(v, m)) by {
                        if key_model_valid(m) && exists|j: int|
                            0 <= j < i + 1 && listing@[j]@ == encode_model(v, m) {
                            let j = choose|j: int|
                                0 <= j < i + 1 && listing@[j]@ == encode_model(v, m);
                            assert(j < i);
                        }
                    }
                }
            },
        }
        i = i + 1;
    }
    (keys, warnings)
}

/// After a run has completed every key it derived, a rerun with the
/// same required and ready sets derives no work at all: reconciling
/// against the grown completed set yields the empty list. Together
/// with the byte-exact contracts of the encoders this makes repeated
/// runs idempotent.
pub proof fn lemma_rerun_empty(
    todo2: Seq<KeyModel>,
    ready: Seq<KeyModel>,
    required: Seq<KeyModel>,
    completed2: Seq<KeyModel>,
)
    requires
        forall|m: KeyModel|
            #[trigger] todo2.contains(m) <==> (ready.contains(m) && required.contains(m)
                && !completed2.contains(m)),
        forall|m: KeyModel|
            ready.contains(m) && required.contains(m) ==> #[trigger] completed2.contains(m),
    ensures
        todo2.len() == 0,
{
    if todo2.len() > 0 {
        assert(todo2.contains(todo2[0]));
    }
}

/// The reconciliation law: when the ready set is contained in the
/// required set, the work remaining is exactly the ready work not yet
/// completed, and no completed key is ever re-executed.
pub proof fn lemma_todo_law(
    todo: Seq<KeyModel>,
    ready: Seq<KeyModel>,
    required: Seq<KeyModel>,
    completed: Seq<KeyModel>,
)
    requires
        forall|m: KeyModel|
            #[trigger] todo.contains(m) <==> (ready.contains(m) && required.contains(m)
                && !completed.contains(m)),
        forall|m: KeyModel| #[trigger] ready.contains(m) ==> required.contains(m),
    ensures
        forall|m: KeyModel|
            #[trigger] todo.contains(m) <==> (ready.contains(m) && !completed.contains(m)),
        forall|m: KeyModel| #[trigger] completed.contains(m) ==> !todo.contains(m),
{
}

/// The region filter as a mathematical value.
pub open spec fn filter_model(filter: Option<&Vec<u8>>) -> Option<Seq<u8>> {
    match filter {
        Some(f) => Some(f@),
        None => None,
    }
}

/// Appends the twelve monthly keys of `id` for each given year.
fn push_entity_months(r: &mut Vec<PartitionKey>, id: &Vec<u8>, years: &Vec<u16>)
    requires
        PartitionKey::entity_valid(id@),
        forall|i: int| 0 <= i < years@.len() ==> 1000 <= #[trigger] years@[i] <= 9999,
    ensures
        forall|m: KeyModel|
            #[trigger] key_models(final(r)@).contains(m) <==> (key_models(old(r)@).contains(m) || (
            key_model_valid(m) && m.entity == id@ && years_contain(years@, m.year))),
{
    let mut yi: usize = 0;
    while yi < years.len()
        invariant
            yi <= years@.len(),
            PartitionKey::entity_valid(id@),
            forall|i: int| 0 <= i < years@.len() ==> 1000 <= #[trigger] years@[i] <= 9999,
            forall|m: KeyModel|
                #[trigger] key_models(r@).contains(m) <==> (key_models(old(r)@).contains(m) || (
                key_model_valid(m) && m.entity == id@ && exists|i: int|
                    0 <= i < yi && years@[i] as int == m.year)),
        decreases years@.len() - yi,
    {
        let year = years[yi];
        let mut mo: u8 = 1;
        while mo <= 12
            invariant
                1 <= mo <= 13,
                PartitionKey::entity_valid(id@),
                1000 <= year <= 9999,
                years@[yi as int] == year,
                0 <= yi < years@.len(),
                forall|m: KeyModel|
                    #[trigger] key_models(r@).contains(m) <==> ((key_models(old(r)@).contains(m) || (
                    key_model_valid(m) && m.entity == id@ && exists|i: int|
                        0 <= i < yi && years@[i] as int == m.year)) || (key_model_valid(m)
                        && m.entity == id@ && m.year == year as int && 1 <= m.month < mo)),
            decreases 13 - mo,
        {
            let k = PartitionKey::new(crate::keys::copy_bytes(id), TimePeriod::new(year, mo));
            let ghost prev = r@;
            r.push(k);
            proof {
                assert(key_models(r@) =~= key_models(prev).push(k@));
                assert(k@.entity == id@ && k@.year == year as int && k@.month == mo as int);
                assert(key_model_valid(k@));
                assert forall|m: KeyModel| #[trigger]
                    key_models(r@).contains(m) <==> ((key_models(old(r)@).contains(m) || (
                    key_model_valid(m) && m.entity == id@ && exists|i: int|
                        0 <= i < yi && years@[i] as int == m.year)) || (key_model_valid(m)
                        && m.entity == id@ && m.year == year as int && 1 <= m.month < mo + 1)) by {
                    if key_models(r@).contains(m) {
                        let ix = choose|ix: int|
                            0 <= ix < key_models(r@).len() && key_models(r@)[ix] == m;
                        if ix < key_models(prev).len() {
                            assert(key_models(prev).contains(m));
                        } else {
                            assert(m == k@);
                        }
                    }
                    if key_model_valid(m) && m.entity == id@ && m.year == year as int && 1 <= m.month
                        < mo + 1 && !(1 <= m.month < mo) {
                        assert(m.month == mo as int);
                        assert(m =~= k@);
                        assert(key_models(r@)[key_models(prev).len() as int] == k@);
                    }
                    if key_models(prev).contains(m) {
                        let ix = choose|ix: int|
                            0 <= ix < key_models(prev).len() && key_models(prev)[ix] == m;
                        assert(key_models(r@)[ix] == m);
                    }
                }
            }
            mo = mo + 1;
        }
        yi = yi + 1;
        proof {
            assert forall|m: KeyModel| #[trigger]
                key_models(r@).contains(m) <==> (key_models(old(r)@).contains(m) || (
                key_model_valid(m) && m.entity == id@ && exists|i: int|
                    0 <= i < yi && years@[i] as int == m.year)) by {
                if key_model_valid(m) && m.entity == id@ && exists|i: int|
                    0 <= i < yi && years@[i] as int == m.year {
                    let i = choose|i: int| 0 <= i < yi && years@[i] as int == m.year;
                    if i == yi - 1 {
                        assert(m.year == year as int && 1 <= m.month <= 12);
                    }
                }
            }
        }
    }
}

} // verus!
