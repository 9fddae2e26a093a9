//! Partition keys: an opaque entity identifier paired with a calendar
//! month. A key names exactly one storage location.

use vstd::prelude::*;

verus! {

/// A calendar month: the time granularity of partitioning.
///
/// Valid periods carry a four-digit year and a month in `1..=12`.
#[derive(Clone, Copy, PartialEq, Eq, Structural, Debug)]
pub struct TimePeriod {
    pub year: u16,
    pub month: u8,
}

impl TimePeriod {
    /// A period is valid when the year has exactly four decimal digits
    /// and the month is a real calendar month.
    pub open spec fn valid(self) -> bool {
        1000 <= self.year <= 9999 && 1 <= self.month <= 12
    }

    pub fn new(year: u16, month: u8) -> (r: TimePeriod)
        requires
            1000 <= year <= 9999,
            1 <= month <= 12,
        ensures
            r.valid(),
            r.year == year,
            r.month == month,
    {
        TimePeriod { year, month }
    }
}

/// The unique key of one storage partition: one tracked entity in one
/// calendar month.
#[derive(Clone, Debug)]
pub struct PartitionKey {
    /// Opaque identifier of the tracked entity, as bytes of its name.
    pub entity: Vec<u8>,
    pub period: TimePeriod,
}

/// The mathematical value of a key: the entity name together with the
/// year and month, all as plain mathematical values.
#[verifier::ext_equal]
pub struct KeyModel {
    pub entity: Seq<u8>,
    pub year: int,
    pub month: int,
}

/// Whether one byte may appear in an entity name.
pub open spec fn entity_byte_ok(b: u8) -> bool {
    33 <= b <= 126 && b != 47u8 && b != 61u8 && b != 44u8 && b != 34u8 && b != 92u8
}

/// Validity of a key at the model level: four-digit year, calendar
/// month, well-formed entity name.
pub open spec fn key_model_valid(m: KeyModel) -> bool {
    1000 <= m.year <= 9999 && 1 <= m.month <= 12 && PartitionKey::entity_valid(m.entity)
}

impl View for PartitionKey {
    type V = KeyModel;

    open spec fn view(&self) -> KeyModel {
        KeyModel {
            entity: self.entity@,
            year: self.year_sp(),
            month: self.month_sp(),
        }
    }
}

impl PartitionKey {
    pub open spec fn year_sp(self) -> int {
        self.period.year as int
    }

    pub open spec fn month_sp(self) -> int {
        self.period.month as int
    }

    /// An entity name is valid when it is non-empty and every byte is
    /// printable ASCII other than the separators reserved by the path
    /// codec (`/`, `=`) and by the row and status formats (`,`, `"`,
    /// `\`).
    pub open spec fn entity_valid(e: Seq<u8>) -> bool {
        e.len() > 0 && forall|i: int| 0 <= i < e.len() ==> entity_byte_ok(#[trigger] e[i])
    }

    pub open spec fn valid(self) -> bool {
        key_model_valid(self@)
    }

    pub fn new(entity: Vec<u8>, period: TimePeriod) -> (r: PartitionKey)
        ensures
            r@.entity == entity@,
            r.period == period,
    {
        PartitionKey { entity, period }
    }

    /// An explicit copy whose value is known to equal the original's.
    pub fn dup(&self) -> (r: PartitionKey)
        ensures
            r@ == self@,
    {
        let r = PartitionKey { entity: copy_bytes(&self.entity), period: self.period };
        proof {
            assert(r@ =~= self@);
        }
        r
    }
}

/// Copies a byte string.
pub fn copy_bytes(src: &Vec<u8>) -> (r: Vec<u8>)
    ensures
        r@ == src@,
{
    let mut r: Vec<u8> = Vec::new();
    let mut i: usize = 0;
    while i < src.len()
        invariant
            i <= src@.len(),
            r@ == src@.subrange(0, i as int),
        decreases src@.len() - i,
    {
        r.push(src[i]);
        proof {
            assert(r@ =~= src@.subrange(0, i + 1));
        }
        i = i + 1;
    }
    proof {
        assert(src@.subrange(0, src@.len() as int) =~= src@);
    }
    r
}

/// Whether a byte string is a well-formed entity name.
pub fn entity_valid_exec(id: &Vec<u8>) -> (r: bool)
    ensures
        r == PartitionKey::entity_valid(id@),
{
    if id.len() == 0 {
        return false;
    }
    let mut i: usize = 0;
    while i < id.len()
        invariant
            i <= id@.len(),
            forall|j: int| 0 <= j < i ==> entity_byte_ok(#[trigger] id@[j]),
        decreases id@.len() - i,
    {
        if !entity_byte_ok_exec(id[i]) {
            return false;
        }
        i = i + 1;
    }
    true
}

/// Whether one byte may appear in an entity name.
pub fn entity_byte_ok_exec(b: u8) -> (r: bool)
    ensures
        r == entity_byte_ok(b),
{
    33 <= b && b <= 126 && b != 47 && b != 61 && b != 44 && b != 34 && b != 92
}

/// Strict lexicographic order on byte strings.
pub open spec fn bytes_lt(a: Seq<u8>, b: Seq<u8>) -> bool
    decreases a.len(),
{
    if b.len() == 0 {
        false
    } else if a.len() == 0 {
        true
    } else if a[0] != b[0] {
        a[0] < b[0]
    } else {
        bytes_lt(a.subrange(1, a.len() as int), b.subrange(1, b.len() as int))
    }
}

/// The deterministic execution order over keys: period ascending first
/// (year, then month), entity name ascending (lexicographic) second.
pub open spec fn key_lt(a: KeyModel, b: KeyModel) -> bool {
    if a.year != b.year {
        a.year < b.year
    } else if a.month != b.month {
        a.month < b.month
    } else {
        bytes_lt(a.entity, b.entity)
    }
}

pub open spec fn key_eq(a: KeyModel, b: KeyModel) -> bool {
    a.entity == b.entity && a.year == b.year && a.month == b.month
}

/// Compares two entity names; returns whether `a@` is strictly below
/// `b@` in lexicographic order.
pub fn bytes_lt_exec(a: &Vec<u8>, b: &Vec<u8>) -> (r: bool)
    ensures
        r == bytes_lt(a@, b@),
    decreases a@.len(),
{
    let mut i: usize = 0;
    proof {
        assert(a@.subrange(0, a@.len() as int) =~= a@);
        assert(b@.subrange(0, b@.len() as int) =~= b@);
    }
    loop
        invariant
            i <= a.len(),
            i <= b.len(),
            bytes_lt(a@, b@) == bytes_lt(a@.subrange(i as int, a@.len() as int), b@.subrange(i as int, b@.len() as int)),
        decreases a@.len() - i,
    {
        proof {
            let sa = a@.subrange(i as int, a@.len() as int);
            let sb = b@.subrange(i as int, b@.len() as int);
            if i < a.len() && i < b.len() && a@[i as int] == b@[i as int] {
                assert(sa.subrange(1, sa.len() as int) =~= a@.subrange(i + 1, a@.len() as int));
                assert(sb.subrange(1, sb.len() as int) =~= b@.subrange(i + 1, b@.len() as int));
            }
        }
        if i >= b.len() {
            return false;
        }
        if i >= a.len() {
            return true;
        }
        if a[i] != b[i] {
            return a[i] < b[i];
        }
        i = i + 1;
    }
}

/// Compares two entity names for equality of their byte contents.
pub fn bytes_eq_exec(a: &Vec<u8>, b: &Vec<u8>) -> (r: bool)
    ensures
        r == (a@ == b@),
{
    if a.len() != b.len() {
        return false;
    }
    let mut i: usize = 0;
    while i < a.len()
        invariant
            i <= a.len(),
            a@.len() == b@.len(),
            forall|j: int| 0 <= j < i ==> a@[j] == b@[j],
        decreases a@.len() - i,
    {
        if a[i] != b[i] {
            return false;
        }
        i = i + 1;
    }
    proof {
        assert(a@ =~= b@);
    }
    true
}

/// Of two byte strings, one is below the other or they are equal.
pub proof fn lemma_bytes_lt_trichotomy(a: Seq<u8>, b: Seq<u8>)
    ensures
        bytes_lt(a, b) || bytes_lt(b, a) || a == b,
    decreases a.len(),
{
    if b.len() == 0 {
        if a.len() == 0 {
            assert(a =~= b);
        }
    } else if a.len() == 0 {
    } else if a[0] == b[0] {
        let at = a.subrange(1, a.len() as int);
        let bt = b.subrange(1, b.len() as int);
        lemma_bytes_lt_trichotomy(at, bt);
        if !bytes_lt(a, b) && !bytes_lt(b, a) {
            assert(at == bt);
            assert(a =~= b) by {
                assert(forall|i: int| 1 <= i < a.len() ==> a[i] == at[i - 1] && b[i] == bt[i - 1]);
            }
        }
    }
}

/// Lexicographic order on byte strings is transitive.
pub proof fn lemma_bytes_lt_trans(a: Seq<u8>, b: Seq<u8>, c: Seq<u8>)
    requires
        bytes_lt(a, b),
        bytes_lt(b, c),
    ensures
        bytes_lt(a, c),
    decreases a.len(),
{
    if a.len() > 0 && b.len() > 0 && c.len() > 0 {
        if a[0] == b[0] && b[0] == c[0] {
            lemma_bytes_lt_trans(
                a.subrange(1, a.len() as int),
                b.subrange(1, b.len() as int),
                c.subrange(1, c.len() as int),
            );
        }
    }
}

/// Of two keys, one comes before the other or they are equal.
pub proof fn lemma_key_lt_trichotomy(a: KeyModel, b: KeyModel)
    ensures
        key_lt(a, b) || key_lt(b, a) || a == b,
{
    if a.year == b.year && a.month == b.month {
        lemma_bytes_lt_trichotomy(a.entity, b.entity);
        if !key_lt(a, b) && !key_lt(b, a) {
            assert(a =~= b);
        }
    }
}

/// The execution order on keys is transitive.
pub proof fn lemma_key_lt_trans(a: KeyModel, b: KeyModel, c: KeyModel)
    requires
        key_lt(a, b),
        key_lt(b, c),
    ensures
        key_lt(a, c),
{
    if a.year == b.year && b.year == c.year && a.month == b.month && b.month == c.month {
        lemma_bytes_lt_trans(a.entity, b.entity, c.entity);
    }
}

/// Whether `a` comes strictly before `b` in the execution order.
pub fn key_lt_exec(a: &PartitionKey, b: &PartitionKey) -> (r: bool)
    ensures
        r == key_lt(a@, b@),
{
    if a.period.year != b.period.year {
        a.period.year < b.period.year
    } else if a.period.month != b.period.month {
        a.period.month < b.period.month
    } else {
        bytes_lt_exec(&a.entity, &b.entity)
    }
}

/// Whether `a` and `b` name the same partition.
pub fn key_eq_exec(a: &PartitionKey, b: &PartitionKey) -> (r: bool)
    ensures
        r == key_eq(a@, b@),
{
    a.period.year == b.period.year && a.period.month == b.period.month && bytes_eq_exec(
        &a.entity,
        &b.entity,
    )
}

} // verus!
