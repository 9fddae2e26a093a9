//! The partition key codec: a bijection between valid partition keys
//! and hierarchical storage paths of the form
//! `leg/<generation>/data/month=YYYY-MM/icao_number=<entity>/<file>`.
//!
//! Two schema generations coexist; each carries its own prefix and
//! filename and the codec of one generation never accepts a path of
//! the other.

use vstd::prelude::*;

use crate::keys::{entity_byte_ok, key_model_valid, KeyModel, PartitionKey, TimePeriod};
use crate::keys::{copy_bytes, entity_byte_ok_exec};
use crate::num::{dec2, dec4, parse_dec2, parse_dec4, push_dec2, push_dec4};
use crate::num::{lemma_dec2_injective, lemma_dec4_injective};

verus! {

/// One on-disk schema generation, with its own path prefix, filename
/// and record shape.
#[derive(Clone, Copy, PartialEq, Eq, Structural, Debug)]
pub enum SchemaVersion {
    V1,
    V2,
}

/// A storage path that does not name a partition of the given schema
/// generation.
#[derive(Clone, Copy, PartialEq, Eq, Structural, Debug)]
pub struct DecodeError;

/// The fixed path head of a generation: `leg/<g>/data/month=`.
pub open spec fn head_model(v: SchemaVersion) -> Seq<u8> {
    seq![
        'l' as u8,
        'e' as u8,
        'g' as u8,
        '/' as u8,
        'v' as u8,
        generation_byte(v),
        '/' as u8,
        'd' as u8,
        'a' as u8,
        't' as u8,
        'a' as u8,
        '/' as u8,
        'm' as u8,
        'o' as u8,
        'n' as u8,
        't' as u8,
        'h' as u8,
        '=' as u8,
    ]
}

pub open spec fn generation_byte(v: SchemaVersion) -> u8 {
    match v {
        SchemaVersion::V1 => '1' as u8,
        SchemaVersion::V2 => '2' as u8,
    }
}

/// The fixed segment between the month and the entity name:
/// `/icao_number=`.
pub open spec fn icao_model() -> Seq<u8> {
    seq![
        '/' as u8,
        'i' as u8,
        'c' as u8,
        'a' as u8,
        'o' as u8,
        '_' as u8,
        'n' as u8,
        'u' as u8,
        'm' as u8,
        'b' as u8,
        'e' as u8,
        'r' as u8,
        '=' as u8,
    ]
}

/// The fixed path tail of a generation: `/data.csv` or `/data.json`.
pub open spec fn tail_model(v: SchemaVersion) -> Seq<u8> {
    match v {
        SchemaVersion::V1 => seq![
            '/' as u8,
            'd' as u8,
            'a' as u8,
            't' as u8,
            'a' as u8,
            '.' as u8,
            'c' as u8,
            's' as u8,
            'v' as u8,
        ],
        SchemaVersion::V2 => seq![
            '/' as u8,
            'd' as u8,
            'a' as u8,
            't' as u8,
            'a' as u8,
            '.' as u8,
            'j' as u8,
            's' as u8,
            'o' as u8,
            'n' as u8,
        ],
    }
}

/// The path of one partition key under one schema generation.
pub open spec fn encode_model(v: SchemaVersion, m: KeyModel) -> Seq<u8> {
    head_model(v) + dec4(m.year) + seq![45u8] + dec2(m.month) + icao_model() + m.entity
        + tail_model(v)
}

/// Where each part of an encoded path lies: the head fills `0..18`,
/// the year digits `18..22`, a dash at `22`, the month digits
/// `23..25`, the entity segment literal `25..38`, the entity name the
/// next `entity.len()` bytes, and the tail the rest.
#[verifier::rlimit(60)]
pub proof fn lemma_encode_structure(v: SchemaVersion, m: KeyModel)
    ensures
        encode_model(v, m).len() == 38 + m.entity.len() as int + tail_model(v).len(),
        encode_model(v, m).subrange(0, 18) == head_model(v),
        encode_model(v, m).subrange(18, 22) == dec4(m.year),
        encode_model(v, m)[22] == 45u8,
        encode_model(v, m).subrange(23, 25) == dec2(m.month),
        encode_model(v, m).subrange(25, 38) == icao_model(),
        encode_model(v, m).subrange(38, 38 + m.entity.len() as int) == m.entity,
        encode_model(v, m).subrange(
            38 + m.entity.len() as int,
            encode_model(v, m).len() as int,
        ) == tail_model(v),
{
    let e = encode_model(v, m);
    assert(e.subrange(0, 18) =~= head_model(v));
    assert(e.subrange(18, 22) =~= dec4(m.year));
    assert(e.subrange(23, 25) =~= dec2(m.month));
    assert(e.subrange(25, 38) =~= icao_model());
    assert(e.subrange(38, 38 + m.entity.len() as int) =~= m.entity);
    assert(e.subrange(38 + m.entity.len() as int, e.len() as int) =~= tail_model(v));
}

/// Two distinct valid keys never share a path within one generation.
pub proof fn lemma_encode_injective(v: SchemaVersion, a: KeyModel, b: KeyModel)
    requires
        key_model_valid(a),
        key_model_valid(b),
        encode_model(v, a) == encode_model(v, b),
    ensures
        a == b,
{
    lemma_encode_structure(v, a);
    lemma_encode_structure(v, b);
    assert(a.entity.len() == b.entity.len());
    lemma_dec4_injective(a.year, b.year);
    lemma_dec2_injective(a.month, b.month);
    assert(a.entity == b.entity);
    assert(a =~= b);
}

/// The generations' paths are disjoint: a path of one generation is
/// never a path of the other.
pub proof fn lemma_generations_disjoint(a: KeyModel, b: KeyModel)
    ensures
        encode_model(SchemaVersion::V1, a) != encode_model(SchemaVersion::V2, b),
{
    if encode_model(SchemaVersion::V1, a) == encode_model(SchemaVersion::V2, b) {
        assert(encode_model(SchemaVersion::V1, a)[5] == '1' as u8);
        assert(encode_model(SchemaVersion::V2, b)[5] == '2' as u8);
    }
}

/// The fixed path head of a generation, as bytes.
pub fn head_bytes(v: SchemaVersion) -> (r: Vec<u8>)
    ensures
        r@ == head_model(v),
{
    let mut r: Vec<u8> = Vec::new();
    r.push('l' as u8);
    r.push('e' as u8);
    r.push('g' as u8);
    r.push('/' as u8);
    r.push('v' as u8);
    match v {
        SchemaVersion::V1 => r.push('1' as u8),
        SchemaVersion::V2 => r.push('2' as u8),
    }
    r.push('/' as u8);
    r.push('d' as u8);
    r.push('a' as u8);
    r.push('t' as u8);
    r.push('a' as u8);
    r.push('/' as u8);
    r.push('m' as u8);
    r.push('o' as u8);
    r.push('n' as u8);
    r.push('t' as u8);
    r.push('h' as u8);
    r.push('=' as u8);
    proof {
        assert(r@ =~= head_model(v));
    }
    r
}

fn icao_bytes() -> (r: Vec<u8>)
    ensures
        r@ == icao_model(),
{
    let mut r: Vec<u8> = Vec::new();
    r.push('/' as u8);
    r.push('i' as u8);
    r.push('c' as u8);
    r.push('a' as u8);
    r.push('o' as u8);
    r.push('_' as u8);
    r.push('n' as u8);
    r.push('u' as u8);
    r.push('m' as u8);
    r.push('b' as u8);
    r.push('e' as u8);
    r.push('r' as u8);
    r.push('=' as u8);
    proof {
        assert(r@ =~= icao_model());
    }
    r
}

fn tail_bytes(v: SchemaVersion) -> (r: Vec<u8>)
    ensures
        r@ == tail_model(v),
{
    let mut r: Vec<u8> = Vec::new();
    r.push('/' as u8);
    r.push('d' as u8);
    r.push('a' as u8);
    r.push('t' as u8);
    r.push('a' as u8);
    r.push('.' as u8);
    match v {
        SchemaVersion::V1 => {
            r.push('c' as u8);
            r.push('s' as u8);
            r.push('v' as u8);
        },
        SchemaVersion::V2 => {
            r.push('j' as u8);
            r.push('s' as u8);
            r.push('o' as u8);
            r.push('n' as u8);
        },
    }
    proof {
        assert(r@ =~= tail_model(v));
    }
    r
}

/// Appends a copy of `src` to `out`.
pub fn push_bytes(out: &mut Vec<u8>, src: &Vec<u8>)
    ensures
        final(out)@ == old(out)@ + src@,
{
    let mut i: usize = 0;
    while i < src.len()
        invariant
            i <= src@.len(),
            out@ == old(out)@ + src@.subrange(0, i as int),
        decreases src@.len() - i,
    {
        out.push(src[i]);
        proof {
            assert(out@ =~= old(out)@ + src@.subrange(0, i + 1));
        }
        i = i + 1;
    }
    proof {
        assert(src@.subrange(0, src@.len() as int) =~= src@);
    }
}

/// Whether `pat` occurs in `p` exactly at position `i`.
pub fn match_at(p: &Vec<u8>, i: usize, pat: &Vec<u8>) -> (r: bool)
    requires
        i <= p@.len(),
    ensures
        r == (i + pat@.len() <= p@.len() && p@.subrange(i as int, i + pat@.len()) == pat@),
{
    let n = p.len();
    let m = pat.len();
    if m > n - i {
        return false;
    }
    let mut j: usize = 0;
    while j < m
        invariant
            j <= m,
            m == pat@.len(),
            n == p@.len(),
            i + m <= n,
            forall|j2: int| 0 <= j2 < j ==> p@[i + j2] == pat@[j2],
        decreases m - j,
    {
        if p[i + j] != pat[j] {
            proof {
                if p@.subrange(i as int, i + pat@.len()) == pat@ {
                    assert(p@.subrange(i as int, i + pat@.len())[j as int] == p@[i + j]);
                }
            }
            return false;
        }
        j = j + 1;
    }
    proof {
        assert(p@.subrange(i as int, i + pat@.len()) =~= pat@);
    }
    true
}

/// Encodes a valid partition key as its storage path under the given
/// schema generation.
pub fn encode(v: SchemaVersion, k: &PartitionKey) -> (r: Vec<u8>)
    requires
        k.valid(),
    ensures
        r@ == encode_model(v, k@),
{
    let mut out = head_bytes(v);
    push_dec4(&mut out, k.period.year);
    out.push(45);
    push_dec2(&mut out, k.period.month);
    let icao = icao_bytes();
    push_bytes(&mut out, &icao);
    push_bytes(&mut out, &k.entity);
    let tail = tail_bytes(v);
    push_bytes(&mut out, &tail);
    proof {
        assert(out@ =~= encode_model(v, k@));
    }
    out
}

/// Decodes a storage path back into the partition key it encodes.
///
/// Exactly the paths produced by `encode` for valid keys under the
/// same schema generation are accepted, and decoding such a path
/// returns the key it was produced from; every other byte string is
/// rejected with a [`DecodeError`].
#[verifier::rlimit(100)]
pub fn decode(v: SchemaVersion, p: &Vec<u8>) -> (r: Result<PartitionKey, DecodeError>)
    ensures
        match r {
            Ok(k) => k.valid() && p@ == encode_model(v, k@),
            Err(_) => forall|m: KeyModel| key_model_valid(m) ==> p@ != encode_model(v, m),
        },
        forall|m: KeyModel|
            key_model_valid(m) && p@ == encode_model(v, m) ==> (r matches Ok(k) && k@ == m),
{
    let n = p.len();
    let tail = tail_bytes(v);
    let tl = tail.len();
    if n < 39 + tl {
        proof {
            assert forall|m: KeyModel| key_model_valid(m) implies p@ != encode_model(v, m) by {
                lemma_encode_structure(v, m);
            }
        }
        return Err(DecodeError);
    }
    let head = head_bytes(v);
    if !match_at(p, 0, &head) {
        proof {
            assert forall|m: KeyModel| key_model_valid(m) implies p@ != encode_model(v, m) by {
                lemma_encode_structure(v, m);
                if p@ == encode_model(v, m) {
                    assert(p@.subrange(0, 18) == head_model(v));
                }
            }
        }
        return Err(DecodeError);
    }
    let year = match parse_dec4(p, 18) {
        Some(y) => y,
        None => {
            proof {
                assert forall|m: KeyModel| key_model_valid(m) implies p@ != encode_model(v, m) by {
                    lemma_encode_structure(v, m);
                    if p@ == encode_model(v, m) {
                        assert(p@.subrange(18, 22) == dec4(m.year));
                    }
                }
            }
            return Err(DecodeError);
        },
    };
    if year < 1000 {
        proof {
            assert forall|m: KeyModel| key_model_valid(m) implies p@ != encode_model(v, m) by {
                lemma_encode_structure(v, m);
                if p@ == encode_model(v, m) {
                    assert(p@.subrange(18, 22) == dec4(m.year));
                    lemma_dec4_injective(year as int, m.year);
                }
            }
        }
        return Err(DecodeError);
    }
    if p[22] != 45 {
        proof {
            assert forall|m: KeyModel| key_model_valid(m) implies p@ != encode_model(v, m) by {
                lemma_encode_structure(v, m);
            }
        }
        return Err(DecodeError);
    }
    let month = match parse_dec2(p, 23) {
        Some(mo) => mo,
        None => {
            proof {
                assert forall|m: KeyModel| key_model_valid(m) implies p@ != encode_model(v, m) by {
                    lemma_encode_structure(v, m);
                    if p@ == encode_model(v, m) {
                        assert(p@.subrange(23, 25) == dec2(m.month));
                    }
                }
            }
            return Err(DecodeError);
        },
    };
    if month < 1 || month > 12 {
        proof {
            assert forall|m: KeyModel| key_model_valid(m) implies p@ != encode_model(v, m) by {
                lemma_encode_structure(v, m);
                if p@ == encode_model(v, m) {
                    assert(p@.subrange(23, 25) == dec2(m.month));
                    lemma_dec2_injective(month as int, m.month);
                }
            }
        }
        return Err(DecodeError);
    }
    let icao = icao_bytes();
    if !match_at(p, 25, &icao) {
        proof {
            assert forall|m: KeyModel| key_model_valid(m) implies p@ != encode_model(v, m) by {
                lemma_encode_structure(v, m);
                if p@ == encode_model(v, m) {
                    assert(p@.subrange(25, 38) == icao_model());
                }
            }
        }
        return Err(DecodeError);
    }
    let end = n - tl;
    if !match_at(p, end, &tail) {
        proof {
            assert forall|m: KeyModel| key_model_valid(m) implies p@ != encode_model(v, m) by {
                lemma_encode_structure(v, m);
                if p@ == encode_model(v, m) {
                    assert(p@.subrange(38 + m.entity.len() as int, p@.len() as int) == tail_model(v));
                }
            }
        }
        return Err(DecodeError);
    }
    let mut i: usize = 38;
    while i < end
        invariant
            38 <= i <= end,
            end < n == p@.len(),
            tl == tail_model(v).len(),
            end == n - tl,
            forall|j: int| 38 <= j < i ==> entity_byte_ok(#[trigger] p@[j]),
        decreases end - i,
    {
        if !entity_byte_ok_exec(p[i]) {
            proof {
                assert forall|m: KeyModel| key_model_valid(m) implies p@ != encode_model(v, m) by {
                    lemma_encode_structure(v, m);
                    if p@ == encode_model(v, m) {
                        assert(m.entity.len() == n - 38 - tl);
                        assert(p@.subrange(38, 38 + m.entity.len() as int)[i - 38] == p@[i as int]);
                        assert(m.entity[i - 38] == p@[i as int]);
                    }
                }
            }
            return Err(DecodeError);
        }
        i = i + 1;
    }
    let entity = copy_range(p, 38, end);
    let k = PartitionKey { entity, period: TimePeriod { year, month } };
    proof {
        assert(k@.entity =~= p@.subrange(38, end as int));
        assert(p@ =~= encode_model(v, k@)) by {
            lemma_encode_structure(v, k@);
            let e = encode_model(v, k@);
            assert(e.len() == p@.len());
            assert forall|j: int| 0 <= j < p@.len() implies p@[j] == e[j] by {
                if j < 18 {
                    assert(p@.subrange(0, 18)[j] == p@[j]);
                    assert(e.subrange(0, 18)[j] == e[j]);
                } else if j < 22 {
                    assert(p@.subrange(18, 22)[j - 18] == p@[j]);
                    assert(e.subrange(18, 22)[j - 18] == e[j]);
                } else if j == 22 {
                } else if j < 25 {
                    assert(p@.subrange(23, 25)[j - 23] == p@[j]);
                    assert(e.subrange(23, 25)[j - 23] == e[j]);
                } else if j < 38 {
                    assert(p@.subrange(25, 38)[j - 25] == p@[j]);
                    assert(e.subrange(25, 38)[j - 25] == e[j]);
                } else if j < end {
                    assert(p@.subrange(38, end as int)[j - 38] == p@[j]);
                    assert(e.subrange(38, 38 + k@.entity.len() as int)[j - 38] == e[j]);
                } else {
                    assert(p@.subrange(end as int, n as int)[j - end] == p@[j]);
                    assert(e.subrange(38 + k@.entity.len() as int, e.len() as int)[j - end] == e[j]);
                }
            }
        }
        assert forall|m: KeyModel| key_model_valid(m) && p@ == encode_model(v, m) implies k@
            == m by {
            lemma_encode_injective(v, m, k@);
        }
    }
    Ok(k)
}

/// Copies `p[lo..hi]` into a fresh byte string.
pub(crate) fn copy_range(p: &Vec<u8>, lo: usize, hi: usize) -> (r: Vec<u8>)
    requires
        lo <= hi <= p@.len(),
    ensures
        r@ == p@.subrange(lo as int, hi as int),
{
    let mut r: Vec<u8> = Vec::new();
    let mut i: usize = lo;
    while i < hi
        invariant
            lo <= i <= hi <= p@.len(),
            r@ == p@.subrange(lo as int, i as int),
        decreases hi - i,
    {
        r.push(p[i]);
        proof {
            assert(r@ =~= p@.subrange(lo as int, i + 1));
        }
        i = i + 1;
    }
    r
}

} // verus!
