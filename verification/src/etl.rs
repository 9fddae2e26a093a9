//! The load step of one partition ETL task.
//!
//! One task serves one partition key. The surrounding process
//! extracts the raw positions and derives the legs for the key
//! (external collaborators), then calls [`etl_load`] to obtain the
//! partition's storage path and its serialized blob, and overwrites
//! whatever the path held before. A key whose task fails is simply
//! not written and is derived again as remaining work on the next
//! run, so failure needs no persisted state to recover from.

use vstd::prelude::*;

use crate::codec::{encode, encode_model, SchemaVersion};
use crate::keys::PartitionKey;
use crate::records::{blob_model, leg_valid, rec_models, serialize_partition, transform};
use crate::records::{Leg, RecordModel};

verus! {

/// The rows a partition blob holds for a key's legs.
pub open spec fn partition_rows(entity: Seq<u8>, legs: Seq<Leg>) -> Seq<RecordModel> {
    legs.map_values(|l: Leg| RecordModel { entity: entity, leg: l })
}

/// Builds the one overwrite-write of a partition ETL task: the
/// storage path of the key and the serialized blob of its legs. Both
/// are pure functions of the key and the legs, so reprocessing a key
/// with unchanged inputs rewrites byte-identical content.
pub fn etl_load(v: SchemaVersion, key: &PartitionKey, legs: &Vec<Leg>) -> (r: (Vec<u8>, Vec<u8>))
    requires
        key.valid(),
        forall|i: int| 0 <= i < legs@.len() ==> leg_valid(#[trigger] legs@[i]),
    ensures
        r.0@ == encode_model(v, key@),
        r.1@ == blob_model(partition_rows(key@.entity, legs@)),
{
    let path = encode(v, key);
    let records = transform(&key.entity, legs);
    proof {
        assert(rec_models(records@) =~= partition_rows(key@.entity, legs@));
        assert forall|i: int| 0 <= i < records@.len() implies crate::records::record_valid(
            #[trigger] rec_models(records@)[i],
        ) by {
            assert(rec_models(records@)[i] == (RecordModel {
                entity: key@.entity,
                leg: legs@[i],
            }));
        }
    }
    let blob = serialize_partition(&records);
    (path, blob)
}

} // verus!
