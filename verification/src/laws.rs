use vstd::prelude::*;
use crate::digest::blake3_of;
use crate::record::framed_len;
use crate::record::parse_records;
use crate::record::record_map;
use crate::store::get_outcome;
use crate::store::index_after_get;
use crate::store::lemma_unvalidated_index_shape;
use crate::store::load_index;
use crate::store::payload_map;
use crate::store::EntryModel;
use crate::store::GetOutcome;
use crate::store::ValidationState;

verus! {

/// Round trip: inserting a blob validated under its own digest makes a
/// lookup of that digest yield exactly the blob's bytes, with nothing left
/// to check.
pub proof fn lemma_insert_get_round_trip(index: Map<Seq<u8>, EntryModel>, b: Seq<u8>)
    ensures
        ({
            let h = blake3_of(b);
            let idx2 = index.insert(
                h,
                EntryModel { payload: b, state: ValidationState::Validated },
            );
            &&& get_outcome(idx2, h) == GetOutcome::Present(b)
            &&& index_after_get(idx2, h) == idx2
        }),
{
}

/// Content addressing: equal blobs share one digest, and inserting the same
/// content twice leaves a single logical index entry, the later insert
/// winning.
pub proof fn lemma_content_addressing(index: Map<Seq<u8>, EntryModel>, b1: Seq<u8>, b2: Seq<u8>)
    requires
        b1 == b2,
    ensures
        blake3_of(b1) == blake3_of(b2),
        ({
            let e1 = EntryModel { payload: b1, state: ValidationState::Validated };
            let e2 = EntryModel { payload: b2, state: ValidationState::Validated };
            &&& index.insert(blake3_of(b1), e1).insert(blake3_of(b2), e2) == index.insert(
                blake3_of(b2),
                e2,
            )
            &&& index.insert(blake3_of(b1), e1).insert(blake3_of(b2), e2).dom()
                == index.dom().insert(blake3_of(b1))
        }),
{
    let e1 = EntryModel { payload: b1, state: ValidationState::Validated };
    let e2 = EntryModel { payload: b2, state: ValidationState::Validated };
    assert(index.insert(blake3_of(b1), e1).insert(blake3_of(b2), e2) =~= index.insert(
        blake3_of(b2),
        e2,
    ));
    assert(index.insert(blake3_of(b1), e1).insert(blake3_of(b2), e2).dom()
        =~= index.dom().insert(blake3_of(b1)));
}

/// Persistence: reloading stored bytes that parse cleanly yields an index
/// that returns, for every digest whose entry's payload hashes back to it,
/// those same payload bytes.
pub proof fn lemma_reload_round_trip(
    content: Seq<u8>,
    index: Map<Seq<u8>, EntryModel>,
    h: Seq<u8>,
)
    requires
        parse_records(content) is Parsed,
        payload_map(index) == record_map(parse_records(content)->Parsed_0),
        index.contains_key(h),
        blake3_of(index[h].payload) == h,
    ensures
        get_outcome(load_index(content), h) == GetOutcome::Present(index[h].payload),
{
    let rs = parse_records(content)->Parsed_0;
    lemma_unvalidated_index_shape(rs);
    assert(payload_map(index).dom() =~= index.dom());
    assert(payload_map(load_index(content)).dom() =~= load_index(content).dom());
    assert(load_index(content).contains_key(h));
    assert(load_index(content)[h].payload == payload_map(load_index(content))[h]);
    assert(payload_map(index)[h] == index[h].payload);
}

/// Validation laziness: every entry of a freshly loaded index is
/// unvalidated; a lookup settles an entry's state, and later lookups return
/// the same outcome with no further digest check pending.
pub proof fn lemma_lazy_validation(
    content: Seq<u8>,
    index: Map<Seq<u8>, EntryModel>,
    h: Seq<u8>,
)
    requires
        parse_records(content) is Parsed,
    ensures
        forall|g: Seq<u8>|
            load_index(content).contains_key(g) ==> (#[trigger] load_index(content)[g]).state
                is Unvalidated,
        get_outcome(index_after_get(index, h), h) == get_outcome(index, h),
        index_after_get(index_after_get(index, h), h) == index_after_get(index, h),
        index.contains_key(h) ==> !(index_after_get(index, h)[h].state is Unvalidated),
{
    lemma_unvalidated_index_shape(parse_records(content)->Parsed_0);
}

/// Poisoning: an unvalidated insert under a digest that does not match the
/// blob makes every later lookup of that digest fail with the offending
/// bytes, the first check settling the entry to `Invalid` for good.
pub proof fn lemma_poisoning(index: Map<Seq<u8>, EntryModel>, h: Seq<u8>, b: Seq<u8>)
    requires
        blake3_of(b) != h,
    ensures
        ({
            let idx2 = index.insert(
                h,
                EntryModel { payload: b, state: ValidationState::Unvalidated },
            );
            let idx3 = index_after_get(idx2, h);
            &&& get_outcome(idx2, h) == GetOutcome::Poisoned(b)
            &&& idx3 == idx2.insert(
                h,
                EntryModel { payload: b, state: ValidationState::Invalid },
            )
            &&& get_outcome(idx3, h) == GetOutcome::Poisoned(b)
            &&& index_after_get(idx3, h) == idx3
        }),
{
}

/// A zero-length blob still occupies one full 128-byte record on disk:
/// the 64-byte header and 64 bytes of padding.
pub proof fn lemma_empty_blob_frame()
    ensures
        framed_len(0) == 128,
{
}

} // verus!
