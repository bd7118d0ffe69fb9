use vstd::prelude::*;
use vstd::slice::slice_subrange;
use vstd::slice::slice_to_vec;
use crate::digest::blake3_of;
use crate::digest::blob_digest;
use crate::errors::GetError;
use crate::errors::InsertError;
use crate::errors::LoadError;
use crate::record::bytes_eq;
use crate::record::framed_len;
use crate::record::padding_len;
use crate::record::parse_records;
use crate::record::read_length_field;
use crate::record::record_map;
use crate::record::ParseResult;
use crate::record::Record;
use crate::record::MAGIC_MARKER;

verus! {

/// Whether an indexed payload has been checked against its digest.
#[derive(Clone, Copy, Debug, PartialEq, Eq, Structural)]
pub enum ValidationState {
    /// Not yet checked; the first lookup will check it.
    Unvalidated,
    /// Checked, and the payload hashes to the entry's digest.
    Validated,
    /// Checked, and the payload does not hash to the entry's digest.
    Invalid,
}

/// One index entry as the contracts see it: the payload bytes the entry
/// resolves to, and its validation state.
pub struct EntryModel {
    pub payload: Seq<u8>,
    pub state: ValidationState,
}

/// The pile as the contracts see it: the stored bytes, the size bound, and
/// the digest-keyed index.
pub struct PileView {
    pub content: Seq<u8>,
    pub max_size: nat,
    pub index: Map<Seq<u8>, EntryModel>,
}

/// The digest-to-payload projection of an index.
pub open spec fn payload_map(index: Map<Seq<u8>, EntryModel>) -> Map<Seq<u8>, Seq<u8>> {
    index.map_values(|e: EntryModel| e.payload)
}

/// The index that a freshly loaded sequence of records induces: each digest
/// resolves to the payload of its last record, not yet validated.
pub open spec fn unvalidated_index(rs: Seq<Record>) -> Map<Seq<u8>, EntryModel>
    decreases rs.len(),
{
    if rs.len() == 0 {
        Map::empty()
    } else {
        unvalidated_index(rs.drop_last()).insert(
            rs.last().hash,
            EntryModel { payload: rs.last().payload, state: ValidationState::Unvalidated },
        )
    }
}

/// The index built by loading `data`, when `data` parses cleanly.
pub open spec fn load_index(data: Seq<u8>) -> Map<Seq<u8>, EntryModel>
    recommends
        parse_records(data) is Parsed,
{
    unvalidated_index(parse_records(data)->Parsed_0)
}

/// What a lookup of digest `h` yields.
pub enum GetOutcome {
    /// The digest is not indexed.
    Absent,
    /// The digest resolves to these payload bytes.
    Present(Seq<u8>),
    /// The digest resolves to an entry whose payload does not hash to it.
    Poisoned(Seq<u8>),
}

/// The result a lookup of `h` in `index` must produce.
pub open spec fn get_outcome(index: Map<Seq<u8>, EntryModel>, h: Seq<u8>) -> GetOutcome {
    if !index.contains_key(h) {
        GetOutcome::Absent
    } else {
        let e = index[h];
        match e.state {
            ValidationState::Validated => GetOutcome::Present(e.payload),
            ValidationState::Invalid => GetOutcome::Poisoned(e.payload),
            ValidationState::Unvalidated => if blake3_of(e.payload) == h {
                GetOutcome::Present(e.payload)
            } else {
                GetOutcome::Poisoned(e.payload)
            },
        }
    }
}

/// The index after a lookup of `h`: an unvalidated entry settles to
/// `Validated` or `Invalid` according to its digest check; nothing else
/// changes.
pub open spec fn index_after_get(index: Map<Seq<u8>, EntryModel>, h: Seq<u8>) -> Map<
    Seq<u8>,
    EntryModel,
> {
    if index.contains_key(h) && index[h].state is Unvalidated {
        if blake3_of(index[h].payload) == h {
            index.insert(h, EntryModel { payload: index[h].payload, state: ValidationState::Validated })
        } else {
            index.insert(h, EntryModel { payload: index[h].payload, state: ValidationState::Invalid })
        }
    } else {
        index
    }
}

/// The index and stored length that a run of validated inserts leaves
/// behind: each blob whose framed record fits is appended and indexed under
/// its digest; one that does not fit changes nothing, and the run goes on.
pub open spec fn run_inserts(
    index: Map<Seq<u8>, EntryModel>,
    len: nat,
    max: nat,
    items: Seq<Seq<u8>>,
) -> (Map<Seq<u8>, EntryModel>, nat)
    decreases items.len(),
{
    if items.len() == 0 {
        (index, len)
    } else {
        let (idx1, len1) = run_inserts(index, len, max, items.drop_last());
        let b = items.last();
        if len1 + framed_len(b.len()) <= max {
            (
                idx1.insert(
                    blake3_of(b),
                    EntryModel { payload: b, state: ValidationState::Validated },
                ),
                len1 + framed_len(b.len()),
            )
        } else {
            (idx1, len1)
        }
    }
}

/// As `run_inserts`, for unvalidated pairs of a claimed digest and a blob:
/// each pair that fits is appended and indexed under the claimed digest,
/// not yet validated.
pub open spec fn run_unvalidated_inserts(
    index: Map<Seq<u8>, EntryModel>,
    len: nat,
    max: nat,
    items: Seq<(Seq<u8>, Seq<u8>)>,
) -> (Map<Seq<u8>, EntryModel>, nat)
    decreases items.len(),
{
    if items.len() == 0 {
        (index, len)
    } else {
        let (idx1, len1) = run_unvalidated_inserts(index, len, max, items.drop_last());
        let (h, b) = items.last();
        if len1 + framed_len(b.len()) <= max {
            (
                idx1.insert(h, EntryModel { payload: b, state: ValidationState::Unvalidated }),
                len1 + framed_len(b.len()),
            )
        } else {
            (idx1, len1)
        }
    }
}

/// An index slot: the digest, the payload's range within the stored bytes,
/// and the validation state. The range stands for the zero-copy view the
/// entry keeps into the mapped file.
struct IndexSlot {
    hash: Vec<u8>,
    offset: usize,
    length: usize,
    state: ValidationState,
}

/// The entry a slot denotes, reading its payload range out of `content`.
spec fn slot_entry(content: Seq<u8>, s: IndexSlot) -> EntryModel {
    EntryModel {
        payload: content.subrange(s.offset as int, s.offset + s.length),
        state: s.state,
    }
}

/// The digest-keyed map a slot sequence denotes; a later slot with the same
/// digest supersedes an earlier one.
spec fn slots_map(content: Seq<u8>, slots: Seq<IndexSlot>) -> Map<Seq<u8>, EntryModel>
    decreases slots.len(),
{
    if slots.len() == 0 {
        Map::empty()
    } else {
        slots_map(content, slots.drop_last()).insert(
            slots.last().hash@,
            slot_entry(content, slots.last()),
        )
    }
}

/// A slot is well formed: a 32-byte digest, a payload range inside the
/// stored bytes, and a state that is truthful about the digest check.
spec fn slot_wf(content: Seq<u8>, s: IndexSlot) -> bool {
    &&& s.hash@.len() == 32
    &&& s.offset + s.length <= content.len()
    &&& (s.state is Validated ==> blake3_of(slot_entry(content, s).payload) == s.hash@)
    &&& (s.state is Invalid ==> blake3_of(slot_entry(content, s).payload) != s.hash@)
}

/// The content-addressed, append-only blob store over one framed byte log.
pub struct Pile {
    data: Vec<u8>,
    max_size: usize,
    slots: Vec<IndexSlot>,
}

impl View for Pile {
    type V = PileView;

    closed spec fn view(&self) -> PileView {
        PileView {
            content: self.data@,
            max_size: self.max_size as nat,
            index: slots_map(self.data@, self.slots@),
        }
    }
}

// ---------------------------------------------------------------------------
// Facts about the slot-sequence fold.
// ---------------------------------------------------------------------------

/// A digest carried by no slot is not in the map.
proof fn lemma_slots_map_no_match(content: Seq<u8>, slots: Seq<IndexSlot>, h: Seq<u8>)
    requires
        forall|k: int| 0 <= k < slots.len() ==> (#[trigger] slots[k]).hash@ != h,
    ensures
        !slots_map(content, slots).contains_key(h),
    decreases slots.len(),
{
    if slots.len() > 0 {
        lemma_slots_map_no_match(content, slots.drop_last(), h);
    }
}

/// The map resolves a digest to the entry of its last carrying slot.
proof fn lemma_slots_map_last_match(content: Seq<u8>, slots: Seq<IndexSlot>, j: int)
    requires
        0 <= j < slots.len(),
        forall|k: int| j < k < slots.len() ==> (#[trigger] slots[k]).hash@ != slots[j].hash@,
    ensures
        slots_map(content, slots).contains_key(slots[j].hash@),
        slots_map(content, slots)[slots[j].hash@] == slot_entry(content, slots[j]),
    decreases slots.len(),
{
    if j == slots.len() - 1 {
    } else {
        lemma_slots_map_last_match(content, slots.drop_last(), j);
    }
}

/// Replacing the last slot that carries a digest rewrites exactly that
/// digest's entry in the map.
proof fn lemma_slots_map_update(content: Seq<u8>, slots: Seq<IndexSlot>, j: int, s2: IndexSlot)
    requires
        0 <= j < slots.len(),
        s2.hash@ == slots[j].hash@,
        forall|k: int| j < k < slots.len() ==> (#[trigger] slots[k]).hash@ != slots[j].hash@,
    ensures
        slots_map(content, slots.update(j, s2)) == slots_map(content, slots).insert(
            s2.hash@,
            slot_entry(content, s2),
        ),
    decreases slots.len(),
{
    let upd = slots.update(j, s2);
    if j == slots.len() - 1 {
        assert(upd.drop_last() =~= slots.drop_last());
        assert(upd.last() == s2);
        assert(slots_map(content, upd) == slots_map(content, slots.drop_last()).insert(
            s2.hash@,
            slot_entry(content, s2),
        ));
        assert(slots_map(content, slots.drop_last()).insert(
            s2.hash@,
            slot_entry(content, s2),
        ) =~= slots_map(content, slots).insert(s2.hash@, slot_entry(content, s2)));
    } else {
        assert(upd.drop_last() =~= slots.drop_last().update(j, s2));
        assert(upd.last() == slots.last());
        lemma_slots_map_update(content, slots.drop_last(), j, s2);
        assert(slots.last().hash@ != s2.hash@);
        assert(slots_map(content, slots.drop_last()).insert(s2.hash@, slot_entry(content, s2))
            .insert(slots.last().hash@, slot_entry(content, slots.last())) =~= slots_map(
            content,
            slots,
        ).insert(s2.hash@, slot_entry(content, s2)));
    }
}

/// Growing the stored bytes does not disturb entries whose ranges lie
/// within the old length.
proof fn lemma_slots_map_grow(c1: Seq<u8>, c2: Seq<u8>, slots: Seq<IndexSlot>)
    requires
        c1.len() <= c2.len(),
        forall|i: int| 0 <= i < c1.len() ==> c1[i] == c2[i],
        forall|k: int| 0 <= k < slots.len()
            ==> (#[trigger] slots[k]).offset + slots[k].length <= c1.len(),
    ensures
        slots_map(c2, slots) == slots_map(c1, slots),
    decreases slots.len(),
{
    if slots.len() > 0 {
        lemma_slots_map_grow(c1, c2, slots.drop_last());
        let s = slots.last();
        assert(c2.subrange(s.offset as int, s.offset + s.length) =~= c1.subrange(
            s.offset as int,
            s.offset + s.length,
        ));
        assert(slot_entry(c2, s) == slot_entry(c1, s));
    }
}

/// The truthfulness of slot states carries over to the map: a validated
/// entry hashes to its key, an invalid one does not.
proof fn lemma_slots_map_states(content: Seq<u8>, slots: Seq<IndexSlot>, h: Seq<u8>)
    requires
        forall|k: int| 0 <= k < slots.len() ==> slot_wf(content, #[trigger] slots[k]),
        slots_map(content, slots).contains_key(h),
    ensures
        ({
            let e = slots_map(content, slots)[h];
            &&& (e.state is Validated ==> blake3_of(e.payload) == h)
            &&& (e.state is Invalid ==> blake3_of(e.payload) != h)
        }),
    decreases slots.len(),
{
    if slots.len() > 0 && slots.last().hash@ != h {
        lemma_slots_map_states(content, slots.drop_last(), h);
    }
}

/// Projecting an index to payloads commutes with inserting an entry.
proof fn lemma_payload_map_insert(index: Map<Seq<u8>, EntryModel>, h: Seq<u8>, e: EntryModel)
    ensures
        payload_map(index.insert(h, e)) == payload_map(index).insert(h, e.payload),
{
    assert(payload_map(index.insert(h, e)) =~= payload_map(index).insert(h, e.payload));
}

/// Parsing the remainder of a walk, with the records already walked in
/// front: the shape every intermediate state of a load has.
spec fn parse_cont(prefix: Seq<Record>, rest: Seq<u8>) -> ParseResult {
    match parse_records(rest) {
        ParseResult::Parsed(rs) => ParseResult::Parsed(prefix + rs),
        e => e,
    }
}

/// Two 64-byte-aligned positions with room between them are at least one
/// frame apart.
proof fn lemma_aligned_gap(len: int, off: int)
    requires
        0 <= off < len,
        len % 64 == 0,
        off % 64 == 0,
    ensures
        off + 64 <= len,
{
}

/// A frame always occupies a positive multiple of 64 bytes, at least 128.
proof fn lemma_framed_shape(l: nat)
    ensures
        framed_len(l) % 64 == 0,
        128 <= framed_len(l) <= l + 128,
{
}

/// A freshly loaded record sequence indexes every digest to its last
/// payload, all entries unvalidated.
pub proof fn lemma_unvalidated_index_shape(rs: Seq<Record>)
    ensures
        payload_map(unvalidated_index(rs)) == record_map(rs),
        forall|h: Seq<u8>| unvalidated_index(rs).contains_key(h)
            ==> (#[trigger] unvalidated_index(rs)[h]).state is Unvalidated,
    decreases rs.len(),
{
    if rs.len() == 0 {
        assert(payload_map(unvalidated_index(rs)) =~= record_map(rs));
    } else {
        lemma_unvalidated_index_shape(rs.drop_last());
        lemma_payload_map_insert(
            unvalidated_index(rs.drop_last()),
            rs.last().hash,
            EntryModel { payload: rs.last().payload, state: ValidationState::Unvalidated },
        );
        assert(payload_map(unvalidated_index(rs)) =~= record_map(rs));
    }
}

impl Pile {
    /// The store's invariant: the bytes are 64-byte framed and within the
    /// size bound, they parse cleanly into records, every slot points inside
    /// the bytes with a truthful state, and the index agrees with the
    /// records on disk.
    pub closed spec fn wf(&self) -> bool {
        &&& self.data@.len() <= self.max_size
        &&& self.data@.len() % 64 == 0
        &&& parse_records(self.data@) is Parsed
        &&& forall|k: int|
            0 <= k < self.slots@.len() ==> slot_wf(self.data@, #[trigger] self.slots@[k])
        &&& payload_map(slots_map(self.data@, self.slots@)) == record_map(
            parse_records(self.data@)->Parsed_0,
        )
    }

    /// The invariant, restated over the public view: the stored bytes stay
    /// framed and bounded, they parse into records, the index's payloads are
    /// exactly what the records carry, and every settled entry is truthful
    /// about its digest check.
    pub proof fn lemma_view_invariants(&self)
        requires
            self.wf(),
        ensures
            self@.content.len() <= self@.max_size,
            self@.content.len() % 64 == 0,
            parse_records(self@.content) is Parsed,
            payload_map(self@.index) == record_map(parse_records(self@.content)->Parsed_0),
            forall|h: Seq<u8>|
                self@.index.contains_key(h) ==> ({
                    let e = #[trigger] self@.index[h];
                    &&& (e.state is Validated ==> blake3_of(e.payload) == h)
                    &&& (e.state is Invalid ==> blake3_of(e.payload) != h)
                }),
    {
        assert forall|h: Seq<u8>| self@.index.contains_key(h) implies ({
            let e = #[trigger] self@.index[h];
            &&& (e.state is Validated ==> blake3_of(e.payload) == h)
            &&& (e.state is Invalid ==> blake3_of(e.payload) != h)
        }) by {
            lemma_slots_map_states(self.data@, self.slots@, h);
        }
    }

    /// Persistence: for any digest whose entry's payload hashes back to it,
    /// reloading this store's bytes yields a pile whose lookup of that
    /// digest returns those same payload bytes.
    pub proof fn lemma_persistence(&self, h: Seq<u8>)
        requires
            self.wf(),
            self@.index.contains_key(h),
            blake3_of(self@.index[h].payload) == h,
        ensures
            get_outcome(load_index(self@.content), h) == GetOutcome::Present(
                self@.index[h].payload,
            ),
    {
        self.lemma_view_invariants();
        crate::laws::lemma_reload_round_trip(self@.content, self@.index, h);
    }

    /// Opens a pile over its stored bytes: checks the size bound and the
    /// 64-byte framing, then walks the records and indexes each digest to
    /// its last payload, every entry unvalidated. No digest is verified
    /// here; the first lookup of each entry will do that.
    pub fn load(data: Vec<u8>, max_size: usize) -> (r: Result<Pile, LoadError>)
        ensures
            match r {
                Ok(pile) => {
                    &&& pile.wf()
                    &&& pile@.content == data@
                    &&& pile@.max_size == max_size as nat
                    &&& data@.len() <= max_size
                    &&& data@.len() % 64 == 0
                    &&& parse_records(data@) is Parsed
                    &&& pile@.index == load_index(data@)
                },
                Err(e) => match e {
                    LoadError::PileTooLarge => data@.len() > max_size,
                    LoadError::FileLengthError => data@.len() <= max_size && data@.len() % 64
                        != 0,
                    LoadError::MagicMarkerError => data@.len() <= max_size && data@.len() % 64
                        == 0 && parse_records(data@) is BadMagic,
                    LoadError::UnexpectedEndOfFile => data@.len() <= max_size && data@.len() % 64
                        == 0 && parse_records(data@) is Truncated,
                    _ => false,
                },
            },
    {
        if data.len() > max_size {
            return Err(LoadError::PileTooLarge);
        }
        if data.len() % 64 != 0 {
            return Err(LoadError::FileLengthError);
        }
        let mut slots: Vec<IndexSlot> = Vec::new();
        let mut off: usize = 0;
        let ghost mut recs: Seq<Record> = Seq::empty();
        proof {
            assert(data@.skip(0) =~= data@);
        }
        while off < data.len()
            invariant
                off <= data@.len(),
                off % 64 == 0,
                data@.len() % 64 == 0,
                data@.len() <= max_size,
                parse_cont(recs, data@.skip(off as int)) == parse_records(data@),
                forall|k: int|
                    0 <= k < slots@.len() ==> ({
                        let s = #[trigger] slots@[k];
                        &&& s.hash@.len() == 32
                        &&& s.offset + s.length <= off
                        &&& s.state is Unvalidated
                    }),
                slots_map(data@, slots@) == unvalidated_index(recs),
            decreases data@.len() - off,
        {
            proof {
                lemma_aligned_gap(data@.len() as int, off as int);
            }
            let rest_len = data.len() - off;
            let magic = slice_subrange(data.as_slice(), off, off + 16);
            if !bytes_eq(magic, MAGIC_MARKER.as_slice()) {
                proof {
                    assert(data@.skip(off as int).subrange(0, 16) =~= data@.subrange(
                        off as int,
                        off + 16,
                    ));
                    assert(parse_records(data@.skip(off as int)) is BadMagic);
                }
                return Err(LoadError::MagicMarkerError);
            }
            let length_u64 = read_length_field(&data, off);
            let remaining = data.len() - off - 64;
            proof {
                assert(data@.skip(off as int).subrange(24, 32) =~= data@.subrange(
                    off + 24,
                    off + 32,
                ));
                assert(data@.skip(off as int).subrange(0, 16) =~= data@.subrange(
                    off as int,
                    off + 16,
                ));
            }
            if (remaining as u64) < length_u64 {
                proof {
                    assert(parse_records(data@.skip(off as int)) is Truncated);
                }
                return Err(LoadError::UnexpectedEndOfFile);
            }
            let length = length_u64 as usize;
            let pad = padding_len(length);
            if remaining - length < pad {
                proof {
                    assert(parse_records(data@.skip(off as int)) is Truncated);
                }
                return Err(LoadError::UnexpectedEndOfFile);
            }
            let hash_vec = slice_to_vec(slice_subrange(data.as_slice(), off + 32, off + 64));
            let ghost old_slots = slots@;
            let slot = IndexSlot {
                hash: hash_vec,
                offset: off + 64,
                length,
                state: ValidationState::Unvalidated,
            };
            slots.push(slot);
            proof {
                let rest = data@.skip(off as int);
                let l = length as nat;
                let fl = framed_len(l) as int;
                lemma_framed_shape(l);
                assert(rest.subrange(32, 64) =~= data@.subrange(off + 32, off + 64));
                assert(rest.subrange(64, 64 + l as int) =~= data@.subrange(
                    off + 64,
                    off + 64 + l,
                ));
                let rec = Record {
                    hash: data@.subrange(off + 32, off + 64),
                    payload: data@.subrange(off + 64, off + 64 + l),
                };
                assert(rest.skip(fl) =~= data@.skip(off + fl));
                assert(parse_records(rest) == (match parse_records(rest.skip(fl)) {
                    ParseResult::Parsed(tail) => ParseResult::Parsed(seq![rec] + tail),
                    e => e,
                }));
                match parse_records(data@.skip(off + fl)) {
                    ParseResult::Parsed(tail) => {
                        assert(recs + (seq![rec] + tail) =~= recs.push(rec) + tail);
                        assert(parse_cont(recs.push(rec), data@.skip(off + fl))
                            == parse_records(data@));
                    },
                    _ => {
                        assert(parse_cont(recs.push(rec), data@.skip(off + fl))
                            == parse_records(data@));
                    },
                }
                assert(slots@.drop_last() =~= old_slots);
                assert(recs.push(rec).drop_last() =~= recs);
                assert(slot_entry(data@, slot).payload == rec.payload);
                assert(slots_map(data@, slots@) == unvalidated_index(recs.push(rec)));
                recs = recs.push(rec);
            }
            off = off + 64 + length + pad;
        }
        proof {
            assert(data@.skip(data@.len() as int) =~= Seq::<u8>::empty());
            assert(parse_records(data@.skip(off as int)) == ParseResult::Parsed(
                Seq::<Record>::empty(),
            ));
            assert(recs + Seq::<Record>::empty() =~= recs);
            assert(parse_records(data@) == ParseResult::Parsed(recs));
            lemma_unvalidated_index_shape(recs);
        }
        Ok(Pile { data, max_size, slots })
    }

    /// Appends one framed record and indexes its digest, under the file
    /// lock's single-writer discipline. The caller fixes the digest and the
    /// entry's initial state; a `Validated` state is only ever handed in
    /// together with a digest that is truthful for the payload.
    fn insert_raw(&mut self, hash: [u8; 32], state: ValidationState, value: &Vec<u8>) -> (r:
        Result<(), InsertError>)
        requires
            old(self).wf(),
            state is Validated ==> blake3_of(value@) == hash@,
            !(state is Invalid),
        ensures
            final(self).wf(),
            final(self)@.max_size == old(self)@.max_size,
            if old(self)@.content.len() + framed_len(value@.len()) <= old(self)@.max_size {
                &&& r is Ok
                &&& final(self)@.content.len() == old(self)@.content.len() + framed_len(
                    value@.len(),
                )
                &&& final(self)@.content.len() % 64 == 0
                &&& parse_records(final(self)@.content) == ParseResult::Parsed(
                    parse_records(old(self)@.content)->Parsed_0.push(
                        Record { hash: hash@, payload: value@ },
                    ),
                )
                &&& final(self)@.index == old(self)@.index.insert(
                    hash@,
                    EntryModel { payload: value@, state },
                )
            } else {
                &&& r matches Err(InsertError::PileTooLarge)
                &&& *final(self) == *old(self)
            },
    {
        let len = value.len();
        let pad = padding_len(len);
        let avail = self.max_size - self.data.len();
        if avail < 64 || avail - 64 < len || avail - 64 - len < pad {
            return Err(InsertError::PileTooLarge);
        }
        let old_len = self.data.len();
        let ts = crate::clock::now_millis();
        let header = crate::record::Header::new(ts, len as u64, hash);
        let mut rec = crate::record::encode_record(&header, value);
        let ghost rec_bytes = rec@;
        let ghost old_data = self.data@;
        let ghost old_slots = self.slots@;
        self.data.append(&mut rec);
        let slot = IndexSlot {
            hash: slice_to_vec(hash.as_slice()),
            offset: old_len + 64,
            length: len,
            state,
        };
        self.slots.push(slot);
        proof {
            let l = len as nat;
            lemma_framed_shape(l);
            crate::record::lemma_parse_concat(old_data, rec_bytes);
            let old_rs = parse_records(old_data)->Parsed_0;
            let rec_model = Record { hash: hash@, payload: value@ };
            assert(old_rs + seq![rec_model] =~= old_rs.push(rec_model));
            // The freshly written payload region reads back as the value.
            let rs_one = parse_records(rec_bytes)->Parsed_0;
            assert(rs_one[0].payload == value@);
            let lf = vstd::bytes::spec_u64_from_le_bytes(rec_bytes.subrange(24, 32)) as nat;
            assert(rec_bytes.len() >= 128);
            assert(parse_records(rec_bytes) is Parsed);
            assert(rs_one[0].payload == rec_bytes.subrange(64, 64 + lf as int));
            assert(lf == l);
            assert(rec_bytes.subrange(64, 64 + l as int) == value@);
            assert(self.data@.subrange(old_len + 64, old_len + 64 + l as int) =~= rec_bytes
                .subrange(64, 64 + l as int));
            assert(slot_entry(self.data@, self.slots@.last()).payload == value@);
            // Old slots keep their entries under the grown bytes.
            lemma_slots_map_grow(old_data, self.data@, old_slots);
            assert(self.slots@.drop_last() =~= old_slots);
            assert(slots_map(self.data@, self.slots@) == slots_map(old_data, old_slots).insert(
                hash@,
                EntryModel { payload: value@, state },
            ));
            lemma_payload_map_insert(
                slots_map(old_data, old_slots),
                hash@,
                EntryModel { payload: value@, state },
            );
            // The record fold extends the same way.
            assert(old_rs.push(rec_model).drop_last() =~= old_rs);
            assert(record_map(old_rs.push(rec_model)) == record_map(old_rs).insert(
                hash@,
                value@,
            ));
            // Every slot stays well formed under the grown bytes.
            assert forall|k: int| 0 <= k < self.slots@.len() implies slot_wf(
                self.data@,
                #[trigger] self.slots@[k],
            ) by {
                if k < old_slots.len() {
                    let s = old_slots[k];
                    assert(slot_wf(old_data, s));
                    assert(self.data@.subrange(s.offset as int, s.offset + s.length)
                        =~= old_data.subrange(s.offset as int, s.offset + s.length));
                } else {
                    assert(self.slots@[k] == self.slots@.last());
                }
            }
            assert(self.data@.len() % 64 == 0);
        }
        Ok(())
    }

    /// Computes the digest of `value`, appends the blob validated under it,
    /// and returns the digest: the content address of the blob.
    pub fn insert(&mut self, value: &Vec<u8>) -> (r: Result<[u8; 32], InsertError>)
        requires
            old(self).wf(),
        ensures
            final(self).wf(),
            final(self)@.max_size == old(self)@.max_size,
            if old(self)@.content.len() + framed_len(value@.len()) <= old(self)@.max_size {
                &&& r matches Ok(h) && h@ == blake3_of(value@)
                &&& final(self)@.content.len() == old(self)@.content.len() + framed_len(
                    value@.len(),
                )
                &&& final(self)@.content.len() % 64 == 0
                &&& parse_records(final(self)@.content) == ParseResult::Parsed(
                    parse_records(old(self)@.content)->Parsed_0.push(
                        Record { hash: blake3_of(value@), payload: value@ },
                    ),
                )
                &&& final(self)@.index == old(self)@.index.insert(
                    blake3_of(value@),
                    EntryModel { payload: value@, state: ValidationState::Validated },
                )
            } else {
                &&& r matches Err(InsertError::PileTooLarge)
                &&& *final(self) == *old(self)
            },
    {
        let hash = blob_digest(value.as_slice());
        match self.insert_validated(hash, value) {
            Ok(_) => Ok(hash),
            Err(e) => Err(e),
        }
    }

    /// Appends a blob under a digest the caller has already computed and
    /// vouches for, and returns the stored payload bytes.
    pub fn insert_validated(&mut self, hash: [u8; 32], value: &Vec<u8>) -> (r: Result<
        Vec<u8>,
        InsertError,
    >)
        requires
            old(self).wf(),
            hash@ == blake3_of(value@),
        ensures
            final(self).wf(),
            final(self)@.max_size == old(self)@.max_size,
            if old(self)@.content.len() + framed_len(value@.len()) <= old(self)@.max_size {
                &&& r matches Ok(v) && v@ == value@
                &&& final(self)@.content.len() == old(self)@.content.len() + framed_len(
                    value@.len(),
                )
                &&& final(self)@.content.len() % 64 == 0
                &&& parse_records(final(self)@.content) == ParseResult::Parsed(
                    parse_records(old(self)@.content)->Parsed_0.push(
                        Record { hash: hash@, payload: value@ },
                    ),
                )
                &&& final(self)@.index == old(self)@.index.insert(
                    hash@,
                    EntryModel { payload: value@, state: ValidationState::Validated },
                )
            } else {
                &&& r matches Err(InsertError::PileTooLarge)
                &&& *final(self) == *old(self)
            },
    {
        match self.insert_raw(hash, ValidationState::Validated, value) {
            Ok(()) => Ok(slice_to_vec(value.as_slice())),
            Err(e) => Err(e),
        }
    }

    /// Appends a blob under a digest the caller asserts without the store
    /// checking it; the first lookup of that digest will check. Returns the
    /// stored payload bytes.
    pub fn insert_unvalidated(&mut self, hash: [u8; 32], value: &Vec<u8>) -> (r: Result<
        Vec<u8>,
        InsertError,
    >)
        requires
            old(self).wf(),
        ensures
            final(self).wf(),
            final(self)@.max_size == old(self)@.max_size,
            if old(self)@.content.len() + framed_len(value@.len()) <= old(self)@.max_size {
                &&& r matches Ok(v) && v@ == value@
                &&& final(self)@.content.len() == old(self)@.content.len() + framed_len(
                    value@.len(),
                )
                &&& final(self)@.content.len() % 64 == 0
                &&& parse_records(final(self)@.content) == ParseResult::Parsed(
                    parse_records(old(self)@.content)->Parsed_0.push(
                        Record { hash: hash@, payload: value@ },
                    ),
                )
                &&& final(self)@.index == old(self)@.index.insert(
                    hash@,
                    EntryModel { payload: value@, state: ValidationState::Unvalidated },
                )
            } else {
                &&& r matches Err(InsertError::PileTooLarge)
                &&& *final(self) == *old(self)
            },
    {
        match self.insert_raw(hash, ValidationState::Unvalidated, value) {
            Ok(()) => Ok(slice_to_vec(value.as_slice())),
            Err(e) => Err(e),
        }
    }

    /// Looks up a digest. An unvalidated entry is checked against its digest
    /// on this first access and settles to `Validated` or `Invalid`; a
    /// validated entry is served without re-hashing, and an invalid entry
    /// keeps failing without re-hashing, surfacing the offending bytes.
    pub fn get(&mut self, hash: &[u8; 32]) -> (r: Result<Option<Vec<u8>>, GetError>)
        requires
            old(self).wf(),
        ensures
            final(self).wf(),
            final(self)@.content == old(self)@.content,
            final(self)@.max_size == old(self)@.max_size,
            final(self)@.index == index_after_get(old(self)@.index, hash@),
            match get_outcome(old(self)@.index, hash@) {
                GetOutcome::Absent => r matches Ok(o) && o is None,
                GetOutcome::Present(p) => r matches Ok(Some(v)) && v@ == p,
                GetOutcome::Poisoned(p) => r matches Err(GetError::ValidationError(v)) && v@
                    == p,
            },
            r matches Ok(Some(v)) ==> blake3_of(v@) == hash@,
    {
        let n = self.slots.len();
        let mut j = n;
        while j > 0
            invariant
                j <= n,
                n == self.slots@.len(),
                *self == *old(self),
                old(self).wf(),
                forall|k: int| j <= k < n ==> (#[trigger] self.slots@[k]).hash@ != hash@,
            decreases j,
        {
            let jj = j - 1;
            if bytes_eq(self.slots[jj].hash.as_slice(), hash.as_slice()) {
                proof {
                    lemma_slots_map_last_match(self.data@, self.slots@, jj as int);
                    lemma_slots_map_states(self.data@, self.slots@, hash@);
                }
                let off = self.slots[jj].offset;
                let l = self.slots[jj].length;
                let v = slice_to_vec(slice_subrange(self.data.as_slice(), off, off + l));
                match self.slots[jj].state {
                    ValidationState::Validated => {
                        return Ok(Some(v));
                    },
                    ValidationState::Invalid => {
                        return Err(GetError::ValidationError(v));
                    },
                    ValidationState::Unvalidated => {
                        let computed = blob_digest(v.as_slice());
                        let matches_digest = bytes_eq(computed.as_slice(), hash.as_slice());
                        let ghost old_slots_g = self.slots@;
                        let ghost old_map = slots_map(self.data@, self.slots@);
                        let new_state = if matches_digest {
                            ValidationState::Validated
                        } else {
                            ValidationState::Invalid
                        };
                        self.slots[jj].state = new_state;
                        proof {
                            let s2 = self.slots@[jj as int];
                            assert(self.slots@ =~= old_slots_g.update(jj as int, s2));
                            lemma_slots_map_update(self.data@, old_slots_g, jj as int, s2);
                            let e2 = slot_entry(self.data@, s2);
                            lemma_payload_map_insert(old_map, hash@, e2);
                            assert(payload_map(old_map).insert(hash@, e2.payload)
                                =~= payload_map(old_map));
                            assert forall|k: int| 0 <= k < self.slots@.len() implies slot_wf(
                                self.data@,
                                #[trigger] self.slots@[k],
                            ) by {
                                if k != jj {
                                    assert(self.slots@[k] == old_slots_g[k]);
                                    assert(slot_wf(self.data@, old_slots_g[k]));
                                }
                            }
                        }
                        if matches_digest {
                            return Ok(Some(v));
                        } else {
                            return Err(GetError::ValidationError(v));
                        }
                    },
                }
            }
            j = jj;
        }
        proof {
            lemma_slots_map_no_match(self.data@, self.slots@, hash@);
        }
        Ok(None)
    }

    /// Reports whether a digest is indexed, and in which validation state,
    /// without checking or transitioning anything.
    pub fn entry_state(&self, hash: &[u8; 32]) -> (r: Option<ValidationState>)
        requires
            self.wf(),
        ensures
            match r {
                Some(s) => self@.index.contains_key(hash@) && self@.index[hash@].state == s,
                None => !self@.index.contains_key(hash@),
            },
    {
        let n = self.slots.len();
        let mut j = n;
        while j > 0
            invariant
                j <= n,
                n == self.slots@.len(),
                forall|k: int| j <= k < n ==> (#[trigger] self.slots@[k]).hash@ != hash@,
            decreases j,
        {
            let jj = j - 1;
            if bytes_eq(self.slots[jj].hash.as_slice(), hash.as_slice()) {
                proof {
                    lemma_slots_map_last_match(self.data@, self.slots@, jj as int);
                }
                return Some(self.slots[jj].state);
            }
            j = jj;
        }
        proof {
            lemma_slots_map_no_match(self.data@, self.slots@, hash@);
        }
        None
    }

    /// The stored bytes: the exact content of the pile's backing file.
    pub fn content(&self) -> (r: &Vec<u8>)
        ensures
            r@ == self@.content,
    {
        &self.data
    }

    /// The configured maximum pile size in bytes.
    pub fn max_size(&self) -> (r: usize)
        ensures
            r == self@.max_size,
    {
        self.max_size
    }

    /// Inserts each blob in order, yielding one result per blob. A blob
    /// whose framed record would not fit fails with `PileTooLarge` and
    /// changes nothing; the rest of the batch is still attempted.
    pub fn insert_each(&mut self, items: &Vec<Vec<u8>>) -> (rs: Vec<
        Result<[u8; 32], InsertError>,
    >)
        requires
            old(self).wf(),
        ensures
            final(self).wf(),
            final(self)@.max_size == old(self)@.max_size,
            rs@.len() == items@.len(),
            ({
                let run = run_inserts(
                    old(self)@.index,
                    old(self)@.content.len(),
                    old(self)@.max_size,
                    items@.map_values(|v: Vec<u8>| v@),
                );
                &&& final(self)@.index == run.0
                &&& final(self)@.content.len() == run.1
            }),
            forall|i: int|
                0 <= i < items@.len() ==> ({
                    let pre = run_inserts(
                        old(self)@.index,
                        old(self)@.content.len(),
                        old(self)@.max_size,
                        items@.map_values(|v: Vec<u8>| v@).take(i),
                    );
                    if pre.1 + framed_len(items@[i]@.len()) <= old(self)@.max_size {
                        (#[trigger] rs@[i]) matches Ok(h) && h@ == blake3_of(items@[i]@)
                    } else {
                        rs@[i] matches Err(InsertError::PileTooLarge)
                    }
                }),
    {
        let ghost items_s = items@.map_values(|v: Vec<u8>| v@);
        let mut rs: Vec<Result<[u8; 32], InsertError>> = Vec::new();
        let mut i: usize = 0;
        proof {
            assert(items_s.take(0) =~= Seq::<Seq<u8>>::empty());
        }
        while i < items.len()
            invariant
                i <= items@.len(),
                items_s == items@.map_values(|v: Vec<u8>| v@),
                self.wf(),
                self@.max_size == old(self)@.max_size,
                rs@.len() == i,
                ({
                    let run = run_inserts(
                        old(self)@.index,
                        old(self)@.content.len(),
                        old(self)@.max_size,
                        items_s.take(i as int),
                    );
                    self@.index == run.0 && self@.content.len() == run.1
                }),
                forall|k: int|
                    0 <= k < i ==> ({
                        let pre = run_inserts(
                            old(self)@.index,
                            old(self)@.content.len(),
                            old(self)@.max_size,
                            items_s.take(k),
                        );
                        if pre.1 + framed_len(items_s[k].len()) <= old(self)@.max_size {
                            (#[trigger] rs@[k]) matches Ok(h) && h@ == blake3_of(items_s[k])
                        } else {
                            rs@[k] matches Err(InsertError::PileTooLarge)
                        }
                    }),
            decreases items@.len() - i,
        {
            let r = self.insert(&items[i]);
            proof {
                assert(items_s.take(i + 1).drop_last() =~= items_s.take(i as int));
                assert(items_s.take(i + 1).last() == items_s[i as int]);
            }
            rs.push(r);
            i += 1;
        }
        proof {
            assert(items_s.take(items_s.len() as int) =~= items_s);
        }
        rs
    }

    /// Inserts each blob in order, silently dropping per-element failures:
    /// the batch surface of the store, a thin adapter over `insert_each`.
    pub fn extend_blobs(&mut self, items: &Vec<Vec<u8>>)
        requires
            old(self).wf(),
        ensures
            final(self).wf(),
            final(self)@.max_size == old(self)@.max_size,
            ({
                let run = run_inserts(
                    old(self)@.index,
                    old(self)@.content.len(),
                    old(self)@.max_size,
                    items@.map_values(|v: Vec<u8>| v@),
                );
                &&& final(self)@.index == run.0
                &&& final(self)@.content.len() == run.1
            }),
    {
        let _ = self.insert_each(items);
    }

    /// Inserts each claimed digest and blob pair in order without checking
    /// the digests, yielding one result per pair; each lookup will check
    /// lazily. A pair whose framed record would not fit fails with
    /// `PileTooLarge` and changes nothing; the rest is still attempted.
    pub fn insert_each_unvalidated(&mut self, items: &Vec<([u8; 32], Vec<u8>)>) -> (rs: Vec<
        Result<(), InsertError>,
    >)
        requires
            old(self).wf(),
        ensures
            final(self).wf(),
            final(self)@.max_size == old(self)@.max_size,
            rs@.len() == items@.len(),
            ({
                let run = run_unvalidated_inserts(
                    old(self)@.index,
                    old(self)@.content.len(),
                    old(self)@.max_size,
                    items@.map_values(|p: ([u8; 32], Vec<u8>)| (p.0@, p.1@)),
                );
                &&& final(self)@.index == run.0
                &&& final(self)@.content.len() == run.1
            }),
            forall|i: int|
                0 <= i < items@.len() ==> ({
                    let pre = run_unvalidated_inserts(
                        old(self)@.index,
                        old(self)@.content.len(),
                        old(self)@.max_size,
                        items@.map_values(|p: ([u8; 32], Vec<u8>)| (p.0@, p.1@)).take(i),
                    );
                    if pre.1 + framed_len(items@[i].1@.len()) <= old(self)@.max_size {
                        (#[trigger] rs@[i]) is Ok
                    } else {
                        rs@[i] matches Err(InsertError::PileTooLarge)
                    }
                }),
    {
        let ghost items_s = items@.map_values(|p: ([u8; 32], Vec<u8>)| (p.0@, p.1@));
        let mut rs: Vec<Result<(), InsertError>> = Vec::new();
        let mut i: usize = 0;
        proof {
            assert(items_s.take(0) =~= Seq::<(Seq<u8>, Seq<u8>)>::empty());
        }
        while i < items.len()
            invariant
                i <= items@.len(),
                items_s == items@.map_values(|p: ([u8; 32], Vec<u8>)| (p.0@, p.1@)),
                self.wf(),
                self@.max_size == old(self)@.max_size,
                rs@.len() == i,
                ({
                    let run = run_unvalidated_inserts(
                        old(self)@.index,
                        old(self)@.content.len(),
                        old(self)@.max_size,
                        items_s.take(i as int),
                    );
                    self@.index == run.0 && self@.content.len() == run.1
                }),
                forall|k: int|
                    0 <= k < i ==> ({
                        let pre = run_unvalidated_inserts(
                            old(self)@.index,
                            old(self)@.content.len(),
                            old(self)@.max_size,
                            items_s.take(k),
                        );
                        if pre.1 + framed_len(items_s[k].1.len()) <= old(self)@.max_size {
                            (#[trigger] rs@[k]) is Ok
                        } else {
                            rs@[k] matches Err(InsertError::PileTooLarge)
                        }
                    }),
            decreases items@.len() - i,
        {
            let hash = items[i].0;
            let r = match self.insert_unvalidated(hash, &items[i].1) {
                Ok(_) => Ok(()),
                Err(e) => Err(e),
            };
            proof {
                assert(items_s.take(i + 1).drop_last() =~= items_s.take(i as int));
                assert(items_s.take(i + 1).last() == items_s[i as int]);
            }
            rs.push(r);
            i += 1;
        }
        proof {
            assert(items_s.take(items_s.len() as int) =~= items_s);
        }
        rs
    }

    /// Inserts each claimed digest and blob pair without checking, silently
    /// dropping per-element failures: a thin adapter over
    /// `insert_each_unvalidated`.
    pub fn extend_unvalidated(&mut self, items: &Vec<([u8; 32], Vec<u8>)>)
        requires
            old(self).wf(),
        ensures
            final(self).wf(),
            final(self)@.max_size == old(self)@.max_size,
            ({
                let run = run_unvalidated_inserts(
                    old(self)@.index,
                    old(self)@.content.len(),
                    old(self)@.max_size,
                    items@.map_values(|p: ([u8; 32], Vec<u8>)| (p.0@, p.1@)),
                );
                &&& final(self)@.index == run.0
                &&& final(self)@.content.len() == run.1
            }),
    {
        let _ = self.insert_each_unvalidated(items);
    }
}

} // verus!
