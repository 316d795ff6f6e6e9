//! The log-structured storage engine.
//!
//! The store models the directory it owns: each `Segment` mirrors one
//! `<gen>.log` file byte for byte. Mutations append encoded records to the
//! active segment and record the matching file-system effect in a journal
//! for a host to drain and apply. The well-formedness invariant ties the
//! index, the stale-byte counter, and the abstract key-value state to a
//! replay of the segment bytes, which is what makes recovery exact.

use vstd::prelude::*;
use crate::cmd::{Command, Rec};
use vstd::slice::{slice_subrange, slice_to_vec};
use crate::codec::{
    decode_command, encode_command, lemma_decode_encode, lemma_decode_prefix, rec_fits, DecodeError,
    spec_decode, spec_encode, Decoded,
};
use crate::err::KvError;
use crate::index::{CommandPosition, Index};
use crate::log::{
    apply_rec, apply_recs, lemma_apply_puts, lemma_decode_extend, lemma_parse_append,
    lemma_parse_chain, lemma_segs_records_extend, parse_end, placed_wf, recs_of, seg_complete,
    seg_parse_at, seg_records, segs_records, spec_replay, PlacedRec,
};

verus! {

/// Stale bytes that trigger an inline compaction.
pub const COMPACTION_THRESHOLD: u64 = 1048576;

/// One on-disk segment: the file `<gen>.log` and its bytes.
pub struct Segment {
    pub gen: u64,
    pub data: Vec<u8>,
}

/// A file-system action the host must mirror onto the real directory:
/// create `<gen>.log` empty, append bytes to it, or unlink it.
#[derive(Debug)]
pub enum Effect {
    Create { gen: u64 },
    Append { gen: u64, bytes: Vec<u8> },
    Delete { gen: u64 },
}

/// The storage engine handle: segments, index, stale-byte counter, active
/// generation, and the journal of effects not yet drained by the host.
pub struct KvStore {
    segments: Vec<Segment>,
    index: Index,
    stale_data_size: u64,
    current_gen: u64,
    effects: Vec<Effect>,
}

/// The byte contents of a list of segments, in order.
pub open spec fn seg_datas(segs: Seq<Segment>) -> Seq<Seq<u8>> {
    segs.map_values(|s: Segment| s.data@)
}

/// Total byte count of a list of byte sequences.
pub open spec fn datas_bytes(ds: Seq<Seq<u8>>) -> int
    decreases ds.len(),
{
    if ds.len() == 0 {
        0
    } else {
        datas_bytes(ds.drop_last()) + ds.last().len()
    }
}

/// Segments in strictly ascending generation order.
pub open spec fn segs_sorted(segs: Seq<Segment>) -> bool {
    forall|i: int, j: int|
        0 <= i < j < segs.len() ==> (#[trigger] segs[i]).gen < (#[trigger] segs[j]).gen
}

pub open spec fn segs_has_gen(segs: Seq<Segment>, g: u64) -> bool {
    exists|j: int| 0 <= j < segs.len() && (#[trigger] segs[j]).gen == g
}

pub open spec fn segs_pos_of(segs: Seq<Segment>, g: u64) -> int {
    choose|j: int| 0 <= j < segs.len() && (#[trigger] segs[j]).gen == g
}

/// The bytes of the segment with generation `g`.
pub open spec fn segs_data(segs: Seq<Segment>, g: u64) -> Seq<u8> {
    segs[segs_pos_of(segs, g)].data@
}

/// With ascending generations, a segment is the one `segs_pos_of` picks.
pub proof fn lemma_seg_unique(segs: Seq<Segment>, j: int)
    requires
        segs_sorted(segs),
        0 <= j < segs.len(),
    ensures
        segs_has_gen(segs, segs[j].gen),
        segs_pos_of(segs, segs[j].gen) == j,
        segs_data(segs, segs[j].gen) == segs[j].data@,
{
    let g = segs[j].gen;
    assert(segs_has_gen(segs, g));
    let j2 = segs_pos_of(segs, g);
    if j2 != j {
        if j2 < j {
            assert(segs[j2].gen < segs[j].gen);
        } else {
            assert(segs[j].gen < segs[j2].gen);
        }
    }
}

/// The value of the record a locator points at.
pub open spec fn value_in(segs: Seq<Segment>, p: CommandPosition) -> Seq<char> {
    spec_decode(segs_data(segs, p.gen).skip(p.log_start_pos as int))->Found_rec->Put_value
}

/// Row `i` of the index points at a whole `Put` record for its own key.
pub open spec fn row_valid_in(segs: Seq<Segment>, index: Index, i: int) -> bool {
    let k = index.rows()[i].0@;
    let p = index.rows()[i].1;
    &&& segs_has_gen(segs, p.gen)
    &&& p.log_start_pos + p.size <= segs_data(segs, p.gen).len()
    &&& spec_decode(segs_data(segs, p.gen).skip(p.log_start_pos as int)) == (Decoded::Found {
        rec: Rec::Put { key: k, value: value_in(segs, p) },
        len: p.size as int,
    })
}

/// The abstract key-value map held by an index over segment bytes.
pub open spec fn state_of(segs: Seq<Segment>, index: Index) -> Map<Seq<char>, Seq<char>> {
    Map::new(
        |k: Seq<char>| index.contains_spec(k),
        |k: Seq<char>| value_in(segs, index.spec_get(k)->Some_0),
    )
}

/// Well-formedness of the store's parts: segments ascend, the active
/// segment is last and holds only whole records, every index row points at
/// a live `Put` record, replaying the segments yields exactly the abstract
/// state, and every byte on disk is either live or counted stale.
pub open spec fn parts_wf(segs: Seq<Segment>, index: Index, stale: u64, gen: u64) -> bool {
    &&& segs.len() >= 1
    &&& segs_sorted(segs)
    &&& segs.last().gen == gen
    &&& seg_complete(segs.last().data@)
    &&& index.keys_distinct()
    &&& (forall|i: int| 0 <= i < index.rows().len() ==> row_valid_in(segs, index, i))
    &&& spec_replay(seg_datas(segs)) == Some(state_of(segs, index))
    &&& datas_bytes(seg_datas(segs)) == index.live_bytes() + stale
    &&& datas_bytes(seg_datas(segs)) <= u64::MAX
}

/// Recovery is exact: replaying a well-formed store's segment bytes yields
/// exactly its abstract state. With `open`'s contract, reopening the bytes a
/// closed store left behind gives a store in which every `get` answers as it
/// did before the close.
pub proof fn lemma_replay_roundtrip(store: KvStore)
    requires
        store.wf(),
    ensures
        spec_replay(store.disk()) == Some(store.state()),
{
}

/// Every byte on disk is either part of a live record or counted by the
/// stale-byte counter; after a mutation returns, the counter is below the
/// compaction threshold, so the disk never holds more than the live data
/// plus the threshold.
pub proof fn lemma_space_accounting(store: KvStore)
    requires
        store.wf(),
    ensures
        store.total_disk_bytes() == store.live_bytes() + store.stale_bytes(),
        store.stale_bytes() < COMPACTION_THRESHOLD ==> store.total_disk_bytes()
            < store.live_bytes() + COMPACTION_THRESHOLD,
{
}

/// Writing the same pair twice leaves the same state as writing it once: the
/// abstract map is unchanged by the second insertion, whatever else the disk
/// accumulates.
pub proof fn lemma_put_idempotent(m: Map<Seq<char>, Seq<char>>, k: Seq<char>, v: Seq<char>)
    ensures
        m.insert(k, v).insert(k, v) == m.insert(k, v),
{
    assert(m.insert(k, v).insert(k, v) =~= m.insert(k, v));
}

/// A key just written reads back as the value written.
pub proof fn lemma_put_then_get(m: Map<Seq<char>, Seq<char>>, k: Seq<char>, v: Seq<char>)
    ensures
        m.insert(k, v).contains_key(k),
        m.insert(k, v)[k] == v,
{
}

/// A key just removed reads back as absent, and no other key moves.
pub proof fn lemma_remove_then_get(m: Map<Seq<char>, Seq<char>>, k: Seq<char>, k2: Seq<char>)
    ensures
        !m.remove(k).contains_key(k),
        k2 != k ==> m.remove(k).contains_key(k2) == m.contains_key(k2),
        k2 != k && m.contains_key(k2) ==> m.remove(k)[k2] == m[k2],
{
}

pub proof fn lemma_datas_bytes_nonneg(ds: Seq<Seq<u8>>)
    ensures
        datas_bytes(ds) >= 0,
    decreases ds.len(),
{
    if ds.len() > 0 {
        lemma_datas_bytes_nonneg(ds.drop_last());
    }
}

/// One more segment adds exactly its bytes to a prefix sum.
pub proof fn lemma_datas_bytes_take_succ(ds: Seq<Seq<u8>>, i: int)
    requires
        0 <= i < ds.len(),
    ensures
        datas_bytes(ds.take(i + 1)) == datas_bytes(ds.take(i)) + ds[i].len(),
{
    assert(ds.take(i + 1).drop_last() =~= ds.take(i));
    assert(ds.take(i + 1).last() == ds[i]);
}

/// A prefix of the segments holds at most all the bytes.
pub proof fn lemma_datas_bytes_take_le(ds: Seq<Seq<u8>>, i: int)
    requires
        0 <= i <= ds.len(),
    ensures
        datas_bytes(ds.take(i)) <= datas_bytes(ds),
    decreases ds.len() - i,
{
    if i == ds.len() {
        assert(ds.take(i) =~= ds);
    } else {
        lemma_datas_bytes_take_succ(ds, i);
        lemma_datas_bytes_take_le(ds, i + 1);
    }
}

/// With the segments untouched, pointing `key` at a record that holds it, or
/// dropping `key`, keeps every row of the index pointing at whole records.
proof fn lemma_rows_valid_same_segs(
    segs: Seq<Segment>,
    idx: Index,
    idx2: Index,
    key: Seq<char>,
    new_loc: Option<CommandPosition>,
)
    requires
        idx.keys_distinct(),
        idx2.keys_distinct(),
        forall|k2: Seq<char>| k2 != key ==> #[trigger] idx2.spec_get(k2) == idx.spec_get(k2),
        idx2.spec_get(key) == new_loc,
        match new_loc {
            Some(p) => {
                &&& segs_has_gen(segs, p.gen)
                &&& p.log_start_pos + p.size <= segs_data(segs, p.gen).len()
                &&& spec_decode(segs_data(segs, p.gen).skip(p.log_start_pos as int))
                    == (Decoded::Found {
                    rec: Rec::Put { key: key, value: value_in(segs, p) },
                    len: p.size as int,
                })
            },
            None => true,
        },
        forall|j: int| 0 <= j < idx.rows().len() ==> row_valid_in(segs, idx, j),
    ensures
        forall|j: int| 0 <= j < idx2.rows().len() ==> row_valid_in(segs, idx2, j),
{
    assert forall|j: int| 0 <= j < idx2.rows().len() implies row_valid_in(segs, idx2, j) by {
        idx2.lemma_row_unique(j);
        let k2 = idx2.rows()[j].0@;
        let p = idx2.rows()[j].1;
        assert(idx2.spec_get(k2) == Some(p));
        if k2 == key {
            assert(new_loc == Some(p));
        } else {
            assert(idx.spec_get(k2) == Some(p));
            let jp = idx.row_of(k2);
            assert(row_valid_in(segs, idx, jp));
            assert(idx.rows()[jp].0@ == k2 && idx.rows()[jp].1 == p);
        }
    }
}

/// Pushing a fresh segment with the highest generation disturbs no existing
/// row or value.
proof fn lemma_push_seg(segs: Seq<Segment>, segs2: Seq<Segment>, idx: Index)
    requires
        segs_sorted(segs),
        segs2.len() == segs.len() + 1,
        forall|j: int| 0 <= j < segs.len() ==> #[trigger] segs2[j] == segs[j],
        forall|j: int| 0 <= j < segs.len() ==> (#[trigger] segs[j]).gen < segs2.last().gen,
        idx.keys_distinct(),
        forall|j: int| 0 <= j < idx.rows().len() ==> row_valid_in(segs, idx, j),
    ensures
        segs_sorted(segs2),
        forall|j: int| 0 <= j < idx.rows().len() ==> row_valid_in(segs2, idx, j),
        state_of(segs2, idx) == state_of(segs, idx),
{
    assert(segs_sorted(segs2)) by {
        assert forall|i: int, j: int| 0 <= i < j < segs2.len() implies (#[trigger] segs2[i]).gen < (
        #[trigger] segs2[j]).gen by {
            if j < segs2.len() - 1 {
                assert(segs2[i] == segs[i] && segs2[j] == segs[j]);
            } else {
                assert(segs2[i] == segs[i]);
            }
        }
    }
    assert forall|j: int| 0 <= j < idx.rows().len() implies row_valid_in(segs2, idx, j) && value_in(
        segs2,
        idx.rows()[j].1,
    ) == value_in(segs, idx.rows()[j].1) by {
        assert(row_valid_in(segs, idx, j));
        let p = idx.rows()[j].1;
        let j0 = segs_pos_of(segs, p.gen);
        assert(0 <= j0 < segs.len() && segs[j0].gen == p.gen);
        lemma_seg_unique(segs, j0);
        assert(segs2[j0].gen == p.gen);
        lemma_seg_unique(segs2, j0);
        assert(segs_data(segs2, p.gen) == segs_data(segs, p.gen));
    }
    assert(state_of(segs2, idx) =~= state_of(segs, idx)) by {
        assert forall|k: Seq<char>| #[trigger] idx.contains_spec(k) implies state_of(segs2, idx)[k]
            == state_of(segs, idx)[k] by {
            let w = idx.row_of(k);
            idx.lemma_row_unique(w);
            assert(row_valid_in(segs2, idx, w));
            assert(value_in(segs2, idx.rows()[w].1) == value_in(segs, idx.rows()[w].1));
        }
    }
}

/// After appending one whole record to the active segment, every row of an
/// index that points at whole records in the old segments, or at the new
/// record, points at whole records still, and the values of untouched keys
/// are unchanged.
proof fn lemma_extend_valid(
    segs: Seq<Segment>,
    segs2: Seq<Segment>,
    idx: Index,
    idx2: Index,
    key: Seq<char>,
    p_new: CommandPosition,
    rec: Rec,
    chunk: Seq<u8>,
)
    requires
        segs.len() >= 1,
        segs_sorted(segs),
        segs2.len() == segs.len(),
        forall|j: int| 0 <= j < segs.len() ==> (#[trigger] segs2[j]).gen == segs[j].gen,
        forall|j: int| 0 <= j < segs.len() - 1 ==> (#[trigger] segs2[j]).data@ == segs[j].data@,
        segs2.last().data@ == segs.last().data@ + chunk,
        idx.keys_distinct(),
        idx2.keys_distinct(),
        forall|k2: Seq<char>| k2 != key ==> #[trigger] idx2.spec_get(k2) == idx.spec_get(k2),
        idx2.spec_get(key) == Some(p_new),
        p_new.gen == segs.last().gen,
        p_new.log_start_pos == segs.last().data@.len(),
        p_new.size == chunk.len(),
        spec_decode(chunk) == (Decoded::Found { rec: rec, len: chunk.len() as int }),
        rec is Put,
        rec->Put_key == key,
        forall|j: int| 0 <= j < idx.rows().len() ==> row_valid_in(segs, idx, j),
    ensures
        segs_sorted(segs2),
        forall|j: int| 0 <= j < idx2.rows().len() ==> row_valid_in(segs2, idx2, j),
        forall|k2: Seq<char>|
            k2 != key && #[trigger] idx.contains_spec(k2) ==> value_in(
                segs2,
                idx2.spec_get(k2)->Some_0,
            ) == value_in(segs, idx.spec_get(k2)->Some_0),
        value_in(segs2, p_new) == rec->Put_value,
{
    let n = segs.len() as int;
    let d = segs.last().data@;
    assert(segs_sorted(segs2)) by {
        assert forall|i: int, j: int| 0 <= i < j < segs2.len() implies (#[trigger] segs2[i]).gen < (
        #[trigger] segs2[j]).gen by {
            assert(segs2[i].gen == segs[i].gen);
            assert(segs2[j].gen == segs[j].gen);
        }
    }
    lemma_seg_unique(segs2, n - 1);
    assert(segs_data(segs2, p_new.gen) == d + chunk);
    assert((d + chunk).skip(d.len() as int) =~= chunk);
    assert(spec_decode(segs_data(segs2, p_new.gen).skip(p_new.log_start_pos as int))
        == (Decoded::Found { rec: rec, len: chunk.len() as int }));
    assert(value_in(segs2, p_new) == rec->Put_value);
    // Untouched keys keep their value.
    assert forall|k2: Seq<char>|
        k2 != key && #[trigger] idx.contains_spec(k2) implies value_in(
        segs2,
        idx2.spec_get(k2)->Some_0,
    ) == value_in(segs, idx.spec_get(k2)->Some_0) && spec_decode(
        segs_data(segs2, idx.spec_get(k2)->Some_0.gen).skip(
            idx.spec_get(k2)->Some_0.log_start_pos as int,
        ),
    ) == spec_decode(
        segs_data(segs, idx.spec_get(k2)->Some_0.gen).skip(
            idx.spec_get(k2)->Some_0.log_start_pos as int,
        ),
    ) && segs_has_gen(segs2, idx.spec_get(k2)->Some_0.gen) && segs_data(
        segs2,
        idx.spec_get(k2)->Some_0.gen,
    ).len() >= segs_data(segs, idx.spec_get(k2)->Some_0.gen).len() by {
        let jp = idx.row_of(k2);
        assert(row_valid_in(segs, idx, jp));
        let p = idx.rows()[jp].1;
        let j0 = segs_pos_of(segs, p.gen);
        assert(0 <= j0 < segs.len() && segs[j0].gen == p.gen);
        lemma_seg_unique(segs, j0);
        assert(segs2[j0].gen == p.gen);
        lemma_seg_unique(segs2, j0);
        if j0 == n - 1 {
            lemma_decode_extend(d, chunk, p.log_start_pos as int);
        } else {
            assert(segs2[j0].data@ == segs[j0].data@);
        }
    }
    // Every row of the new index points at a whole record.
    assert forall|j: int| 0 <= j < idx2.rows().len() implies row_valid_in(segs2, idx2, j) by {
        idx2.lemma_row_unique(j);
        let k2 = idx2.rows()[j].0@;
        let p = idx2.rows()[j].1;
        assert(idx2.spec_get(k2) == Some(p));
        if k2 == key {
            assert(p == p_new);
        } else {
            assert(idx.spec_get(k2) == Some(p));
            assert(idx.contains_spec(k2));
            let jp = idx.row_of(k2);
            assert(row_valid_in(segs, idx, jp));
            assert(idx.rows()[jp].0@ == k2 && idx.rows()[jp].1 == p);
        }
    }
}

/// After appending one whole record to the active segment and dropping `key`
/// from the index, every remaining row points at a whole record still, with
/// its value unchanged.
proof fn lemma_extend_valid_removed(
    segs: Seq<Segment>,
    segs2: Seq<Segment>,
    idx: Index,
    idx2: Index,
    key: Seq<char>,
    chunk: Seq<u8>,
)
    requires
        segs.len() >= 1,
        segs_sorted(segs),
        segs2.len() == segs.len(),
        forall|j: int| 0 <= j < segs.len() ==> (#[trigger] segs2[j]).gen == segs[j].gen,
        forall|j: int| 0 <= j < segs.len() - 1 ==> (#[trigger] segs2[j]).data@ == segs[j].data@,
        segs2.last().data@ == segs.last().data@ + chunk,
        idx.keys_distinct(),
        idx2.keys_distinct(),
        forall|k2: Seq<char>| k2 != key ==> #[trigger] idx2.spec_get(k2) == idx.spec_get(k2),
        !idx2.contains_spec(key),
        forall|j: int| 0 <= j < idx.rows().len() ==> row_valid_in(segs, idx, j),
    ensures
        segs_sorted(segs2),
        forall|j: int| 0 <= j < idx2.rows().len() ==> row_valid_in(segs2, idx2, j),
        forall|k2: Seq<char>|
            k2 != key && #[trigger] idx.contains_spec(k2) ==> value_in(
                segs2,
                idx2.spec_get(k2)->Some_0,
            ) == value_in(segs, idx.spec_get(k2)->Some_0),
{
    let n = segs.len() as int;
    let d = segs.last().data@;
    assert(segs_sorted(segs2)) by {
        assert forall|i: int, j: int| 0 <= i < j < segs2.len() implies (#[trigger] segs2[i]).gen < (
        #[trigger] segs2[j]).gen by {
            assert(segs2[i].gen == segs[i].gen);
            assert(segs2[j].gen == segs[j].gen);
        }
    }
    assert forall|k2: Seq<char>|
        k2 != key && #[trigger] idx.contains_spec(k2) implies value_in(
        segs2,
        idx2.spec_get(k2)->Some_0,
    ) == value_in(segs, idx.spec_get(k2)->Some_0) && spec_decode(
        segs_data(segs2, idx.spec_get(k2)->Some_0.gen).skip(
            idx.spec_get(k2)->Some_0.log_start_pos as int,
        ),
    ) == spec_decode(
        segs_data(segs, idx.spec_get(k2)->Some_0.gen).skip(
            idx.spec_get(k2)->Some_0.log_start_pos as int,
        ),
    ) && segs_has_gen(segs2, idx.spec_get(k2)->Some_0.gen) && segs_data(
        segs2,
        idx.spec_get(k2)->Some_0.gen,
    ).len() >= segs_data(segs, idx.spec_get(k2)->Some_0.gen).len() by {
        let jp = idx.row_of(k2);
        assert(row_valid_in(segs, idx, jp));
        let p = idx.rows()[jp].1;
        let j0 = segs_pos_of(segs, p.gen);
        assert(0 <= j0 < segs.len() && segs[j0].gen == p.gen);
        lemma_seg_unique(segs, j0);
        assert(segs2[j0].gen == p.gen);
        lemma_seg_unique(segs2, j0);
        if j0 == n - 1 {
            lemma_decode_extend(d, chunk, p.log_start_pos as int);
        } else {
            assert(segs2[j0].data@ == segs[j0].data@);
        }
    }
    assert forall|j: int| 0 <= j < idx2.rows().len() implies row_valid_in(segs2, idx2, j) by {
        idx2.lemma_row_unique(j);
        let k2 = idx2.rows()[j].0@;
        let p = idx2.rows()[j].1;
        assert(idx2.spec_get(k2) == Some(p));
        assert(k2 != key);
        assert(idx.spec_get(k2) == Some(p));
        assert(idx.contains_spec(k2));
        let jp = idx.row_of(k2);
        assert(row_valid_in(segs, idx, jp));
        assert(idx.rows()[jp].0@ == k2 && idx.rows()[jp].1 == p);
    }
}

impl KvStore {
    pub closed spec fn segs(self) -> Seq<Segment> {
        self.segments@
    }

    pub closed spec fn idx(self) -> Index {
        self.index
    }

    /// The modeled directory contents: one byte sequence per segment, in
    /// ascending generation order.
    pub open spec fn disk(self) -> Seq<Seq<u8>> {
        seg_datas(self.segs())
    }

    pub open spec fn total_disk_bytes(self) -> int {
        datas_bytes(self.disk())
    }

    pub closed spec fn stale_bytes(self) -> int {
        self.stale_data_size as int
    }

    pub closed spec fn live_bytes(self) -> int {
        self.index.live_bytes()
    }

    pub closed spec fn active_gen(self) -> u64 {
        self.current_gen
    }

    pub closed spec fn pending_effects(self) -> Seq<Effect> {
        self.effects@
    }

    pub open spec fn gens_sorted(self) -> bool {
        segs_sorted(self.segs())
    }

    pub open spec fn has_gen(self, g: u64) -> bool {
        segs_has_gen(self.segs(), g)
    }

    pub open spec fn seg_data(self, g: u64) -> Seq<u8> {
        segs_data(self.segs(), g)
    }

    pub open spec fn value_at(self, p: CommandPosition) -> Seq<char> {
        value_in(self.segs(), p)
    }

    pub open spec fn row_valid(self, i: int) -> bool {
        row_valid_in(self.segs(), self.idx(), i)
    }

    /// The abstract key-value map the store holds.
    pub open spec fn state(self) -> Map<Seq<char>, Seq<char>> {
        state_of(self.segs(), self.idx())
    }

    /// Well-formedness of the store.
    pub closed spec fn wf(self) -> bool {
        parts_wf(self.segs(), self.idx(), self.stale_data_size, self.current_gen)
    }


    /// Finds the position of the segment holding generation `g`.
    fn find_seg(&self, g: u64) -> (si: usize)
        requires
            self.gens_sorted(),
            self.has_gen(g),
        ensures
            si < self.segs().len(),
            self.segs()[si as int].gen == g,
            segs_pos_of(self.segs(), g) == si,
    {
        let n = self.segments.len();
        let mut i: usize = 0;
        while i < n
            invariant
                n == self.segs().len(),
                0 <= i <= n,
                self.gens_sorted(),
                self.has_gen(g),
                forall|j: int| 0 <= j < i ==> (#[trigger] self.segs()[j]).gen != g,
            decreases n - i,
        {
            if self.segments[i].gen == g {
                proof {
                    lemma_seg_unique(self.segs(), i as int);
                }
                return i;
            }
            i += 1;
        }
        proof {
            let w = choose|w: int| 0 <= w < self.segs().len() && (#[trigger] self.segs()[w]).gen == g;
            assert(false);
        }
        0
    }

    /// How many segments lie on disk.
    pub fn segment_count(&self) -> (n: usize)
        ensures
            n == self.disk().len(),
    {
        self.segments.len()
    }

    /// The generations of the on-disk segments, in ascending order.
    pub fn segment_gens(&self) -> (gs: Vec<u64>)
        ensures
            gs@.len() == self.segs().len(),
            forall|i: int| 0 <= i < gs@.len() ==> gs@[i] == (#[trigger] self.segs()[i]).gen,
    {
        let n = self.segments.len();
        let mut gs: Vec<u64> = Vec::new();
        let mut i: usize = 0;
        while i < n
            invariant
                n == self.segs().len(),
                0 <= i <= n,
                gs@.len() == i,
                forall|j: int| 0 <= j < i ==> gs@[j] == (#[trigger] self.segs()[j]).gen,
            decreases n - i,
        {
            gs.push(self.segments[i].gen);
            i += 1;
        }
        gs
    }

    /// The stale-byte counter.
    pub fn stale_size(&self) -> (n: u64)
        ensures
            n as int == self.stale_bytes(),
    {
        self.stale_data_size
    }

    /// Drains the journal of file-system effects for the host to apply; the
    /// store itself is untouched.
    pub fn take_effects(&mut self) -> (es: Vec<Effect>)
        ensures
            es@ == old(self).pending_effects(),
            final(self).pending_effects() == Seq::<Effect>::empty(),
            final(self).disk() == old(self).disk(),
            final(self).state() == old(self).state(),
            final(self).wf() == old(self).wf(),
            final(self).stale_bytes() == old(self).stale_bytes(),
            final(self).active_gen() == old(self).active_gen(),
    {
        let mut es: Vec<Effect> = Vec::new();
        core::mem::swap(&mut es, &mut self.effects);
        es
    }

    /// Looks the key up and, when it is mapped, reads its record back from
    /// the segment bytes and decodes it.
    pub fn get(&self, key: String) -> (r: Result<Option<String>, KvError>)
        requires
            self.wf(),
        ensures
            match r {
                Ok(Some(v)) => self.state().contains_key(key@) && v@ == self.state()[key@],
                Ok(None) => !self.state().contains_key(key@),
                Err(_) => false,
            },
    {
        match self.index.get(&key) {
            Some(p) => {
                proof {
                    let i = self.index.row_of(key@);
                    assert(self.row_valid(i));
                    assert(self.state().contains_key(key@));
                    assert(self.state()[key@] == self.value_at(p));
                }
                let si = self.find_seg(p.gen);
                let seg = &self.segments[si];
                assert(seg.data@ == self.seg_data(p.gen));
                let dlen = seg.data.len();
                assert(dlen as int == self.seg_data(p.gen).len());
                let start = p.log_start_pos as usize;
                assert(start as int == p.log_start_pos as int);
                assert(start + p.size <= seg.data@.len());
                match decode_command(seg.data.as_slice(), start) {
                    Ok(found) => {
                        proof {
                            assert(spec_decode(self.seg_data(p.gen).skip(p.log_start_pos as int))
                                == (Decoded::Found { rec: found.0@, len: found.1 as int }));
                            assert(found.0@ == (Rec::Put { key: key@, value: self.value_at(p) }));
                        }
                        match found.0 {
                            Command::Put { key: k2, value } => {
                                assert(value@ == self.value_at(p));
                                Ok(Some(value))
                            },
                            Command::Remove { key: k2 } => {
                                proof {
                                    assert(false);
                                }
                                Err(KvError::UnexpectedCommandType)
                            },
                        }
                    },
                    Err(_) => {
                        proof {
                            assert(false);
                        }
                        Err(KvError::Decode)
                    },
                }
            },
            None => Ok(None),
        }
    }

    /// The byte total across all segments.
    pub fn total_bytes(&self) -> (t: u64)
        requires
            self.wf(),
        ensures
            t as int == self.total_disk_bytes(),
    {
        let n = self.segments.len();
        let mut t: u64 = 0;
        let mut i: usize = 0;
        proof {
            assert(self.disk().take(0) =~= Seq::<Seq<u8>>::empty());
        }
        while i < n
            invariant
                self.wf(),
                n == self.segs().len(),
                0 <= i <= n,
                t as int == datas_bytes(self.disk().take(i as int)),
            decreases n - i,
        {
            proof {
                lemma_datas_bytes_take_succ(self.disk(), i as int);
                lemma_datas_bytes_take_le(self.disk(), i as int + 1);
                assert(self.disk()[i as int] == self.segs()[i as int].data@);
            }
            t = t + (self.segments[i].data.len() as u64);
            i += 1;
        }
        proof {
            assert(self.disk().take(n as int) =~= self.disk());
        }
        t
    }

    /// Tests the machine limits `set` asks for: callable before any `set`.
    pub fn check_put(&self, key: &String, value: &String) -> (b: bool)
        requires
            self.wf(),
        ensures
            b == self.can_put(key@, value@),
    {
        proof {
            vstd::bytes::lemma_auto_spec_u64_to_from_le_bytes();
        }
        if self.current_gen > u64::MAX - 2 {
            return false;
        }
        let total = self.total_bytes();
        if total > u64::MAX - 17 {
            return false;
        }
        let kb = key.as_str().as_bytes().len() as u64;
        let rem = u64::MAX - 17 - total;
        if kb > rem {
            return false;
        }
        let vb = value.as_str().as_bytes().len() as u64;
        vb <= rem - kb
    }

    /// Tests the machine limits `remove` asks for when the key is present.
    pub fn check_remove(&self, key: &String) -> (b: bool)
        requires
            self.wf(),
        ensures
            b == self.can_remove(key@),
    {
        proof {
            vstd::bytes::lemma_auto_spec_u64_to_from_le_bytes();
        }
        if self.current_gen > u64::MAX - 2 {
            return false;
        }
        let total = self.total_bytes();
        if total > u64::MAX - 9 {
            return false;
        }
        let kb = key.as_str().as_bytes().len() as u64;
        kb <= u64::MAX - 9 - total
    }

    /// Machine limits under which one more record for `key`/`value` fits: the
    /// byte total stays within a 64-bit offset and two fresh generation
    /// numbers remain for a compaction.
    pub open spec fn can_put(self, key: Seq<char>, value: Seq<char>) -> bool {
        &&& self.total_disk_bytes() + spec_encode(Rec::Put { key, value }).len() <= u64::MAX
        &&& self.active_gen() <= u64::MAX - 2
    }

    /// Appends a `Put` record to the active segment, points the index at it,
    /// counts the superseded record's bytes stale, and compacts when the
    /// stale count reaches the threshold.
    pub fn set(&mut self, key: String, value: String) -> (r: Result<(), KvError>)
        requires
            old(self).wf(),
            old(self).can_put(key@, value@),
        ensures
            final(self).wf(),
            r is Ok,
            final(self).state() == old(self).state().insert(key@, value@),
            final(self).stale_bytes() < COMPACTION_THRESHOLD,
    {
        let ghost pre = *old(self);
        let cmd = Command::put(key.clone(), value);
        let bytes = encode_command(&cmd);
        let ghost rec = cmd@;
        let ghost chunk = bytes@;
        let blen = bytes.len();
        proof {
            vstd::bytes::lemma_auto_spec_u64_to_from_le_bytes();
            assert(rec_fits(rec));
            lemma_decode_encode(rec, Seq::empty());
            assert(chunk + Seq::<u8>::empty() =~= chunk);
            assert(spec_decode(chunk) == (Decoded::Found { rec: rec, len: chunk.len() as int }));
        }
        let mut active = self.segments.pop().unwrap();
        let ghost d = active.data@;
        let start: u64 = active.data.len() as u64;
        active.data.extend_from_slice(bytes.as_slice());
        proof {
            assert(active.data@ =~= d + chunk);
        }
        let size: u64 = blen as u64;
        let gen = self.current_gen;
        self.segments.push(active);
        let ghost segs2 = self.segs();
        proof {
            assert(segs2 =~= pre.segs().update(pre.segs().len() - 1, segs2.last()));
            assert(segs2.last().gen == gen && segs2.last().data@ == d + chunk);
        }
        self.effects.push(Effect::Append { gen, bytes });
        let p_new = CommandPosition { gen, log_start_pos: start, size };
        let prior = self.index.insert(key, p_new);
        let ghost idx2 = self.index;
        proof {
            lemma_extend_valid(pre.segs(), segs2, pre.idx(), idx2, rec->Put_key, p_new, rec, chunk);
            // Replay extends by exactly this record.
            assert(seg_datas(segs2) =~= seg_datas(pre.segs()).update(
                pre.segs().len() - 1,
                d + chunk,
            ));
            assert(seg_datas(pre.segs()).last() == d);
            lemma_segs_records_extend(seg_datas(pre.segs()), chunk, rec);
            // The new abstract state is the old one with this pair inserted.
            assert(state_of(segs2, idx2) =~= state_of(pre.segs(), pre.idx()).insert(
                rec->Put_key,
                rec->Put_value,
            ));
            // Accounting: the appended bytes are the new live bytes plus what
            // went stale.
            assert(datas_bytes(seg_datas(segs2)) == datas_bytes(seg_datas(pre.segs()))
                + chunk.len()) by {
                assert(seg_datas(segs2).drop_last() =~= seg_datas(pre.segs()).drop_last());
            }
            match pre.idx().spec_get(rec->Put_key) {
                Some(q) => {
                    crate::index::lemma_rows_bytes_row(pre.idx().rows(), pre.idx().row_of(rec->Put_key));
                },
                None => {},
            }
        }
        match prior {
            Some(q) => {
                proof {
                    crate::index::lemma_rows_bytes_nonneg(idx2.rows());
                }
                self.stale_data_size = self.stale_data_size + q.size;
            },
            None => {},
        }
        proof {
            assert(self.wf());
            assert(self.state() == pre.state().insert(key@, value@));
        }
        if self.stale_data_size >= COMPACTION_THRESHOLD {
            self.compact_log();
        }
        Ok(())
    }

    /// Machine limits under which one `Remove` record for `key` fits.
    pub open spec fn can_remove(self, key: Seq<char>) -> bool {
        &&& self.total_disk_bytes() + spec_encode(Rec::Remove { key }).len() <= u64::MAX
        &&& self.active_gen() <= u64::MAX - 2
    }

    /// Appends a `Remove` record and drops the key from the index; on an
    /// absent key it reports `KeyNotFound` and leaves the store, and so the
    /// disk, untouched.
    pub fn remove(&mut self, key: String) -> (r: Result<(), KvError>)
        requires
            old(self).wf(),
            old(self).state().contains_key(key@) ==> old(self).can_remove(key@),
        ensures
            final(self).wf(),
            match r {
                Ok(()) => old(self).state().contains_key(key@) && final(self).state() == old(
                    self,
                ).state().remove(key@) && final(self).stale_bytes() < COMPACTION_THRESHOLD,
                Err(KvError::KeyNotFound) => !old(self).state().contains_key(key@) && *final(self)
                    == *old(self),
                Err(_) => false,
            },
    {
        let ghost pre = *old(self);
        match self.index.get(&key) {
            None => {
                assert(!pre.state().contains_key(key@));
                Err(KvError::KeyNotFound)
            },
            Some(located) => {
                proof {
                    assert(pre.state().contains_key(key@));
                    crate::index::lemma_rows_bytes_row(pre.idx().rows(), pre.idx().row_of(key@));
                    crate::index::lemma_rows_bytes_nonneg(pre.idx().rows());
                }
                let cmd = Command::remove(key.clone());
                let bytes = encode_command(&cmd);
                let ghost rec = cmd@;
                let ghost chunk = bytes@;
                let blen = bytes.len();
                proof {
                    vstd::bytes::lemma_auto_spec_u64_to_from_le_bytes();
                    assert(rec_fits(rec));
                    lemma_decode_encode(rec, Seq::empty());
                    assert(chunk + Seq::<u8>::empty() =~= chunk);
                    assert(spec_decode(chunk) == (Decoded::Found {
                        rec: rec,
                        len: chunk.len() as int,
                    }));
                }
                let mut active = self.segments.pop().unwrap();
                let ghost d = active.data@;
                active.data.extend_from_slice(bytes.as_slice());
                proof {
                    assert(active.data@ =~= d + chunk);
                }
                let size: u64 = blen as u64;
                let gen = self.current_gen;
                self.segments.push(active);
                let ghost segs2 = self.segs();
                proof {
                    assert(segs2 =~= pre.segs().update(pre.segs().len() - 1, segs2.last()));
                    assert(segs2.last().gen == gen && segs2.last().data@ == d + chunk);
                }
                self.effects.push(Effect::Append { gen, bytes });
                let prior = self.index.remove(&key);
                let ghost idx2 = self.index;
                proof {
                    lemma_extend_valid_removed(pre.segs(), segs2, pre.idx(), idx2, key@, chunk);
                    assert(seg_datas(segs2) =~= seg_datas(pre.segs()).update(
                        pre.segs().len() - 1,
                        d + chunk,
                    ));
                    assert(seg_datas(pre.segs()).last() == d);
                    lemma_segs_records_extend(seg_datas(pre.segs()), chunk, rec);
                    assert(state_of(segs2, idx2) =~= state_of(pre.segs(), pre.idx()).remove(key@));
                    assert(datas_bytes(seg_datas(segs2)) == datas_bytes(seg_datas(pre.segs()))
                        + chunk.len()) by {
                        assert(seg_datas(segs2).drop_last() =~= seg_datas(
                            pre.segs(),
                        ).drop_last());
                    }
                    crate::index::lemma_rows_bytes_nonneg(idx2.rows());
                }
                let q = located;
                self.stale_data_size = self.stale_data_size + q.size;
                self.stale_data_size = self.stale_data_size + size;
                proof {
                    assert(self.wf());
                    assert(self.state() == pre.state().remove(key@));
                }
                if self.stale_data_size >= COMPACTION_THRESHOLD {
                    self.compact_log();
                }
                Ok(())
            },
        }
    }

    /// Opens a store over the segment files found in a directory, given in
    /// ascending generation order. Replays every segment through the codec,
    /// rebuilds the index and the stale-byte counter, and opens a fresh
    /// active segment above the highest generation found.
    pub fn open(segments: Vec<Segment>) -> (r: Result<KvStore, KvError>)
        requires
            segs_sorted(segments@),
            segments@.len() > 0 ==> segments@.last().gen < u64::MAX,
            datas_bytes(seg_datas(segments@)) <= u64::MAX,
        ensures
            match r {
                Ok(store) => {
                    &&& store.wf()
                    &&& spec_replay(seg_datas(segments@)) == Some(store.state())
                    &&& store.total_disk_bytes() == datas_bytes(seg_datas(segments@))
                    &&& store.active_gen() == (if segments@.len() > 0 {
                        (segments@.last().gen + 1) as u64
                    } else {
                        1u64
                    })
                    &&& store.pending_effects().len() == 1
                    &&& store.pending_effects()[0] == (Effect::Create { gen: store.active_gen() })
                },
                Err(KvError::Decode) => spec_replay(seg_datas(segments@)) is None,
                Err(_) => false,
            },
    {
        let ghost segs = segments@;
        let ghost ds = seg_datas(segments@);
        let mut index = Index::new();
        let mut stale: u64 = 0;
        let ghost mut allrecs: Seq<Rec> = Seq::empty();
        let n = segments.len();
        let mut i: usize = 0;
        proof {
            assert(ds.take(0) =~= Seq::<Seq<u8>>::empty());
            assert(state_of(segs, index) =~= apply_recs(Map::empty(), allrecs));
        }
        while i < n
            invariant
                segs == segments@,
                ds == seg_datas(segments@),
                n == segs.len(),
                0 <= i <= n,
                segs_sorted(segs),
                datas_bytes(ds) <= u64::MAX,
                index.keys_distinct(),
                forall|j: int| 0 <= j < index.rows().len() ==> row_valid_in(segs, index, j),
                segs_records(ds.take(i as int)) == Some(allrecs),
                state_of(segs, index) == apply_recs(Map::empty(), allrecs),
                stale + index.live_bytes() == datas_bytes(ds.take(i as int)),
                index.live_bytes() >= 0,
            decreases n - i,
        {
            let gen = segments[i].gen;
            proof {
                lemma_datas_bytes_take_succ(ds, i as int);
                lemma_datas_bytes_take_le(ds, i as int + 1);
                lemma_datas_bytes_nonneg(ds.take(i as int));
                assert(ds[i as int] == segs[i as int].data@);
            }
            let ghost idx_before = index;
            let delta = match Self::load(gen, &mut index, &segments, i) {
                Ok(delta) => delta,
                Err(_) => {
                    proof {
                        assert(seg_records(ds[i as int]) is None);
                        assert(ds.take(i as int + 1).drop_last() =~= ds.take(i as int));
                        assert(ds.take(i as int + 1).last() == ds[i as int]);
                        assert(segs_records(ds.take(i as int + 1)) is None);
                        crate::log::lemma_segs_records_none(ds, i as int + 1);
                    }
                    return Err(KvError::Decode);
                },
            };
            proof {
                let rs = recs_of(seg_records(ds[i as int])->Some_0);
                assert(ds.take(i as int + 1).drop_last() =~= ds.take(i as int));
                assert(ds.take(i as int + 1).last() == ds[i as int]);
                assert(segs_records(ds.take(i as int + 1)) == Some(allrecs + rs));
                crate::log::lemma_apply_recs_concat(Map::empty(), allrecs, rs);
                allrecs = allrecs + rs;
            }
            stale = stale + delta;
            i += 1;
        }
        let current_gen: u64 = if n > 0 {
            segments[n - 1].gen + 1
        } else {
            1
        };
        let mut all_segments = segments;
        let ghost idx_final = index;
        all_segments.push(Segment { gen: current_gen, data: Vec::new() });
        let mut effects: Vec<Effect> = Vec::new();
        effects.push(Effect::Create { gen: current_gen });
        proof {
            let segs2 = all_segments@;
            assert(segs2.len() == segs.len() + 1);
            assert(segs2.last().gen == current_gen && segs2.last().data@ =~= Seq::<u8>::empty());
            assert forall|j: int| 0 <= j < segs.len() implies (#[trigger] segs[j]).gen
                < current_gen by {
                if j < segs.len() - 1 {
                    assert(segs[j].gen < segs.last().gen);
                }
            }
            lemma_push_seg(segs, segs2, idx_final);
            // Replay of the final layout equals the replay of the input.
            assert(seg_datas(segs2).drop_last() =~= ds);
            assert(seg_datas(segs2).last() =~= Seq::<u8>::empty());
            assert(seg_parse_at(Seq::<u8>::empty(), 0) == Some(Seq::<PlacedRec>::empty()));
            assert(seg_complete(Seq::<u8>::empty()));
            assert(ds.take(n as int) =~= ds);
            assert(segs_records(seg_datas(segs2)) == Some(
                allrecs + recs_of(Seq::<PlacedRec>::empty()),
            ));
            assert(allrecs + recs_of(Seq::<PlacedRec>::empty()) =~= allrecs);
            // Accounting over the final layout.
            assert(datas_bytes(seg_datas(segs2)) == datas_bytes(ds)) by {
                assert(seg_datas(segs2).last().len() == 0);
            }
        }
        let store = KvStore {
            segments: all_segments,
            index,
            stale_data_size: stale,
            current_gen,
            effects,
        };
        proof {
            assert(store.wf());
            assert(spec_replay(seg_datas(segs)) == Some(store.state()));
        }
        Ok(store)
    }

    /// Replays one segment's records into the index: `Put` points the key at
    /// the record, `Remove` drops it. Returns how many of the segment's bytes
    /// are stale: superseded records, `Remove` records, and a truncated tail.
    fn load(gen: u64, index: &mut Index, segments: &Vec<Segment>, si: usize) -> (r: Result<
        u64,
        KvError,
    >)
        requires
            segs_sorted(segments@),
            si < segments@.len(),
            segments@[si as int].gen == gen,
            old(index).keys_distinct(),
            forall|j: int|
                0 <= j < old(index).rows().len() ==> row_valid_in(segments@, *old(index), j),
            old(index).live_bytes() >= 0,
            old(index).live_bytes() + segments@[si as int].data@.len() <= u64::MAX,
        ensures
            match r {
                Ok(delta) => {
                    &&& seg_records(segments@[si as int].data@) is Some
                    &&& final(index).keys_distinct()
                    &&& forall|j: int|
                        0 <= j < final(index).rows().len() ==> row_valid_in(
                            segments@,
                            *final(index),
                            j,
                        )
                    &&& state_of(segments@, *final(index)) == apply_recs(
                        state_of(segments@, *old(index)),
                        recs_of(seg_records(segments@[si as int].data@)->Some_0),
                    )
                    &&& delta as int == segments@[si as int].data@.len() + old(
                        index,
                    ).live_bytes() - final(index).live_bytes()
                    &&& final(index).live_bytes() >= 0
                },
                Err(KvError::Decode) => seg_records(segments@[si as int].data@) is None,
                Err(_) => false,
            },
    {
        let ghost segs = segments@;
        let ghost pre_idx = *old(index);
        let ghost d = segments@[si as int].data@;
        let data = &segments[si].data;
        let dlen = data.len();
        let mut pos: usize = 0;
        let mut delta: u64 = 0;
        let ghost mut done: Seq<PlacedRec> = Seq::empty();
        proof {
            lemma_seg_unique(segs, si as int);
            assert(state_of(segs, *index) =~= apply_recs(
                state_of(segs, pre_idx),
                recs_of(done),
            ));
        }
        while pos < dlen
            invariant
                segs == segments@,
                pre_idx == *old(index),
                segs_sorted(segs),
                si < segs.len(),
                segs[si as int].gen == gen,
                d == segs[si as int].data@,
                dlen == d.len(),
                segs_data(segs, gen) == d,
                data@ == d,
                0 <= pos <= dlen,
                index.keys_distinct(),
                forall|j: int| 0 <= j < index.rows().len() ==> row_valid_in(segs, *index, j),
                placed_wf(d, 0, done),
                parse_end(0, done) == pos,
                state_of(segs, *index) == apply_recs(state_of(segs, pre_idx), recs_of(done)),
                delta as int == pos + pre_idx.live_bytes() - index.live_bytes(),
                index.live_bytes() >= 0,
                pre_idx.live_bytes() >= 0,
                pre_idx.live_bytes() + dlen <= u64::MAX,
            decreases dlen - pos,
        {
            let step = decode_command(data.as_slice(), pos);
            match step {
                Ok(found) => {
                    let rlen = found.1;
                    let ghost rec = found.0@;
                    let ghost placed = (PlacedRec {
                        rec: rec,
                        start: pos as int,
                        len: rlen as int,
                    });
                    let ghost idx_before = *index;
                    let ghost state_before = state_of(segs, *index);
                    proof {
                        assert(spec_decode(d.skip(pos as int)) == (Decoded::Found {
                            rec: rec,
                            len: rlen as int,
                        }));
                        assert(placed_wf(d, 0, done.push(placed))) by {
                            let d2 = done.push(placed);
                            assert forall|j: int| 0 <= j < d2.len() implies (
                            #[trigger] d2[j]).start == (if j == 0 {
                                0
                            } else {
                                d2[j - 1].start + d2[j - 1].len
                            }) by {
                                if j < done.len() {
                                    assert(d2[j] == done[j]);
                                    if j > 0 {
                                        assert(d2[j - 1] == done[j - 1]);
                                    }
                                } else {
                                    if j > 0 {
                                        assert(d2[j - 1] == done[j - 1]);
                                        assert(parse_end(0, done) == done.last().start
                                            + done.last().len);
                                    }
                                }
                            }
                            assert forall|j: int| 0 <= j < d2.len() implies 9 <= (
                            #[trigger] d2[j]).len && d2[j].start + d2[j].len <= d.len() by {
                                if j < done.len() {
                                    assert(d2[j] == done[j]);
                                }
                            }
                            assert forall|j: int| 0 <= j < d2.len() implies spec_decode(
                                d.skip((#[trigger] d2[j]).start),
                            ) == (Decoded::Found { rec: d2[j].rec, len: d2[j].len }) by {
                                if j < done.len() {
                                    assert(d2[j] == done[j]);
                                }
                            }
                        }
                        assert(recs_of(done.push(placed)) =~= recs_of(done).push(rec));
                        crate::log::lemma_apply_recs_push(
                            state_of(segs, pre_idx),
                            recs_of(done),
                            rec,
                        );
                    }
                    match found.0 {
                        Command::Put { key, value } => {
                            let p_new = CommandPosition {
                                gen,
                                log_start_pos: pos as u64,
                                size: rlen as u64,
                            };
                            proof {
                                crate::index::lemma_rows_bytes_nonneg(idx_before.rows());
                                if idx_before.contains_spec(key@) {
                                    crate::index::lemma_rows_bytes_row(
                                        idx_before.rows(),
                                        idx_before.row_of(key@),
                                    );
                                }
                            }
                            let prior = index.insert(key, p_new);
                            proof {
                                assert(value_in(segs, p_new) == rec->Put_value);
                                lemma_rows_valid_same_segs(
                                    segs,
                                    idx_before,
                                    *index,
                                    rec->Put_key,
                                    Some(p_new),
                                );
                                assert(state_of(segs, *index) =~= apply_rec(state_before, rec));
                            }
                            match prior {
                                Some(q) => {
                                    delta = delta + q.size;
                                },
                                None => {},
                            }
                        },
                        Command::Remove { key } => {
                            proof {
                                crate::index::lemma_rows_bytes_nonneg(idx_before.rows());
                                if idx_before.contains_spec(key@) {
                                    crate::index::lemma_rows_bytes_row(
                                        idx_before.rows(),
                                        idx_before.row_of(key@),
                                    );
                                }
                            }
                            let prior = index.remove(&key);
                            proof {
                                lemma_rows_valid_same_segs(
                                    segs,
                                    idx_before,
                                    *index,
                                    rec->Remove_key,
                                    None,
                                );
                                assert(state_of(segs, *index) =~= apply_rec(state_before, rec));
                            }
                            match prior {
                                Some(q) => {
                                    delta = delta + q.size;
                                },
                                None => {},
                            }
                            delta = delta + (rlen as u64);
                        },
                    }
                    pos = pos + rlen;
                    proof {
                        done = done.push(placed);
                    }
                },
                Err(DecodeError::Truncated) => {
                    proof {
                        lemma_parse_chain(d, 0, pos as int, done);
                        assert(seg_parse_at(d, pos as int) == Some(Seq::<PlacedRec>::empty()));
                        assert(done + Seq::<PlacedRec>::empty() =~= done);
                        assert(seg_records(d) == Some(done));
                    }
                    delta = delta + ((dlen - pos) as u64);
                    return Ok(delta);
                },
                Err(DecodeError::Malformed) => {
                    proof {
                        lemma_parse_chain(d, 0, pos as int, done);
                        assert(seg_parse_at(d, pos as int) is None);
                        assert(seg_records(d) is None);
                    }
                    return Err(KvError::Decode);
                },
            }
        }
        proof {
            lemma_parse_chain(d, 0, pos as int, done);
            assert(seg_parse_at(d, pos as int) == Some(Seq::<PlacedRec>::empty()));
            assert(done + Seq::<PlacedRec>::empty() =~= done);
            assert(seg_records(d) == Some(done));
        }
        Ok(delta)
    }

    /// Rewrites every live record, byte for byte, into a fresh compaction
    /// segment, opens a new active segment above it, deletes all older
    /// segments, and resets the stale counter.
    #[verifier::rlimit(100)]
    fn compact_log(&mut self)
        requires
            old(self).wf(),
            old(self).active_gen() <= u64::MAX - 2,
        ensures
            final(self).wf(),
            final(self).state() == old(self).state(),
            final(self).stale_bytes() == 0,
            final(self).active_gen() == old(self).active_gen() + 2,
            final(self).live_bytes() == old(self).live_bytes(),
            final(self).total_disk_bytes() == final(self).live_bytes(),
            final(self).disk().len() == 2,
    {
        let ghost pre = *old(self);
        let compaction_gen = self.current_gen + 1;
        let new_active_gen = self.current_gen + 2;
        let mut cdata: Vec<u8> = Vec::new();
        let ghost mut cplaced: Seq<PlacedRec> = Seq::empty();
        let n = self.index.len();
        let mut i: usize = 0;
        while i < n
            invariant
                pre == *old(self),
                pre.wf(),
                n == self.index.rows().len(),
                self.index.rows().len() == pre.idx().rows().len(),
                0 <= i <= n,
                self.segs() == pre.segs(),
                self.current_gen == pre.active_gen(),
                compaction_gen == pre.active_gen() + 1,
                new_active_gen == pre.active_gen() + 2,
                pre.active_gen() <= u64::MAX - 2,
                self.index.keys_distinct(),
                forall|j: int|
                    0 <= j < n ==> (#[trigger] self.index.rows()[j]).0@ == pre.idx().rows()[j].0@,
                forall|j: int|
                    i <= j < n ==> (#[trigger] self.index.rows()[j]).1 == pre.idx().rows()[j].1,
                forall|j: int|
                    0 <= j < i ==> {
                        let pj = (#[trigger] self.index.rows()[j]).1;
                        &&& pj.gen == compaction_gen
                        &&& pj.size == pre.idx().rows()[j].1.size
                        &&& pj.log_start_pos + pj.size <= cdata@.len()
                        &&& spec_decode(cdata@.skip(pj.log_start_pos as int)) == (Decoded::Found {
                            rec: Rec::Put {
                                key: pre.idx().rows()[j].0@,
                                value: value_in(pre.segs(), pre.idx().rows()[j].1),
                            },
                            len: pj.size as int,
                        })
                    },
                seg_records(cdata@) == Some(cplaced),
                parse_end(0, cplaced) == cdata@.len(),
                cplaced.len() == i,
                forall|j: int|
                    0 <= j < i ==> (#[trigger] cplaced[j]).rec == (Rec::Put {
                        key: pre.idx().rows()[j].0@,
                        value: value_in(pre.segs(), pre.idx().rows()[j].1),
                    }),
                cdata@.len() as int == crate::index::rows_bytes(self.index.rows().take(i as int)),
            decreases n - i,
        {
            let p = self.index.pos_at(i);
            proof {
                assert(row_valid_in(pre.segs(), pre.idx(), i as int));
            }
            let si = self.find_seg(p.gen);
            let seg = &self.segments[si];
            let dlen = seg.data.len();
            assert(dlen as int == segs_data(pre.segs(), p.gen).len());
            let start_src = p.log_start_pos as usize;
            let end_src = start_src + (p.size as usize);
            let chunk = slice_to_vec(slice_subrange(seg.data.as_slice(), start_src, end_src));
            let ghost rec_i = (Rec::Put {
                key: pre.idx().rows()[i as int].0@,
                value: value_in(pre.segs(), pre.idx().rows()[i as int].1),
            });
            proof {
                let d = segs_data(pre.segs(), p.gen);
                let o = p.log_start_pos as int;
                let l = p.size as int;
                assert(chunk@ =~= d.skip(o).subrange(0, l));
                assert(chunk@.subrange(0, l) =~= d.skip(o).subrange(0, l));
                lemma_decode_prefix(d.skip(o), chunk@);
                assert(spec_decode(chunk@) == (Decoded::Found { rec: rec_i, len: l }));
            }
            let start_new = cdata.len() as u64;
            let ghost cdata_old = cdata@;
            proof {
                lemma_parse_append(cdata_old, chunk@, rec_i);
            }
            cdata.extend_from_slice(chunk.as_slice());
            proof {
                assert(cdata@ =~= cdata_old + chunk@);
            }
            let p_new = CommandPosition {
                gen: compaction_gen,
                log_start_pos: start_new,
                size: p.size,
            };
            let ghost rows_before = self.index.rows();
            self.index.set_pos_at(i, p_new);
            proof {
                let placed = (PlacedRec {
                    rec: rec_i,
                    start: cdata_old.len() as int,
                    len: chunk@.len() as int,
                });
                cplaced = cplaced.push(placed);
                assert(seg_records(cdata@) == Some(cplaced)) by {
                    assert(seg_records(cdata_old)->Some_0 + seq![placed] =~= cplaced);
                }
                assert(parse_end(0, cplaced) == cdata@.len());
                // Rewritten rows, including this one, decode in the new bytes.
                assert forall|j: int| 0 <= j <= i implies {
                    let pj = (#[trigger] self.index.rows()[j]).1;
                    &&& pj.gen == compaction_gen
                    &&& pj.size == pre.idx().rows()[j].1.size
                    &&& pj.log_start_pos + pj.size <= cdata@.len()
                    &&& spec_decode(cdata@.skip(pj.log_start_pos as int)) == (Decoded::Found {
                        rec: Rec::Put {
                            key: pre.idx().rows()[j].0@,
                            value: value_in(pre.segs(), pre.idx().rows()[j].1),
                        },
                        len: pj.size as int,
                    })
                } by {
                    if j < i {
                        assert(self.index.rows()[j] == rows_before[j]);
                        let pj = self.index.rows()[j].1;
                        lemma_decode_extend(cdata_old, chunk@, pj.log_start_pos as int);
                    } else {
                        assert(self.index.rows()[j].1 == p_new);
                        assert(cdata@.skip(cdata_old.len() as int) =~= chunk@);
                    }
                }
                // Byte count of the compaction segment so far.
                assert(cdata@.len() as int == crate::index::rows_bytes(
                    self.index.rows().take(i + 1),
                )) by {
                    let t1 = self.index.rows().take(i as int);
                    let t0 = rows_before.take(i as int);
                    assert(t1 =~= t0);
                    assert(self.index.rows().take(i + 1).drop_last() =~= t1);
                    assert(self.index.rows().take(i + 1).last() == self.index.rows()[i as int]);
                }
            }
            i += 1;
        }
        // Install the two fresh segments and journal the file actions.
        let ghost idx2 = self.index;
        let ghost cdata_final = cdata@;
        self.effects.push(Effect::Create { gen: new_active_gen });
        self.effects.push(Effect::Create { gen: compaction_gen });
        let mut copy_bytes: Vec<u8> = Vec::new();
        copy_bytes.extend_from_slice(cdata.as_slice());
        self.effects.push(Effect::Append { gen: compaction_gen, bytes: copy_bytes });
        let mut new_segments: Vec<Segment> = Vec::new();
        new_segments.push(Segment { gen: compaction_gen, data: cdata });
        new_segments.push(Segment { gen: new_active_gen, data: Vec::new() });
        core::mem::swap(&mut self.segments, &mut new_segments);
        let m = new_segments.len();
        let mut del_effs: Vec<Effect> = Vec::new();
        let mut j: usize = 0;
        while j < m
            invariant
                0 <= j <= m,
                m == new_segments@.len(),
            decreases m - j,
        {
            del_effs.push(Effect::Delete { gen: new_segments[j].gen });
            j += 1;
        }
        self.effects.append(&mut del_effs);
        self.current_gen = new_active_gen;
        self.stale_data_size = 0;
        proof {
            let segs2 = self.segs();
            let rows2 = idx2.rows();
            let rows1 = pre.idx().rows();
            let nn = rows2.len() as int;
            assert(segs2.len() == 2);
            assert(segs2[0].gen == compaction_gen && segs2[0].data@ == cdata_final);
            assert(segs2[1].gen == new_active_gen && segs2[1].data@ == Seq::<u8>::empty());
            assert(segs_sorted(segs2));
            assert(seg_parse_at(Seq::<u8>::empty(), 0) == Some(Seq::<PlacedRec>::empty()));
            assert(seg_complete(Seq::<u8>::empty()));
            lemma_seg_unique(segs2, 0);
            lemma_seg_unique(segs2, 1);
            assert(segs_data(segs2, compaction_gen) == cdata_final);
            assert(rows2.take(nn) =~= rows2);
            // Each row points at a whole record in the compaction segment,
            // and keeps the value it had.
            assert forall|j2: int| 0 <= j2 < nn implies row_valid_in(segs2, idx2, j2) && value_in(
                segs2,
                rows2[j2].1,
            ) == value_in(pre.segs(), rows1[j2].1) by {
                let pj = rows2[j2].1;
                assert(pj.gen == compaction_gen);
                assert(segs_has_gen(segs2, pj.gen));
            }
            // The index maps the same keys as before.
            assert forall|k: Seq<char>| #[trigger] idx2.contains_spec(k) implies pre.idx().contains_spec(
                k,
            ) by {
                let w = choose|w: int| 0 <= w < rows2.len() && (#[trigger] rows2[w]).0@ == k;
                assert(rows1[w].0@ == k);
            }
            assert forall|k: Seq<char>| #[trigger] pre.idx().contains_spec(k) implies idx2.contains_spec(
                k,
            ) by {
                let w = choose|w: int| 0 <= w < rows1.len() && (#[trigger] rows1[w]).0@ == k;
                assert(rows2[w].0@ == k);
            }
            // Same keys, same values: the state is preserved.
            assert forall|k: Seq<char>| #[trigger] idx2.contains_spec(k) implies idx2.row_of(k)
                == pre.idx().row_of(k) && state_of(segs2, idx2)[k] == state_of(
                pre.segs(),
                pre.idx(),
            )[k] by {
                let w = idx2.row_of(k);
                idx2.lemma_row_unique(w);
                assert(rows1[w].0@ == k);
                pre.idx().lemma_row_unique(w);
            }
            assert(state_of(segs2, idx2) =~= state_of(pre.segs(), pre.idx()));
            // Replay of the two fresh segments folds exactly the copied
            // records.
            let ds = seg_datas(segs2);
            assert(ds.len() == 2 && ds[0] == cdata_final && ds[1] =~= Seq::<u8>::empty());
            assert(ds.drop_last().drop_last() =~= Seq::<Seq<u8>>::empty());
            assert(segs_records(Seq::<Seq<u8>>::empty()) == Some(Seq::<Rec>::empty()));
            assert(ds.drop_last().last() == cdata_final);
            assert(segs_records(ds.drop_last()) == Some(Seq::<Rec>::empty() + recs_of(cplaced)));
            assert(Seq::<Rec>::empty() + recs_of(cplaced) =~= recs_of(cplaced));
            assert(ds.last() =~= Seq::<u8>::empty());
            assert(seg_records(ds.last()) == Some(Seq::<PlacedRec>::empty()));
            assert(segs_records(ds) == Some(
                recs_of(cplaced) + recs_of(Seq::<PlacedRec>::empty()),
            ));
            assert(recs_of(cplaced) + recs_of(Seq::<PlacedRec>::empty()) =~= recs_of(cplaced));
            let crecs = recs_of(cplaced);
            assert forall|j2: int| 0 <= j2 < crecs.len() implies (#[trigger] crecs[j2]) is Put
                && crecs[j2]->Put_key == rows2[j2].0@ && crecs[j2]->Put_value == value_in(
                segs2,
                rows2[j2].1,
            ) by {
                assert(crecs[j2] == cplaced[j2].rec);
            }
            assert forall|j1: int, j2: int| 0 <= j1 < j2 < crecs.len() implies (
            #[trigger] crecs[j1])->Put_key != (#[trigger] crecs[j2])->Put_key by {
                assert(crecs[j1]->Put_key == rows2[j1].0@);
                assert(crecs[j2]->Put_key == rows2[j2].0@);
            }
            let mm = state_of(segs2, idx2);
            assert(mm.dom() =~= Set::new(
                |k: Seq<char>|
                    exists|j2: int| 0 <= j2 < crecs.len() && (#[trigger] crecs[j2])->Put_key == k,
            )) by {
                assert forall|k: Seq<char>| mm.dom().contains(k) implies Set::new(
                    |k2: Seq<char>|
                        exists|j2: int|
                            0 <= j2 < crecs.len() && (#[trigger] crecs[j2])->Put_key == k2,
                ).contains(k) by {
                    let w = idx2.row_of(k);
                    idx2.lemma_row_unique(w);
                    assert(crecs[w]->Put_key == k);
                }
                assert forall|k: Seq<char>| Set::new(
                    |k2: Seq<char>|
                        exists|j2: int|
                            0 <= j2 < crecs.len() && (#[trigger] crecs[j2])->Put_key == k2,
                ).contains(k) implies mm.dom().contains(k) by {
                    let w = choose|j2: int|
                        0 <= j2 < crecs.len() && (#[trigger] crecs[j2])->Put_key == k;
                    assert(rows2[w].0@ == k);
                }
            }
            assert forall|j2: int| 0 <= j2 < crecs.len() implies mm[(
            #[trigger] crecs[j2])->Put_key] == crecs[j2]->Put_value by {
                let k = crecs[j2]->Put_key;
                idx2.lemma_row_unique(j2);
                assert(idx2.spec_get(k) == Some(rows2[j2].1));
            }
            lemma_apply_puts(crecs, mm);
            assert(spec_replay(ds) == Some(mm));
            // Accounting: the compaction segment holds exactly the live
            // bytes; nothing is stale.
            crate::index::lemma_rows_bytes_pointwise(rows2, rows1);
            assert(datas_bytes(ds) == cdata_final.len()) by {
                let dd = ds.drop_last();
                assert(dd.len() == 1);
                assert(dd.last() == cdata_final);
                assert(dd.drop_last() =~= Seq::<Seq<u8>>::empty());
                assert(datas_bytes(Seq::<Seq<u8>>::empty()) == 0);
                assert(datas_bytes(dd) == datas_bytes(dd.drop_last()) + cdata_final.len());
                assert(ds.last().len() == 0);
                assert(datas_bytes(ds) == datas_bytes(dd) + ds.last().len());
            }
            assert(self.wf());
            assert(self.state() == pre.state());
        }
    }
}

} // verus!
