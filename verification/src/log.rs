//! Mathematical model of a segment's contents and of log replay.
//!
//! A segment is an append-only sequence of encoded records. `seg_parse_at`
//! recovers the records that lie in a byte sequence; replay folds the records
//! of all segments, in segment order, into the abstract key-value map.

use vstd::prelude::*;
use crate::cmd::Rec;
use crate::codec::{lemma_decode_bounds, lemma_decode_prefix, spec_decode, Decoded};

verus! {

/// A record as it lies in a segment: the record itself, its byte offset and
/// its byte length.
pub struct PlacedRec {
    pub rec: Rec,
    pub start: int,
    pub len: int,
}

/// Parses records from `pos` on. `None` means bytes were hit that can never
/// open a record; a truncated trailing record ends the parse and is accepted.
pub open spec fn seg_parse_at(s: Seq<u8>, pos: int) -> Option<Seq<PlacedRec>>
    decreases s.len() - pos,
    when 0 <= pos
    via seg_parse_at_decreases
{
    if pos >= s.len() {
        Some(Seq::empty())
    } else {
        match spec_decode(s.skip(pos)) {
            Decoded::Found { rec, len } => match seg_parse_at(s, pos + len) {
                Some(rest) => Some(seq![PlacedRec { rec, start: pos, len }] + rest),
                None => None,
            },
            Decoded::Short => Some(Seq::empty()),
            Decoded::Bad => None,
        }
    }
}

#[via_fn]
proof fn seg_parse_at_decreases(s: Seq<u8>, pos: int) {
    if pos < s.len() {
        if spec_decode(s.skip(pos)) is Found {
            lemma_decode_bounds(s.skip(pos));
        }
    }
}

/// The records of a whole segment.
pub open spec fn seg_records(s: Seq<u8>) -> Option<Seq<PlacedRec>> {
    seg_parse_at(s, 0)
}

/// The byte offset where a parse that started at `pos` and found `rs` ended.
pub open spec fn parse_end(pos: int, rs: Seq<PlacedRec>) -> int {
    if rs.len() == 0 {
        pos
    } else {
        rs.last().start + rs.last().len
    }
}

/// A segment whose bytes are exactly a concatenation of whole records: no
/// junk tail and no truncated record. The active segment always is.
pub open spec fn seg_complete(s: Seq<u8>) -> bool {
    &&& seg_records(s) is Some
    &&& parse_end(0, seg_records(s)->Some_0) == s.len()
}

/// What a parse guarantees of the records it found: they are contiguous from
/// the start position, lie within the bytes, and each one decodes at its
/// offset.
pub open spec fn placed_wf(s: Seq<u8>, pos: int, rs: Seq<PlacedRec>) -> bool {
    &&& forall|i: int|
        0 <= i < rs.len() ==> (#[trigger] rs[i]).start == (if i == 0 {
            pos
        } else {
            rs[i - 1].start + rs[i - 1].len
        })
    &&& forall|i: int|
        0 <= i < rs.len() ==> 9 <= (#[trigger] rs[i]).len && rs[i].start + rs[i].len <= s.len()
    &&& forall|i: int|
        0 <= i < rs.len() ==> spec_decode(s.skip((#[trigger] rs[i]).start)) == (Decoded::Found {
            rec: rs[i].rec,
            len: rs[i].len,
        })
}

/// Appending bytes that decode as one whole record to a complete segment
/// appends exactly that record to its parse.
pub proof fn lemma_parse_append(s: Seq<u8>, chunk: Seq<u8>, r: Rec)
    requires
        seg_complete(s),
        spec_decode(chunk) == (Decoded::Found { rec: r, len: chunk.len() as int }),
    ensures
        seg_records(s + chunk) == Some(
            seg_records(s)->Some_0 + seq![
                PlacedRec { rec: r, start: s.len() as int, len: chunk.len() as int },
            ],
        ),
        seg_complete(s + chunk),
{
    lemma_parse_append_at(s, chunk, r, 0);
    let t = s + chunk;
    let rs = seg_records(s)->Some_0;
    let placed = PlacedRec { rec: r, start: s.len() as int, len: chunk.len() as int };
    assert(parse_end(0, rs + seq![placed]) == t.len());
}

proof fn lemma_parse_append_at(s: Seq<u8>, chunk: Seq<u8>, r: Rec, pos: int)
    requires
        0 <= pos <= s.len(),
        seg_parse_at(s, pos) is Some,
        parse_end(pos, seg_parse_at(s, pos)->Some_0) == s.len(),
        spec_decode(chunk) == (Decoded::Found { rec: r, len: chunk.len() as int }),
    ensures
        seg_parse_at(s + chunk, pos) == Some(
            seg_parse_at(s, pos)->Some_0 + seq![
                PlacedRec { rec: r, start: s.len() as int, len: chunk.len() as int },
            ],
        ),
    decreases s.len() - pos,
{
    let t = s + chunk;
    let rs = seg_parse_at(s, pos)->Some_0;
    let placed = PlacedRec { rec: r, start: s.len() as int, len: chunk.len() as int };
    lemma_decode_bounds(chunk);
    if pos == s.len() {
        assert(rs.len() == 0);
        assert(t.skip(pos) =~= chunk);
        assert(spec_decode(t.skip(pos)) == (Decoded::Found { rec: r, len: chunk.len() as int }));
        assert(pos + chunk.len() >= t.len());
        assert(seg_parse_at(t, pos + chunk.len() as int) == Some(Seq::<PlacedRec>::empty()));
        assert(seg_parse_at(t, pos) == Some(seq![placed] + Seq::<PlacedRec>::empty()));
        assert(seq![placed] + Seq::<PlacedRec>::empty() =~= rs + seq![placed]);
    } else {
        // A parse that ends at s.len() > pos must begin with a whole record.
        match spec_decode(s.skip(pos)) {
            Decoded::Found { rec, len } => {
                lemma_decode_bounds(s.skip(pos));
                let rest = seg_parse_at(s, pos + len)->Some_0;
                assert(rs == seq![PlacedRec { rec, start: pos, len }] + rest);
                if rest.len() == 0 {
                    assert(parse_end(pos, rs) == pos + len);
                } else {
                    assert(rs.last() == rest.last());
                }
                assert(parse_end(pos + len, rest) == s.len());
                lemma_parse_append_at(s, chunk, r, pos + len);
                // The head record decodes identically in the extended bytes.
                assert(t.skip(pos).subrange(0, len) =~= s.skip(pos).subrange(0, len));
                lemma_decode_prefix(s.skip(pos), t.skip(pos));
                assert(seg_parse_at(t, pos) == Some(
                    seq![PlacedRec { rec, start: pos, len }] + (rest + seq![placed]),
                ));
                assert(seq![PlacedRec { rec, start: pos, len }] + (rest + seq![placed]) =~= rs
                    + seq![placed]);
            },
            Decoded::Short => {
                assert(parse_end(pos, rs) == pos);
                assert(false);
            },
            Decoded::Bad => {
                assert(false);
            },
        }
    }
}

/// Decoding at an interior offset is unchanged when bytes are appended,
/// provided the record found there lies wholly within the old bytes.
pub proof fn lemma_decode_extend(d: Seq<u8>, chunk: Seq<u8>, o: int)
    requires
        0 <= o <= d.len(),
        spec_decode(d.skip(o)) is Found,
        o + spec_decode(d.skip(o))->Found_len <= d.len(),
    ensures
        spec_decode((d + chunk).skip(o)) == spec_decode(d.skip(o)),
{
    let s1 = d.skip(o);
    let s2 = (d + chunk).skip(o);
    let l = spec_decode(s1)->Found_len;
    lemma_decode_bounds(s1);
    assert(s2.len() >= l);
    assert(s2.subrange(0, l) =~= s1.subrange(0, l));
    lemma_decode_prefix(s1, s2);
}

/// Dropping the first of a chain of placed records leaves a chain.
proof fn lemma_placed_wf_shift(s: Seq<u8>, base: int, done: Seq<PlacedRec>)
    requires
        placed_wf(s, base, done),
        done.len() > 0,
    ensures
        placed_wf(s, base + done[0].len, done.drop_first()),
        parse_end(base + done[0].len, done.drop_first()) == parse_end(base, done),
{
    let head = done[0];
    let rest = done.drop_first();
    assert forall|i: int| 0 <= i < rest.len() implies (#[trigger] rest[i]).start == (if i == 0 {
        base + head.len
    } else {
        rest[i - 1].start + rest[i - 1].len
    }) by {
        assert(rest[i] == done[i + 1]);
        if i > 0 {
            assert(rest[i - 1] == done[i]);
        }
    }
    assert forall|i: int| 0 <= i < rest.len() implies 9 <= (#[trigger] rest[i]).len && rest[i].start
        + rest[i].len <= s.len() by {
        assert(rest[i] == done[i + 1]);
    }
    assert forall|i: int| 0 <= i < rest.len() implies spec_decode(
        s.skip((#[trigger] rest[i]).start),
    ) == (Decoded::Found { rec: rest[i].rec, len: rest[i].len }) by {
        assert(rest[i] == done[i + 1]);
    }
    if rest.len() == 0 {
        assert(done.last() == head);
    } else {
        assert(done.last() == rest.last());
    }
}

/// A chained parse never ends before it starts.
proof fn lemma_parse_end_ge(s: Seq<u8>, base: int, rs: Seq<PlacedRec>)
    requires
        placed_wf(s, base, rs),
    ensures
        parse_end(base, rs) >= base,
    decreases rs.len(),
{
    if rs.len() > 0 {
        lemma_placed_wf_shift(s, base, rs);
        lemma_parse_end_ge(s, base + rs[0].len, rs.drop_first());
    }
}

/// A parse from `base` splits at any record boundary: the records up to the
/// boundary, then whatever a parse from the boundary yields.
#[verifier::rlimit(100)]
pub proof fn lemma_parse_chain(s: Seq<u8>, base: int, pos: int, done: Seq<PlacedRec>)
    requires
        0 <= base <= pos <= s.len(),
        placed_wf(s, base, done),
        parse_end(base, done) == pos,
    ensures
        seg_parse_at(s, base) == (match seg_parse_at(s, pos) {
            Some(rest) => Some(done + rest),
            None => None::<Seq<PlacedRec>>,
        }),
    decreases done.len(),
{
    if done.len() == 0 {
        assert(base == pos);
        match seg_parse_at(s, pos) {
            Some(rest) => {
                assert(done + rest =~= rest);
            },
            None => {},
        }
    } else {
        let head = done[0];
        assert(head.start == base);
        assert(spec_decode(s.skip(base)) == (Decoded::Found { rec: head.rec, len: head.len }));
        assert(base + head.len <= s.len());
        assert(base < s.len());
        let rest_done = done.drop_first();
        lemma_placed_wf_shift(s, base, done);
        assert(base + head.len <= pos) by {
            lemma_parse_end_ge(s, base + head.len, rest_done);
        }
        lemma_parse_chain(s, base + head.len, pos, rest_done);
        match seg_parse_at(s, pos) {
            Some(rest) => {
                assert(seg_parse_at(s, base + head.len) == Some(rest_done + rest));
                assert(seg_parse_at(s, base) == Some(seq![head] + (rest_done + rest)));
                assert(seq![head] + (rest_done + rest) =~= done + rest);
            },
            None => {
                assert(seg_parse_at(s, base + head.len) is None);
            },
        }
    }
}

/// One record applied to the abstract key-value map.
pub open spec fn apply_rec(m: Map<Seq<char>, Seq<char>>, r: Rec) -> Map<Seq<char>, Seq<char>> {
    match r {
        Rec::Put { key, value } => m.insert(key, value),
        Rec::Remove { key } => m.remove(key),
    }
}

/// A sequence of records applied in order.
pub open spec fn apply_recs(m: Map<Seq<char>, Seq<char>>, rs: Seq<Rec>) -> Map<Seq<char>, Seq<char>>
    decreases rs.len(),
{
    if rs.len() == 0 {
        m
    } else {
        apply_recs(apply_rec(m, rs[0]), rs.drop_first())
    }
}

pub proof fn lemma_apply_recs_push(m: Map<Seq<char>, Seq<char>>, rs: Seq<Rec>, r: Rec)
    ensures
        apply_recs(m, rs.push(r)) == apply_rec(apply_recs(m, rs), r),
    decreases rs.len(),
{
    if rs.len() == 0 {
        assert(rs.push(r).drop_first() =~= Seq::<Rec>::empty());
        assert(rs.push(r)[0] == r);
        assert(apply_recs(m, rs) == m);
        assert(apply_recs(m, rs.push(r)) == apply_recs(apply_rec(m, r), rs.push(r).drop_first()));
        assert(apply_recs(apply_rec(m, r), rs.push(r).drop_first()) == apply_rec(m, r));
    } else {
        assert(rs.push(r)[0] == rs[0]);
        assert(rs.push(r).drop_first() =~= rs.drop_first().push(r));
        lemma_apply_recs_push(apply_rec(m, rs[0]), rs.drop_first(), r);
        assert(apply_recs(m, rs.push(r)) == apply_recs(
            apply_rec(m, rs[0]),
            rs.drop_first().push(r),
        ));
        assert(apply_recs(m, rs) == apply_recs(apply_rec(m, rs[0]), rs.drop_first()));
    }
}

/// Records applied in order can be applied in two runs.
pub proof fn lemma_apply_recs_concat(m: Map<Seq<char>, Seq<char>>, a: Seq<Rec>, b: Seq<Rec>)
    ensures
        apply_recs(m, a + b) == apply_recs(apply_recs(m, a), b),
    decreases b.len(),
{
    if b.len() == 0 {
        assert(a + b =~= a);
    } else {
        let b0 = b.drop_last();
        assert(a + b =~= (a + b0).push(b.last()));
        assert(b =~= b0.push(b.last()));
        lemma_apply_recs_concat(m, a, b0);
        lemma_apply_recs_push(m, a + b0, b.last());
        lemma_apply_recs_push(apply_recs(m, a), b0, b.last());
    }
}

/// The records carried by a parse, in order and without placement.
pub open spec fn recs_of(rs: Seq<PlacedRec>) -> Seq<Rec> {
    rs.map_values(|p: PlacedRec| p.rec)
}

/// The records of a list of segments, in segment order. `None` if any
/// segment holds bytes that can never open a record.
pub open spec fn segs_records(segs: Seq<Seq<u8>>) -> Option<Seq<Rec>>
    decreases segs.len(),
{
    if segs.len() == 0 {
        Some(Seq::empty())
    } else {
        match segs_records(segs.drop_last()) {
            Some(init) => match seg_records(segs.last()) {
                Some(rs) => Some(init + recs_of(rs)),
                None => None,
            },
            None => None,
        }
    }
}

/// Once a prefix of the segments fails to parse, the whole list does.
pub proof fn lemma_segs_records_none(segs: Seq<Seq<u8>>, i: int)
    requires
        0 <= i <= segs.len(),
        segs_records(segs.take(i)) is None,
    ensures
        segs_records(segs) is None,
    decreases segs.len() - i,
{
    if i == segs.len() {
        assert(segs.take(i) =~= segs);
    } else {
        assert(segs.take(i + 1).drop_last() =~= segs.take(i));
        lemma_segs_records_none(segs, i + 1);
    }
}

/// Replay: the abstract key-value map held by a list of segments.
pub open spec fn spec_replay(segs: Seq<Seq<u8>>) -> Option<Map<Seq<char>, Seq<char>>> {
    match segs_records(segs) {
        Some(rs) => Some(apply_recs(Map::empty(), rs)),
        None => None,
    }
}

/// Extending the last segment with one whole record appends exactly that
/// record to the log and applies it to the replayed map.
pub proof fn lemma_segs_records_extend(datas: Seq<Seq<u8>>, chunk: Seq<u8>, r: Rec)
    requires
        datas.len() >= 1,
        segs_records(datas) is Some,
        seg_complete(datas.last()),
        spec_decode(chunk) == (Decoded::Found { rec: r, len: chunk.len() as int }),
    ensures
        segs_records(datas.update(datas.len() - 1, datas.last() + chunk)) == Some(
            segs_records(datas)->Some_0.push(r),
        ),
        spec_replay(datas.update(datas.len() - 1, datas.last() + chunk)) == Some(
            apply_rec(spec_replay(datas)->Some_0, r),
        ),
        seg_complete(datas.last() + chunk),
{
    let updated = datas.update(datas.len() - 1, datas.last() + chunk);
    assert(updated.drop_last() =~= datas.drop_last());
    assert(updated.last() == datas.last() + chunk);
    lemma_parse_append(datas.last(), chunk, r);
    let rs_old = seg_records(datas.last())->Some_0;
    let placed = PlacedRec { rec: r, start: datas.last().len() as int, len: chunk.len() as int };
    assert(recs_of(rs_old + seq![placed]) =~= recs_of(rs_old).push(r));
    let init = segs_records(datas.drop_last())->Some_0;
    assert(segs_records(datas) == Some(init + recs_of(rs_old)));
    assert(segs_records(updated) == Some(init + recs_of(rs_old + seq![placed])));
    assert(init + recs_of(rs_old).push(r) =~= (init + recs_of(rs_old)).push(r));
    lemma_apply_recs_push(Map::empty(), init + recs_of(rs_old), r);
}

/// Folding `Put` records with pairwise-distinct keys builds exactly the map
/// of those pairs.
pub proof fn lemma_apply_puts(recs: Seq<Rec>, mm: Map<Seq<char>, Seq<char>>)
    requires
        forall|j: int| 0 <= j < recs.len() ==> (#[trigger] recs[j]) is Put,
        forall|j1: int, j2: int|
            0 <= j1 < j2 < recs.len() ==> (#[trigger] recs[j1])->Put_key != (
            #[trigger] recs[j2])->Put_key,
        mm.dom() =~= Set::new(
            |k: Seq<char>| exists|j: int| 0 <= j < recs.len() && (#[trigger] recs[j])->Put_key == k,
        ),
        forall|j: int|
            0 <= j < recs.len() ==> mm[(#[trigger] recs[j])->Put_key] == recs[j]->Put_value,
    ensures
        apply_recs(Map::empty(), recs) == mm,
    decreases recs.len(),
{
    if recs.len() == 0 {
        assert(mm.dom() =~= Set::<Seq<char>>::empty());
        assert(apply_recs(Map::empty(), recs) =~= mm);
    } else {
        let init = recs.drop_last();
        let last = recs.last();
        let mm2 = mm.remove(last->Put_key);
        assert(recs =~= init.push(last));
        assert forall|j: int| 0 <= j < init.len() implies (#[trigger] init[j]) is Put by {
            assert(init[j] == recs[j]);
        }
        assert(mm2.dom() =~= Set::new(
            |k: Seq<char>|
                exists|j: int| 0 <= j < init.len() && (#[trigger] init[j])->Put_key == k,
        )) by {
            assert forall|k: Seq<char>| mm2.dom().contains(k) implies Set::new(
                |k2: Seq<char>|
                    exists|j: int| 0 <= j < init.len() && (#[trigger] init[j])->Put_key == k2,
            ).contains(k) by {
                let w = choose|j: int| 0 <= j < recs.len() && (#[trigger] recs[j])->Put_key == k;
                assert(w < recs.len() - 1);
                assert(init[w] == recs[w]);
            }
            assert forall|k: Seq<char>| Set::new(
                |k2: Seq<char>|
                    exists|j: int| 0 <= j < init.len() && (#[trigger] init[j])->Put_key == k2,
            ).contains(k) implies mm2.dom().contains(k) by {
                let w = choose|j: int| 0 <= j < init.len() && (#[trigger] init[j])->Put_key == k;
                assert(recs[w] == init[w]);
                assert(recs[w]->Put_key != recs[recs.len() - 1]->Put_key);
            }
        }
        assert forall|j: int| 0 <= j < init.len() implies mm2[(#[trigger] init[j])->Put_key]
            == init[j]->Put_value by {
            assert(init[j] == recs[j]);
            assert(recs[j]->Put_key != recs[recs.len() - 1]->Put_key);
        }
        lemma_apply_puts(init, mm2);
        lemma_apply_recs_push(Map::empty(), init, last);
        assert(apply_recs(Map::empty(), recs) == mm2.insert(last->Put_key, last->Put_value));
        assert(mm.dom().contains(last->Put_key));
        assert(mm2.insert(last->Put_key, last->Put_value) =~= mm);
    }
}

} // verus!
