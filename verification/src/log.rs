//! Log segments and their replay semantics.
//!
//! A segment is an append-only file `<gen>.log` holding a concatenation
//! of serialized records with no framing around them.  Replaying the
//! segments of a directory in ascending generation order, applying
//! `Set` and `Rm` records to a map, yields the live key/value map; that
//! map is the specification the store is verified against.

use vstd::prelude::*;

use crate::codec::{dec_rec, enc_rec, rec_utf8, starts_at, Rec};
use crate::codec::{lemma_dec_rec_of_enc, lemma_dec_rec_sound, lemma_starts_at_append};

verus! {

/// One log segment: its generation number and its contents.
#[derive(Clone)]
pub struct Segment {
    /// The generation number, from the file name `<gen>.log`.
    pub gen: u64,
    /// The bytes of the file.
    pub data: Vec<u8>,
}

/// The records of `s` from position `i` on, or `None` where the bytes
/// do not parse as a whole number of records.  A trailing truncated
/// record makes the whole segment malformed.
pub open spec fn seg_records_from(s: Seq<u8>, i: int) -> Option<Seq<Rec>>
    decreases s.len() - i when 0 <= i <= s.len()
{
    if i == s.len() {
        Some(Seq::empty())
    } else {
        match dec_rec(s, i) {
            Some((r, e)) => if i < e <= s.len() {
                match seg_records_from(s, e) {
                    Some(rs) => Some(seq![r] + rs),
                    None => None,
                }
            } else {
                None
            },
            None => None,
        }
    }
}

/// True when a segment parses as a whole number of records.
pub open spec fn seg_ok(s: Seq<u8>) -> bool {
    seg_records_from(s, 0) is Some
}

/// The records of a well-formed segment.
pub open spec fn records_of(s: Seq<u8>) -> Seq<Rec>
    recommends
        seg_ok(s),
{
    seg_records_from(s, 0)->Some_0
}

/// One record applied to the live map: `Set` binds, `Rm` unbinds,
/// `Get` never reaches the log and changes nothing.
pub open spec fn apply_rec(m: Map<Seq<u8>, Seq<u8>>, r: Rec) -> Map<Seq<u8>, Seq<u8>> {
    match r {
        Rec::SetRec { key, value } => m.insert(key, value),
        Rec::Rm { key } => m.remove(key),
        Rec::Get { .. } => m,
    }
}

/// A sequence of records applied in order.
pub open spec fn apply_recs(m: Map<Seq<u8>, Seq<u8>>, rs: Seq<Rec>) -> Map<Seq<u8>, Seq<u8>>
    decreases rs.len(),
{
    if rs.len() == 0 {
        m
    } else {
        apply_recs(apply_rec(m, rs[0]), rs.drop_first())
    }
}

/// The contents of each segment, in order.
pub open spec fn datas(segs: Seq<Segment>) -> Seq<Seq<u8>> {
    segs.map_values(|sg: Segment| sg.data@)
}

/// True when every segment parses.
pub open spec fn disk_ok(ds: Seq<Seq<u8>>) -> bool {
    forall|i: int| 0 <= i < ds.len() ==> seg_ok(#[trigger] ds[i])
}

/// The live map of a disk: every segment replayed in order.
pub open spec fn log_map_from(m: Map<Seq<u8>, Seq<u8>>, ds: Seq<Seq<u8>>) -> Map<Seq<u8>, Seq<u8>>
    decreases ds.len(),
{
    if ds.len() == 0 {
        m
    } else {
        log_map_from(apply_recs(m, records_of(ds[0])), ds.drop_first())
    }
}

/// The live map of a disk, starting from nothing.
pub open spec fn log_map(ds: Seq<Seq<u8>>) -> Map<Seq<u8>, Seq<u8>> {
    log_map_from(Map::empty(), ds)
}

/// The number of bytes a disk holds.
pub open spec fn total_size(ds: Seq<Seq<u8>>) -> int
    decreases ds.len(),
{
    if ds.len() == 0 {
        0
    } else {
        ds[0].len() + total_size(ds.drop_first())
    }
}

/// Applying records distributes over appending one record.
pub proof fn lemma_apply_recs_snoc(m: Map<Seq<u8>, Seq<u8>>, rs: Seq<Rec>, r: Rec)
    ensures
        apply_recs(m, rs.push(r)) == apply_rec(apply_recs(m, rs), r),
    decreases rs.len(),
{
    if rs.len() == 0 {
        assert(rs.push(r).drop_first() =~= Seq::<Rec>::empty());
        assert(rs.push(r)[0] == r);
        assert(apply_recs(m, rs.push(r)) == apply_recs(apply_rec(m, r), Seq::<Rec>::empty()));
        assert(apply_recs(m, rs) == m);
    } else {
        assert(rs.push(r)[0] == rs[0]);
        assert(rs.push(r).drop_first() =~= rs.drop_first().push(r));
        assert(apply_recs(m, rs.push(r)) == apply_recs(apply_rec(m, rs[0]), rs.drop_first().push(r)));
        lemma_apply_recs_snoc(apply_rec(m, rs[0]), rs.drop_first(), r);
        assert(apply_recs(m, rs) == apply_recs(apply_rec(m, rs[0]), rs.drop_first()));
    }
}

/// Appending the encoding of one record to a well-formed segment
/// appends that record to its record list.
pub proof fn lemma_seg_records_append(s: Seq<u8>, i: int, r: Rec)
    requires
        0 <= i <= s.len(),
        seg_records_from(s, i) is Some,
        rec_utf8(r),
    ensures
        seg_records_from(s + enc_rec(r), i) == Some(seg_records_from(s, i)->Some_0.push(r)),
    decreases s.len() - i,
{
    let t = s + enc_rec(r);
    if i == s.len() {
        assert(t.subrange(i, i + enc_rec(r).len()) =~= enc_rec(r));
        lemma_dec_rec_of_enc(t, i, r);
        lemma_dec_rec_sound(t, i);
        let e = i + enc_rec(r).len();
        assert(e == t.len());
        assert(seg_records_from(t, e) == Some(Seq::<Rec>::empty()));
        assert(seq![r] + Seq::<Rec>::empty() =~= Seq::<Rec>::empty().push(r));
    } else {
        let (r0, e) = dec_rec(s, i)->Some_0;
        lemma_dec_rec_sound(s, i);
        lemma_starts_at_append(s, enc_rec(r), i, enc_rec(r0));
        lemma_dec_rec_of_enc(t, i, r0);
        assert(dec_rec(t, i) == Some((r0, e)));
        lemma_seg_records_append(s, e, r);
        let rest = seg_records_from(s, e)->Some_0;
        assert(seq![r0] + rest.push(r) =~= (seq![r0] + rest).push(r));
    }
}

/// The live map of a disk with one more segment: replay the prefix,
/// then the new segment.
pub proof fn lemma_log_map_from_snoc(m: Map<Seq<u8>, Seq<u8>>, ds: Seq<Seq<u8>>, d: Seq<u8>)
    ensures
        log_map_from(m, ds.push(d)) == apply_recs(log_map_from(m, ds), records_of(d)),
    decreases ds.len(),
{
    if ds.len() == 0 {
        assert(ds.push(d)[0] == d);
        assert(ds.push(d).drop_first() =~= Seq::<Seq<u8>>::empty());
        assert(log_map_from(m, ds.push(d)) == log_map_from(
            apply_recs(m, records_of(d)),
            Seq::<Seq<u8>>::empty(),
        ));
        assert(log_map_from(m, ds) == m);
    } else {
        assert(ds.push(d)[0] == ds[0]);
        assert(ds.push(d).drop_first() =~= ds.drop_first().push(d));
        assert(log_map_from(m, ds.push(d)) == log_map_from(
            apply_recs(m, records_of(ds[0])),
            ds.drop_first().push(d),
        ));
        lemma_log_map_from_snoc(apply_recs(m, records_of(ds[0])), ds.drop_first(), d);
        assert(log_map_from(m, ds) == log_map_from(apply_recs(m, records_of(ds[0])), ds.drop_first()));
    }
}

/// A nonempty disk replays as its prefix followed by its last segment.
pub proof fn lemma_log_map_last(ds: Seq<Seq<u8>>)
    requires
        ds.len() > 0,
    ensures
        log_map(ds) == apply_recs(log_map(ds.drop_last()), records_of(ds.last())),
{
    assert(ds =~= ds.drop_last().push(ds.last()));
    lemma_log_map_from_snoc(Map::empty(), ds.drop_last(), ds.last());
}

/// The size of a disk with one more segment.
pub proof fn lemma_total_size_snoc(ds: Seq<Seq<u8>>, d: Seq<u8>)
    ensures
        total_size(ds.push(d)) == total_size(ds) + d.len(),
    decreases ds.len(),
{
    if ds.len() == 0 {
        assert(ds.push(d)[0] == d);
        assert(ds.push(d).drop_first() =~= Seq::<Seq<u8>>::empty());
        assert(total_size(ds.push(d)) == d.len() + total_size(Seq::<Seq<u8>>::empty()));
    } else {
        assert(ds.push(d)[0] == ds[0]);
        assert(ds.push(d).drop_first() =~= ds.drop_first().push(d));
        assert(total_size(ds.push(d)) == ds[0].len() + total_size(ds.drop_first().push(d)));
        lemma_total_size_snoc(ds.drop_first(), d);
        assert(total_size(ds) == ds[0].len() + total_size(ds.drop_first()));
    }
}

/// The size of a nonempty disk, split at the last segment.
pub proof fn lemma_total_size_last(ds: Seq<Seq<u8>>)
    requires
        ds.len() > 0,
    ensures
        total_size(ds) == total_size(ds.drop_last()) + ds.last().len(),
{
    assert(ds =~= ds.drop_last().push(ds.last()));
    lemma_total_size_snoc(ds.drop_last(), ds.last());
}

/// The empty segment holds no records.
pub proof fn lemma_empty_seg_ok()
    ensures
        seg_ok(Seq::<u8>::empty()),
        records_of(Seq::<u8>::empty()) == Seq::<Rec>::empty(),
{
}

/// Appending an empty segment leaves the live map unchanged, and
/// appending the encoding of one record to the last segment applies
/// that record to the live map.
pub proof fn lemma_log_map_append_record(ds: Seq<Seq<u8>>, r: Rec)
    requires
        ds.len() > 0,
        disk_ok(ds),
        rec_utf8(r),
    ensures
        ({
            let ds2 = ds.update(ds.len() - 1, ds.last() + enc_rec(r));
            &&& disk_ok(ds2)
            &&& log_map(ds2) == apply_rec(log_map(ds), r)
            &&& total_size(ds2) == total_size(ds) + enc_rec(r).len()
        }),
{
    let ds2 = ds.update(ds.len() - 1, ds.last() + enc_rec(r));
    assert(ds2.drop_last() =~= ds.drop_last());
    assert(ds2.last() == ds.last() + enc_rec(r));
    assert(seg_ok(ds.last()));
    lemma_seg_records_append(ds.last(), 0, r);
    assert(disk_ok(ds2)) by {
        assert forall|i: int| 0 <= i < ds2.len() implies seg_ok(#[trigger] ds2[i]) by {
            if i < ds2.len() - 1 {
                assert(ds2[i] == ds[i]);
            } else {
                assert(ds2[i] == ds2.last());
            }
        }
    }
    lemma_log_map_last(ds);
    lemma_log_map_last(ds2);
    lemma_apply_recs_snoc(log_map(ds.drop_last()), records_of(ds.last()), r);
    lemma_total_size_last(ds);
    lemma_total_size_last(ds2);
}


/// A disk never holds a negative number of bytes.
pub proof fn lemma_total_size_nonneg(ds: Seq<Seq<u8>>)
    ensures
        total_size(ds) >= 0,
    decreases ds.len(),
{
    if ds.len() > 0 {
        lemma_total_size_nonneg(ds.drop_first());
    }
}

/// Disk size distributes over concatenation.
pub proof fn lemma_total_size_concat(a: Seq<Seq<u8>>, b: Seq<Seq<u8>>)
    ensures
        total_size(a + b) == total_size(a) + total_size(b),
    decreases a.len(),
{
    if a.len() == 0 {
        assert(a + b =~= b);
    } else {
        assert((a + b)[0] == a[0]);
        assert((a + b).drop_first() =~= a.drop_first() + b);
        assert(total_size(a + b) == a[0].len() + total_size(a.drop_first() + b));
        lemma_total_size_concat(a.drop_first(), b);
    }
}


/// The bytes the live `Set` record for `kb` occupies on disk, or zero
/// where `kb` is not live: what overwriting or removing `kb` turns
/// into dead bytes.  Under the store's invariant, a live record is
/// exactly the encoding of its binding, so this is a function of the
/// live map alone.
pub open spec fn displaced_len(m: Map<Seq<u8>, Seq<u8>>, kb: Seq<u8>) -> int {
    if m.contains_key(kb) {
        enc_rec((Rec::SetRec { key: kb, value: m[kb] })).len() as int
    } else {
        0
    }
}

/// A byte count held in the dead-byte counter, which saturates at the
/// top of `u64`.
pub open spec fn capped(a: int) -> int {
    if a <= u64::MAX {
        a
    } else {
        u64::MAX as int
    }
}

/// The dead bytes one replayed record creates: a `Set` displaces any
/// live record for its key, a `Rm` displaces one and is itself dead,
/// a `Get` creates none.
pub open spec fn dead_of_rec(m: Map<Seq<u8>, Seq<u8>>, r: Rec) -> int {
    match r {
        Rec::SetRec { key, .. } => displaced_len(m, key),
        Rec::Rm { key } => displaced_len(m, key) + enc_rec(r).len(),
        Rec::Get { .. } => 0,
    }
}

/// The dead bytes a record list creates when replayed over a live map.
pub open spec fn dead_of_recs(m: Map<Seq<u8>, Seq<u8>>, rs: Seq<Rec>) -> int
    decreases rs.len(),
{
    if rs.len() == 0 {
        0
    } else {
        dead_of_rec(m, rs[0]) + dead_of_recs(apply_rec(m, rs[0]), rs.drop_first())
    }
}

/// The dead bytes a disk creates when replayed segment by segment.
pub open spec fn dead_of_disk(m: Map<Seq<u8>, Seq<u8>>, ds: Seq<Seq<u8>>) -> int
    decreases ds.len(),
{
    if ds.len() == 0 {
        0
    } else {
        dead_of_recs(m, records_of(ds[0])) + dead_of_disk(
            apply_recs(m, records_of(ds[0])),
            ds.drop_first(),
        )
    }
}

/// The empty live map.
pub open spec fn empty_map() -> Map<Seq<u8>, Seq<u8>> {
    Map::empty()
}

/// The dead bytes replaying a whole disk creates, from nothing.
pub open spec fn dead_of_files(ds: Seq<Seq<u8>>) -> int {
    dead_of_disk(empty_map(), ds)
}

/// Replay creates a nonnegative number of dead bytes.
pub proof fn lemma_dead_of_recs_nonneg(m: Map<Seq<u8>, Seq<u8>>, rs: Seq<Rec>)
    ensures
        dead_of_recs(m, rs) >= 0,
    decreases rs.len(),
{
    if rs.len() > 0 {
        lemma_dead_of_recs_nonneg(apply_rec(m, rs[0]), rs.drop_first());
    }
}

/// The dead bytes of a record list with one more record.
pub proof fn lemma_dead_of_recs_snoc(m: Map<Seq<u8>, Seq<u8>>, rs: Seq<Rec>, r: Rec)
    ensures
        dead_of_recs(m, rs.push(r)) == dead_of_recs(m, rs) + dead_of_rec(apply_recs(m, rs), r),
    decreases rs.len(),
{
    if rs.len() == 0 {
        assert(rs.push(r)[0] == r);
        assert(rs.push(r).drop_first() =~= Seq::<Rec>::empty());
        assert(dead_of_recs(m, rs.push(r)) == dead_of_rec(m, r) + dead_of_recs(
            apply_rec(m, r),
            Seq::<Rec>::empty(),
        ));
    } else {
        assert(rs.push(r)[0] == rs[0]);
        assert(rs.push(r).drop_first() =~= rs.drop_first().push(r));
        assert(dead_of_recs(m, rs.push(r)) == dead_of_rec(m, rs[0]) + dead_of_recs(
            apply_rec(m, rs[0]),
            rs.drop_first().push(r),
        ));
        lemma_dead_of_recs_snoc(apply_rec(m, rs[0]), rs.drop_first(), r);
        assert(apply_recs(m, rs) == apply_recs(apply_rec(m, rs[0]), rs.drop_first()));
    }
}

/// A disk never creates a negative number of dead bytes.
pub proof fn lemma_dead_of_disk_nonneg(m: Map<Seq<u8>, Seq<u8>>, ds: Seq<Seq<u8>>)
    ensures
        dead_of_disk(m, ds) >= 0,
    decreases ds.len(),
{
    if ds.len() > 0 {
        lemma_dead_of_recs_nonneg(m, records_of(ds[0]));
        lemma_dead_of_disk_nonneg(apply_recs(m, records_of(ds[0])), ds.drop_first());
    }
}

/// The dead bytes of a disk with one more segment.
pub proof fn lemma_dead_of_disk_snoc(m: Map<Seq<u8>, Seq<u8>>, ds: Seq<Seq<u8>>, d: Seq<u8>)
    ensures
        dead_of_disk(m, ds.push(d)) == dead_of_disk(m, ds) + dead_of_recs(
            log_map_from(m, ds),
            records_of(d),
        ),
    decreases ds.len(),
{
    if ds.len() == 0 {
        assert(ds.push(d)[0] == d);
        assert(ds.push(d).drop_first() =~= Seq::<Seq<u8>>::empty());
        assert(dead_of_disk(m, ds.push(d)) == dead_of_recs(m, records_of(d)) + dead_of_disk(
            apply_recs(m, records_of(d)),
            Seq::<Seq<u8>>::empty(),
        ));
        assert(log_map_from(m, ds) == m);
    } else {
        assert(ds.push(d)[0] == ds[0]);
        assert(ds.push(d).drop_first() =~= ds.drop_first().push(d));
        assert(dead_of_disk(m, ds.push(d)) == dead_of_recs(m, records_of(ds[0])) + dead_of_disk(
            apply_recs(m, records_of(ds[0])),
            ds.drop_first().push(d),
        ));
        lemma_dead_of_disk_snoc(apply_recs(m, records_of(ds[0])), ds.drop_first(), d);
        assert(log_map_from(m, ds) == log_map_from(
            apply_recs(m, records_of(ds[0])),
            ds.drop_first(),
        ));
    }
}


/// The bytes a record list occupies when laid out end to end.
pub open spec fn enc_total(rs: Seq<Rec>) -> int
    decreases rs.len(),
{
    if rs.len() == 0 {
        0
    } else {
        enc_rec(rs[0]).len() + enc_total(rs.drop_first())
    }
}

/// A well-formed segment is exactly as long as its records' encodings
/// together: nothing on disk is outside some record.
pub proof fn lemma_seg_size(s: Seq<u8>, i: int)
    requires
        0 <= i <= s.len(),
        seg_records_from(s, i) is Some,
    ensures
        s.len() - i == enc_total(seg_records_from(s, i)->Some_0),
    decreases s.len() - i,
{
    if i == s.len() {
    } else {
        let (r, e) = dec_rec(s, i)->Some_0;
        lemma_dec_rec_sound(s, i);
        lemma_seg_size(s, e);
        let rest = seg_records_from(s, e)->Some_0;
        assert((seq![r] + rest)[0] == r);
        assert((seq![r] + rest).drop_first() =~= rest);
    }
}

} // verus!
