//! The storage engine: an in-memory index over generation-numbered,
//! append-only log segments, with online compaction.
//!
//! The engine's state is specified by the live map [`log_map`] of its
//! segments: opening a directory replays every segment in generation
//! order, `set` and `remove` append a record and update the index, and
//! `get` streams the exact byte range the index points at.  The
//! well-formedness invariant ties every index entry to a `Set` record
//! whose bytes are present in some segment, so a read never observes a
//! wrong or stale value.

use vstd::prelude::*;

use crossbeam_skiplist::SkipMap;

use crate::codec::{enc_rec, rec_utf8, Command, Rec};
use crate::codec::{decode_command_at, encode_command, lemma_dec_rec_of_enc, lemma_dec_rec_sound};
use crate::codec::{dec_rec, starts_at};
use crate::COMPACTION_THRESHOLD;
use crate::error::KvsError;
use crate::index::{index_entries, index_get, index_insert, index_new, index_remove, index_to_vec};
use crate::index::{chars_lt, CommandPos};
use crate::log::{apply_rec, apply_recs, datas, disk_ok, log_map, records_of, seg_ok, total_size};
use crate::log::{lemma_seg_records_append, seg_records_from, Segment};
use crate::log::{
    lemma_apply_recs_snoc, lemma_log_map_append_record, lemma_log_map_from_snoc,
    lemma_total_size_snoc,
};
use crate::log::{lemma_empty_seg_ok, lemma_total_size_concat, lemma_total_size_nonneg};
use crate::log::{capped, dead_of_disk, dead_of_files, dead_of_rec, dead_of_recs, displaced_len};
use crate::log::{empty_map, lemma_dead_of_disk_nonneg};
use crate::log::{lemma_dead_of_disk_snoc, lemma_dead_of_recs_nonneg, lemma_dead_of_recs_snoc};
use vstd::utf8::{decode_utf8, encode_utf8, valid_utf8};

verus! {

/// True when `cp` locates, in one of `segs`, exactly the bytes of a
/// `Set` record binding `kb` to `vb`.
pub open spec fn entry_points(cp: CommandPos, kb: Seq<u8>, vb: Seq<u8>, segs: Seq<Segment>) -> bool {
    exists|si: int|
        0 <= si < segs.len() && (#[trigger] segs[si].gen) == cp.gen && cp.pos + cp.len
            <= segs[si].data@.len() && segs[si].data@.subrange(cp.pos as int, cp.pos + cp.len)
            == enc_rec((Rec::SetRec { key: kb, value: vb }))
}

/// True when the index `entries` describe exactly the live map `m` of
/// the segments `segs`: every indexed key is live and its entry points
/// at the authoritative `Set` record, every live key is indexed, and
/// live keys and values are valid UTF-8.
pub open spec fn index_matches(
    entries: Map<Seq<char>, CommandPos>,
    segs: Seq<Segment>,
    m: Map<Seq<u8>, Seq<u8>>,
) -> bool {
    &&& forall|kc: Seq<char>| #[trigger]
        entries.contains_key(kc) ==> m.contains_key(encode_utf8(kc)) && entry_points(
            entries[kc],
            encode_utf8(kc),
            m[encode_utf8(kc)],
            segs,
        )
    &&& forall|kb: Seq<u8>| #[trigger]
        m.contains_key(kb) ==> exists|kc: Seq<char>|
            (#[trigger] entries.contains_key(kc)) && encode_utf8(kc) == kb
    &&& forall|kb: Seq<u8>| #[trigger] m.contains_key(kb) ==> valid_utf8(kb) && valid_utf8(m[kb])
}

/// UTF-8 encoding is injective: vstd's round trip gives the characters
/// back from the bytes.
pub proof fn lemma_encode_utf8_injective(a: Seq<char>, b: Seq<char>)
    requires
        encode_utf8(a) == encode_utf8(b),
    ensures
        a == b,
{
    vstd::utf8::encode_utf8_decode_utf8(a);
    vstd::utf8::encode_utf8_decode_utf8(b);
}

/// The disk after one record is appended to the current segment.
pub open spec fn disk_append(ds: Seq<Seq<u8>>, r: Rec) -> Seq<Seq<u8>>
    recommends
        ds.len() >= 1,
{
    ds.update(ds.len() - 1, ds.last() + enc_rec(r))
}

/// Under the index invariant, the entry of a present key is exactly as
/// long as the encoding of that key's live `Set` record.
proof fn lemma_entry_len(
    entries: Map<Seq<char>, CommandPos>,
    segs: Seq<Segment>,
    m: Map<Seq<u8>, Seq<u8>>,
    kc: Seq<char>,
)
    requires
        index_matches(entries, segs, m),
        entries.contains_key(kc),
    ensures
        m.contains_key(encode_utf8(kc)),
        entries[kc].len as int == enc_rec(
            (Rec::SetRec { key: encode_utf8(kc), value: m[encode_utf8(kc)] }),
        ).len(),
{
    let cp = entries[kc];
    let kb = encode_utf8(kc);
    let si = choose|si: int|
        0 <= si < segs.len() && (#[trigger] segs[si].gen) == cp.gen && cp.pos + cp.len
            <= segs[si].data@.len() && segs[si].data@.subrange(cp.pos as int, cp.pos + cp.len)
            == enc_rec((Rec::SetRec { key: kb, value: m[kb] }));
    assert(segs[si].data@.subrange(cp.pos as int, cp.pos + cp.len).len() == cp.len as int);
}

/// An index that matches a disk still matches it after a segment is
/// appended, for the same live map.
proof fn lemma_index_matches_grow(
    entries: Map<Seq<char>, CommandPos>,
    segs: Seq<Segment>,
    m: Map<Seq<u8>, Seq<u8>>,
    sg: Segment,
)
    requires
        index_matches(entries, segs, m),
    ensures
        index_matches(entries, segs.push(sg), m),
{
    let segs2 = segs.push(sg);
    assert forall|kc: Seq<char>| #[trigger]
        entries.contains_key(kc) implies m.contains_key(encode_utf8(kc)) && entry_points(
        entries[kc],
        encode_utf8(kc),
        m[encode_utf8(kc)],
        segs2,
    ) by {
        let cp = entries[kc];
        let kb = encode_utf8(kc);
        let si = choose|si: int|
            0 <= si < segs.len() && (#[trigger] segs[si].gen) == cp.gen && cp.pos + cp.len
                <= segs[si].data@.len() && segs[si].data@.subrange(cp.pos as int, cp.pos + cp.len)
                == enc_rec((Rec::SetRec { key: kb, value: m[kb] }));
        assert(segs2[si] == segs[si]);
    }
}

/// Saturating addition on byte counters.
fn sat_add(a: u64, b: u64) -> (r: u64)
    ensures
        r as int == if a + b <= u64::MAX {
            a + b
        } else {
            u64::MAX as int
        },
{
    if a <= u64::MAX - b {
        a + b
    } else {
        u64::MAX
    }
}

/// The index bindings after one segment is replayed over `entries`:
/// each `Set` record binds its key to that record's exact extent
/// `(gen, pos, len)`, each `Rm` record unbinds its key, `Get` records
/// and keys the segment never names are left untouched.  Where the
/// bytes stop parsing, the bindings accumulated so far remain.
pub open spec fn seg_index_from(
    s: Seq<u8>,
    i: int,
    gen: u64,
    entries: Map<Seq<char>, CommandPos>,
) -> Map<Seq<char>, CommandPos>
    decreases s.len() - i when 0 <= i <= s.len()
{
    if i == s.len() {
        entries
    } else {
        match dec_rec(s, i) {
            Some((r, e)) => if i < e <= s.len() {
                let stepped = match r {
                    Rec::SetRec { key, .. } => entries.insert(
                        decode_utf8(key),
                        (CommandPos { gen, pos: i as u64, len: (e - i) as u64 }),
                    ),
                    Rec::Rm { key } => entries.remove(decode_utf8(key)),
                    Rec::Get { .. } => entries,
                };
                seg_index_from(s, e, gen, stepped)
            } else {
                entries
            },
            None => entries,
        }
    }
}

/// Replays one segment into the index, as `open` does for each
/// segment it finds: `Set` records bind their key to the record's
/// location, `Rm` records unbind it.  Returns an estimate of the dead
/// bytes this segment contributed, used only to trigger compaction.
fn load(
    gen: u64,
    data: &Vec<u8>,
    segs: &Vec<Segment>,
    index: &mut SkipMap<String, CommandPos>,
) -> (r: Result<u64, KvsError>)
    requires
        disk_ok(datas(segs@)),
        index_matches(index_entries(*old(index)), segs@, log_map(datas(segs@))),
        forall|i: int| 0 <= i < segs@.len() ==> (#[trigger] segs@[i].gen) < gen,
    ensures
        r is Ok <==> seg_ok(data@),
        r is Ok ==> index_matches(
            index_entries(*final(index)),
            segs@.push((Segment { gen: gen, data: *data })),
            log_map(datas(segs@.push((Segment { gen: gen, data: *data })))),
        ),
        // the returned count is exactly the dead bytes this segment's
        // records create, saturating at the top of u64
        r matches Ok(u) ==> u as int == capped(
            dead_of_recs(log_map(datas(segs@)), records_of(data@)),
        ),
        // exact placement: the final bindings are the fold of this
        // segment's records over the old ones, extent by extent; this
        // holds as far as the bytes parse, on the error path too
        index_entries(*final(index)) == seg_index_from(
            data@,
            0,
            gen,
            index_entries(*old(index)),
        ),
        r matches Err(e) ==> e is Serde,
{
    broadcast use vstd::utf8::encode_utf8_valid_utf8;

    let ghost full = segs@.push(Segment { gen: gen, data: *data });
    let ghost base = log_map(datas(segs@));
    proof {
        lemma_index_matches_grow(
            index_entries(*index),
            segs@,
            base,
            Segment { gen: gen, data: *data },
        );
        if seg_records_from(data@, 0) is Some {
            let suf = seg_records_from(data@, 0)->Some_0;
            assert(Seq::<Rec>::empty() + suf =~= suf);
        }
    }
    let mut pos: usize = 0;
    let mut unc: u64 = 0;
    let ghost mut done: Seq<Rec> = Seq::empty();
    while pos != data.len()
        invariant
            pos <= data.len(),
            full == segs@.push(Segment { gen: gen, data: *data }),
            base == log_map(datas(segs@)),
            seg_records_from(data@, pos as int) matches Some(suf) ==> seg_records_from(data@, 0)
                == Some(done + suf),
            seg_records_from(data@, pos as int) is None ==> seg_records_from(data@, 0) is None,
            index_matches(index_entries(*index), full, apply_recs(base, done)),
            unc as int == capped(dead_of_recs(base, done)),
            seg_index_from(data@, 0, gen, index_entries(*old(index))) == seg_index_from(
                data@,
                pos as int,
                gen,
                index_entries(*index),
            ),
        decreases data.len() - pos,
    {
        let ghost m = apply_recs(base, done);
        match decode_command_at(data, pos) {
            Err(e) => {
                return Err(e);
            },
            Ok((cmd, end)) => {
                let ghost r = cmd@;
                proof {
                    lemma_dec_rec_sound(data@, pos as int);
                    if seg_records_from(data@, end as int) is Some {
                        let suf2 = seg_records_from(data@, end as int)->Some_0;
                        assert(seg_records_from(data@, pos as int) == Some(seq![r] + suf2));
                        assert(done + (seq![r] + suf2) =~= done.push(r) + suf2);
                    }
                    lemma_apply_recs_snoc(base, done, r);
                    lemma_dead_of_recs_snoc(base, done, r);
                    lemma_dead_of_recs_nonneg(base, done);
                }
                let ghost entries_at_rec = index_entries(*index);
                let cp = CommandPos { gen: gen, pos: pos as u64, len: (end - pos) as u64 };
                match cmd {
                    Command::SetCmd { key, value } => {
                        let ghost kc = key@;
                        let ghost kb = encode_utf8(kc);
                        let ghost vb = encode_utf8(value@);
                        let ghost entries0 = index_entries(*index);
                        let old_entry = index_get(index, &key);
                        match old_entry {
                            Some(o) => {
                                proof {
                                    lemma_entry_len(entries0, full, m, kc);
                                    assert(o.len as int == displaced_len(m, kb));
                                }
                                unc = sat_add(unc, o.len);
                            },
                            None => {
                                proof {
                                    if m.contains_key(kb) {
                                        let kc2 = choose|kc2: Seq<char>|
                                            (#[trigger] entries0.contains_key(kc2)) && encode_utf8(
                                                kc2,
                                            ) == kb;
                                        lemma_encode_utf8_injective(kc2, kc);
                                    }
                                    assert(displaced_len(m, kb) == 0);
                                }
                            },
                        }
                        proof {
                            assert(unc as int == capped(dead_of_recs(base, done.push(r))));
                        }
                        index_insert(index, key, cp);
                        proof {
                            vstd::utf8::encode_utf8_decode_utf8(kc);
                            assert(index_entries(*index) == entries_at_rec.insert(
                                decode_utf8(kb),
                                cp,
                            ));
                            assert(seg_index_from(data@, pos as int, gen, entries_at_rec)
                                == seg_index_from(data@, end as int, gen, index_entries(*index)));
                            let m2 = apply_recs(base, done.push(r));
                            assert(m2 == m.insert(kb, vb));
                            let entries2 = index_entries(*index);
                            assert(entries2 == entries0.insert(kc, cp));
                            assert forall|kc2: Seq<char>| #[trigger]
                                entries2.contains_key(kc2) implies m2.contains_key(
                                encode_utf8(kc2),
                            ) && entry_points(
                                entries2[kc2],
                                encode_utf8(kc2),
                                m2[encode_utf8(kc2)],
                                full,
                            ) by {
                                if kc2 == kc {
                                    let si = full.len() - 1;
                                    assert(full[si].gen == gen);
                                    assert(full[si].data@.subrange(
                                        cp.pos as int,
                                        cp.pos + cp.len,
                                    ) == enc_rec((Rec::SetRec { key: kb, value: vb })));
                                } else {
                                    if encode_utf8(kc2) == kb {
                                        lemma_encode_utf8_injective(kc2, kc);
                                    }
                                    assert(entries2[kc2] == entries0[kc2]);
                                }
                            }
                            assert forall|kb2: Seq<u8>| #[trigger]
                                m2.contains_key(kb2) implies exists|kc2: Seq<char>|
                                (#[trigger] entries2.contains_key(kc2)) && encode_utf8(kc2)
                                    == kb2 by {
                                if kb2 == kb {
                                    assert(entries2.contains_key(kc) && encode_utf8(kc) == kb2);
                                } else {
                                    let kc2 = choose|kc2: Seq<char>|
                                        (#[trigger] entries0.contains_key(kc2)) && encode_utf8(kc2)
                                            == kb2;
                                    assert(entries2.contains_key(kc2) && encode_utf8(kc2) == kb2);
                                }
                            }
                            assert forall|kb2: Seq<u8>| #[trigger]
                                m2.contains_key(kb2) implies valid_utf8(kb2) && valid_utf8(
                                m2[kb2],
                            ) by {
                                if kb2 != kb {
                                    assert(m.contains_key(kb2) && m2[kb2] == m[kb2]);
                                }
                            }
                        }
                    },
                    Command::Rm { key } => {
                        let ghost kc = key@;
                        let ghost kb = encode_utf8(kc);
                        let ghost entries0 = index_entries(*index);
                        let old_entry = index_remove(index, &key);
                        match old_entry {
                            Some(o) => {
                                proof {
                                    lemma_entry_len(entries0, full, m, kc);
                                    assert(o.len as int == displaced_len(m, kb));
                                }
                                unc = sat_add(unc, o.len);
                            },
                            None => {
                                proof {
                                    if m.contains_key(kb) {
                                        let kc2 = choose|kc2: Seq<char>|
                                            (#[trigger] entries0.contains_key(kc2)) && encode_utf8(
                                                kc2,
                                            ) == kb;
                                        lemma_encode_utf8_injective(kc2, kc);
                                    }
                                    assert(displaced_len(m, kb) == 0);
                                }
                            },
                        }
                        unc = sat_add(unc, cp.len);
                        proof {
                            vstd::utf8::encode_utf8_decode_utf8(kc);
                            assert(index_entries(*index) == entries_at_rec.remove(decode_utf8(kb)));
                            assert(seg_index_from(data@, pos as int, gen, entries_at_rec)
                                == seg_index_from(data@, end as int, gen, index_entries(*index)));
                            assert(cp.len as int == enc_rec(r).len());
                            assert(unc as int == capped(dead_of_recs(base, done.push(r))));
                        }
                        proof {
                            let m2 = apply_recs(base, done.push(r));
                            assert(m2 == m.remove(kb));
                            let entries2 = index_entries(*index);
                            assert(entries2 == entries0.remove(kc));
                            assert forall|kc2: Seq<char>| #[trigger]
                                entries2.contains_key(kc2) implies m2.contains_key(
                                encode_utf8(kc2),
                            ) && entry_points(
                                entries2[kc2],
                                encode_utf8(kc2),
                                m2[encode_utf8(kc2)],
                                full,
                            ) by {
                                if encode_utf8(kc2) == kb {
                                    lemma_encode_utf8_injective(kc2, kc);
                                }
                                assert(entries2[kc2] == entries0[kc2]);
                            }
                            assert forall|kb2: Seq<u8>| #[trigger]
                                m2.contains_key(kb2) implies exists|kc2: Seq<char>|
                                (#[trigger] entries2.contains_key(kc2)) && encode_utf8(kc2)
                                    == kb2 by {
                                let kc2 = choose|kc2: Seq<char>|
                                    (#[trigger] entries0.contains_key(kc2)) && encode_utf8(kc2)
                                        == kb2;
                                if kc2 == kc {
                                    assert(encode_utf8(kc) == kb2 && kb2 != kb);
                                }
                                assert(entries2.contains_key(kc2) && encode_utf8(kc2) == kb2);
                            }
                            assert forall|kb2: Seq<u8>| #[trigger]
                                m2.contains_key(kb2) implies valid_utf8(kb2) && valid_utf8(
                                m2[kb2],
                            ) by {
                                assert(m.contains_key(kb2) && m2[kb2] == m[kb2]);
                            }
                        }
                    },
                    Command::Get { key: _ } => {
                        proof {
                            assert(apply_recs(base, done.push(r)) == m);
                            assert(seg_index_from(data@, pos as int, gen, entries_at_rec)
                                == seg_index_from(data@, end as int, gen, index_entries(*index)));
                        }
                    },
                }
                proof {
                    done = done.push(r);
                }
                pos = end;
            },
        }
    }
    proof {
        assert(seg_records_from(data@, pos as int) == Some(Seq::<Rec>::empty()));
        assert(done + Seq::<Rec>::empty() =~= done);
        assert(records_of(data@) == done);
        assert(datas(full) =~= datas(segs@).push(data@));
        lemma_log_map_from_snoc(Map::empty(), datas(segs@), data@);
    }
    Ok(unc)
}


/// The `KvStore` stores string key/value pairs.
///
/// Key/value pairs are held in log segments named after monotonically
/// increasing generation numbers, and an index in memory maps each key
/// to the location of its most recent `Set` record.  The store's view
/// is the live map of its segments: replaying them in generation order
/// yields exactly the bindings the store answers with.
pub struct KvStore {
    // the segment files, ascending by generation; the last is current.
    segments: Vec<Segment>,
    // index from key to the location of its latest Set record.
    index: SkipMap<String, CommandPos>,
    // generation of the segment new records are appended to.
    current_gen: u64,
    // the least generation a reader may still open.
    safe_point: u64,
    // bytes of stale records that a compaction could reclaim.
    uncompacted: u64,
    // bytes held by all segments together.
    total_bytes: u64,
    // generations this handle has opened for reading.
    reader_gens: Vec<u64>,
}

impl View for KvStore {
    type V = Map<Seq<u8>, Seq<u8>>;

    /// The live map: UTF-8 encoded keys bound to UTF-8 encoded values.
    closed spec fn view(&self) -> Map<Seq<u8>, Seq<u8>> {
        log_map(datas(self.segments@))
    }
}

impl KvStore {
    /// The contents of the store's segments, in generation order.
    pub closed spec fn disk(&self) -> Seq<Seq<u8>> {
        datas(self.segments@)
    }

    /// The store's well-formedness invariant: segments are sorted by
    /// generation and all parse, the last segment is the current one,
    /// no segment is older than the safe point, the byte counter is
    /// exact, and the index describes exactly the live map.
    pub closed spec fn wf(&self) -> bool {
        &&& self.segments@.len() >= 1
        &&& (forall|i: int, j: int|
            0 <= i < j < self.segments@.len() ==> (#[trigger] self.segments@[i].gen) < (
            #[trigger] self.segments@[j].gen))
        &&& self.segments@.last().gen == self.current_gen
        &&& (forall|i: int|
            0 <= i < self.segments@.len() ==> (#[trigger] self.segments@[i].gen)
                >= self.safe_point)
        &&& disk_ok(self.disk())
        &&& self.total_bytes == total_size(self.disk())
        &&& index_matches(index_entries(self.index), self.segments@, self@)
    }

    /// Opens a store over the segment files of a directory, given in
    /// ascending generation order.  Replays every segment to rebuild
    /// the index, then starts a fresh current segment one generation
    /// past the newest, exactly as the files would be found on disk.
    ///
    /// # Errors
    ///
    /// Fails with `Serde` when any segment holds malformed bytes; a
    /// trailing truncated record counts as malformed.
    #[verifier::rlimit(80)]
    pub fn open(files: Vec<Segment>) -> (r: Result<KvStore, KvsError>)
        requires
            forall|i: int, j: int|
                0 <= i < j < files@.len() ==> (#[trigger] files@[i].gen) < (
                #[trigger] files@[j].gen),
            forall|i: int| 0 <= i < files@.len() ==> (#[trigger] files@[i].gen) < u64::MAX,
            total_size(datas(files@)) <= u64::MAX,
        ensures
            r is Ok <==> disk_ok(datas(files@)),
            r matches Ok(st) ==> st.wf() && st@ == log_map(datas(files@)),
            // the disk is exactly the input files plus one fresh,
            // empty current segment
            r matches Ok(st) ==> st.disk() == datas(files@).push(Seq::<u8>::empty()),
            // the dead-byte counter is exactly what replaying the
            // files observes, saturating at the top of u64
            r matches Ok(st) ==> st.dead_bytes() as int == capped(dead_of_files(datas(files@))),
            // the current generation succeeds the newest input file,
            // and the safe point starts at the oldest
            r matches Ok(st) ==> st.generation() == (if files@.len() == 0 {
                1u64
            } else {
                (files@.last().gen + 1) as u64
            }),
            r matches Ok(st) ==> st.safe_gen() == (if files@.len() == 0 {
                st.generation()
            } else {
                files@[0].gen
            }),
            r matches Err(e) ==> e is Serde,
    {
        let ghost orig = files@;
        let mut fs = files;
        let mut segments: Vec<Segment> = Vec::new();
        let mut index = index_new();
        let mut uncompacted: u64 = 0;
        let mut total: u64 = 0;
        proof {
            assert(segments@ + files@ =~= orig);
            assert(datas(segments@) =~= Seq::<Seq<u8>>::empty());
        }
        while fs.len() > 0
            invariant
                orig == files@,
                segments@ + fs@ =~= orig,
                forall|i: int, j: int|
                    0 <= i < j < orig.len() ==> (#[trigger] orig[i].gen) < (#[trigger] orig[j].gen),
                forall|i: int| 0 <= i < orig.len() ==> (#[trigger] orig[i].gen) < u64::MAX,
                total_size(datas(orig)) <= u64::MAX,
                disk_ok(datas(segments@)),
                total == total_size(datas(segments@)),
                index_matches(index_entries(index), segments@, log_map(datas(segments@))),
                uncompacted as int == capped(dead_of_files(datas(segments@))),
            decreases fs.len(),
        {
            let ghost segs0 = segments@;
            let ghost files0 = fs@;
            let seg = fs.remove(0);
            proof {
                assert(fs@ =~= files0.drop_first());
                assert(segs0 + files0 =~= orig);
                assert(orig[segs0.len() as int] == seg);
                assert forall|i: int|
                    0 <= i < segs0.len() implies (#[trigger] segs0[i].gen) < seg.gen by {
                    assert(segs0[i] == orig[i]);
                }
                // the bytes loaded so far plus this segment fit in the counter
                assert(datas(orig) =~= datas(segs0) + datas(files0));
                lemma_total_size_concat(datas(segs0), datas(files0));
                assert(datas(files0)[0] == seg.data@);
                lemma_total_size_nonneg(datas(files0).drop_first());
                assert(total_size(datas(files0)) == seg.data@.len() + total_size(
                    datas(files0).drop_first(),
                ));
            }
            match load(seg.gen, &seg.data, &segments, &mut index) {
                Ok(u) => {
                    proof {
                        lemma_dead_of_disk_nonneg(empty_map(), datas(segs0));
                        lemma_dead_of_recs_nonneg(log_map(datas(segs0)), records_of(seg.data@));
                        lemma_dead_of_disk_snoc(empty_map(), datas(segs0), seg.data@);
                    }
                    uncompacted = sat_add(uncompacted, u);
                    proof {
                        assert(uncompacted as int == capped(
                            dead_of_files(datas(segs0).push(seg.data@)),
                        ));
                    }
                },
                Err(e) => {
                    proof {
                        assert(datas(orig)[segs0.len() as int] == seg.data@);
                        assert(!disk_ok(datas(orig))) by {
                            if disk_ok(datas(orig)) {
                                assert(seg_ok(datas(orig)[segs0.len() as int]));
                            }
                        }
                    }
                    return Err(e);
                },
            }
            total = total + (seg.data.len() as u64);
            segments.push(seg);
            proof {
                assert(segments@ =~= segs0.push(seg));
                assert(segments@ + fs@ =~= orig);
                assert(datas(segments@) =~= datas(segs0).push(seg.data@));
                lemma_total_size_snoc(datas(segs0), seg.data@);
            }
        }
        proof {
            assert(segments@ =~= orig);
            assert(disk_ok(datas(orig)));
        }
        Ok(Self::open_finish(segments, index, uncompacted, total))
    }

    /// Starts the fresh current segment and assembles the store, once
    /// every existing segment has been replayed into the index.
    fn open_finish(
        segments: Vec<Segment>,
        index: SkipMap<String, CommandPos>,
        uncompacted: u64,
        total: u64,
    ) -> (st: KvStore)
        requires
            forall|i: int, j: int|
                0 <= i < j < segments@.len() ==> (#[trigger] segments@[i].gen) < (
                #[trigger] segments@[j].gen),
            forall|i: int| 0 <= i < segments@.len() ==> (#[trigger] segments@[i].gen) < u64::MAX,
            disk_ok(datas(segments@)),
            total == total_size(datas(segments@)),
            index_matches(index_entries(index), segments@, log_map(datas(segments@))),
        ensures
            st.wf(),
            st@ == log_map(datas(segments@)),
            st.disk() == datas(segments@).push(Seq::<u8>::empty()),
            st.dead_bytes() == uncompacted,
            st.generation() == (if segments@.len() == 0 {
                1u64
            } else {
                (segments@.last().gen + 1) as u64
            }),
            st.safe_gen() == (if segments@.len() == 0 {
                st.generation()
            } else {
                segments@[0].gen
            }),
    {
        let ghost orig = segments@;
        let mut segments = segments;
        let n = segments.len();
        let current_gen: u64 = if n == 0 {
            1
        } else {
            segments[n - 1].gen + 1
        };
        let safe_point: u64 = if n == 0 {
            current_gen
        } else {
            segments[0].gen
        };
        let ghost before = segments@;
        segments.push(Segment { gen: current_gen, data: Vec::new() });
        proof {
            lemma_empty_seg_ok();
            let sg = segments@.last();
            assert(sg.data@ =~= Seq::<u8>::empty());
            assert(datas(segments@) =~= datas(before).push(Seq::<u8>::empty()));
            lemma_log_map_from_snoc(Map::empty(), datas(before), Seq::<u8>::empty());
            lemma_total_size_snoc(datas(before), Seq::<u8>::empty());
            lemma_index_matches_grow(index_entries(index), before, log_map(datas(before)), sg);
            assert(segments@ =~= before.push(sg));
        }
        let st = KvStore {
            segments,
            index,
            current_gen,
            safe_point,
            uncompacted,
            total_bytes: total,
            reader_gens: Vec::new(),
        };
        proof {
            assert(st.wf()) by {
                assert forall|i: int, j: int|
                    0 <= i < j < st.segments@.len() implies (#[trigger] st.segments@[i].gen) < (
                #[trigger] st.segments@[j].gen) by {
                    if j < st.segments@.len() - 1 {
                        assert(st.segments@[i] == orig[i] && st.segments@[j] == orig[j]);
                    } else {
                        assert(st.segments@[i] == orig[i]);
                        if i < orig.len() - 1 {
                            assert(orig[i].gen < orig[orig.len() - 1].gen);
                        }
                    }
                }
                assert forall|i: int|
                    0 <= i < st.segments@.len() implies (#[trigger] st.segments@[i].gen)
                    >= st.safe_point by {
                    if i < st.segments@.len() - 1 {
                        assert(st.segments@[i] == orig[i]);
                        if 0 < i {
                            assert(orig[0].gen < orig[i].gen);
                        }
                    } else {
                        if orig.len() > 1 {
                            assert(orig[0].gen < orig[orig.len() - 1].gen);
                        }
                    }
                }
                assert(disk_ok(st.disk())) by {
                    assert forall|i: int| 0 <= i < st.disk().len() implies seg_ok(
                        #[trigger] st.disk()[i],
                    ) by {
                        if i < st.disk().len() - 1 {
                            assert(st.disk()[i] == datas(orig)[i]);
                        } else {
                            assert(st.disk()[i] =~= Seq::<u8>::empty());
                        }
                    }
                }
            }
        }
        st
    }

    /// The segment files as they would stand on disk, in ascending
    /// generation order.  Feeding them back to `open` rebuilds a store
    /// with the same live map.
    pub fn disk_files(&self) -> (r: &Vec<Segment>)
        requires
            self.wf(),
        ensures
            datas(r@) == self.disk(),
            forall|i: int, j: int|
                0 <= i < j < r@.len() ==> (#[trigger] r@[i].gen) < (#[trigger] r@[j].gen),
            forall|i: int| 0 <= i < r@.len() ==> (#[trigger] r@[i].gen) <= self.generation(),
    {
        proof {
            assert forall|i: int|
                0 <= i < self.segments@.len() implies (#[trigger] self.segments@[i].gen)
                <= self.generation() by {
                if i < self.segments@.len() - 1 {
                    assert(self.segments@[i].gen < self.segments@.last().gen);
                }
            }
        }
        &self.segments
    }

    /// The count of dead bytes a compaction could reclaim, as the
    /// writer tracks it; additions saturate at the top of `u64`.
    pub closed spec fn dead_bytes(&self) -> u64 {
        self.uncompacted
    }

    /// The generation of the current segment.
    pub closed spec fn generation(&self) -> u64 {
        self.current_gen
    }

    /// The safe point: the least generation a reader may still open.
    pub closed spec fn safe_gen(&self) -> u64 {
        self.safe_point
    }

    /// The index: the location bound to each present key.
    pub closed spec fn entries(&self) -> Map<Seq<char>, CommandPos> {
        index_entries(self.index)
    }

    /// The total number of bytes held by the store's segments.
    pub fn disk_size(&self) -> (r: u64)
        requires
            self.wf(),
        ensures
            r as int == total_size(self.disk()),
    {
        self.total_bytes
    }
}


/// An entry that points at a record keeps pointing at it when segments
/// only grow at their ends.
proof fn lemma_entry_points_extend(
    cp: CommandPos,
    kb: Seq<u8>,
    vb: Seq<u8>,
    segs: Seq<Segment>,
    segs2: Seq<Segment>,
)
    requires
        entry_points(cp, kb, vb, segs),
        segs2.len() == segs.len(),
        forall|i: int| 0 <= i < segs.len() ==> (#[trigger] segs2[i].gen) == segs[i].gen,
        forall|i: int|
            0 <= i < segs.len() ==> (#[trigger] segs2[i].data@.len()) >= segs[i].data@.len()
                && segs2[i].data@.take(segs[i].data@.len() as int) == segs[i].data@,
    ensures
        entry_points(cp, kb, vb, segs2),
{
    let si = choose|si: int|
        0 <= si < segs.len() && (#[trigger] segs[si].gen) == cp.gen && cp.pos + cp.len
            <= segs[si].data@.len() && segs[si].data@.subrange(cp.pos as int, cp.pos + cp.len)
            == enc_rec((Rec::SetRec { key: kb, value: vb }));
    assert(segs2[si].data@.subrange(cp.pos as int, cp.pos + cp.len) =~= segs[si].data@.subrange(
        cp.pos as int,
        cp.pos + cp.len,
    )) by {
        assert forall|k: int| 0 <= k < cp.len implies (#[trigger] segs2[si].data@[cp.pos + k])
            == segs[si].data@[cp.pos + k] by {
            assert(segs[si].data@[cp.pos + k] == segs2[si].data@.take(
                segs[si].data@.len() as int,
            )[cp.pos + k]);
        }
    }
    assert(0 <= si < segs2.len() && segs2[si].gen == cp.gen && cp.pos + cp.len
        <= segs2[si].data@.len() && segs2[si].data@.subrange(cp.pos as int, cp.pos + cp.len)
        == enc_rec((Rec::SetRec { key: kb, value: vb })));
}

impl KvStore {
    /// The sorted-segments part of the invariant: segments ascend by
    /// generation, the last one is current, none is older than the
    /// safe point, all parse, and the byte counter is exact.
    pub closed spec fn wf_segs(&self) -> bool {
        &&& self.segments@.len() >= 1
        &&& (forall|i: int, j: int|
            0 <= i < j < self.segments@.len() ==> (#[trigger] self.segments@[i].gen) < (
            #[trigger] self.segments@[j].gen))
        &&& self.segments@.last().gen == self.current_gen
        &&& (forall|i: int|
            0 <= i < self.segments@.len() ==> (#[trigger] self.segments@[i].gen)
                >= self.safe_point)
        &&& disk_ok(self.disk())
        &&& self.total_bytes == total_size(self.disk())
    }

    /// Appends the encoding of `cmd` to the current segment, flushing
    /// at the record boundary as the log discipline requires, and
    /// returns the record's location.  Fails only when the log would
    /// outgrow its 64-bit byte addressing.
    fn append_record(&mut self, cmd: &Command) -> (r: Result<CommandPos, KvsError>)
        requires
            old(self).wf_segs(),
        ensures
            final(self).wf_segs(),
            final(self).index == old(self).index,
            final(self).safe_point == old(self).safe_point,
            final(self).current_gen == old(self).current_gen,
            final(self).uncompacted == old(self).uncompacted,
            r is Ok <==> total_size(old(self).disk()) + enc_rec(cmd@).len() <= u64::MAX,
            r is Err ==> *final(self) == *old(self),
            r matches Err(e) ==> (e matches KvsError::Io(m) && m@
                == "log exceeds 64-bit byte addressing"@),
            r matches Ok(cp) ==> ({
                let oldsegs = old(self).segments@;
                let newsegs = final(self).segments@;
                &&& newsegs.len() == oldsegs.len()
                &&& (forall|i: int|
                    0 <= i < newsegs.len() - 1 ==> (#[trigger] newsegs[i]) == oldsegs[i])
                &&& newsegs.last().gen == oldsegs.last().gen
                &&& newsegs.last().data@ == oldsegs.last().data@ + enc_rec(cmd@)
                &&& cp.gen == old(self).current_gen
                &&& cp.pos == oldsegs.last().data@.len()
                &&& cp.len == enc_rec(cmd@).len()
                &&& final(self)@ == apply_rec(old(self)@, cmd@)
            }),
    {
        broadcast use vstd::utf8::encode_utf8_valid_utf8;

        let mut bytes = encode_command(cmd);
        if self.total_bytes > u64::MAX - (bytes.len() as u64) {
            return Err(KvsError::Io("log exceeds 64-bit byte addressing".to_owned()));
        }
        proof {
            lemma_log_map_append_record(datas(self.segments@), cmd@);
        }
        let ghost oldsegs = self.segments@;
        let n = self.segments.len();
        let mut last = self.segments.pop().unwrap();
        let pos = last.data.len();
        let blen = bytes.len();
        last.data.append(&mut bytes);
        self.total_bytes = self.total_bytes + (blen as u64);
        self.segments.push(last);
        let cp = CommandPos { gen: self.current_gen, pos: pos as u64, len: blen as u64 };
        proof {
            assert(self.segments@ =~= oldsegs.update(
                oldsegs.len() - 1,
                (Segment {
                    gen: oldsegs.last().gen,
                    data: self.segments@.last().data,
                }),
            ));
            assert(datas(self.segments@) =~= datas(oldsegs).update(
                oldsegs.len() - 1,
                oldsegs.last().data@ + enc_rec(cmd@),
            ));
            assert(self.segments@.last().data@ == oldsegs.last().data@ + enc_rec(cmd@));
            assert forall|i: int|
                0 <= i < self.segments@.len() - 1 implies (#[trigger] self.segments@[i])
                == oldsegs[i] by {}
        }
        Ok(cp)
    }
}


impl KvStore {
    /// Proves that the index still matches after the current segment
    /// grew by one record: every old entry still points at its bytes.
    proof fn lemma_matches_after_append(
        old_self: KvStore,
        new_self: KvStore,
        entries: Map<Seq<char>, CommandPos>,
        m: Map<Seq<u8>, Seq<u8>>,
        extra: Seq<u8>,
    )
        requires
            old_self.segments@.len() >= 1,
            index_matches(entries, old_self.segments@, m),
            new_self.segments@.len() == old_self.segments@.len(),
            forall|i: int|
                0 <= i < old_self.segments@.len() - 1 ==> (#[trigger] new_self.segments@[i])
                    == old_self.segments@[i],
            new_self.segments@.last().gen == old_self.segments@.last().gen,
            new_self.segments@.last().data@ == old_self.segments@.last().data@ + extra,
        ensures
            index_matches(entries, new_self.segments@, m),
    {
        let segs = old_self.segments@;
        let segs2 = new_self.segments@;
        assert(segs2.last().data@.take(segs.last().data@.len() as int) =~= segs.last().data@);
        assert forall|kc: Seq<char>| #[trigger]
            entries.contains_key(kc) implies m.contains_key(encode_utf8(kc)) && entry_points(
            entries[kc],
            encode_utf8(kc),
            m[encode_utf8(kc)],
            segs2,
        ) by {
            assert forall|i: int|
                #![trigger segs2[i].gen]
                #![trigger segs2[i].data@.len()]
                0 <= i < segs.len() implies segs2[i].gen == segs[i].gen && segs2[i].data@.len()
                >= segs[i].data@.len() && segs2[i].data@.take(segs[i].data@.len() as int)
                == segs[i].data@ by {
                if i < segs.len() - 1 {
                    assert(segs2[i] == segs[i]);
                    assert(segs2[i].data@.take(segs[i].data@.len() as int) =~= segs[i].data@);
                } else {
                    assert(segs2[i] == segs2.last() && segs[i] == segs.last());
                }
            }
            lemma_entry_points_extend(
                entries[kc],
                encode_utf8(kc),
                m[encode_utf8(kc)],
                segs,
                segs2,
            );
        }
    }

    /// Sets the value of a string key to a string.
    ///
    /// If the key already exists, the previous value will be
    /// overwritten.  The record is appended to the current segment and
    /// the index is updated to point at it; when enough dead bytes
    /// accumulate, the log is compacted in the same call, which leaves
    /// the live map unchanged.
    ///
    /// # Errors
    ///
    /// Fails with `Io` only when the log would outgrow its 64-bit byte
    /// addressing.
    #[verifier::rlimit(60)]
    pub fn set(&mut self, key: String, value: String) -> (r: Result<(), KvsError>)
        requires
            old(self).wf(),
        ensures
            final(self).wf(),
            r is Ok ==> final(self)@ == old(self)@.insert(encode_utf8(key@), encode_utf8(value@)),
            r is Err ==> *final(self) == *old(self),
            r is Ok <==> total_size(old(self).disk()) + enc_rec(
                (Rec::SetRec { key: encode_utf8(key@), value: encode_utf8(value@) }),
            ).len() <= u64::MAX,
            r matches Err(e) ==> (e matches KvsError::Io(m) && m@
                == "log exceeds 64-bit byte addressing"@),
            // the record is appended to the current segment and indexed
            // at its exact extent, displacing any old binding into the
            // dead bytes; exactly when that drives the dead bytes past
            // the threshold (and generations remain), the log is
            // compacted in the same call
            r is Ok ==> ({
                let rec = (Rec::SetRec { key: encode_utf8(key@), value: encode_utf8(value@) });
                let grown = capped(
                    old(self).dead_bytes() + displaced_len(old(self)@, encode_utf8(key@)),
                );
                if grown <= COMPACTION_THRESHOLD || old(self).generation() + 2 > u64::MAX {
                    &&& final(self).disk() == disk_append(old(self).disk(), rec)
                    &&& final(self).entries() == old(self).entries().insert(
                        key@,
                        (CommandPos {
                            gen: old(self).generation(),
                            pos: old(self).disk().last().len() as u64,
                            len: enc_rec(rec).len() as u64,
                        }),
                    )
                    &&& final(self).dead_bytes() as int == grown
                    &&& final(self).generation() == old(self).generation()
                } else {
                    &&& compacted_disk(
                        final(self).disk(),
                        old(self)@.insert(encode_utf8(key@), encode_utf8(value@)),
                    )
                    &&& final(self).entries().dom() == old(self).entries().dom().insert(key@)
                    &&& final(self).dead_bytes() == 0
                    &&& final(self).generation() == old(self).generation() + 2
                }
            }),
            // while generations remain, the dead bytes never stay past
            // the compaction threshold after a successful write
            r is Ok && old(self).generation() + 2 <= u64::MAX ==> final(self).dead_bytes()
                <= COMPACTION_THRESHOLD,
    {
        broadcast use vstd::utf8::encode_utf8_valid_utf8;

        let ghost kb = encode_utf8(key@);
        let ghost vb = encode_utf8(value@);
        let ghost m0 = self@;
        let ghost old_self = *self;
        let cmd = Command::set(key, value);
        let cp = match self.append_record(&cmd) {
            Ok(cp) => cp,
            Err(e) => {
                return Err(e);
            },
        };
        let ghost appended = *self;
        let ghost m1 = self@;
        let ghost entries0 = index_entries(self.index);
        proof {
            assert(m1 == m0.insert(kb, vb));
            KvStore::lemma_matches_after_append(old_self, appended, entries0, m0, enc_rec(cmd@));
            assert(self.disk() =~= disk_append(old(self).disk(), cmd@));
        }
        if let Command::SetCmd { key, value: _ } = cmd {
            let ghost kc = key@;
            let old_entry = index_get(&self.index, &key);
            match old_entry {
                Some(o) => {
                    proof {
                        lemma_entry_len(entries0, old_self.segments@, m0, kc);
                        assert(o.len as int == displaced_len(m0, kb));
                    }
                    self.uncompacted = sat_add(self.uncompacted, o.len);
                },
                None => {
                    proof {
                        if m0.contains_key(kb) {
                            let kc2 = choose|kc2: Seq<char>|
                                (#[trigger] entries0.contains_key(kc2)) && encode_utf8(kc2) == kb;
                            lemma_encode_utf8_injective(kc2, kc);
                        }
                        assert(displaced_len(m0, kb) == 0);
                    }
                },
            }
            proof {
                assert(self.uncompacted as int == capped(
                    old(self).uncompacted + displaced_len(m0, kb),
                ));
            }
            index_insert(&mut self.index, key, cp);
            proof {
                let segs2 = self.segments@;
                let entries2 = index_entries(self.index);
                assert(entries2 == entries0.insert(kc, cp));
                assert(old(self).disk().last() == old(self).segments@.last().data@);
                assert(cp == (CommandPos {
                    gen: old(self).generation(),
                    pos: old(self).disk().last().len() as u64,
                    len: enc_rec(cmd@).len() as u64,
                }));
                assert(entries2.dom() =~= entries0.dom().insert(kc));
                assert forall|kc2: Seq<char>| #[trigger]
                    entries2.contains_key(kc2) implies m1.contains_key(encode_utf8(kc2))
                    && entry_points(entries2[kc2], encode_utf8(kc2), m1[encode_utf8(kc2)], segs2) by {
                    if kc2 == kc {
                        let si = segs2.len() - 1;
                        assert(segs2[si].gen == cp.gen);
                        assert(segs2[si].data@.subrange(cp.pos as int, cp.pos + cp.len)
                            =~= enc_rec(cmd@));
                    } else {
                        if encode_utf8(kc2) == kb {
                            lemma_encode_utf8_injective(kc2, kc);
                        }
                        assert(entries2[kc2] == entries0[kc2]);
                        assert(m1[encode_utf8(kc2)] == m0[encode_utf8(kc2)]);
                        assert(entry_points(
                            entries0[kc2],
                            encode_utf8(kc2),
                            m0[encode_utf8(kc2)],
                            segs2,
                        ));
                    }
                }
                assert forall|kb2: Seq<u8>| #[trigger]
                    m1.contains_key(kb2) implies exists|kc2: Seq<char>|
                    (#[trigger] entries2.contains_key(kc2)) && encode_utf8(kc2) == kb2 by {
                    if kb2 == kb {
                        assert(entries2.contains_key(kc) && encode_utf8(kc) == kb2);
                    } else {
                        let kc2 = choose|kc2: Seq<char>|
                            (#[trigger] entries0.contains_key(kc2)) && encode_utf8(kc2) == kb2;
                        assert(entries2.contains_key(kc2) && encode_utf8(kc2) == kb2);
                    }
                }
                assert forall|kb2: Seq<u8>| #[trigger]
                    m1.contains_key(kb2) implies valid_utf8(kb2) && valid_utf8(m1[kb2]) by {
                    if kb2 != kb {
                        assert(m0.contains_key(kb2) && m1[kb2] == m0[kb2]);
                    }
                }
                assert(self.wf());
            }
        }
        if self.uncompacted > COMPACTION_THRESHOLD && self.current_gen <= u64::MAX - 2 {
            self.compact();
        }
        Ok(())
    }

    /// Removes a given key.
    ///
    /// A `Rm` tombstone is appended to the current segment and the
    /// key's index entry is dropped; the entry's bytes and the
    /// tombstone's own bytes both become dead.
    ///
    /// # Errors
    ///
    /// Fails with `KeyNotFound` when the key is not present, in which
    /// case nothing is written; fails with `Io` only when the log
    /// would outgrow its 64-bit byte addressing.
    #[verifier::rlimit(60)]
    pub fn remove(&mut self, key: String) -> (r: Result<(), KvsError>)
        requires
            old(self).wf(),
        ensures
            final(self).wf(),
            r is Ok ==> old(self)@.contains_key(encode_utf8(key@)) && final(self)@ == old(
                self,
            )@.remove(encode_utf8(key@)),
            // a failed removal writes nothing and changes nothing
            r is Err ==> *final(self) == *old(self),
            !old(self)@.contains_key(encode_utf8(key@)) <==> r matches Err(
                KvsError::KeyNotFound,
            ),
            old(self)@.contains_key(encode_utf8(key@)) ==> (r is Ok <==> total_size(
                old(self).disk(),
            ) + enc_rec((Rec::Rm { key: encode_utf8(key@) })).len() <= u64::MAX),
            r matches Err(e) ==> (e is KeyNotFound || (e matches KvsError::Io(m) && m@
                == "log exceeds 64-bit byte addressing"@)),
            // the tombstone is appended to the current segment, and
            // both the displaced record and the tombstone itself turn
            // into dead bytes; a removal never compacts
            r is Ok ==> ({
                &&& final(self).disk() == disk_append(
                    old(self).disk(),
                    (Rec::Rm { key: encode_utf8(key@) }),
                )
                &&& final(self).generation() == old(self).generation()
                &&& final(self).dead_bytes() as int == capped(
                    old(self).dead_bytes() + displaced_len(old(self)@, encode_utf8(key@))
                        + enc_rec((Rec::Rm { key: encode_utf8(key@) })).len(),
                )
            }),
    {
        broadcast use vstd::utf8::encode_utf8_valid_utf8;

        let ghost kb = encode_utf8(key@);
        let ghost kc = key@;
        let ghost m0 = self@;
        let ghost old_self = *self;
        let present = match index_get(&self.index, &key) {
            Some(_) => true,
            None => false,
        };
        if !present {
            proof {
                // an unindexed key is not live
                if m0.contains_key(kb) {
                    let kc2 = choose|kc2: Seq<char>|
                        (#[trigger] index_entries(self.index).contains_key(kc2)) && encode_utf8(
                            kc2,
                        ) == kb;
                    lemma_encode_utf8_injective(kc2, kc);
                }
            }
            return Err(KvsError::KeyNotFound);
        }
        proof {
            assert(m0.contains_key(kb));
        }
        let cmd = Command::remove(key);
        let cp = match self.append_record(&cmd) {
            Ok(cp) => cp,
            Err(e) => {
                return Err(e);
            },
        };
        let ghost appended = *self;
        let ghost m1 = self@;
        let ghost entries0 = index_entries(self.index);
        proof {
            assert(m1 == m0.remove(kb));
            KvStore::lemma_matches_after_append(old_self, appended, entries0, m0, enc_rec(cmd@));
        }
        proof {
            assert(self.disk() =~= disk_append(old(self).disk(), cmd@));
        }
        if let Command::Rm { key } = cmd {
            let old_entry = index_remove(&mut self.index, &key);
            match old_entry {
                Some(o) => {
                    proof {
                        lemma_entry_len(entries0, old_self.segments@, m0, kc);
                        assert(o.len as int == displaced_len(m0, kb));
                    }
                    self.uncompacted = sat_add(self.uncompacted, o.len);
                },
                None => {
                    proof {
                        assert(false);
                    }
                },
            }
            self.uncompacted = sat_add(self.uncompacted, cp.len);
            proof {
                assert(cp.len as int == enc_rec(cmd@).len());
                assert(self.uncompacted as int == capped(
                    old(self).uncompacted + displaced_len(m0, kb) + enc_rec(cmd@).len(),
                ));
            }
            proof {
                let segs2 = self.segments@;
                let entries2 = index_entries(self.index);
                assert(entries2 == entries0.remove(kc));
                assert forall|kc2: Seq<char>| #[trigger]
                    entries2.contains_key(kc2) implies m1.contains_key(encode_utf8(kc2))
                    && entry_points(entries2[kc2], encode_utf8(kc2), m1[encode_utf8(kc2)], segs2) by {
                    if encode_utf8(kc2) == kb {
                        lemma_encode_utf8_injective(kc2, kc);
                    }
                    assert(entries2[kc2] == entries0[kc2]);
                    assert(m1[encode_utf8(kc2)] == m0[encode_utf8(kc2)]);
                    assert(entry_points(
                        entries0[kc2],
                        encode_utf8(kc2),
                        m0[encode_utf8(kc2)],
                        segs2,
                    ));
                }
                assert forall|kb2: Seq<u8>| #[trigger]
                    m1.contains_key(kb2) implies exists|kc2: Seq<char>|
                    (#[trigger] entries2.contains_key(kc2)) && encode_utf8(kc2) == kb2 by {
                    let kc2 = choose|kc2: Seq<char>|
                        (#[trigger] entries0.contains_key(kc2)) && encode_utf8(kc2) == kb2;
                    if kc2 == kc {
                        assert(encode_utf8(kc) == kb2 && kb2 != kb);
                    }
                    assert(entries2.contains_key(kc2) && encode_utf8(kc2) == kb2);
                }
                assert forall|kb2: Seq<u8>| #[trigger]
                    m1.contains_key(kb2) implies valid_utf8(kb2) && valid_utf8(m1[kb2]) by {
                    assert(m0.contains_key(kb2) && m1[kb2] == m0[kb2]);
                }
                assert(self.wf());
            }
        }
        Ok(())
    }
}


/// Copies `len` bytes starting at `pos` out of `data`, as a reader
/// streams the exact extent of one record.
fn copy_range(data: &Vec<u8>, pos: usize, len: usize) -> (r: Vec<u8>)
    requires
        pos + len <= data.len(),
    ensures
        r@ == data@.subrange(pos as int, pos + len),
{
    let mut out: Vec<u8> = Vec::new();
    let mut i: usize = 0;
    while i < len
        invariant
            i <= len,
            pos + len <= data.len(),
            out@ == data@.subrange(pos as int, pos + i),
        decreases len - i,
    {
        let b = data[pos + i];
        out.push(b);
        proof {
            assert(data@.subrange(pos as int, pos + i + 1) =~= data@.subrange(
                pos as int,
                pos + i,
            ).push(b));
        }
        i += 1;
    }
    out
}

impl KvStore {
    /// Drops cached read handles for generations below the safe point,
    /// the cooperative cleanup a reader performs before each lookup.
    fn close_stale_readers(&mut self)
        ensures
            final(self).segments == old(self).segments,
            final(self).index == old(self).index,
            final(self).current_gen == old(self).current_gen,
            final(self).safe_point == old(self).safe_point,
            final(self).uncompacted == old(self).uncompacted,
            final(self).total_bytes == old(self).total_bytes,
            forall|i: int|
                0 <= i < final(self).reader_gens@.len()
                    ==> (#[trigger] final(self).reader_gens@[i]) >= final(self).safe_point,
            // handles at or above the safe point are retained
            forall|i: int|
                0 <= i < old(self).reader_gens@.len() && (#[trigger] old(self).reader_gens@[i])
                    >= old(self).safe_point ==> final(self).reader_gens@.contains(
                    old(self).reader_gens@[i],
                ),
    {
        let mut kept: Vec<u64> = Vec::new();
        let mut i: usize = 0;
        while i < self.reader_gens.len()
            invariant
                i <= self.reader_gens@.len(),
                self.reader_gens == old(self).reader_gens,
                self.safe_point == old(self).safe_point,
                forall|j: int|
                    0 <= j < kept@.len() ==> (#[trigger] kept@[j]) >= self.safe_point,
                forall|j: int|
                    0 <= j < i && (#[trigger] self.reader_gens@[j]) >= self.safe_point
                        ==> kept@.contains(self.reader_gens@[j]),
            decreases self.reader_gens@.len() - i,
        {
            let g = self.reader_gens[i];
            let ghost kept0 = kept@;
            if g >= self.safe_point {
                kept.push(g);
            }
            proof {
                assert forall|j: int|
                    0 <= j < i + 1 && (#[trigger] self.reader_gens@[j]) >= self.safe_point
                    implies kept@.contains(self.reader_gens@[j]) by {
                    if j < i {
                        let p = choose|p: int| 0 <= p < kept0.len() && kept0[p] == self.reader_gens@[j];
                        assert(kept@[p] == self.reader_gens@[j]);
                    } else {
                        assert(kept@.last() == g);
                    }
                }
            }
            i += 1;
        }
        self.reader_gens = kept;
    }

    /// The position of the segment with the given generation.
    fn find_segment(&self, gen: u64) -> (r: usize)
        requires
            exists|si: int|
                0 <= si < self.segments@.len() && (#[trigger] self.segments@[si].gen) == gen,
        ensures
            r < self.segments@.len(),
            self.segments@[r as int].gen == gen,
    {
        let mut i: usize = 0;
        while i < self.segments.len()
            invariant
                i <= self.segments@.len(),
                exists|si: int|
                    0 <= si < self.segments@.len() && (#[trigger] self.segments@[si].gen) == gen,
                forall|j: int| 0 <= j < i ==> (#[trigger] self.segments@[j].gen) != gen,
            decreases self.segments@.len() - i,
        {
            if self.segments[i].gen == gen {
                return i;
            }
            i += 1;
        }
        proof {
            let si = choose|si: int|
                0 <= si < self.segments@.len() && (#[trigger] self.segments@[si].gen) == gen;
            assert(false);
        }
        0
    }

    /// Remembers that this handle has the given generation open for
    /// reading, opening it lazily as a reader cache does.
    fn open_reader(&mut self, gen: u64)
        ensures
            final(self).segments == old(self).segments,
            final(self).index == old(self).index,
            final(self).current_gen == old(self).current_gen,
            final(self).safe_point == old(self).safe_point,
            final(self).uncompacted == old(self).uncompacted,
            final(self).total_bytes == old(self).total_bytes,
            // the generation is cached afterwards, and nothing cached
            // before is dropped
            final(self).reader_gens@.contains(gen),
            forall|i: int|
                0 <= i < old(self).reader_gens@.len() ==> final(self).reader_gens@.contains(
                    #[trigger] old(self).reader_gens@[i],
                ),
    {
        let mut i: usize = 0;
        while i < self.reader_gens.len()
            invariant
                i <= self.reader_gens@.len(),
                self.reader_gens == old(self).reader_gens,
            decreases self.reader_gens@.len() - i,
        {
            if self.reader_gens[i] == gen {
                proof {
                    assert(self.reader_gens@[i as int] == gen);
                }
                return ;
            }
            i += 1;
        }
        let ghost before = self.reader_gens@;
        self.reader_gens.push(gen);
        proof {
            assert(self.reader_gens@.last() == gen);
            assert forall|j: int|
                0 <= j < before.len() implies self.reader_gens@.contains(
                #[trigger] before[j],
            ) by {
                assert(self.reader_gens@[j] == before[j]);
            }
        }
    }

    /// Gets the string value of a given string key.
    ///
    /// Returns `None` if the given key does not exist.  A hit streams
    /// exactly the indexed byte range out of whichever segment the
    /// index points at and decodes the one record found there; under
    /// the store's invariant that record is always the `Set` record of
    /// the live value, so `get` never fails.
    #[verifier::rlimit(60)]
    pub fn get(&mut self, key: String) -> (r: Result<Option<String>, KvsError>)
        requires
            old(self).wf(),
        ensures
            final(self).wf(),
            final(self)@ == old(self)@,
            final(self).disk() == old(self).disk(),
            r is Ok,
            r matches Ok(Some(v)) ==> old(self)@.contains_key(encode_utf8(key@)) && encode_utf8(
                v@,
            ) == old(self)@[encode_utf8(key@)],
            r matches Ok(None) ==> !old(self)@.contains_key(encode_utf8(key@)),
    {
        broadcast use vstd::utf8::encode_utf8_valid_utf8;

        let ghost kb = encode_utf8(key@);
        let ghost kc = key@;
        let ghost m = self@;
        self.close_stale_readers();
        match index_get(&self.index, &key) {
            None => {
                proof {
                    if m.contains_key(kb) {
                        let kc2 = choose|kc2: Seq<char>|
                            (#[trigger] index_entries(self.index).contains_key(kc2))
                                && encode_utf8(kc2) == kb;
                        lemma_encode_utf8_injective(kc2, kc);
                    }
                }
                Ok(None)
            },
            Some(cp) => {
                let ghost rec = Rec::SetRec { key: kb, value: m[kb] };
                proof {
                    assert(index_entries(self.index).contains_key(kc));
                    assert(entry_points(cp, kb, m[kb], self.segments@));
                }
                self.open_reader(cp.gen);
                let si = self.find_segment(cp.gen);
                proof {
                    let sj = choose|sj: int|
                        0 <= sj < self.segments@.len() && (#[trigger] self.segments@[sj].gen)
                            == cp.gen && cp.pos + cp.len <= self.segments@[sj].data@.len()
                            && self.segments@[sj].data@.subrange(cp.pos as int, cp.pos + cp.len)
                            == enc_rec((Rec::SetRec { key: kb, value: m[kb] }));
                    if sj != si {
                        assert(self.segments@[sj].gen != self.segments@[si as int].gen);
                    }
                }
                let seg = &self.segments[si];
                let seg_len = seg.data.len();
                proof {
                    assert(seg.data@.len() == seg_len);
                    assert(cp.pos as usize as int == cp.pos as int && cp.len as usize as int
                        == cp.len as int);
                }
                let bytes = copy_range(&seg.data, cp.pos as usize, cp.len as usize);
                proof {
                    assert(bytes@ == enc_rec(rec));
                    assert(bytes@.subrange(0, enc_rec(rec).len() as int) =~= bytes@);
                    assert(starts_at(bytes@, 0, enc_rec(rec)));
                    lemma_dec_rec_of_enc(bytes@, 0, rec);
                }
                match decode_command_at(&bytes, 0) {
                    Ok((cmd, _end)) => match cmd {
                        Command::SetCmd { key: _, value } => {
                            proof {
                                assert(encode_utf8(value@) == m[kb]);
                            }
                            Ok(Some(value))
                        },
                        Command::Rm { key: _ } => {
                            proof {
                                assert(false);
                            }
                            Err(KvsError::UnexpectedCommandType)
                        },
                        Command::Get { key: _ } => {
                            proof {
                                assert(false);
                            }
                            Err(KvsError::UnexpectedCommandType)
                        },
                    },
                    Err(e) => {
                        proof {
                            assert(false);
                        }
                        Err(e)
                    },
                }
            },
        }
    }
}


/// The key a record names.
pub open spec fn rec_key(r: Rec) -> Seq<u8> {
    match r {
        Rec::SetRec { key, .. } => key,
        Rec::Rm { key } => key,
        Rec::Get { key } => key,
    }
}

/// The value a `Set` record carries.
pub open spec fn rec_value(r: Rec) -> Seq<u8> {
    match r {
        Rec::SetRec { value, .. } => value,
        Rec::Rm { .. } => Seq::empty(),
        Rec::Get { .. } => Seq::empty(),
    }
}

/// True when some record of `recs` names the key `kb`.
pub open spec fn names_key(recs: Seq<Rec>, kb: Seq<u8>) -> bool {
    exists|k: int| 0 <= k < recs.len() && rec_key(#[trigger] recs[k]) == kb
}

/// True when `ds` is a freshly compacted disk for the live map `m`:
/// one segment holding exactly one `Set` record per live key, with its
/// live value, and one empty current segment after it.
pub open spec fn compacted_disk(ds: Seq<Seq<u8>>, m: Map<Seq<u8>, Seq<u8>>) -> bool {
    &&& ds.len() == 2
    &&& ds[1] == Seq::<u8>::empty()
    &&& seg_ok(ds[0])
    &&& ({
        let rs = records_of(ds[0]);
        &&& forall|k: int|
            0 <= k < rs.len() ==> (#[trigger] rs[k]) is SetRec && m.contains_key(rec_key(rs[k]))
                && rec_value(rs[k]) == m[rec_key(rs[k])]
        &&& forall|kb: Seq<u8>| #[trigger] m.contains_key(kb) ==> names_key(rs, kb)
        &&& forall|k: int, l: int| 0 <= k < l < rs.len() ==> rec_key(rs[k]) != rec_key(rs[l])
        &&& forall|k: int, l: int|
            0 <= k < l < rs.len() ==> chars_lt(
                decode_utf8(rec_key(rs[k])),
                decode_utf8(rec_key(rs[l])),
            )
    })
}

/// Replaying a list of `Set` records whose values agree with `m` binds
/// exactly the named keys to their values in `m` and touches no other
/// binding.
proof fn lemma_apply_set_records(acc: Map<Seq<u8>, Seq<u8>>, recs: Seq<Rec>, m: Map<Seq<u8>, Seq<u8>>)
    requires
        forall|k: int|
            0 <= k < recs.len() ==> (#[trigger] recs[k]) is SetRec && m.contains_key(
                rec_key(recs[k]),
            ) && rec_value(recs[k]) == m[rec_key(recs[k])],
    ensures
        forall|kb: Seq<u8>| #[trigger]
            apply_recs(acc, recs).contains_key(kb) <==> (acc.contains_key(kb) || names_key(
                recs,
                kb,
            )),
        forall|kb: Seq<u8>| #[trigger]
            names_key(recs, kb) ==> apply_recs(acc, recs)[kb] == m[kb],
        forall|kb: Seq<u8>|
            !names_key(recs, kb) && #[trigger] acc.contains_key(kb) ==> apply_recs(acc, recs)[kb]
                == acc[kb],
    decreases recs.len(),
{
    if recs.len() == 0 {
        assert(forall|kb: Seq<u8>| !names_key(recs, kb));
    } else {
        let r0 = recs[0];
        let k0 = rec_key(r0);
        let v0 = rec_value(r0);
        let rest = recs.drop_first();
        let acc2 = acc.insert(k0, v0);
        assert(apply_recs(acc, recs) == apply_recs(acc2, rest));
        lemma_apply_set_records(acc2, rest, m);
        assert forall|kb: Seq<u8>|
            names_key(recs, kb) implies kb == k0 || names_key(rest, kb) by {
            let k = choose|k: int| 0 <= k < recs.len() && rec_key(#[trigger] recs[k]) == kb;
            if k > 0 {
                assert(rest[k - 1] == recs[k]);
                assert(rec_key(rest[k - 1]) == kb);
            }
        }
        assert forall|kb: Seq<u8>|
            kb == k0 || names_key(rest, kb) implies names_key(recs, kb) by {
            if names_key(rest, kb) {
                let k = choose|k: int| 0 <= k < rest.len() && rec_key(#[trigger] rest[k]) == kb;
                assert(recs[k + 1] == rest[k]);
                assert(rec_key(recs[k + 1]) == kb);
            } else {
                assert(rec_key(recs[0]) == kb);
            }
        }
        assert forall|kb: Seq<u8>| #[trigger]
            names_key(recs, kb) implies apply_recs(acc, recs)[kb] == m[kb] by {
            if names_key(rest, kb) {
            } else {
                assert(kb == k0);
                assert(acc2.contains_key(kb) && acc2[kb] == v0);
            }
        }
        assert forall|kb: Seq<u8>| #[trigger]
            apply_recs(acc, recs).contains_key(kb) implies (acc.contains_key(kb) || names_key(
            recs,
            kb,
        )) by {
            if !acc.contains_key(kb) {
                assert(acc2.contains_key(kb) || names_key(rest, kb));
                if acc2.contains_key(kb) && !acc.contains_key(kb) {
                    assert(kb == k0);
                }
            }
        }
        assert forall|kb: Seq<u8>|
            (acc.contains_key(kb) || names_key(recs, kb)) implies #[trigger] apply_recs(
            acc,
            recs,
        ).contains_key(kb) by {
            if names_key(recs, kb) && !names_key(rest, kb) {
                assert(kb == k0);
            }
            assert(acc2.contains_key(kb) || names_key(rest, kb));
        }
        assert forall|kb: Seq<u8>|
            !names_key(recs, kb) && #[trigger] acc.contains_key(kb) implies apply_recs(
            acc,
            recs,
        )[kb] == acc[kb] by {
            assert(!names_key(rest, kb));
            assert(kb != k0);
            assert(acc2.contains_key(kb) && acc2[kb] == acc[kb]);
        }
    }
}

/// True when the `k`-th snapshot entry points, in the compaction sink
/// `comp`, at the `Set` record of its key's live value.
pub open spec fn sink_entry_ok(
    entries: Map<Seq<char>, CommandPos>,
    comp: Seq<u8>,
    vecv: Seq<(String, CommandPos)>,
    m: Map<Seq<u8>, Seq<u8>>,
    cgen: u64,
    k: int,
) -> bool {
    let kc = vecv[k].0@;
    let cpk = entries[kc];
    &&& entries.contains_key(kc)
    &&& cpk.gen == cgen
    &&& cpk.pos + cpk.len <= comp.len()
    &&& comp.subrange(cpk.pos as int, cpk.pos + cpk.len) == enc_rec(
        (Rec::SetRec { key: encode_utf8(vecv[k].0@), value: m[encode_utf8(vecv[k].0@)] }),
    )
}

/// One compaction step: copying the `i`-th live record into the sink
/// and repointing its index entry preserves the bookkeeping of all
/// earlier steps and of the untouched keys.
proof fn lemma_compact_step(
    entries0: Map<Seq<char>, CommandPos>,
    entries1: Map<Seq<char>, CommandPos>,
    entries2: Map<Seq<char>, CommandPos>,
    vecv: Seq<(String, CommandPos)>,
    m: Map<Seq<u8>, Seq<u8>>,
    comp0: Seq<u8>,
    comp1: Seq<u8>,
    i: int,
    cgen: u64,
    newcp: CommandPos,
)
    requires
        0 <= i < vecv.len(),
        forall|k: int, l: int| 0 <= k < l < vecv.len() ==> vecv[k].0@ != vecv[l].0@,
        entries1.dom() == entries0.dom(),
        forall|k: int| 0 <= k < i ==> sink_entry_ok(entries1, comp0, vecv, m, cgen, k),
        forall|kc: Seq<char>|
            #![trigger entries1.contains_key(kc)]
            entries0.contains_key(kc) && (forall|k: int|
                0 <= k < i ==> (#[trigger] vecv[k].0@) != kc) ==> entries1[kc] == entries0[kc],
        entries2 == entries1.insert(vecv[i].0@, newcp),
        comp1 == comp0 + enc_rec(
            (Rec::SetRec { key: encode_utf8(vecv[i].0@), value: m[encode_utf8(vecv[i].0@)] }),
        ),
        newcp.gen == cgen,
        newcp.pos == comp0.len(),
        newcp.len == enc_rec(
            (Rec::SetRec { key: encode_utf8(vecv[i].0@), value: m[encode_utf8(vecv[i].0@)] }),
        ).len(),
        entries0.contains_key(vecv[i].0@),
    ensures
        entries2.dom() == entries0.dom(),
        forall|k: int| 0 <= k < i + 1 ==> sink_entry_ok(entries2, comp1, vecv, m, cgen, k),
        forall|kc: Seq<char>|
            #![trigger entries2.contains_key(kc)]
            entries0.contains_key(kc) && (forall|k: int|
                0 <= k < i + 1 ==> (#[trigger] vecv[k].0@) != kc) ==> entries2[kc] == entries0[kc],
{
    let kc = vecv[i].0@;
    let rec = Rec::SetRec { key: encode_utf8(kc), value: m[encode_utf8(kc)] };
    assert(entries2.dom() =~= entries0.dom());
    assert(comp1.subrange(newcp.pos as int, newcp.pos + newcp.len) =~= enc_rec(rec));
    assert forall|k: int| 0 <= k < i + 1 implies sink_entry_ok(entries2, comp1, vecv, m, cgen, k) by {
        if k < i {
            assert(vecv[k].0@ != kc);
            assert(sink_entry_ok(entries1, comp0, vecv, m, cgen, k));
            let cpk = entries1[vecv[k].0@];
            assert(entries2[vecv[k].0@] == cpk);
            assert(comp1.subrange(cpk.pos as int, cpk.pos + cpk.len) =~= comp0.subrange(
                cpk.pos as int,
                cpk.pos + cpk.len,
            ));
        } else {
            assert(entries2[kc] == newcp);
        }
    }
}

impl KvStore {
    /// Clears stale entries in the log.
    ///
    /// Every live record is copied, in ascending key order, into a
    /// fresh compaction segment one generation past the current one;
    /// the index is repointed at the copies, a new current segment two
    /// generations ahead receives later writes, the safe point
    /// advances to the compaction generation, and the old segments are
    /// dropped.  The live map is unchanged; afterward the log holds
    /// exactly one copy of each live record.
    #[verifier::rlimit(100)]
    fn compact(&mut self)
        requires
            old(self).wf(),
            old(self).current_gen + 2 <= u64::MAX,
        ensures
            final(self).wf(),
            final(self)@ == old(self)@,
            final(self).uncompacted == 0,
            final(self).current_gen == old(self).current_gen + 2,
            final(self).safe_point == old(self).current_gen + 1,
            // the old segments are gone: what remains is exactly one
            // Set record per live key and a fresh current segment
            compacted_disk(final(self).disk(), old(self)@),
            // every key keeps its binding, repointed into the sink
            final(self).entries().dom() == old(self).entries().dom(),
    {
        broadcast use vstd::utf8::encode_utf8_valid_utf8;

        let ghost m = self@;
        let compaction_gen = self.current_gen + 1;
        let new_current = self.current_gen + 2;
        let entries_vec = index_to_vec(&self.index);
        let ghost entries0 = index_entries(self.index);
        let ghost vecv = entries_vec@;
        let n = entries_vec.len();
        let mut comp_data: Vec<u8> = Vec::new();
        let ghost mut recs: Seq<Rec> = Seq::empty();
        let mut i: usize = 0;
        while i < n
            invariant
                i <= n,
                n == vecv.len(),
                vecv == entries_vec@,
                self.segments == old(self).segments,
                self.current_gen == old(self).current_gen,
                compaction_gen == self.current_gen + 1,
                self.current_gen + 2 <= u64::MAX,
                m == self@,
                old(self).wf(),
                index_matches(entries0, self.segments@, m),
                forall|k: int|
                    0 <= k < n ==> entries0.contains_key(#[trigger] vecv[k].0@)
                        && entries0[vecv[k].0@] == vecv[k].1,
                forall|kc: Seq<char>|
                    entries0.contains_key(kc) ==> exists|k: int|
                        0 <= k < n && (#[trigger] vecv[k].0@) == kc,
                forall|k: int, l: int| 0 <= k < l < n ==> vecv[k].0@ != vecv[l].0@,
                forall|k: int, l: int| 0 <= k < l < n ==> chars_lt(vecv[k].0@, vecv[l].0@),
                seg_records_from(comp_data@, 0) == Some(recs),
                recs.len() == i,
                forall|k: int|
                    0 <= k < i ==> (#[trigger] recs[k]) == (Rec::SetRec {
                        key: encode_utf8(vecv[k].0@),
                        value: m[encode_utf8(vecv[k].0@)],
                    }),
                index_entries(self.index).dom() == entries0.dom(),
                forall|k: int|
                    0 <= k < i ==> sink_entry_ok(
                        index_entries(self.index),
                        comp_data@,
                        vecv,
                        m,
                        compaction_gen,
                        k,
                    ),
                forall|kc: Seq<char>|
                    #![trigger index_entries(self.index).contains_key(kc)]
                    entries0.contains_key(kc) && (forall|k: int|
                        0 <= k < i ==> (#[trigger] vecv[k].0@) != kc) ==> index_entries(
                        self.index,
                    )[kc] == entries0[kc],
            decreases n - i,
        {
            let ghost kc = vecv[i as int].0@;
            let ghost kb = encode_utf8(kc);
            let ghost rec = Rec::SetRec { key: kb, value: m[kb] };
            let pair = &entries_vec[i];
            let key = pair.0.clone();
            let cp = pair.1;
            proof {
                assert(entries0.contains_key(kc) && entries0[kc] == cp);
                assert forall|k: int| 0 <= k < i implies (#[trigger] vecv[k].0@) != kc by {}
                assert(index_entries(self.index)[kc] == entries0[kc]);
                assert(m.contains_key(kb));
                assert(entry_points(cp, kb, m[kb], self.segments@));
            }
            let si = self.find_segment(cp.gen);
            proof {
                let sj = choose|sj: int|
                    0 <= sj < self.segments@.len() && (#[trigger] self.segments@[sj].gen)
                        == cp.gen && cp.pos + cp.len <= self.segments@[sj].data@.len()
                        && self.segments@[sj].data@.subrange(cp.pos as int, cp.pos + cp.len)
                        == enc_rec((Rec::SetRec { key: kb, value: m[kb] }));
                if sj != si {
                    assert(self.segments@[sj].gen != self.segments@[si as int].gen);
                }
                assert(sj == si);
                assert(cp.pos + cp.len <= self.segments@[si as int].data@.len());
                assert(self.segments@[si as int].data@.subrange(cp.pos as int, cp.pos + cp.len)
                    == enc_rec(rec));
            }
            let seg = &self.segments[si];
            let seg_len = seg.data.len();
            proof {
                assert(seg.data@.len() == seg_len);
                assert(cp.pos as usize as int == cp.pos as int && cp.len as usize as int
                    == cp.len as int);
            }
            let mut bytes = copy_range(&seg.data, cp.pos as usize, cp.len as usize);
            let new_pos = comp_data.len();
            let ghost comp0 = comp_data@;
            proof {
                assert(bytes@ == self.segments@[si as int].data@.subrange(
                    cp.pos as int,
                    cp.pos + cp.len,
                ));
                assert(bytes@ == enc_rec(rec));
                assert(rec_utf8(rec)) by {
                    assert(m.contains_key(kb));
                }
                lemma_seg_records_append(comp0, 0, rec);
            }
            comp_data.append(&mut bytes);
            let newcp = CommandPos { gen: compaction_gen, pos: new_pos as u64, len: cp.len };
            let ghost entries_before = index_entries(self.index);
            index_insert(&mut self.index, key, newcp);
            proof {
                recs = recs.push(rec);
                assert(comp_data@ == comp0 + enc_rec(rec));
                assert(newcp.len == enc_rec(rec).len());
                lemma_compact_step(
                    entries0,
                    entries_before,
                    index_entries(self.index),
                    vecv,
                    m,
                    comp0,
                    comp_data@,
                    i as int,
                    compaction_gen,
                    newcp,
                );
            }
            i += 1;
        }
        // commit: the sink and a fresh current segment replace the log
        let comp_len = comp_data.len();
        let mut new_segments: Vec<Segment> = Vec::new();
        let ghost compv = comp_data@;
        new_segments.push(Segment { gen: compaction_gen, data: comp_data });
        new_segments.push(Segment { gen: new_current, data: Vec::new() });
        self.segments = new_segments;
        self.current_gen = new_current;
        self.safe_point = compaction_gen;
        self.uncompacted = 0;
        self.total_bytes = comp_len as u64;
        self.close_stale_readers();
        proof {
            lemma_empty_seg_ok();
            let ds = datas(self.segments@);
            assert(ds =~= Seq::<Seq<u8>>::empty().push(compv).push(Seq::<u8>::empty()));
            lemma_total_size_snoc(Seq::<Seq<u8>>::empty(), compv);
            lemma_total_size_snoc(Seq::<Seq<u8>>::empty().push(compv), Seq::<u8>::empty());
            lemma_log_map_from_snoc(Map::empty(), Seq::<Seq<u8>>::empty(), compv);
            lemma_log_map_from_snoc(
                Map::empty(),
                Seq::<Seq<u8>>::empty().push(compv),
                Seq::<u8>::empty(),
            );
            assert(log_map(ds) == apply_recs(Map::empty(), recs));
            assert forall|k: int|
                0 <= k < recs.len() implies (#[trigger] recs[k]) is SetRec && m.contains_key(
                rec_key(recs[k]),
            ) && rec_value(recs[k]) == m[rec_key(recs[k])] by {
                assert(entries0.contains_key(vecv[k].0@));
            }
            lemma_apply_set_records(Map::empty(), recs, m);
            // every live key is some snapshot entry, so replaying the sink
            // rebuilds exactly the live map
            assert(apply_recs(Map::empty(), recs) =~= m) by {
                assert forall|kb2: Seq<u8>| #[trigger]
                    m.contains_key(kb2) implies names_key(recs, kb2) by {
                    let kc2 = choose|kc2: Seq<char>|
                        (#[trigger] entries0.contains_key(kc2)) && encode_utf8(kc2) == kb2;
                    let k = choose|k: int| 0 <= k < n && (#[trigger] vecv[k].0@) == kc2;
                    assert(rec_key(recs[k]) == kb2);
                }
                assert forall|kb2: Seq<u8>| #[trigger]
                    names_key(recs, kb2) implies m.contains_key(kb2) by {
                    let k = choose|k: int| 0 <= k < recs.len() && rec_key(#[trigger] recs[k]) == kb2;
                }
            }
            assert(self@ == m);
            assert(records_of(self.disk()[0]) == recs);
            assert forall|k: int, l: int|
                0 <= k < l < recs.len() implies rec_key(recs[k]) != rec_key(recs[l]) by {
                if encode_utf8(vecv[k].0@) == encode_utf8(vecv[l].0@) {
                    lemma_encode_utf8_injective(vecv[k].0@, vecv[l].0@);
                }
            }
            assert forall|k: int, l: int|
                0 <= k < l < recs.len() implies chars_lt(
                decode_utf8(rec_key(recs[k])),
                decode_utf8(rec_key(recs[l])),
            ) by {
                vstd::utf8::encode_utf8_decode_utf8(vecv[k].0@);
                vstd::utf8::encode_utf8_decode_utf8(vecv[l].0@);
            }
            assert forall|kb2: Seq<u8>| #[trigger]
                m.contains_key(kb2) implies names_key(recs, kb2) by {
                let kc2 = choose|kc2: Seq<char>|
                    (#[trigger] entries0.contains_key(kc2)) && encode_utf8(kc2) == kb2;
                let k = choose|k: int| 0 <= k < n && (#[trigger] vecv[k].0@) == kc2;
                assert(rec_key(recs[k]) == kb2);
            }
            assert(compacted_disk(self.disk(), m));
            // the index now matches: every entry points into the sink
            let entries2 = index_entries(self.index);
            assert forall|kc2: Seq<char>| #[trigger]
                entries2.contains_key(kc2) implies m.contains_key(encode_utf8(kc2))
                && entry_points(entries2[kc2], encode_utf8(kc2), m[encode_utf8(kc2)], self.segments@) by {
                assert(entries0.contains_key(kc2));
                let k = choose|k: int| 0 <= k < n && (#[trigger] vecv[k].0@) == kc2;
                assert(sink_entry_ok(entries2, compv, vecv, m, compaction_gen, k));
                assert(self.segments@[0].gen == compaction_gen);
                assert(self.segments@[0].data@ == compv);
            }
            assert forall|kb2: Seq<u8>| #[trigger]
                m.contains_key(kb2) implies exists|kc2: Seq<char>|
                (#[trigger] entries2.contains_key(kc2)) && encode_utf8(kc2) == kb2 by {
                let kc2 = choose|kc2: Seq<char>|
                    (#[trigger] entries0.contains_key(kc2)) && encode_utf8(kc2) == kb2;
                assert(entries2.contains_key(kc2) && encode_utf8(kc2) == kb2);
            }
            assert(self.wf());
        }
    }
}


impl KvStore {
    /// Durability: the store's own segments always replay to its live
    /// map, so closing the store and reopening it over the same files
    /// preserves every live key and keeps every removed key absent.
    /// `open` finishes the argument: it accepts exactly these files
    /// and returns a store whose view is their replay.
    pub proof fn lemma_reopen_preserves_view(self)
        requires
            self.wf(),
        ensures
            disk_ok(self.disk()),
            log_map(self.disk()) == self@,
            total_size(self.disk()) <= u64::MAX,
    {
    }
}

/// After `set(k, v)`, the live map binds `k` to `v`: a lookup of `k`
/// answers `v` until a later write to `k`.
pub proof fn lemma_get_after_set(m: Map<Seq<u8>, Seq<u8>>, kb: Seq<u8>, vb: Seq<u8>)
    ensures
        m.insert(kb, vb).contains_key(kb),
        m.insert(kb, vb)[kb] == vb,
        forall|other: Seq<u8>|
            other != kb ==> (m.insert(kb, vb).contains_key(other) <==> m.contains_key(other)),
        forall|other: Seq<u8>|
            other != kb && m.contains_key(other) ==> m.insert(kb, vb)[other] == m[other],
{
}

/// After `remove(k)` succeeds, the live map no longer binds `k`: a
/// following lookup of `k` answers nothing, and a second `remove(k)`
/// finds no key.
pub proof fn lemma_get_after_remove(m: Map<Seq<u8>, Seq<u8>>, kb: Seq<u8>)
    ensures
        !m.remove(kb).contains_key(kb),
        forall|other: Seq<u8>|
            other != kb ==> (m.remove(kb).contains_key(other) <==> m.contains_key(other)),
        forall|other: Seq<u8>|
            other != kb && m.contains_key(other) ==> m.remove(kb)[other] == m[other],
{
}

} // verus!
