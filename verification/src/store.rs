//! The engine: the key directory, the segment list with its active tail, the
//! write path, recovery and compaction, behind `open`, `get`, `set` and
//! `remove`.
//!
//! The store holds the log's contents; the surrounding process mirrors every
//! change to the real directory by draining [`KvStore::take_effects`] and
//! performing each effect on disk, and reads the directory back in before
//! `open`. The store's observable state is a map from live key to value; the
//! central invariant says that replaying the segments yields exactly the key
//! directory, so closing and re-opening changes nothing.

use vstd::prelude::*;

use crate::codec::decode_command;
use crate::codec::encode_command;
use crate::codec::lemma_decode_encode;
use crate::codec::spec_decode;
use crate::codec::spec_encode;
use crate::codec::CommandLog;
use crate::codec::CommandModel;
use crate::keydir::KeyDir;
use crate::segment::apply_record;
use crate::segment::entry_ok;
use crate::segment::ids_increasing;
use crate::segment::lemma_ids_unique;
use crate::segment::lemma_replay_data_decodes;
use crate::segment::lemma_replay_entries_ok;
use crate::segment::lemma_replay_segs_append;
use crate::segment::lemma_replay_segs_push;
use crate::segment::lemma_replay_segs_seg_some;
use crate::segment::lemma_replay_segs_skip;
use crate::segment::replay;
use crate::segment::replay_data;
use crate::segment::replay_segs;
use crate::segment::seg_entry_ok;
use crate::segment::terminated;
use crate::segment::LogPosition;
use crate::segment::PosModel;
use crate::segment::ReplayMap;
use crate::segment::Segment;
use crate::segment::SegmentModel;
use crate::CommandResult;
use crate::KvSError;
use vstd::set_lib::lemma_len_subset;

verus! {

/// The pre-write gate: once the active segment's size counter would reach
/// this, compaction runs before the record is appended.
pub const COMPACTION_THRESHOLD: usize = 1024 * 1024;

/// One change the surrounding process must mirror to the real directory:
/// create the file of a fresh segment, append text to a segment's file, or
/// delete a compacted segment's file.
pub enum Effect {
    CreateSegment { id: u64 },
    AppendSegment { id: u64, text: Vec<char> },
    DeleteSegment { id: u64 },
}

/// What one mirror effect does to a directory of segment files.
pub open spec fn apply_effect(disk: Seq<SegmentModel>, e: Effect) -> Seq<SegmentModel> {
    match e {
        Effect::CreateSegment { id } => disk.push(SegmentModel { id, data: Seq::empty() }),
        Effect::AppendSegment { id, text } => Seq::new(
            disk.len(),
            |i: int|
                if disk[i].id == id {
                    SegmentModel { id, data: disk[i].data + text@ }
                } else {
                    disk[i]
                },
        ),
        Effect::DeleteSegment { id } => disk.filter(|sg: SegmentModel| sg.id != id),
    }
}

/// What a whole queue of mirror effects does, applied in order.
pub open spec fn apply_effect_seq(disk: Seq<SegmentModel>, effs: Seq<Effect>) -> Seq<SegmentModel>
    decreases effs.len(),
{
    if effs.len() == 0 {
        disk
    } else {
        apply_effect(apply_effect_seq(disk, effs.drop_last()), effs.last())
    }
}

/// Deleting an identifier that names the first segment and no other removes
/// exactly that segment.
proof fn lemma_delete_first(disk: Seq<SegmentModel>, id: u64)
    requires
        disk.len() > 0,
        disk[0].id == id,
        forall|i: int| 1 <= i < disk.len() ==> (#[trigger] disk[i]).id != id,
    ensures
        disk.filter(|sg: SegmentModel| sg.id != id) == disk.skip(1),
    decreases disk.len(),
{
    if disk.len() == 1 {
        reveal_with_fuel(Seq::filter, 3);
        assert(disk.drop_last() =~= Seq::<SegmentModel>::empty());
        assert(Seq::<SegmentModel>::empty().filter(|sg: SegmentModel| sg.id != id)
            =~= Seq::<SegmentModel>::empty());
        assert(disk.filter(|sg: SegmentModel| sg.id != id) =~= disk.skip(1));
    } else {
        reveal(Seq::filter);
        let pre = disk.drop_last();
        assert(pre[0].id == id);
        lemma_delete_first(pre, id);
        assert(disk.last().id != id);
        assert(disk.filter(|sg: SegmentModel| sg.id != id) == pre.filter(
            |sg: SegmentModel| sg.id != id,
        ).push(disk.last()));
        assert(pre.skip(1).push(disk.last()) =~= disk.skip(1));
    }
}

/// The characters a directory of segments holds, from index `i` on.
pub open spec fn total_len_from(segs: Seq<SegmentModel>, i: int) -> int
    decreases segs.len() - i,
{
    if i < 0 || i >= segs.len() {
        0
    } else {
        segs[i].data.len() + total_len_from(segs, i + 1)
    }
}

/// The length of the record a position points at, in the segment its
/// identifier names.
pub open spec fn rec_len(segs: Seq<SegmentModel>, pos: PosModel) -> int {
    if exists|si: int| 0 <= si < segs.len() && (#[trigger] segs[si]).id == pos.id {
        let si = choose|si: int| 0 <= si < segs.len() && (#[trigger] segs[si]).id == pos.id;
        crate::segment::line_end(segs[si].data, pos.off) - pos.off
    } else {
        0
    }
}

proof fn lemma_total_len_push(segs: Seq<SegmentModel>, i: int, nid: u64)
    requires
        0 <= i <= segs.len(),
    ensures
        total_len_from(segs.push(SegmentModel { id: nid, data: Seq::empty() }), i)
            == total_len_from(segs, i),
    decreases segs.len() - i,
{
    let s2 = segs.push(SegmentModel { id: nid, data: Seq::empty() });
    if i == segs.len() {
        assert(s2[i].data.len() == 0);
        assert(total_len_from(s2, i + 1) == 0);
    } else {
        assert(s2[i] == segs[i]);
        lemma_total_len_push(segs, i + 1, nid);
    }
}

proof fn lemma_total_len_append(segs: Seq<SegmentModel>, i: int, tail: Seq<char>)
    requires
        0 <= i < segs.len(),
    ensures
        ({
            let lastidx = segs.len() - 1;
            let s2 = segs.update(
                lastidx,
                SegmentModel { id: segs.last().id, data: segs.last().data + tail },
            );
            total_len_from(s2, i) == total_len_from(segs, i) + tail.len()
        }),
    decreases segs.len() - i,
{
    let lastidx = segs.len() - 1;
    let s2 = segs.update(
        lastidx,
        SegmentModel { id: segs.last().id, data: segs.last().data + tail },
    );
    if i == lastidx {
        assert(s2[i].data == segs[i].data + tail);
        assert(total_len_from(s2, i + 1) == 0);
        assert(total_len_from(segs, i + 1) == 0);
    } else {
        assert(s2[i] == segs[i]);
        lemma_total_len_append(segs, i + 1, tail);
    }
}

proof fn lemma_total_len_lower(segs: Seq<SegmentModel>, i: int, c: int)
    requires
        0 <= i < segs.len(),
        forall|j: int| i <= j < segs.len() - 1 ==> c <= (#[trigger] segs[j]).data.len(),
    ensures
        (segs.len() - 1 - i) * c <= total_len_from(segs, i),
    decreases segs.len() - i,
{
    if i == segs.len() - 1 {
        assert(total_len_from(segs, i + 1) == 0);
    } else {
        lemma_total_len_lower(segs, i + 1, c);
        assert(c <= segs[i].data.len());
        assert((segs.len() - 1 - i) * c == (segs.len() - 1 - (i + 1)) * c + c)
            by (nonlinear_arith);
    }
}

proof fn lemma_total_len_skip(segs: Seq<SegmentModel>, c: int, i: int)
    requires
        0 <= c <= i <= segs.len(),
    ensures
        total_len_from(segs, i) == total_len_from(segs.skip(c), i - c),
    decreases segs.len() - i,
{
    if i < segs.len() {
        assert(segs.skip(c)[i - c] == segs[i]);
        lemma_total_len_skip(segs, c, i + 1);
    } else {
        assert(segs.skip(c).len() == segs.len() - c);
    }
}

/// A bound that holds of every live record's length.
pub open spec fn live_records_bounded(m: ReplayMap, segs: Seq<SegmentModel>, bound: int) -> bool {
    forall|k: Seq<char>| #[trigger] m.contains_key(k) ==> rec_len(segs, m[k].0) <= bound
}

/// The entries compaction has already rewritten: those whose position lies
/// in a segment younger than every segment the scan walks.
pub open spec fn rewritten(m: ReplayMap, old_last: u64) -> ReplayMap {
    Map::new(|k: Seq<char>| m.contains_key(k) && m[k].0.id > old_last, |k: Seq<char>| m[k])
}

/// The keys of `rewritten`.
pub open spec fn new_keys(m: ReplayMap, old_last: u64) -> Set<Seq<char>> {
    Set::new(|k: Seq<char>| m.contains_key(k) && m[k].0.id > old_last)
}

/// Whether the most recent existing segment can stay the active one: it is
/// under the threshold and ends at a record boundary.
pub open spec fn adoptable(vin: Seq<SegmentModel>) -> bool {
    vin.len() > 0 && vin.last().data.len() < COMPACTION_THRESHOLD && terminated(vin.last().data)
}

/// The positions half of a replayed directory.
pub open spec fn positions_of(m: ReplayMap) -> Map<Seq<char>, PosModel> {
    Map::new(|k: Seq<char>| m.contains_key(k), |k: Seq<char>| m[k].0)
}

/// The values half of a replayed directory: the store's observable state.
pub open spec fn values_of(m: ReplayMap) -> Map<Seq<char>, Seq<char>> {
    Map::new(|k: Seq<char>| m.contains_key(k), |k: Seq<char>| m[k].1)
}

/// How far past the clock's range an identifier has been pushed by counter
/// bumps; fresh identifiers only ever step this up by one.
pub open spec fn id_over(a: u64) -> int {
    if a as int > i64::MAX as int {
        a as int - i64::MAX as int
    } else {
        0
    }
}

pub struct KvStore {
    pub segments: Vec<Segment>,
    pub key_dir: KeyDir,
    pub active_size: usize,
    pub effects: Vec<Effect>,
    pub replayed: Ghost<ReplayMap>,
    pub synced: Ghost<Seq<SegmentModel>>,
}

impl View for KvStore {
    type V = Map<Seq<char>, Seq<char>>;

    open spec fn view(&self) -> Map<Seq<char>, Seq<char>> {
        values_of(self.replayed@)
    }
}

impl KvStore {
    pub open spec fn segs(self) -> Seq<SegmentModel> {
        self.segments@.map_values(|s: Segment| s@)
    }

    pub open spec fn active_id(self) -> u64 {
        self.segs().last().id
    }

    /// The mirror queue is sound: performing the pending effects, in order,
    /// on the directory as it stood when the queue was last drained yields
    /// the directory as the store holds it now.
    pub open spec fn effects_ok(self) -> bool {
        apply_effect_seq(self.synced@, self.effects@) == self.segs()
    }

    /// The log half of well-formedness: ordered segments, a terminated
    /// active tail, a log whose replay is exactly `replayed`, and a sound
    /// mirror queue.
    pub open spec fn wf_log(self) -> bool {
        &&& self.segments@.len() >= 1
        &&& ids_increasing(self.segs())
        &&& terminated(self.segs().last().data)
        &&& self.key_dir.wf()
        &&& replay(self.segs()) == Some(self.replayed@)
        &&& self.effects_ok()
    }

    /// Well-formed: the log replays to `replayed` and the key directory is
    /// its positions half.
    pub open spec fn wf(self) -> bool {
        &&& self.wf_log()
        &&& self.key_dir@ == positions_of(self.replayed@)
    }

    /// Room in the identifier space for the fresh segments one operation can
    /// take: one roll-over plus one spill per live key.
    pub open spec fn headroom(self) -> bool {
        id_over(self.active_id()) + self.key_dir.num_keys() + 2 <= i64::MAX as int
    }
}

/// Relies on chrono's `Utc::now` and `DateTime::timestamp_nanos_opt`: the
/// current wall-clock time as nanoseconds since the Unix epoch, or `None`
/// where that does not fit an `i64`. Nothing is promised of the value: the
/// clock moves on its own. (`Utc::now` panics if the system clock reads
/// earlier than the Unix epoch.)
#[verifier::external_body]
fn wall_clock_nanos() -> Option<i64> {
    chrono::Utc::now().timestamp_nanos_opt()
}

/// The clock reading clamped to a segment identifier: nonnegative, and zero
/// where the clock gave nothing usable.
fn clock_base() -> (b: u64)
    ensures
        b as int <= i64::MAX as int,
{
    match wall_clock_nanos() {
        Some(n) => if n > 0 {
            n as u64
        } else {
            0
        },
        None => 0,
    }
}

/// A fresh segment identifier above `last`: the clock reading where it has
/// moved past every name in use, else the next counter value.
fn fresh_id_above(last: u64) -> (r: Option<u64>)
    ensures
        match r {
            Some(id) => id > last && id_over(id) <= id_over(last) + 1,
            None => last == u64::MAX,
        },
        r is Some <==> last < u64::MAX,
{
    if last == u64::MAX {
        return None;
    }
    let base = clock_base();
    if base > last {
        Some(base)
    } else {
        Some(last + 1)
    }
}

/// At a scan position whose record is a `Remove`, or a `Set` the directory
/// no longer points at, no directory entry points: an entry's record is a
/// `Set` carrying its own key, so only that key's entry could sit here, and
/// it does not.
proof fn lemma_no_entry_here(
    m: ReplayMap,
    segs: Seq<SegmentModel>,
    si: int,
    off: int,
    e: int,
    cmdm: CommandModel,
)
    requires
        crate::segment::entries_ok(segs, m),
        ids_increasing(segs),
        0 <= si < segs.len(),
        0 <= off,
        e == crate::segment::line_end(segs[si].data, off),
        e < segs[si].data.len(),
        spec_decode(segs[si].data.subrange(off, e)) == Some(cmdm),
        match cmdm {
            CommandModel::SetCmd { key, .. } => !(m.contains_key(key) && m[key].0 == (PosModel {
                id: segs[si].id,
                off,
            })),
            CommandModel::RemoveCmd { .. } => true,
        },
    ensures
        forall|k: Seq<char>|
            #[trigger] m.contains_key(k) ==> m[k].0 != (PosModel { id: segs[si].id, off }),
{
    let pos = PosModel { id: segs[si].id, off };
    assert forall|k: Seq<char>| #[trigger] m.contains_key(k) implies m[k].0 != pos by {
        if m[k].0 == pos {
            let wi = choose|wi: int|
                0 <= wi < segs.len() && (#[trigger] segs[wi]).id == m[k].0.id && seg_entry_ok(
                    segs[wi].data,
                    k,
                    m[k].0.off,
                    m[k].1,
                );
            lemma_ids_unique(segs, wi, si);
            assert(seg_entry_ok(segs[si].data, k, off, m[k].1));
            assert(spec_decode(segs[si].data.subrange(off, e)) == Some(
                CommandModel::SetCmd { key: k, value: m[k].1 },
            ));
            match cmdm {
                CommandModel::SetCmd { key, .. } => {
                    assert(k == key);
                    assert(false);
                },
                CommandModel::RemoveCmd { .. } => {
                    assert(false);
                },
            }
        }
    }
}

/// Once the scan has passed a record and no entry points at it, every entry
/// still waiting in this segment starts at or after the next record: record
/// starts sit just after newlines, and the passed record holds none.
proof fn advance_classification(
    m: ReplayMap,
    segs: Seq<SegmentModel>,
    ssnap: Seq<SegmentModel>,
    si: int,
    old_count: int,
    old_last: u64,
    off: int,
    e: int,
)
    requires
        crate::segment::entries_ok(segs, m),
        ids_increasing(segs),
        0 <= si < old_count <= segs.len(),
        ssnap.len() == old_count,
        forall|j: int| 0 <= j < old_count ==> segs[j] == ssnap[j],
        0 <= off,
        e == crate::segment::line_end(ssnap[si].data, off),
        e < ssnap[si].data.len(),
        forall|k: Seq<char>|
            #[trigger] m.contains_key(k) ==> m[k].0.id > old_last || (exists|j: int|
                #![auto]
                si < j < old_count && ssnap[j].id == m[k].0.id) || (ssnap[si].id == m[k].0.id
                && m[k].0.off >= off),
        forall|k: Seq<char>|
            #[trigger] m.contains_key(k) ==> m[k].0 != (PosModel { id: ssnap[si].id, off }),
    ensures
        forall|k: Seq<char>|
            #[trigger] m.contains_key(k) ==> m[k].0.id > old_last || (exists|j: int|
                #![auto]
                si < j < old_count && ssnap[j].id == m[k].0.id) || (ssnap[si].id == m[k].0.id
                && m[k].0.off >= e + 1),
{
    let d = ssnap[si].data;
    crate::segment::lemma_line_end_props(d, off);
    assert forall|k: Seq<char>| #[trigger] m.contains_key(k) implies m[k].0.id > old_last || (
    exists|j: int|
        #![auto]
        si < j < old_count && ssnap[j].id == m[k].0.id) || (ssnap[si].id == m[k].0.id && m[k].0.off
        >= e + 1) by {
        if !(m[k].0.id > old_last) && !(exists|j: int|
            #![auto]
            si < j < old_count && ssnap[j].id == m[k].0.id) {
            assert(ssnap[si].id == m[k].0.id && m[k].0.off >= off);
            let wi = choose|wi: int|
                0 <= wi < segs.len() && (#[trigger] segs[wi]).id == m[k].0.id && seg_entry_ok(
                    segs[wi].data,
                    k,
                    m[k].0.off,
                    m[k].1,
                );
            lemma_ids_unique(segs, wi, si);
            assert(seg_entry_ok(d, k, m[k].0.off, m[k].1));
            let off2 = m[k].0.off;
            assert(off2 != off);
            assert(off2 > off);
            assert(d[off2 - 1] == '\n');
            if off2 - 1 < e {
                assert(d[off2 - 1] != '\n');
                assert(false);
            }
            assert(off2 >= e + 1);
        }
    }
}

impl KvStore {
    /// Opens a fresh, empty active segment with the given identifier.
    fn push_segment(&mut self, id: u64)
        requires
            old(self).wf_log(),
            id > old(self).active_id(),
        ensures
            final(self).wf_log(),
            final(self).segs() == old(self).segs().push(
                SegmentModel { id, data: Seq::empty() },
            ),
            final(self).active_id() == id,
            final(self).replayed == old(self).replayed,
            final(self).key_dir == old(self).key_dir,
            final(self).active_size == 0,
    {
        self.segments.push(Segment { id, data: Vec::new() });
        self.active_size = 0;
        self.effects.push(Effect::CreateSegment { id });
        proof {
            let oldsegs = old(self).segs();
            assert(self.segs() =~= oldsegs.push(SegmentModel { id, data: Seq::empty() }));
            assert(ids_increasing(self.segs())) by {
                assert(forall|i: int|
                    0 <= i < oldsegs.len() ==> (#[trigger] oldsegs[i]).id <= oldsegs.last().id);
            }
            lemma_replay_segs_push(Map::empty(), oldsegs, 0, id);
            assert(self.effects@.drop_last() =~= old(self).effects@);
            assert(self.effects@.last() == Effect::CreateSegment { id });
            assert(apply_effect_seq(self.synced@, self.effects@) == self.segs());
        }
    }

    /// Appends one encoded record and its newline to the active segment,
    /// returning the position where the record begins. The caller brings the
    /// key directory back in line with the record it appended.
    fn append_line(&mut self, line: &Vec<char>, Ghost(rec): Ghost<CommandModel>) -> (pos:
        LogPosition)
        requires
            old(self).wf_log(),
            spec_decode(line@) == Some(rec),
            forall|i: int| 0 <= i < line@.len() ==> line@[i] != '\n',
        ensures
            final(self).wf_log(),
            pos@ == (PosModel {
                id: old(self).active_id(),
                off: old(self).segs().last().data.len() as int,
            }),
            final(self).replayed@ == apply_record(old(self).replayed@, rec, pos@),
            final(self).segs() == old(self).segs().update(
                old(self).segs().len() - 1,
                SegmentModel {
                    id: old(self).active_id(),
                    data: old(self).segs().last().data + line@ + seq!['\n'],
                },
            ),
            final(self).active_id() == old(self).active_id(),
            final(self).key_dir == old(self).key_dir,
            old(self).active_size + line@.len() <= usize::MAX ==> final(self).active_size == old(
                self,
            ).active_size + line@.len(),
            final(self).active_size as int <= old(self).active_size as int + line@.len(),
    {
        let ghost oldsegs = old(self).segs();
        let mut seg = match self.segments.pop() {
            Some(s) => s,
            None => {
                proof {
                    assert(false);
                }
                Segment { id: 0, data: Vec::new() }
            },
        };
        let off = seg.data.len();
        let pos = LogPosition { segment_id: seg.id, offset: off };
        let mut text: Vec<char> = Vec::new();
        for i in 0..line.len()
            invariant
                text@ == line@.subrange(0, i as int),
        {
            text.push(line[i]);
            proof {
                assert(text@ =~= line@.subrange(0, i + 1));
            }
        }
        text.push('\n');
        proof {
            assert(line@.subrange(0, line@.len() as int) =~= line@);
            assert(text@ =~= line@ + seq!['\n']);
        }
        let mut j: usize = 0;
        while j < text.len()
            invariant
                j <= text@.len(),
                seg.id == pos.segment_id,
                seg.data@ == old(self).segs().last().data + text@.subrange(0, j as int),
            decreases text@.len() - j,
        {
            let c = text[j];
            seg.data.push(c);
            proof {
                assert(text@.subrange(0, j + 1) =~= text@.subrange(0, j as int).push(
                    text@.index(j as int),
                ));
                assert(seg.data@ =~= old(self).segs().last().data + text@.subrange(0, j + 1));
            }
            j = j + 1;
        }
        proof {
            assert(text@.subrange(0, text@.len() as int) =~= text@);
            assert(seg.data@ =~= old(self).segs().last().data + line@ + seq!['\n']);
        }
        self.segments.push(seg);
        if usize::MAX - self.active_size >= line.len() {
            self.active_size = self.active_size + line.len();
        } else {
            self.active_size = usize::MAX;
        }
        let mut etext: Vec<char> = Vec::new();
        for i in 0..text.len()
            invariant
                etext@ == text@.subrange(0, i as int),
        {
            etext.push(text[i]);
            proof {
                assert(etext@ =~= text@.subrange(0, i + 1));
            }
        }
        self.effects.push(Effect::AppendSegment { id: pos.segment_id, text: etext });
        proof {
            self.replayed = Ghost(
                apply_record(
                    old(self).replayed@,
                    rec,
                    PosModel { id: oldsegs.last().id, off: oldsegs.last().data.len() as int },
                ),
            );
        }
        proof {
            let lastidx = oldsegs.len() - 1;
            let s2 = oldsegs.update(
                lastidx,
                SegmentModel {
                    id: oldsegs.last().id,
                    data: oldsegs.last().data + line@ + seq!['\n'],
                },
            );
            assert(self.segs() =~= s2);
            lemma_replay_segs_append(Map::empty(), oldsegs, 0, line@, rec);
            assert(ids_increasing(self.segs())) by {
                assert(forall|i: int|
                    0 <= i < s2.len() ==> (#[trigger] s2[i]).id == oldsegs[i].id);
            }
            assert(terminated(self.segs().last().data));
            assert(self.effects@.drop_last() =~= old(self).effects@);
            assert(apply_effect(oldsegs, self.effects@.last()) =~= s2) by {
                assert(forall|i: int|
                    0 <= i < oldsegs.len() - 1 ==> (#[trigger] oldsegs[i]).id < oldsegs.last().id);
            }
            assert(apply_effect_seq(self.synced@, self.effects@) == self.segs());
        }
        pos
    }

    /// Ensures `path`'s segments become a running store: replays every
    /// segment in order to rebuild the key directory, then adopts the most
    /// recent segment as the active one where it is whole and under the
    /// threshold, else opens a fresh one.
    ///
    /// The caller hands the directory's segments in file-name order, which
    /// the naming scheme makes the order of creation.
    pub fn open(segments: Vec<Segment>) -> (r: CommandResult<KvStore>)
        requires
            ids_increasing(segments@.map_values(|s: Segment| s@)),
        ensures
            match r {
                Ok(store) => {
                    let vin = segments@.map_values(|s: Segment| s@);
                    &&& store.wf()
                    &&& replay(vin) == Some(store.replayed@)
                    &&& store.synced@ == vin
                    &&& adoptable(vin) ==> store.segs() == vin && store.active_size
                        == vin.last().data.len()
                    &&& !adoptable(vin) ==> {
                        &&& store.segs().drop_last() == vin
                        &&& store.segs().last().data == Seq::<char>::empty()
                        &&& store.active_size == 0
                        &&& (vin.len() > 0 ==> store.active_id() > vin.last().id)
                    }
                    &&& vin.len() == 0 ==> id_over(store.active_id()) == 0
                    &&& vin.len() > 0 ==> id_over(store.active_id()) <= id_over(vin.last().id)
                        + 1
                },
                Err(e) => {
                    let vin = segments@.map_values(|s: Segment| s@);
                    &&& (e == KvSError::Corruption) <==> replay(vin) is None
                    &&& (e == KvSError::Io) <==> (replay(vin) is Some && vin.len() > 0
                        && !adoptable(vin) && vin.last().id == u64::MAX)
                    &&& (e == KvSError::Corruption || e == KvSError::Io)
                },
            },
    {
        let ghost vin = segments@.map_values(|s: Segment| s@);
        let mut dir = KeyDir::new();
        let ghost mut rmap: ReplayMap = Map::empty();
        let n = segments.len();
        proof {
            assert(vin.len() == n);
        }
        for si in 0..n
            invariant
                n == segments@.len(),
                vin == segments@.map_values(|s: Segment| s@),
                ids_increasing(vin),
                dir.wf(),
                dir@ == positions_of(rmap),
                replay_segs(rmap, vin, si as int) == replay(vin),
        {
            let ghost sid = segments@[si as int].id;
            let ghost sdata = segments@[si as int].data@;
            let dlen = segments[si].data.len();
            let mut off: usize = 0;
            loop
                invariant
                    n == segments@.len(),
                    si < n,
                    vin == segments@.map_values(|s: Segment| s@),
                    ids_increasing(vin),
                    sid == segments@[si as int].id,
                    sdata == segments@[si as int].data@,
                    dlen == sdata.len(),
                    dir.wf(),
                    dir@ == positions_of(rmap),
                    off <= dlen,
                    off == 0 || sdata[off - 1] == '\n',
                    (match replay_data(rmap, sid, sdata, off as int) {
                        Some(mm) => replay_segs(mm, vin, si + 1) == replay(vin),
                        None => replay(vin) is None,
                    }),
                ensures
                    dir.wf(),
                    dir@ == positions_of(rmap),
                    replay_segs(rmap, vin, si + 1) == replay(vin),
                decreases dlen - off,
            {
                let (line, e) = crate::segment::read_line_at(&segments[si].data, off);
                if e >= dlen {
                    proof {
                        assert(replay_data(rmap, sid, sdata, off as int) == Some(rmap));
                    }
                    break ;
                }
                proof {
                    assert(vin[si as int].id == sid && vin[si as int].data == sdata);
                }
                match decode_command(&line) {
                    Some(cmd) => {
                        let pos = LogPosition { segment_id: segments[si].id, offset: off };
                        let ghost old_rmap = rmap;
                        proof {
                            rmap = apply_record(rmap, cmd@, pos@);
                            crate::segment::lemma_line_end_props(sdata, off as int);
                        }
                        match cmd {
                            CommandLog::SetCmd { key, .. } => {
                                dir.set(key, pos);
                                proof {
                                    assert(dir@ =~= positions_of(rmap));
                                }
                            },
                            CommandLog::RemoveCmd { key } => {
                                dir.remove(&key);
                                proof {
                                    assert(dir@ =~= positions_of(rmap));
                                }
                            },
                        }
                        off = e + 1;
                    },
                    None => {
                        proof {
                            assert(replay_data(rmap, sid, sdata, off as int) is None);
                        }
                        return Err(KvSError::Corruption);
                    },
                }
            }
        }
        proof {
            assert(replay_segs(rmap, vin, n as int) == Some(rmap));
            assert(replay(vin) == Some(rmap));
        }
        let mut segments = segments;
        let mut active_size: usize = 0;
        let mut effects: Vec<Effect> = Vec::new();
        if n == 0 {
            let id = clock_base();
            segments.push(Segment { id, data: Vec::new() });
            effects.push(Effect::CreateSegment { id });
            proof {
                assert(segments@.map_values(|s: Segment| s@) =~= vin.push(
                    SegmentModel { id, data: Seq::empty() },
                ));
                lemma_replay_segs_push(Map::empty(), vin, 0, id);
            }
        } else {
            let dlen = segments[n - 1].data.len();
            let whole = dlen == 0 || segments[n - 1].data[dlen - 1] == '\n';
            if dlen < COMPACTION_THRESHOLD && whole {
                active_size = dlen;
            } else {
                match fresh_id_above(segments[n - 1].id) {
                    Some(id) => {
                        proof {
                            assert(vin.last().id == segments@[n - 1].id);
                        }
                        segments.push(Segment { id, data: Vec::new() });
                        effects.push(Effect::CreateSegment { id });
                        proof {
                            assert(segments@.map_values(|s: Segment| s@) =~= vin.push(
                                SegmentModel { id, data: Seq::empty() },
                            ));
                            assert(ids_increasing(
                                segments@.map_values(|s: Segment| s@),
                            )) by {
                                assert(forall|i: int|
                                    0 <= i < vin.len() ==> (#[trigger] vin[i]).id
                                        <= vin.last().id);
                            }
                            lemma_replay_segs_push(Map::empty(), vin, 0, id);
                        }
                    },
                    None => {
                        return Err(KvSError::Io);
                    },
                }
            }
        }
        let store = KvStore {
            segments,
            key_dir: dir,
            active_size,
            effects,
            replayed: Ghost(rmap),
            synced: Ghost(vin),
        };
        proof {
            assert(store.effects_ok()) by {
                if store.effects@.len() == 0 {
                    assert(apply_effect_seq(vin, store.effects@) == vin);
                    assert(store.segs() == vin);
                } else {
                    assert(store.effects@.len() == 1);
                    assert(store.effects@.drop_last() =~= Seq::<Effect>::empty());
                    assert(apply_effect_seq(vin, Seq::<Effect>::empty()) == vin);
                    assert(apply_effect_seq(vin, store.effects@) == apply_effect(
                        vin,
                        store.effects@.last(),
                    ));
                    assert(apply_effect(vin, store.effects@.last()) == store.segs());
                }
            }
            assert(store.wf());
        }
        Ok(store)
    }

    /// Looks `key` up: the value of its latest `Set` record, or `None` where
    /// the key is absent or was removed.
    pub fn get(&mut self, key: String) -> (r: CommandResult<Option<String>>)
        requires
            old(self).wf(),
        ensures
            *final(self) == *old(self),
            match r {
                Ok(opt) => match opt {
                    Some(v) => old(self)@.contains_key(key@) && v@ == old(self)@[key@],
                    None => !old(self)@.contains_key(key@),
                },
                Err(_) => false,
            },
    {
        match self.key_dir.get(&key) {
            None => Ok(None),
            Some(pos) => {
                proof {
                    lemma_replay_entries_ok(self.segs(), self.replayed@);
                    assert(self.replayed@.contains_key(key@));
                    assert(entry_ok(self.segs(), key@, pos@, self.replayed@[key@].1));
                }
                let n = self.segments.len();
                let mut si: usize = 0;
                while si < n && self.segments[si].id != pos.segment_id
                    invariant
                        n == self.segments@.len(),
                        si <= n,
                        forall|j: int| 0 <= j < si ==> (#[trigger] self.segs()[j]).id != pos@.id,
                    decreases n - si,
                {
                    si = si + 1;
                }
                proof {
                    let wi = choose|wi: int|
                        0 <= wi < self.segs().len() && (#[trigger] self.segs()[wi]).id == pos@.id
                            && seg_entry_ok(
                            self.segs()[wi].data,
                            key@,
                            pos@.off,
                            self.replayed@[key@].1,
                        );
                    if si >= n {
                        assert(false);
                    }
                    lemma_ids_unique(self.segs(), wi, si as int);
                    assert(seg_entry_ok(
                        self.segs()[si as int].data,
                        key@,
                        pos@.off,
                        self.replayed@[key@].1,
                    ));
                }
                let (line, _e) = crate::segment::read_line_at(&self.segments[si].data, pos.offset);
                match decode_command(&line) {
                    Some(CommandLog::SetCmd { value, .. }) => {
                        proof {
                            assert(value@ == self.replayed@[key@].1);
                        }
                        Ok(Some(value))
                    },
                    Some(CommandLog::RemoveCmd { .. }) => Ok(None),
                    None => Err(KvSError::Corruption),
                }
            },
        }
    }

    /// Hands the pending mirror effects out in order and clears the queue.
    pub fn take_effects(&mut self) -> (effs: Vec<Effect>)
        ensures
            effs@ == old(self).effects@,
            final(self).effects@.len() == 0,
            final(self).segments == old(self).segments,
            final(self).key_dir == old(self).key_dir,
            final(self).active_size == old(self).active_size,
            final(self).replayed == old(self).replayed,
            final(self).synced@ == final(self).segs(),
            final(self).effects_ok(),
            old(self).wf() ==> final(self).wf(),
    {
        let mut out: Vec<Effect> = Vec::new();
        core::mem::swap(&mut out, &mut self.effects);
        proof {
            self.synced = Ghost(self.segments@.map_values(|sg: Segment| sg@));
        }
        out
    }

    /// The identifiers of the segments now on disk, in order.
    pub fn segment_ids(&self) -> (ids: Vec<u64>)
        ensures
            ids@.len() == self.segments@.len(),
            forall|i: int| 0 <= i < ids@.len() ==> ids@[i] == self.segs()[i].id,
    {
        let mut out: Vec<u64> = Vec::new();
        let n = self.segments.len();
        for i in 0..n
            invariant
                n == self.segments@.len(),
                out@.len() == i,
                forall|j: int| 0 <= j < i ==> out@[j] == self.segs()[j].id,
        {
            out.push(self.segments[i].id);
        }
        out
    }

    /// A snapshot of the log: each segment's identifier and contents, as the
    /// files would read. Re-opening a store on this snapshot finds the same
    /// observable state.
    pub fn snapshot(&self) -> (segs: Vec<Segment>)
        ensures
            segs@.map_values(|s: Segment| s@) == self.segs(),
    {
        let mut out: Vec<Segment> = Vec::new();
        let n = self.segments.len();
        for i in 0..n
            invariant
                n == self.segments@.len(),
                out@.len() == i,
                forall|j: int| 0 <= j < i ==> (#[trigger] out@[j])@ == self.segs()[j],
        {
            let src = &self.segments[i];
            let mut data: Vec<char> = Vec::new();
            let m = src.data.len();
            for k in 0..m
                invariant
                    m == src.data@.len(),
                    data@ == src.data@.subrange(0, k as int),
            {
                data.push(src.data[k]);
                proof {
                    assert(data@ =~= src.data@.subrange(0, k + 1));
                }
            }
            proof {
                assert(data@ =~= src.data@);
            }
            out.push(Segment { id: src.id, data });
        }
        proof {
            assert(out@.map_values(|s: Segment| s@) =~= self.segs());
        }
        out
    }

    /// Scans every old segment in order and re-appends exactly the live
    /// records — the `Set` records the key directory still points at — into
    /// freshly named segments, rewrites the directory entries to the new
    /// positions, and deletes the old segments. The observable state does
    /// not change, and the disk afterwards holds no more than one line per
    /// live key: its total size is bounded by the number of live keys times
    /// the largest serialized record, newline included.
    ///
    /// The write path invokes this when a record would push the active
    /// segment's size counter to the threshold.
    #[verifier::rlimit(100)]
    pub fn compact(&mut self) -> (r: CommandResult<()>)
        requires
            old(self).wf(),
        ensures
            final(self).wf(),
            final(self)@ == old(self)@,
            final(self).key_dir.num_keys() == old(self).key_dir.num_keys(),
            old(self).headroom() ==> r is Ok,
            r matches Err(e) ==> e == KvSError::Io,
            id_over(final(self).active_id()) <= id_over(old(self).active_id()) + old(
                self,
            ).key_dir.num_keys() + 1,
            r is Ok ==> forall|bound: int|
                bound >= 0 && live_records_bounded(old(self).replayed@, old(self).segs(), bound)
                    ==> total_len_from(final(self).segs(), 0) <= old(self).key_dir.num_keys() * (
                bound + 1),
            r is Ok ==> forall|i: int|
                0 <= i < final(self).segs().len() ==> (#[trigger] final(self).segs()[i]).id > old(
                    self,
                ).active_id(),
            r is Ok ==> final(self).segs().len() <= old(self).key_dir.num_keys() + 1,
            r is Ok ==> forall|bound: int|
                bound >= 0 && live_records_bounded(old(self).replayed@, old(self).segs(), bound)
                    ==> (final(self).segs().len() - 1) * (COMPACTION_THRESHOLD as int - bound)
                    <= total_len_from(final(self).segs(), 0),
    {
        let old_count = self.segments.len();
        let ghost ssnap = self.segs();
        let ghost r_orig = self.replayed@;
        let ghost kn = self.key_dir.num_keys();
        let old_last = self.segments[old_count - 1].id;
        proof {
            assert(ssnap[old_count - 1] == self.segments@[old_count - 1]@);
            assert(old_last == ssnap.last().id);
            assert(old(self).active_id() == old_last);
            crate::keydir::lemma_to_map_props(self.key_dir.entries@);
            assert(self.key_dir@.dom() =~= r_orig.dom());
            assert(r_orig.dom().finite());
            assert(r_orig.dom().len() == kn);
        }
        let first_id = match fresh_id_above(old_last) {
            None => {
                proof {
                    if old(self).headroom() {
                        assert(old(self).active_id() == old_last);
                        assert(false);
                    }
                }
                return Err(KvSError::Io);
            },
            Some(id) => id,
        };
        self.push_segment(first_id);
        proof {
            lemma_replay_segs_push(Map::empty(), ssnap, old_count as int, first_id);
            assert(replay_segs(Map::empty(), ssnap, old_count as int) == Some(
                Map::<Seq<char>, (PosModel, Seq<char>)>::empty(),
            ));
            lemma_replay_entries_ok(ssnap, r_orig);
            assert forall|k: Seq<char>| #[trigger] r_orig.contains_key(k) implies r_orig[k].0.id
                <= old_last && (exists|j: int|
                #![auto]
                0 <= j < old_count && ssnap[j].id == r_orig[k].0.id) by {
                let wi = choose|wi: int|
                    0 <= wi < ssnap.len() && (#[trigger] ssnap[wi]).id == r_orig[k].0.id
                        && seg_entry_ok(ssnap[wi].data, k, r_orig[k].0.off, r_orig[k].1);
                assert(ssnap[wi].id <= ssnap[old_count - 1].id);
                assert(0 <= wi < old_count && ssnap[wi].id == r_orig[k].0.id);
            }
            assert(rewritten(r_orig, old_last) =~= Map::<Seq<char>, (PosModel, Seq<char>)>::empty());
            assert(new_keys(r_orig, old_last) =~= Set::<Seq<char>>::empty());
            assert(self.segs() == ssnap.push(SegmentModel { id: first_id, data: Seq::empty() }));
            assert(total_len_from(self.segs(), old_count as int) == 0) by {
                assert(self.segs()[old_count as int].data.len() == 0);
                assert(total_len_from(self.segs(), old_count as int + 1) == 0);
            }
            assert(ids_increasing(ssnap));
            assert(self.active_size <= self.segs().last().data.len());
        }
        let mut si: usize = 0;
        while si < old_count
            invariant
                self.wf(),
                si <= old_count,
                ssnap.len() == old_count,
                1 <= old_count,
                old_last == ssnap[old_count - 1].id,
                values_of(self.replayed@) == values_of(r_orig),
                self.replayed@.dom() == r_orig.dom(),
                r_orig.dom().finite(),
                r_orig.dom().len() == kn,
                self.key_dir.num_keys() == kn,
                r_orig == old(self).replayed@,
                old(self).active_id() == old_last,
                old(self).key_dir.num_keys() == kn,
                old_count < self.segments@.len(),
                forall|j: int| 0 <= j < old_count ==> self.segs()[j] == ssnap[j],
                replay_segs(Map::empty(), self.segs(), old_count as int) == Some(
                    rewritten(self.replayed@, old_last),
                ),
                forall|k: Seq<char>|
                    #[trigger] self.replayed@.contains_key(k) ==> self.replayed@[k].0.id > old_last
                        || exists|j: int|
                        #![auto]
                        si <= j < old_count && ssnap[j].id == self.replayed@[k].0.id,
                id_over(self.active_id()) <= id_over(old_last) + (self.segments@.len()
                    - old_count),
                self.segments@.len() - old_count <= 1 + new_keys(self.replayed@, old_last).len(),
                ids_increasing(ssnap),
                forall|k: Seq<char>|
                    #[trigger] self.replayed@.contains_key(k) && self.replayed@[k].0.id <= old_last
                        ==> self.replayed@[k] == r_orig[k],
                forall|bound: int|
                    bound >= 0 && live_records_bounded(r_orig, ssnap, bound) ==> total_len_from(
                        self.segs(),
                        old_count as int,
                    ) <= new_keys(self.replayed@, old_last).len() * (bound + 1),
                self.active_size <= self.segs().last().data.len(),
                forall|bound: int|
                    bound >= 0 && live_records_bounded(r_orig, ssnap, bound) ==> forall|j: int|
                        old_count <= j < self.segs().len() - 1 ==> COMPACTION_THRESHOLD as int
                            - bound <= (#[trigger] self.segs()[j]).data.len(),
            decreases old_count - si,
        {
            let ghost sid = ssnap[si as int].id;
            let ghost sdata = ssnap[si as int].data;
            let dlen = self.segments[si].data.len();
            proof {
                assert(self.segs()[si as int] == ssnap[si as int]);
                assert(dlen == sdata.len());
                lemma_replay_entries_ok(self.segs(), self.replayed@);
                let m = self.replayed@;
                assert forall|k: Seq<char>| #[trigger] m.contains_key(k) implies m[k].0.id
                    > old_last || (exists|j: int|
                    #![auto]
                    si < j < old_count && ssnap[j].id == m[k].0.id) || (ssnap[si as int].id
                    == m[k].0.id && m[k].0.off >= 0) by {
                    if !(m[k].0.id > old_last) {
                        let j = choose|j: int|
                            #![auto]
                            si <= j < old_count && ssnap[j].id == m[k].0.id;
                        if j == si {
                            let wi = choose|wi: int|
                                0 <= wi < self.segs().len() && (#[trigger] self.segs()[wi]).id
                                    == m[k].0.id && seg_entry_ok(
                                    self.segs()[wi].data,
                                    k,
                                    m[k].0.off,
                                    m[k].1,
                                );
                            assert(m[k].0.off >= 0);
                        }
                    }
                }
            }
            let mut off: usize = 0;
            loop
                invariant
                    self.wf(),
                    si < old_count,
                    ssnap.len() == old_count,
                    old_last == ssnap[old_count - 1].id,
                    sid == ssnap[si as int].id,
                    sdata == ssnap[si as int].data,
                    dlen == sdata.len(),
                    values_of(self.replayed@) == values_of(r_orig),
                    self.replayed@.dom() == r_orig.dom(),
                    r_orig.dom().finite(),
                    r_orig.dom().len() == kn,
                    self.key_dir.num_keys() == kn,
                    r_orig == old(self).replayed@,
                    old(self).active_id() == old_last,
                    old(self).key_dir.num_keys() == kn,
                    old_count < self.segments@.len(),
                    forall|j: int| 0 <= j < old_count ==> self.segs()[j] == ssnap[j],
                    replay_segs(Map::empty(), self.segs(), old_count as int) == Some(
                        rewritten(self.replayed@, old_last),
                    ),
                    off <= dlen,
                    off == 0 || sdata[off - 1] == '\n',
                    forall|k: Seq<char>|
                        #[trigger] self.replayed@.contains_key(k) ==> self.replayed@[k].0.id
                            > old_last || (exists|j: int|
                            #![auto]
                            si < j < old_count && ssnap[j].id == self.replayed@[k].0.id) || (
                        ssnap[si as int].id == self.replayed@[k].0.id && self.replayed@[k].0.off
                            >= off),
                    id_over(self.active_id()) <= id_over(old_last) + (self.segments@.len()
                        - old_count),
                    self.segments@.len() - old_count <= 1 + new_keys(
                        self.replayed@,
                        old_last,
                    ).len(),
                    ids_increasing(ssnap),
                    forall|k: Seq<char>|
                        #[trigger] self.replayed@.contains_key(k) && self.replayed@[k].0.id
                            <= old_last ==> self.replayed@[k] == r_orig[k],
                    forall|bound: int|
                        bound >= 0 && live_records_bounded(r_orig, ssnap, bound)
                            ==> total_len_from(self.segs(), old_count as int) <= new_keys(
                            self.replayed@,
                            old_last,
                        ).len() * (bound + 1),
                    self.active_size <= self.segs().last().data.len(),
                    forall|bound: int|
                        bound >= 0 && live_records_bounded(r_orig, ssnap, bound) ==> forall|
                            j: int,
                        |
                            old_count <= j < self.segs().len() - 1 ==> COMPACTION_THRESHOLD as int
                                - bound <= (#[trigger] self.segs()[j]).data.len(),
                ensures
                    self.wf(),
                    values_of(self.replayed@) == values_of(r_orig),
                    self.replayed@.dom() == r_orig.dom(),
                    self.key_dir.num_keys() == kn,
                    old_count < self.segments@.len(),
                    forall|j: int| 0 <= j < old_count ==> self.segs()[j] == ssnap[j],
                    replay_segs(Map::empty(), self.segs(), old_count as int) == Some(
                        rewritten(self.replayed@, old_last),
                    ),
                    forall|k: Seq<char>|
                        #[trigger] self.replayed@.contains_key(k) ==> self.replayed@[k].0.id
                            > old_last || exists|j: int|
                            #![auto]
                            si + 1 <= j < old_count && ssnap[j].id == self.replayed@[k].0.id,
                    id_over(self.active_id()) <= id_over(old_last) + (self.segments@.len()
                        - old_count),
                    self.segments@.len() - old_count <= 1 + new_keys(
                        self.replayed@,
                        old_last,
                    ).len(),
                    forall|k: Seq<char>|
                        #[trigger] self.replayed@.contains_key(k) && self.replayed@[k].0.id
                            <= old_last ==> self.replayed@[k] == r_orig[k],
                    forall|bound: int|
                        bound >= 0 && live_records_bounded(r_orig, ssnap, bound)
                            ==> total_len_from(self.segs(), old_count as int) <= new_keys(
                            self.replayed@,
                            old_last,
                        ).len() * (bound + 1),
                    self.active_size <= self.segs().last().data.len(),
                    forall|bound: int|
                        bound >= 0 && live_records_bounded(r_orig, ssnap, bound) ==> forall|
                            j: int,
                        |
                            old_count <= j < self.segs().len() - 1 ==> COMPACTION_THRESHOLD as int
                                - bound <= (#[trigger] self.segs()[j]).data.len(),
                decreases dlen - off,
            {
                let (line, e) = crate::segment::read_line_at(&self.segments[si].data, off);
                proof {
                    crate::segment::lemma_line_end_props(sdata, off as int);
                    lemma_replay_entries_ok(self.segs(), self.replayed@);
                }
                if e >= dlen {
                    proof {
                        let m = self.replayed@;
                        assert forall|k: Seq<char>| #[trigger] m.contains_key(k) implies m[k].0.id
                            > old_last || exists|j: int|
                            #![auto]
                            si + 1 <= j < old_count && ssnap[j].id == m[k].0.id by {
                            if !(m[k].0.id > old_last) {
                                if ssnap[si as int].id == m[k].0.id && m[k].0.off >= off {
                                    let wi = choose|wi: int|
                                        0 <= wi < self.segs().len() && (#[trigger] self.segs()[wi]).id
                                            == m[k].0.id && seg_entry_ok(
                                            self.segs()[wi].data,
                                            k,
                                            m[k].0.off,
                                            m[k].1,
                                        );
                                    lemma_ids_unique(self.segs(), wi, si as int);
                                    assert(seg_entry_ok(sdata, k, m[k].0.off, m[k].1));
                                    if m[k].0.off > off {
                                        assert(sdata[m[k].0.off - 1] == '\n');
                                        assert(false);
                                    } else {
                                        assert(m[k].0.off == off);
                                        crate::segment::lemma_line_end_props(sdata, off as int);
                                        assert(false);
                                    }
                                }
                            }
                        }
                    }
                    break ;
                }
                match decode_command(&line) {
                    None => {
                        proof {
                            lemma_replay_segs_seg_some(Map::empty(), self.segs(), 0, si as int);
                            let mj = choose|mj: ReplayMap|
                                #[trigger] replay_data(
                                    mj,
                                    self.segs()[si as int].id,
                                    self.segs()[si as int].data,
                                    0,
                                ) is Some;
                            lemma_replay_data_decodes(mj, sid, sdata, 0, off as int);
                            assert(false);
                        }
                        return Err(KvSError::Corruption);
                    },
                    Some(cmd) => {
                        let ghost cmdm = cmd@;
                        let ghost m = self.replayed@;
                        let ghost segs_head = self.segs();
                        proof {
                            assert(line@ == sdata.subrange(off as int, e as int));
                            assert forall|i: int| 0 <= i < line@.len() implies line@[i]
                                != '\n' by {
                                assert(line@[i] == sdata[off + i]);
                            }
                        }
                        match cmd {
                            CommandLog::RemoveCmd { .. } => {
                                proof {
                                    assert(self.segs()[si as int] == ssnap[si as int]);
                                    lemma_no_entry_here(
                                        self.replayed@,
                                        self.segs(),
                                        si as int,
                                        off as int,
                                        e as int,
                                        cmdm,
                                    );
                                    advance_classification(
                                        self.replayed@,
                                        self.segs(),
                                        ssnap,
                                        si as int,
                                        old_count as int,
                                        old_last,
                                        off as int,
                                        e as int,
                                    );
                                }
                                off = e + 1;
                            },
                            CommandLog::SetCmd { key, .. } => {
                                let this_id = self.segments[si].id;
                                let keep = match self.key_dir.get(&key) {
                                    Some(p) => p.segment_id == this_id && p.offset == off,
                                    None => false,
                                };
                                if keep {
                                    let l = line.len();
                                    if l >= COMPACTION_THRESHOLD || self.active_size
                                        >= COMPACTION_THRESHOLD || self.active_size + l
                                        >= COMPACTION_THRESHOLD {
                                        let lastidx = self.segments.len() - 1;
                                        let cur_last = self.segments[lastidx].id;
                                        let ghost sb0 = self.segs();
                                        proof {
                                            assert(cur_last == self.active_id());
                                            assert(old(self).active_id() == old_last);
                                            lemma_len_subset(
                                                new_keys(self.replayed@, old_last),
                                                r_orig.dom(),
                                            );
                                            // the segment the spill closes is full up to one
                                            // record's worth
                                            let mm = self.replayed@;
                                            let kv = key@;
                                            assert(mm.contains_key(kv) && mm[kv].0 == (PosModel {
                                                id: sid,
                                                off: off as int,
                                            }));
                                            assert(sid <= old_last) by {
                                                if si < old_count - 1 {
                                                    assert(ssnap[si as int].id < ssnap[old_count
                                                        - 1].id);
                                                }
                                            }
                                            assert(r_orig.contains_key(kv)) by {
                                                assert(mm.dom() =~= r_orig.dom());
                                            }
                                            assert(mm[kv] == r_orig[kv]);
                                            assert forall|bound: int|
                                                bound >= 0 && live_records_bounded(
                                                    r_orig,
                                                    ssnap,
                                                    bound,
                                                ) implies COMPACTION_THRESHOLD as int - bound
                                                <= sb0.last().data.len() by {
                                                let pos0 = r_orig[kv].0;
                                                assert(pos0 == PosModel {
                                                    id: sid,
                                                    off: off as int,
                                                });
                                                assert(ssnap[si as int].id == pos0.id);
                                                let si0 = choose|si0: int|
                                                    0 <= si0 < ssnap.len() && (#[trigger] ssnap[
                                                    si0]).id == pos0.id;
                                                lemma_ids_unique(ssnap, si0, si as int);
                                                assert(rec_len(ssnap, pos0) == e - off);
                                                assert(rec_len(ssnap, pos0) <= bound);
                                                assert(line@.len() == e - off);
                                                assert(self.active_size
                                                    <= sb0.last().data.len());
                                            }
                                        }
                                        match fresh_id_above(cur_last) {
                                            None => {
                                                proof {
                                                    if old(self).headroom() {
                                                        assert(id_over(cur_last) <= id_over(
                                                            old_last,
                                                        ) + 1 + new_keys(
                                                            self.replayed@,
                                                            old_last,
                                                        ).len());
                                                        assert(false);
                                                    }
                                                }
                                                return Err(KvSError::Io);
                                            },
                                            Some(nid) => {
                                                self.push_segment(nid);
                                                proof {
                                                    lemma_replay_segs_push(
                                                        Map::empty(),
                                                        sb0,
                                                        old_count as int,
                                                        nid,
                                                    );
                                                    lemma_total_len_push(
                                                        sb0,
                                                        old_count as int,
                                                        nid,
                                                    );
                                                    assert forall|bound: int|
                                                        bound >= 0 && live_records_bounded(
                                                            r_orig,
                                                            ssnap,
                                                            bound,
                                                        ) implies forall|j: int|
                                                        old_count <= j < self.segs().len() - 1
                                                            ==> COMPACTION_THRESHOLD as int
                                                            - bound <= (#[trigger] self.segs()[
                                                        j]).data.len() by {
                                                        assert forall|j: int|
                                                            old_count <= j < self.segs().len()
                                                                - 1 implies COMPACTION_THRESHOLD as int
                                                            - bound <= (#[trigger] self.segs()[
                                                        j]).data.len() by {
                                                            assert(self.segs()[j] == sb0[j]);
                                                        }
                                                    }
                                                }
                                            },
                                        }
                                    }
                                    let ghost sb = self.segs();
                                    let ghost m_pre = self.replayed@;
                                    let pos = self.append_line(&line, Ghost(cmdm));
                                    self.key_dir.set(key, pos);
                                    proof {
                                        let m2 = self.replayed@;
                                        let kv = cmdm->SetCmd_key;
                                        let vv = cmdm->SetCmd_value;
                                        assert(m2 == m_pre.insert(kv, (pos@, vv)));
                                        // the kept record is the directory's record, so the
                                        // value is unchanged
                                        let wi = choose|wi: int|
                                            0 <= wi < sb.len() && (#[trigger] sb[wi]).id
                                                == m_pre[kv].0.id && seg_entry_ok(
                                                sb[wi].data,
                                                kv,
                                                m_pre[kv].0.off,
                                                m_pre[kv].1,
                                            );
                                        assert(m_pre.contains_key(kv));
                                        assert(m_pre[kv].0 == PosModel { id: sid, off: off as int });
                                        assert(sb[si as int] == ssnap[si as int]);
                                        lemma_ids_unique(sb, wi, si as int);
                                        assert(seg_entry_ok(sdata, kv, off as int, m_pre[kv].1));
                                        assert(m_pre[kv].1 == vv);
                                        assert(values_of(m2) =~= values_of(m_pre));
                                        assert(self.key_dir@ =~= positions_of(m2));
                                        assert(m2.dom() =~= m_pre.dom());
                                        // suffix replay extends by the same record
                                        lemma_replay_segs_append(
                                            Map::empty(),
                                            sb,
                                            old_count as int,
                                            line@,
                                            cmdm,
                                        );
                                        assert(pos@.id > old_last);
                                        assert(rewritten(m2, old_last) =~= rewritten(
                                            m_pre,
                                            old_last,
                                        ).insert(kv, (pos@, vv)));
                                        // one more key is rewritten
                                        assert(new_keys(m2, old_last) =~= new_keys(
                                            m_pre,
                                            old_last,
                                        ).insert(kv));
                                        assert(!new_keys(m_pre, old_last).contains(kv));
                                        lemma_len_subset(new_keys(m_pre, old_last), r_orig.dom());
                                        // size accounting: the kept line is the record the
                                        // directory has pointed at since compaction began
                                        lemma_total_len_append(
                                            sb,
                                            old_count as int,
                                            line@ + seq!['\n'],
                                        );
                                        assert(sb.last().data + line@ + seq!['\n'] =~= sb.last().data
                                            + (line@ + seq!['\n']));
                                        assert(self.segs() == sb.update(
                                            sb.len() - 1,
                                            SegmentModel {
                                                id: sb.last().id,
                                                data: sb.last().data + (line@ + seq!['\n']),
                                            },
                                        ));
                                        assert(total_len_from(self.segs(), old_count as int)
                                            == total_len_from(segs_head, old_count as int)
                                            + line@.len() + 1);
                                        assert(sid <= old_last) by {
                                            if si < old_count - 1 {
                                                assert(ssnap[si as int].id < ssnap[old_count
                                                    - 1].id);
                                            }
                                        }
                                        assert(r_orig.contains_key(kv)) by {
                                            assert(m_pre.dom() =~= r_orig.dom());
                                        }
                                        assert(m_pre[kv] == r_orig[kv]);
                                        assert forall|bound: int|
                                            bound >= 0 && live_records_bounded(
                                                r_orig,
                                                ssnap,
                                                bound,
                                            ) implies total_len_from(self.segs(), old_count as int)
                                            <= new_keys(m2, old_last).len() * (bound + 1) by {
                                            let pos0 = r_orig[kv].0;
                                            assert(pos0 == PosModel { id: sid, off: off as int });
                                            assert(ssnap[si as int].id == pos0.id);
                                            let si0 = choose|si0: int|
                                                0 <= si0 < ssnap.len() && (#[trigger] ssnap[
                                                si0]).id == pos0.id;
                                            lemma_ids_unique(ssnap, si0, si as int);
                                            assert(rec_len(ssnap, pos0) == e - off);
                                            assert(rec_len(ssnap, pos0) <= bound);
                                            assert(line@.len() == e - off);
                                            assert(total_len_from(segs_head, old_count as int)
                                                <= new_keys(m_pre, old_last).len() * (bound + 1));
                                            let a = new_keys(m_pre, old_last).len() as int;
                                            assert(a * (bound + 1) + (bound + 1) == (a + 1) * (
                                            bound + 1)) by (nonlinear_arith);
                                            assert(new_keys(m2, old_last).len() == a + 1);
                                        }
                                        // classification: the kept key is rewritten, the
                                        // rest advance past this record
                                        assert(self.segs()[si as int] == ssnap[si as int]);
                                        lemma_replay_entries_ok(self.segs(), m2);
                                        lemma_no_entry_here(
                                            m2,
                                            self.segs(),
                                            si as int,
                                            off as int,
                                            e as int,
                                            cmdm,
                                        );
                                        assert(forall|k: Seq<char>|
                                            #[trigger] m2.contains_key(k) ==> m2[k].0.id
                                                > old_last || (exists|j: int|
                                                #![auto]
                                                si < j < old_count && ssnap[j].id == m2[k].0.id)
                                                || (ssnap[si as int].id == m2[k].0.id
                                                && m2[k].0.off >= off));
                                        advance_classification(
                                            m2,
                                            self.segs(),
                                            ssnap,
                                            si as int,
                                            old_count as int,
                                            old_last,
                                            off as int,
                                            e as int,
                                        );
                                        // the size counter and the closed segments' fullness
                                        // survive the append
                                        assert(self.segs().last().data.len() == sb.last().data.len()
                                            + line@.len() + 1);
                                        assert(self.active_size <= self.segs().last().data.len());
                                        assert forall|bound: int|
                                            bound >= 0 && live_records_bounded(
                                                r_orig,
                                                ssnap,
                                                bound,
                                            ) implies forall|j: int|
                                            old_count <= j < self.segs().len() - 1
                                                ==> COMPACTION_THRESHOLD as int - bound <= (
                                            #[trigger] self.segs()[j]).data.len() by {
                                            assert forall|j: int|
                                                old_count <= j < self.segs().len() - 1
                                                    implies COMPACTION_THRESHOLD as int - bound
                                                <= (#[trigger] self.segs()[j]).data.len() by {
                                                assert(self.segs()[j] == sb[j]);
                                            }
                                        }
                                    }
                                    off = e + 1;
                                } else {
                                    proof {
                                        assert(self.segs()[si as int] == ssnap[si as int]);
                                        let m = self.replayed@;
                                        let kv = key@;
                                        if m.contains_key(kv) && m[kv].0 == (PosModel {
                                            id: sid,
                                            off: off as int,
                                        }) {
                                            assert(self.key_dir@[kv] == m[kv].0);
                                            assert(false);
                                        }
                                        lemma_no_entry_here(
                                            m,
                                            self.segs(),
                                            si as int,
                                            off as int,
                                            e as int,
                                            cmdm,
                                        );
                                        advance_classification(
                                            m,
                                            self.segs(),
                                            ssnap,
                                            si as int,
                                            old_count as int,
                                            old_last,
                                            off as int,
                                            e as int,
                                        );
                                    }
                                    off = e + 1;
                                }
                            },
                        }
                    },
                }
            }
            si = si + 1;
        }
        proof {
            let m = self.replayed@;
            assert(rewritten(m, old_last) =~= m) by {
                assert forall|k: Seq<char>| #[trigger] m.contains_key(k) implies m[k].0.id
                    > old_last by {
                    if !(m[k].0.id > old_last) {
                        let j = choose|j: int|
                            #![auto]
                            old_count <= j < old_count && ssnap[j].id == m[k].0.id;
                        assert(false);
                    }
                }
            }
        }
        let ghost pre_evict = self.segs();
        let ghost m_final = self.replayed@;
        proof {
            assert(replay_segs(Map::empty(), pre_evict, old_count as int) == Some(m_final));
            lemma_len_subset(new_keys(m_final, old_last), r_orig.dom());
            assert(new_keys(m_final, old_last) =~= m_final.dom());
            assert(m_final.dom() =~= r_orig.dom());
            assert(new_keys(m_final, old_last).len() == kn);
            assert(pre_evict[old_count - 1].id == old_last);
            assert(forall|j: int|
                old_count <= j < pre_evict.len() ==> (#[trigger] pre_evict[j]).id > old_last);
            assert(pre_evict.len() - old_count <= kn + 1);
            assert(forall|bound: int|
                bound >= 0 && live_records_bounded(r_orig, ssnap, bound) ==> forall|j: int|
                    old_count <= j < pre_evict.len() - 1 ==> COMPACTION_THRESHOLD as int - bound
                        <= (#[trigger] pre_evict[j]).data.len());
        }
        proof {
            assert(pre_evict.skip(0) =~= pre_evict);
        }
        proof {
            lemma_len_subset(new_keys(m_final, old_last), r_orig.dom());
        }
        let mut removed: usize = 0;
        while removed < old_count
            invariant
                removed <= old_count,
                old_count < pre_evict.len(),
                self.segs() == pre_evict.skip(removed as int),
                self.replayed@ == m_final,
                self.key_dir.wf(),
                self.key_dir@ == positions_of(m_final),
                self.key_dir.num_keys() == kn,
                r_orig == old(self).replayed@,
                old(self).active_id() == old_last,
                old(self).key_dir.num_keys() == kn,
                values_of(m_final) == values_of(r_orig),
                replay_segs(Map::empty(), pre_evict, old_count as int) == Some(m_final),
                ids_increasing(pre_evict),
                terminated(pre_evict.last().data),
                id_over(pre_evict.last().id) <= id_over(old_last) + kn + 1,
                self.effects_ok(),
                ssnap == old(self).segs(),
                forall|bound: int|
                    bound >= 0 && live_records_bounded(r_orig, ssnap, bound) ==> total_len_from(
                        pre_evict,
                        old_count as int,
                    ) <= kn * (bound + 1),
                forall|j: int|
                    old_count <= j < pre_evict.len() ==> (#[trigger] pre_evict[j]).id > old_last,
                pre_evict.len() - old_count <= kn + 1,
                forall|bound: int|
                    bound >= 0 && live_records_bounded(r_orig, ssnap, bound) ==> forall|j: int|
                        old_count <= j < pre_evict.len() - 1 ==> COMPACTION_THRESHOLD as int
                            - bound <= (#[trigger] pre_evict[j]).data.len(),
            decreases old_count - removed,
        {
            proof {
                assert(self.segs().len() == self.segments@.len());
                assert(pre_evict.skip(removed as int).len() == pre_evict.len() - removed);
                assert(self.segments@.len() > 0);
            }
            let ghost prev = self.segments@;
            let ghost prevsegs = self.segs();
            let ghost prev_effs = self.effects@;
            let seg = self.segments.remove(0);
            self.effects.push(Effect::DeleteSegment { id: seg.id });
            proof {
                assert(self.segments@ == prev.remove(0));
                assert(prev.remove(0) =~= prev.subrange(1, prev.len() as int));
                assert forall|x: int| 0 <= x < self.segs().len() implies self.segs()[x]
                    == pre_evict.skip(removed + 1)[x] by {
                    assert(self.segs()[x] == self.segments@[x]@);
                    assert(self.segments@[x] == prev[x + 1]);
                    assert(prev[x + 1]@ == prevsegs[x + 1]);
                    assert(prevsegs[x + 1] == pre_evict.skip(removed as int)[x + 1]);
                    assert(pre_evict.skip(removed as int)[x + 1] == pre_evict[removed + 1 + x]);
                    assert(pre_evict.skip(removed + 1)[x] == pre_evict[removed + 1 + x]);
                }
                assert(self.segs() =~= pre_evict.skip(removed + 1));
                assert(self.effects_ok()) by {
                    let did = seg.id;
                    assert(self.effects@.drop_last() =~= prev_effs);
                    assert(apply_effect_seq(self.synced@, prev_effs) == prevsegs);
                    assert(prevsegs[0].id == did);
                    assert(forall|i: int|
                        1 <= i < prevsegs.len() ==> (#[trigger] prevsegs[i]).id != did);
                    lemma_delete_first(prevsegs, did);
                    assert(apply_effect(prevsegs, Effect::DeleteSegment { id: did })
                        == prevsegs.skip(1));
                    assert(prevsegs.skip(1) =~= pre_evict.skip(removed + 1));
                }
            }
            removed = removed + 1;
        }
        proof {
            lemma_replay_segs_skip(Map::empty(), pre_evict, old_count as int, old_count as int);
            assert(self.segs() == pre_evict.skip(old_count as int));
            assert(replay(self.segs()) == Some(m_final)) by {
                assert(replay_segs(Map::empty(), pre_evict.skip(old_count as int), 0) == Some(
                    m_final,
                ));
            }
            assert(ids_increasing(self.segs())) by {
                assert(forall|i: int|
                    0 <= i < self.segs().len() ==> (#[trigger] self.segs()[i]) == pre_evict[
                        i + old_count
                    ]);
            }
            assert(self.segs().last() == pre_evict.last());
            assert(terminated(self.segs().last().data));
            lemma_total_len_skip(pre_evict, old_count as int, old_count as int);
            assert(forall|i: int|
                0 <= i < self.segs().len() ==> (#[trigger] self.segs()[i]).id > old_last);
            assert(self.segs().len() <= kn + 1);
            assert forall|bound: int|
                bound >= 0 && live_records_bounded(old(self).replayed@, old(self).segs(), bound)
                implies total_len_from(self.segs(), 0) <= kn * (bound + 1) by {
                assert(live_records_bounded(r_orig, ssnap, bound));
                assert(total_len_from(self.segs(), 0) == total_len_from(
                    pre_evict,
                    old_count as int,
                ));
            }
            assert forall|bound: int|
                bound >= 0 && live_records_bounded(old(self).replayed@, old(self).segs(), bound)
                implies (self.segs().len() - 1) * (COMPACTION_THRESHOLD as int - bound)
                <= total_len_from(self.segs(), 0) by {
                assert(live_records_bounded(r_orig, ssnap, bound));
                assert forall|j: int| 0 <= j < self.segs().len() - 1
                    implies COMPACTION_THRESHOLD as int - bound <= (#[trigger] self.segs()[
                j]).data.len() by {
                    assert(self.segs()[j] == pre_evict[j + old_count]);
                }
                lemma_total_len_lower(self.segs(), 0, COMPACTION_THRESHOLD as int - bound);
            }
        }
        Ok(())
    }

    /// Binds `key` to `value`: appends a `Set` record and points the key
    /// directory at it. An empty key is rejected with `KeyNotProvided`; once
    /// the record would push the active segment's size counter to the
    /// threshold, compaction runs first.
    pub fn set(&mut self, key: String, value: String) -> (r: CommandResult<()>)
        requires
            old(self).wf(),
        ensures
            final(self).wf(),
            key@.len() == 0 ==> r == Err::<(), KvSError>(KvSError::KeyNotProvided) && *final(self)
                == *old(self),
            key@.len() > 0 && old(self).headroom() ==> r is Ok,
            r is Ok ==> key@.len() > 0 && final(self)@ == old(self)@.insert(key@, value@),
            r == Err::<(), KvSError>(KvSError::KeyNotProvided) ==> key@.len() == 0 && *final(self)
                == *old(self),
            r matches Err(e) ==> e == KvSError::KeyNotProvided || e == KvSError::Io,
            r == Err::<(), KvSError>(KvSError::Io) ==> final(self)@ == old(self)@ && !old(
                self,
            ).headroom(),
            r is Ok ==> final(self).key_dir@.contains_key(key@) && final(self).key_dir@[key@].id
                == final(self).active_id() && final(self).key_dir@[key@].off + spec_encode(
                CommandModel::SetCmd { key: key@, value: value@ },
            ).len() + 1 == final(self).segs().last().data.len(),
            key@.len() > 0 && old(self).active_size + spec_encode(
                CommandModel::SetCmd { key: key@, value: value@ },
            ).len() < COMPACTION_THRESHOLD ==> r is Ok && final(self).segs() == old(
                self,
            ).segs().update(
                old(self).segs().len() - 1,
                SegmentModel {
                    id: old(self).active_id(),
                    data: old(self).segs().last().data + spec_encode(
                        CommandModel::SetCmd { key: key@, value: value@ },
                    ) + seq!['\n'],
                },
            ) && final(self).active_size == old(self).active_size + spec_encode(
                CommandModel::SetCmd { key: key@, value: value@ },
            ).len(),
            old(self).active_size + spec_encode(
                CommandModel::SetCmd { key: key@, value: value@ },
            ).len() >= COMPACTION_THRESHOLD && r is Ok ==> forall|i: int|
                0 <= i < final(self).segs().len() ==> (#[trigger] final(self).segs()[i]).id > old(
                    self,
                ).active_id(),
            final(self).key_dir.num_keys() <= old(self).key_dir.num_keys() + 1,
            id_over(final(self).active_id()) <= id_over(old(self).active_id()) + old(
                self,
            ).key_dir.num_keys() + 1,
    {
        if key.as_str().is_empty() {
            return Err(KvSError::KeyNotProvided);
        }
        let cmd = CommandLog::SetCmd { key: key.clone(), value };
        let ghost cmdm = cmd@;
        let line = encode_command(&cmd);
        proof {
            lemma_decode_encode(cmdm);
            crate::codec::lemma_encode_no_newline(cmdm);
        }
        let l = line.len();
        if l >= COMPACTION_THRESHOLD || self.active_size >= COMPACTION_THRESHOLD
            || self.active_size + l >= COMPACTION_THRESHOLD {
            match self.compact() {
                Ok(()) => {},
                Err(e) => {
                    return Err(e);
                },
            }
        }
        let ghost m_pre = self.replayed@;
        let pos = self.append_line(&line, Ghost(cmdm));
        self.key_dir.set(key, pos);
        proof {
            assert(self.replayed@ == m_pre.insert(key@, (pos@, value@)));
            assert(self.key_dir@ =~= positions_of(self.replayed@));
            assert(values_of(self.replayed@) =~= values_of(m_pre).insert(key@, value@));
        }
        Ok(())
    }

    /// Unbinds `key`: appends a `Remove` record and deletes the directory
    /// entry. An empty key is rejected with `KeyNotProvided`; a key not in
    /// the directory is rejected with `KeyNotFound`, and then nothing on
    /// disk changes.
    pub fn remove(&mut self, key: String) -> (r: CommandResult<()>)
        requires
            old(self).wf(),
        ensures
            final(self).wf(),
            key@.len() == 0 ==> r == Err::<(), KvSError>(KvSError::KeyNotProvided) && *final(self)
                == *old(self),
            key@.len() > 0 && !old(self)@.contains_key(key@) ==> r == Err::<(), KvSError>(
                KvSError::KeyNotFound,
            ) && *final(self) == *old(self),
            key@.len() > 0 && old(self)@.contains_key(key@) && old(self).headroom() ==> r is Ok,
            r is Ok ==> key@.len() > 0 && old(self)@.contains_key(key@) && final(self)@ == old(
                self,
            )@.remove(key@),
            r == Err::<(), KvSError>(KvSError::KeyNotProvided) ==> key@.len() == 0 && *final(self)
                == *old(self),
            r == Err::<(), KvSError>(KvSError::KeyNotFound) ==> key@.len() > 0 && !old(
                self,
            )@.contains_key(key@) && *final(self) == *old(self),
            key@.len() > 0 && old(self)@.contains_key(key@) && old(self).active_size
                + spec_encode(CommandModel::RemoveCmd { key: key@ }).len() < COMPACTION_THRESHOLD
                ==> r is Ok && final(self).segs() == old(self).segs().update(
                old(self).segs().len() - 1,
                SegmentModel {
                    id: old(self).active_id(),
                    data: old(self).segs().last().data + spec_encode(
                        CommandModel::RemoveCmd { key: key@ },
                    ) + seq!['\n'],
                },
            ) && final(self).active_size == old(self).active_size + spec_encode(
                CommandModel::RemoveCmd { key: key@ },
            ).len(),
            old(self).active_size + spec_encode(CommandModel::RemoveCmd { key: key@ }).len()
                >= COMPACTION_THRESHOLD && r is Ok ==> forall|i: int|
                0 <= i < final(self).segs().len() ==> (#[trigger] final(self).segs()[i]).id > old(
                    self,
                ).active_id(),
            r matches Err(e) ==> e == KvSError::KeyNotProvided || e == KvSError::KeyNotFound || e
                == KvSError::Io,
            r == Err::<(), KvSError>(KvSError::Io) ==> final(self)@ == old(self)@ && !old(
                self,
            ).headroom(),
    {
        if key.as_str().is_empty() {
            return Err(KvSError::KeyNotProvided);
        }
        if !self.key_dir.contains_key(&key) {
            proof {
                assert(!old(self)@.contains_key(key@));
            }
            return Err(KvSError::KeyNotFound);
        }
        let cmd = CommandLog::RemoveCmd { key: key.clone() };
        let ghost cmdm = cmd@;
        let line = encode_command(&cmd);
        proof {
            lemma_decode_encode(cmdm);
            crate::codec::lemma_encode_no_newline(cmdm);
        }
        let l = line.len();
        if l >= COMPACTION_THRESHOLD || self.active_size >= COMPACTION_THRESHOLD
            || self.active_size + l >= COMPACTION_THRESHOLD {
            match self.compact() {
                Ok(()) => {},
                Err(e) => {
                    return Err(e);
                },
            }
        }
        let ghost m_pre = self.replayed@;
        let pos = self.append_line(&line, Ghost(cmdm));
        self.key_dir.remove(&key);
        proof {
            assert(self.replayed@ == m_pre.remove(key@));
            assert(self.key_dir@ =~= positions_of(self.replayed@));
            assert(values_of(self.replayed@) =~= values_of(m_pre).remove(key@));
        }
        Ok(())
    }
}

/// After `set(key, value)` returns `Ok`, the store's state is the old state
/// with `key` bound to `value` — so a `get(key)` observes `Some(value)`:
/// `get` promises to return exactly the state's binding.
pub proof fn lemma_set_then_get(
    before: Map<Seq<char>, Seq<char>>,
    key: Seq<char>,
    value: Seq<char>,
)
    ensures
        before.insert(key, value).contains_key(key),
        before.insert(key, value)[key] == value,
{
}

/// After `remove(key)` returns `Ok`, the store's state is the old state
/// without `key` — so a `get(key)` observes `None`.
pub proof fn lemma_remove_then_get(before: Map<Seq<char>, Seq<char>>, key: Seq<char>)
    ensures
        !before.remove(key).contains_key(key),
{
}

/// Setting the same key and value twice leaves the same observable state as
/// setting it once, though both records stand in the log until compaction.
pub proof fn lemma_set_twice_idempotent(
    before: Map<Seq<char>, Seq<char>>,
    key: Seq<char>,
    value: Seq<char>,
)
    ensures
        before.insert(key, value).insert(key, value) == before.insert(key, value),
{
    assert(before.insert(key, value).insert(key, value) =~= before.insert(key, value));
}

/// Close and re-open change nothing observable: a well-formed store's
/// segments replay to its own directory, so whatever store `open` builds on
/// those segments — `open` promises its directory is that replay — observes
/// the same state on every key.
pub proof fn lemma_reopen_same_state(s: KvStore, reopened: KvStore)
    requires
        s.wf(),
        replay(s.segs()) == Some(reopened.replayed@),
    ensures
        reopened@ == s@,
{
}

/// Every key the directory holds maps to a log position that decodes to a
/// `Set` record whose key field equals the directory key and whose value is
/// the one `get` observes.
pub proof fn lemma_directory_points_at_live_records(s: KvStore)
    requires
        s.wf(),
    ensures
        crate::segment::entries_ok(s.segs(), s.replayed@),
        forall|k: Seq<char>|
            #[trigger] s.key_dir@.contains_key(k) ==> s.replayed@.contains_key(k)
                && s.key_dir@[k] == s.replayed@[k].0,
{
    lemma_replay_entries_ok(s.segs(), s.replayed@);
}

} // verus!
