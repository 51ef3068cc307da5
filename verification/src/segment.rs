//! Segments and the replay semantics of the command log.
//!
//! A segment is one append-only log file held as text: records in append
//! order, each terminated by a newline. A log position names the segment and
//! the offset of the first character of a record. Replay is the mathematical
//! meaning of a directory full of segments: walking every segment in order
//! and every complete line in offset order, a `Set` binds its key to the
//! record's position and value, a `Remove` unbinds it; an unterminated final
//! line is tolerated as end of file, and a line that does not decode makes
//! the whole replay corrupt.

use vstd::prelude::*;

use crate::codec::spec_decode;
use crate::codec::CommandModel;

verus! {

/// One log segment: its numeric identifier and its full contents.
pub struct Segment {
    pub id: u64,
    pub data: Vec<char>,
}

/// The mathematical model of a segment.
pub struct SegmentModel {
    pub id: u64,
    pub data: Seq<char>,
}

impl View for Segment {
    type V = SegmentModel;

    open spec fn view(&self) -> SegmentModel {
        SegmentModel { id: self.id, data: self.data@ }
    }
}

/// Where a record starts: the segment's identifier and the character offset
/// of the record's first character.
#[derive(Clone, Copy)]
pub struct LogPosition {
    pub segment_id: u64,
    pub offset: usize,
}

/// The mathematical model of a log position.
pub struct PosModel {
    pub id: u64,
    pub off: int,
}

impl View for LogPosition {
    type V = PosModel;

    open spec fn view(&self) -> PosModel {
        PosModel { id: self.segment_id, off: self.offset as int }
    }
}

/// What replay accumulates for each live key: the position of its latest
/// `Set` record and the value that record carries.
pub type ReplayMap = Map<Seq<char>, (PosModel, Seq<char>)>;

/// A segment every record of which is newline-terminated.
pub open spec fn terminated(data: Seq<char>) -> bool {
    data.len() == 0 || data[data.len() - 1] == '\n'
}

/// The index of the first newline at or after `off`, or the length when
/// there is none.
pub open spec fn line_end(data: Seq<char>, off: int) -> int
    decreases data.len() - off,
{
    if off < 0 || off >= data.len() {
        data.len() as int
    } else if data[off] == '\n' {
        off
    } else {
        line_end(data, off + 1)
    }
}

pub proof fn lemma_line_end_props(data: Seq<char>, off: int)
    requires
        0 <= off <= data.len(),
    ensures
        off <= line_end(data, off) <= data.len(),
        line_end(data, off) < data.len() ==> data[line_end(data, off)] == '\n',
        forall|j: int| off <= j < line_end(data, off) ==> data[j] != '\n',
    decreases data.len() - off,
{
    if off < data.len() && data[off] != '\n' {
        lemma_line_end_props(data, off + 1);
    }
}

pub proof fn lemma_line_end_reaches(data: Seq<char>, off: int, t: int)
    requires
        0 <= off <= t <= data.len(),
        forall|j: int| off <= j < t ==> data[j] != '\n',
        t == data.len() || data[t] == '\n',
    ensures
        line_end(data, off) == t,
    decreases t - off,
{
    if off < t {
        lemma_line_end_reaches(data, off + 1, t);
    }
}

/// In a terminated segment every record that starts inside the data ends at
/// a real newline.
pub proof fn lemma_line_end_terminated(data: Seq<char>, off: int)
    requires
        terminated(data),
        0 <= off < data.len(),
    ensures
        line_end(data, off) < data.len(),
{
    lemma_line_end_props(data, off);
    if line_end(data, off) == data.len() {
        assert(data[data.len() - 1] == '\n');
    }
}

/// Appending leaves every finished line where it was.
pub proof fn lemma_line_end_append(data: Seq<char>, tail: Seq<char>, off: int)
    requires
        0 <= off <= data.len(),
        line_end(data, off) < data.len(),
    ensures
        line_end(data + tail, off) == line_end(data, off),
    decreases data.len() - off,
{
    assert((data + tail)[off] == data[off]);
    if data[off] != '\n' {
        lemma_line_end_props(data, off);
        lemma_line_end_append(data, tail, off + 1);
    }
}

/// One replay step: what a decoded record at a given position does to the
/// accumulated key directory.
pub open spec fn apply_record(m: ReplayMap, rec: CommandModel, pos: PosModel) -> ReplayMap {
    match rec {
        CommandModel::SetCmd { key, value } => m.insert(key, (pos, value)),
        CommandModel::RemoveCmd { key } => m.remove(key),
    }
}

/// Replays one segment's records from `off` on. An unterminated final line
/// is tolerated as end of file; a complete line that does not decode makes
/// the replay corrupt.
pub open spec fn replay_data(m: ReplayMap, id: u64, data: Seq<char>, off: int) -> Option<ReplayMap>
    decreases data.len() - off,
    via replay_data_decreases
{
    if off < 0 || off >= data.len() {
        Some(m)
    } else {
        let e = line_end(data, off);
        if e >= data.len() {
            Some(m)
        } else {
            match spec_decode(data.subrange(off, e)) {
                Some(rec) => replay_data(
                    apply_record(m, rec, PosModel { id, off }),
                    id,
                    data,
                    e + 1,
                ),
                None => None,
            }
        }
    }
}

#[via_fn]
proof fn replay_data_decreases(m: ReplayMap, id: u64, data: Seq<char>, off: int) {
    if 0 <= off < data.len() {
        lemma_line_end_props(data, off);
    }
}

/// Replays the segments from index `i` on, in order.
pub open spec fn replay_segs(m: ReplayMap, segs: Seq<SegmentModel>, i: int) -> Option<ReplayMap>
    decreases segs.len() - i,
{
    if i < 0 || i >= segs.len() {
        Some(m)
    } else {
        match replay_data(m, segs[i].id, segs[i].data, 0) {
            Some(m2) => replay_segs(m2, segs, i + 1),
            None => None,
        }
    }
}

/// The meaning of a whole directory of segments.
pub open spec fn replay(segs: Seq<SegmentModel>) -> Option<ReplayMap> {
    replay_segs(Map::empty(), segs, 0)
}

/// Segment identifiers strictly increase along the list, so names are unique
/// and list order is replay order.
pub open spec fn ids_increasing(segs: Seq<SegmentModel>) -> bool {
    forall|i: int, j: int|
        0 <= i < j < segs.len() ==> #[trigger] segs[i].id < #[trigger] segs[j].id
}

pub proof fn lemma_ids_unique(segs: Seq<SegmentModel>, i: int, j: int)
    requires
        ids_increasing(segs),
        0 <= i < segs.len(),
        0 <= j < segs.len(),
        segs[i].id == segs[j].id,
    ensures
        i == j,
{
}

/// What the key directory promises of one entry: the position names an
/// existing segment and points at a complete line that decodes to a `Set`
/// record carrying exactly this key and value.
pub open spec fn seg_entry_ok(d: Seq<char>, k: Seq<char>, off: int, val: Seq<char>) -> bool {
    &&& 0 <= off < d.len()
    &&& off == 0 || d[off - 1] == '\n'
    &&& line_end(d, off) < d.len()
    &&& spec_decode(d.subrange(off, line_end(d, off))) == Some(
        CommandModel::SetCmd { key: k, value: val },
    )
}

pub open spec fn entry_ok(
    segs: Seq<SegmentModel>,
    k: Seq<char>,
    pos: PosModel,
    val: Seq<char>,
) -> bool {
    exists|si: int|
        0 <= si < segs.len() && (#[trigger] segs[si]).id == pos.id && seg_entry_ok(
            segs[si].data,
            k,
            pos.off,
            val,
        )
}

pub open spec fn entries_ok(segs: Seq<SegmentModel>, m: ReplayMap) -> bool {
    forall|k: Seq<char>|
        #[trigger] m.contains_key(k) ==> entry_ok(segs, k, m[k].0, m[k].1)
}

proof fn lemma_replay_data_entries_ok(
    m: ReplayMap,
    segs: Seq<SegmentModel>,
    si: int,
    off: int,
    m2: ReplayMap,
)
    requires
        0 <= si < segs.len(),
        0 <= off <= segs[si].data.len(),
        off == 0 || segs[si].data[off - 1] == '\n',
        replay_data(m, segs[si].id, segs[si].data, off) == Some(m2),
        entries_ok(segs, m),
    ensures
        entries_ok(segs, m2),
    decreases segs[si].data.len() - off,
{
    let d = segs[si].data;
    if off < d.len() {
        let e = line_end(d, off);
        lemma_line_end_props(d, off);
        if e < d.len() {
            match spec_decode(d.subrange(off, e)) {
                Some(rec) => {
                    let m1 = apply_record(m, rec, PosModel { id: segs[si].id, off });
                    assert(entries_ok(segs, m1)) by {
                        match rec {
                            CommandModel::SetCmd { key, value } => {
                                assert(seg_entry_ok(d, key, off, value));
                                assert(entry_ok(segs, key, PosModel { id: segs[si].id, off }, value));
                            },
                            CommandModel::RemoveCmd { .. } => {},
                        }
                    }
                    lemma_replay_data_entries_ok(m1, segs, si, e + 1, m2);
                },
                None => {},
            }
        }
    }
}

proof fn lemma_replay_segs_entries_ok(m: ReplayMap, segs: Seq<SegmentModel>, i: int, m2: ReplayMap)
    requires
        0 <= i <= segs.len(),
        replay_segs(m, segs, i) == Some(m2),
        entries_ok(segs, m),
    ensures
        entries_ok(segs, m2),
    decreases segs.len() - i,
{
    if i < segs.len() {
        match replay_data(m, segs[i].id, segs[i].data, 0) {
            Some(mm) => {
                lemma_replay_data_entries_ok(m, segs, i, 0, mm);
                lemma_replay_segs_entries_ok(mm, segs, i + 1, m2);
            },
            None => {},
        }
    }
}

/// Every entry of a replayed directory points at a live `Set` record that
/// carries its key and value.
pub proof fn lemma_replay_entries_ok(segs: Seq<SegmentModel>, m: ReplayMap)
    requires
        replay(segs) == Some(m),
    ensures
        entries_ok(segs, m),
{
    lemma_replay_segs_entries_ok(Map::empty(), segs, 0, m);
}

/// Appending one encoded record and its newline to a terminated segment
/// extends its replay by exactly that record, bound at the old end of data.
pub proof fn lemma_replay_data_append(
    m: ReplayMap,
    id: u64,
    data: Seq<char>,
    off: int,
    line: Seq<char>,
    rec: CommandModel,
)
    requires
        terminated(data),
        0 <= off <= data.len(),
        spec_decode(line) == Some(rec),
        forall|i: int| 0 <= i < line.len() ==> line[i] != '\n',
    ensures
        replay_data(m, id, data + line + seq!['\n'], off) == (match replay_data(m, id, data, off) {
            Some(mm) => Some(apply_record(mm, rec, PosModel { id, off: data.len() as int })),
            None => None,
        }),
    decreases data.len() - off,
{
    let d2 = data + line + seq!['\n'];
    assert(d2.len() == data.len() + line.len() + 1);
    if off >= data.len() {
        assert(replay_data(m, id, data, off) == Some(m));
        assert(forall|j: int| off <= j < data.len() + line.len() ==> d2[j] != '\n');
        assert(d2[data.len() as int + line.len() as int] == '\n');
        lemma_line_end_reaches(d2, off, data.len() as int + line.len() as int);
        let e = line_end(d2, off);
        assert(e == data.len() as int + line.len() as int);
        assert(d2.subrange(off, e) =~= line);
        assert(replay_data(apply_record(m, rec, PosModel { id, off }), id, d2, e + 1) == Some(
            apply_record(m, rec, PosModel { id, off }),
        ));
    } else {
        let e = line_end(data, off);
        lemma_line_end_props(data, off);
        lemma_line_end_terminated(data, off);
        lemma_line_end_append(data, line + seq!['\n'], off);
        assert(data + (line + seq!['\n']) =~= d2);
        assert(line_end(d2, off) == e);
        assert(d2.subrange(off, e) =~= data.subrange(off, e));
        match spec_decode(data.subrange(off, e)) {
            Some(r0) => {
                lemma_replay_data_append(
                    apply_record(m, r0, PosModel { id, off }),
                    id,
                    data,
                    e + 1,
                    line,
                    rec,
                );
            },
            None => {},
        }
    }
}

/// The list-level form of the append lemma: appending a record to the last
/// segment extends the replay of the whole list by that record.
pub proof fn lemma_replay_segs_append(
    m: ReplayMap,
    segs: Seq<SegmentModel>,
    i: int,
    line: Seq<char>,
    rec: CommandModel,
)
    requires
        0 <= i < segs.len(),
        terminated(segs.last().data),
        spec_decode(line) == Some(rec),
        forall|j: int| 0 <= j < line.len() ==> line[j] != '\n',
    ensures
        ({
            let lastidx = segs.len() - 1;
            let s2 = segs.update(
                lastidx,
                SegmentModel { id: segs.last().id, data: segs.last().data + line + seq!['\n'] },
            );
            replay_segs(m, s2, i) == (match replay_segs(m, segs, i) {
                Some(mm) => Some(
                    apply_record(
                        mm,
                        rec,
                        PosModel { id: segs.last().id, off: segs.last().data.len() as int },
                    ),
                ),
                None => None,
            })
        }),
    decreases segs.len() - i,
{
    let lastidx = segs.len() - 1;
    let s2 = segs.update(
        lastidx,
        SegmentModel { id: segs.last().id, data: segs.last().data + line + seq!['\n'] },
    );
    if i == lastidx {
        assert(segs[i] == segs.last());
        lemma_replay_data_append(m, segs[i].id, segs[i].data, 0, line, rec);
        assert(s2[i].id == segs[i].id);
        assert(s2[i].data == segs[i].data + line + seq!['\n']);
        match replay_data(m, segs[i].id, segs[i].data, 0) {
            Some(mm) => {
                let applied = apply_record(
                    mm,
                    rec,
                    PosModel { id: segs.last().id, off: segs.last().data.len() as int },
                );
                assert(replay_data(m, s2[i].id, s2[i].data, 0) == Some(applied));
                assert(replay_segs(applied, s2, i + 1) == Some(applied));
                assert(replay_segs(mm, segs, i + 1) == Some(mm));
            },
            None => {
                assert(replay_data(m, s2[i].id, s2[i].data, 0) is None);
            },
        }
    } else {
        assert(s2[i] == segs[i]);
        match replay_data(m, segs[i].id, segs[i].data, 0) {
            Some(m2) => {
                lemma_replay_segs_append(m2, segs, i + 1, line, rec);
            },
            None => {},
        }
    }
}

/// Opening a fresh, empty segment changes no replay.
pub proof fn lemma_replay_segs_push(m: ReplayMap, segs: Seq<SegmentModel>, i: int, nid: u64)
    requires
        0 <= i <= segs.len(),
    ensures
        replay_segs(m, segs.push(SegmentModel { id: nid, data: Seq::empty() }), i) == replay_segs(
            m,
            segs,
            i,
        ),
    decreases segs.len() - i,
{
    let s2 = segs.push(SegmentModel { id: nid, data: Seq::empty() });
    if i == segs.len() {
        assert(s2[i] == SegmentModel { id: nid, data: Seq::empty() });
        assert(replay_data(m, nid, Seq::empty(), 0) == Some(m));
        assert(replay_segs(m, s2, i + 1) == Some(m));
    } else {
        assert(s2[i] == segs[i]);
        match replay_data(m, segs[i].id, segs[i].data, 0) {
            Some(m2) => {
                lemma_replay_segs_push(m2, segs, i + 1, nid);
            },
            None => {},
        }
    }
}

/// Replay from index `i` only reads the segments from `c` on, so dropping an
/// already-processed prefix changes nothing.
pub proof fn lemma_replay_segs_skip(m: ReplayMap, segs: Seq<SegmentModel>, c: int, i: int)
    requires
        0 <= c <= i <= segs.len(),
    ensures
        replay_segs(m, segs, i) == replay_segs(m, segs.skip(c), i - c),
    decreases segs.len() - i,
{
    if i < segs.len() {
        assert(segs.skip(c)[i - c] == segs[i]);
        match replay_data(m, segs[i].id, segs[i].data, 0) {
            Some(m2) => {
                lemma_replay_segs_skip(m2, segs, c, i + 1);
            },
            None => {},
        }
    } else {
        assert(segs.skip(c).len() == segs.len() - c);
    }
}

/// While a replay succeeds, every complete line that starts on a record
/// boundary decodes; recovery and compaction rely on this to never meet a
/// corrupt line in data they have already replayed.
pub proof fn lemma_replay_data_decodes(m: ReplayMap, id: u64, data: Seq<char>, off: int, t: int)
    requires
        replay_data(m, id, data, off) is Some,
        0 <= off <= t < data.len(),
        t == 0 || data[t - 1] == '\n',
        line_end(data, t) < data.len(),
    ensures
        spec_decode(data.subrange(t, line_end(data, t))) is Some,
    decreases t - off,
{
    let e = line_end(data, off);
    lemma_line_end_props(data, off);
    if off == t {
    } else {
        assert(t >= 1 && data[t - 1] == '\n');
        if e >= data.len() {
            assert(data[t - 1] != '\n');
            assert(false);
        }
        assert(t - 1 >= e);
        match spec_decode(data.subrange(off, e)) {
            Some(rec) => {
                lemma_replay_data_decodes(
                    apply_record(m, rec, PosModel { id, off }),
                    id,
                    data,
                    e + 1,
                    t,
                );
            },
            None => {
                assert(false);
            },
        }
    }
}

/// From a successful replay of segments `i..`, some accumulated directory
/// makes segment `j`'s own replay succeed.
pub proof fn lemma_replay_segs_seg_some(m: ReplayMap, segs: Seq<SegmentModel>, i: int, j: int)
    requires
        0 <= i <= j < segs.len(),
        replay_segs(m, segs, i) is Some,
    ensures
        exists|mj: ReplayMap| #[trigger] replay_data(mj, segs[j].id, segs[j].data, 0) is Some,
    decreases j - i,
{
    match replay_data(m, segs[i].id, segs[i].data, 0) {
        Some(m2) => {
            if i == j {
                assert(replay_data(m, segs[j].id, segs[j].data, 0) is Some);
            } else {
                lemma_replay_segs_seg_some(m2, segs, i + 1, j);
            }
        },
        None => {
            assert(false);
        },
    }
}

/// Reads the record that starts at `off`: the characters up to the next
/// newline or the end of data, and where that end lies.
pub fn read_line_at(data: &Vec<char>, off: usize) -> (r: (Vec<char>, usize))
    requires
        off <= data@.len(),
    ensures
        r.1 == line_end(data@, off as int),
        r.0@ == data@.subrange(off as int, r.1 as int),
        off <= r.1 <= data@.len(),
{
    let mut j = off;
    let mut out: Vec<char> = Vec::new();
    assert(out@ =~= data@.subrange(off as int, off as int));
    loop
        invariant
            off <= j <= data@.len(),
            forall|k: int| off <= k < j ==> data@[k] != '\n',
            out@ == data@.subrange(off as int, j as int),
        decreases data@.len() - j,
    {
        if j >= data.len() {
            proof {
                lemma_line_end_reaches(data@, off as int, j as int);
            }
            return (out, j);
        }
        let c = data[j];
        if c == '\n' {
            proof {
                lemma_line_end_reaches(data@, off as int, j as int);
            }
            return (out, j);
        }
        out.push(c);
        proof {
            assert(out@ =~= data@.subrange(off as int, j + 1));
        }
        j = j + 1;
    }
}

} // verus!
