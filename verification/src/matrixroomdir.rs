//! A room: a directory of segment files keyed by start timestamp.
//!
//! Writes are routed by a floor lookup — an event goes to the segment whose
//! start is the greatest at or below the event's timestamp, and a new segment
//! starting at the timestamp is created when none qualifies. Reading
//! concatenates the segments' line sequences in ascending start order.

use vstd::prelude::*;
use vstd::slice::slice_to_vec;
use vstd::string::StrSliceExecFns;
use vstd::utf8::{decode_utf8, encode_utf8, valid_utf8};

use crate::codec::{
    emitted_of, lemma_split_append, lines_of, tail_of, utf8_prefix, FollowStep,
};
use crate::errors::StoreError;
use crate::matrixfile::{FileMessageIterator, FileView, MatrixFile};
use crate::names::{dec_val, is_dec, start_of_name, stem_of, u128_to_dec, DOT};
use crate::read_write::{Read, ReaderWriter, Write};

verus! {

/// One directory entry of a room as found on disk: the segment file's name
/// and its current bytes.
pub struct FileScan {
    pub name: String,
    pub content: Vec<u8>,
}

/// What a scanned entry is, mathematically.
pub struct ScanView {
    pub name: Seq<char>,
    pub content: Seq<u8>,
}

impl View for FileScan {
    type V = ScanView;

    open spec fn view(&self) -> ScanView {
        ScanView { name: self.name@, content: self.content@ }
    }
}

/// The views of a sequence of scanned entries.
pub open spec fn scans_view(s: Seq<FileScan>) -> Seq<ScanView> {
    s.map_values(|sc: FileScan| sc@)
}

/// The extension a created segment file carries after its decimal stem.
pub open spec fn seg_ext() -> Seq<u8> {
    seq![DOT, 106u8, 115u8, 111u8, 110u8, 108u8]
}

/// A room's segments in ascending start order, starts unique.
pub open spec fn files_sorted(files: Seq<FileView>) -> bool {
    forall|i: int, j: int| 0 <= i < j < files.len() ==> files[i].start < files[j].start
}

/// Inserting a segment into the ordered map: it takes its place in start
/// order, and a start already known keeps its existing handle.
pub open spec fn spec_insert(files: Seq<FileView>, f: FileView) -> Seq<FileView>
    decreases files.len(),
{
    if files.len() == 0 {
        seq![f]
    } else if f.start < files[0].start {
        seq![f] + files
    } else if f.start == files[0].start {
        files
    } else {
        seq![files[0]] + spec_insert(files.drop_first(), f)
    }
}

/// Where the insertion lands, told from the neighbourhood of the position.
pub proof fn lemma_spec_insert_at(files: Seq<FileView>, f: FileView, i: int)
    requires
        0 <= i <= files.len(),
        forall|j: int| 0 <= j < i ==> files[j].start < f.start,
        i < files.len() ==> files[i].start >= f.start,
    ensures
        spec_insert(files, f) == if i < files.len() && files[i].start == f.start {
            files
        } else {
            files.insert(i, f)
        },
    decreases i,
{
    if files.len() == 0 {
        assert(files.insert(0, f) =~= seq![f]);
    } else if i == 0 {
        if files[0].start != f.start {
            assert(files.insert(0, f) =~= seq![f] + files);
        }
    } else {
        lemma_spec_insert_at(files.drop_first(), f, i - 1);
        if i - 1 < files.drop_first().len() && files.drop_first()[i - 1].start == f.start {
            assert(seq![files[0]] + files.drop_first() =~= files);
        } else {
            assert(seq![files[0]] + files.drop_first().insert(i - 1, f) =~= files.insert(i, f));
        }
    }
}

/// Folding one scanned entry into the map: the file name's stem is the
/// segment's start timestamp; a stem that is no timestamp is fatal.
pub open spec fn spec_add(files: Seq<FileView>, sc: ScanView) -> Option<Seq<FileView>> {
    match start_of_name(encode_utf8(sc.name)) {
        Some(v) => Some(
            spec_insert(
                files,
                FileView { name: encode_utf8(sc.name), start: v as u128, content: sc.content },
            ),
        ),
        None => None,
    }
}

/// Folding a whole directory scan into the map, entry by entry.
pub open spec fn spec_load(files: Seq<FileView>, scans: Seq<ScanView>) -> Option<Seq<FileView>>
    decreases scans.len(),
{
    if scans.len() == 0 {
        Some(files)
    } else {
        match spec_add(files, scans[0]) {
            Some(fs) => spec_load(fs, scans.drop_first()),
            None => None,
        }
    }
}

/// A segment stripped to what routing and replay see: start and content.
pub open spec fn file_data(f: FileView) -> (u128, Seq<u8>) {
    (f.start, f.content)
}

/// The room's segments, stripped to starts and contents.
pub open spec fn room_data(files: Seq<FileView>) -> Seq<(u128, Seq<u8>)> {
    files.map_values(|f: FileView| file_data(f))
}

/// Index of the segment whose start is the greatest at or below the
/// timestamp, or -1 when none is. On an ascending sequence this is the floor
/// lookup of the write path.
pub open spec fn floor_idx(d: Seq<(u128, Seq<u8>)>, ts: u128) -> int
    decreases d.len(),
{
    if d.len() == 0 {
        -1
    } else if d.last().0 <= ts {
        d.len() - 1
    } else {
        floor_idx(d.drop_last(), ts)
    }
}

/// The floor, told from the neighbourhood of the position.
pub proof fn lemma_floor_at(d: Seq<(u128, Seq<u8>)>, ts: u128, i: int)
    requires
        -1 <= i < d.len(),
        i >= 0 ==> d[i].0 <= ts,
        forall|j: int| i < j < d.len() ==> d[j].0 > ts,
    ensures
        floor_idx(d, ts) == i,
    decreases d.len(),
{
    if d.len() == 0 {
    } else if i == d.len() - 1 {
    } else {
        lemma_floor_at(d.drop_last(), ts, i);
    }
}

/// One write, routed: appended to the floor segment, or opening a new first
/// segment at the event's own timestamp when every segment starts later.
pub open spec fn spec_write_data(d: Seq<(u128, Seq<u8>)>, payload: Seq<u8>, ts: u128) -> Seq<
    (u128, Seq<u8>),
> {
    let i = floor_idx(d, ts);
    if i >= 0 {
        d.update(i, (d[i].0, d[i].1 + payload))
    } else {
        seq![(ts, payload)] + d
    }
}

/// The complete records a room's segments hold, in ascending segment order,
/// ignoring decoding.
pub open spec fn room_lines(d: Seq<(u128, Seq<u8>)>) -> Seq<Seq<u8>>
    decreases d.len(),
{
    if d.len() == 0 {
        seq![]
    } else {
        lines_of(d[0].1) + room_lines(d.drop_first())
    }
}

/// The records a room replay delivers: each segment's emitted lines — its
/// records cut at the first undecodable one — in ascending segment order.
pub open spec fn room_emitted(d: Seq<(u128, Seq<u8>)>) -> Seq<Seq<u8>>
    decreases d.len(),
{
    if d.len() == 0 {
        seq![]
    } else {
        emitted_of(d[0].1) + room_emitted(d.drop_first())
    }
}

/// Replay distributes over splitting the segment sequence.
pub proof fn lemma_room_emitted_concat(x: Seq<(u128, Seq<u8>)>, y: Seq<(u128, Seq<u8>)>)
    ensures
        room_emitted(x + y) == room_emitted(x) + room_emitted(y),
    decreases x.len(),
{
    if x.len() == 0 {
        assert(x + y =~= y);
        assert(room_emitted(x) + room_emitted(y) =~= room_emitted(y));
    } else {
        assert((x + y)[0] == x[0]);
        assert((x + y).drop_first() =~= x.drop_first() + y);
        lemma_room_emitted_concat(x.drop_first(), y);
        assert(emitted_of(x[0].1) + (room_emitted(x.drop_first()) + room_emitted(y)) =~= (emitted_of(
            x[0].1,
        ) + room_emitted(x.drop_first())) + room_emitted(y));
    }
}

/// Every index past the floor starts later than the timestamp.
pub proof fn lemma_floor_props(d: Seq<(u128, Seq<u8>)>, ts: u128)
    ensures
        -1 <= floor_idx(d, ts) < d.len(),
        floor_idx(d, ts) >= 0 ==> d[floor_idx(d, ts)].0 <= ts,
        forall|j: int| floor_idx(d, ts) < j < d.len() ==> d[j].0 > ts,
    decreases d.len(),
{
    if d.len() == 0 {
    } else if d.last().0 <= ts {
    } else {
        lemma_floor_props(d.drop_last(), ts);
        assert forall|j: int| floor_idx(d, ts) < j < d.len() implies d[j].0 > ts by {
            if j < d.len() - 1 {
                assert(d[j] == d.drop_last()[j]);
            } else {
                assert(d[j] == d.last());
            }
        }
    }
}

/// A sequence of timestamped writes, applied in order.
pub open spec fn apply_writes(d: Seq<(u128, Seq<u8>)>, ws: Seq<(Seq<u8>, u128)>) -> Seq<
    (u128, Seq<u8>),
>
    decreases ws.len(),
{
    if ws.len() == 0 {
        d
    } else {
        apply_writes(spec_write_data(d, ws[0].0, ws[0].1), ws.drop_first())
    }
}

/// The records the writes carry, in write order.
pub open spec fn writes_lines(ws: Seq<(Seq<u8>, u128)>) -> Seq<Seq<u8>>
    decreases ws.len(),
{
    if ws.len() == 0 {
        seq![]
    } else {
        lines_of(ws[0].0) + writes_lines(ws.drop_first())
    }
}

/// All payloads of the writes, concatenated in order.
pub open spec fn concat_payloads(ws: Seq<(Seq<u8>, u128)>) -> Seq<u8>
    decreases ws.len(),
{
    if ws.len() == 0 {
        seq![]
    } else {
        ws[0].0 + concat_payloads(ws.drop_first())
    }
}

/// Whether the writes carry non-decreasing timestamps.
pub open spec fn nondecreasing(ws: Seq<(Seq<u8>, u128)>) -> bool {
    forall|i: int, j: int| 0 <= i < j < ws.len() ==> ws[i].1 <= ws[j].1
}

/// Whether every payload is wholly delimiter-terminated.
pub open spec fn all_terminated(ws: Seq<(Seq<u8>, u128)>) -> bool {
    forall|i: int| 0 <= i < ws.len() ==> tail_of((#[trigger] ws[i]).0) == Seq::<u8>::empty()
}

/// Writes at or after a lone segment's start all land in it, appending in
/// order.
proof fn lemma_apply_single(t0: u128, c0: Seq<u8>, ws: Seq<(Seq<u8>, u128)>)
    requires
        forall|i: int| 0 <= i < ws.len() ==> (#[trigger] ws[i]).1 >= t0,
    ensures
        apply_writes(seq![(t0, c0)], ws) == seq![(t0, c0 + concat_payloads(ws))],
    decreases ws.len(),
{
    if ws.len() == 0 {
        assert(c0 + concat_payloads(ws) =~= c0);
    } else {
        let d = seq![(t0, c0)];
        let p = ws[0].0;
        let ts = ws[0].1;
        assert(d.last().0 == t0);
        assert(floor_idx(d, ts) == 0);
        assert(spec_write_data(d, p, ts) =~= seq![(t0, c0 + p)]);
        lemma_apply_single(t0, c0 + p, ws.drop_first());
        assert((c0 + p) + concat_payloads(ws.drop_first()) =~= c0 + concat_payloads(ws));
    }
}

/// The records of concatenated terminated payloads are the records of each,
/// in order.
proof fn lemma_lines_concat_terminated(ws: Seq<(Seq<u8>, u128)>)
    requires
        all_terminated(ws),
    ensures
        lines_of(concat_payloads(ws)) == writes_lines(ws),
        tail_of(concat_payloads(ws)) == Seq::<u8>::empty(),
    decreases ws.len(),
{
    if ws.len() == 0 {
        assert(lines_of(concat_payloads(ws)) =~= writes_lines(ws));
    } else {
        lemma_split_append(ws[0].0, concat_payloads(ws.drop_first()), Seq::empty());
        lemma_lines_concat_terminated(ws.drop_first());
        assert(tail_of(ws[0].0) =~= Seq::<u8>::empty());
    }
}

/// Replay in write order: writes with non-decreasing timestamps to a fresh
/// room, each payload delimiter-terminated, replay as exactly the written
/// records, first write first.
pub proof fn lemma_replay_in_write_order(ws: Seq<(Seq<u8>, u128)>)
    requires
        nondecreasing(ws),
        all_terminated(ws),
    ensures
        room_lines(apply_writes(Seq::empty(), ws)) == writes_lines(ws),
    decreases ws.len(),
{
    if ws.len() == 0 {
        assert(room_lines(apply_writes(Seq::empty(), ws)) =~= writes_lines(ws));
    } else {
        let p0 = ws[0].0;
        let t0 = ws[0].1;
        assert(floor_idx(Seq::empty(), t0) == -1);
        assert(spec_write_data(Seq::empty(), p0, t0) =~= seq![(t0, p0)]);
        assert(forall|i: int|
            0 <= i < ws.drop_first().len() ==> (#[trigger] ws.drop_first()[i]).1 >= t0);
        lemma_apply_single(t0, p0, ws.drop_first());
        let whole = p0 + concat_payloads(ws.drop_first());
        assert(apply_writes(Seq::empty(), ws) == seq![(t0, whole)]);
        lemma_lines_concat_terminated(ws.drop_first());
        lemma_split_append(p0, concat_payloads(ws.drop_first()), Seq::empty());
        assert(tail_of(p0) =~= Seq::<u8>::empty());
        assert(lines_of(whole) == lines_of(p0) + writes_lines(ws.drop_first()));
        assert(seq![(t0, whole)].drop_first() =~= Seq::<(u128, Seq<u8>)>::empty());
        assert(room_lines(seq![(t0, whole)]) == lines_of(whole) + room_lines(
            Seq::<(u128, Seq<u8>)>::empty(),
        ));
        assert(lines_of(whole) + Seq::<Seq<u8>>::empty() =~= lines_of(whole));
    }
}

/// Segment selection is idempotent: when a segment already starts at or
/// before T1, writes at T1 and then at T2 — T1 at or before T2, no segment
/// starting inside (T1, T2] — land in that same segment, in order, and
/// neither write creates a segment.
pub proof fn lemma_selection_idempotent(
    d: Seq<(u128, Seq<u8>)>,
    p1: Seq<u8>,
    p2: Seq<u8>,
    t1: u128,
    t2: u128,
)
    requires
        floor_idx(d, t1) >= 0,
        t1 <= t2,
        forall|j: int| 0 <= j < d.len() ==> !(t1 < (#[trigger] d[j]).0 <= t2),
    ensures
        ({
            let i = floor_idx(d, t1);
            let d1 = spec_write_data(d, p1, t1);
            &&& floor_idx(d1, t2) == i
            &&& spec_write_data(d1, p2, t2) == d.update(i, (d[i].0, d[i].1 + p1 + p2))
        }),
{
    let i = floor_idx(d, t1);
    lemma_floor_props(d, t1);
    let d1 = spec_write_data(d, p1, t1);
    assert(d1 == d.update(i, (d[i].0, d[i].1 + p1)));
    assert forall|j: int| i < j < d1.len() implies d1[j].0 > t2 by {
        assert(d1[j].0 == d[j].0);
        assert(d[j].0 > t1);
    }
    lemma_floor_at(d1, t2, i);
    assert(spec_write_data(d1, p2, t2) =~= d.update(i, (d[i].0, d[i].1 + p1 + p2)));
}

/// A room: its name and its segments in ascending start order.
pub struct MatrixRoomDir<RW> {
    /// The room's name: its directory name under the store root.
    pub name: String,
    /// The room's segments, ascending by start, starts unique.
    pub files: Vec<MatrixFile<RW>>,
}

/// What a room is, mathematically.
pub struct RoomView {
    pub name: Seq<char>,
    pub files: Seq<FileView>,
}

impl<RW> View for MatrixRoomDir<RW> {
    type V = RoomView;

    open spec fn view(&self) -> RoomView {
        RoomView {
            name: self.name@,
            files: self.files@.map_values(|f: MatrixFile<RW>| f@),
        }
    }
}

/// The outcome of routing one write: which segment took it — start and file
/// name — and whether that segment was created by this very write.
pub struct WriteOutcome {
    pub start: u128,
    pub name: Vec<u8>,
    pub created: bool,
}

impl<RW: ReaderWriter> MatrixRoomDir<RW> {
    /// The segments stand in ascending start order.
    pub open spec fn wf(self) -> bool {
        files_sorted(self@.files)
    }

    /// Puts one segment handle into the map, keeping an already-known start.
    fn insert_file(&mut self, f: MatrixFile<RW>)
        requires
            old(self).wf(),
        ensures
            final(self).wf(),
            final(self)@.name == old(self)@.name,
            final(self)@.files == spec_insert(old(self)@.files, f@),
    {
        let n = self.files.len();
        let mut i: usize = 0;
        while i < n && self.files[i].start < f.start
            invariant
                i <= n,
                n == self.files@.len(),
                forall|j: int| 0 <= j < i ==> self.files@[j].start < f@.start,
            decreases n - i,
        {
            i = i + 1;
        }
        proof {
            lemma_spec_insert_at(self@.files, f@, i as int);
        }
        if i < n && self.files[i].start == f.start {
            // segment already known: keep the existing handle
        } else {
            let ghost oldfiles = self@.files;
            self.files.insert(i, f);
            proof {
                assert(self@.files =~= oldfiles.insert(i as int, f@));
                assert(self@.files =~= oldfiles.take(i as int) + seq![f@] + oldfiles.skip(i as int));
                assert forall|a: int, b: int|
                    0 <= a < b < self@.files.len() implies self@.files[a].start
                    < self@.files[b].start by {
                    let fs = self@.files;
                    if b < i {
                    } else if a > i {
                    } else if a == i {
                        assert(fs[b] == oldfiles[b - 1]);
                        assert(oldfiles[i as int].start > f@.start || i == oldfiles.len());
                    } else if b == i {
                        assert(fs[a] == oldfiles[a]);
                    } else {
                        assert(fs[a] == oldfiles[a]);
                        assert(fs[b] == oldfiles[b - 1]);
                    }
                }
            }
        }
    }

    /// Tracks one scanned or newly discovered segment file. The file name's
    /// stem must be a decimal timestamp; any other name is rejected.
    pub fn add_file(&mut self, entry: FileScan) -> (r: Result<(), StoreError>)
        requires
            old(self).wf(),
        ensures
            final(self).wf(),
            final(self)@.name == old(self)@.name,
            (r is Ok <==> spec_add(old(self)@.files, entry@) is Some),
            (r is Ok ==> Some(final(self)@.files) == spec_add(old(self)@.files, entry@)),
            (r is Err ==> *final(self) == *old(self) && r == Err::<(), StoreError>(
                StoreError::InvalidSegmentName,
            )),
    {
        let name_bytes: Vec<u8> = entry.name.as_str().as_bytes_vec();
        match crate::names::parse_start(name_bytes.as_slice()) {
            Some(start) => {
                let f = MatrixFile {
                    name: name_bytes,
                    start,
                    content: entry.content,
                    rw: core::marker::PhantomData,
                };
                self.insert_file(f);
                Ok(())
            },
            None => Err(StoreError::InvalidSegmentName),
        }
    }

    /// Re-scans the room directory: newly found segments are merged in,
    /// already-known ones keep their handles. A file name whose stem is not a
    /// decimal timestamp is fatal to the whole scan.
    #[verifier::loop_isolation(false)]
    pub fn reload_files(&mut self, scan: Vec<FileScan>) -> (r: Result<(), StoreError>)
        requires
            old(self).wf(),
        ensures
            final(self).wf(),
            final(self)@.name == old(self)@.name,
            (r is Ok <==> spec_load(old(self)@.files, scans_view(scan@)) is Some),
            (r is Ok ==> Some(final(self)@.files) == spec_load(
                old(self)@.files,
                scans_view(scan@),
            )),
            (r matches Err(e) ==> e == StoreError::InvalidSegmentName),
    {
        let ghost orig_files = self@.files;
        let ghost orig_scans = scans_view(scan@);
        let ghost orig_name = self@.name;
        let mut scan = scan;
        while scan.len() > 0
            invariant
                self.wf(),
                self@.name == orig_name,
                spec_load(orig_files, orig_scans) == spec_load(self@.files, scans_view(scan@)),
            decreases scan@.len(),
        {
            let ghost pre_scans = scans_view(scan@);
            let ghost pre_files = self@.files;
            let entry = scan.remove(0);
            proof {
                assert(scans_view(scan@) =~= pre_scans.drop_first());
                assert(pre_scans[0] == entry@);
            }
            match self.add_file(entry) {
                Ok(()) => {},
                Err(e) => {
                    return Err(e);
                },
            }
        }
        Ok(())
    }

    /// Opens a room over the scanned segment files of its directory,
    /// whichever capability the handles carry.
    pub fn new_scanned(name: String, scan: Vec<FileScan>) -> (r: Result<Self, StoreError>)
        ensures
            (r is Ok <==> spec_load(Seq::<FileView>::empty(), scans_view(scan@)) is Some),
            (r matches Ok(room) ==> room.wf() && room@.name == name@ && Some(room@.files)
                == spec_load(Seq::<FileView>::empty(), scans_view(scan@))),
            (r matches Err(e) ==> e == StoreError::InvalidSegmentName),
    {
        let mut room = MatrixRoomDir::<RW> { name, files: Vec::new() };
        proof {
            assert(room@.files =~= Seq::<FileView>::empty());
        }
        match room.reload_files(scan) {
            Ok(()) => Ok(room),
            Err(e) => Err(e),
        }
    }

    /// The room's name.
    pub fn name(&self) -> (r: String)
        ensures
            r@ == self@.name,
    {
        self.name.clone()
    }

    /// The room's segment handles, ascending by start.
    pub fn message_files(&self) -> (r: &Vec<MatrixFile<RW>>)
        ensures
            r == self.files,
    {
        &self.files
    }

    /// A fresh, restartable line sequence over the room's current segments in
    /// ascending start order, advancing only once the current segment is
    /// exhausted. In follow mode the sequence reports "pending" at the end of
    /// the current segment's data instead of moving past it or ending.
    pub fn messages(&self, follow: bool) -> (r: RoomMessageIterator)
        ensures
            r.wf(),
            segs_data(r.files@) == room_data(self@.files),
            r.done@ == Seq::<Seq<u8>>::empty(),
            r.follow == follow,
            !r.closed,
            r.pos == 0,
    {
        let n = self.files.len();
        let mut segs: Vec<RoomSeg> = Vec::new();
        let mut k: usize = 0;
        while k < n
            invariant
                k <= n,
                n == self.files@.len(),
                segs@.len() == k,
                forall|j: int|
                    0 <= j < k ==> (#[trigger] segs@[j]).start == self.files@[j].start
                        && segs@[j].content@ == self.files@[j].content@,
            decreases n - k,
        {
            let seg = RoomSeg {
                start: self.files[k].start,
                content: slice_to_vec(self.files[k].content.as_slice()),
            };
            segs.push(seg);
            k = k + 1;
        }
        let mut current = FileMessageIterator::new(follow);
        if segs.len() > 0 {
            let m: usize = segs[0].content.len();
            assert(m <= u64::MAX);
            current.feed(segs[0].content.as_slice());
        }
        let r = RoomMessageIterator {
            files: segs,
            pos: 0,
            current,
            follow,
            closed: false,
            done: Ghost(Seq::empty()),
        };
        proof {
            assert(segs_data(r.files@) =~= room_data(self@.files));
            assert(segs_data(r.files@).take(0) =~= Seq::<(u128, Seq<u8>)>::empty());
            if r.files@.len() > 0 {
                assert(r.done@ =~= room_emitted(segs_data(r.files@).take(0)) + r.current.done@);
            } else {
                assert(r.done@ =~= room_emitted(segs_data(r.files@)));
            }
        }
        r
    }
}

/// A snapshot of one segment taken for iteration.
pub struct RoomSeg {
    pub start: u128,
    pub content: Vec<u8>,
}

/// The snapshots stripped to starts and contents.
pub open spec fn segs_data(s: Seq<RoomSeg>) -> Seq<(u128, Seq<u8>)> {
    s.map_values(|g: RoomSeg| (g.start, g.content@))
}

/// A room's line sequence: a cursor over a snapshot of the room's segments,
/// delivering each segment's lines in ascending segment order.
pub struct RoomMessageIterator {
    /// The segments at the time the sequence was opened.
    pub files: Vec<RoomSeg>,
    /// The segment the cursor stands in.
    pub pos: usize,
    /// The follower over the current segment.
    pub current: FileMessageIterator,
    /// Whether exhaustion yields a pending marker instead of ending.
    pub follow: bool,
    /// Whether the sequence has ended for good.
    pub closed: bool,
    /// The byte records delivered so far.
    pub done: Ghost<Seq<Seq<u8>>>,
}

impl RoomMessageIterator {
    /// The cursor state agrees with the snapshot: the records delivered so
    /// far are those of the segments already passed, plus the current
    /// follower's.
    pub open spec fn wf(self) -> bool {
        let d = segs_data(self.files@);
        &&& self.pos <= self.files@.len()
        &&& (self.pos < self.files@.len() && !self.closed ==> {
            &&& self.current.wf()
            &&& !self.current.closed
            &&& self.current.fed@ == d[self.pos as int].1
            &&& self.current.follow == self.follow
            &&& self.done@ == room_emitted(d.take(self.pos as int)) + self.current.done@
        })
        &&& (self.pos == self.files@.len() ==> self.done@ == room_emitted(d))
    }

    /// Pops the next line of the room sequence. In non-follow mode the lines
    /// come in segment order until all segments are exhausted, then the
    /// sequence ends. In follow mode, exhausting the current segment's data
    /// yields a pending marker, and an undecodable record ends the sequence.
    #[verifier::loop_isolation(false)]
    pub fn next(&mut self) -> (r: FollowStep)
        requires
            old(self).wf(),
        ensures
            final(self).wf(),
            final(self).files@ == old(self).files@,
            final(self).follow == old(self).follow,
            old(self).closed ==> r is End && *final(self) == *old(self),
            ({
                let full = room_emitted(segs_data(old(self).files@));
                &&& (r matches FollowStep::Line(s) ==> old(self).done@.len() < full.len()
                    && final(self).done@ == old(self).done@ + seq![
                    full[old(self).done@.len() as int],
                ] && s@ == decode_utf8(full[old(self).done@.len() as int]) && !final(self).closed)
                &&& (r is Pending ==> old(self).follow && *final(self) == *old(self))
                &&& (r is End ==> final(self).closed && final(self).done == old(self).done)
                &&& ((!old(self).follow && !old(self).closed) ==> (if old(self).done@.len()
                    < full.len() {
                    r is Line
                } else {
                    r is End
                }))
                &&& ((old(self).follow && !old(self).closed) ==> (if old(self).pos
                    < old(self).files@.len() {
                    if old(self).current.done@.len() < emitted_of(old(self).current.fed@).len() {
                        r is Line
                    } else if lines_of(old(self).current.buf@).len() > 0 {
                        r is End
                    } else {
                        r is Pending
                    }
                } else {
                    r is Pending
                }))
            }),
    {
        if self.closed {
            return FollowStep::End;
        }
        let ghost d = segs_data(self.files@);
        let ghost odone = self.done@;
        let ghost ofollow = self.follow;
        let ghost ofiles = self.files@;
        let ghost oself = *self;
        if self.pos == self.files.len() {
            // no segments at all
            if self.follow {
                return FollowStep::Pending;
            } else {
                self.closed = true;
                return FollowStep::End;
            }
        }
        while self.pos < self.files.len()
            invariant
                self.wf(),
                !self.closed,
                self.files@ == ofiles,
                self.follow == ofollow,
                self.done@ == odone,
                d == segs_data(self.files@),
                d.len() == self.files@.len(),
                ofollow ==> *self == oself,
            decreases self.files@.len() - self.pos,
        {
            let ghost pre_cur = self.current;
            let ghost pos = self.pos as int;
            proof {
                lemma_done_prefix(d, pos, self.current);
            }
            let step = self.current.next();
            match step {
                FollowStep::Line(s) => {
                    proof {
                        self.done@ = odone + seq![lines_of(pre_cur.buf@)[0]];
                        lemma_line_is_next(d, pos, pre_cur);
                        assert(self.done@ =~= room_emitted(d.take(pos)) + self.current.done@);
                    }
                    return FollowStep::Line(s);
                },
                FollowStep::Pending => {
                    proof {
                        assert(self.current == pre_cur);
                    }
                    return FollowStep::Pending;
                },
                FollowStep::End => {
                    proof {
                        lemma_segment_finished(d, pos, pre_cur);
                    }
                    if self.follow {
                        // an undecodable record ends the room sequence here:
                        // the follower cannot move past it
                        self.closed = true;
                        return FollowStep::End;
                    }
                    self.pos = self.pos + 1;
                    if self.pos < self.files.len() {
                        let mut cur = FileMessageIterator::new(false);
                        let m: usize = self.files[self.pos].content.len();
                        assert(m <= u64::MAX);
                        cur.feed(self.files[self.pos].content.as_slice());
                        self.current = cur;
                    }
                    proof {
                        assert(d.take(pos + 1) =~= d.take(pos) + seq![d[pos]]);
                        lemma_room_emitted_concat(d.take(pos), seq![d[pos]]);
                        lemma_room_emitted_single(d[pos]);
                        if self.pos == self.files.len() as usize {
                            assert(d.take(pos + 1) =~= d);
                        } else {
                            assert(self.done@ =~= room_emitted(d.take(self.pos as int))
                                + self.current.done@);
                        }
                    }
                },
            }
        }
        // every segment exhausted
        self.closed = true;
        FollowStep::End
    }
}

/// A live follower's delivered records are a prefix of its segment's emitted
/// records, and of the whole room's.
proof fn lemma_done_prefix(d: Seq<(u128, Seq<u8>)>, pos: int, cur: FileMessageIterator)
    requires
        0 <= pos < d.len(),
        cur.wf(),
        cur.fed@ == d[pos].1,
    ensures
        emitted_of(cur.fed@) == cur.done@ + utf8_prefix(lines_of(cur.buf@)),
        room_emitted(d) == room_emitted(d.take(pos)) + emitted_of(d[pos].1) + room_emitted(
            d.skip(pos + 1),
        ),
{
    crate::codec::lemma_utf8_prefix_concat(cur.done@, lines_of(cur.buf@));
    assert(d =~= d.take(pos) + seq![d[pos]] + d.skip(pos + 1));
    lemma_room_emitted_concat(d.take(pos) + seq![d[pos]], d.skip(pos + 1));
    lemma_room_emitted_concat(d.take(pos), seq![d[pos]]);
    lemma_room_emitted_single(d[pos]);
}

/// Replay of a single segment.
pub proof fn lemma_room_emitted_single(e: (u128, Seq<u8>))
    ensures
        room_emitted(seq![e]) == emitted_of(e.1),
{
    assert(seq![e].drop_first() =~= Seq::<(u128, Seq<u8>)>::empty());
    assert(room_emitted(Seq::<(u128, Seq<u8>)>::empty()) == Seq::<Seq<u8>>::empty());
    assert(emitted_of(e.1) + Seq::<Seq<u8>>::empty() =~= emitted_of(e.1));
}

/// When the follower pops a decodable record, that record is the room's next
/// emitted one.
proof fn lemma_line_is_next(d: Seq<(u128, Seq<u8>)>, pos: int, cur: FileMessageIterator)
    requires
        0 <= pos < d.len(),
        cur.wf(),
        cur.fed@ == d[pos].1,
        lines_of(cur.buf@).len() > 0,
        valid_utf8(lines_of(cur.buf@)[0]),
    ensures
        ({
            let full = room_emitted(d);
            let done = room_emitted(d.take(pos)) + cur.done@;
            done.len() < full.len() && full[done.len() as int] == lines_of(cur.buf@)[0]
        }),
{
    lemma_done_prefix(d, pos, cur);
    assert(utf8_prefix(lines_of(cur.buf@))[0] == lines_of(cur.buf@)[0]);
}

/// When the follower has ended — its remaining records are exhausted or start
/// with an undecodable one — its delivered records are exactly its segment's
/// emitted records.
proof fn lemma_segment_finished(d: Seq<(u128, Seq<u8>)>, pos: int, cur: FileMessageIterator)
    requires
        0 <= pos < d.len(),
        cur.wf(),
        cur.fed@ == d[pos].1,
        lines_of(cur.buf@).len() == 0 || !valid_utf8(lines_of(cur.buf@)[0]),
    ensures
        cur.done@ == emitted_of(d[pos].1),
{
    lemma_done_prefix(d, pos, cur);
    assert(utf8_prefix(lines_of(cur.buf@)) =~= Seq::<Seq<u8>>::empty());
    assert(cur.done@ + Seq::<Seq<u8>>::empty() =~= cur.done@);
}

impl MatrixRoomDir<Write> {
    /// Opens a room for appending, folding in the scanned segment files of
    /// the room's directory.
    pub fn new_writer(name: String, scan: Vec<FileScan>) -> (r: Result<Self, StoreError>)
        ensures
            (r is Ok <==> spec_load(Seq::<FileView>::empty(), scans_view(scan@)) is Some),
            (r matches Ok(room) ==> room.wf() && room@.name == name@ && Some(room@.files)
                == spec_load(Seq::<FileView>::empty(), scans_view(scan@))),
            (r matches Err(e) ==> e == StoreError::InvalidSegmentName),
    {
        Self::new_scanned(name, scan)
    }

    /// Routes an event to the segment whose start is the greatest at or
    /// below its timestamp; when every segment starts later, or the room is
    /// empty, a segment starting at the timestamp itself is created. The
    /// payload goes in verbatim: the caller supplies any trailing delimiter.
    pub fn write_event(&mut self, event: &str, timestamp: u128) -> (r: WriteOutcome)
        requires
            old(self).wf(),
        ensures
            final(self).wf(),
            final(self)@.name == old(self)@.name,
            room_data(final(self)@.files) == spec_write_data(
                room_data(old(self)@.files),
                encode_utf8(event@),
                timestamp,
            ),
            r.created == (floor_idx(room_data(old(self)@.files), timestamp) < 0),
            (!r.created ==> {
                let i = floor_idx(room_data(old(self)@.files), timestamp);
                &&& r.start == old(self)@.files[i].start
                &&& r.name@ == old(self)@.files[i].name
                &&& final(self)@.files == old(self)@.files.update(
                    i,
                    FileView {
                        name: old(self)@.files[i].name,
                        start: old(self)@.files[i].start,
                        content: old(self)@.files[i].content + encode_utf8(event@),
                    },
                )
            }),
            (r.created ==> {
                let nm = final(self)@.files[0].name;
                &&& r.start == timestamp
                &&& r.name@ == nm
                &&& final(self)@.files.len() == old(self)@.files.len() + 1
                &&& final(self)@.files[0].start == timestamp
                &&& final(self)@.files[0].content == encode_utf8(event@)
                &&& nm == stem_of(nm) + seg_ext()
                &&& is_dec(stem_of(nm))
                &&& dec_val(stem_of(nm)) == timestamp
                &&& (timestamp > 0 ==> stem_of(nm)[0] != 48)
                &&& (timestamp == 0 ==> stem_of(nm) == seq![48u8])
                &&& final(self)@.files.skip(1) == old(self)@.files
            }),
    {
        let n = self.files.len();
        let mut i: usize = n;
        while i > 0 && self.files[i - 1].start > timestamp
            invariant
                i <= n,
                n == self.files@.len(),
                forall|j: int| i <= j < n ==> self.files@[j].start > timestamp,
            decreases i,
        {
            i = i - 1;
        }
        let bytes: &[u8] = event.as_bytes();
        let ghost oldfiles = self@.files;
        if i > 0 {
            proof {
                lemma_floor_at(room_data(oldfiles), timestamp, i - 1);
            }
            let mut f = self.files.remove(i - 1);
            f.append(bytes);
            let start = f.start;
            let fname = slice_to_vec(f.name.as_slice());
            self.files.insert(i - 1, f);
            proof {
                assert(self@.files =~= oldfiles.update(
                    i - 1,
                    FileView {
                        name: oldfiles[i - 1].name,
                        start: oldfiles[i - 1].start,
                        content: oldfiles[i - 1].content + encode_utf8(event@),
                    },
                ));
                assert(room_data(self@.files) =~= spec_write_data(
                    room_data(oldfiles),
                    encode_utf8(event@),
                    timestamp,
                ));
            }
            WriteOutcome { start, name: fname, created: false }
        } else {
            proof {
                lemma_floor_at(room_data(oldfiles), timestamp, -1);
            }
            let mut name = u128_to_dec(timestamp);
            let ghost stem = name@;
            name.push(DOT);
            name.push(106);
            name.push(115);
            name.push(111);
            name.push(110);
            name.push(108);
            proof {
                crate::names::lemma_find_last_dot_at(name@, stem.len() as int);
                assert(name@.take(stem.len() as int) =~= stem);
                assert(name@ =~= stem + seg_ext());
            }
            let fname = slice_to_vec(name.as_slice());
            let f = MatrixFile::<Write> {
                name,
                start: timestamp,
                content: slice_to_vec(bytes),
                rw: core::marker::PhantomData,
            };
            self.files.insert(0, f);
            proof {
                assert(self@.files =~= seq![f@] + oldfiles);
                assert(self@.files.skip(1) =~= oldfiles);
                assert(room_data(self@.files) =~= spec_write_data(
                    room_data(oldfiles),
                    encode_utf8(event@),
                    timestamp,
                ));
            }
            WriteOutcome { start: timestamp, name: fname, created: true }
        }
    }
}

impl MatrixRoomDir<Read> {
    /// Opens a room for reading, folding in the scanned segment files of the
    /// room's directory.
    pub fn new_reader(name: String, scan: Vec<FileScan>) -> (r: Result<Self, StoreError>)
        ensures
            (r is Ok <==> spec_load(Seq::<FileView>::empty(), scans_view(scan@)) is Some),
            (r matches Ok(room) ==> room.wf() && room@.name == name@ && Some(room@.files)
                == spec_load(Seq::<FileView>::empty(), scans_view(scan@))),
            (r matches Err(e) ==> e == StoreError::InvalidSegmentName),
    {
        Self::new_scanned(name, scan)
    }
}

} // verus!
