//! The live-tail watcher: an event-sourced state machine over filesystem
//! change notifications.
//!
//! The watcher keeps one follower per known segment file, keyed by the file's
//! path below the store root. It is bootstrapped by replaying every existing
//! segment to its current end, then driven by notifications: a created file
//! or room is replayed and tracked, a data modification advances the file's
//! follower, and every completed line goes to the registered handler, once,
//! in order. The unverified shell turns raw notifications into the plain
//! values handed in here: path components below the root, and the bytes the
//! kind of notification calls for.

use vstd::prelude::*;
use vstd::slice::slice_to_vec;
use vstd::string::StrSliceExecFns;
use vstd::utf8::encode_utf8;

use crate::codec::{emitted_of, lines_of, utf8_prefix, FollowStep};
use crate::errors::StoreError;
use crate::matrixdir::{room_scans_view, spec_load_rooms, MatrixDir, RoomScan};
use crate::matrixfile::{FileMessageIterator, FileView};
use crate::matrixroomdir::{
    lemma_room_emitted_concat, lemma_room_emitted_single, room_data, room_emitted, scans_view,
    spec_load, FileScan, MatrixRoomDir, RoomView,
};
use crate::names::{bytes_eq, lemma_encode_utf8_injective};
use crate::read_write::Read;

verus! {

/// The handler every delivered line goes to, one synchronous call per line.
pub trait MatrixEventHandler {
    fn handle(&mut self, event: String);
}

/// A handler that keeps the delivered lines, in delivery order.
pub struct CollectingHandler {
    pub events: Vec<String>,
}

impl CollectingHandler {
    /// A handler that has seen nothing yet.
    pub fn new() -> (r: Self)
        ensures
            r.events@ == Seq::<String>::empty(),
    {
        CollectingHandler { events: Vec::new() }
    }
}

impl MatrixEventHandler for CollectingHandler {
    fn handle(&mut self, event: String)
        ensures
            final(self).events@ == old(self).events@ + seq![event],
    {
        self.events.push(event);
    }
}

/// Drains a follower: delivers every complete decodable line it holds to the
/// handler, in order, stopping at the data's current end — or for good at an
/// undecodable line.
#[verifier::loop_isolation(false)]
pub fn emit_events_from_follower<H: MatrixEventHandler>(
    follower: &mut FileMessageIterator,
    handler: &mut H,
)
    requires
        old(follower).wf(),
    ensures
        final(follower).wf(),
        final(follower).fed == old(follower).fed,
        final(follower).nfed == old(follower).nfed,
        final(follower).follow == old(follower).follow,
        old(follower).closed ==> *final(follower) == *old(follower),
        !old(follower).closed ==> final(follower).done@ == old(follower).done@ + utf8_prefix(
            lines_of(old(follower).buf@),
        ),
        !old(follower).closed ==> (final(follower).closed <==> (!old(follower).follow
            || utf8_prefix(lines_of(old(follower).buf@)).len() < lines_of(
            old(follower).buf@,
        ).len())),
{
    let ghost odone = old(follower).done@;
    let ghost obuf = old(follower).buf@;
    loop
        invariant
            follower.wf(),
            follower.fed == old(follower).fed,
            follower.nfed == old(follower).nfed,
            follower.follow == old(follower).follow,
            old(follower).closed ==> *follower == *old(follower),
            !old(follower).closed ==> follower.done@ + utf8_prefix(lines_of(follower.buf@))
                == odone + utf8_prefix(lines_of(obuf)),
            !old(follower).closed ==> follower.done@.len() + lines_of(follower.buf@).len()
                == odone.len() + lines_of(obuf).len(),
            !old(follower).closed ==> !follower.closed,
        decreases lines_of(follower.buf@).len(),
    {
        let ghost pre = *follower;
        let step = follower.next();
        match step {
            FollowStep::Line(s) => {
                proof {
                    assert(utf8_prefix(lines_of(pre.buf@)) == seq![lines_of(pre.buf@)[0]]
                        + utf8_prefix(lines_of(pre.buf@).drop_first()));
                    assert(pre.done@ + seq![lines_of(pre.buf@)[0]] + utf8_prefix(
                        lines_of(follower.buf@),
                    ) =~= pre.done@ + utf8_prefix(lines_of(pre.buf@)));
                }
                handler.handle(s);
            },
            FollowStep::Pending => {
                proof {
                    assert(utf8_prefix(lines_of(follower.buf@)) =~= Seq::<Seq<u8>>::empty());
                    assert(follower.done@ + Seq::<Seq<u8>>::empty() =~= follower.done@);
                }
                return ;
            },
            FollowStep::End => {
                proof {
                    if !old(follower).closed {
                        assert(utf8_prefix(lines_of(pre.buf@)) =~= Seq::<Seq<u8>>::empty());
                        assert(follower.done@ + Seq::<Seq<u8>>::empty() =~= follower.done@);
                    }
                }
                return ;
            },
        }
    }
}

/// One tracked segment file: its path below the root — the room directory's
/// name and the file's name, as bytes — and the follower standing at the end
/// of its known data.
pub struct TrackedFile {
    pub room: String,
    pub file: Vec<u8>,
    pub follower: FileMessageIterator,
}

/// Every follower is sound and in follow mode.
pub open spec fn tracked_wf(files: Seq<TrackedFile>) -> bool {
    forall|i: int|
        0 <= i < files.len() ==> (#[trigger] files[i]).follower.wf() && files[i].follower.follow
}

/// Index of the entry tracking the given room and file name, or -1.
pub open spec fn tracked_idx(files: Seq<TrackedFile>, room: Seq<char>, file: Seq<u8>) -> int
    decreases files.len(),
{
    if files.len() == 0 {
        -1
    } else if files[0].room@ == room && files[0].file@ == file {
        0
    } else if tracked_idx(files.drop_first(), room, file) < 0 {
        -1
    } else {
        1 + tracked_idx(files.drop_first(), room, file)
    }
}

/// The tracked index, told from the neighbourhood of the position.
pub proof fn lemma_tracked_idx_at(files: Seq<TrackedFile>, room: Seq<char>, file: Seq<u8>, i: int)
    requires
        -1 <= i < files.len(),
        forall|j: int|
            0 <= j < i ==> !((#[trigger] files[j]).room@ == room && files[j].file@ == file),
        i >= 0 ==> files[i].room@ == room && files[i].file@ == file,
        i == -1 ==> forall|j: int|
            0 <= j < files.len() ==> !((#[trigger] files[j]).room@ == room && files[j].file@
                == file),
    ensures
        tracked_idx(files, room, file) == i,
    decreases files.len(),
{
    if files.len() == 0 {
    } else if files[0].room@ == room && files[0].file@ == file {
    } else {
        lemma_tracked_idx_at(files.drop_first(), room, file, if i <= 0 {
            -1
        } else {
            i - 1
        });
    }
}

/// The tracking keys one room contributes: its name, paired with each of its
/// segment file names in ascending start order.
pub open spec fn room_keys(room: RoomView) -> Seq<(Seq<char>, Seq<u8>)> {
    room.files.map_values(|f: FileView| (room.name, f.name))
}

/// The tracking keys a whole store scan contributes, rooms in store order.
pub open spec fn bootstrap_keys(rooms: Seq<RoomView>) -> Seq<(Seq<char>, Seq<u8>)>
    decreases rooms.len(),
{
    if rooms.len() == 0 {
        seq![]
    } else {
        room_keys(rooms[0]) + bootstrap_keys(rooms.drop_first())
    }
}

/// The bootstrap keys distribute over splitting the room sequence.
pub proof fn lemma_bootstrap_keys_concat(x: Seq<RoomView>, y: Seq<RoomView>)
    ensures
        bootstrap_keys(x + y) == bootstrap_keys(x) + bootstrap_keys(y),
    decreases x.len(),
{
    if x.len() == 0 {
        assert(x + y =~= y);
        assert(bootstrap_keys(x) + bootstrap_keys(y) =~= bootstrap_keys(y));
    } else {
        assert((x + y)[0] == x[0]);
        assert((x + y).drop_first() =~= x.drop_first() + y);
        lemma_bootstrap_keys_concat(x.drop_first(), y);
        assert(room_keys(x[0]) + (bootstrap_keys(x.drop_first()) + bootstrap_keys(y)) =~= (
        room_keys(x[0]) + bootstrap_keys(x.drop_first())) + bootstrap_keys(y));
    }
}

/// The bootstrap keys of a single room.
pub proof fn lemma_bootstrap_keys_single(r: RoomView)
    ensures
        bootstrap_keys(seq![r]) == room_keys(r),
{
    assert(seq![r].drop_first() =~= Seq::<RoomView>::empty());
    assert(bootstrap_keys(Seq::<RoomView>::empty()) == Seq::<(Seq<char>, Seq<u8>)>::empty());
    assert(room_keys(r) + Seq::<(Seq<char>, Seq<u8>)>::empty() =~= room_keys(r));
}

/// The contents a room's segments hold, ascending by start: what each
/// bootstrap follower has replayed, in tracking order.
pub open spec fn room_contents(room: RoomView) -> Seq<Seq<u8>> {
    room.files.map_values(|f: FileView| f.content)
}

/// The contents a whole store scan holds, in tracking order: aligned, entry
/// by entry, with `bootstrap_keys`.
pub open spec fn bootstrap_contents(rooms: Seq<RoomView>) -> Seq<Seq<u8>>
    decreases rooms.len(),
{
    if rooms.len() == 0 {
        seq![]
    } else {
        room_contents(rooms[0]) + bootstrap_contents(rooms.drop_first())
    }
}

/// The bootstrap contents distribute over splitting the room sequence.
pub proof fn lemma_bootstrap_contents_concat(x: Seq<RoomView>, y: Seq<RoomView>)
    ensures
        bootstrap_contents(x + y) == bootstrap_contents(x) + bootstrap_contents(y),
    decreases x.len(),
{
    if x.len() == 0 {
        assert(x + y =~= y);
        assert(bootstrap_contents(x) + bootstrap_contents(y) =~= bootstrap_contents(y));
    } else {
        assert((x + y)[0] == x[0]);
        assert((x + y).drop_first() =~= x.drop_first() + y);
        lemma_bootstrap_contents_concat(x.drop_first(), y);
        assert(room_contents(x[0]) + (bootstrap_contents(x.drop_first()) + bootstrap_contents(y))
            =~= (room_contents(x[0]) + bootstrap_contents(x.drop_first())) + bootstrap_contents(
            y,
        ));
    }
}

/// The bootstrap contents of a single room.
pub proof fn lemma_bootstrap_contents_single(r: RoomView)
    ensures
        bootstrap_contents(seq![r]) == room_contents(r),
{
    assert(seq![r].drop_first() =~= Seq::<RoomView>::empty());
    assert(bootstrap_contents(Seq::<RoomView>::empty()) == Seq::<Seq<u8>>::empty());
    assert(room_contents(r) + Seq::<Seq<u8>>::empty() =~= room_contents(r));
}

/// The lines every room of a freshly scanned store replays, rooms in store
/// order, files within a room in ascending start order.
pub open spec fn rooms_emitted(rooms: Seq<RoomView>) -> Seq<Seq<u8>>
    decreases rooms.len(),
{
    if rooms.len() == 0 {
        seq![]
    } else {
        room_emitted(room_data(rooms[0].files)) + rooms_emitted(rooms.drop_first())
    }
}

/// Bootstrap replay distributes over splitting the room sequence.
pub proof fn lemma_rooms_emitted_concat(x: Seq<RoomView>, y: Seq<RoomView>)
    ensures
        rooms_emitted(x + y) == rooms_emitted(x) + rooms_emitted(y),
    decreases x.len(),
{
    if x.len() == 0 {
        assert(x + y =~= y);
        assert(rooms_emitted(x) + rooms_emitted(y) =~= rooms_emitted(y));
    } else {
        assert((x + y)[0] == x[0]);
        assert((x + y).drop_first() =~= x.drop_first() + y);
        lemma_rooms_emitted_concat(x.drop_first(), y);
        assert(room_emitted(room_data(x[0].files)) + (rooms_emitted(x.drop_first())
            + rooms_emitted(y)) =~= (room_emitted(room_data(x[0].files)) + rooms_emitted(
            x.drop_first(),
        )) + rooms_emitted(y));
    }
}

/// Bootstrap replay of a single room.
pub proof fn lemma_rooms_emitted_single(r: RoomView)
    ensures
        rooms_emitted(seq![r]) == room_emitted(room_data(r.files)),
{
    assert(seq![r].drop_first() =~= Seq::<RoomView>::empty());
    assert(rooms_emitted(Seq::<RoomView>::empty()) == Seq::<Seq<u8>>::empty());
    assert(room_emitted(room_data(r.files)) + Seq::<Seq<u8>>::empty() =~= room_emitted(
        room_data(r.files),
    ));
}

/// The kinds of filesystem notification the watcher consumes.
#[derive(Clone, Copy, Debug)]
pub enum NotifyKind {
    CreateFile,
    CreateFolder,
    RemoveFile,
    RemoveFolder,
    ModifyData,
    Other,
}

/// What the shell read for a notified path, as the notification kind asks:
/// a created file's full bytes, a created room directory's scan, the bytes a
/// modified file gained past the tracked offset — or nothing.
pub enum PathData {
    FileContent(Vec<u8>),
    RoomFiles(Vec<FileScan>),
    Appended(Vec<u8>),
    Nothing,
}

/// One notified path: its components below the store root, and what the
/// shell read for it.
pub struct NotifiedPath {
    pub parts: Vec<String>,
    pub data: PathData,
}

/// The path components, as character strings.
pub open spec fn parts_view(parts: Seq<String>) -> Seq<Seq<char>> {
    parts.map_values(|s: String| s@)
}

/// Whether a notification names exactly the lock marker file.
pub open spec fn is_lock_path(paths: Seq<NotifiedPath>) -> bool {
    paths.len() == 1 && parts_view(paths[0].parts@) =~= seq!["lock.pid"@]
}

/// A follower standing at the current end of its segment's known bytes, in
/// follow mode: the bytes it has read are exactly the segment's, every
/// decodable record among them has been delivered, and the follower is
/// closed exactly when an undecodable record cut the segment short.
pub open spec fn follower_at_end(f: FileMessageIterator, content: Seq<u8>) -> bool {
    &&& f.fed@ == content
    &&& f.done@ == emitted_of(content)
    &&& f.follow
    &&& (f.closed <==> emitted_of(content).len() < lines_of(content).len())
}

/// How a created-file notification moves the tracked state: a path that is
/// not room/file-shaped, or already tracked, changes nothing; otherwise the
/// file's current records are delivered and a follower standing at its end
/// is retained.
pub open spec fn file_created(
    files0: Seq<TrackedFile>,
    del0: Seq<Seq<u8>>,
    files1: Seq<TrackedFile>,
    del1: Seq<Seq<u8>>,
    parts: Seq<Seq<char>>,
    content: Seq<u8>,
) -> bool {
    if parts.len() != 2 || tracked_idx(files0, parts[0], encode_utf8(parts[1])) >= 0 {
        files1 == files0 && del1 == del0
    } else {
        &&& files1.len() == files0.len() + 1
        &&& files1.take(files0.len() as int) == files0
        &&& files1.last().room@ == parts[0]
        &&& files1.last().file@ == encode_utf8(parts[1])
        &&& follower_at_end(files1.last().follower, content)
        &&& del1 == del0 + emitted_of(content)
    }
}

/// How a data-modified notification moves the tracked state: on a tracked
/// room/file path the newly appended bytes are fed to its follower and every
/// newly completed decodable line is delivered; any other path, or growth
/// past the follower's offset range, changes nothing.
pub open spec fn data_modified(
    files0: Seq<TrackedFile>,
    del0: Seq<Seq<u8>>,
    files1: Seq<TrackedFile>,
    del1: Seq<Seq<u8>>,
    parts: Seq<Seq<char>>,
    appended: Seq<u8>,
) -> bool {
    if parts.len() != 2 || tracked_idx(files0, parts[0], encode_utf8(parts[1])) < 0 {
        files1 == files0 && del1 == del0
    } else {
        let i = tracked_idx(files0, parts[0], encode_utf8(parts[1]));
        let fl0 = files0[i].follower;
        if fl0.fed@.len() + appended.len() > u64::MAX {
            files1 == files0 && del1 == del0
        } else {
            &&& files1.len() == files0.len()
            &&& (forall|j: int| 0 <= j < files0.len() && j != i ==> files1[j] == files0[j])
            &&& files1[i].room == files0[i].room
            &&& files1[i].file == files0[i].file
            &&& files1[i].follower.fed@ == fl0.fed@ + appended
            &&& (fl0.closed ==> del1 == del0 && files1[i].follower.done@ == fl0.done@)
            &&& (!fl0.closed ==> del1 == del0 + utf8_prefix(lines_of(fl0.buf@ + appended))
                && files1[i].follower.done@ == fl0.done@ + utf8_prefix(
                lines_of(fl0.buf@ + appended),
            ))
        }
    }
}

/// The watcher: one follower per known segment file, keyed by path below the
/// root, and the handler the lines go to.
pub struct MatrixDirWatcher<H> {
    /// The tracked segment files, in tracking order.
    pub files: Vec<TrackedFile>,
    /// The registered handler.
    pub handler: H,
    /// Every byte record delivered so far, in delivery order.
    pub delivered: Ghost<Seq<Seq<u8>>>,
}

impl<H: MatrixEventHandler> MatrixDirWatcher<H> {
    /// Every follower is sound and in follow mode.
    pub open spec fn wf(self) -> bool {
        tracked_wf(self.files@)
    }

    /// Builds the watcher over a scan of the store root: loads the store
    /// read-only, replays every existing segment to its current end — each
    /// line delivered exactly once, files within a room in ascending start
    /// order — and retains one follower per segment, now at end-of-file.
    #[verifier::loop_isolation(false)]
    pub fn new(scan: Vec<RoomScan>, handler: H) -> (r: Result<Self, StoreError>)
        ensures
            (r is Ok <==> spec_load_rooms(Seq::<RoomView>::empty(), room_scans_view(scan@))
                is Some),
            (r matches Ok(w) ==> {
                &&& w.wf()
                &&& spec_load_rooms(Seq::<RoomView>::empty(), room_scans_view(scan@))
                    matches Some(rooms) && ({
                    &&& w.delivered@ == rooms_emitted(rooms)
                    &&& keys_of(w.files@) == bootstrap_keys(rooms)
                    &&& w.files@.len() == bootstrap_contents(rooms).len()
                    &&& forall|k: int|
                        0 <= k < w.files@.len() ==> follower_at_end(
                            (#[trigger] w.files@[k]).follower,
                            bootstrap_contents(rooms)[k],
                        )
                })
            }),
            (r matches Err(e) ==> e == StoreError::InvalidSegmentName),
    {
        let dir = match MatrixDir::<Read>::new_reader(scan) {
            Ok(dir) => dir,
            Err(e) => {
                return Err(e);
            },
        };
        let mut w = MatrixDirWatcher { files: Vec::new(), handler, delivered: Ghost(Seq::empty()) };
        let ghost rooms_v = dir@.rooms;
        let rooms = dir.rooms();
        let nrooms = rooms.len();
        let mut ri: usize = 0;
        while ri < nrooms
            invariant
                ri <= nrooms,
                w.wf(),
                w.delivered@ == rooms_emitted(rooms_v.take(ri as int)),
                keys_of(w.files@) == bootstrap_keys(rooms_v.take(ri as int)),
                w.files@.len() == bootstrap_contents(rooms_v.take(ri as int)).len(),
                forall|k: int|
                    0 <= k < w.files@.len() ==> follower_at_end(
                        (#[trigger] w.files@[k]).follower,
                        bootstrap_contents(rooms_v.take(ri as int))[k],
                    ),
            decreases nrooms - ri,
        {
            let room = &rooms[ri];
            let files = room.message_files();
            let nfiles = files.len();
            let mut fi: usize = 0;
            while fi < nfiles
                invariant
                    fi <= nfiles,
                    w.wf(),
                    w.delivered@ == rooms_emitted(rooms_v.take(ri as int)) + room_emitted(
                        room_data(rooms_v[ri as int].files.take(fi as int)),
                    ),
                    keys_of(w.files@) == bootstrap_keys(rooms_v.take(ri as int)) + room_keys(
                        rooms_v[ri as int],
                    ).take(fi as int),
                    w.files@.len() == (bootstrap_contents(rooms_v.take(ri as int)) + room_contents(
                        rooms_v[ri as int],
                    ).take(fi as int)).len(),
                    forall|k: int|
                        0 <= k < w.files@.len() ==> follower_at_end(
                            (#[trigger] w.files@[k]).follower,
                            (bootstrap_contents(rooms_v.take(ri as int)) + room_contents(
                                rooms_v[ri as int],
                            ).take(fi as int))[k],
                        ),
                decreases nfiles - fi,
            {
                let file = &files[fi];
                let mut follower = file.messages(true);
                emit_events_from_follower(&mut follower, &mut w.handler);
                let entry = TrackedFile {
                    room: room.name(),
                    file: slice_to_vec(file.name.as_slice()),
                    follower,
                };
                let ghost enew = entry;
                let ghost pre_entries = w.files@;
                w.files.push(entry);
                proof {
                    let rc = room_contents(rooms_v[ri as int]);
                    assert(rc[fi as int] == rooms_v[ri as int].files[fi as int].content);
                    assert(Seq::<Seq<u8>>::empty() + utf8_prefix(lines_of(rc[fi as int])) =~= emitted_of(
                        rc[fi as int],
                    ));
                    assert(follower_at_end(enew.follower, rc[fi as int]));
                    assert((bootstrap_contents(rooms_v.take(ri as int)) + rc.take(fi as int)).push(
                        rc[fi as int],
                    ) =~= bootstrap_contents(rooms_v.take(ri as int)) + rc.take(fi + 1));
                    assert(w.files@ == pre_entries.push(enew));
                    let rk = room_keys(rooms_v[ri as int]);
                    assert(keys_of(w.files@) =~= (bootstrap_keys(rooms_v.take(ri as int))
                        + rk.take(fi as int)).push(rk[fi as int]));
                    assert((bootstrap_keys(rooms_v.take(ri as int)) + rk.take(fi as int)).push(
                        rk[fi as int],
                    ) =~= bootstrap_keys(rooms_v.take(ri as int)) + rk.take(fi + 1));
                    let d = room_data(rooms_v[ri as int].files);
                    assert(d.take(fi + 1) =~= d.take(fi as int) + seq![d[fi as int]]);
                    lemma_room_emitted_concat(d.take(fi as int), seq![d[fi as int]]);
                    lemma_room_emitted_single(d[fi as int]);
                    assert(room_data(rooms_v[ri as int].files.take(fi + 1)) =~= d.take(fi + 1));
                    assert(room_data(rooms_v[ri as int].files.take(fi as int)) =~= d.take(
                        fi as int,
                    ));
                    w.delivered@ = w.delivered@ + emitted_of(d[fi as int].1);
                    assert(w.delivered@ =~= rooms_emitted(rooms_v.take(ri as int)) + room_emitted(
                        d.take(fi + 1),
                    ));
                }
                fi = fi + 1;
            }
            proof {
                assert(rooms_v.take(ri + 1) =~= rooms_v.take(ri as int) + seq![rooms_v[ri as int]]);
                lemma_rooms_emitted_concat(rooms_v.take(ri as int), seq![rooms_v[ri as int]]);
                lemma_rooms_emitted_single(rooms_v[ri as int]);
                lemma_bootstrap_keys_concat(rooms_v.take(ri as int), seq![rooms_v[ri as int]]);
                lemma_bootstrap_keys_single(rooms_v[ri as int]);
                lemma_bootstrap_contents_concat(rooms_v.take(ri as int), seq![rooms_v[ri as int]]);
                lemma_bootstrap_contents_single(rooms_v[ri as int]);
                assert(rooms_v[ri as int].files.take(nfiles as int) =~= rooms_v[ri as int].files);
                assert(room_keys(rooms_v[ri as int]).take(nfiles as int) =~= room_keys(
                    rooms_v[ri as int],
                ));
                assert(room_contents(rooms_v[ri as int]).take(nfiles as int) =~= room_contents(
                    rooms_v[ri as int],
                ));
            }
            ri = ri + 1;
        }
        proof {
            assert(rooms_v.take(nrooms as int) =~= rooms_v);
        }
        Ok(w)
    }

    /// Finds the entry tracking the given room and file name.
    fn find_tracked(&self, room: &str, file: &str) -> (r: Option<usize>)
        ensures
            (r matches Some(i) ==> i < self.files@.len() && tracked_idx(
                self.files@,
                room@,
                encode_utf8(file@),
            ) == i as int),
            (r is None ==> tracked_idx(self.files@, room@, encode_utf8(file@)) == -1),
    {
        self.find_tracked_bytes(room, file.as_bytes())
    }

    /// The byte offset up to which a tracked file has been read, or nothing
    /// if the path is not tracked. The shell reads a modified file from this
    /// offset and hands the new bytes to `handle_event`.
    pub fn tracked_offset(&self, room: &str, file: &str) -> (r: Option<u64>)
        requires
            self.wf(),
        ensures
            (r is Some <==> tracked_idx(self.files@, room@, encode_utf8(file@)) >= 0),
            (r matches Some(off) ==> off == self.files@[tracked_idx(
                self.files@,
                room@,
                encode_utf8(file@),
            )].follower.fed@.len()),
    {
        match self.find_tracked(room, file) {
            Some(i) => Some(self.files[i].follower.nfed),
            None => None,
        }
    }

    /// A created file at depth exactly two below the root — a segment inside
    /// a room — is replayed and tracked; an already-tracked path is ignored
    /// (duplicate tolerance), and so is any other depth.
    pub fn handle_create_file(&mut self, parts: &Vec<String>, content: Vec<u8>)
        requires
            old(self).wf(),
        ensures
            final(self).wf(),
            old(self).delivered@.len() <= final(self).delivered@.len(),
            final(self).delivered@.take(old(self).delivered@.len() as int) == old(self).delivered@,
            file_created(
                old(self).files@,
                old(self).delivered@,
                final(self).files@,
                final(self).delivered@,
                parts_view(parts@),
                content@,
            ),
    {
        proof {
            assert(self.delivered@.take(self.delivered@.len() as int) =~= self.delivered@);
        }
        if parts.len() != 2 {
            return ;
        }
        let room = &parts[0];
        let file = &parts[1];
        if self.find_tracked(room.as_str(), file.as_str()).is_some() {
            // already tracking this file: ignore the duplicate
            return ;
        }
        let name_bytes: Vec<u8> = file.as_str().as_bytes_vec();
        let ghost ofiles = self.files@;
        let mut follower = FileMessageIterator::new(true);
        let n: usize = content.len();
        assert(n <= u64::MAX);
        follower.feed(content.as_slice());
        emit_events_from_follower(&mut follower, &mut self.handler);
        proof {
            assert(Seq::<u8>::empty() + content@ =~= content@);
            assert(Seq::<Seq<u8>>::empty() + utf8_prefix(lines_of(content@)) =~= emitted_of(
                content@,
            ));
        }
        let entry = TrackedFile { room: room.clone(), file: name_bytes, follower };
        self.files.push(entry);
        proof {
            let del0 = self.delivered@;
            self.delivered@ = self.delivered@ + emitted_of(content@);
            assert(self.files@.take(ofiles.len() as int) =~= ofiles);
            assert(self.delivered@.take(del0.len() as int) =~= del0);
        }
    }

    /// A created directory at depth exactly one below the root is a new
    /// room: it is loaded read-only and every contained segment is replayed
    /// and tracked as a created file would be; deeper directories are
    /// ignored. A segment name without a decimal stem is a fatal scan error.
    #[verifier::loop_isolation(false)]
    pub fn handle_create_folder(&mut self, parts: &Vec<String>, files: Vec<FileScan>) -> (r:
        Result<(), StoreError>)
        requires
            old(self).wf(),
        ensures
            final(self).wf(),
            old(self).delivered@.len() <= final(self).delivered@.len(),
            final(self).delivered@.take(old(self).delivered@.len() as int) == old(self).delivered@,
            parts@.len() != 1 ==> r is Ok && final(self).files@ == old(self).files@ && final(self).delivered@ == old(self).delivered@,
            (parts@.len() == 1 ==> ((r is Ok <==> spec_load(
                Seq::<FileView>::empty(),
                scans_view(files@),
            ) is Some))),
            (r matches Err(e) ==> e == StoreError::InvalidSegmentName && final(self).files@ == old(self).files@ && final(self).delivered@ == old(self).delivered@),
            (parts@.len() == 1 && r is Ok ==> (spec_load(Seq::<FileView>::empty(), scans_view(files@))
                matches Some(loaded) && ({
                let fr = fold_room(keys_of(old(self).files@), parts_view(parts@)[0], loaded);
                let added = fold_room_added(
                    keys_of(old(self).files@),
                    parts_view(parts@)[0],
                    loaded,
                );
                &&& keys_of(final(self).files@) == fr.0
                &&& final(self).delivered@ == old(self).delivered@ + fr.1
                &&& final(self).files@.len() == old(self).files@.len() + added.len()
                &&& final(self).files@.take(old(self).files@.len() as int) == old(self).files@
                &&& forall|j: int|
                    0 <= j < added.len() ==> ({
                        let t = #[trigger] final(self).files@[old(self).files@.len() + j];
                        &&& t.room@ == parts_view(parts@)[0]
                        &&& t.file@ == added[j].name
                        &&& follower_at_end(t.follower, added[j].content)
                    })
            }))),
    {
        proof {
            assert(self.delivered@.take(self.delivered@.len() as int) =~= self.delivered@);
        }
        if parts.len() != 1 {
            return Ok(());
        }
        let room_name = &parts[0];
        let room = match MatrixRoomDir::<Read>::new_reader(room_name.clone(), files) {
            Ok(room) => room,
            Err(e) => {
                return Err(e);
            },
        };
        let ghost loaded = room@.files;
        let segs = room.message_files();
        let nsegs = segs.len();
        let mut fi: usize = 0;
        let ghost files0 = self.files@;
        let ghost del0 = self.delivered@;
        while fi < nsegs
            invariant
                fi <= nsegs,
                nsegs == loaded.len(),
                self.wf(),
                room@.files == loaded,
                nsegs == room.files@.len(),
                forall|k: int| 0 <= k < nsegs ==> (#[trigger] room.files@[k])@ == loaded[k],
                room@.name == parts_view(parts@)[0],
                del0.len() <= self.delivered@.len(),
                self.delivered@.take(del0.len() as int) == del0,
                self.files@.len() == files0.len() + fold_room_added(
                    keys_of(files0),
                    parts_view(parts@)[0],
                    loaded.take(fi as int),
                ).len(),
                self.files@.take(files0.len() as int) == files0,
                forall|j: int|
                    0 <= j < fold_room_added(
                        keys_of(files0),
                        parts_view(parts@)[0],
                        loaded.take(fi as int),
                    ).len() ==> ({
                        let added = fold_room_added(
                            keys_of(files0),
                            parts_view(parts@)[0],
                            loaded.take(fi as int),
                        );
                        let t = #[trigger] self.files@[files0.len() + j];
                        &&& t.room@ == parts_view(parts@)[0]
                        &&& t.file@ == added[j].name
                        &&& follower_at_end(t.follower, added[j].content)
                    }),
                keys_of(self.files@) == fold_room(
                    keys_of(files0),
                    parts_view(parts@)[0],
                    loaded.take(fi as int),
                ).0,
                self.delivered@ == del0 + fold_room(
                    keys_of(files0),
                    parts_view(parts@)[0],
                    loaded.take(fi as int),
                ).1,
            decreases nsegs - fi,
        {
            let file = &segs[fi];
            let ghost pre_files = self.files@;
            let ghost pre_del = self.delivered@;
            proof {
                assert(parts_view(parts@)[0] == parts@[0]@);
                assert(file.name@ == loaded[fi as int].name);
            }
            proof {
                lemma_tracked_keys(self.files@, parts@[0]@, loaded[fi as int].name);
                assert(loaded.take(fi + 1).drop_last() =~= loaded.take(fi as int));
                assert(loaded.take(fi + 1).last() == loaded[fi as int]);
            }
            if self.find_tracked_bytes(room_name.as_str(), file.name.as_slice()).is_some() {
                // already tracking this segment: ignore it
            } else {
                let mut follower = file.messages(true);
                emit_events_from_follower(&mut follower, &mut self.handler);
                let entry = TrackedFile {
                    room: room_name.clone(),
                    file: slice_to_vec(file.name.as_slice()),
                    follower,
                };
                let ghost enew = entry;
                self.files.push(entry);
                proof {
                    assert(self.files@ == pre_files.push(enew));
                    assert(Seq::<Seq<u8>>::empty() + utf8_prefix(lines_of(loaded[fi as int].content))
                        =~= emitted_of(loaded[fi as int].content));
                    assert(follower_at_end(enew.follower, loaded[fi as int].content));
                    self.delivered@ = self.delivered@ + emitted_of(loaded[fi as int].content);
                    assert(self.files@.take(pre_files.len() as int) =~= pre_files);
                    assert(self.files@.take(files0.len() as int) =~= files0);
                    assert(self.delivered@.take(pre_del.len() as int) =~= pre_del);
                    lemma_take_prefix_chain(del0, pre_del, self.delivered@);
                    assert(keys_of(self.files@) =~= keys_of(pre_files).push(
                        (parts@[0]@, loaded[fi as int].name),
                    ));
                    assert(del0 + (fold_room(
                        keys_of(files0),
                        parts_view(parts@)[0],
                        loaded.take(fi as int),
                    ).1 + emitted_of(loaded[fi as int].content)) =~= (del0 + fold_room(
                        keys_of(files0),
                        parts_view(parts@)[0],
                        loaded.take(fi as int),
                    ).1) + emitted_of(loaded[fi as int].content));
                }
            }
            fi = fi + 1;
        }
        proof {
            assert(loaded.take(nsegs as int) =~= loaded);
        }
        Ok(())
    }

    /// Finds the entry tracking the given room and file name, the file given
    /// as bytes.
    fn find_tracked_bytes(&self, room: &str, file: &[u8]) -> (r: Option<usize>)
        ensures
            (r matches Some(i) ==> i < self.files@.len() && tracked_idx(
                self.files@,
                room@,
                file@,
            ) == i as int),
            (r is None ==> tracked_idx(self.files@, room@, file@) == -1),
    {
        let n = self.files.len();
        let mut i: usize = 0;
        while i < n
            invariant
                i <= n,
                n == self.files@.len(),
                forall|j: int|
                    0 <= j < i ==> !((#[trigger] self.files@[j]).room@ == room@
                        && self.files@[j].file@ == file@),
            decreases n - i,
        {
            let same_room = bytes_eq(self.files[i].room.as_str().as_bytes(), room.as_bytes());
            let same_file = bytes_eq(self.files[i].file.as_slice(), file);
            if same_room && same_file {
                proof {
                    lemma_encode_utf8_injective(self.files@[i as int].room@, room@);
                    lemma_tracked_idx_at(self.files@, room@, file@, i as int);
                }
                return Some(i);
            }
            proof {
                if self.files@[i as int].room@ == room@ && self.files@[i as int].file@ == file@ {
                    assert(encode_utf8(self.files@[i as int].room@) == encode_utf8(room@));
                    assert(false);
                }
            }
            i = i + 1;
        }
        proof {
            lemma_tracked_idx_at(self.files@, room@, file@, -1);
        }
        None
    }

    /// A data modification on a tracked path advances that follower: the new
    /// bytes are fed in and every newly completed decodable line is
    /// delivered. An untracked path is ignored.
    pub fn handle_modify(&mut self, parts: &Vec<String>, appended: Vec<u8>)
        requires
            old(self).wf(),
        ensures
            final(self).wf(),
            old(self).delivered@.len() <= final(self).delivered@.len(),
            final(self).delivered@.take(old(self).delivered@.len() as int) == old(self).delivered@,
            data_modified(
                old(self).files@,
                old(self).delivered@,
                final(self).files@,
                final(self).delivered@,
                parts_view(parts@),
                appended@,
            ),
    {
        proof {
            assert(self.delivered@.take(self.delivered@.len() as int) =~= self.delivered@);
        }
        if parts.len() != 2 {
            return ;
        }
        let room = &parts[0];
        let file = &parts[1];
        let i = match self.find_tracked(room.as_str(), file.as_str()) {
            Some(i) => i,
            None => {
                return ;
            },
        };
        let ghost files0 = self.files@;
        let ghost del0 = self.delivered@;
        let mut entry = self.files.remove(i);
        let n: usize = appended.len();
        if entry.follower.nfed > u64::MAX - (n as u64) {
            // the follower's offset range is exhausted: leave the entry as it
            // stands and ignore the growth
            self.files.insert(i, entry);
            proof {
                assert(self.files@ =~= files0);
            }
            return ;
        }
        let ghost fl0 = entry.follower;
        entry.follower.feed(appended.as_slice());
        if !entry.follower.closed {
            emit_events_from_follower(&mut entry.follower, &mut self.handler);
            proof {
                self.delivered@ = self.delivered@ + utf8_prefix(lines_of(fl0.buf@ + appended@));
                assert(self.delivered@.take(del0.len() as int) =~= del0);
            }
        }
        let ghost efinal = entry;
        self.files.insert(i, entry);
        proof {
            assert(self.files@ =~= files0.update(i as int, efinal));
        }
    }

    /// Dispatches one filesystem notification. A notification whose sole
    /// path is the lock marker file is ignored. Created files and
    /// directories, and data modifications, go to their handlers, path by
    /// path in order; a path whose data was not read as the kind asks is
    /// ignored. A removal is not supported: it raises an explicit error
    /// rather than silently dropping tracked state.
    #[verifier::loop_isolation(false)]
    pub fn handle_event(&mut self, kind: NotifyKind, paths: Vec<NotifiedPath>) -> (r: Result<
        (),
        StoreError,
    >)
        requires
            old(self).wf(),
        ensures
            final(self).wf(),
            final(self).delivered@.take(old(self).delivered@.len() as int) == old(self).delivered@,
            old(self).delivered@.len() <= final(self).delivered@.len(),
            is_lock_path(paths@) ==> r is Ok && final(self).files@ == old(self).files@ && final(self).delivered@ == old(self).delivered@,
            (!is_lock_path(paths@) && (kind is RemoveFile || kind is RemoveFolder)) ==> (r
                == Err::<(), StoreError>(StoreError::RemovalUnsupported) && final(self).files@
                == old(self).files@ && final(self).delivered@ == old(self).delivered@),
            kind is Other ==> r is Ok && final(self).files@ == old(self).files@ && final(self).delivered@ == old(self).delivered@,
            (r matches Err(e) ==> e == StoreError::RemovalUnsupported || e
                == StoreError::InvalidSegmentName),
            (kind is CreateFile || kind is ModifyData || kind is Other) ==> r is Ok,
            ((!is_lock_path(paths@) && kind is CreateFolder) ==> (r is Ok <==> forall|k: int|
                0 <= k < paths@.len() ==> !folder_path_fails(#[trigger] paths@[k]))),
            (!is_lock_path(paths@) && paths@.len() == 1 && r is Ok && !(kind is RemoveFile) && !(
            kind is RemoveFolder) ==> event_effect(
                kind,
                old(self).files@,
                old(self).delivered@,
                final(self).files@,
                final(self).delivered@,
                paths@[0],
            )),
            ((!is_lock_path(paths@) && r is Ok && !(kind is RemoveFile) && !(kind is RemoveFolder)
                && !(kind is Other)) ==> (exists|chain: Seq<(Seq<TrackedFile>, Seq<Seq<u8>>)>|
                {
                    &&& #[trigger] chain_effect(
                        kind,
                        old(self).files@,
                        old(self).delivered@,
                        paths@,
                        chain,
                    )
                    &&& (chain.len() == 0 ==> final(self).files@ == old(self).files@ && final(self).delivered@ == old(self).delivered@)
                    &&& (chain.len() > 0 ==> final(self).files@ == chain.last().0 && final(self).delivered@ == chain.last().1)
                })),
    {
        if paths.len() == 1 {
            let p0 = &paths[0];
            if p0.parts.len() == 1 {
                if bytes_eq(p0.parts[0].as_str().as_bytes(), "lock.pid".as_bytes()) {
                    proof {
                        lemma_encode_utf8_injective(paths@[0].parts@[0]@, "lock.pid"@);
                        assert(parts_view(paths@[0].parts@) =~= seq!["lock.pid"@]);
                        assert(self.delivered@.take(self.delivered@.len() as int)
                            =~= self.delivered@);
                    }
                    return Ok(());
                }
            }
        }
        proof {
            if is_lock_path(paths@) {
                assert(parts_view(paths@[0].parts@)[0] == paths@[0].parts@[0]@);
                assert(paths@[0].parts@[0]@ == "lock.pid"@);
            }
            assert(self.delivered@.take(self.delivered@.len() as int) =~= self.delivered@);
        }
        match kind {
            NotifyKind::RemoveFile => {
                return Err(StoreError::RemovalUnsupported);
            },
            NotifyKind::RemoveFolder => {
                return Err(StoreError::RemovalUnsupported);
            },
            NotifyKind::Other => {
                return Ok(());
            },
            _ => {},
        }
        let ghost files_start = self.files@;
        let ghost del_start = self.delivered@;
        let ghost orig = paths@;
        let ghost mut chain: Seq<(Seq<TrackedFile>, Seq<Seq<u8>>)> = Seq::empty();
        let mut rest = paths;
        while rest.len() > 0
            invariant
                self.wf(),
                self.delivered@.take(del_start.len() as int) == del_start,
                del_start.len() <= self.delivered@.len(),
                chain.len() + rest@.len() == orig.len(),
                rest@ == orig.skip(chain.len() as int),
                chain_effect(kind, files_start, del_start, orig.take(chain.len() as int), chain),
                kind is CreateFolder ==> forall|k: int|
                    0 <= k < chain.len() ==> !folder_path_fails(#[trigger] orig[k]),
                chain.len() == 0 ==> self.files@ == files_start && self.delivered@ == del_start,
                chain.len() > 0 ==> self.files@ == chain.last().0 && self.delivered@
                    == chain.last().1,
            decreases rest@.len(),
        {
            let ghost pre_files = self.files@;
            let ghost pre_del = self.delivered@;
            let ghost k = chain.len() as int;
            let p = rest.remove(0);
            proof {
                assert(orig.skip(k)[0] == orig[k]);
                assert(p == orig[k]);
                assert(orig.skip(k).drop_first() =~= orig.skip(k + 1));
            }
            match kind {
                NotifyKind::CreateFile => {
                    match p.data {
                        PathData::FileContent(c) => {
                            self.handle_create_file(&p.parts, c);
                        },
                        _ => {},
                    }
                },
                NotifyKind::CreateFolder => {
                    match p.data {
                        PathData::RoomFiles(fs) => {
                            match self.handle_create_folder(&p.parts, fs) {
                                Ok(()) => {},
                                Err(e) => {
                                    proof {
                                        assert(self.delivered@.take(pre_del.len() as int)
                                            =~= pre_del);
                                        lemma_take_prefix_chain(
                                            del_start,
                                            pre_del,
                                            self.delivered@,
                                        );
                                    }
                                    return Err(e);
                                },
                            }
                        },
                        _ => {},
                    }
                },
                NotifyKind::ModifyData => {
                    match p.data {
                        PathData::Appended(c) => {
                            self.handle_modify(&p.parts, c);
                        },
                        _ => {},
                    }
                },
                _ => {},
            }
            proof {
                assert(self.delivered@.take(pre_del.len() as int) =~= pre_del);
                lemma_take_prefix_chain(del_start, pre_del, self.delivered@);
                lemma_chain_snoc(
                    kind,
                    files_start,
                    del_start,
                    orig,
                    chain,
                    self.files@,
                    self.delivered@,
                );
                chain = chain.push((self.files@, self.delivered@));
            }
        }
        proof {
            assert(orig.take(chain.len() as int) =~= orig);
            assert(chain_effect(kind, files_start, del_start, orig, chain));
        }
        Ok(())
    }
}

/// Whether a notified path sinks a directory-created dispatch: it names a
/// new room whose scan does not load.
pub open spec fn folder_path_fails(p: NotifiedPath) -> bool {
    match p.data {
        PathData::RoomFiles(fs) => parts_view(p.parts@).len() == 1 && spec_load(
            Seq::<FileView>::empty(),
            scans_view(fs@),
        ) is None,
        _ => false,
    }
}

/// The move one notified path makes on the tracked state, by notification
/// kind; a path whose data was not read as the kind asks moves nothing.
pub open spec fn event_effect(
    kind: NotifyKind,
    files0: Seq<TrackedFile>,
    del0: Seq<Seq<u8>>,
    files1: Seq<TrackedFile>,
    del1: Seq<Seq<u8>>,
    p: NotifiedPath,
) -> bool {
    match kind {
        NotifyKind::CreateFile => match p.data {
            PathData::FileContent(c) => file_created(
                files0,
                del0,
                files1,
                del1,
                parts_view(p.parts@),
                c@,
            ),
            _ => files1 == files0 && del1 == del0,
        },
        NotifyKind::CreateFolder => match p.data {
            PathData::RoomFiles(fs) => {
                if parts_view(p.parts@).len() == 1 {
                    spec_load(Seq::<FileView>::empty(), scans_view(fs@)) matches Some(loaded) && {
                        let fr = fold_room(keys_of(files0), parts_view(p.parts@)[0], loaded);
                        let added = fold_room_added(
                            keys_of(files0),
                            parts_view(p.parts@)[0],
                            loaded,
                        );
                        &&& keys_of(files1) == fr.0
                        &&& del1 == del0 + fr.1
                        &&& files1.len() == files0.len() + added.len()
                        &&& files1.take(files0.len() as int) == files0
                        &&& forall|j: int|
                            0 <= j < added.len() ==> ({
                                let t = #[trigger] files1[files0.len() + j];
                                &&& t.room@ == parts_view(p.parts@)[0]
                                &&& t.file@ == added[j].name
                                &&& follower_at_end(t.follower, added[j].content)
                            })
                    }
                } else {
                    files1 == files0 && del1 == del0
                }
            },
            _ => files1 == files0 && del1 == del0,
        },
        NotifyKind::ModifyData => match p.data {
            PathData::Appended(c) => data_modified(
                files0,
                del0,
                files1,
                del1,
                parts_view(p.parts@),
                c@,
            ),
            _ => files1 == files0 && del1 == del0,
        },
        _ => files1 == files0 && del1 == del0,
    }
}

/// The tracking keys: for each tracked entry, its room name and file name.
pub open spec fn keys_of(files: Seq<TrackedFile>) -> Seq<(Seq<char>, Seq<u8>)> {
    files.map_values(|t: TrackedFile| (t.room@, t.file@))
}

/// Index of a key among the tracking keys, or -1.
pub open spec fn key_idx(keys: Seq<(Seq<char>, Seq<u8>)>, room: Seq<char>, file: Seq<u8>) -> int
    decreases keys.len(),
{
    if keys.len() == 0 {
        -1
    } else if keys[0].0 == room && keys[0].1 == file {
        0
    } else if key_idx(keys.drop_first(), room, file) < 0 {
        -1
    } else {
        1 + key_idx(keys.drop_first(), room, file)
    }
}

/// Looking a path up among the entries is looking its key up among the keys.
pub proof fn lemma_tracked_keys(files: Seq<TrackedFile>, room: Seq<char>, file: Seq<u8>)
    ensures
        tracked_idx(files, room, file) == key_idx(keys_of(files), room, file),
    decreases files.len(),
{
    if files.len() == 0 {
    } else {
        assert(keys_of(files).drop_first() =~= keys_of(files.drop_first()));
        lemma_tracked_keys(files.drop_first(), room, file);
    }
}

/// How loading a new room moves the tracked state, segment by segment in
/// ascending start order: an already-tracked segment is left alone; any
/// other is replayed — its records delivered — and its key is tracked from
/// then on. Returns the keys afterwards and the records delivered.
pub open spec fn fold_room(
    keys: Seq<(Seq<char>, Seq<u8>)>,
    room: Seq<char>,
    loaded: Seq<FileView>,
) -> (Seq<(Seq<char>, Seq<u8>)>, Seq<Seq<u8>>)
    decreases loaded.len(),
{
    if loaded.len() == 0 {
        (keys, seq![])
    } else {
        let prev = fold_room(keys, room, loaded.drop_last());
        if key_idx(prev.0, room, loaded.last().name) >= 0 {
            prev
        } else {
            (
                prev.0.push((room, loaded.last().name)),
                prev.1 + emitted_of(loaded.last().content),
            )
        }
    }
}

/// The segments a new room's load actually tracks: the loaded files, in
/// ascending start order, that were not already tracked when their turn
/// came.
pub open spec fn fold_room_added(
    keys: Seq<(Seq<char>, Seq<u8>)>,
    room: Seq<char>,
    loaded: Seq<FileView>,
) -> Seq<FileView>
    decreases loaded.len(),
{
    if loaded.len() == 0 {
        seq![]
    } else {
        let prevk = fold_room(keys, room, loaded.drop_last()).0;
        let prev = fold_room_added(keys, room, loaded.drop_last());
        if key_idx(prevk, room, loaded.last().name) >= 0 {
            prev
        } else {
            prev.push(loaded.last())
        }
    }
}

/// The moves a whole notification makes: `chain[k]` is the tracked state and
/// the delivered records after the k'th notified path, each step moving by
/// `event_effect` from the one before, paths handled front to back.
pub open spec fn chain_effect(
    kind: NotifyKind,
    files0: Seq<TrackedFile>,
    del0: Seq<Seq<u8>>,
    paths: Seq<NotifiedPath>,
    chain: Seq<(Seq<TrackedFile>, Seq<Seq<u8>>)>,
) -> bool
    decreases paths.len(),
{
    &&& chain.len() == paths.len()
    &&& (paths.len() > 0 ==> event_effect(kind, files0, del0, chain[0].0, chain[0].1, paths[0])
        && chain_effect(kind, chain[0].0, chain[0].1, paths.drop_first(), chain.drop_first()))
}

/// One more handled path extends the chain.
proof fn lemma_chain_snoc(
    kind: NotifyKind,
    files0: Seq<TrackedFile>,
    del0: Seq<Seq<u8>>,
    paths: Seq<NotifiedPath>,
    chain: Seq<(Seq<TrackedFile>, Seq<Seq<u8>>)>,
    f1: Seq<TrackedFile>,
    d1: Seq<Seq<u8>>,
)
    requires
        chain.len() < paths.len(),
        chain_effect(kind, files0, del0, paths.take(chain.len() as int), chain),
        event_effect(
            kind,
            if chain.len() == 0 {
                files0
            } else {
                chain.last().0
            },
            if chain.len() == 0 {
                del0
            } else {
                chain.last().1
            },
            f1,
            d1,
            paths[chain.len() as int],
        ),
    ensures
        chain_effect(kind, files0, del0, paths.take(chain.len() as int + 1), chain.push((f1, d1))),
    decreases chain.len(),
{
    reveal_with_fuel(chain_effect, 3);
    let k = chain.len() as int;
    if k == 0 {
        assert(paths.take(1)[0] == paths[0]);
        assert(paths.take(1).drop_first() =~= Seq::<NotifiedPath>::empty());
        assert(chain.push((f1, d1)).drop_first() =~= Seq::<(
            Seq<TrackedFile>,
            Seq<Seq<u8>>,
        )>::empty());
        assert(chain.push((f1, d1))[0] == (f1, d1));
        assert(chain_effect(
            kind,
            chain.push((f1, d1))[0].0,
            chain.push((f1, d1))[0].1,
            paths.take(1).drop_first(),
            chain.push((f1, d1)).drop_first(),
        ));
    } else {
        assert(paths.take(k)[0] == paths[0]);
        assert(paths.take(k).drop_first() =~= paths.drop_first().take(k - 1));
        assert(chain.drop_first().len() == k - 1);
        assert(paths.drop_first()[k - 1] == paths[k]);
        if k - 1 > 0 {
            assert(chain.drop_first().last() == chain.last());
        }
        lemma_chain_snoc(
            kind,
            chain[0].0,
            chain[0].1,
            paths.drop_first(),
            chain.drop_first(),
            f1,
            d1,
        );
        assert(paths.take(k + 1)[0] == paths[0]);
        assert(paths.take(k + 1).drop_first() =~= paths.drop_first().take(k));
        assert(chain.push((f1, d1)).drop_first() =~= chain.drop_first().push((f1, d1)));
        assert(chain.push((f1, d1))[0] == chain[0]);
        assert(chain_effect(
            kind,
            chain.push((f1, d1))[0].0,
            chain.push((f1, d1))[0].1,
            paths.take(k + 1).drop_first(),
            chain.push((f1, d1)).drop_first(),
        ));
    }
}

/// Within one event, the delivered records only grow.
proof fn lemma_take_prefix_chain(a: Seq<Seq<u8>>, b: Seq<Seq<u8>>, c: Seq<Seq<u8>>)
    requires
        a.len() <= b.len(),
        b.take(a.len() as int) == a,
        b.len() <= c.len(),
        c.take(b.len() as int) == b,
    ensures
        a.len() <= c.len(),
        c.take(a.len() as int) == a,
{
    assert(c.take(a.len() as int) =~= a);
}

} // verus!
