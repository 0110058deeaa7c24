//! The event store: a root directory holding one directory per room.
//!
//! A writer store owns the advisory lock; readers scan without locking.
//! Rooms are kept in byte-lexicographic name order — the order their
//! directory names sort in. Writes are routed to the named room, created on
//! first use.

use vstd::prelude::*;
use vstd::utf8::encode_utf8;

use crate::errors::StoreError;
use crate::lockfile::{LockFile, LockMarker};
use crate::matrixfile::FileView;
use crate::matrixroomdir::{
    files_sorted, room_data, scans_view, spec_load, spec_write_data, FileScan, MatrixRoomDir,
    RoomView, ScanView, WriteOutcome,
};
use crate::names::{
    bytes_eq, bytes_lt, lemma_lex_asym, lemma_lex_irrefl, lemma_lex_total, lemma_lex_trans,
    lex_lt,
};
use crate::read_write::{Read, ReaderWriter, Write};

verus! {

/// One room directory as found on disk: its name and the scan of its files.
pub struct RoomScan {
    pub name: String,
    pub files: Vec<FileScan>,
}

/// What a scanned room is, mathematically.
pub struct RoomScanView {
    pub name: Seq<char>,
    pub files: Seq<ScanView>,
}

impl View for RoomScan {
    type V = RoomScanView;

    open spec fn view(&self) -> RoomScanView {
        RoomScanView { name: self.name@, files: scans_view(self.files@) }
    }
}

/// The views of a sequence of scanned rooms.
pub open spec fn room_scans_view(s: Seq<RoomScan>) -> Seq<RoomScanView> {
    s.map_values(|sc: RoomScan| sc@)
}

/// Rooms stand in strictly ascending byte-lexicographic name order; in
/// particular no two rooms share a name.
pub open spec fn rooms_sorted(rooms: Seq<RoomView>) -> bool {
    forall|i: int, j: int|
        0 <= i < j < rooms.len() ==> lex_lt(
            encode_utf8(rooms[i].name),
            encode_utf8(rooms[j].name),
        )
}

/// Every room's segments stand in ascending start order.
pub open spec fn rooms_wf(rooms: Seq<RoomView>) -> bool {
    forall|i: int| 0 <= i < rooms.len() ==> files_sorted((#[trigger] rooms[i]).files)
}

/// Inserting a room into the ordered map: it takes its place in name order,
/// and a name already known has its room replaced by the fresh one.
pub open spec fn spec_insert_room(rooms: Seq<RoomView>, r: RoomView) -> Seq<RoomView>
    decreases rooms.len(),
{
    if rooms.len() == 0 {
        seq![r]
    } else if lex_lt(encode_utf8(r.name), encode_utf8(rooms[0].name)) {
        seq![r] + rooms
    } else if encode_utf8(r.name) == encode_utf8(rooms[0].name) {
        seq![r] + rooms.drop_first()
    } else {
        seq![rooms[0]] + spec_insert_room(rooms.drop_first(), r)
    }
}

/// Where the insertion lands, told from the neighbourhood of the position.
pub proof fn lemma_spec_insert_room_at(rooms: Seq<RoomView>, r: RoomView, i: int)
    requires
        0 <= i <= rooms.len(),
        forall|j: int|
            0 <= j < i ==> lex_lt(encode_utf8((#[trigger] rooms[j]).name), encode_utf8(r.name)),
        i < rooms.len() ==> !lex_lt(encode_utf8(rooms[i].name), encode_utf8(r.name)),
    ensures
        spec_insert_room(rooms, r) == if i < rooms.len() && encode_utf8(rooms[i].name)
            == encode_utf8(r.name) {
            rooms.update(i, r)
        } else {
            rooms.insert(i, r)
        },
    decreases i,
{
    let rb = encode_utf8(r.name);
    if rooms.len() == 0 {
        assert(rooms.insert(0, r) =~= seq![r]);
    } else if i == 0 {
        let hb = encode_utf8(rooms[0].name);
        if hb == rb {
            assert(seq![r] + rooms.drop_first() =~= rooms.update(0, r));
        } else {
            if !lex_lt(rb, hb) {
                lemma_lex_total(rb, hb);
            }
            assert(rooms.insert(0, r) =~= seq![r] + rooms);
        }
    } else {
        let hb = encode_utf8(rooms[0].name);
        assert(lex_lt(hb, rb));
        lemma_lex_asym(hb, rb);
        lemma_lex_irrefl(hb);
        assert(forall|j: int|
            0 <= j < i - 1 ==> lex_lt(
                encode_utf8((#[trigger] rooms.drop_first()[j]).name),
                rb,
            ) && rooms.drop_first()[j] == rooms[j + 1]);
        assert(i - 1 < rooms.drop_first().len() ==> rooms.drop_first()[i - 1] == rooms[i]);
        lemma_spec_insert_room_at(rooms.drop_first(), r, i - 1);
        if i - 1 < rooms.drop_first().len() && encode_utf8(rooms.drop_first()[i - 1].name) == rb {
            assert(seq![rooms[0]] + rooms.drop_first().update(i - 1, r) =~= rooms.update(i, r));
        } else {
            assert(seq![rooms[0]] + rooms.drop_first().insert(i - 1, r) =~= rooms.insert(i, r));
        }
    }
}

/// Loading one scanned room directory into a fresh room.
pub open spec fn spec_room_of_scan(sc: RoomScanView) -> Option<RoomView> {
    match spec_load(Seq::<FileView>::empty(), sc.files) {
        Some(fs) => Some(RoomView { name: sc.name, files: fs }),
        None => None,
    }
}

/// Folding a whole root scan into the room map, room by room; a freshly
/// scanned room replaces a known one of the same name.
pub open spec fn spec_load_rooms(rooms: Seq<RoomView>, scans: Seq<RoomScanView>) -> Option<
    Seq<RoomView>,
>
    decreases scans.len(),
{
    if scans.len() == 0 {
        Some(rooms)
    } else {
        match spec_room_of_scan(scans[0]) {
            Some(r) => spec_load_rooms(spec_insert_room(rooms, r), scans.drop_first()),
            None => None,
        }
    }
}

/// Index of the room with the given name, or -1 if none has it.
pub open spec fn room_idx(rooms: Seq<RoomView>, name: Seq<char>) -> int
    decreases rooms.len(),
{
    if rooms.len() == 0 {
        -1
    } else if rooms[0].name == name {
        0
    } else if room_idx(rooms.drop_first(), name) < 0 {
        -1
    } else {
        1 + room_idx(rooms.drop_first(), name)
    }
}

/// The room index, told from the neighbourhood of the position.
pub proof fn lemma_room_idx_at(rooms: Seq<RoomView>, name: Seq<char>, i: int)
    requires
        -1 <= i < rooms.len(),
        forall|j: int| 0 <= j < i ==> (#[trigger] rooms[j]).name != name,
        i >= 0 ==> rooms[i].name == name,
        i == -1 ==> forall|j: int| 0 <= j < rooms.len() ==> (#[trigger] rooms[j]).name != name,
    ensures
        room_idx(rooms, name) == i,
    decreases rooms.len(),
{
    if rooms.len() == 0 {
    } else if rooms[0].name == name {
    } else {
        lemma_room_idx_at(rooms.drop_first(), name, if i <= 0 {
            -1
        } else {
            i - 1
        });
    }
}

/// A found index carries the name it was found by.
pub proof fn lemma_room_idx_props(rooms: Seq<RoomView>, name: Seq<char>)
    ensures
        -1 <= room_idx(rooms, name) < rooms.len(),
        room_idx(rooms, name) >= 0 ==> rooms[room_idx(rooms, name)].name == name,
    decreases rooms.len(),
{
    if rooms.len() == 0 {
    } else if rooms[0].name == name {
    } else {
        lemma_room_idx_props(rooms.drop_first(), name);
    }
}

/// The outcome of routing one write through the store: whether the room was
/// created by this very write, and how its segment took the payload.
pub struct StoreWriteOutcome {
    pub room_created: bool,
    pub segment: WriteOutcome,
}

/// The event store: rooms in ascending name order, and — for a writer — the
/// advisory lock.
pub struct MatrixDir<RW> {
    /// The held advisory lock; a reader holds none.
    pub lockfile: Option<LockFile>,
    /// The rooms, ascending by byte-lexicographic name, names unique.
    pub rooms: Vec<MatrixRoomDir<RW>>,
}

/// What a store is, mathematically: its rooms.
pub struct DirView {
    pub rooms: Seq<RoomView>,
}

impl<RW> View for MatrixDir<RW> {
    type V = DirView;

    open spec fn view(&self) -> DirView {
        DirView { rooms: self.rooms@.map_values(|r: MatrixRoomDir<RW>| r@) }
    }
}

impl<RW: ReaderWriter> MatrixDir<RW> {
    /// Rooms in strict name order, each room well formed.
    pub open spec fn wf(self) -> bool {
        &&& rooms_sorted(self@.rooms)
        &&& rooms_wf(self@.rooms)
    }

    /// Puts one room into the map, replacing a room of the same name, and
    /// tells where it landed.
    fn insert_room(&mut self, room: MatrixRoomDir<RW>) -> (r: usize)
        requires
            old(self).wf(),
            files_sorted(room@.files),
        ensures
            final(self).wf(),
            final(self)@.rooms == spec_insert_room(old(self)@.rooms, room@),
            final(self).lockfile == old(self).lockfile,
            r < final(self)@.rooms.len(),
            final(self)@.rooms[r as int] == room@,
            room_idx(final(self)@.rooms, room@.name) == r as int,
    {
        let n = self.rooms.len();
        let mut i: usize = 0;
        while i < n && bytes_lt(self.rooms[i].name.as_str().as_bytes(), room.name.as_str().as_bytes())
            invariant
                i <= n,
                n == self.rooms@.len(),
                forall|j: int|
                    0 <= j < i ==> lex_lt(
                        encode_utf8((#[trigger] self.rooms@[j]).name@),
                        encode_utf8(room.name@),
                    ),
            decreases n - i,
        {
            i = i + 1;
        }
        proof {
            lemma_spec_insert_room_at(self@.rooms, room@, i as int);
        }
        let ghost oldrooms = self@.rooms;
        let ghost rname = room@.name;
        if i < n && bytes_eq(self.rooms[i].name.as_str().as_bytes(), room.name.as_str().as_bytes()) {
            // same name: the fresh room replaces the known one
            let _old = self.rooms.remove(i);
            self.rooms.insert(i, room);
            proof {
                assert(self@.rooms =~= oldrooms.update(i as int, room@));
                assert forall|j: int| 0 <= j < i implies (#[trigger] self@.rooms[j]).name
                    != rname by {
                    if self@.rooms[j].name == rname {
                        lemma_lex_irrefl(encode_utf8(rname));
                    }
                }
                lemma_room_idx_at(self@.rooms, rname, i as int);
            }
        } else {
            self.rooms.insert(i, room);
            proof {
                assert(self@.rooms =~= oldrooms.insert(i as int, room@));
                assert(self@.rooms =~= oldrooms.take(i as int) + seq![room@] + oldrooms.skip(
                    i as int,
                ));
                if i < n {
                    if !lex_lt(encode_utf8(room@.name), encode_utf8(oldrooms[i as int].name)) {
                        lemma_lex_total(
                            encode_utf8(oldrooms[i as int].name),
                            encode_utf8(room@.name),
                        );
                    }
                }
                assert forall|a: int, b: int|
                    0 <= a < b < self@.rooms.len() implies lex_lt(
                    encode_utf8(self@.rooms[a].name),
                    encode_utf8(self@.rooms[b].name),
                ) by {
                    let rs = self@.rooms;
                    if b < i {
                    } else if a > i {
                    } else if a == i {
                        assert(rs[b] == oldrooms[b - 1]);
                        if b - 1 > i as int {
                            lemma_lex_trans(
                                encode_utf8(room@.name),
                                encode_utf8(oldrooms[i as int].name),
                                encode_utf8(oldrooms[b - 1].name),
                            );
                        }
                    } else if b == i {
                        assert(rs[a] == oldrooms[a]);
                    } else {
                        assert(rs[a] == oldrooms[a]);
                        assert(rs[b] == oldrooms[b - 1]);
                    }
                }
                assert forall|j: int| 0 <= j < i implies (#[trigger] self@.rooms[j]).name
                    != rname by {
                    if self@.rooms[j].name == rname {
                        lemma_lex_irrefl(encode_utf8(rname));
                    }
                }
                lemma_room_idx_at(self@.rooms, rname, i as int);
            }
        }
        i
    }

    /// Loads one scanned room directory and puts it into the map.
    fn load_room(&mut self, scan: RoomScan) -> (r: Result<(), StoreError>)
        requires
            old(self).wf(),
        ensures
            final(self).wf(),
            final(self).lockfile == old(self).lockfile,
            (r is Ok <==> spec_room_of_scan(scan@) is Some),
            (r is Ok ==> (spec_room_of_scan(scan@) matches Some(room) && final(self)@.rooms
                == spec_insert_room(old(self)@.rooms, room))),
            (r matches Err(e) ==> e == StoreError::InvalidSegmentName && *final(self) == *old(
                self,
            )),
    {
        let RoomScan { name, files } = scan;
        match MatrixRoomDir::<RW>::new_scanned(name, files) {
            Ok(room) => {
                self.insert_room(room);
                Ok(())
            },
            Err(e) => Err(e),
        }
    }

    /// Re-scans the root: every scanned room directory is loaded and takes
    /// its place, replacing a previously known room of the same name. A
    /// segment file name without a decimal stem is fatal to the whole scan.
    #[verifier::loop_isolation(false)]
    pub fn reload_rooms(&mut self, scan: Vec<RoomScan>) -> (r: Result<(), StoreError>)
        requires
            old(self).wf(),
        ensures
            final(self).wf(),
            final(self).lockfile == old(self).lockfile,
            (r is Ok <==> spec_load_rooms(old(self)@.rooms, room_scans_view(scan@)) is Some),
            (r is Ok ==> Some(final(self)@.rooms) == spec_load_rooms(
                old(self)@.rooms,
                room_scans_view(scan@),
            )),
            (r matches Err(e) ==> e == StoreError::InvalidSegmentName),
    {
        let ghost orig_rooms = self@.rooms;
        let ghost orig_scans = room_scans_view(scan@);
        let mut scan = scan;
        while scan.len() > 0
            invariant
                self.wf(),
                self.lockfile == old(self).lockfile,
                spec_load_rooms(orig_rooms, orig_scans) == spec_load_rooms(
                    self@.rooms,
                    room_scans_view(scan@),
                ),
            decreases scan@.len(),
        {
            let ghost pre_scans = room_scans_view(scan@);
            let entry = scan.remove(0);
            proof {
                assert(room_scans_view(scan@) =~= pre_scans.drop_first());
                assert(pre_scans[0] == entry@);
            }
            match self.load_room(entry) {
                Ok(()) => {},
                Err(e) => {
                    return Err(e);
                },
            }
        }
        Ok(())
    }

    /// Finds the room with the given name.
    fn find_room(&self, name: &str) -> (r: Option<usize>)
        ensures
            (r matches Some(i) ==> i < self@.rooms.len() && room_idx(self@.rooms, name@)
                == i as int),
            (r is None ==> room_idx(self@.rooms, name@) == -1),
    {
        let n = self.rooms.len();
        let mut i: usize = 0;
        while i < n
            invariant
                i <= n,
                n == self.rooms@.len(),
                forall|j: int| 0 <= j < i ==> (#[trigger] self@.rooms[j]).name != name@,
            decreases n - i,
        {
            if bytes_eq(self.rooms[i].name.as_str().as_bytes(), name.as_bytes()) {
                proof {
                    crate::names::lemma_encode_utf8_injective(self@.rooms[i as int].name, name@);
                    lemma_room_idx_at(self@.rooms, name@, i as int);
                }
                return Some(i);
            }
            proof {
                assert(self@.rooms[i as int].name != name@);
            }
            i = i + 1;
        }
        proof {
            lemma_room_idx_at(self@.rooms, name@, -1);
        }
        None
    }

    /// The rooms, in ascending name order.
    pub fn rooms(&self) -> (r: &Vec<MatrixRoomDir<RW>>)
        ensures
            r == self.rooms,
    {
        &self.rooms
    }
}

impl MatrixDir<Write> {
    /// Opens the store for writing: takes the advisory lock — failing fast
    /// with an already-locked condition if a writer already holds it — and
    /// loads every scanned room. On any failure the lock is not left held.
    pub fn new_writer(marker: &mut LockMarker, scan: Vec<RoomScan>) -> (r: Result<
        MatrixDir<Write>,
        StoreError,
    >)
        ensures
            old(marker).present ==> r == Err::<MatrixDir<Write>, StoreError>(
                StoreError::AlreadyLocked,
            ) && final(marker).present,
            (!old(marker).present && spec_load_rooms(
                Seq::<RoomView>::empty(),
                room_scans_view(scan@),
            ) is Some) ==> (r matches Ok(dir) && dir.wf() && Some(dir@.rooms) == spec_load_rooms(
                Seq::<RoomView>::empty(),
                room_scans_view(scan@),
            ) && dir.lockfile is Some && final(marker).present),
            (!old(marker).present && spec_load_rooms(
                Seq::<RoomView>::empty(),
                room_scans_view(scan@),
            ) is None) ==> (r == Err::<MatrixDir<Write>, StoreError>(StoreError::InvalidSegmentName)
                && !final(marker).present),
    {
        let lockfile = match LockFile::try_create(marker) {
            Ok(lf) => lf,
            Err(e) => {
                return Err(e);
            },
        };
        let mut dir = MatrixDir::<Write> { lockfile: Some(lockfile), rooms: Vec::new() };
        proof {
            assert(dir@.rooms =~= Seq::<RoomView>::empty());
        }
        match dir.reload_rooms(scan) {
            Ok(()) => Ok(dir),
            Err(e) => {
                // release on the error path: the lock never outlives the open
                match dir.lockfile {
                    Some(lf) => {
                        lf.release(marker);
                    },
                    None => {},
                }
                Err(e)
            },
        }
    }

    /// Routes one event: looks the room up by name — creating it, empty, on
    /// first use — and lets it route the payload to the right segment.
    pub fn write_event(&mut self, event: &str, room_name: String, timestamp: u128) -> (r:
        StoreWriteOutcome)
        requires
            old(self).wf(),
        ensures
            final(self).wf(),
            final(self).lockfile == old(self).lockfile,
            r.room_created == (room_idx(old(self)@.rooms, room_name@) < 0),
            ({
                let rooms1 = if r.room_created {
                    spec_insert_room(
                        old(self)@.rooms,
                        RoomView { name: room_name@, files: Seq::<FileView>::empty() },
                    )
                } else {
                    old(self)@.rooms
                };
                let i = room_idx(rooms1, room_name@);
                &&& 0 <= i < rooms1.len()
                &&& final(self)@.rooms.len() == rooms1.len()
                &&& final(self)@.rooms == rooms1.update(i, final(self)@.rooms[i])
                &&& final(self)@.rooms[i].name == room_name@
                &&& room_data(final(self)@.rooms[i].files) == spec_write_data(
                    room_data(rooms1[i].files),
                    encode_utf8(event@),
                    timestamp,
                )
                &&& r.segment.created == (crate::matrixroomdir::floor_idx(
                    room_data(rooms1[i].files),
                    timestamp,
                ) < 0)
                &&& (r.segment.created ==> r.segment.start == timestamp && r.segment.name@
                    == final(self)@.rooms[i].files[0].name)
                &&& (!r.segment.created ==> r.segment.start == room_data(
                    rooms1[i].files,
                )[crate::matrixroomdir::floor_idx(room_data(rooms1[i].files), timestamp)].0
                    && r.segment.name@ == rooms1[i].files[crate::matrixroomdir::floor_idx(
                    room_data(rooms1[i].files),
                    timestamp,
                )].name)
            }),
    {
        let ghost rooms0 = self@.rooms;
        let has = self.find_room(room_name.as_str());
        let room_created = has.is_none();
        let i: usize = match has {
            Some(i) => i,
            None => {
                let fresh = MatrixRoomDir::<Write> { name: room_name.clone(), files: Vec::new() };
                proof {
                    assert(fresh@.files =~= Seq::<FileView>::empty());
                }
                self.insert_room(fresh)
            },
        };
        let ghost rooms1 = self@.rooms;
        proof {
            lemma_room_idx_props(rooms1, room_name@);
        }
        let mut room = self.rooms.remove(i);
        proof {
            assert(room@ == rooms1[i as int]);
            assert(files_sorted(room@.files));
            crate::matrixroomdir::lemma_floor_props(room_data(rooms1[i as int].files), timestamp);
        }
        let out = room.write_event(event, timestamp);
        self.rooms.insert(i, room);
        proof {
            assert(self@.rooms =~= rooms1.update(i as int, self@.rooms[i as int]));
            assert forall|a: int, b: int| 0 <= a < b < self@.rooms.len() implies lex_lt(
                encode_utf8(self@.rooms[a].name),
                encode_utf8(self@.rooms[b].name),
            ) by {
                assert(self@.rooms[a].name == rooms1[a].name);
                assert(self@.rooms[b].name == rooms1[b].name);
            }
        }
        StoreWriteOutcome { room_created, segment: out }
    }
}

impl MatrixDir<Write> {
    /// Closes the writer. The advisory lock is released on this exit path as
    /// on every other: afterwards the marker is gone.
    pub fn close(self, marker: &mut LockMarker)
        ensures
            self.lockfile is Some ==> !final(marker).present,
            self.lockfile is None ==> *final(marker) == *old(marker),
    {
        let MatrixDir { lockfile, rooms: _rooms } = self;
        match lockfile {
            Some(lf) => {
                lf.release(marker);
            },
            None => {},
        }
    }
}

impl MatrixDir<Read> {
    /// Opens the store for reading: loads every scanned room, taking no
    /// lock.
    pub fn new_reader(scan: Vec<RoomScan>) -> (r: Result<MatrixDir<Read>, StoreError>)
        ensures
            (r is Ok <==> spec_load_rooms(Seq::<RoomView>::empty(), room_scans_view(scan@))
                is Some),
            (r matches Ok(dir) ==> dir.wf() && Some(dir@.rooms) == spec_load_rooms(
                Seq::<RoomView>::empty(),
                room_scans_view(scan@),
            ) && dir.lockfile is None),
            (r matches Err(e) ==> e == StoreError::InvalidSegmentName),
    {
        let mut dir = MatrixDir::<Read> { lockfile: None, rooms: Vec::new() };
        proof {
            assert(dir@.rooms =~= Seq::<RoomView>::empty());
        }
        match dir.reload_rooms(scan) {
            Ok(()) => Ok(dir),
            Err(e) => Err(e),
        }
    }
}

} // verus!
