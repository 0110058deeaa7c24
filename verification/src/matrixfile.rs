//! One segment: an append-only file of delimiter-terminated records.
//!
//! `MatrixFile` models a segment as the bytes known to the handle; the
//! unverified shell keeps the on-disk file in step with it. A
//! `FileMessageIterator` is a follower: a read cursor with a line-assembly
//! buffer, fed bytes incrementally and polled for complete lines.

use vstd::prelude::*;
use vstd::slice::{slice_subrange, slice_to_vec};
use vstd::utf8::{decode_utf8, valid_utf8};

use crate::codec::{
    decode_line, lemma_split_append, lemma_split_first_line, lemma_split_no_delim, lines_of,
    tail_of, FollowStep, DELIM,
};
use crate::read_write::{Read, ReaderWriter, Write};

verus! {

/// Appends every byte of `src` to `dst`.
pub fn push_bytes(dst: &mut Vec<u8>, src: &[u8])
    ensures
        final(dst)@ == old(dst)@ + src@,
{
    let mut i: usize = 0;
    while i < src.len()
        invariant
            i <= src.len(),
            dst@ == old(dst)@ + src@.take(i as int),
        decreases src.len() - i,
    {
        let b = *vstd::slice::slice_index_get(src, i);
        dst.push(b);
        proof {
            assert(old(dst)@ + src@.take(i as int) + seq![src@[i as int]] =~= old(dst)@
                + src@.take(i + 1));
        }
        i = i + 1;
    }
    proof {
        assert(src@.take(src@.len() as int) =~= src@);
    }
}

/// One segment file. Its name's stem is the decimal start timestamp; its
/// content is the byte sequence known to this handle. The capability
/// parameter fixes the handle as read-only or append-only.
pub struct MatrixFile<RW> {
    /// File name within its room, extension included, as bytes.
    pub name: Vec<u8>,
    /// Start timestamp: the value of the file name's decimal stem.
    pub start: u128,
    /// The segment's bytes, as known to this handle.
    pub content: Vec<u8>,
    /// Capability marker; carries no data.
    pub rw: core::marker::PhantomData<RW>,
}

/// What a segment handle is, mathematically.
pub struct FileView {
    pub name: Seq<u8>,
    pub start: u128,
    pub content: Seq<u8>,
}

impl<RW> View for MatrixFile<RW> {
    type V = FileView;

    open spec fn view(&self) -> FileView {
        FileView { name: self.name@, start: self.start, content: self.content@ }
    }
}

impl MatrixFile<Read> {
    /// Opens a read-only handle on a segment whose current bytes are given.
    pub fn new_reader(name: Vec<u8>, start: u128, content: Vec<u8>) -> (r: Self)
        ensures
            r.name == name,
            r.start == start,
            r.content == content,
    {
        MatrixFile { name, start, content, rw: core::marker::PhantomData }
    }

    /// A fresh line sequence over the segment's current bytes. In follow
    /// mode, exhausting the bytes yields a pending marker instead of ending.
    pub fn messages(&self, follow: bool) -> (r: FileMessageIterator)
        ensures
            r.wf(),
            r.fed@ == self.content@,
            r.buf@ == self.content@,
            r.done@ == Seq::<Seq<u8>>::empty(),
            r.follow == follow,
            !r.closed,
    {
        let mut it = FileMessageIterator::new(follow);
        let n: usize = self.content.len();
        assert(n <= u64::MAX);
        it.feed(self.content.as_slice());
        proof {
            assert(Seq::<u8>::empty() + self.content@ =~= self.content@);
        }
        it
    }
}

impl MatrixFile<Write> {
    /// Opens an append-only handle on a segment whose current bytes are given
    /// (empty for a segment created by this call).
    pub fn new_writer(name: Vec<u8>, start: u128, content: Vec<u8>) -> (r: Self)
        ensures
            r.name == name,
            r.start == start,
            r.content == content,
    {
        MatrixFile { name, start, content, rw: core::marker::PhantomData }
    }

    /// Appends raw bytes at end of segment. The caller supplies any trailing
    /// delimiter; nothing is added or checked here.
    pub fn append(&mut self, bytes: &[u8])
        ensures
            final(self).content@ == old(self).content@ + bytes@,
            final(self).name == old(self).name,
            final(self).start == old(self).start,
    {
        push_bytes(&mut self.content, bytes);
    }
}

impl<RW: ReaderWriter> MatrixFile<RW> {
    /// Current length of the segment in bytes.
    pub fn size(&self) -> (r: u64)
        ensures
            r == self.content@.len(),
    {
        self.content.len() as u64
    }
}

/// A follower over one segment: buffered bytes not yet consumed, plus the
/// reading mode. Polling pops one complete line at a time; in follow mode,
/// running out of complete lines yields a pending marker, so the same
/// follower can be fed and polled again.
pub struct FileMessageIterator {
    /// Bytes fed but not yet consumed; always begins at a record boundary.
    pub buf: Vec<u8>,
    /// Whether exhaustion yields a pending marker instead of ending.
    pub follow: bool,
    /// Whether the sequence has ended for good.
    pub closed: bool,
    /// Total bytes ever fed: the read offset into the underlying segment.
    pub nfed: u64,
    /// All bytes ever fed.
    pub fed: Ghost<Seq<u8>>,
    /// The byte records delivered so far.
    pub done: Ghost<Seq<Seq<u8>>>,
}

impl FileMessageIterator {
    /// The buffer is the yet-unconsumed suffix of everything fed: the records
    /// delivered so far, followed by the records still in the buffer, are
    /// exactly the records fed, and every delivered record decoded.
    pub open spec fn wf(self) -> bool {
        &&& self.done@ + lines_of(self.buf@) == lines_of(self.fed@)
        &&& tail_of(self.fed@) == tail_of(self.buf@)
        &&& self.nfed == self.fed@.len()
        &&& forall|i: int| 0 <= i < self.done@.len() ==> valid_utf8(#[trigger] self.done@[i])
    }

    /// A fresh follower with nothing fed.
    pub fn new(follow: bool) -> (r: Self)
        ensures
            r.wf(),
            r.fed@ == Seq::<u8>::empty(),
            r.buf@ == Seq::<u8>::empty(),
            r.done@ == Seq::<Seq<u8>>::empty(),
            r.follow == follow,
            !r.closed,
            r.nfed == 0,
    {
        let r = FileMessageIterator {
            buf: Vec::new(),
            follow,
            closed: false,
            nfed: 0,
            fed: Ghost(Seq::empty()),
            done: Ghost(Seq::empty()),
        };
        proof {
            assert(r.done@ + lines_of(r.buf@) =~= lines_of(r.fed@));
        }
        r
    }

    /// Hands the follower bytes newly appended to its segment.
    pub fn feed(&mut self, chunk: &[u8])
        requires
            old(self).wf(),
            old(self).fed@.len() + chunk@.len() <= u64::MAX,
        ensures
            final(self).wf(),
            final(self).fed@ == old(self).fed@ + chunk@,
            final(self).buf@ == old(self).buf@ + chunk@,
            final(self).done == old(self).done,
            final(self).follow == old(self).follow,
            final(self).closed == old(self).closed,
            final(self).nfed == old(self).nfed + chunk@.len(),
    {
        let ghost old_fed = self.fed@;
        let ghost old_buf = self.buf@;
        push_bytes(&mut self.buf, chunk);
        self.nfed = self.nfed + chunk.len() as u64;
        proof {
            self.fed@ = old_fed + chunk@;
            lemma_split_append(old_fed, chunk@, Seq::empty());
            lemma_split_append(old_buf, chunk@, Seq::empty());
            assert(self.done@ + lines_of(self.buf@) =~= lines_of(self.fed@));
        }
    }

    /// Pops the next complete line. Yields the decoded line if one is
    /// buffered; otherwise a pending marker in follow mode, or the end of the
    /// sequence in non-follow mode. A line that fails to decode ends the
    /// sequence for good.
    pub fn next(&mut self) -> (r: FollowStep)
        requires
            old(self).wf(),
        ensures
            final(self).wf(),
            final(self).follow == old(self).follow,
            final(self).fed == old(self).fed,
            final(self).nfed == old(self).nfed,
            old(self).closed ==> r is End && *final(self) == *old(self),
            (!old(self).closed && lines_of(old(self).buf@).len() == 0) ==> {
                &&& final(self).done == old(self).done
                &&& final(self).buf == old(self).buf
                &&& (if old(self).follow {
                    r is Pending && !final(self).closed
                } else {
                    r is End && final(self).closed
                })
            },
            (!old(self).closed && lines_of(old(self).buf@).len() > 0 && valid_utf8(
                lines_of(old(self).buf@)[0],
            )) ==> {
                &&& (r matches FollowStep::Line(s) && s@ == decode_utf8(
                    lines_of(old(self).buf@)[0],
                ))
                &&& final(self).done@ == old(self).done@ + seq![lines_of(old(self).buf@)[0]]
                &&& lines_of(final(self).buf@) == lines_of(old(self).buf@).drop_first()
                &&& !final(self).closed
            },
            (!old(self).closed && lines_of(old(self).buf@).len() > 0 && !valid_utf8(
                lines_of(old(self).buf@)[0],
            )) ==> {
                &&& r is End
                &&& final(self).closed
                &&& final(self).done == old(self).done
                &&& final(self).buf == old(self).buf
            },
    {
        if self.closed {
            return FollowStep::End;
        }
        let n = self.buf.len();
        let mut i: usize = 0;
        while i < n && *vstd::slice::slice_index_get(self.buf.as_slice(), i) != DELIM
            invariant
                i <= n,
            n == self.buf@.len(),
                forall|j: int| 0 <= j < i ==> self.buf@[j] != DELIM,
            decreases n - i,
        {
            i = i + 1;
        }
        if i == n {
            proof {
                lemma_split_no_delim(self.buf@, Seq::empty());
            }
            if self.follow {
                FollowStep::Pending
            } else {
                self.closed = true;
                FollowStep::End
            }
        } else {
            proof {
                lemma_split_first_line(self.buf@, Seq::empty(), i as int);
                assert(Seq::<u8>::empty() + self.buf@.take(i as int) =~= self.buf@.take(i as int));
            }
            let ghost old_buf = self.buf@;
            let ghost old_done = self.done@;
            let line: Vec<u8> = slice_to_vec(slice_subrange(self.buf.as_slice(), 0, i));
            let rest: Vec<u8> = slice_to_vec(slice_subrange(self.buf.as_slice(), i + 1, n));
            proof {
                assert(line@ =~= old_buf.take(i as int));
                assert(rest@ =~= old_buf.skip(i as int + 1));
            }
            match decode_line(line) {
                Some(s) => {
                    self.buf = rest;
                    proof {
                        self.done@ = old_done + seq![old_buf.take(i as int)];
                        assert(self.done@ + lines_of(self.buf@) =~= lines_of(self.fed@));
                        assert(lines_of(self.buf@) =~= lines_of(old_buf).drop_first());
                    }
                    FollowStep::Line(s)
                },
                None => {
                    self.closed = true;
                    FollowStep::End
                },
            }
        }
    }
}

} // verus!
