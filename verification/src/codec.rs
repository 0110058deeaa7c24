//! Line framing over byte streams.
//!
//! Segment files hold delimiter-terminated opaque text records. This module
//! defines what the decoded line sequence of a byte stream is, proves the
//! round-trip law for it, and implements the stateful follower that pops
//! complete lines off an incrementally fed buffer.

use vstd::prelude::*;
use vstd::utf8::{decode_utf8, valid_utf8};

verus! {

/// The record delimiter: a newline byte.
pub const DELIM: u8 = 10;

/// The delimiter-terminated records of `acc + s`, where `acc` is the partial
/// record accumulated so far. Delimiters are stripped.
pub open spec fn split_lines(s: Seq<u8>, acc: Seq<u8>) -> Seq<Seq<u8>>
    decreases s.len(),
{
    if s.len() == 0 {
        seq![]
    } else if s[0] == DELIM {
        seq![acc] + split_lines(s.drop_first(), seq![])
    } else {
        split_lines(s.drop_first(), acc.push(s[0]))
    }
}

/// The partial record left after the last delimiter of `acc + s`.
pub open spec fn split_tail(s: Seq<u8>, acc: Seq<u8>) -> Seq<u8>
    decreases s.len(),
{
    if s.len() == 0 {
        acc
    } else if s[0] == DELIM {
        split_tail(s.drop_first(), seq![])
    } else {
        split_tail(s.drop_first(), acc.push(s[0]))
    }
}

/// The complete (delimiter-terminated) records of a byte stream, in order,
/// with the delimiters stripped.
pub open spec fn lines_of(s: Seq<u8>) -> Seq<Seq<u8>> {
    split_lines(s, seq![])
}

/// The unterminated remainder of a byte stream: everything after its last
/// delimiter, or the whole stream if it holds none.
pub open spec fn tail_of(s: Seq<u8>) -> Seq<u8> {
    split_tail(s, seq![])
}

/// Splitting distributes over concatenation: the lines of `a + b` are the
/// lines of `a` followed by the lines of `b` read with `a`'s unterminated
/// remainder prepended.
pub proof fn lemma_split_append(a: Seq<u8>, b: Seq<u8>, acc: Seq<u8>)
    ensures
        split_lines(a + b, acc) == split_lines(a, acc) + split_lines(b, split_tail(a, acc)),
        split_tail(a + b, acc) == split_tail(b, split_tail(a, acc)),
    decreases a.len(),
{
    if a.len() == 0 {
        assert(a + b =~= b);
        assert(split_lines(a, acc) + split_lines(b, split_tail(a, acc)) =~= split_lines(
            b,
            split_tail(a, acc),
        ));
    } else {
        assert((a + b)[0] == a[0]);
        assert((a + b).drop_first() =~= a.drop_first() + b);
        if a[0] == DELIM {
            lemma_split_append(a.drop_first(), b, seq![]);
            assert(seq![acc] + (split_lines(a.drop_first(), seq![]) + split_lines(
                b,
                split_tail(a.drop_first(), seq![]),
            )) =~= (seq![acc] + split_lines(a.drop_first(), seq![])) + split_lines(
                b,
                split_tail(a.drop_first(), seq![]),
            ));
        } else {
            lemma_split_append(a.drop_first(), b, acc.push(a[0]));
        }
    }
}

/// A stream without a delimiter decodes to no lines; all of it is remainder.
pub proof fn lemma_split_no_delim(s: Seq<u8>, acc: Seq<u8>)
    requires
        forall|j: int| 0 <= j < s.len() ==> s[j] != DELIM,
    ensures
        split_lines(s, acc) == Seq::<Seq<u8>>::empty(),
        split_tail(s, acc) == acc + s,
    decreases s.len(),
{
    if s.len() == 0 {
        assert(acc + s =~= acc);
    } else {
        lemma_split_no_delim(s.drop_first(), acc.push(s[0]));
        assert(acc.push(s[0]) + s.drop_first() =~= acc + s);
    }
}

/// If the first delimiter of `s` stands at index `k`, the first decoded line
/// is `acc` followed by the bytes before it, and the rest decodes on its own.
pub proof fn lemma_split_first_line(s: Seq<u8>, acc: Seq<u8>, k: int)
    requires
        0 <= k < s.len(),
        s[k] == DELIM,
        forall|j: int| 0 <= j < k ==> s[j] != DELIM,
    ensures
        split_lines(s, acc) == seq![acc + s.take(k)] + split_lines(s.skip(k + 1), seq![]),
        split_tail(s, acc) == split_tail(s.skip(k + 1), seq![]),
    decreases k,
{
    if k == 0 {
        assert(acc + s.take(0) =~= acc);
        assert(s.skip(1) =~= s.drop_first());
    } else {
        lemma_split_first_line(s.drop_first(), acc.push(s[0]), k - 1);
        assert(acc.push(s[0]) + s.drop_first().take(k - 1) =~= acc + s.take(k));
        assert(s.drop_first().skip(k) =~= s.skip(k + 1));
    }
}

/// One step of a line sequence: a decoded line, a "no data yet" marker
/// (follow mode only), or the end of the sequence.
pub enum FollowStep {
    Line(String),
    Pending,
    End,
}

/// A stream whose bytes all miss the delimiter, terminated by one delimiter,
/// decodes to exactly that record.
pub proof fn lemma_single_record(r: Seq<u8>)
    requires
        forall|j: int| 0 <= j < r.len() ==> r[j] != DELIM,
    ensures
        lines_of(r.push(DELIM)) == seq![r],
        tail_of(r.push(DELIM)) == Seq::<u8>::empty(),
{
    let s = r.push(DELIM);
    lemma_split_first_line(s, seq![], r.len() as int);
    assert(seq![] + s.take(r.len() as int) =~= r);
    assert(s.skip(r.len() as int + 1) =~= Seq::<u8>::empty());
    assert(seq![Seq::empty() + s.take(r.len() as int)] + split_lines(
        s.skip(r.len() as int + 1),
        seq![],
    ) =~= seq![r]);
}

/// The byte stream that holds the given records, each terminated by one
/// delimiter.
pub open spec fn terminated(rs: Seq<Seq<u8>>) -> Seq<u8>
    decreases rs.len(),
{
    if rs.len() == 0 {
        seq![]
    } else {
        rs[0].push(DELIM) + terminated(rs.drop_first())
    }
}

/// Whether a record may be framed: it holds no delimiter of its own.
pub open spec fn delim_free(r: Seq<u8>) -> bool {
    forall|j: int| 0 <= j < r.len() ==> r[j] != DELIM
}

/// Round trip: every delimiter-terminated byte sequence appended is returned
/// identically, minus the delimiter, by the decoded line sequence.
pub proof fn lemma_round_trip(rs: Seq<Seq<u8>>)
    requires
        forall|i: int| 0 <= i < rs.len() ==> delim_free(#[trigger] rs[i]),
    ensures
        lines_of(terminated(rs)) == rs,
        tail_of(terminated(rs)) == Seq::<u8>::empty(),
    decreases rs.len(),
{
    if rs.len() == 0 {
        assert(lines_of(terminated(rs)) =~= rs);
    } else {
        let first = rs[0].push(DELIM);
        lemma_split_append(first, terminated(rs.drop_first()), seq![]);
        lemma_single_record(rs[0]);
        lemma_round_trip(rs.drop_first());
        assert(seq![rs[0]] + rs.drop_first() =~= rs);
    }
}

/// A stream with no complete record is all remainder.
pub proof fn lemma_no_lines_all_tail(s: Seq<u8>, acc: Seq<u8>)
    requires
        split_lines(s, acc) == Seq::<Seq<u8>>::empty(),
    ensures
        split_tail(s, acc) == acc + s,
    decreases s.len(),
{
    if s.len() == 0 {
        assert(acc + s =~= acc);
    } else if s[0] == DELIM {
        assert(split_lines(s, acc)[0] == acc);
    } else {
        lemma_no_lines_all_tail(s.drop_first(), acc.push(s[0]));
        assert(acc.push(s[0]) + s.drop_first() =~= acc + s);
    }
}

/// A pending stream — one with no complete record — never ends there: the
/// records that more bytes complete are exactly those of the buffered
/// fragment joined to the new bytes. One appended, delimiter-terminated
/// record yields exactly the fragment-plus-record line.
pub proof fn lemma_pending_then_new_lines(b: Seq<u8>, c: Seq<u8>, r: Seq<u8>)
    requires
        lines_of(b).len() == 0,
        delim_free(r),
    ensures
        lines_of(b + c) == split_lines(c, b),
        c == r.push(DELIM) ==> lines_of(b + c) == seq![b + r],
{
    assert(lines_of(b) =~= Seq::<Seq<u8>>::empty());
    lemma_no_lines_all_tail(b, Seq::empty());
    assert(Seq::<u8>::empty() + b =~= b);
    lemma_split_append(b, c, Seq::empty());
    assert(Seq::<Seq<u8>>::empty() + split_lines(c, b) =~= split_lines(c, b));
    if c == r.push(DELIM) {
        lemma_split_first_line(c, b, r.len() as int);
        assert(b + c.take(r.len() as int) =~= b + r);
        assert(c.skip(r.len() as int + 1) =~= Seq::<u8>::empty());
        assert(seq![b + c.take(r.len() as int)] + split_lines(
            c.skip(r.len() as int + 1),
            seq![],
        ) =~= seq![b + r]);
    }
}

/// The longest prefix of a line sequence whose lines all decode as UTF-8.
/// A decoding failure is fatal to the sequence it strikes, so everything
/// after the first undecodable line is withheld.
pub open spec fn utf8_prefix(ls: Seq<Seq<u8>>) -> Seq<Seq<u8>>
    decreases ls.len(),
{
    if ls.len() == 0 {
        seq![]
    } else if valid_utf8(ls[0]) {
        seq![ls[0]] + utf8_prefix(ls.drop_first())
    } else {
        seq![]
    }
}

/// The lines a follower emits from a byte stream: the complete records, cut
/// short at the first one that fails to decode.
pub open spec fn emitted_of(s: Seq<u8>) -> Seq<Seq<u8>> {
    utf8_prefix(lines_of(s))
}

/// A wholly valid line sequence passes the UTF-8 cut through to whatever
/// follows it.
pub proof fn lemma_utf8_prefix_concat(a: Seq<Seq<u8>>, b: Seq<Seq<u8>>)
    requires
        forall|i: int| 0 <= i < a.len() ==> valid_utf8(#[trigger] a[i]),
    ensures
        utf8_prefix(a + b) == a + utf8_prefix(b),
    decreases a.len(),
{
    if a.len() == 0 {
        assert(a + b =~= b);
        assert(a + utf8_prefix(b) =~= utf8_prefix(b));
    } else {
        assert((a + b)[0] == a[0]);
        assert((a + b).drop_first() =~= a.drop_first() + b);
        lemma_utf8_prefix_concat(a.drop_first(), b);
        assert(seq![a[0]] + (a.drop_first() + utf8_prefix(b)) =~= a + utf8_prefix(b));
    }
}

/// Relies on `String::from_utf8`: it succeeds exactly on valid UTF-8 input,
/// and then returns the string those bytes encode.
#[verifier::external_body]
pub fn decode_line(bytes: Vec<u8>) -> (r: Option<String>)
    ensures
        r is Some <==> valid_utf8(bytes@),
        r matches Some(s) ==> s@ == decode_utf8(bytes@),
{
    String::from_utf8(bytes).ok()
}

} // verus!
