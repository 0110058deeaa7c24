//! Names on disk: segment file names and room names.
//!
//! A segment's file name has a decimal stem — its start timestamp — before an
//! optional extension. Rooms are kept in the byte-lexicographic order of
//! their names, the order their names sort in on disk listings.

use vstd::prelude::*;
use vstd::slice::slice_index_get;

verus! {

/// The byte that separates a file name's stem from its extension.
pub const DOT: u8 = 46;

/// Whether a byte is a decimal digit.
pub open spec fn is_digit(b: u8) -> bool {
    48 <= b <= 57
}

/// Whether a byte string is a plain decimal numeral: nonempty, digits only.
pub open spec fn is_dec(s: Seq<u8>) -> bool {
    s.len() > 0 && forall|i: int| 0 <= i < s.len() ==> is_digit(#[trigger] s[i])
}

/// The value of a decimal numeral.
pub open spec fn dec_val(s: Seq<u8>) -> int
    decreases s.len(),
{
    if s.len() == 0 {
        0
    } else {
        dec_val(s.drop_last()) * 10 + (s.last() - 48)
    }
}

/// A digit string's value is never negative.
pub proof fn lemma_dec_val_nonneg(s: Seq<u8>)
    requires
        forall|i: int| 0 <= i < s.len() ==> is_digit(#[trigger] s[i]),
    ensures
        dec_val(s) >= 0,
    decreases s.len(),
{
    if s.len() > 0 {
        lemma_dec_val_nonneg(s.drop_last());
    }
}

/// Reading more digits never shrinks the value.
pub proof fn lemma_dec_val_extend(s: Seq<u8>, k: int)
    requires
        0 <= k <= s.len(),
        forall|i: int| 0 <= i < s.len() ==> is_digit(#[trigger] s[i]),
    ensures
        dec_val(s) >= dec_val(s.take(k)),
    decreases s.len() - k,
{
    if k < s.len() {
        lemma_dec_val_nonneg(s.take(k));
        assert(s.take(k + 1).drop_last() =~= s.take(k));
        assert(dec_val(s.take(k + 1)) == dec_val(s.take(k)) * 10 + (s[k] - 48));
        lemma_dec_val_extend(s, k + 1);
    } else {
        assert(s.take(k) =~= s);
    }
}

/// Parses a plain decimal numeral. Returns its value exactly when the bytes
/// are all digits, at least one of them, and the value fits.
pub fn parse_decimal(s: &[u8]) -> (r: Option<u128>)
    ensures
        r is Some <==> (is_dec(s@) && dec_val(s@) <= u128::MAX),
        (r matches Some(v) ==> v == dec_val(s@)),
{
    let n = s.len();
    if n == 0 {
        return None;
    }
    let mut val: u128 = 0;
    let mut i: usize = 0;
    while i < n
        invariant
            i <= n,
            n == s@.len(),
            forall|j: int| 0 <= j < i ==> is_digit(#[trigger] s@[j]),
            val == dec_val(s@.take(i as int)),
        decreases n - i,
    {
        let b = *slice_index_get(s, i);
        if b < 48 || b > 57 {
            return None;
        }
        let d = (b - 48) as u128;
        proof {
            assert(s@.take(i + 1).drop_last() =~= s@.take(i as int));
        }
        if val > (u128::MAX - d) / 10 {
            proof {
                assert(val * 10 + d > u128::MAX) by (nonlinear_arith)
                    requires
                        val > (u128::MAX - d) / 10,
                        d <= 9,
                ;
                if is_dec(s@) {
                    lemma_dec_val_extend(s@, i + 1);
                }
            }
            return None;
        }
        val = val * 10 + d;
        i = i + 1;
    }
    proof {
        assert(s@.take(n as int) =~= s@);
    }
    Some(val)
}

/// Index of the last dot in a byte string, or -1 if it has none.
pub open spec fn find_last_dot(s: Seq<u8>) -> int
    decreases s.len(),
{
    if s.len() == 0 {
        -1
    } else if s.last() == DOT {
        s.len() - 1
    } else {
        find_last_dot(s.drop_last())
    }
}

/// The stem of a file name: the bytes before its last dot, or the whole name
/// if it has none.
pub open spec fn stem_of(s: Seq<u8>) -> Seq<u8> {
    if find_last_dot(s) >= 0 {
        s.take(find_last_dot(s))
    } else {
        s
    }
}

/// Where the last dot is, told from its neighbourhood.
pub proof fn lemma_find_last_dot_at(s: Seq<u8>, k: int)
    requires
        0 <= k < s.len(),
        s[k] == DOT,
        forall|j: int| k < j < s.len() ==> s[j] != DOT,
    ensures
        find_last_dot(s) == k,
    decreases s.len(),
{
    if k == s.len() - 1 {
    } else {
        lemma_find_last_dot_at(s.drop_last(), k);
    }
}

/// A dotless byte string has no last dot.
pub proof fn lemma_find_last_dot_none(s: Seq<u8>)
    requires
        forall|j: int| 0 <= j < s.len() ==> s[j] != DOT,
    ensures
        find_last_dot(s) == -1,
    decreases s.len(),
{
    if s.len() > 0 {
        lemma_find_last_dot_none(s.drop_last());
    }
}

/// The start timestamp a file name carries: the value of its decimal stem,
/// if the stem is a decimal numeral whose value fits.
pub open spec fn start_of_name(s: Seq<u8>) -> Option<int> {
    if is_dec(stem_of(s)) && dec_val(stem_of(s)) <= u128::MAX {
        Some(dec_val(stem_of(s)))
    } else {
        None
    }
}

/// Cuts a file name down to its stem.
pub fn stem_bytes(s: &[u8]) -> (r: &[u8])
    ensures
        r@ == stem_of(s@),
{
    let n = s.len();
    let mut i: usize = n;
    while i > 0 && *slice_index_get(s, i - 1) != DOT
        invariant
            i <= n,
            n == s@.len(),
            forall|j: int| i <= j < n ==> s@[j] != DOT,
        decreases i,
    {
        i = i - 1;
    }
    if i == 0 {
        proof {
            lemma_find_last_dot_none(s@);
        }
        s
    } else {
        proof {
            lemma_find_last_dot_at(s@, i - 1);
        }
        vstd::slice::slice_subrange(s, 0, i - 1)
    }
}

/// Parses a file name into the start timestamp its stem carries.
pub fn parse_start(name: &[u8]) -> (r: Option<u128>)
    ensures
        r is Some <==> start_of_name(name@) is Some,
        (r matches Some(v) ==> start_of_name(name@) == Some(v as int)),
{
    parse_decimal(stem_bytes(name))
}

/// Ten to the n'th.
pub open spec fn pow10(n: nat) -> int
    decreases n,
{
    if n == 0 {
        1
    } else {
        10 * pow10((n - 1) as nat)
    }
}

/// A digit in front raises the value by its weight.
pub proof fn lemma_dec_val_prepend(d: u8, s: Seq<u8>)
    ensures
        dec_val(seq![d] + s) == (d - 48) * pow10(s.len()) + dec_val(s),
    decreases s.len(),
{
    if s.len() == 0 {
        assert(seq![d] + s =~= seq![d]);
        assert(dec_val(seq![d]) == dec_val(seq![d].drop_last()) * 10 + (d - 48));
        assert(seq![d].drop_last() =~= Seq::<u8>::empty());
    } else {
        assert((seq![d] + s).drop_last() =~= seq![d] + s.drop_last());
        assert((seq![d] + s).last() == s.last());
        lemma_dec_val_prepend(d, s.drop_last());
        assert(((d - 48) * pow10(s.drop_last().len()) + dec_val(s.drop_last())) * 10 + (s.last()
            - 48) == (d - 48) * pow10(s.len()) + dec_val(s)) by (nonlinear_arith)
            requires
                pow10(s.len()) == 10 * pow10(s.drop_last().len()),
                dec_val(s) == dec_val(s.drop_last()) * 10 + (s.last() - 48),
                s.len() >= 1,
                s.drop_last().len() == s.len() - 1,
        ;
    }
}

/// Writes a value as its canonical decimal numeral: most significant digit
/// first, no leading zero.
pub fn u128_to_dec(v: u128) -> (r: Vec<u8>)
    ensures
        is_dec(r@),
        dec_val(r@) == v,
        v > 0 ==> r@[0] != 48,
        v == 0 ==> r@ == seq![48u8],
{
    let mut digits: Vec<u8> = Vec::new();
    if v == 0 {
        digits.push(48);
        assert(digits@ =~= seq![48u8]);
        proof {
            assert(seq![48u8].drop_last() =~= Seq::<u8>::empty());
            assert(dec_val(Seq::<u8>::empty()) == 0);
            assert(seq![48u8].last() == 48);
            assert(dec_val(seq![48u8]) == dec_val(seq![48u8].drop_last()) * 10 + (
            seq![48u8].last() - 48));
        }
        return digits;
    }
    let mut x: u128 = v;
    while x > 0
        invariant
            v == x * pow10(digits@.len()) + dec_val(digits@),
            forall|i: int| 0 <= i < digits@.len() ==> is_digit(#[trigger] digits@[i]),
            x == 0 ==> digits@.len() > 0 && digits@[0] != 48,
            dec_val(digits@) >= 0,
        decreases x,
    {
        let d: u8 = 48 + (x % 10) as u8;
        let ghost olddigits = digits@;
        digits.insert(0, d);
        proof {
            assert(digits@ =~= seq![d] + olddigits);
            lemma_dec_val_prepend(d, olddigits);
            assert((x / 10) * pow10(olddigits.len() + 1) + ((d - 48) * pow10(olddigits.len())
                + dec_val(olddigits)) == x * pow10(olddigits.len()) + dec_val(olddigits))
                by (nonlinear_arith)
                requires
                    x > 0,
                    d == 48 + x % 10,
                    pow10(olddigits.len() + 1) == 10 * pow10(olddigits.len()),
            ;
            lemma_dec_val_nonneg(digits@);
        }
        x = x / 10;
    }
    digits
}

/// Whether two byte strings are the same.
pub fn bytes_eq(a: &[u8], b: &[u8]) -> (r: bool)
    ensures
        r == (a@ == b@),
{
    let na = a.len();
    let nb = b.len();
    if na != nb {
        proof {
            assert(a@.len() != b@.len());
        }
        return false;
    }
    let mut i: usize = 0;
    while i < na
        invariant
            i <= na,
            na == a@.len(),
            na == b@.len(),
            forall|j: int| 0 <= j < i ==> a@[j] == b@[j],
        decreases na - i,
    {
        if *slice_index_get(a, i) != *slice_index_get(b, i) {
            return false;
        }
        i = i + 1;
    }
    proof {
        assert(a@ =~= b@);
    }
    true
}

/// Two character strings with the same UTF-8 bytes are the same string.
pub proof fn lemma_encode_utf8_injective(a: Seq<char>, b: Seq<char>)
    requires
        vstd::utf8::encode_utf8(a) == vstd::utf8::encode_utf8(b),
    ensures
        a == b,
{
    vstd::utf8::encode_utf8_decode_utf8(a);
    vstd::utf8::encode_utf8_decode_utf8(b);
}

/// Strict byte-lexicographic order.
pub open spec fn lex_lt(a: Seq<u8>, b: Seq<u8>) -> bool
    decreases a.len(),
{
    if b.len() == 0 {
        false
    } else if a.len() == 0 {
        true
    } else if a[0] < b[0] {
        true
    } else if a[0] > b[0] {
        false
    } else {
        lex_lt(a.drop_first(), b.drop_first())
    }
}

/// The order is total: two byte strings neither of which comes first are the
/// same string.
pub proof fn lemma_lex_total(a: Seq<u8>, b: Seq<u8>)
    requires
        !lex_lt(a, b),
        !lex_lt(b, a),
    ensures
        a == b,
    decreases a.len(),
{
    if a.len() == 0 || b.len() == 0 {
        assert(a =~= b);
    } else {
        lemma_lex_total(a.drop_first(), b.drop_first());
        assert(a =~= seq![a[0]] + a.drop_first());
        assert(b =~= seq![b[0]] + b.drop_first());
    }
}

/// The order is transitive.
pub proof fn lemma_lex_trans(a: Seq<u8>, b: Seq<u8>, c: Seq<u8>)
    requires
        lex_lt(a, b),
        lex_lt(b, c),
    ensures
        lex_lt(a, c),
    decreases a.len(),
{
    if a.len() == 0 {
    } else if b.len() == 0 {
    } else if c.len() == 0 {
    } else {
        if a[0] == b[0] && b[0] == c[0] {
            lemma_lex_trans(a.drop_first(), b.drop_first(), c.drop_first());
        }
    }
}

/// Nothing comes before itself.
pub proof fn lemma_lex_irrefl(a: Seq<u8>)
    ensures
        !lex_lt(a, a),
    decreases a.len(),
{
    if a.len() > 0 {
        lemma_lex_irrefl(a.drop_first());
    }
}

/// The order is asymmetric.
pub proof fn lemma_lex_asym(a: Seq<u8>, b: Seq<u8>)
    requires
        lex_lt(a, b),
    ensures
        !lex_lt(b, a),
{
    if lex_lt(b, a) {
        lemma_lex_trans(a, b, a);
        lemma_lex_irrefl(a);
    }
}

/// A common prefix settles nothing: the order is decided past it.
pub proof fn lemma_lex_skip(a: Seq<u8>, b: Seq<u8>, k: int)
    requires
        0 <= k <= a.len(),
        k <= b.len(),
        a.take(k) == b.take(k),
    ensures
        lex_lt(a, b) == lex_lt(a.skip(k), b.skip(k)),
    decreases k,
{
    if k == 0 {
        assert(a.skip(0) =~= a);
        assert(b.skip(0) =~= b);
    } else {
        assert(a.take(k)[0] == a[0]);
        assert(b.take(k)[0] == b[0]);
        assert(a.drop_first().take(k - 1) =~= a.take(k).drop_first());
        assert(b.drop_first().take(k - 1) =~= b.take(k).drop_first());
        lemma_lex_skip(a.drop_first(), b.drop_first(), k - 1);
        assert(a.drop_first().skip(k - 1) =~= a.skip(k));
        assert(b.drop_first().skip(k - 1) =~= b.skip(k));
        assert(a.len() > 0 && b.len() > 0);
        assert(a[0] == b[0]);
    }
}

/// Compares two byte strings in the lexicographic order.
pub fn bytes_lt(a: &[u8], b: &[u8]) -> (r: bool)
    ensures
        r == lex_lt(a@, b@),
{
    let na = a.len();
    let nb = b.len();
    let mut i: usize = 0;
    while i < na && i < nb
        invariant
            i <= na,
            i <= nb,
            na == a@.len(),
            nb == b@.len(),
            a@.take(i as int) == b@.take(i as int),
        decreases na - i,
    {
        let x = *slice_index_get(a, i);
        let y = *slice_index_get(b, i);
        proof {
            lemma_lex_skip(a@, b@, i as int);
            assert(a@.skip(i as int)[0] == a@[i as int]);
            assert(b@.skip(i as int)[0] == b@[i as int]);
        }
        if x < y {
            return true;
        }
        if x > y {
            return false;
        }
        proof {
            assert(a@.take(i + 1) =~= a@.take(i as int).push(a@[i as int]));
            assert(b@.take(i + 1) =~= b@.take(i as int).push(b@[i as int]));
        }
        i = i + 1;
    }
    proof {
        lemma_lex_skip(a@, b@, i as int);
        if i == na {
            assert(a@.skip(i as int) =~= Seq::<u8>::empty());
        } else {
            assert(b@.skip(i as int) =~= Seq::<u8>::empty());
        }
    }
    na < nb
}

} // verus!
