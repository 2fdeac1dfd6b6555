//! Cutting byte strings apart: the separators, numbers and names that the
//! text form of the edgework is made of.

use vstd::prelude::*;
use vstd::utf8::encode_utf8;

verus! {

/// The bytes that spell `text`.
pub open spec fn bytes_of(text: &str) -> Seq<u8> {
    encode_utf8(text@)
}

/// Whether `pat` stands in `s` at place `at`.
pub open spec fn occurs_at(s: Seq<u8>, pat: Seq<u8>, at: int) -> bool {
    &&& 0 <= at
    &&& at + pat.len() <= s.len()
    &&& forall|k: int| 0 <= k < pat.len() ==> s[at + k] == pat[k]
}

/// The pieces that `pat` cuts `s` into, where the piece at hand starts at
/// `from` and the places before `at` have been looked at. The separators
/// are taken from the left and do not overlap; an empty `pat` cuts nothing.
pub open spec fn split_scan(s: Seq<u8>, pat: Seq<u8>, from: int, at: int) -> Seq<Seq<u8>>
    decreases s.len() - at,
{
    if pat.len() == 0 || from < 0 || at < from || at + pat.len() > s.len() {
        seq![s.subrange(from, s.len() as int)]
    } else if occurs_at(s, pat, at) {
        seq![s.subrange(from, at)] + split_scan(s, pat, at + pat.len(), at + pat.len())
    } else {
        split_scan(s, pat, from, at + 1)
    }
}

/// The pieces that `pat` cuts `s` into.
pub open spec fn split(s: Seq<u8>, pat: Seq<u8>) -> Seq<Seq<u8>> {
    split_scan(s, pat, 0, 0)
}

/// What each of `pieces` holds.
pub open spec fn views(pieces: Seq<Vec<u8>>) -> Seq<Seq<u8>> {
    Seq::new(pieces.len(), |i: int| pieces[i]@)
}

/// Whether `b` is a decimal digit.
pub open spec fn digit_byte(b: u8) -> bool {
    0x30 <= b <= 0x39
}

/// The place after the digits that stand in `s` from `at` on.
pub open spec fn digits_end(s: Seq<u8>, at: int) -> int
    decreases s.len() - at,
{
    if 0 <= at < s.len() && digit_byte(s[at]) {
        digits_end(s, at + 1)
    } else {
        at
    }
}

/// The number that the decimal digits `digits` write.
pub open spec fn decimal_value(digits: Seq<u8>) -> nat
    decreases digits.len(),
{
    if digits.len() == 0 {
        0
    } else {
        (decimal_value(digits.drop_last()) * 10 + (digits.last() - 0x30)) as nat
    }
}

/// Whether `pat` stands in `s` at place `at`.
pub fn matches_at(s: &[u8], pat: &[u8], at: usize) -> (r: bool)
    ensures
        r == occurs_at(s@, pat@, at as int),
{
    if at > s.len() || pat.len() > s.len() - at {
        return false;
    }
    let n: usize = s.len();
    let m: usize = pat.len();
    let mut k: usize = 0;
    while k < m
        invariant
            k <= m,
            m == pat@.len(),
            n == s@.len(),
            at + m <= n,
            forall|j: int| 0 <= j < k ==> s@[at + j] == pat@[j],
        decreases m - k,
    {
        if s[at + k] != pat[k] {
            return false;
        }
        k = k + 1;
    }
    true
}

/// Whether `a` and `b` hold the same bytes.
pub fn same_bytes(a: &[u8], b: &[u8]) -> (r: bool)
    ensures
        r == (a@ == b@),
{
    if a.len() != b.len() {
        return false;
    }
    let r = matches_at(a, b, 0);
    proof {
        if r {
            assert(a@ =~= b@);
        }
    }
    r
}

/// The bytes of `s` from `from` up to `to`.
pub fn copy_range(s: &[u8], from: usize, to: usize) -> (piece: Vec<u8>)
    requires
        from <= to <= s@.len(),
    ensures
        piece@ == s@.subrange(from as int, to as int),
{
    let mut piece: Vec<u8> = Vec::new();
    let mut i: usize = from;
    while i < to
        invariant
            from <= i <= to <= s@.len(),
            piece@ == s@.subrange(from as int, i as int),
        decreases to - i,
    {
        piece.push(s[i]);
        assert(piece@ =~= s@.subrange(from as int, i + 1));
        i = i + 1;
    }
    assert(piece@ =~= s@.subrange(from as int, to as int));
    piece
}

/// Cuts `s` at every `pat`.
pub fn split_bytes(s: &[u8], pat: &[u8]) -> (pieces: Vec<Vec<u8>>)
    ensures
        views(pieces@) == split(s@, pat@),
        pieces@.len() >= 1,
{
    let mut pieces: Vec<Vec<u8>> = Vec::new();
    let mut from: usize = 0;
    let mut at: usize = 0;
    assert(views(pieces@) =~= Seq::<Seq<u8>>::empty());
    if pat.len() > 0 {
        while at <= s.len() && pat.len() <= s.len() - at
            invariant
                from <= at <= s@.len(),
                pat@.len() > 0,
                views(pieces@) + split_scan(s@, pat@, from as int, at as int) == split(s@, pat@),
            decreases s.len() - at,
        {
            if matches_at(s, pat, at) {
                let piece = copy_range(s, from, at);
                let ghost before = pieces@;
                pieces.push(piece);
                assert(views(pieces@) =~= views(before) + seq![s@.subrange(from as int, at as int)]);
                at = at + pat.len();
                from = at;
            } else {
                at = at + 1;
            }
        }
    }
    let piece = copy_range(s, from, s.len());
    let ghost before = pieces@;
    pieces.push(piece);
    assert(views(pieces@) =~= views(before) + seq![s@.subrange(from as int, s@.len() as int)]);
    pieces
}

/// The place after the digits that stand in `s` from `at` on.
pub fn scan_digits(s: &[u8], at: usize) -> (end: usize)
    requires
        at <= s@.len(),
    ensures
        end == digits_end(s@, at as int),
        at <= end <= s@.len(),
        forall|k: int| at <= k < end ==> digit_byte(s@[k]),
{
    let mut end: usize = at;
    while end < s.len() && 0x30 <= s[end] && s[end] <= 0x39
        invariant
            at <= end <= s@.len(),
            digits_end(s@, end as int) == digits_end(s@, at as int),
            forall|k: int| at <= k < end ==> digit_byte(s@[k]),
        decreases s.len() - end,
    {
        end = end + 1;
    }
    end
}

/// The number that the digits of `s` from `from` up to `to` write, if it
/// fits.
pub fn read_decimal(s: &[u8], from: usize, to: usize) -> (value: Option<u32>)
    requires
        from <= to <= s@.len(),
        forall|k: int| from <= k < to ==> digit_byte(s@[k]),
    ensures
        value is Some <==> decimal_value(s@.subrange(from as int, to as int)) <= u32::MAX,
        value matches Some(v) ==> v == decimal_value(s@.subrange(from as int, to as int)),
{
    let mut value: u64 = 0;
    let mut i: usize = from;
    assert(s@.subrange(from as int, from as int) =~= Seq::<u8>::empty());
    while i < to
        invariant
            from <= i <= to <= s@.len(),
            forall|k: int| from <= k < to ==> digit_byte(s@[k]),
            value <= u32::MAX,
            value == decimal_value(s@.subrange(from as int, i as int)),
        decreases to - i,
    {
        let ghost prefix = s@.subrange(from as int, i as int);
        let ghost longer = s@.subrange(from as int, i + 1);
        assert(longer.drop_last() =~= prefix);
        assert(longer.last() == s@[i as int]);
        let next: u64 = value * 10 + (s[i] - 0x30) as u64;
        if next > u32::MAX as u64 {
            proof {
                lemma_decimal_grows(s@, from as int, i + 1, to as int);
            }
            return None;
        }
        value = next;
        i = i + 1;
    }
    Some(value as u32)
}

/// Digits written after a number do not make it less.
pub proof fn lemma_decimal_grows(s: Seq<u8>, from: int, mid: int, to: int)
    requires
        0 <= from <= mid <= to <= s.len(),
        forall|k: int| from <= k < to ==> digit_byte(s[k]),
    ensures
        decimal_value(s.subrange(from, mid)) <= decimal_value(s.subrange(from, to)),
    decreases to - mid,
{
    if mid < to {
        lemma_decimal_grows(s, from, mid, to - 1);
        let longer = s.subrange(from, to);
        assert(longer.drop_last() =~= s.subrange(from, to - 1));
        assert(longer.last() == s[to - 1]);
    }
}

} // verus!
