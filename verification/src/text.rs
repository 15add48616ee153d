//! Byte-level text utilities: ASCII classification, lower-casing, trimming,
//! searching, and decimal conversions. Everything works on `u8` sequences,
//! which is how the wire protocol delivers its data.
use vstd::prelude::*;

verus! {

/// True when `b` is an ASCII decimal digit.
pub open spec fn is_digit(b: u8) -> bool {
    48 <= b <= 57
}

/// True when every byte of `s` is an ASCII decimal digit.
pub open spec fn all_digits(s: Seq<u8>) -> bool {
    forall|i: int| 0 <= i < s.len() ==> is_digit(s[i])
}

/// True when `b` is ASCII whitespace (space, tab, carriage return, newline).
pub open spec fn is_ws(b: u8) -> bool {
    b == 32 || b == 9 || b == 13 || b == 10
}

/// True when `b` is an ASCII upper-case letter.
pub open spec fn is_upper(b: u8) -> bool {
    65 <= b <= 90
}

/// `b` with an ASCII upper-case letter folded to lower case.
pub open spec fn lower_byte(b: u8) -> u8 {
    if is_upper(b) {
        (b + 32) as u8
    } else {
        b
    }
}

/// `s` with every ASCII upper-case letter folded to lower case.
pub open spec fn lower(s: Seq<u8>) -> Seq<u8> {
    s.map_values(|b: u8| lower_byte(b))
}

/// `s` without its leading ASCII whitespace.
pub open spec fn trim_start(s: Seq<u8>) -> Seq<u8>
    decreases s.len(),
{
    if s.len() > 0 && is_ws(s[0]) {
        trim_start(s.skip(1))
    } else {
        s
    }
}

/// `s` without its trailing ASCII whitespace.
pub open spec fn trim_end(s: Seq<u8>) -> Seq<u8>
    decreases s.len(),
{
    if s.len() > 0 && is_ws(s[s.len() - 1]) {
        trim_end(s.drop_last())
    } else {
        s
    }
}

/// `s` without leading or trailing ASCII whitespace.
pub open spec fn trim(s: Seq<u8>) -> Seq<u8> {
    trim_end(trim_start(s))
}

/// The first position at or after `from` where `b` occurs in `s`.
pub open spec fn find_from(s: Seq<u8>, b: u8, from: int) -> Option<int>
    decreases s.len() - from,
{
    if from < 0 || from >= s.len() {
        None
    } else if s[from] == b {
        Some(from)
    } else {
        find_from(s, b, from + 1)
    }
}

pub proof fn lemma_find_from_bounds(s: Seq<u8>, b: u8, from: int)
    requires
        0 <= from <= s.len(),
    ensures
        match find_from(s, b, from) {
            Some(i) => from <= i < s.len() && s[i] == b && forall|j: int|
                from <= j < i ==> s[j] != b,
            None => forall|j: int| from <= j < s.len() ==> s[j] != b,
        },
    decreases s.len() - from,
{
    if from < s.len() && s[from] != b {
        lemma_find_from_bounds(s, b, from + 1);
    }
}

pub proof fn lemma_find_from_is(s: Seq<u8>, b: u8, from: int, i: int)
    requires
        0 <= from <= i < s.len(),
        s[i] == b,
        forall|j: int| from <= j < i ==> s[j] != b,
    ensures
        find_from(s, b, from) == Some(i),
    decreases i - from,
{
    if from < i {
        lemma_find_from_is(s, b, from + 1, i);
    }
}

/// Exec search for the first occurrence of `b` at or after `from`.
pub fn find_byte_from(s: &[u8], b: u8, from: usize) -> (r: Option<usize>)
    requires
        from <= s@.len(),
    ensures
        match r {
            Some(i) => find_from(s@, b, from as int) == Some(i as int),
            None => find_from(s@, b, from as int) is None,
        },
{
    let mut i: usize = from;
    while i < s.len()
        invariant
            from <= i <= s@.len(),
            find_from(s@, b, from as int) == find_from(s@, b, i as int),
        decreases s@.len() - i,
    {
        if s[i] == b {
            return Some(i);
        }
        i = i + 1;
    }
    None
}

/// Exec equality of two byte slices, decided byte by byte.
pub fn bytes_eq(a: &[u8], b: &[u8]) -> (r: bool)
    ensures
        r == (a@ == b@),
{
    if a.len() != b.len() {
        assert(a@ != b@) by {
            assert(a@.len() != b@.len());
        }
        return false;
    }
    let mut i: usize = 0;
    while i < a.len()
        invariant
            i <= a@.len(),
            a@.len() == b@.len(),
            forall|j: int| 0 <= j < i ==> a@[j] == b@[j],
        decreases a@.len() - i,
    {
        if a[i] != b[i] {
            return false;
        }
        i = i + 1;
    }
    proof {
        assert(a@ =~= b@);
    }
    true
}

/// True when `s` begins with `prefix`.
pub fn starts_with(s: &[u8], prefix: &[u8]) -> (r: bool)
    ensures
        r == (s@.len() >= prefix@.len() && s@.take(prefix@.len() as int) == prefix@),
{
    if s.len() < prefix.len() {
        return false;
    }
    let mut i: usize = 0;
    while i < prefix.len()
        invariant
            i <= prefix@.len() <= s@.len(),
            forall|j: int| 0 <= j < i ==> s@[j] == prefix@[j],
        decreases prefix@.len() - i,
    {
        if s[i] != prefix[i] {
            assert(s@.take(prefix@.len() as int)[i as int] != prefix@[i as int]);
            return false;
        }
        i = i + 1;
    }
    proof {
        assert(s@.take(prefix@.len() as int) =~= prefix@);
    }
    true
}

/// Copy of the byte range `[from, to)` of `s`.
pub fn sub_bytes(s: &[u8], from: usize, to: usize) -> (r: Vec<u8>)
    requires
        from <= to <= s@.len(),
    ensures
        r@ == s@.subrange(from as int, to as int),
{
    let mut out: Vec<u8> = Vec::new();
    let mut i: usize = from;
    while i < to
        invariant
            from <= i <= to <= s@.len(),
            out@ == s@.subrange(from as int, i as int),
        decreases to - i,
    {
        out.push(s[i]);
        proof {
            assert(out@ =~= s@.subrange(from as int, i + 1 as int));
        }
        i = i + 1;
    }
    out
}

/// A fresh copy of a byte vector.
pub fn copy_bytes(v: &Vec<u8>) -> (r: Vec<u8>)
    ensures
        r@ == v@,
{
    let r = sub_bytes(v.as_slice(), 0, v.len());
    proof {
        assert(v@.subrange(0, v@.len() as int) =~= v@);
    }
    r
}

/// Append every byte of `s` to `out`.
pub fn push_bytes(out: &mut Vec<u8>, s: &[u8])
    ensures
        final(out)@ == old(out)@ + s@,
{
    let mut i: usize = 0;
    while i < s.len()
        invariant
            i <= s@.len(),
            out@ == old(out)@ + s@.take(i as int),
        decreases s@.len() - i,
    {
        out.push(s[i]);
        proof {
            assert(out@ =~= old(out)@ + s@.take(i + 1 as int));
        }
        i = i + 1;
    }
    proof {
        assert(old(out)@ + s@.take(s@.len() as int) =~= old(out)@ + s@);
    }
}

/// Exec ASCII lower-casing of a byte slice.
pub fn lower_bytes(s: &[u8]) -> (r: Vec<u8>)
    ensures
        r@ == lower(s@),
{
    let mut out: Vec<u8> = Vec::new();
    let mut i: usize = 0;
    while i < s.len()
        invariant
            i <= s@.len(),
            out@ == lower(s@.take(i as int)),
        decreases s@.len() - i,
    {
        let b = s[i];
        if 65 <= b && b <= 90 {
            out.push(b + 32);
        } else {
            out.push(b);
        }
        proof {
            assert(out@ =~= lower(s@.take(i + 1 as int)));
        }
        i = i + 1;
    }
    proof {
        assert(lower(s@.take(s@.len() as int)) =~= lower(s@));
    }
    out
}

proof fn lemma_trim_start_no_byte(s: Seq<u8>, b: u8)
    requires
        forall|i: int| 0 <= i < s.len() - 1 ==> s[i] != b,
    ensures
        forall|i: int| 0 <= i < trim_start(s).len() - 1 ==> trim_start(s)[i] != b,
        trim_start(s).len() > 0 ==> trim_start(s).last() == s.last(),
    decreases s.len(),
{
    if s.len() > 0 && is_ws(s[0]) {
        assert(forall|i: int| 0 <= i < s.skip(1).len() - 1 ==> s.skip(1)[i] != b);
        lemma_trim_start_no_byte(s.skip(1), b);
        if s.skip(1).len() > 0 {
            assert(s.skip(1).last() == s.last());
        }
    }
}

proof fn lemma_trim_end_no_byte(s: Seq<u8>, b: u8)
    requires
        is_ws(b),
        forall|i: int| 0 <= i < s.len() - 1 ==> s[i] != b,
    ensures
        forall|i: int| 0 <= i < trim_end(s).len() ==> trim_end(s)[i] != b,
    decreases s.len(),
{
    if s.len() > 0 && is_ws(s[s.len() - 1]) {
        assert(forall|i: int| 0 <= i < s.drop_last().len() - 1 ==> s.drop_last()[i] != b);
        lemma_trim_end_no_byte(s.drop_last(), b);
        assert(trim_end(s) == trim_end(s.drop_last()));
        assert forall|i: int| 0 <= i < trim_end(s).len() implies trim_end(s)[i] != b by {
            assert(trim_end(s)[i] == trim_end(s.drop_last())[i]);
        }
    } else if s.len() > 0 {
        assert(s[s.len() - 1] != b);
    }
}

/// Trimming text whose only candidate whitespace byte `b` sits at the very
/// end leaves no occurrence of `b` at all: the trailing one is stripped.
pub proof fn lemma_trim_no_byte(s: Seq<u8>, b: u8)
    requires
        is_ws(b),
        forall|i: int| 0 <= i < s.len() - 1 ==> s[i] != b,
    ensures
        forall|i: int| 0 <= i < trim(s).len() ==> trim(s)[i] != b,
{
    lemma_trim_start_no_byte(s, b);
    lemma_trim_end_no_byte(trim_start(s), b);
}

/// Decimal representation of `n`, most significant digit first.
pub open spec fn dec_rep(n: nat) -> Seq<u8>
    decreases n,
{
    if n < 10 {
        seq![(48 + n) as u8]
    } else {
        dec_rep(n / 10).push((48 + n % 10) as u8)
    }
}

/// Numeric value of a run of ASCII decimal digits.
pub open spec fn dec_value(s: Seq<u8>) -> int
    decreases s.len(),
{
    if s.len() == 0 {
        0
    } else {
        dec_value(s.drop_last()) * 10 + (s.last() - 48)
    }
}

pub proof fn lemma_dec_rep_digits(n: nat)
    ensures
        dec_rep(n).len() >= 1,
        all_digits(dec_rep(n)),
    decreases n,
{
    if n >= 10 {
        lemma_dec_rep_digits(n / 10);
        assert forall|i: int| 0 <= i < dec_rep(n).len() implies is_digit(dec_rep(n)[i]) by {
            if i < dec_rep(n / 10).len() {
                assert(dec_rep(n)[i] == dec_rep(n / 10)[i]);
            }
        }
    }
}

pub proof fn lemma_dec_value_of_rep(n: nat)
    ensures
        dec_value(dec_rep(n)) == n,
    decreases n,
{
    if n < 10 {
        assert(dec_rep(n).drop_last() =~= Seq::<u8>::empty());
        assert(dec_value(Seq::<u8>::empty()) == 0);
        assert(dec_value(dec_rep(n)) == 0 * 10 + ((48 + n) as u8 - 48));
    } else {
        lemma_dec_value_of_rep(n / 10);
        assert(dec_rep(n).drop_last() =~= dec_rep(n / 10));
        assert(dec_rep(n).last() == (48 + n % 10) as u8);
        assert(dec_value(dec_rep(n)) == dec_value(dec_rep(n / 10)) * 10 + ((48 + n % 10) as u8
            - 48));
        assert((48 + n % 10) as u8 - 48 == n % 10);
        assert(n / 10 * 10 + n % 10 == n) by (nonlinear_arith);
    }
}

pub proof fn lemma_dec_value_nonneg(s: Seq<u8>)
    requires
        all_digits(s),
    ensures
        dec_value(s) >= 0,
    decreases s.len(),
{
    if s.len() > 0 {
        lemma_dec_value_nonneg(s.drop_last());
    }
}

/// The digit run of a decimal literal, allowing the one leading `+` sign that
/// `usize::from_str` accepts.
pub open spec fn unsigned_digits(s: Seq<u8>) -> Seq<u8> {
    if s.len() > 0 && s[0] == 43 {
        s.skip(1)
    } else {
        s
    }
}

/// The value `str::parse::<usize>` would give for `s`, with every failure
/// (empty, non-digit, out of range) mapped to 0.
pub open spec fn parsed_or_zero(s: Seq<u8>) -> int {
    let d = unsigned_digits(s);
    if d.len() > 0 && all_digits(d) && dec_value(d) <= usize::MAX {
        dec_value(d)
    } else {
        0
    }
}

/// Exec decimal parser matching `parsed_or_zero`.
pub fn parse_usize_or_zero(s: &[u8]) -> (r: usize)
    ensures
        r == parsed_or_zero(s@),
{
    let ghost d = unsigned_digits(s@);
    let start: usize = if s.len() > 0 && s[0] == 43 {
        1
    } else {
        0
    };
    proof {
        assert(d =~= s@.skip(start as int));
    }
    if start == s.len() {
        return 0;
    }
    let mut acc: u128 = 0;
    let mut too_big = false;
    let mut j: usize = start;
    while j < s.len()
        invariant
            start <= j <= s@.len(),
            d == unsigned_digits(s@),
            d == s@.skip(start as int),
            all_digits(d.take(j - start as int)),
            !too_big ==> acc == dec_value(d.take(j - start as int)) && acc <= usize::MAX,
            too_big ==> dec_value(d.take(j - start as int)) > usize::MAX,
        decreases s@.len() - j,
    {
        let b = s[j];
        if b < 48 || b > 57 {
            proof {
                assert(0 <= j - start < d.len());
                assert(!is_digit(d[j - start as int]));
                assert(!all_digits(d));
            }
            return 0;
        }
        proof {
            assert(d.take(j + 1 - start as int).drop_last() =~= d.take(j - start as int));
            assert(d.take(j + 1 - start as int).last() == b);
            if too_big {
                lemma_dec_value_nonneg(d.take(j - start as int));
            }
        }
        if !too_big {
            acc = acc * 10 + (b - 48) as u128;
            if acc > usize::MAX as u128 {
                too_big = true;
            }
        }
        j = j + 1;
    }
    proof {
        assert(d.take(s@.len() - start as int) =~= d);
    }
    if too_big {
        0
    } else {
        acc as usize
    }
}

/// Exec conversion of `n` to its decimal digits.
pub fn usize_to_decimal(n: usize) -> (r: Vec<u8>)
    ensures
        r@ == dec_rep(n as nat),
    decreases n,
{
    if n < 10 {
        let mut out: Vec<u8> = Vec::new();
        out.push(48 + n as u8);
        proof {
            assert(out@ =~= dec_rep(n as nat));
        }
        out
    } else {
        let mut out = usize_to_decimal(n / 10);
        out.push(48 + (n % 10) as u8);
        out
    }
}

pub proof fn lemma_trim_start_skip(s: Seq<u8>, lo: int)
    requires
        0 <= lo <= s.len(),
        forall|j: int| 0 <= j < lo ==> is_ws(s[j]),
        lo < s.len() ==> !is_ws(s[lo]),
    ensures
        trim_start(s) == s.skip(lo),
    decreases lo,
{
    if lo == 0 {
        assert(s.skip(0) =~= s);
    } else {
        lemma_trim_start_skip(s.skip(1), lo - 1);
        assert(s.skip(1).skip(lo - 1) =~= s.skip(lo));
    }
}

pub proof fn lemma_trim_end_take(s: Seq<u8>, hi: int)
    requires
        0 <= hi <= s.len(),
        forall|j: int| hi <= j < s.len() ==> is_ws(s[j]),
        hi > 0 ==> !is_ws(s[hi - 1]),
    ensures
        trim_end(s) == s.take(hi),
    decreases s.len() - hi,
{
    if hi == s.len() {
        assert(s.take(hi) =~= s);
    } else {
        lemma_trim_end_take(s.drop_last(), hi);
        assert(s.drop_last().take(hi) =~= s.take(hi));
    }
}

/// Exec trimming of leading and trailing ASCII whitespace.
pub fn trim_bytes(s: &[u8]) -> (r: Vec<u8>)
    ensures
        r@ == trim(s@),
{
    let mut lo: usize = 0;
    while lo < s.len() && (s[lo] == 32 || s[lo] == 9 || s[lo] == 13 || s[lo] == 10)
        invariant
            lo <= s@.len(),
            forall|j: int| 0 <= j < lo ==> is_ws(s@[j]),
        decreases s@.len() - lo,
    {
        lo = lo + 1;
    }
    proof {
        lemma_trim_start_skip(s@, lo as int);
    }
    if lo == s.len() {
        proof {
            assert(s@.skip(lo as int) =~= Seq::<u8>::empty());
            assert(trim_end(Seq::<u8>::empty()) =~= Seq::<u8>::empty());
        }
        return Vec::new();
    }
    let ghost t = s@.skip(lo as int);
    let mut hi: usize = s.len();
    while hi > lo + 1 && (s[hi - 1] == 32 || s[hi - 1] == 9 || s[hi - 1] == 13 || s[hi - 1] == 10)
        invariant
            lo < hi <= s@.len(),
            forall|j: int| hi <= j < s@.len() ==> is_ws(s@[j]),
        decreases hi,
    {
        hi = hi - 1;
    }
    proof {
        assert(forall|j: int| hi - lo <= j < t.len() ==> is_ws(t[j]));
        assert(hi - lo > 0 ==> !is_ws(t[hi - lo - 1]));
        lemma_trim_end_take(t, hi - lo as int);
        assert(t.take(hi - lo as int) =~= s@.subrange(lo as int, hi as int));
    }
    sub_bytes(s, lo, hi)
}

} // verus!
