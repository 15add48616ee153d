//! The guestbook's narrow HTML-defusing transform.
//!
//! Every `<` that opens a tag name is rewritten to `!!`, and every complete
//! `</name>` closing sequence is rewritten to `!!!name`. This is
//! deliberately not a general HTML escaper: output stays bit-compatible
//! with the fixture pages the server renders.
use vstd::prelude::*;

verus! {

/// True when `b` is a tag-name byte: an ASCII letter, digit or underscore.
pub open spec fn is_word(b: u8) -> bool {
    (48 <= b <= 57) || (65 <= b <= 90) || (97 <= b <= 122) || b == 95
}

/// First position at or after `i` that is not a tag-name byte, or the end.
pub open spec fn word_end(s: Seq<u8>, i: int) -> int
    decreases s.len() - i,
{
    if i < 0 || i >= s.len() || !is_word(s[i]) {
        i
    } else {
        word_end(s, i + 1)
    }
}

pub proof fn lemma_word_end_bounds(s: Seq<u8>, i: int)
    requires
        0 <= i <= s.len(),
    ensures
        i <= word_end(s, i) <= s.len(),
        forall|k: int| i <= k < word_end(s, i) ==> is_word(s[k]),
        word_end(s, i) < s.len() ==> !is_word(s[word_end(s, i)]),
    decreases s.len() - i,
{
    if i < s.len() && is_word(s[i]) {
        lemma_word_end_bounds(s, i + 1);
    }
}

pub proof fn lemma_word_end_is(s: Seq<u8>, i: int, j: int)
    requires
        0 <= i <= j <= s.len(),
        forall|k: int| i <= k < j ==> is_word(s[k]),
        j < s.len() ==> !is_word(s[j]),
    ensures
        word_end(s, i) == j,
    decreases j - i,
{
    if i < j {
        lemma_word_end_is(s, i + 1, j);
    }
}

/// First pass: a `<` standing directly before a tag-name byte becomes `!!`;
/// everything else is copied.
pub open spec fn escape_open(s: Seq<u8>) -> Seq<u8>
    decreases s.len(),
{
    if s.len() == 0 {
        Seq::empty()
    } else if s.len() >= 2 && s[0] == 60 && is_word(s[1]) {
        seq![33u8, 33u8] + escape_open(s.skip(1))
    } else {
        seq![s[0]] + escape_open(s.skip(1))
    }
}

/// True when `s` starts with a complete closing sequence `</name>`.
pub open spec fn close_match_at(s: Seq<u8>) -> bool {
    &&& s.len() >= 4
    &&& s[0] == 60
    &&& s[1] == 47
    &&& is_word(s[2])
    &&& word_end(s, 2) < s.len()
    &&& s[word_end(s, 2)] == 62
}

/// Second pass: a complete `</name>` becomes `!!!name`; everything else is
/// copied.
pub open spec fn escape_close(s: Seq<u8>) -> Seq<u8>
    decreases s.len(),
    via escape_close_decreases
{
    if s.len() == 0 {
        Seq::empty()
    } else if close_match_at(s) {
        let j = word_end(s, 2);
        seq![33u8, 33u8, 33u8] + s.subrange(2, j) + escape_close(s.skip(j + 1))
    } else {
        seq![s[0]] + escape_close(s.skip(1))
    }
}

#[via_fn]
proof fn escape_close_decreases(s: Seq<u8>) {
    if s.len() != 0 && close_match_at(s) {
        lemma_word_end_bounds(s, 2);
    }
}

/// The whole transform: defuse openings, then defuse complete closings in
/// the result.
pub open spec fn dumb_escape(s: Seq<u8>) -> Seq<u8> {
    escape_close(escape_open(s))
}

fn escape_open_bytes(s: &[u8]) -> (r: Vec<u8>)
    ensures
        r@ == escape_open(s@),
{
    let mut out: Vec<u8> = Vec::new();
    let mut i: usize = 0;
    let n = s.len();
    proof {
        assert(s@.skip(0) =~= s@);
    }
    while i < n
        invariant
            i <= n,
            n == s@.len(),
            escape_open(s@) == out@ + escape_open(s@.skip(i as int)),
        decreases n - i,
    {
        let ghost t = s@.skip(i as int);
        proof {
            assert(t.len() == n - i);
            assert(t[0] == s@[i as int]);
            if i + 1 < n {
                assert(t[1] == s@[i + 1]);
            }
            assert(t.skip(1) =~= s@.skip(i + 1));
        }
        let b = s[i];
        let open_tag = b == 60 && i + 1 < n && {
            let c = s[i + 1];
            (48 <= c && c <= 57) || (65 <= c && c <= 90) || (97 <= c && c <= 122) || c == 95
        };
        let ghost out0 = out@;
        if open_tag {
            out.push(33);
            out.push(33);
            proof {
                assert(escape_open(t) == seq![33u8, 33u8] + escape_open(t.skip(1)));
                assert(out@ =~= out0 + seq![33u8, 33u8]);
                assert(out0 + (seq![33u8, 33u8] + escape_open(s@.skip(i + 1))) =~= out@
                    + escape_open(s@.skip(i + 1)));
            }
        } else {
            out.push(b);
            proof {
                assert(escape_open(t) == seq![t[0]] + escape_open(t.skip(1)));
                assert(out@ =~= out0 + seq![b]);
                assert(out0 + (seq![b] + escape_open(s@.skip(i + 1))) =~= out@ + escape_open(
                    s@.skip(i + 1),
                ));
            }
        }
        i = i + 1;
    }
    proof {
        assert(s@.skip(n as int) =~= Seq::<u8>::empty());
        assert(out@ + escape_open(Seq::<u8>::empty()) =~= out@);
    }
    out
}

fn escape_close_bytes(s: &[u8]) -> (r: Vec<u8>)
    ensures
        r@ == escape_close(s@),
{
    let mut out: Vec<u8> = Vec::new();
    let mut i: usize = 0;
    let n = s.len();
    proof {
        assert(s@.skip(0) =~= s@);
    }
    while i < n
        invariant
            i <= n,
            n == s@.len(),
            escape_close(s@) == out@ + escape_close(s@.skip(i as int)),
        decreases n - i,
    {
        let ghost t = s@.skip(i as int);
        proof {
            assert(t.len() == n - i);
            assert forall|k: int| 0 <= k < t.len() implies t[k] == s@[i + k] by {}
        }
        let ghost out0 = out@;
        let b = s[i];
        let mut matched = false;
        if b == 60 && n - i > 2 && s[i + 1] == 47 {
            let c = s[i + 2];
            if (48 <= c && c <= 57) || (65 <= c && c <= 90) || (97 <= c && c <= 122) || c == 95 {
                let mut j: usize = i + 3;
                while j < n && ((48 <= s[j] && s[j] <= 57) || (65 <= s[j] && s[j] <= 90) || (97
                    <= s[j] && s[j] <= 122) || s[j] == 95)
                    invariant
                        i + 2 <= j <= n,
                        n == s@.len(),
                        t == s@.skip(i as int),
                        forall|k: int| i + 2 <= k < j ==> is_word(s@[k]),
                    decreases n - j,
                {
                    j = j + 1;
                }
                proof {
                    assert forall|k: int| 2 <= k < j - i implies is_word(t[k]) by {
                        assert(t[k] == s@[i + k]);
                    }
                    if j < n {
                        assert(t[j - i] == s@[j as int]);
                        assert(!is_word(t[j - i]));
                    }
                    lemma_word_end_is(t, 2, j - i as int);
                }
                if j < n && s[j] == 62 {
                    matched = true;
                    proof {
                        assert(t[0] == 60 && t[1] == 47 && is_word(t[2]));
                        assert(close_match_at(t));
                        assert(escape_close(t) == seq![33u8, 33u8, 33u8] + t.subrange(2, j - i as int)
                            + escape_close(t.skip(j - i + 1)));
                    }
                    out.push(33);
                    out.push(33);
                    out.push(33);
                    let run = crate::text::sub_bytes(s, i + 2, j);
                    crate::text::push_bytes(&mut out, run.as_slice());
                    proof {
                        assert(t.subrange(2, j - i as int) =~= s@.subrange(i + 2, j as int));
                        assert(t.skip(j - i + 1) =~= s@.skip(j + 1));
                        assert(out@ =~= out0 + seq![33u8, 33u8, 33u8] + s@.subrange(i + 2, j as int));
                        assert(out0 + (seq![33u8, 33u8, 33u8] + t.subrange(2, j - i as int)
                            + escape_close(s@.skip(j + 1))) =~= out@ + escape_close(s@.skip(j + 1)));
                    }
                    i = j + 1;
                } else {
                    proof {
                        if t.len() >= 4 && word_end(t, 2) < t.len() {
                            assert(word_end(t, 2) == j - i);
                            if j < n {
                                assert(t[j - i] == s@[j as int]);
                                assert(s@[j as int] != 62);
                            }
                        }
                        assert(!close_match_at(t));
                    }
                }
            } else {
                proof {
                    assert(t[2] == s@[i + 2]);
                    assert(!is_word(t[2]));
                    assert(!close_match_at(t));
                }
            }
        } else {
            proof {
                if t.len() >= 4 {
                    assert(t[0] == s@[i as int] && t[1] == s@[i + 1]);
                }
                assert(!close_match_at(t));
            }
        }
        if !matched {
            proof {
                assert(!close_match_at(t));
                assert(escape_close(t) == seq![t[0]] + escape_close(t.skip(1)));
                assert(t[0] == b);
                assert(t.skip(1) =~= s@.skip(i + 1));
            }
            out.push(b);
            proof {
                assert(out@ =~= out0 + seq![b]);
                assert(out0 + (seq![b] + escape_close(s@.skip(i + 1))) =~= out@ + escape_close(
                    s@.skip(i + 1),
                ));
            }
            i = i + 1;
        }
    }
    proof {
        assert(s@.skip(n as int) =~= Seq::<u8>::empty());
        assert(out@ + escape_close(Seq::<u8>::empty()) =~= out@);
    }
    out
}

/// The two-pass defusing transform on raw bytes.
pub fn dumb_html_escape(val: &[u8]) -> (r: Vec<u8>)
    ensures
        r@ == dumb_escape(val@),
{
    let opened = escape_open_bytes(val);
    escape_close_bytes(opened.as_slice())
}

} // verus!
