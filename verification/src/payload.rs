//! The submission payload format: a flat string of `key=value` pairs
//! joined by `&`, each key a course code and each value a decimal unsigned
//! integer up to 255. One malformed pair makes the whole payload malformed;
//! nothing of it is applied.

use vstd::prelude::*;
use crate::store::Error;

verus! {

/// Number of characters before the first occurrence of `sep`, or the whole
/// length when `sep` does not occur.
pub open spec fn sep_split_len(s: Seq<char>, sep: char) -> nat
    decreases s.len(),
{
    if s.len() == 0 {
        0
    } else if s[0] == sep {
        0
    } else {
        1 + sep_split_len(s.drop_first(), sep)
    }
}

/// `sep_split_len` names the first occurrence of `sep`: everything before
/// it differs from `sep`, and it is in range exactly when `sep` occurs.
pub proof fn lemma_sep_split_len(s: Seq<char>, sep: char)
    ensures
        sep_split_len(s, sep) <= s.len(),
        forall|j: int| 0 <= j < sep_split_len(s, sep) ==> s[j] != sep,
        sep_split_len(s, sep) < s.len() ==> s[sep_split_len(s, sep) as int] == sep,
    decreases s.len(),
{
    if s.len() > 0 && s[0] != sep {
        lemma_sep_split_len(s.drop_first(), sep);
        assert forall|j: int| 0 <= j < sep_split_len(s, sep) implies s[j] != sep by {
            if j > 0 {
                assert(s.drop_first()[j - 1] == s[j]);
                assert(j - 1 < sep_split_len(s.drop_first(), sep));
            }
        }
        if sep_split_len(s, sep) < s.len() {
            assert(s.drop_first()[sep_split_len(s.drop_first(), sep) as int]
                == s[sep_split_len(s, sep) as int]);
        }
    }
}

/// At least one character, and every character a decimal digit.
pub open spec fn is_digits(s: Seq<char>) -> bool {
    s.len() > 0 && forall|i: int| 0 <= i < s.len() ==> '0' <= #[trigger] s[i] <= '9'
}

/// Numeric value of a decimal digit string.
pub open spec fn digits_value(s: Seq<char>) -> int
    decreases s.len(),
{
    if s.len() == 0 {
        0
    } else {
        digits_value(s.drop_last()) * 10 + (s.last() as int - '0' as int)
    }
}

/// A digit string has a value of at least zero.
pub proof fn lemma_digits_value_nonneg(s: Seq<char>)
    requires
        forall|i: int| 0 <= i < s.len() ==> '0' <= #[trigger] s[i] <= '9',
    ensures
        digits_value(s) >= 0,
    decreases s.len(),
{
    if s.len() > 0 {
        assert(forall|i: int| 0 <= i < s.drop_last().len()
            ==> s.drop_last()[i] == s[i]);
        lemma_digits_value_nonneg(s.drop_last());
    }
}

/// Appending digits never lowers the value: a prefix already over the
/// transport bound dooms the whole digit string.
pub proof fn lemma_digits_value_mono(s: Seq<char>, k: int)
    requires
        0 <= k <= s.len(),
        forall|i: int| 0 <= i < s.len() ==> '0' <= #[trigger] s[i] <= '9',
    ensures
        digits_value(s.subrange(0, k)) <= digits_value(s),
    decreases s.len(),
{
    if k == s.len() {
        assert(s.subrange(0, k) =~= s);
    } else {
        let prefix = s.drop_last();
        assert(forall|i: int| 0 <= i < prefix.len() ==> prefix[i] == s[i]);
        lemma_digits_value_mono(prefix, k);
        lemma_digits_value_nonneg(prefix);
        assert(s.subrange(0, k) =~= prefix.subrange(0, k));
    }
}

/// A rating value as the transport carries it: a decimal unsigned integer
/// that fits in a byte.
pub open spec fn parse_u8(s: Seq<char>) -> Option<u8> {
    if is_digits(s) && digits_value(s) <= 255 {
        Some(digits_value(s) as u8)
    } else {
        None
    }
}

/// One `key=value` pair of a payload: the key is everything before the
/// first `=`, the value a rating value after it. A segment without `=`, or
/// with a non-numeric or too large value, is malformed.
pub open spec fn parse_pair(seg: Seq<char>) -> Option<(Seq<char>, u8)> {
    let i = sep_split_len(seg, '=');
    if i >= seg.len() {
        None
    } else {
        match parse_u8(seg.subrange(i as int + 1, seg.len() as int)) {
            Some(v) => Some((seg.subrange(0, i as int), v)),
            None => None,
        }
    }
}

/// A whole payload: `key=value` pairs joined by `&`, in payload order. One
/// malformed pair makes the whole payload malformed.
pub open spec fn parse_pairs(s: Seq<char>) -> Option<Seq<(Seq<char>, u8)>>
    decreases s.len(),
{
    let i = sep_split_len(s, '&');
    if i >= s.len() {
        match parse_pair(s) {
            Some(p) => Some(seq![p]),
            None => None,
        }
    } else {
        match (parse_pair(s.subrange(0, i as int)), parse_pairs(
            s.subrange(i as int + 1, s.len() as int),
        )) {
            (Some(p), Some(rest)) => Some(seq![p] + rest),
            _ => None,
        }
    }
}

/// View of a parsed pair list: course-code characters and rating value.
pub open spec fn pairs_view(ps: Seq<(String, u8)>) -> Seq<(Seq<char>, u8)> {
    ps.map_values(|p: (String, u8)| (p.0@, p.1))
}

/// A proper pair set: no two pairs carry the same course code. The
/// submission protocol accepts only such payloads, which is what keeps at
/// most one rating row per (student, course) pair in the store.
pub open spec fn pairwise_distinct_codes(pairs: Seq<(Seq<char>, u8)>) -> bool {
    forall|k: int, l: int|
        0 <= k < l < pairs.len() ==> (#[trigger] pairs[k]).0 != (#[trigger] pairs[l]).0
}

/// Parses a payload into its (course code, rating value) pairs, exactly as
/// [`parse_pairs`] reads it; a payload that does not parse is rejected as
/// `MalformedPayload` and yields nothing.
#[verifier::loop_isolation(false)]
#[verifier::rlimit(80)]
pub fn parse_payload(payload: &str) -> (r: Result<Vec<(String, u8)>, Error>)
    ensures
        match r {
            Ok(pairs) => parse_pairs(payload@) == Some(pairs_view(pairs@)),
            Err(e) => {
                &&& e == Error::MalformedPayload
                &&& parse_pairs(payload@) is None
            },
        },
{
    let len = payload.unicode_len();
    let mut out: Vec<(String, u8)> = Vec::new();
    let mut pos: usize = 0;
    proof {
        assert(payload@.subrange(0, len as int) =~= payload@);
        match parse_pairs(payload@) {
            Some(all) => {
                assert(pairs_view(out@) + all =~= all);
            },
            None => {},
        }
    }
    loop
        invariant
            pos <= len,
            len == payload@.len(),
            match parse_pairs(payload@.subrange(pos as int, len as int)) {
                Some(rest) => parse_pairs(payload@) == Some(pairs_view(out@) + rest),
                None => parse_pairs(payload@) is None,
            },
        decreases len - pos,
    {
        let ghost remaining = payload@.subrange(pos as int, len as int);

        // The current segment runs to the next `&` or to the end.
        let mut end: usize = pos;
        while end < len && payload.get_char(end) != '&'
            invariant
                pos <= end <= len,
                forall|q: int| pos <= q < end ==> payload@[q] != '&',
            decreases len - end,
        {
            end += 1;
        }
        let ghost seg = payload@.subrange(pos as int, end as int);
        proof {
            lemma_sep_split_len(remaining, '&');
            assert(forall|j: int| 0 <= j < remaining.len() ==> remaining[j] == payload@[pos + j]);
            if end < len {
                assert(remaining[end - pos] == '&');
                assert(sep_split_len(remaining, '&') == end - pos);
            } else {
                assert(sep_split_len(remaining, '&') == remaining.len());
            }
            assert(seg =~= remaining.subrange(0, end - pos));
        }

        // The key runs to the first `=` of the segment; no `=` means the
        // segment, and with it the payload, is malformed.
        let mut eq: usize = pos;
        while eq < end && payload.get_char(eq) != '='
            invariant
                pos <= eq <= end,
                forall|q: int| pos <= q < eq ==> payload@[q] != '=',
            decreases end - eq,
        {
            eq += 1;
        }
        proof {
            lemma_sep_split_len(seg, '=');
            assert(forall|j: int| 0 <= j < seg.len() ==> seg[j] == payload@[pos + j]);
            if eq < end {
                assert(seg[eq - pos] == '=');
                assert(sep_split_len(seg, '=') == eq - pos);
            } else {
                assert(sep_split_len(seg, '=') == seg.len());
            }
        }
        if eq == end {
            proof {
                assert(parse_pair(seg) is None);
            }
            return Err(Error::MalformedPayload);
        }
        let ghost valchars = seg.subrange(eq - pos + 1, seg.len() as int);
        proof {
            assert(forall|j: int| 0 <= j < valchars.len() ==> valchars[j] == payload@[eq + 1 + j]);
        }

        // The value must be a nonempty digit string no larger than 255.
        let mut acc: u32 = 0;
        let mut p: usize = eq + 1;
        if p == end {
            proof {
                assert(valchars.len() == 0);
                assert(parse_pair(seg) is None);
            }
            return Err(Error::MalformedPayload);
        }
        proof {
            assert(valchars.subrange(0, 0) =~= Seq::<char>::empty());
        }
        while p < end
            invariant
                eq + 1 <= p <= end,
                forall|q: int| eq + 1 <= q < p ==> '0' <= #[trigger] payload@[q] <= '9',
                acc <= 255,
                acc == digits_value(valchars.subrange(0, p - (eq + 1))),
            decreases end - p,
        {
            let c = payload.get_char(p);
            if !('0' <= c && c <= '9') {
                proof {
                    assert(valchars[p - (eq + 1)] == c);
                    assert(!is_digits(valchars));
                    assert(parse_pair(seg) is None);
                }
                return Err(Error::MalformedPayload);
            }
            let d = (c as u32) - ('0' as u32);
            acc = acc * 10 + d;
            proof {
                let upto = valchars.subrange(0, p - (eq + 1) + 1);
                assert(upto.drop_last() =~= valchars.subrange(0, p - (eq + 1)));
                assert(upto.last() == valchars[p - (eq + 1)]);
            }
            if acc > 255 {
                proof {
                    if is_digits(valchars) {
                        lemma_digits_value_mono(valchars, p + 1 - (eq + 1));
                    }
                    assert(parse_pair(seg) is None);
                }
                return Err(Error::MalformedPayload);
            }
            p += 1;
        }
        proof {
            assert(valchars.subrange(0, valchars.len() as int) =~= valchars);
            assert(forall|j: int| 0 <= j < valchars.len()
                ==> '0' <= #[trigger] valchars[j] <= '9');
            assert(is_digits(valchars));
            assert(parse_u8(valchars) == Some(acc as u8));
            assert(parse_pair(seg) == Some((seg.subrange(0, eq - pos), acc as u8)));
        }

        let key = payload.substring_char(pos, eq).to_owned();
        let value = acc as u8;
        let ghost kview = key@;
        let ghost out_prev = out@;
        proof {
            assert(kview =~= seg.subrange(0, eq - pos));
        }
        out.push((key, value));
        proof {
            assert(pairs_view(out@) =~= pairs_view(out_prev).push((kview, value)));
        }

        if end == len {
            proof {
                assert(parse_pairs(remaining) == Some(seq![(kview, value)]));
                assert(pairs_view(out_prev) + seq![(kview, value)] =~= pairs_view(out@));
            }
            return Ok(out);
        }
        proof {
            let remaining2 = payload@.subrange(end + 1, len as int);
            assert(remaining.subrange(end - pos + 1, remaining.len() as int) =~= remaining2);
            match parse_pairs(remaining2) {
                Some(rest2) => {
                    assert(parse_pairs(remaining) == Some(seq![(kview, value)] + rest2));
                    assert(pairs_view(out_prev) + (seq![(kview, value)] + rest2) =~= pairs_view(
                        out@,
                    ) + rest2);
                },
                None => {
                    assert(parse_pairs(remaining) is None);
                },
            }
        }
        pos = end + 1;
    }
}

} // verus!
