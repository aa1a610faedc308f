//! The interval-ladder helpers shared by the scheduler, and the
//! parser for a comma-separated ladder written down in configuration.

use crate::text::{split, split_chars, spec_parse_usize, str_to_chars};
use vstd::prelude::*;

verus! {

/// Weakly ascending, what the ladder lookups assume.
pub open spec fn sorted(s: Seq<usize>) -> bool {
    forall|j: int, k: int| 0 <= j <= k < s.len() ==> s[j] <= s[k]
}

/// A well-formed interval ladder: strictly ascending positive day
/// counts. (An empty ladder means the geometric policy is used
/// instead, so these conditions are only asked of nonempty ones.)
pub open spec fn ladder_ok(s: Seq<usize>) -> bool {
    (forall|j: int, k: int| 0 <= j < k < s.len() ==> s[j] < s[k]) && (forall|j: int|
        0 <= j < s.len() ==> s[j] >= 1)
}

pub proof fn lemma_ladder_sorted(s: Seq<usize>)
    requires
        ladder_ok(s),
    ensures
        sorted(s),
{
}

/// The value `next_larger_interval` computes: scanning upward, the
/// first ladder value above `i`, or the top of the ladder if none is.
pub open spec fn spec_next_larger(i: int, s: Seq<usize>) -> int
    decreases s.len(),
{
    if s.len() == 0 {
        0
    } else if s[0] > i {
        s[0] as int
    } else if s.len() == 1 {
        s[0] as int
    } else {
        spec_next_larger(i, s.drop_first())
    }
}

/// The value `next_smaller_interval` computes: scanning downward, the
/// first ladder value not above `i`, or the bottom of the ladder if
/// none is.
pub open spec fn spec_next_smaller(i: int, s: Seq<usize>) -> int
    decreases s.len(),
{
    if s.len() == 0 {
        0
    } else if s.last() <= i {
        s.last() as int
    } else if s.len() == 1 {
        s[0] as int
    } else {
        spec_next_smaller(i, s.drop_last())
    }
}

/// The smallest ladder value strictly greater than `i`; saturates at
/// the ladder's top when `i` is already at or above it.
pub fn next_larger_interval(i: usize, custom_intervals: &[usize]) -> (r: usize)
    requires
        custom_intervals@.len() > 0,
        sorted(custom_intervals@),
    ensures
        r == spec_next_larger(i as int, custom_intervals@),
        exists|j: int| 0 <= j < custom_intervals@.len() && custom_intervals@[j] == r,
        (exists|j: int| 0 <= j < custom_intervals@.len() && custom_intervals@[j] > i) ==> (r > i
            && forall|j: int|
            0 <= j < custom_intervals@.len() && custom_intervals@[j] > i ==> r
                <= custom_intervals@[j]),
        custom_intervals@.last() <= i ==> r == custom_intervals@.last(),
{
    let n = custom_intervals.len();
    let mut j: usize = 0;
    proof {
        assert(custom_intervals@.skip(0) =~~= custom_intervals@);
    }
    while j < n
        invariant
            n == custom_intervals@.len(),
            n > 0,
            sorted(custom_intervals@),
            j <= n,
            forall|k: int| 0 <= k < j ==> custom_intervals@[k] <= i,
            spec_next_larger(i as int, custom_intervals@) == if j < n {
                spec_next_larger(i as int, custom_intervals@.skip(j as int))
            } else {
                custom_intervals@[n - 1] as int
            },
        decreases n - j,
    {
        proof {
            assert(custom_intervals@.skip(j as int)[0] == custom_intervals@[j as int]);
            assert(custom_intervals@.skip(j as int).drop_first() =~~= custom_intervals@.skip(j + 1));
        }
        if custom_intervals[j] > i {
            return custom_intervals[j];
        }
        j = j + 1;
    }
    custom_intervals[n - 1]
}

/// The largest ladder value less than or equal to `i`; saturates at
/// the ladder's bottom when `i` is below all of it.
pub fn next_smaller_interval(i: usize, custom_intervals: &[usize]) -> (r: usize)
    requires
        custom_intervals@.len() > 0,
        sorted(custom_intervals@),
    ensures
        r == spec_next_smaller(i as int, custom_intervals@),
        exists|j: int| 0 <= j < custom_intervals@.len() && custom_intervals@[j] == r,
        (exists|j: int| 0 <= j < custom_intervals@.len() && custom_intervals@[j] <= i) ==> (r <= i
            && forall|j: int|
            0 <= j < custom_intervals@.len() && custom_intervals@[j] <= i ==> custom_intervals@[j]
                <= r),
        i < custom_intervals@[0] ==> r == custom_intervals@[0],
{
    let n = custom_intervals.len();
    let mut j: usize = n;
    proof {
        assert(custom_intervals@.take(n as int) =~~= custom_intervals@);
    }
    while j > 0
        invariant
            n == custom_intervals@.len(),
            n > 0,
            sorted(custom_intervals@),
            j <= n,
            forall|k: int| j <= k < n ==> custom_intervals@[k] > i,
            spec_next_smaller(i as int, custom_intervals@) == if j > 0 {
                spec_next_smaller(i as int, custom_intervals@.take(j as int))
            } else {
                custom_intervals@[0] as int
            },
        decreases j,
    {
        proof {
            assert(custom_intervals@.take(j as int).last() == custom_intervals@[j - 1]);
            assert(custom_intervals@.take(j as int).drop_last() =~~= custom_intervals@.take(j - 1));
        }
        if custom_intervals[j - 1] <= i {
            return custom_intervals[j - 1];
        }
        j = j - 1;
    }
    custom_intervals[0]
}

// ---------------------------------------------------------------------
// Parsing a ladder written as a comma-separated list.
// ---------------------------------------------------------------------

pub open spec fn is_space(c: char) -> bool {
    c == ' ' || c == '\t' || c == '\r' || c == '\n'
}

pub open spec fn trim_front(s: Seq<char>) -> Seq<char>
    decreases s.len(),
{
    if s.len() > 0 && is_space(s[0]) {
        trim_front(s.drop_first())
    } else {
        s
    }
}

pub open spec fn trim_back(s: Seq<char>) -> Seq<char>
    decreases s.len(),
{
    if s.len() > 0 && is_space(s.last()) {
        trim_back(s.drop_last())
    } else {
        s
    }
}

pub open spec fn trim(s: Seq<char>) -> Seq<char> {
    trim_front(trim_back(s))
}

/// The meaning of the whole comma-separated list: every field, once
/// trimmed, must be a decimal number that fits.
pub open spec fn parse_fields(ps: Seq<Seq<char>>) -> Option<Seq<usize>>
    decreases ps.len(),
{
    if ps.len() == 0 {
        Some(Seq::<usize>::empty())
    } else {
        match parse_fields(ps.drop_last()) {
            None => None,
            Some(v) => match spec_parse_usize(trim(ps.last())) {
                None => None,
                Some(x) => Some(v.push(x)),
            },
        }
    }
}

pub open spec fn spec_parse_intervals(s: Seq<char>) -> Option<Seq<usize>> {
    parse_fields(split(s, ','))
}

/// One bad field spoils the whole list.
pub proof fn lemma_parse_fields_none(ps: Seq<Seq<char>>, idx: int)
    requires
        0 <= idx < ps.len(),
        spec_parse_usize(trim(ps[idx])) is None,
    ensures
        parse_fields(ps) is None,
    decreases ps.len(),
{
    if idx < ps.len() - 1 {
        assert(ps.drop_last()[idx] == ps[idx]);
        lemma_parse_fields_none(ps.drop_last(), idx);
    }
}

fn is_space_ch(c: char) -> (r: bool)
    ensures
        r == is_space(c),
{
    c == ' ' || c == '\t' || c == '\r' || c == '\n'
}

/// Drop leading and trailing whitespace.
fn trim_chars(s: &[char]) -> (r: Vec<char>)
    ensures
        r@ == trim(s@),
{
    let mut hi: usize = s.len();
    proof {
        assert(s@.take(hi as int) =~~= s@);
    }
    while hi > 0 && is_space_ch(s[hi - 1])
        invariant
            hi <= s@.len(),
            trim_back(s@) == trim_back(s@.take(hi as int)),
        decreases hi,
    {
        proof {
            assert(s@.take(hi as int).last() == s@[hi - 1]);
            assert(s@.take(hi as int).drop_last() =~~= s@.take(hi - 1));
        }
        hi = hi - 1;
    }
    proof {
        assert(trim_back(s@.take(hi as int)) == s@.take(hi as int));
    }
    let mut lo: usize = 0;
    proof {
        assert(s@.take(hi as int).skip(0) =~~= s@.take(hi as int));
    }
    while lo < hi && is_space_ch(s[lo])
        invariant
            lo <= hi <= s@.len(),
            trim_back(s@) == s@.take(hi as int),
            trim_front(s@.take(hi as int)) == trim_front(
                s@.take(hi as int).skip(lo as int),
            ),
        decreases hi - lo,
    {
        proof {
            assert(s@.take(hi as int).skip(lo as int)[0] == s@[lo as int]);
            assert(s@.take(hi as int).skip(lo as int).drop_first() =~~= s@.take(hi as int).skip(
                lo + 1,
            ));
        }
        lo = lo + 1;
    }
    proof {
        let piece = s@.take(hi as int).skip(lo as int);
        assert(trim_front(piece) == piece);
    }
    let mut r: Vec<char> = Vec::new();
    let mut j: usize = lo;
    while j < hi
        invariant
            lo <= j <= hi <= s@.len(),
            r@ == s@.take(hi as int).skip(lo as int).take((j - lo) as int),
        decreases hi - j,
    {
        r.push(s[j]);
        proof {
            let piece = s@.take(hi as int).skip(lo as int);
            assert(piece.take((j - lo) as int).push(s@[j as int]) =~~= piece.take(
                (j + 1 - lo) as int,
            ));
        }
        j = j + 1;
    }
    proof {
        let piece = s@.take(hi as int).skip(lo as int);
        assert(piece.take((hi - lo) as int) =~~= piece);
    }
    r
}

/// Parse a comma-separated ladder such as `1, 7, 365`; `None` when
/// any field is not a plain decimal number.
pub fn parse_intervals(s: &str) -> (r: Option<Vec<usize>>)
    ensures
        r matches Some(v) ==> spec_parse_intervals(s@) == Some(v@),
        r is None ==> spec_parse_intervals(s@) is None,
{
    let chars = str_to_chars(s);
    let parts = split_chars(chars.as_slice(), ',');
    let ghost ps = split(s@, ',');
    let mut out: Vec<usize> = Vec::new();
    let n = parts.len();
    let mut idx: usize = 0;
    proof {
        assert(ps.take(0) =~~= Seq::<Seq<char>>::empty());
    }
    while idx < n
        invariant
            n == ps.len(),
            ps == split(s@, ','),
            parts.deep_view() == ps,
            idx <= n,
            parse_fields(ps.take(idx as int)) == Some(out@),
        decreases n - idx,
    {
        let t = trim_chars(parts[idx].as_slice());
        let got = crate::text::parse_usize(t.as_slice());
        proof {
            assert(ps.take(idx + 1).drop_last() =~~= ps.take(idx as int));
            assert(ps.take(idx + 1).last() == ps[idx as int]);
            assert(parts.deep_view()[idx as int] == parts@[idx as int].deep_view());
            assert(parts@[idx as int].deep_view() =~~= parts@[idx as int]@);
            assert(t@ == trim(parts.deep_view()[idx as int]));
        }
        match got {
            Some(x) => {
                out.push(x);
            },
            None => {
                proof {
                    assert(spec_parse_usize(trim(ps[idx as int])) is None);
                    lemma_parse_fields_none(ps, idx as int);
                    assert(parse_fields(ps) is None);
                    assert(ps == split(s@, ','));
                    assert(spec_parse_intervals(s@) is None);
                }
                return None;
            },
        }
        idx = idx + 1;
    }
    proof {
        assert(ps.take(n as int) =~~= ps);
    }
    Some(out)
}

} // verus!
