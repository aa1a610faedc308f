//! Character-sequence helpers: splitting on a separator, joining with
//! one, and reading and writing unsigned decimal numbers. Everything
//! the store's line format is built from.

use vstd::prelude::*;
use vstd::std_specs::iter::IteratorSpec;

verus! {

broadcast use vstd::string::group_string_axioms;

/// Cut `s` at every occurrence of `c`. Always yields at least one
/// piece; separators at the ends or next to each other yield empty
/// pieces, so `join` is an exact inverse.
pub open spec fn split(s: Seq<char>, c: char) -> Seq<Seq<char>>
    decreases s.len(),
{
    if s.len() == 0 {
        seq![Seq::<char>::empty()]
    } else if s[0] == c {
        seq![Seq::<char>::empty()] + split(s.drop_first(), c)
    } else {
        let r = split(s.drop_first(), c);
        r.update(0, seq![s[0]] + r[0])
    }
}

/// Glue the pieces back together with `c` between neighbours.
pub open spec fn join(toks: Seq<Seq<char>>, c: char) -> Seq<char>
    decreases toks.len(),
{
    if toks.len() == 0 {
        Seq::<char>::empty()
    } else if toks.len() == 1 {
        toks[0]
    } else {
        toks[0] + seq![c] + join(toks.drop_first(), c)
    }
}

pub proof fn lemma_split_len(s: Seq<char>, c: char)
    ensures
        split(s, c).len() >= 1,
    decreases s.len(),
{
    if s.len() == 0 {
    } else {
        lemma_split_len(s.drop_first(), c);
    }
}

/// No piece of a split contains the separator.
pub proof fn lemma_split_no_sep(s: Seq<char>, c: char)
    ensures
        forall|i: int, j: int|
            0 <= i < split(s, c).len() && 0 <= j < split(s, c)[i].len() ==> split(s, c)[i][j] != c,
    decreases s.len(),
{
    if s.len() == 0 {
    } else if s[0] == c {
        lemma_split_no_sep(s.drop_first(), c);
        assert forall|i: int, j: int|
            0 <= i < split(s, c).len() && 0 <= j < split(s, c)[i].len() implies split(s, c)[i][j]
            != c by {
            if i > 0 {
                assert(split(s, c)[i] == split(s.drop_first(), c)[i - 1]);
            }
        }
    } else {
        lemma_split_no_sep(s.drop_first(), c);
        lemma_split_len(s.drop_first(), c);
        let r = split(s.drop_first(), c);
        assert forall|i: int, j: int|
            0 <= i < split(s, c).len() && 0 <= j < split(s, c)[i].len() implies split(s, c)[i][j]
            != c by {
            if i == 0 {
                assert(split(s, c)[0] == seq![s[0]] + r[0]);
                if j > 0 {
                    assert((seq![s[0]] + r[0])[j] == r[0][j - 1]);
                }
            } else {
                assert(split(s, c)[i] == r[i]);
            }
        }
    }
}

/// A sequence free of the separator splits into itself alone.
pub proof fn lemma_split_whole(s: Seq<char>, c: char)
    requires
        forall|j: int| 0 <= j < s.len() ==> s[j] != c,
    ensures
        split(s, c) == seq![s],
    decreases s.len(),
{
    if s.len() == 0 {
        assert(split(s, c) =~~= seq![s]);
    } else {
        lemma_split_whole(s.drop_first(), c);
        lemma_split_len(s.drop_first(), c);
        assert(split(s, c) =~~= seq![s]);
    }
}

/// Splitting at the first separator: the part before it becomes the
/// first piece and the rest splits on its own.
pub proof fn lemma_split_concat(a: Seq<char>, z: Seq<char>, c: char)
    requires
        forall|j: int| 0 <= j < a.len() ==> a[j] != c,
    ensures
        split(a + seq![c] + z, c) == seq![a] + split(z, c),
    decreases a.len(),
{
    let s = a + seq![c] + z;
    if a.len() == 0 {
        assert(s[0] == c);
        assert(s.drop_first() =~~= z);
        assert(split(s, c) =~~= seq![a] + split(z, c));
    } else {
        assert(s[0] == a[0]);
        assert(s.drop_first() =~~= a.drop_first() + seq![c] + z);
        lemma_split_concat(a.drop_first(), z, c);
        let r = split(a.drop_first() + seq![c] + z, c);
        lemma_split_len(z, c);
        assert(r[0] == a.drop_first());
        assert(split(s, c) == r.update(0, seq![a[0]] + a.drop_first()));
        assert(seq![a[0]] + a.drop_first() =~~= a);
        assert(split(s, c) =~~= seq![a] + split(z, c));
    }
}

pub proof fn lemma_join_split(s: Seq<char>, c: char)
    ensures
        join(split(s, c), c) == s,
    decreases s.len(),
{
    if s.len() == 0 {
    } else if s[0] == c {
        lemma_join_split(s.drop_first(), c);
        lemma_split_len(s.drop_first(), c);
        let t = seq![Seq::<char>::empty()] + split(s.drop_first(), c);
        assert(t.drop_first() =~~= split(s.drop_first(), c));
        assert(join(t, c) =~~= s);
    } else {
        lemma_join_split(s.drop_first(), c);
        lemma_split_len(s.drop_first(), c);
        let r = split(s.drop_first(), c);
        let t = r.update(0, seq![s[0]] + r[0]);
        if r.len() == 1 {
            assert(join(t, c) == t[0]);
            assert(join(t, c) =~~= s);
        } else {
            assert(t.drop_first() =~~= r.drop_first());
            assert(join(r, c) == r[0] + seq![c] + join(r.drop_first(), c));
            assert(join(t, c) == (seq![s[0]] + r[0]) + seq![c] + join(r.drop_first(), c));
            assert(join(t, c) =~~= seq![s[0]] + join(r, c));
            assert(seq![s[0]] + s.drop_first() =~~= s);
        }
    }
}

/// `split` undoes `join` exactly, as long as no piece contains the
/// separator.
pub proof fn lemma_split_join(toks: Seq<Seq<char>>, c: char)
    requires
        toks.len() >= 1,
        forall|i: int, j: int| 0 <= i < toks.len() && 0 <= j < toks[i].len() ==> toks[i][j] != c,
    ensures
        split(join(toks, c), c) == toks,
    decreases toks.len(),
{
    if toks.len() == 1 {
        lemma_split_whole(toks[0], c);
        assert(split(join(toks, c), c) =~~= toks);
    } else {
        lemma_split_join(toks.drop_first(), c);
        lemma_split_concat(toks[0], join(toks.drop_first(), c), c);
        assert(split(join(toks, c), c) =~~= seq![toks[0]] + split(join(toks.drop_first(), c), c));
        assert(seq![toks[0]] + toks.drop_first() =~~= toks);
    }
}

/// How `join` grows when one more piece is appended.
pub proof fn lemma_join_push(a: Seq<Seq<char>>, x: Seq<char>, c: char)
    ensures
        join(a.push(x), c) == if a.len() == 0 {
            x
        } else {
            join(a, c) + seq![c] + x
        },
    decreases a.len(),
{
    if a.len() == 0 {
        assert(a.push(x).len() == 1);
        assert(join(a.push(x), c) == a.push(x)[0]);
    } else if a.len() == 1 {
        let t = a.push(x);
        assert(t.drop_first() =~~= seq![x]);
        assert(t[0] == a[0]);
        assert(t.len() == 2);
        assert(join(t, c) == t[0] + seq![c] + join(t.drop_first(), c));
        assert(join(t.drop_first(), c) == t.drop_first()[0]);
        assert(t.drop_first()[0] == x);
    } else {
        lemma_join_push(a.drop_first(), x, c);
        assert(a.push(x).drop_first() =~~= a.drop_first().push(x));
        assert(join(a.push(x), c) == a[0] + seq![c] + join(a.drop_first().push(x), c));
        assert(join(a, c) + seq![c] + x =~~= a[0] + seq![c] + (join(a.drop_first(), c) + seq![c]
            + x));
    }
}

/// Joining two runs of pieces is joining each and putting one
/// separator between.
pub proof fn lemma_join_concat(a: Seq<Seq<char>>, b: Seq<Seq<char>>, c: char)
    requires
        a.len() >= 1,
        b.len() >= 1,
    ensures
        join(a + b, c) == join(a, c) + seq![c] + join(b, c),
    decreases a.len(),
{
    if a.len() == 1 {
        assert((a + b).drop_first() =~~= b);
        assert((a + b).len() >= 2);
        assert(join(a + b, c) == a[0] + seq![c] + join(b, c));
    } else {
        lemma_join_concat(a.drop_first(), b, c);
        assert((a + b).drop_first() =~~= a.drop_first() + b);
        assert(join(a + b, c) == a[0] + seq![c] + join(a.drop_first() + b, c));
        assert(join(a, c) + seq![c] + join(b, c) =~~= a[0] + seq![c] + (join(
            a.drop_first(),
            c,
        ) + seq![c] + join(b, c)));
    }
}

// ---------------------------------------------------------------------
// Decimal numbers.
// ---------------------------------------------------------------------

pub open spec fn is_digit_ch(c: char) -> bool {
    '0' <= c && c <= '9'
}

pub open spec fn digit_val(c: char) -> int {
    c as u32 - 48
}

pub open spec fn digit_ch(d: int) -> char {
    ((48 + d) as u8) as char
}

pub open spec fn all_digits(s: Seq<char>) -> bool {
    forall|i: int| 0 <= i < s.len() ==> is_digit_ch(s[i])
}

/// A well-formed decimal numeral: nonempty, digits only. Leading
/// zeros are allowed.
pub open spec fn num_ok(s: Seq<char>) -> bool {
    s.len() > 0 && all_digits(s)
}

/// The value of a digit string.
pub open spec fn val(s: Seq<char>) -> int
    decreases s.len(),
{
    if s.len() == 0 {
        0
    } else {
        10 * val(s.drop_last()) + digit_val(s.last())
    }
}

/// The canonical decimal spelling of `n`, without leading zeros.
pub open spec fn dec_rep(n: nat) -> Seq<char>
    decreases n,
{
    if n < 10 {
        seq![digit_ch(n as int)]
    } else {
        dec_rep(n / 10).push(digit_ch((n % 10) as int))
    }
}

pub open spec fn zeros(k: nat) -> Seq<char>
    decreases k,
{
    if k == 0 {
        Seq::<char>::empty()
    } else {
        zeros((k - 1) as nat).push('0')
    }
}

/// `s` left-padded with zeros to at least `k` characters.
pub open spec fn pad(s: Seq<char>, k: nat) -> Seq<char> {
    if s.len() >= k {
        s
    } else {
        zeros((k - s.len()) as nat) + s
    }
}

pub proof fn lemma_digit_ch_val(d: int)
    requires
        0 <= d <= 9,
    ensures
        is_digit_ch(digit_ch(d)),
        digit_val(digit_ch(d)) == d,
{
}

pub proof fn lemma_dec_rep_digits(n: nat)
    ensures
        num_ok(dec_rep(n)),
    decreases n,
{
    if n < 10 {
        lemma_digit_ch_val(n as int);
    } else {
        lemma_dec_rep_digits(n / 10);
        lemma_digit_ch_val((n % 10) as int);
    }
}

pub proof fn lemma_val_dec_rep(n: nat)
    ensures
        val(dec_rep(n)) == n,
    decreases n,
{
    if n < 10 {
        lemma_digit_ch_val(n as int);
        assert(dec_rep(n) == seq![digit_ch(n as int)]);
        assert(dec_rep(n).drop_last() =~~= Seq::<char>::empty());
        assert(dec_rep(n).last() == digit_ch(n as int));
        assert(val(dec_rep(n)) == 10 * val(Seq::<char>::empty()) + digit_val(digit_ch(n as int)));
    } else {
        lemma_val_dec_rep(n / 10);
        lemma_digit_ch_val((n % 10) as int);
        assert(dec_rep(n) == dec_rep(n / 10).push(digit_ch((n % 10) as int)));
        assert(dec_rep(n).drop_last() =~~= dec_rep(n / 10));
        assert(dec_rep(n).last() == digit_ch((n % 10) as int));
        assert(val(dec_rep(n)) == 10 * val(dec_rep(n / 10)) + (n % 10));
    }
}

pub proof fn lemma_val_zeros(k: nat)
    ensures
        val(zeros(k)) == 0,
        zeros(k).len() == k,
        all_digits(zeros(k)),
    decreases k,
{
    if k > 0 {
        lemma_val_zeros((k - 1) as nat);
        assert(zeros(k).drop_last() =~~= zeros((k - 1) as nat));
        assert(digit_val('0') == 0);
        assert forall|i: int| 0 <= i < zeros(k).len() implies is_digit_ch(zeros(k)[i]) by {
            if i < k - 1 {
                assert(zeros(k)[i] == zeros((k - 1) as nat)[i]);
            }
        }
    }
}

/// Leading zeros do not change a numeral's value.
pub proof fn lemma_val_zeros_prefix(k: nat, s: Seq<char>)
    ensures
        val(zeros(k) + s) == val(s),
    decreases s.len(),
{
    if s.len() == 0 {
        lemma_val_zeros(k);
        assert(zeros(k) + s =~~= zeros(k));
    } else {
        lemma_val_zeros_prefix(k, s.drop_last());
        assert((zeros(k) + s).drop_last() =~~= zeros(k) + s.drop_last());
        assert((zeros(k) + s).last() == s.last());
    }
}

pub proof fn lemma_pad_val(s: Seq<char>, k: nat)
    requires
        num_ok(s),
    ensures
        num_ok(pad(s, k)),
        pad(s, k).len() >= k,
        val(pad(s, k)) == val(s),
{
    if s.len() < k {
        let z = (k - s.len()) as nat;
        lemma_val_zeros(z);
        lemma_val_zeros_prefix(z, s);
        assert forall|i: int| 0 <= i < pad(s, k).len() implies is_digit_ch(pad(s, k)[i]) by {
            if i < z {
                assert(pad(s, k)[i] == zeros(z)[i]);
            } else {
                assert(pad(s, k)[i] == s[i - z]);
            }
        }
    }
}

pub proof fn lemma_val_nonneg(s: Seq<char>)
    requires
        all_digits(s),
    ensures
        val(s) >= 0,
    decreases s.len(),
{
    if s.len() > 0 {
        lemma_val_nonneg(s.drop_last());
    }
}

/// A numeral's value only grows as digits are appended.
pub proof fn lemma_val_prefix_le(s: Seq<char>, i: int)
    requires
        all_digits(s),
        0 <= i <= s.len(),
    ensures
        val(s.take(i)) <= val(s),
    decreases s.len(),
{
    if i == s.len() {
        assert(s.take(i) =~~= s);
    } else {
        assert(s.take(i) =~~= s.drop_last().take(i));
        lemma_val_prefix_le(s.drop_last(), i);
        lemma_val_nonneg(s.drop_last());
    }
}

// ---------------------------------------------------------------------
// Executable counterparts.
// ---------------------------------------------------------------------

/// The characters of `s`, in order.
pub fn str_to_chars(s: &str) -> (r: Vec<char>)
    ensures
        r@ == s@,
{
    let mut it = s.chars();
    let mut r: Vec<char> = Vec::new();
    loop
        invariant
            r@ + it.remaining() == s@,
            it.decrease() is Some,
        ensures
            r@ == s@,
        decreases it.decrease()->0,
    {
        match it.next() {
            Some(c) => r.push(c),
            None => {
                proof {
                    assert(it.remaining().len() == 0);
                    assert(r@ + it.remaining() =~~= r@);
                }
                break ;
            },
        }
    }
    r
}

/// Relies on `core::iter::Iterator::collect` for `String` from chars:
/// the resulting string holds exactly the given characters, in order.
#[verifier::external_body]
pub fn chars_to_string(v: &Vec<char>) -> (r: String)
    ensures
        r@ == v@,
{
    v.iter().collect()
}

/// Copy all of `src` onto the end of `dst`.
pub fn push_all(dst: &mut Vec<char>, src: &[char])
    ensures
        final(dst)@ == old(dst)@ + src@,
{
    let n = src.len();
    let mut j: usize = 0;
    while j < n
        invariant
            n == src@.len(),
            j <= n,
            dst@ == old(dst)@ + src@.take(j as int),
        decreases n - j,
    {
        dst.push(src[j]);
        proof {
            assert(old(dst)@ + src@.take(j as int) + seq![src@[j as int]] =~~= old(dst)@
                + src@.take(j + 1));
        }
        j = j + 1;
    }
    proof {
        assert(src@.take(n as int) =~~= src@);
    }
}

pub open spec fn prepend_first(p: Seq<char>, ss: Seq<Seq<char>>) -> Seq<Seq<char>> {
    ss.update(0, p + ss[0])
}

/// Executable `split`.
pub fn split_chars(s: &[char], c: char) -> (r: Vec<Vec<char>>)
    ensures
        r.deep_view() == split(s@, c),
{
    let n = s.len();
    let mut out: Vec<Vec<char>> = Vec::new();
    let mut cur: Vec<char> = Vec::new();
    let mut i: usize = 0;
    proof {
        let ss = split(s@, c);
        lemma_split_len(s@, c);
        assert(s@.skip(0) =~~= s@);
        assert(Seq::<char>::empty() + ss[0] =~~= ss[0]);
        assert(prepend_first(Seq::<char>::empty(), ss) =~~= ss);
        assert(out.deep_view() =~~= Seq::<Seq<char>>::empty());
        assert(out.deep_view() + ss =~~= ss);
    }
    while i < n
        invariant
            n == s@.len(),
            i <= n,
            split(s@, c) == out.deep_view() + prepend_first(cur@, split(s@.skip(i as int), c)),
        decreases n - i,
    {
        proof {
            assert(s@.skip(i as int).len() > 0);
            assert(s@.skip(i as int)[0] == s@[i as int]);
            assert(s@.skip(i as int).drop_first() =~~= s@.skip(i + 1));
            lemma_split_len(s@.skip(i + 1), c);
        }
        let ghost ss2 = split(s@.skip(i + 1), c);
        if s[i] == c {
            proof {
                assert(split(s@.skip(i as int), c) == seq![Seq::<char>::empty()] + ss2);
                assert(prepend_first(cur@, seq![Seq::<char>::empty()] + ss2) =~~= seq![cur@] + ss2);
            }
            let done = cur;
            cur = Vec::new();
            let ghost old_deep = out.deep_view();
            out.push(done);
            proof {
                assert(out.deep_view() =~~= old_deep.push(done@));
                assert(old_deep + (seq![done@] + ss2) =~~= old_deep.push(done@) + prepend_first(
                    cur@,
                    ss2,
                ));
            }
        } else {
            proof {
                let r0 = split(s@.skip(i as int), c);
                assert(r0 == ss2.update(0, seq![s@[i as int]] + ss2[0]));
                assert(prepend_first(cur@, r0) =~~= ss2.update(
                    0,
                    cur@.push(s@[i as int]) + ss2[0],
                ));
            }
            cur.push(s[i]);
        }
        i = i + 1;
    }
    proof {
        assert(s@.skip(n as int) =~~= Seq::<char>::empty());
        assert(prepend_first(cur@, split(Seq::<char>::empty(), c)) =~~= seq![cur@]);
    }
    let ghost old_deep = out.deep_view();
    out.push(cur);
    proof {
        assert(out.deep_view() =~~= old_deep.push(cur@));
        assert(old_deep + seq![cur@] =~~= old_deep.push(cur@));
    }
    out
}

/// Executable `join`.
pub fn join_chars(toks: &Vec<Vec<char>>, c: char) -> (r: Vec<char>)
    ensures
        r@ == join(toks.deep_view(), c),
{
    let mut r: Vec<char> = Vec::new();
    let n = toks.len();
    let mut i: usize = 0;
    while i < n
        invariant
            n == toks@.len(),
            toks.deep_view().len() == n,
            i <= n,
            r@ == join(toks.deep_view().take(i as int), c),
        decreases n - i,
    {
        proof {
            assert(toks.deep_view().take(i + 1) =~~= toks.deep_view().take(i as int).push(
                toks.deep_view()[i as int],
            ));
            lemma_join_push(toks.deep_view().take(i as int), toks.deep_view()[i as int], c);
            assert(toks.deep_view()[i as int] == toks@[i as int]@);
        }
        if i > 0 {
            r.push(c);
        }
        push_all(&mut r, toks[i].as_slice());
        proof {
            if i == 0 {
                assert(Seq::<char>::empty() + toks@[i as int]@ =~~= toks@[i as int]@);
            }
        }
        i = i + 1;
    }
    proof {
        assert(toks.deep_view().take(n as int) =~~= toks.deep_view());
    }
    r
}

/// Executable decimal rendering, matching `dec_rep`.
pub fn fmt_usize(n: usize) -> (r: Vec<char>)
    ensures
        r@ == dec_rep(n as nat),
    decreases n,
{
    let d: u8 = 48 + (n % 10) as u8;
    if n < 10 {
        proof {
            assert(digit_ch(n as int) == (d as char));
        }
        vec![d as char]
    } else {
        let mut r = fmt_usize(n / 10);
        r.push(d as char);
        proof {
            assert(digit_ch((n % 10) as int) == (d as char));
        }
        r
    }
}

pub open spec fn spec_parse_usize(s: Seq<char>) -> Option<usize> {
    if num_ok(s) && val(s) <= usize::MAX {
        Some(val(s) as usize)
    } else {
        None
    }
}

/// Executable decimal parsing: digits only, value must fit.
pub fn parse_usize(s: &[char]) -> (r: Option<usize>)
    ensures
        r == spec_parse_usize(s@),
{
    let n = s.len();
    if n == 0 {
        return None;
    }
    let mut i: usize = 0;
    while i < n
        invariant
            n == s@.len(),
            i <= n,
            forall|k: int| 0 <= k < i ==> is_digit_ch(s@[k]),
        decreases n - i,
    {
        let c = s[i];
        if !(c >= '0' && c <= '9') {
            return None;
        }
        i = i + 1;
    }
    let mut acc: usize = 0;
    let mut j: usize = 0;
    while j < n
        invariant
            n == s@.len(),
            j <= n,
            all_digits(s@),
            acc == val(s@.take(j as int)),
        decreases n - j,
    {
        let c = s[j];
        let d: usize = (c as u32 - 48) as usize;
        proof {
            assert(s@.take(j + 1).drop_last() =~~= s@.take(j as int));
            assert(s@.take(j + 1).last() == s@[j as int]);
            assert(d == digit_val(s@[j as int]));
        }
        if acc > (usize::MAX - d) / 10 {
            proof {
                assert(val(s@.take(j + 1)) == 10 * acc + d);
                assert(10 * acc + d > usize::MAX) by (nonlinear_arith)
                    requires
                        acc > (usize::MAX - d) / 10,
                        d <= 9,
                        acc >= 0,
                ;
                lemma_val_prefix_le(s@, j + 1);
            }
            return None;
        }
        proof {
            assert(acc * 10 + d <= usize::MAX) by (nonlinear_arith)
                requires
                    acc <= (usize::MAX - d) / 10,
                    0 <= d <= 9,
                    acc >= 0,
            ;
        }
        acc = acc * 10 + d;
        j = j + 1;
    }
    proof {
        assert(s@.take(n as int) =~~= s@);
    }
    Some(acc)
}

} // verus!
