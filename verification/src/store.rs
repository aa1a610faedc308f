//! The task store's text format.
//!
//! One task per line, tokens separated by single spaces: the tokens
//! that begin with `@` (the due date, optional) and `#` (the interval,
//! mandatory) may each appear once; every other token belongs to the
//! name, which is put back together with single spaces. Files are
//! newline-joined lines; empty lines are skipped on load, and any bad
//! line fails the whole load.

use crate::date::{lemma_render_parse_date, parse_ymd, render_date_chars, spec_parse_ymd,
    spec_render_date, Date};
use crate::spacedtask::{SpacedTask, TaskV};
use crate::text::{
    chars_to_string, dec_rep, fmt_usize, is_digit_ch, join, lemma_dec_rep_digits, lemma_join_concat,
    lemma_join_push, lemma_join_split, lemma_split_join, lemma_split_len, lemma_split_no_sep,
    lemma_val_dec_rep, parse_usize, push_all, split, split_chars, spec_parse_usize, str_to_chars,
};
use vstd::prelude::*;
use vstd::slice::slice_subrange;

verus! {

/// Why a line failed to parse. Each malformed shape gets its own
/// variant, so callers can tell the cases apart.
#[derive(Debug, PartialEq, Eq, Structural, Clone, Copy)]
pub enum ParseError {
    /// A second `@...` date token on one line.
    DuplicateDate,
    /// A second `#...` interval token on one line.
    DuplicateInterval,
    /// No `#...` interval token on the line.
    MissingInterval,
    /// An `@...` token that does not name a representable date.
    BadDate,
    /// A `#...` token that is not a decimal number that fits.
    BadInterval,
}

pub open spec fn is_date_tok(t: Seq<char>) -> bool {
    t.len() > 0 && t[0] == '@'
}

pub open spec fn is_int_tok(t: Seq<char>) -> bool {
    t.len() > 0 && t[0] == '#'
}

pub open spec fn is_name_tok(t: Seq<char>) -> bool {
    !is_date_tok(t) && !is_int_tok(t)
}

pub open spec fn date_toks(toks: Seq<Seq<char>>) -> Seq<Seq<char>>
    decreases toks.len(),
{
    if toks.len() == 0 {
        Seq::<Seq<char>>::empty()
    } else {
        date_toks(toks.drop_last()) + (if is_date_tok(toks.last()) {
            seq![toks.last()]
        } else {
            Seq::<Seq<char>>::empty()
        })
    }
}

pub open spec fn int_toks(toks: Seq<Seq<char>>) -> Seq<Seq<char>>
    decreases toks.len(),
{
    if toks.len() == 0 {
        Seq::<Seq<char>>::empty()
    } else {
        int_toks(toks.drop_last()) + (if is_int_tok(toks.last()) {
            seq![toks.last()]
        } else {
            Seq::<Seq<char>>::empty()
        })
    }
}

pub open spec fn name_toks(toks: Seq<Seq<char>>) -> Seq<Seq<char>>
    decreases toks.len(),
{
    if toks.len() == 0 {
        Seq::<Seq<char>>::empty()
    } else {
        name_toks(toks.drop_last()) + (if is_name_tok(toks.last()) {
            seq![toks.last()]
        } else {
            Seq::<Seq<char>>::empty()
        })
    }
}

/// What a tokenized line means: exactly one interval token, at most
/// one date token, and the rest is the name.
pub open spec fn parse_toks(toks: Seq<Seq<char>>) -> Result<TaskV, ParseError> {
    let dt = date_toks(toks);
    let it = int_toks(toks);
    let nt = name_toks(toks);
    if it.len() == 0 {
        Err(ParseError::MissingInterval)
    } else if it.len() > 1 {
        Err(ParseError::DuplicateInterval)
    } else if dt.len() > 1 {
        Err(ParseError::DuplicateDate)
    } else if dt.len() == 1 && spec_parse_ymd(dt[0].drop_first()) is None {
        Err(ParseError::BadDate)
    } else if spec_parse_usize(it[0].drop_first()) is None {
        Err(ParseError::BadInterval)
    } else {
        Ok(
            TaskV {
                name: join(nt, ' '),
                date: if dt.len() == 1 {
                    spec_parse_ymd(dt[0].drop_first())
                } else {
                    None
                },
                interval: spec_parse_usize(it[0].drop_first())->0 as int,
            },
        )
    }
}

pub open spec fn spec_parse_line(line: Seq<char>) -> Result<TaskV, ParseError> {
    parse_toks(split(line, ' '))
}

/// The one line a task is written as.
pub open spec fn spec_render_line(t: TaskV) -> Seq<char> {
    t.name + seq![' '] + (match t.date {
        Some(d) => seq!['@'] + spec_render_date(d) + seq![' '],
        None => Seq::<char>::empty(),
    }) + seq!['#'] + dec_rep(t.interval as nat)
}

/// A name the format can carry: none of its space-separated tokens
/// begins with `@` or `#`, and it holds no newline.
pub open spec fn valid_name(name: Seq<char>) -> bool {
    (forall|i: int|
        0 <= i < split(name, ' ').len() ==> is_name_tok(split(name, ' ')[i])) && (forall|j: int|
        0 <= j < name.len() ==> name[j] != '\n')
}

/// A task the store can write and read back unchanged.
pub open spec fn valid_task(t: TaskV) -> bool {
    valid_name(t.name) && (t.date matches Some(d) ==> d.wf()) && 0 <= t.interval <= usize::MAX
}

// ---------------------------------------------------------------------
// Token bookkeeping lemmas.
// ---------------------------------------------------------------------

/// How the token classes grow by one appended token.
pub proof fn lemma_toks_push(a: Seq<Seq<char>>, x: Seq<char>)
    ensures
        date_toks(a.push(x)) == date_toks(a) + (if is_date_tok(x) {
            seq![x]
        } else {
            Seq::<Seq<char>>::empty()
        }),
        int_toks(a.push(x)) == int_toks(a) + (if is_int_tok(x) {
            seq![x]
        } else {
            Seq::<Seq<char>>::empty()
        }),
        name_toks(a.push(x)) == name_toks(a) + (if is_name_tok(x) {
            seq![x]
        } else {
            Seq::<Seq<char>>::empty()
        }),
{
    assert(a.push(x).drop_last() =~~= a);
    assert(a.push(x).last() == x);
}

/// The token classes distribute over concatenation.
pub proof fn lemma_toks_concat(a: Seq<Seq<char>>, b: Seq<Seq<char>>)
    ensures
        date_toks(a + b) == date_toks(a) + date_toks(b),
        int_toks(a + b) == int_toks(a) + int_toks(b),
        name_toks(a + b) == name_toks(a) + name_toks(b),
    decreases b.len(),
{
    if b.len() == 0 {
        assert(a + b =~~= a);
        assert(date_toks(a) + date_toks(b) =~~= date_toks(a));
        assert(int_toks(a) + int_toks(b) =~~= int_toks(a));
        assert(name_toks(a) + name_toks(b) =~~= name_toks(a));
    } else {
        lemma_toks_concat(a, b.drop_last());
        assert((a + b).drop_last() =~~= a + b.drop_last());
        assert((a + b).last() == b.last());
        assert(date_toks(a + b) =~~= date_toks(a) + date_toks(b));
        assert(int_toks(a + b) =~~= int_toks(a) + int_toks(b));
        assert(name_toks(a + b) =~~= name_toks(a) + name_toks(b));
    }
}

/// A run of name-class tokens is all name and no date or interval.
pub proof fn lemma_name_toks_all(s: Seq<Seq<char>>)
    requires
        forall|i: int| 0 <= i < s.len() ==> is_name_tok(s[i]),
    ensures
        name_toks(s) == s,
        date_toks(s) == Seq::<Seq<char>>::empty(),
        int_toks(s) == Seq::<Seq<char>>::empty(),
    decreases s.len(),
{
    if s.len() > 0 {
        assert(forall|i: int| 0 <= i < s.drop_last().len() ==> is_name_tok(#[trigger] s.drop_last()[i]));
        lemma_name_toks_all(s.drop_last());
        assert(is_name_tok(s.last()));
        assert(name_toks(s) =~~= s);
        assert(date_toks(s) =~~= Seq::<Seq<char>>::empty());
        assert(int_toks(s) =~~= Seq::<Seq<char>>::empty());
    }
}

// ---------------------------------------------------------------------
// Executable parsing.
// ---------------------------------------------------------------------

/// Parse one tokenized line.
fn parse_task_chars(line: &[char]) -> (r: Result<SpacedTask, ParseError>)
    ensures
        r matches Ok(t) ==> spec_parse_line(line@) == Ok::<TaskV, ParseError>(t@) && t.wf(),
        r matches Err(e) ==> spec_parse_line(line@) == Err::<TaskV, ParseError>(e),
{
    let toks = split_chars(line, ' ');
    let ghost ts = split(line@, ' ');
    let n = toks.len();
    let mut n_int: usize = 0;
    let mut n_date: usize = 0;
    let mut idx_int: usize = 0;
    let mut idx_date: usize = 0;
    let mut i: usize = 0;
    proof {
        assert(ts.take(0) =~~= Seq::<Seq<char>>::empty());
    }
    while i < n
        invariant
            toks.deep_view() == ts,
            ts == split(line@, ' '),
            n == ts.len(),
            i <= n,
            n_int <= i,
            n_date <= i,
            n_int == int_toks(ts.take(i as int)).len(),
            n_date == date_toks(ts.take(i as int)).len(),
            n_int > 0 ==> idx_int < i && is_int_tok(ts[idx_int as int]) && int_toks(
                ts.take(i as int),
            )[0] == ts[idx_int as int],
            n_date > 0 ==> idx_date < i && is_date_tok(ts[idx_date as int]) && date_toks(
                ts.take(i as int),
            )[0] == ts[idx_date as int],
        decreases n - i,
    {
        proof {
            assert(ts.take(i + 1) =~~= ts.take(i as int).push(ts[i as int]));
            lemma_toks_push(ts.take(i as int), ts[i as int]);
            assert(toks.deep_view()[i as int] == toks@[i as int].deep_view());
            assert(toks@[i as int].deep_view() =~~= toks@[i as int]@);
        }
        let tl = toks[i].len();
        if tl > 0 {
            let c0 = toks[i][0];
            if c0 == '#' {
                if n_int == 0 {
                    idx_int = i;
                }
                n_int = n_int + 1;
            } else if c0 == '@' {
                if n_date == 0 {
                    idx_date = i;
                }
                n_date = n_date + 1;
            }
        }
        i = i + 1;
    }
    proof {
        assert(ts.take(n as int) =~~= ts);
    }
    if n_int == 0 {
        return Err(ParseError::MissingInterval);
    }
    if n_int > 1 {
        return Err(ParseError::DuplicateInterval);
    }
    if n_date > 1 {
        return Err(ParseError::DuplicateDate);
    }
    let date: Option<Date> = if n_date == 1 {
        let dlen = toks[idx_date].len();
        proof {
            assert(toks.deep_view()[idx_date as int] == toks@[idx_date as int].deep_view());
            assert(toks@[idx_date as int].deep_view() =~~= toks@[idx_date as int]@);
            assert(is_date_tok(ts[idx_date as int]));
            assert(toks@[idx_date as int]@.subrange(1, dlen as int) =~~= ts[
                idx_date as int
            ].drop_first());
        }
        let tail = slice_subrange(toks[idx_date].as_slice(), 1, dlen);
        match parse_ymd(tail) {
            None => {
                return Err(ParseError::BadDate);
            },
            Some(d) => Some(d),
        }
    } else {
        None
    };
    let ilen = toks[idx_int].len();
    proof {
        assert(toks.deep_view()[idx_int as int] == toks@[idx_int as int].deep_view());
        assert(toks@[idx_int as int].deep_view() =~~= toks@[idx_int as int]@);
        assert(is_int_tok(ts[idx_int as int]));
        assert(toks@[idx_int as int]@.subrange(1, ilen as int) =~~= ts[idx_int as int].drop_first());
    }
    let itail = slice_subrange(toks[idx_int].as_slice(), 1, ilen);
    let interval = match parse_usize(itail) {
        None => {
            return Err(ParseError::BadInterval);
        },
        Some(v) => v,
    };
    let mut name_chars: Vec<char> = Vec::new();
    let mut cnt: usize = 0;
    let mut j: usize = 0;
    proof {
        assert(ts.take(0) =~~= Seq::<Seq<char>>::empty());
    }
    while j < n
        invariant
            toks.deep_view() == ts,
            ts == split(line@, ' '),
            n == ts.len(),
            j <= n,
            cnt <= j,
            cnt == name_toks(ts.take(j as int)).len(),
            name_chars@ == join(name_toks(ts.take(j as int)), ' '),
        decreases n - j,
    {
        proof {
            assert(ts.take(j + 1) =~~= ts.take(j as int).push(ts[j as int]));
            lemma_toks_push(ts.take(j as int), ts[j as int]);
            assert(toks.deep_view()[j as int] == toks@[j as int].deep_view());
            assert(toks@[j as int].deep_view() =~~= toks@[j as int]@);
        }
        let tl = toks[j].len();
        let mut name_tok = true;
        if tl > 0 {
            let c0 = toks[j][0];
            if c0 == '#' || c0 == '@' {
                name_tok = false;
            }
        }
        if name_tok {
            proof {
                lemma_join_push(name_toks(ts.take(j as int)), ts[j as int], ' ');
                assert(name_toks(ts.take(j as int)).push(ts[j as int]) =~~= name_toks(ts.take(
                    j as int,
                )) + seq![ts[j as int]]);
            }
            if cnt > 0 {
                name_chars.push(' ');
            }
            push_all(&mut name_chars, toks[j].as_slice());
            proof {
                if cnt > 0 {
                    assert(join(name_toks(ts.take(j as int)), ' ').push(' ') + ts[j as int] =~~=
                    join(name_toks(ts.take(j as int)), ' ') + seq![' '] + ts[j as int]);
                }
            }
            cnt = cnt + 1;
        }
        j = j + 1;
    }
    proof {
        assert(ts.take(n as int) =~~= ts);
    }
    let name = chars_to_string(&name_chars);
    let task = SpacedTask { name, date, interval };
    proof {
        let v = parse_toks(ts)->Ok_0;
        assert(v =~~= task@);
    }
    Ok(task)
}

/// Parse one line of the store's format.
pub fn parse_task(line: &str) -> (r: Result<SpacedTask, ParseError>)
    ensures
        r matches Ok(t) ==> spec_parse_line(line@) == Ok::<TaskV, ParseError>(t@) && t.wf(),
        r matches Err(e) ==> spec_parse_line(line@) == Err::<TaskV, ParseError>(e),
{
    let chars = str_to_chars(line);
    parse_task_chars(chars.as_slice())
}

// ---------------------------------------------------------------------
// Executable rendering.
// ---------------------------------------------------------------------

/// The characters of the one line `t` is written as.
pub fn line_chars(t: &SpacedTask) -> (r: Vec<char>)
    ensures
        r@ == spec_render_line(t@),
{
    let mut v: Vec<char> = Vec::new();
    let name_cs = str_to_chars(t.name.as_str());
    push_all(&mut v, name_cs.as_slice());
    v.push(' ');
    match t.date {
        Some(d) => {
            v.push('@');
            let dc = render_date_chars(&d);
            push_all(&mut v, dc.as_slice());
            v.push(' ');
        },
        None => {},
    }
    v.push('#');
    let ic = fmt_usize(t.interval);
    push_all(&mut v, ic.as_slice());
    proof {
        assert(v@ =~~= spec_render_line(t@));
    }
    v
}

impl SpacedTask {
    /// One line of text for a task.
    pub fn render(&self) -> (r: String)
        ensures
            r@ == spec_render_line(self@),
    {
        let v = line_chars(self);
        chars_to_string(&v)
    }
}

// ---------------------------------------------------------------------
// Whole files.
// ---------------------------------------------------------------------

/// What a split-up file means: empty lines are skipped, every other
/// line must parse, and the first bad line fails the whole load.
pub open spec fn parse_lines(lines: Seq<Seq<char>>) -> Result<Seq<TaskV>, ParseError>
    decreases lines.len(),
{
    if lines.len() == 0 {
        Ok(Seq::<TaskV>::empty())
    } else if lines[0].len() == 0 {
        parse_lines(lines.drop_first())
    } else {
        match spec_parse_line(lines[0]) {
            Err(e) => Err(e),
            Ok(t) => match parse_lines(lines.drop_first()) {
                Err(e) => Err(e),
                Ok(rest) => Ok(seq![t] + rest),
            },
        }
    }
}

pub open spec fn spec_parse_file(text: Seq<char>) -> Result<Seq<TaskV>, ParseError> {
    parse_lines(split(text, '\n'))
}

pub open spec fn spec_render_file(ts: Seq<TaskV>) -> Seq<char> {
    join(ts.map_values(|t: TaskV| spec_render_line(t)), '\n')
}

/// Load: parse a whole file's text into the ordered task sequence.
/// Either every nonempty line parses or the first error is returned.
pub fn parse_tasks(contents: &str) -> (r: Result<Vec<SpacedTask>, ParseError>)
    ensures
        r matches Ok(v) ==> spec_parse_file(contents@) == Ok::<Seq<TaskV>, ParseError>(
            v.deep_view(),
        ) && (forall|i: int| 0 <= i < v.len() ==> v@[i].wf()),
        r matches Err(e) ==> spec_parse_file(contents@) == Err::<Seq<TaskV>, ParseError>(e),
{
    let chars = str_to_chars(contents);
    let pieces = split_chars(chars.as_slice(), '\n');
    let ghost lines = split(contents@, '\n');
    let n = pieces.len();
    let mut acc: Vec<SpacedTask> = Vec::new();
    let mut i: usize = 0;
    proof {
        assert(lines.skip(0) =~~= lines);
        assert(acc.deep_view() =~~= Seq::<TaskV>::empty());
        if parse_lines(lines) is Ok {
            let rest = parse_lines(lines)->Ok_0;
            assert(Seq::<TaskV>::empty() + rest =~~= rest);
        }
    }
    while i < n
        invariant
            pieces.deep_view() == lines,
            lines == split(contents@, '\n'),
            n == lines.len(),
            i <= n,
            forall|k: int| 0 <= k < acc.len() ==> acc@[k].wf(),
            parse_lines(lines.skip(i as int)) matches Ok(rest) ==> parse_lines(lines)
                == Ok::<Seq<TaskV>, ParseError>(acc.deep_view() + rest),
            parse_lines(lines.skip(i as int)) matches Err(e) ==> parse_lines(lines) == Err::<
                Seq<TaskV>,
                ParseError,
            >(e),
        decreases n - i,
    {
        proof {
            assert(lines.skip(i as int)[0] == lines[i as int]);
            assert(lines.skip(i as int).drop_first() =~~= lines.skip(i + 1));
            assert(pieces.deep_view()[i as int] == pieces@[i as int].deep_view());
            assert(pieces@[i as int].deep_view() =~~= pieces@[i as int]@);
        }
        if pieces[i].len() > 0 {
            match parse_task_chars(pieces[i].as_slice()) {
                Err(e) => {
                    return Err(e);
                },
                Ok(t) => {
                    let ghost old_deep = acc.deep_view();
                    acc.push(t);
                    proof {
                        assert(acc.deep_view() =~~= old_deep.push(t@));
                        if parse_lines(lines.skip(i + 1)) is Ok {
                            let rest = parse_lines(lines.skip(i + 1))->Ok_0;
                            assert(old_deep + (seq![t@] + rest) =~~= old_deep.push(t@) + rest);
                        }
                    }
                },
            }
        }
        i = i + 1;
    }
    proof {
        assert(lines.skip(n as int) =~~= Seq::<Seq<char>>::empty());
        assert(acc.deep_view() + Seq::<TaskV>::empty() =~~= acc.deep_view());
    }
    Ok(acc)
}

/// Save: the whole file's text for an ordered task sequence, one line
/// per task, newline-joined.
pub fn render_tasks(tasks: &Vec<SpacedTask>) -> (r: String)
    ensures
        r@ == spec_render_file(tasks.deep_view()),
{
    let mut lines: Vec<Vec<char>> = Vec::new();
    let n = tasks.len();
    let mut i: usize = 0;
    proof {
        assert(lines.deep_view() =~~= tasks.deep_view().take(0).map_values(
            |t: TaskV| spec_render_line(t),
        ));
    }
    while i < n
        invariant
            n == tasks@.len(),
            tasks.deep_view().len() == n,
            i <= n,
            lines.deep_view() == tasks.deep_view().take(i as int).map_values(
                |t: TaskV| spec_render_line(t),
            ),
        decreases n - i,
    {
        let lc = line_chars(&tasks[i]);
        let ghost old_deep = lines.deep_view();
        lines.push(lc);
        proof {
            assert(lines.deep_view() =~~= old_deep.push(lc@));
            assert(tasks.deep_view()[i as int] == tasks@[i as int]@);
            assert(tasks.deep_view().take(i + 1).map_values(|t: TaskV| spec_render_line(t)) =~~=
            tasks.deep_view().take(i as int).map_values(|t: TaskV| spec_render_line(t)).push(
                spec_render_line(tasks.deep_view()[i as int]),
            ));
        }
        i = i + 1;
    }
    proof {
        assert(tasks.deep_view().take(n as int) =~~= tasks.deep_view());
    }
    let joined = crate::text::join_chars(&lines, '\n');
    chars_to_string(&joined)
}

// ---------------------------------------------------------------------
// The store's laws.
// ---------------------------------------------------------------------

/// One task written and read back is the same task, and its line is
/// nonempty and free of newlines.
pub proof fn lemma_line_round_trip(t: TaskV)
    requires
        valid_task(t),
    ensures
        spec_parse_line(spec_render_line(t)) == Ok::<TaskV, ParseError>(t),
        spec_render_line(t).len() > 0,
        forall|j: int| 0 <= j < spec_render_line(t).len() ==> spec_render_line(t)[j] != '\n',
{
    let ns = split(t.name, ' ');
    lemma_split_len(t.name, ' ');
    lemma_split_no_sep(t.name, ' ');
    lemma_join_split(t.name, ' ');
    lemma_dec_rep_digits(t.interval as nat);
    lemma_val_dec_rep(t.interval as nat);
    let rep = dec_rep(t.interval as nat);
    let itok = seq!['#'] + rep;
    assert(is_int_tok(itok));
    assert(itok.drop_first() =~~= rep);
    assert(spec_parse_usize(rep) == Some(t.interval as usize));
    let r = spec_render_line(t);
    let ln = t.name.len() as int;
    match t.date {
        Some(d) => {
            lemma_render_parse_date(d);
            let dr = spec_render_date(d);
            let ld = dr.len() as int;
            let dtok = seq!['@'] + dr;
            assert(is_date_tok(dtok));
            assert(dtok.drop_first() =~~= dr);
            let tail = seq![dtok, itok];
            let toks = ns + tail;
            lemma_join_concat(ns, tail, ' ');
            assert(tail.drop_first() =~~= seq![itok]);
            assert(join(seq![itok], ' ') == itok);
            assert(join(tail, ' ') == dtok + seq![' '] + itok);
            assert(join(toks, ' ') =~~= r);
            assert forall|i2: int, j2: int|
                0 <= i2 < toks.len() && 0 <= j2 < toks[i2].len() implies toks[i2][j2] != ' ' by {
                if i2 < ns.len() {
                    assert(toks[i2] == ns[i2]);
                } else if i2 == ns.len() {
                    assert(toks[i2] == dtok);
                    if j2 > 0 {
                        assert(dtok[j2] == dr[j2 - 1]);
                        assert(is_digit_ch(dr[j2 - 1]) || dr[j2 - 1] == '-');
                    }
                } else {
                    assert(toks[i2] == itok);
                    if j2 > 0 {
                        assert(itok[j2] == rep[j2 - 1]);
                        assert(is_digit_ch(rep[j2 - 1]));
                    }
                }
            }
            lemma_split_join(toks, ' ');
            assert(split(r, ' ') == toks);
            lemma_toks_concat(ns, tail);
            lemma_name_toks_all(ns);
            assert(tail.drop_last() =~~= seq![dtok]);
            assert(tail.last() == itok);
            assert(seq![dtok].drop_last() =~~= Seq::<Seq<char>>::empty());
            assert(seq![dtok].last() == dtok);
            assert(date_toks(Seq::<Seq<char>>::empty()) == Seq::<Seq<char>>::empty());
            assert(int_toks(Seq::<Seq<char>>::empty()) == Seq::<Seq<char>>::empty());
            assert(name_toks(Seq::<Seq<char>>::empty()) == Seq::<Seq<char>>::empty());
            assert(date_toks(seq![dtok]) =~~= seq![dtok]);
            assert(int_toks(seq![dtok]) =~~= Seq::<Seq<char>>::empty());
            assert(name_toks(seq![dtok]) =~~= Seq::<Seq<char>>::empty());
            assert(date_toks(tail) =~~= seq![dtok]);
            assert(int_toks(tail) =~~= seq![itok]);
            assert(name_toks(tail) =~~= Seq::<Seq<char>>::empty());
            assert(date_toks(toks) =~~= seq![dtok]);
            assert(int_toks(toks) =~~= seq![itok]);
            assert(name_toks(toks) =~~= ns);
            assert(spec_parse_ymd(dtok.drop_first()) == Some(d));
            let v = parse_toks(toks)->Ok_0;
            assert(v =~~= t);
            assert forall|j: int| 0 <= j < r.len() implies r[j] != '\n' by {
                if j < ln {
                    assert(r[j] == t.name[j]);
                } else if j == ln {
                    assert(r[j] == ' ');
                } else if j == ln + 1 {
                    assert(r[j] == '@');
                } else if j < ln + 2 + ld {
                    assert(r[j] == dr[j - ln - 2]);
                    assert(is_digit_ch(dr[j - ln - 2]) || dr[j - ln - 2] == '-');
                } else if j == ln + 2 + ld {
                    assert(r[j] == ' ');
                } else if j == ln + 3 + ld {
                    assert(r[j] == '#');
                } else {
                    assert(r[j] == rep[j - ln - 4 - ld]);
                    assert(is_digit_ch(rep[j - ln - 4 - ld]));
                }
            }
        },
        None => {
            let tail = seq![itok];
            let toks = ns + tail;
            lemma_join_concat(ns, tail, ' ');
            assert(join(tail, ' ') == itok);
            assert(join(toks, ' ') =~~= r);
            assert forall|i2: int, j2: int|
                0 <= i2 < toks.len() && 0 <= j2 < toks[i2].len() implies toks[i2][j2] != ' ' by {
                if i2 < ns.len() {
                    assert(toks[i2] == ns[i2]);
                } else {
                    assert(toks[i2] == itok);
                    if j2 > 0 {
                        assert(itok[j2] == rep[j2 - 1]);
                        assert(is_digit_ch(rep[j2 - 1]));
                    }
                }
            }
            lemma_split_join(toks, ' ');
            assert(split(r, ' ') == toks);
            lemma_toks_concat(ns, tail);
            lemma_name_toks_all(ns);
            assert(seq![itok].drop_last() =~~= Seq::<Seq<char>>::empty());
            assert(seq![itok].last() == itok);
            assert(date_toks(Seq::<Seq<char>>::empty()) == Seq::<Seq<char>>::empty());
            assert(int_toks(Seq::<Seq<char>>::empty()) == Seq::<Seq<char>>::empty());
            assert(name_toks(Seq::<Seq<char>>::empty()) == Seq::<Seq<char>>::empty());
            assert(date_toks(tail) =~~= Seq::<Seq<char>>::empty());
            assert(int_toks(tail) =~~= seq![itok]);
            assert(name_toks(tail) =~~= Seq::<Seq<char>>::empty());
            assert(date_toks(toks) =~~= Seq::<Seq<char>>::empty());
            assert(int_toks(toks) =~~= seq![itok]);
            assert(name_toks(toks) =~~= ns);
            let v = parse_toks(toks)->Ok_0;
            assert(v =~~= t);
            assert forall|j: int| 0 <= j < r.len() implies r[j] != '\n' by {
                if j < ln {
                    assert(r[j] == t.name[j]);
                } else if j == ln {
                    assert(r[j] == ' ');
                } else if j == ln + 1 {
                    assert(r[j] == '#');
                } else {
                    assert(r[j] == rep[j - ln - 2]);
                    assert(is_digit_ch(rep[j - ln - 2]));
                }
            }
        },
    }
}

proof fn lemma_parse_lines_all(ts: Seq<TaskV>)
    requires
        forall|i: int| 0 <= i < ts.len() ==> valid_task(ts[i]),
    ensures
        parse_lines(ts.map_values(|t: TaskV| spec_render_line(t))) == Ok::<Seq<TaskV>, ParseError>(
            ts,
        ),
    decreases ts.len(),
{
    let lines = ts.map_values(|t: TaskV| spec_render_line(t));
    if ts.len() == 0 {
        assert(lines =~~= Seq::<Seq<char>>::empty());
        assert(parse_lines(lines) == Ok::<Seq<TaskV>, ParseError>(Seq::<TaskV>::empty()));
        assert(Seq::<TaskV>::empty() =~~= ts);
    } else {
        lemma_line_round_trip(ts[0]);
        assert(lines[0] == spec_render_line(ts[0]));
        assert(lines[0].len() > 0);
        assert(forall|i: int| 0 <= i < ts.drop_first().len() ==> valid_task(
            #[trigger] ts.drop_first()[i],
        ));
        lemma_parse_lines_all(ts.drop_first());
        assert(lines.drop_first() =~~= ts.drop_first().map_values(
            |t: TaskV| spec_render_line(t),
        ));
        assert(seq![ts[0]] + ts.drop_first() =~~= ts);
    }
}

/// Saving any sequence of storable tasks and loading the result gives
/// the same sequence back: same names, dates, intervals, and order.
pub proof fn lemma_store_round_trip(ts: Seq<TaskV>)
    requires
        forall|i: int| 0 <= i < ts.len() ==> valid_task(ts[i]),
    ensures
        spec_parse_file(spec_render_file(ts)) == Ok::<Seq<TaskV>, ParseError>(ts),
{
    let lines = ts.map_values(|t: TaskV| spec_render_line(t));
    if ts.len() == 0 {
        assert(lines =~~= Seq::<Seq<char>>::empty());
        assert(spec_render_file(ts) == Seq::<char>::empty());
        let sp = split(Seq::<char>::empty(), '\n');
        assert(sp == seq![Seq::<char>::empty()]);
        assert(sp.drop_first() =~~= Seq::<Seq<char>>::empty());
        assert(sp[0].len() == 0);
        assert(parse_lines(Seq::<Seq<char>>::empty()) == Ok::<Seq<TaskV>, ParseError>(
            Seq::<TaskV>::empty(),
        ));
        assert(parse_lines(sp) == Ok::<Seq<TaskV>, ParseError>(Seq::<TaskV>::empty()));
        assert(Seq::<TaskV>::empty() =~~= ts);
    } else {
        assert forall|i2: int, j2: int|
            0 <= i2 < lines.len() && 0 <= j2 < lines[i2].len() implies lines[i2][j2] != '\n' by {
            lemma_line_round_trip(ts[i2]);
            assert(lines[i2] == spec_render_line(ts[i2]));
        }
        lemma_split_join(lines, '\n');
        lemma_parse_lines_all(ts);
    }
}

/// The malformed shapes are rejected, each with its own error: no
/// interval token, a second interval token, or a second date token.
pub proof fn lemma_parse_line_errors(line: Seq<char>)
    ensures
        int_toks(split(line, ' ')).len() == 0 ==> spec_parse_line(line) == Err::<
            TaskV,
            ParseError,
        >(ParseError::MissingInterval),
        int_toks(split(line, ' ')).len() > 1 ==> spec_parse_line(line) == Err::<TaskV, ParseError>(
            ParseError::DuplicateInterval,
        ),
        int_toks(split(line, ' ')).len() == 1 && date_toks(split(line, ' ')).len() > 1
            ==> spec_parse_line(line) == Err::<TaskV, ParseError>(ParseError::DuplicateDate),
{
}

} // verus!
