//! The operations the command shell invokes on the in-memory task
//! list: adding tasks and picking out what is due.

use crate::date::{parse_ymd, spec_parse_ymd, Date};
use crate::spacedtask::{SpacedTask, TaskV};
use crate::store::ParseError;
use crate::text::{chars_to_string, join, lemma_join_push, push_all, str_to_chars};
use vstd::prelude::*;
use vstd::string::StringExecFns;

verus! {

/// Append a task named `title` to the list. `start`, when given, must
/// be a `YYYY-MM-DD` date and becomes the due date; otherwise the
/// task is due today. The only failure is a bad `start` date, which
/// leaves the list untouched.
pub fn add(tasks: &mut Vec<SpacedTask>, title: String, start: Option<String>) -> (r: Result<
    (),
    ParseError,
>)
    ensures
        r is Ok <==> (start matches Some(s) ==> spec_parse_ymd(s@) is Some),
        r is Err ==> final(tasks)@ == old(tasks)@ && r == Err::<(), ParseError>(
            ParseError::BadDate,
        ),
        r is Ok ==> final(tasks)@.len() == old(tasks)@.len() + 1 && final(tasks)@.drop_last()
            == old(tasks)@ && final(tasks)@.last().name@ == title@ && final(tasks)@.last().interval
            == 1 && final(tasks)@.last().date is Some && final(tasks)@.last().wf() && (
        start matches Some(s) ==> final(tasks)@.last().date == spec_parse_ymd(s@)),
{
    let date: Option<Date> = match start {
        Some(s) => {
            let cs = str_to_chars(s.as_str());
            match parse_ymd(cs.as_slice()) {
                Some(d) => Some(d),
                None => {
                    return Err(ParseError::BadDate);
                },
            }
        },
        None => None,
    };
    let t = SpacedTask::new(title, date);
    tasks.push(t);
    proof {
        assert(tasks@.drop_last() =~~= old(tasks)@);
    }
    Ok(())
}

/// Append a task with no due date yet.
pub fn add_unscheduled(tasks: &mut Vec<SpacedTask>, title: String) -> (r: Result<(), ParseError>)
    ensures
        r is Ok,
        final(tasks)@.len() == old(tasks)@.len() + 1,
        final(tasks)@.drop_last() == old(tasks)@,
        final(tasks)@.last().name@ == title@,
        final(tasks)@.last().interval == 1,
        final(tasks)@.last().date is None,
{
    let t = SpacedTask::new_unscheduled(title);
    tasks.push(t);
    proof {
        assert(tasks@.drop_last() =~~= old(tasks)@);
    }
    Ok(())
}

pub open spec fn is_start_flag(t: Seq<char>) -> bool {
    t == "--start"@ || t == "-s"@
}

/// What scanning the argument words yields: the name words, in order,
/// and the word following the last start flag.
#[verifier::ext_equal]
pub struct ScanRes {
    pub title: Seq<Seq<char>>,
    pub start: Option<Seq<char>>,
}

/// The argument scan: a `--start`/`-s` flag makes the next word the
/// start date (a later one wins); every other word joins the title.
pub open spec fn scan_args(args: Seq<Seq<char>>, expecting: bool) -> ScanRes
    decreases args.len(),
{
    if args.len() == 0 {
        ScanRes { title: Seq::<Seq<char>>::empty(), start: None }
    } else if expecting {
        let rest = scan_args(args.drop_first(), false);
        ScanRes {
            title: rest.title,
            start: if rest.start is Some {
                rest.start
            } else {
                Some(args[0])
            },
        }
    } else if is_start_flag(args[0]) {
        scan_args(args.drop_first(), true)
    } else {
        let rest = scan_args(args.drop_first(), false);
        ScanRes { title: seq![args[0]] + rest.title, start: rest.start }
    }
}

pub open spec fn opt_str_view(o: Option<String>) -> Option<Seq<char>> {
    match o {
        Some(s) => Some(s@),
        None => None,
    }
}

/// Add a task from raw argument words (the first word is the command
/// itself and is skipped): name words are joined with single spaces,
/// and a `--start`/`-s` flag takes the following word as the start
/// date.
pub fn try_add(tasks: &mut Vec<SpacedTask>, args: &[String]) -> (r: Result<(), ParseError>)
    requires
        args@.len() >= 1,
    ensures
        r is Ok <==> (scan_args(args.deep_view().skip(1), false).start matches Some(s)
            ==> spec_parse_ymd(s) is Some),
        r is Err ==> final(tasks)@ == old(tasks)@ && r == Err::<(), ParseError>(
            ParseError::BadDate,
        ),
        r is Ok ==> final(tasks)@.len() == old(tasks)@.len() + 1 && final(tasks)@.drop_last()
            == old(tasks)@ && final(tasks)@.last().name@ == join(
            scan_args(args.deep_view().skip(1), false).title,
            ' ',
        ) && final(tasks)@.last().interval == 1 && final(tasks)@.last().date is Some
            && final(tasks)@.last().wf() && (scan_args(args.deep_view().skip(1), false).start
            matches Some(s) ==> final(tasks)@.last().date == spec_parse_ymd(s)),
{
    let ghost av = args.deep_view();
    let ghost scan0 = scan_args(av.skip(1), false);
    let flag_long: String = String::from_str("--start");
    let flag_short: String = String::from_str("-s");
    let n = args.len();
    let mut i: usize = 1;
    let mut expecting = false;
    let mut title_chars: Vec<char> = Vec::new();
    let ghost mut title_acc: Seq<Seq<char>> = Seq::<Seq<char>>::empty();
    let mut cnt: usize = 0;
    let mut start_s: Option<String> = None;
    proof {
        assert(join(title_acc, ' ') =~~= Seq::<char>::empty());
        assert(title_acc + scan_args(av.skip(1), false).title =~~= scan_args(
            av.skip(1),
            false,
        ).title);
    }
    while i < n
        invariant
            av == args.deep_view(),
            scan0 == scan_args(av.skip(1), false),
            n == av.len(),
            1 <= i <= n,
            flag_long@ == "--start"@,
            flag_short@ == "-s"@,
            cnt == title_acc.len(),
            cnt <= i,
            title_chars@ == join(title_acc, ' '),
            scan0.title == title_acc + scan_args(av.skip(i as int), expecting).title,
            scan_args(av.skip(i as int), expecting).start is Some ==> scan0.start == scan_args(
                av.skip(i as int),
                expecting,
            ).start,
            scan_args(av.skip(i as int), expecting).start is None ==> scan0.start == opt_str_view(
                start_s,
            ),
        decreases n - i,
    {
        proof {
            assert(av.skip(i as int)[0] == av[i as int]);
            assert(av.skip(i as int).drop_first() =~~= av.skip(i + 1));
            assert(args.deep_view()[i as int] == args@[i as int].deep_view());
            assert(args@[i as int].deep_view() == args@[i as int]@);
        }
        if expecting {
            start_s = Some(args[i].clone());
            expecting = false;
        } else if args[i] == flag_long || args[i] == flag_short {
            expecting = true;
        } else {
            proof {
                lemma_join_push(title_acc, av[i as int], ' ');
                if cnt > 0 {
                    assert(join(title_acc, ' ').push(' ') + av[i as int] =~~= join(title_acc, ' ')
                        + seq![' '] + av[i as int]);
                }
                assert(title_acc + (seq![av[i as int]] + scan_args(av.skip(i + 1), false).title)
                    =~~= title_acc.push(av[i as int]) + scan_args(av.skip(i + 1), false).title);
            }
            if cnt > 0 {
                title_chars.push(' ');
            }
            let cs = str_to_chars(args[i].as_str());
            push_all(&mut title_chars, cs.as_slice());
            proof {
                title_acc = title_acc.push(av[i as int]);
            }
            cnt = cnt + 1;
        }
        i = i + 1;
    }
    proof {
        assert(av.skip(n as int) =~~= Seq::<Seq<char>>::empty());
        assert(scan0.title == title_acc);
        assert(scan0.start == opt_str_view(start_s));
        assert(title_acc + Seq::<Seq<char>>::empty() =~~= title_acc);
    }
    let title = chars_to_string(&title_chars);
    crate::commands::add(tasks, title, start_s)
}

/// A task counts as due when it has a due date on or before `today`.
pub open spec fn is_due(t: TaskV, today: Date) -> bool {
    t.date matches Some(d) && d.le_spec(today)
}

/// The indices of the tasks due on or before `today`, in order.
pub fn due(tasks: &[SpacedTask], today: Date) -> (r: Vec<usize>)
    ensures
        forall|a: int, b: int| 0 <= a < b < r@.len() ==> r@[a] < r@[b],
        forall|k: int| 0 <= k < r@.len() ==> r@[k] < tasks@.len(),
        forall|j: int|
            0 <= j < tasks@.len() ==> ((exists|k: int| 0 <= k < r@.len() && r@[k] == j) <==> is_due(
                tasks@[j]@,
                today,
            )),
{
    let mut r: Vec<usize> = Vec::new();
    let n = tasks.len();
    let mut i: usize = 0;
    while i < n
        invariant
            n == tasks@.len(),
            i <= n,
            forall|a: int, b: int| 0 <= a < b < r@.len() ==> r@[a] < r@[b],
            forall|k: int| 0 <= k < r@.len() ==> r@[k] < i,
            forall|j: int|
                0 <= j < i ==> ((exists|k: int| 0 <= k < r@.len() && r@[k] == j) <==> is_due(
                    tasks@[j]@,
                    today,
                )),
        decreases n - i,
    {
        let due_now = match &tasks[i].date {
            Some(d) => d.on_or_before(&today),
            None => false,
        };
        let ghost old_r = r@;
        if due_now {
            r.push(i);
        }
        proof {
            assert(due_now == is_due(tasks@[i as int]@, today));
            assert forall|j: int|
                0 <= j < i + 1 implies ((exists|k: int| 0 <= k < r@.len() && r@[k] == j) <==>
                is_due(tasks@[j]@, today)) by {
                if due_now {
                    assert(r@ == old_r.push(i));
                    if j == i {
                        assert(r@[r@.len() - 1] == i);
                    } else if is_due(tasks@[j]@, today) {
                        let k = choose|k: int| 0 <= k < old_r.len() && old_r[k] == j;
                        assert(r@[k] == j);
                    } else {
                        assert forall|k: int| 0 <= k < r@.len() implies r@[k] != j by {
                            if k < old_r.len() {
                                assert(r@[k] == old_r[k]);
                            } else {
                                assert(r@[k] == i);
                            }
                        }
                    }
                } else {
                    if j == i {
                        assert forall|k: int| 0 <= k < r@.len() implies r@[k] != j by {
                            assert(r@[k] < i);
                        }
                    }
                }
            }
        }
        i = i + 1;
    }
    r
}

} // verus!
