//! The plain-text result log a finished test exports: a fixed, tab-separated
//! template over the start time and the submissions, stated byte for byte.
use vstd::prelude::*;

use crate::session::recs_view;
use crate::text::append_chars;
use crate::text::append_str;
use crate::text::string_from_chars;

verus! {

/// The decimal digit character for `d`.
pub open spec fn dec_digit(d: int) -> char {
    if d == 0 {
        '0'
    } else if d == 1 {
        '1'
    } else if d == 2 {
        '2'
    } else if d == 3 {
        '3'
    } else if d == 4 {
        '4'
    } else if d == 5 {
        '5'
    } else if d == 6 {
        '6'
    } else if d == 7 {
        '7'
    } else if d == 8 {
        '8'
    } else {
        '9'
    }
}

/// The decimal digits of `n`, most significant first, no leading zeros
/// (except for `n == 0` itself).
pub open spec fn dec_nat(n: nat) -> Seq<char>
    decreases n,
{
    if n < 10 {
        seq![dec_digit(n as int)]
    } else {
        dec_nat(n / 10).push(dec_digit((n % 10) as int))
    }
}

/// The decimal form of `n`, a `-` sign ahead of a negative value.
pub open spec fn dec_int(n: int) -> Seq<char> {
    if n < 0 {
        seq!['-'] + dec_nat((-n) as nat)
    } else {
        dec_nat(n as nat)
    }
}

/// How many of the submissions were correct.
pub open spec fn count_correct(rs: Seq<(Seq<char>, Seq<char>, bool, i64)>) -> int
    decreases rs.len(),
{
    if rs.len() == 0 {
        0
    } else {
        count_correct(rs.drop_last()) + if rs.last().2 {
            1int
        } else {
            0int
        }
    }
}

pub proof fn lemma_count_correct_bound(rs: Seq<(Seq<char>, Seq<char>, bool, i64)>)
    ensures
        0 <= count_correct(rs) <= rs.len(),
    decreases rs.len(),
{
    if rs.len() > 0 {
        lemma_count_correct_bound(rs.drop_last());
    }
}

/// One body line: word, answer (`-` for an empty one), `1` or `0` for the
/// verdict, and the submission time, tab-separated, newline-terminated.
pub open spec fn export_line(r: (Seq<char>, Seq<char>, bool, i64)) -> Seq<char> {
    r.0 + seq!['\t'] + (if r.1.len() == 0 {
        seq!['-']
    } else {
        r.1
    }) + seq!['\t'] + seq![if r.2 {
        '1'
    } else {
        '0'
    }] + seq!['\t'] + dec_int(r.3 as int) + seq!['\n']
}

/// The body lines, in submission order.
pub open spec fn export_lines(rs: Seq<(Seq<char>, Seq<char>, bool, i64)>) -> Seq<char>
    decreases rs.len(),
{
    if rs.len() == 0 {
        Seq::empty()
    } else {
        export_lines(rs.drop_last()) + export_line(rs.last())
    }
}

/// The whole export: the start-time header, the correct/total tally, a blank
/// line between sections, then one line per submission.
pub open spec fn export_view(rs: Seq<(Seq<char>, Seq<char>, bool, i64)>, start_time: i64) -> Seq<
    char,
> {
    ("Start time\n")@ + dec_int(start_time as int) + ("\n\nCorrect\tAll\n")@ + dec_nat(
        count_correct(rs) as nat,
    ) + seq!['\t'] + dec_nat(rs.len() as nat) + ("\n\n")@ + export_lines(rs)
}

/// The decimal digit character for `d`, as `dec_digit` gives it.
fn digit_char(d: u64) -> (c: char)
    requires
        d < 10,
    ensures
        c == dec_digit(d as int),
{
    if d == 0 {
        '0'
    } else if d == 1 {
        '1'
    } else if d == 2 {
        '2'
    } else if d == 3 {
        '3'
    } else if d == 4 {
        '4'
    } else if d == 5 {
        '5'
    } else if d == 6 {
        '6'
    } else if d == 7 {
        '7'
    } else if d == 8 {
        '8'
    } else {
        '9'
    }
}

/// The decimal digits of `n`, as `dec_nat` gives them.
fn u64_chars(n: u64) -> (r: Vec<char>)
    ensures
        r@ == dec_nat(n as nat),
{
    let mut out: Vec<char> = Vec::new();
    if n < 10 {
        out.push(digit_char(n));
        proof {
            assert(out@ =~= dec_nat(n as nat));
        }
        return out;
    }
    let mut cur: u64 = n;
    while cur > 0
        invariant
            cur > 0 ==> dec_nat(n as nat) == dec_nat(cur as nat) + out@,
            cur == 0 ==> dec_nat(n as nat) == out@,
        decreases cur,
    {
        let d = cur % 10;
        out.insert(0, digit_char(d));
        let prev = cur;
        cur = cur / 10;
        proof {
            if cur > 0 {
                assert(prev >= 10);
                assert(dec_nat(prev as nat) == dec_nat(cur as nat).push(dec_digit(d as int)));
                assert(dec_nat(cur as nat).push(dec_digit(d as int)) + out@.drop_first() =~= dec_nat(
                    cur as nat,
                ) + out@);
            } else {
                assert(prev < 10);
                assert(dec_nat(prev as nat) == seq![dec_digit(d as int)]);
                assert(seq![dec_digit(d as int)] + out@.drop_first() =~= out@);
            }
        }
    }
    out
}

/// The decimal form of `n`, as `dec_int` gives it.
fn i64_chars(n: i64) -> (r: Vec<char>)
    ensures
        r@ == dec_int(n as int),
{
    if n >= 0 {
        u64_chars(n as u64)
    } else {
        let m: u64 = ((-(n + 1)) as u64) + 1;
        proof {
            assert(m as nat == (-(n as int)) as nat);
        }
        let mut out = u64_chars(m);
        out.insert(0, '-');
        proof {
            assert(out@ =~= seq!['-'] + dec_nat(m as nat));
        }
        out
    }
}

/// How many of the submissions were correct, as `count_correct` gives it.
fn count_correct_exec(answers: &Vec<(String, String, bool, i64)>) -> (r: usize)
    ensures
        r as int == count_correct(recs_view(answers@)),
{
    let n = answers.len();
    let mut cnt: usize = 0;
    let mut i: usize = 0;
    proof {
        assert(recs_view(answers@).take(0) =~= Seq::<(Seq<char>, Seq<char>, bool, i64)>::empty());
    }
    while i < n
        invariant
            n == answers@.len(),
            i <= n,
            cnt <= i,
            cnt as int == count_correct(recs_view(answers@).take(i as int)),
        decreases n - i,
    {
        proof {
            assert(recs_view(answers@).take(i + 1).drop_last() =~= recs_view(answers@).take(
                i as int,
            ));
            assert(recs_view(answers@).take(i + 1).last() == recs_view(answers@)[i as int]);
        }
        if answers[i].2 {
            cnt = cnt + 1;
        }
        i = i + 1;
    }
    proof {
        assert(recs_view(answers@).take(n as int) =~= recs_view(answers@));
    }
    cnt
}

/// The export text for the given submissions and start time: exactly the
/// template that `export_view` states, byte for byte.
pub fn export_text(answers: &Vec<(String, String, bool, i64)>, start_time: i64) -> (r: String)
    ensures
        r@ == export_view(recs_view(answers@), start_time),
{
    let ghost grecs = recs_view(answers@);
    let mut out: Vec<char> = Vec::new();
    append_str(&mut out, "Start time\n");
    let ts = i64_chars(start_time);
    append_chars(&mut out, &ts);
    append_str(&mut out, "\n\nCorrect\tAll\n");
    let correct = count_correct_exec(answers);
    proof {
        lemma_count_correct_bound(grecs);
    }
    let cc = u64_chars(correct as u64);
    append_chars(&mut out, &cc);
    out.push('\t');
    let total = u64_chars(answers.len() as u64);
    append_chars(&mut out, &total);
    append_str(&mut out, "\n\n");
    let ghost head = out@;
    let n = answers.len();
    let mut i: usize = 0;
    proof {
        assert(export_lines(grecs.take(0)) =~= Seq::<char>::empty());
        assert(out@ =~= head + export_lines(grecs.take(0)));
    }
    while i < n
        invariant
            n == answers@.len(),
            grecs == recs_view(answers@),
            grecs.len() == n,
            i <= n,
            out@ == head + export_lines(grecs.take(i as int)),
        decreases n - i,
    {
        proof {
            assert(grecs.take(i + 1).drop_last() =~= grecs.take(i as int));
            assert(grecs.take(i + 1).last() == grecs[i as int]);
        }
        let ghost before = out@;
        append_str(&mut out, answers[i].0.as_str());
        out.push('\t');
        if answers[i].1.as_str().is_empty() {
            out.push('-');
        } else {
            append_str(&mut out, answers[i].1.as_str());
        }
        out.push('\t');
        if answers[i].2 {
            out.push('1');
        } else {
            out.push('0');
        }
        out.push('\t');
        let st = i64_chars(answers[i].3);
        append_chars(&mut out, &st);
        out.push('\n');
        proof {
            assert(out@ =~= before + export_line(grecs[i as int]));
            assert(before + export_line(grecs[i as int]) =~= head + export_lines(grecs.take(i + 1)));
        }
        i = i + 1;
    }
    proof {
        assert(grecs.take(n as int) =~= grecs);
        assert(out@ =~= export_view(grecs, start_time));
    }
    string_from_chars(&out)
}

} // verus!
