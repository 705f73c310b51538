//! The persisted form of the store and its codec.
//!
//! One line per task:
//!
//! ```text
//! id;done;priority;dd-mm-yyyy;title_len;title;descr_len;descr\n
//! ```
//!
//! `id` and the two lengths are decimal digit runs; `done` is `0` or `1`;
//! `priority` is the same token the validator accepts; the due date is the
//! same `dd-mm-yyyy` text the validator accepts. Title and description are
//! length-prefixed (in characters), so they may contain any text, separators
//! and newlines included. Decoding accepts exactly what encoding produces —
//! plus leading zeros in digit runs — and rejects everything else, duplicate
//! ids included, as corrupt.

use vstd::prelude::*;
use vstd::string::StrSliceExecFns;
use vstd::string::StringExecFns;
use crate::date::Date;
use vstd::arithmetic::div_mod::{lemma_fundamental_div_mod, lemma_fundamental_div_mod_converse};
use crate::digits::{char_of_digit, digit_str, digits_end, enc_nat, find_digits_end,
    is_digit, lemma_char_of_digit_val, lemma_digits_end_is, lemma_digits_end_shape,
    lemma_enc_nat_shape, lemma_enc_nat_val, num_val, parse_digits_u128, push_digits};
use crate::engine::{ids_unique, store_wf};
use crate::task::{Priority, Task, TaskView};
use crate::validate::{date_of_text, date_text_valid, date_text_wf, parse_date_text,
    priority_token, text_day, text_month, text_year};

verus! {

/// The persisted text cannot be read back as a well-formed store.
#[derive(Clone, Copy, PartialEq, Eq, Structural, Debug)]
pub enum PersistenceError {
    Corrupt,
}

/// `t` occurs in `s` at position `i`.
pub open spec fn has_seq_at(s: Seq<char>, i: int, t: Seq<char>) -> bool {
    0 <= i && i + t.len() <= s.len() && s.subrange(i, i + t.len()) == t
}

/// One expected character; consumes it.
pub open spec fn expect_char(s: Seq<char>, i: int, c: char) -> Option<int> {
    if 0 <= i < s.len() && s[i] == c {
        Some(i + 1)
    } else {
        None
    }
}

/// A nonempty digit run, read greedily; yields its value.
pub open spec fn parse_num(s: Seq<char>, i: int) -> Option<(int, int)> {
    let e = digits_end(s, i);
    if e == i {
        None
    } else {
        Some((num_val(s, i, e), e))
    }
}

/// A `0` or `1` flag.
pub open spec fn parse_bool(s: Seq<char>, i: int) -> Option<(bool, int)> {
    if 0 <= i < s.len() && s[i] == '0' {
        Some((false, i + 1))
    } else if 0 <= i < s.len() && s[i] == '1' {
        Some((true, i + 1))
    } else {
        None
    }
}

/// One of the three priority tokens.
pub open spec fn parse_priority(s: Seq<char>, i: int) -> Option<(Priority, int)> {
    if has_seq_at(s, i, priority_token(Priority::Low)) {
        Some((Priority::Low, i + 3))
    } else if has_seq_at(s, i, priority_token(Priority::Medium)) {
        Some((Priority::Medium, i + 6))
    } else if has_seq_at(s, i, priority_token(Priority::High)) {
        Some((Priority::High, i + 4))
    } else {
        None
    }
}

/// Ten characters of `dd-mm-yyyy` naming a real calendar date.
pub open spec fn parse_date(s: Seq<char>, i: int) -> Option<(Date, int)> {
    if 0 <= i && i + 10 <= s.len() && date_text_valid(s.subrange(i, i + 10)) {
        Some((date_of_text(s.subrange(i, i + 10)), i + 10))
    } else {
        None
    }
}

/// A length-prefixed text field: digit run, `;`, then that many characters.
pub open spec fn parse_chunk(s: Seq<char>, i: int) -> Option<(Seq<char>, int)> {
    match parse_num(s, i) {
        Option::None => Option::None,
        Option::Some((n, j)) => match expect_char(s, j, ';') {
            Option::None => Option::None,
            Option::Some(j2) => if j2 + n <= s.len() {
                Option::Some((s.subrange(j2, j2 + n), j2 + n))
            } else {
                Option::None
            },
        },
    }
}

/// One full task record, newline included.
pub open spec fn parse_record(s: Seq<char>, i: int) -> Option<(TaskView, int)> {
    match parse_num(s, i) {
        Option::None => Option::None,
        Option::Some((idv, j)) => if idv > u128::MAX {
            Option::None
        } else {
            match expect_char(s, j, ';') {
                Option::None => Option::None,
                Option::Some(j) => match parse_bool(s, j) {
                    Option::None => Option::None,
                    Option::Some((done, j)) => match expect_char(s, j, ';') {
                        Option::None => Option::None,
                        Option::Some(j) => match parse_priority(s, j) {
                            Option::None => Option::None,
                            Option::Some((p, j)) => match expect_char(s, j, ';') {
                                Option::None => Option::None,
                                Option::Some(j) => match parse_date(s, j) {
                                    Option::None => Option::None,
                                    Option::Some((date, j)) => match expect_char(s, j, ';') {
                                        Option::None => Option::None,
                                        Option::Some(j) => match parse_chunk(s, j) {
                                            Option::None => Option::None,
                                            Option::Some((title, j)) => match expect_char(
                                                s,
                                                j,
                                                ';',
                                            ) {
                                                Option::None => Option::None,
                                                Option::Some(j) => match parse_chunk(s, j) {
                                                    Option::None => Option::None,
                                                    Option::Some((descr, j)) => match expect_char(
                                                        s,
                                                        j,
                                                        '\n',
                                                    ) {
                                                        Option::None => Option::None,
                                                        Option::Some(j) => Option::Some(
                                                            (
                                                                TaskView {
                                                                    id: idv as u128,
                                                                    title: title,
                                                                    description: descr,
                                                                    done: done,
                                                                    priority: p,
                                                                    due_date: date,
                                                                },
                                                                j,
                                                            ),
                                                        ),
                                                    },
                                                },
                                            },
                                        },
                                    },
                                },
                            },
                        },
                    },
                },
            }
        },
    }
}

/// The whole text as a sequence of records, to its very end.
pub open spec fn parse_store(s: Seq<char>, i: int) -> Option<Seq<TaskView>>
    decreases s.len() - i,
{
    if i < 0 || i >= s.len() {
        Option::Some(Seq::empty())
    } else {
        match parse_record(s, i) {
            Option::None => Option::None,
            Option::Some((t, j)) => if j <= i || j > s.len() {
                Option::None
            } else {
                match parse_store(s, j) {
                    Option::None => Option::None,
                    Option::Some(rest) => Option::Some(seq![t] + rest),
                }
            },
        }
    }
}

/// The text reads back as a store with unique ids.
pub open spec fn decodable(s: Seq<char>) -> bool {
    parse_store(s, 0) matches Some(ts) && ids_unique(ts)
}

fn expect_exec(s: &str, i: usize, len: usize, c: char) -> (r: Option<usize>)
    requires
        len == s@.len(),
        i <= len,
    ensures
        r is Some <==> expect_char(s@, i as int, c) is Some,
        r matches Some(j) ==> expect_char(s@, i as int, c) == Some(j as int) && j == i + 1,
{
    if i < len && s.get_char(i) == c {
        Some(i + 1)
    } else {
        None
    }
}

fn parse_num_exec(s: &str, i: usize, len: usize) -> (r: Option<(u128, usize)>)
    requires
        len == s@.len(),
        i <= len,
    ensures
        r is Some <==> (parse_num(s@, i as int) matches Some((v, j)) && v <= u128::MAX),
        r matches Some(p) ==> parse_num(s@, i as int) == Some((p.0 as int, p.1 as int)) && i < p.1
            <= len,
{
    let e = find_digits_end(s, i);
    proof {
        lemma_digits_end_shape(s@, i as int);
    }
    if e == i {
        return None;
    }
    match parse_digits_u128(s, i, e) {
        Some(n) => Some((n, e)),
        None => None,
    }
}

fn parse_bool_exec(s: &str, i: usize, len: usize) -> (r: Option<(bool, usize)>)
    requires
        len == s@.len(),
        i <= len,
    ensures
        r is Some <==> parse_bool(s@, i as int) is Some,
        r matches Some(p) ==> parse_bool(s@, i as int) == Some((p.0, p.1 as int)) && p.1 == i + 1,
{
    if i < len {
        let c = s.get_char(i);
        if c == '0' {
            return Some((false, i + 1));
        }
        if c == '1' {
            return Some((true, i + 1));
        }
    }
    None
}

fn parse_priority_exec(s: &str, i: usize, len: usize) -> (r: Option<(Priority, usize)>)
    requires
        len == s@.len(),
        i <= len,
    ensures
        r is Some <==> parse_priority(s@, i as int) is Some,
        r matches Some(p) ==> parse_priority(s@, i as int) == Some((p.0, p.1 as int)) && i < p.1
            <= len,
{
    if len - i >= 3 && s.get_char(i) == 'l' && s.get_char(i + 1) == 'o' && s.get_char(i + 2)
        == 'w' {
        proof {
            assert(s@.subrange(i as int, i as int + 3) =~= priority_token(Priority::Low));
        }
        return Some((Priority::Low, i + 3));
    }
    if len - i >= 6 && s.get_char(i) == 'm' && s.get_char(i + 1) == 'e' && s.get_char(i + 2) == 'd'
        && s.get_char(i + 3) == 'i' && s.get_char(i + 4) == 'u' && s.get_char(i + 5) == 'm' {
        proof {
            assert(s@.subrange(i as int, i as int + 6) =~= priority_token(Priority::Medium));
            assert(!has_seq_at(s@, i as int, priority_token(Priority::Low)));
        }
        return Some((Priority::Medium, i + 6));
    }
    if len - i >= 4 && s.get_char(i) == 'h' && s.get_char(i + 1) == 'i' && s.get_char(i + 2) == 'g'
        && s.get_char(i + 3) == 'h' {
        proof {
            assert(s@.subrange(i as int, i as int + 4) =~= priority_token(Priority::High));
            assert(!has_seq_at(s@, i as int, priority_token(Priority::Low)));
            assert(!has_seq_at(s@, i as int, priority_token(Priority::Medium)));
        }
        return Some((Priority::High, i + 4));
    }
    proof {
        assert(!has_seq_at(s@, i as int, priority_token(Priority::Low))) by {
            if has_seq_at(s@, i as int, priority_token(Priority::Low)) {
                assert(s@.subrange(i as int, i as int + 3)[0] == s@[i as int]);
                assert(s@.subrange(i as int, i as int + 3)[1] == s@[i as int + 1]);
                assert(s@.subrange(i as int, i as int + 3)[2] == s@[i as int + 2]);
            }
        }
        assert(!has_seq_at(s@, i as int, priority_token(Priority::Medium))) by {
            if has_seq_at(s@, i as int, priority_token(Priority::Medium)) {
                assert(s@.subrange(i as int, i as int + 6)[0] == s@[i as int]);
                assert(s@.subrange(i as int, i as int + 6)[1] == s@[i as int + 1]);
                assert(s@.subrange(i as int, i as int + 6)[2] == s@[i as int + 2]);
                assert(s@.subrange(i as int, i as int + 6)[3] == s@[i as int + 3]);
                assert(s@.subrange(i as int, i as int + 6)[4] == s@[i as int + 4]);
                assert(s@.subrange(i as int, i as int + 6)[5] == s@[i as int + 5]);
            }
        }
        assert(!has_seq_at(s@, i as int, priority_token(Priority::High))) by {
            if has_seq_at(s@, i as int, priority_token(Priority::High)) {
                assert(s@.subrange(i as int, i as int + 4)[0] == s@[i as int]);
                assert(s@.subrange(i as int, i as int + 4)[1] == s@[i as int + 1]);
                assert(s@.subrange(i as int, i as int + 4)[2] == s@[i as int + 2]);
                assert(s@.subrange(i as int, i as int + 4)[3] == s@[i as int + 3]);
            }
        }
    }
    None
}

fn parse_date_exec(s: &str, i: usize, len: usize) -> (r: Option<(Date, usize)>)
    requires
        len == s@.len(),
        i <= len,
    ensures
        r is Some <==> parse_date(s@, i as int) is Some,
        r matches Some(p) ==> parse_date(s@, i as int) == Some((p.0, p.1 as int)) && p.0.wf()
            && p.1 == i + 10,
{
    if len - i < 10 {
        return None;
    }
    let sub = s.substring_char(i, i + 10);
    match parse_date_text(sub) {
        Some(d) => Some((d, i + 10)),
        None => None,
    }
}

fn parse_chunk_exec(s: &str, i: usize, len: usize) -> (r: Option<(String, usize)>)
    requires
        len == s@.len(),
        i <= len,
    ensures
        r is Some <==> parse_chunk(s@, i as int) is Some,
        r matches Some(p) ==> parse_chunk(s@, i as int) == Some((p.0@, p.1 as int)) && i < p.1
            <= len,
{
    let (n, j) = match parse_num_exec(s, i, len) {
        None => {
            return None;
        },
        Some(x) => x,
    };
    let j2 = match expect_exec(s, j, len, ';') {
        None => {
            return None;
        },
        Some(x) => x,
    };
    if n > (len - j2) as u128 {
        return None;
    }
    let nn = n as usize;
    let content = s.substring_char(j2, j2 + nn);
    Some((String::from_str(content), j2 + nn))
}

fn parse_record_exec(s: &str, i: usize, len: usize) -> (r: Option<(Task, usize)>)
    requires
        len == s@.len(),
        i <= len,
    ensures
        r is Some <==> parse_record(s@, i as int) is Some,
        r matches Some(p) ==> parse_record(s@, i as int) == Some((p.0@, p.1 as int)) && i < p.1
            <= len && p.0@.wf(),
{
    let (id, j) = match parse_num_exec(s, i, len) {
        None => {
            return None;
        },
        Some(x) => x,
    };
    let j = match expect_exec(s, j, len, ';') {
        None => {
            return None;
        },
        Some(x) => x,
    };
    let (done, j) = match parse_bool_exec(s, j, len) {
        None => {
            return None;
        },
        Some(x) => x,
    };
    let j = match expect_exec(s, j, len, ';') {
        None => {
            return None;
        },
        Some(x) => x,
    };
    let (priority, j) = match parse_priority_exec(s, j, len) {
        None => {
            return None;
        },
        Some(x) => x,
    };
    let j = match expect_exec(s, j, len, ';') {
        None => {
            return None;
        },
        Some(x) => x,
    };
    let (due_date, j) = match parse_date_exec(s, j, len) {
        None => {
            return None;
        },
        Some(x) => x,
    };
    let j = match expect_exec(s, j, len, ';') {
        None => {
            return None;
        },
        Some(x) => x,
    };
    let (title, j) = match parse_chunk_exec(s, j, len) {
        None => {
            return None;
        },
        Some(x) => x,
    };
    let j = match expect_exec(s, j, len, ';') {
        None => {
            return None;
        },
        Some(x) => x,
    };
    let (description, j) = match parse_chunk_exec(s, j, len) {
        None => {
            return None;
        },
        Some(x) => x,
    };
    let j = match expect_exec(s, j, len, '\n') {
        None => {
            return None;
        },
        Some(x) => x,
    };
    Some((Task { id, title, description, done, priority, due_date }, j))
}

/// Reads the persisted text back into a store. Fails on any text that the
/// encoder cannot have produced (bad shape, impossible date, duplicate ids).
pub fn decode_store(text: &str) -> (r: Result<Vec<Task>, PersistenceError>)
    ensures
        r is Ok <==> decodable(text@),
        r matches Ok(v) ==> parse_store(text@, 0) == Some(v.deep_view()) && store_wf(v.deep_view()),
        r matches Err(e) ==> e == PersistenceError::Corrupt,
{
    let ghost full = parse_store(text@, 0);
    let len = text.unicode_len();
    let mut tasks: Vec<Task> = Vec::new();
    let mut i: usize = 0;
    while i < len
        invariant
            i <= len,
            len == text@.len(),
            full == parse_store(text@, 0),
            full is Some <==> parse_store(text@, i as int) is Some,
            full matches Some(f) ==> (parse_store(text@, i as int) matches Some(rest) && f
                == tasks.deep_view() + rest),
            forall|k: int|
                0 <= k < tasks.deep_view().len() ==> (#[trigger] tasks.deep_view()[k]).wf(),
        decreases len - i,
    {
        match parse_record_exec(text, i, len) {
            None => {
                proof {
                    assert(parse_store(text@, i as int) is None);
                }
                return Err(PersistenceError::Corrupt);
            },
            Some((task, j)) => {
                proof {
                    assert(parse_store(text@, i as int) == (match parse_store(text@, j as int) {
                        Option::None => Option::None::<Seq<TaskView>>,
                        Option::Some(rest) => Option::Some(seq![task@] + rest),
                    }));
                    if full is Some {
                        let f = full->0;
                        let rest = parse_store(text@, i as int)->0;
                        let rest2 = parse_store(text@, j as int)->0;
                        assert(rest == seq![task@] + rest2);
                        assert(tasks.deep_view() + rest =~= tasks.deep_view().push(task@)
                            + rest2);
                    }
                }
                let ghost old_tasks = tasks.deep_view();
                tasks.push(task);
                proof {
                    assert(tasks.deep_view() =~= old_tasks.push(task@));
                }
                i = j;
            },
        }
    }
    proof {
        assert(parse_store(text@, i as int) == Option::Some(Seq::<TaskView>::empty()));
        if full is Some {
            assert(full->0 =~= tasks.deep_view());
        }
    }
    let ok = check_ids_unique(&tasks);
    if !ok {
        return Err(PersistenceError::Corrupt);
    }
    Ok(tasks)
}

/// Pairwise id comparison over the whole store.
fn check_ids_unique(tasks: &Vec<Task>) -> (r: bool)
    ensures
        r == ids_unique(tasks.deep_view()),
{
    let ghost s = tasks.deep_view();
    let mut i: usize = 0;
    while i < tasks.len()
        invariant
            i <= tasks@.len(),
            s == tasks.deep_view(),
            forall|a: int, b: int| 0 <= a < b < s.len() && a < i ==> s[a].id != s[b].id,
        decreases tasks@.len() - i,
    {
        let mut j = i + 1;
        while j < tasks.len()
            invariant
                i < j <= tasks@.len(),
                i < tasks@.len(),
                s == tasks.deep_view(),
                forall|b: int| i < b < j ==> s[i as int].id != s[b].id,
            decreases tasks@.len() - j,
        {
            if tasks[j].id == tasks[i].id {
                proof {
                    assert(s[i as int].id == s[j as int].id);
                }
                return false;
            }
            j = j + 1;
        }
        i = i + 1;
    }
    true
}

/// The `0`/`1` form of the done flag.
pub open spec fn enc_bool(b: bool) -> Seq<char> {
    if b {
        seq!['1']
    } else {
        seq!['0']
    }
}

/// Two zero-padded decimal digits of `n`.
pub open spec fn enc_2(n: int) -> Seq<char> {
    seq![char_of_digit(n / 10 % 10), char_of_digit(n % 10)]
}

/// Four zero-padded decimal digits of `n`.
pub open spec fn enc_4(n: int) -> Seq<char> {
    seq![
        char_of_digit(n / 1000 % 10),
        char_of_digit(n / 100 % 10),
        char_of_digit(n / 10 % 10),
        char_of_digit(n % 10),
    ]
}

/// The `dd-mm-yyyy` form of a date, the same text the validator accepts.
pub open spec fn enc_date(d: Date) -> Seq<char> {
    enc_2(d.day as int) + seq!['-'] + enc_2(d.month as int) + seq!['-'] + enc_4(d.year as int)
}

/// A length-prefixed text field.
pub open spec fn enc_chunk(content: Seq<char>) -> Seq<char> {
    enc_nat(content.len()) + (seq![';'] + content)
}

/// One full task record, newline included.
pub open spec fn enc_record(t: TaskView) -> Seq<char> {
    enc_nat(t.id as nat) + (seq![';'] + (enc_bool(t.done) + (seq![';'] + (priority_token(
        t.priority,
    ) + (seq![';'] + (enc_date(t.due_date) + (seq![';'] + (enc_chunk(t.title) + (seq![';']
        + (enc_chunk(t.description) + seq!['\n']))))))))))
}

/// The records of all tasks, in store order.
pub open spec fn enc_store(ts: Seq<TaskView>) -> Seq<char>
    decreases ts.len(),
{
    if ts.len() == 0 {
        Seq::empty()
    } else {
        enc_record(ts[0]) + enc_store(ts.drop_first())
    }
}

fn bool_str(b: bool) -> (r: &'static str)
    ensures
        r@ == enc_bool(b),
{
    proof {
        reveal_strlit("0");
        reveal_strlit("1");
    }
    let r = if b {
        "1"
    } else {
        "0"
    };
    proof {
        assert(r@ =~= enc_bool(b));
    }
    r
}

fn priority_str(p: Priority) -> (r: &'static str)
    ensures
        r@ == priority_token(p),
{
    proof {
        reveal_strlit("low");
        reveal_strlit("medium");
        reveal_strlit("high");
    }
    let r = match p {
        Priority::Low => "low",
        Priority::Medium => "medium",
        Priority::High => "high",
    };
    proof {
        assert(r@ =~= priority_token(p));
    }
    r
}

fn push_two_digits(out: &mut String, n: u8)
    ensures
        final(out)@ == old(out)@ + enc_2(n as int),
{
    out.append(digit_str((n / 10) % 10));
    out.append(digit_str(n % 10));
    proof {
        assert(final(out)@ =~= old(out)@ + enc_2(n as int));
    }
}

fn push_date(out: &mut String, d: Date)
    ensures
        final(out)@ == old(out)@ + enc_date(d),
{
    proof {
        reveal_strlit("-");
    }
    push_two_digits(out, d.day);
    out.append("-");
    push_two_digits(out, d.month);
    out.append("-");
    out.append(digit_str(((d.year / 1000) % 10) as u8));
    out.append(digit_str(((d.year / 100) % 10) as u8));
    out.append(digit_str(((d.year / 10) % 10) as u8));
    out.append(digit_str((d.year % 10) as u8));
    proof {
        assert(final(out)@ =~= old(out)@ + enc_date(d));
    }
}

fn push_chunk(out: &mut String, content: &String)
    ensures
        final(out)@ == old(out)@ + enc_chunk(content@),
{
    proof {
        reveal_strlit(";");
    }
    let n = content.as_str().unicode_len();
    push_digits(out, n as u128);
    out.append(";");
    out.append(content.as_str());
    proof {
        assert(final(out)@ =~= old(out)@ + enc_chunk(content@));
    }
}

fn push_record(out: &mut String, t: &Task)
    ensures
        final(out)@ == old(out)@ + enc_record(t@),
{
    proof {
        reveal_strlit(";");
        reveal_strlit("\n");
    }
    push_digits(out, t.id);
    out.append(";");
    out.append(bool_str(t.done));
    out.append(";");
    out.append(priority_str(t.priority));
    out.append(";");
    push_date(out, t.due_date);
    out.append(";");
    push_chunk(out, &t.title);
    out.append(";");
    push_chunk(out, &t.description);
    out.append("\n");
    proof {
        assert(final(out)@ =~= old(out)@ + enc_record(t@));
    }
}

/// Writes the whole store in its persisted form.
pub fn encode_store(task_list: &Vec<Task>) -> (r: String)
    ensures
        r@ == enc_store(task_list.deep_view()),
{
    let ghost s = task_list.deep_view();
    let mut out = String::new();
    let mut i: usize = 0;
    while i < task_list.len()
        invariant
            i <= task_list@.len(),
            s == task_list.deep_view(),
            out@ == enc_store(s.take(i as int)),
        decreases task_list@.len() - i,
    {
        push_record(&mut out, &task_list[i]);
        proof {
            lemma_enc_store_snoc(s.take(i as int), s[i as int]);
            assert(s.take(i as int + 1) =~= s.take(i as int).push(s[i as int]));
        }
        i = i + 1;
    }
    proof {
        assert(s.take(s.len() as int) =~= s);
    }
    out
}

/// Encoding appends record by record.
#[verifier::rlimit(60)]
proof fn lemma_enc_store_snoc(ts: Seq<TaskView>, t: TaskView)
    ensures
        enc_store(ts.push(t)) == enc_store(ts) + enc_record(t),
    decreases ts.len(),
{
    if ts.len() == 0 {
        assert(ts.push(t)[0] == t);
        assert(ts.push(t).drop_first() =~= Seq::<TaskView>::empty());
        assert(enc_store(ts.push(t)) == enc_record(t) + enc_store(Seq::<TaskView>::empty()));
        assert(enc_store(Seq::<TaskView>::empty()) == Seq::<char>::empty());
        assert(enc_record(t) + Seq::<char>::empty() =~= enc_record(t));
        assert(enc_store(ts) == Seq::<char>::empty());
        assert(enc_store(ts) + enc_record(t) =~= enc_record(t));
    } else {
        lemma_enc_store_snoc(ts.drop_first(), t);
        assert(ts.push(t)[0] == ts[0]);
        assert(ts.push(t).drop_first() =~= ts.drop_first().push(t));
        assert(enc_store(ts.push(t)) == enc_record(ts[0]) + enc_store(ts.drop_first().push(t)));
        assert(enc_store(ts) == enc_record(ts[0]) + enc_store(ts.drop_first()));
        assert(enc_record(ts[0]) + (enc_store(ts.drop_first()) + enc_record(t)) =~= (enc_record(
            ts[0],
        ) + enc_store(ts.drop_first())) + enc_record(t));
    }
}

/// A subrange equal to a concatenation splits into its two halves.
proof fn lemma_split_front(s: Seq<char>, i: int, a: Seq<char>, b: Seq<char>)
    requires
        0 <= i,
        i + a.len() + b.len() <= s.len(),
        s.subrange(i, i + a.len() + b.len()) == a + b,
    ensures
        s.subrange(i, i + a.len()) == a,
        s.subrange(i + a.len(), i + a.len() + b.len()) == b,
{
    let whole = s.subrange(i, i + a.len() + b.len());
    assert(s.subrange(i, i + a.len()) =~= a) by {
        assert forall|k: int| 0 <= k < a.len() implies s.subrange(i, i + a.len())[k] == a[k] by {
            assert(s.subrange(i, i + a.len())[k] == s[i + k]);
            assert(whole[k] == s[i + k]);
            assert((a + b)[k] == a[k]);
        }
    }
    assert(s.subrange(i + a.len(), i + a.len() + b.len()) =~= b) by {
        assert forall|k: int|
            0 <= k < b.len() implies s.subrange(i + a.len(), i + a.len() + b.len())[k] == b[k] by {
            assert(s.subrange(i + a.len(), i + a.len() + b.len())[k] == s[i + a.len() + k]);
            assert(whole[a.len() + k] == s[i + a.len() + k]);
            assert((a + b)[a.len() + k] == b[k]);
        }
    }
}

/// The number parser reads back exactly an encoded number.
proof fn lemma_parse_num_of_enc(s: Seq<char>, i: int, n: nat)
    requires
        0 <= i,
        i + enc_nat(n).len() <= s.len(),
        s.subrange(i, i + enc_nat(n).len()) == enc_nat(n),
        i + enc_nat(n).len() == s.len() || !is_digit(s[i + enc_nat(n).len()]),
    ensures
        parse_num(s, i) == Some((n as int, i + enc_nat(n).len())),
{
    lemma_enc_nat_shape(n);
    let l = enc_nat(n).len() as int;
    assert forall|k: int| i <= k < i + l implies is_digit(#[trigger] s[k]) by {
        assert(s[k] == s.subrange(i, i + l)[k - i]);
    }
    lemma_digits_end_is(s, i, i + l);
    lemma_enc_nat_val(s, i, i + l, n);
}

/// Digit-by-digit reconstruction of a two-digit number.
proof fn lemma_two_digits(n: int)
    requires
        0 <= n < 100,
    ensures
        0 <= n / 10 % 10 < 10,
        0 <= n % 10 < 10,
        n / 10 % 10 == n / 10,
        (n / 10 % 10) * 10 + n % 10 == n,
{
    lemma_fundamental_div_mod(n, 10);
    lemma_fundamental_div_mod_converse(n / 10, 10, 0, n / 10);
}

/// Digit-by-digit reconstruction of a four-digit number.
proof fn lemma_four_digits(n: int)
    requires
        0 <= n <= 9999,
    ensures
        0 <= n / 1000 % 10 < 10,
        0 <= n / 100 % 10 < 10,
        0 <= n / 10 % 10 < 10,
        0 <= n % 10 < 10,
        (n / 1000 % 10) * 1000 + (n / 100 % 10) * 100 + (n / 10 % 10) * 10 + n % 10 == n,
{
    let a = n / 1000;
    lemma_fundamental_div_mod(n, 1000);
    let r3 = n % 1000;
    lemma_fundamental_div_mod(r3, 100);
    let q3 = r3 / 100;
    let r2 = r3 % 100;
    lemma_fundamental_div_mod(r2, 10);
    let q2 = r2 / 10;
    let e = r2 % 10;
    lemma_fundamental_div_mod_converse(a, 10, 0, a);
    lemma_fundamental_div_mod_converse(n, 100, 10 * a + q3, r2);
    lemma_fundamental_div_mod_converse(n / 100, 10, a, q3);
    lemma_fundamental_div_mod_converse(n, 10, 100 * a + 10 * q3 + q2, e);
    lemma_fundamental_div_mod_converse(n / 10, 10, 10 * a + q3, q2);
}

/// The date parser reads back exactly an encoded well-formed date.
proof fn lemma_parse_date_of_enc(s: Seq<char>, i: int, d: Date)
    requires
        d.wf(),
        0 <= i,
        i + 10 <= s.len(),
        s.subrange(i, i + 10) == enc_date(d),
    ensures
        parse_date(s, i) == Some((d, i + 10)),
{
    let sub = s.subrange(i, i + 10);
    let day = d.day as int;
    let month = d.month as int;
    let year = d.year as int;
    lemma_two_digits(day);
    lemma_two_digits(month);
    lemma_four_digits(year);
    assert(sub[0] == char_of_digit(day / 10 % 10));
    assert(sub[1] == char_of_digit(day % 10));
    assert(sub[2] == '-');
    assert(sub[3] == char_of_digit(month / 10 % 10));
    assert(sub[4] == char_of_digit(month % 10));
    assert(sub[5] == '-');
    assert(sub[6] == char_of_digit(year / 1000 % 10));
    assert(sub[7] == char_of_digit(year / 100 % 10));
    assert(sub[8] == char_of_digit(year / 10 % 10));
    assert(sub[9] == char_of_digit(year % 10));
    lemma_char_of_digit_val(day / 10 % 10);
    lemma_char_of_digit_val(day % 10);
    lemma_char_of_digit_val(month / 10 % 10);
    lemma_char_of_digit_val(month % 10);
    lemma_char_of_digit_val(year / 1000 % 10);
    lemma_char_of_digit_val(year / 100 % 10);
    lemma_char_of_digit_val(year / 10 % 10);
    lemma_char_of_digit_val(year % 10);
    assert(date_text_wf(sub));
    assert(text_day(sub) == day);
    assert(text_month(sub) == month);
    assert(text_year(sub) == year);
    assert(date_of_text(sub) == d);
    assert(date_text_valid(sub));
}

/// The chunk parser reads back exactly an encoded text field.
proof fn lemma_parse_chunk_of_enc(s: Seq<char>, i: int, content: Seq<char>)
    requires
        0 <= i,
        i + enc_chunk(content).len() <= s.len(),
        s.subrange(i, i + enc_chunk(content).len()) == enc_chunk(content),
    ensures
        parse_chunk(s, i) == Some((content, i + enc_chunk(content).len())),
{
    let l = enc_chunk(content).len() as int;
    let nl = enc_nat(content.len()).len() as int;
    lemma_enc_nat_shape(content.len());
    lemma_split_front(s, i, enc_nat(content.len()), seq![';'] + content);
    assert(s[i + nl] == s.subrange(i + nl, i + l)[0]);
    assert(s[i + nl] == ';');
    lemma_parse_num_of_enc(s, i, content.len());
    lemma_split_front(s, i + nl, seq![';'], content);
    assert(s.subrange(i + nl + 1, i + l) == content);
}

/// The record parser reads back exactly an encoded well-formed task.
#[verifier::rlimit(100)]
#[verifier::spinoff_prover]
proof fn lemma_parse_record_of_enc(s: Seq<char>, i: int, t: TaskView)
    requires
        t.wf(),
        0 <= i,
        i + enc_record(t).len() <= s.len(),
        s.subrange(i, i + enc_record(t).len()) == enc_record(t),
    ensures
        parse_record(s, i) == Some((t, i + enc_record(t).len())),
        enc_record(t).len() >= 1,
{
    let end = i + enc_record(t).len();
    let p_id = enc_nat(t.id as nat);
    lemma_enc_nat_shape(t.id as nat);
    let r1 = seq![';'] + (enc_bool(t.done) + (seq![';'] + (priority_token(t.priority) + (seq![';']
        + (enc_date(t.due_date) + (seq![';'] + (enc_chunk(t.title) + (seq![';'] + (enc_chunk(
        t.description,
    ) + seq!['\n'])))))))));
    lemma_split_front(s, i, p_id, r1);
    let j0 = i + p_id.len() as int;
    assert(s[j0] == s.subrange(j0, end)[0]);
    assert(s[j0] == ';');
    lemma_parse_num_of_enc(s, i, t.id as nat);
    let r2 = enc_bool(t.done) + (seq![';'] + (priority_token(t.priority) + (seq![';'] + (enc_date(
        t.due_date,
    ) + (seq![';'] + (enc_chunk(t.title) + (seq![';'] + (enc_chunk(t.description)
        + seq!['\n']))))))));
    lemma_split_front(s, j0, seq![';'], r2);
    let j1 = j0 + 1;
    assert(expect_char(s, j0, ';') == Some(j1));
    let r3 = seq![';'] + (priority_token(t.priority) + (seq![';'] + (enc_date(t.due_date) + (seq![
        ';',
    ] + (enc_chunk(t.title) + (seq![';'] + (enc_chunk(t.description) + seq!['\n'])))))));
    lemma_split_front(s, j1, enc_bool(t.done), r3);
    let j2 = j1 + enc_bool(t.done).len() as int;
    assert(s[j1] == s.subrange(j1, j2)[0]);
    assert(parse_bool(s, j1) == Some((t.done, j2)));
    let r4 = priority_token(t.priority) + (seq![';'] + (enc_date(t.due_date) + (seq![';']
        + (enc_chunk(t.title) + (seq![';'] + (enc_chunk(t.description) + seq!['\n']))))));
    lemma_split_front(s, j2, seq![';'], r4);
    let j3 = j2 + 1;
    assert(expect_char(s, j2, ';') == Some(j3));
    let r5 = seq![';'] + (enc_date(t.due_date) + (seq![';'] + (enc_chunk(t.title) + (seq![';']
        + (enc_chunk(t.description) + seq!['\n'])))));
    lemma_split_front(s, j3, priority_token(t.priority), r5);
    let j4 = j3 + priority_token(t.priority).len() as int;
    assert(s.subrange(j3, j4) == priority_token(t.priority));
    assert(parse_priority(s, j3) == Some((t.priority, j4))) by {
        lemma_priority_token_starts(s, j3, t.priority);
    }
    let r6 = enc_date(t.due_date) + (seq![';'] + (enc_chunk(t.title) + (seq![';'] + (enc_chunk(
        t.description,
    ) + seq!['\n']))));
    lemma_split_front(s, j4, seq![';'], r6);
    let j5 = j4 + 1;
    assert(expect_char(s, j4, ';') == Some(j5));
    let r7 = seq![';'] + (enc_chunk(t.title) + (seq![';'] + (enc_chunk(t.description)
        + seq!['\n'])));
    assert(enc_date(t.due_date).len() == 10);
    lemma_split_front(s, j5, enc_date(t.due_date), r7);
    let j6 = j5 + 10;
    lemma_parse_date_of_enc(s, j5, t.due_date);
    let r8 = enc_chunk(t.title) + (seq![';'] + (enc_chunk(t.description) + seq!['\n']));
    lemma_split_front(s, j6, seq![';'], r8);
    let j7 = j6 + 1;
    assert(expect_char(s, j6, ';') == Some(j7));
    let r9 = seq![';'] + (enc_chunk(t.description) + seq!['\n']);
    lemma_split_front(s, j7, enc_chunk(t.title), r9);
    let j8 = j7 + enc_chunk(t.title).len() as int;
    lemma_parse_chunk_of_enc(s, j7, t.title);
    let r10 = enc_chunk(t.description) + seq!['\n'];
    lemma_split_front(s, j8, seq![';'], r10);
    let j9 = j8 + 1;
    assert(expect_char(s, j8, ';') == Some(j9));
    lemma_split_front(s, j9, enc_chunk(t.description), seq!['\n']);
    let j10 = j9 + enc_chunk(t.description).len() as int;
    lemma_parse_chunk_of_enc(s, j9, t.description);
    let j11 = j10 + 1;
    assert(s[j10] == s.subrange(j10, j11)[0]);
    assert(expect_char(s, j10, '\n') == Some(j11));
    assert(j11 == end);
    assert(parse_record(s, i) matches Some(p) && p.0 =~= t && p.1 == end);
}

/// An encoded priority token at a position parses as that priority.
proof fn lemma_priority_token_starts(s: Seq<char>, i: int, p: Priority)
    requires
        0 <= i,
        i + priority_token(p).len() <= s.len(),
        s.subrange(i, i + priority_token(p).len()) == priority_token(p),
    ensures
        parse_priority(s, i) == Some((p, i + priority_token(p).len())),
{
    assert(s[i] == s.subrange(i, i + priority_token(p).len())[0]);
    match p {
        Priority::Low => {
            assert(has_seq_at(s, i, priority_token(Priority::Low)));
        },
        Priority::Medium => {
            assert(!has_seq_at(s, i, priority_token(Priority::Low))) by {
                if has_seq_at(s, i, priority_token(Priority::Low)) {
                    assert(s.subrange(i, i + 3)[0] == s[i]);
                }
            }
            assert(has_seq_at(s, i, priority_token(Priority::Medium)));
        },
        Priority::High => {
            assert(!has_seq_at(s, i, priority_token(Priority::Low))) by {
                if has_seq_at(s, i, priority_token(Priority::Low)) {
                    assert(s.subrange(i, i + 3)[0] == s[i]);
                }
            }
            assert(!has_seq_at(s, i, priority_token(Priority::Medium))) by {
                if has_seq_at(s, i, priority_token(Priority::Medium)) {
                    assert(s.subrange(i, i + 6)[0] == s[i]);
                }
            }
            assert(has_seq_at(s, i, priority_token(Priority::High)));
        },
    }
}

/// The store parser reads back exactly an encoded well-formed store.
proof fn lemma_parse_store_of_enc(s: Seq<char>, i: int, ts: Seq<TaskView>)
    requires
        forall|k: int| 0 <= k < ts.len() ==> (#[trigger] ts[k]).wf(),
        0 <= i <= s.len(),
        i + enc_store(ts).len() == s.len(),
        s.subrange(i, s.len() as int) == enc_store(ts),
    ensures
        parse_store(s, i) == Some(ts),
    decreases ts.len(),
{
    if ts.len() == 0 {
        assert(i == s.len());
        assert(parse_store(s, i) == Option::Some(Seq::<TaskView>::empty()));
        assert(Seq::<TaskView>::empty() =~= ts);
    } else {
        assert(ts[0].wf());
        let rest = ts.drop_first();
        lemma_split_front(s, i, enc_record(ts[0]), enc_store(rest));
        let j = i + enc_record(ts[0]).len() as int;
        lemma_parse_record_of_enc(s, i, ts[0]);
        assert forall|k: int| 0 <= k < rest.len() implies (#[trigger] rest[k]).wf() by {
            assert(rest[k] == ts[k + 1]);
        }
        assert(s.subrange(j, s.len() as int) == enc_store(rest));
        lemma_parse_store_of_enc(s, j, rest);
        assert(seq![ts[0]] + rest =~= ts);
    }
}

/// Round trip: decoding the encoding of any well-formed store — empty or not
/// — yields exactly that store, every field of every task preserved. With the
/// contracts of `encode_store` and `decode_store`, decoding what `encode_store`
/// wrote returns `Ok` of a store whose view equals the original's.
pub proof fn lemma_store_round_trip(ts: Seq<TaskView>)
    requires
        store_wf(ts),
    ensures
        parse_store(enc_store(ts), 0) == Some(ts),
        decodable(enc_store(ts)),
{
    let s = enc_store(ts);
    assert(s.subrange(0, s.len() as int) =~= s);
    lemma_parse_store_of_enc(s, 0, ts);
}

} // verus!
