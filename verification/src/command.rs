//! The command model: whitespace tokenization of an input line and the
//! mapping from tokens to a closed set of operations, with every embedded
//! date parsed and range-checked before a command is produced.

use vstd::prelude::*;

use crate::date::{spec_parse, spec_validate, Date};
use crate::error::AppError;
use crate::text::{str_eq, views_of};

verus! {

/// A parsed, validated user intent, ready for dispatch to the store.
#[derive(Debug)]
pub enum Command {
    /// Record an event payload under a date.
    Add(Date, String),
    /// Remove one event under a date, or the whole date entry.
    Delete(Date, Option<String>),
    /// Look up the events under a date.
    Find(Date),
    /// Snapshot the whole table.
    Print,
    /// End the session; never routed through the store.
    Exit,
}

/// Parsing followed by range validation, as every command does it.
pub open spec fn spec_checked_date(s: Seq<char>) -> Result<Date, AppError> {
    match spec_parse(s) {
        Err(e) => Err(e),
        Ok(d) => match spec_validate(d) {
            Err(e) => Err(e),
            Ok(u) => Ok(d),
        },
    }
}

/// Parses date text and immediately validates its ranges.
fn checked_date(s: &str) -> (r: Result<Date, AppError>)
    ensures
        r == spec_checked_date(s@),
{
    match Date::parse(s) {
        Err(e) => Err(e),
        Ok(d) => match d.validate() {
            Err(e) => Err(e),
            Ok(u) => Ok(d),
        },
    }
}

/// A date within calendar range survives the full round trip: formatting
/// it and parsing and validating the text yields the date itself, so the
/// canonical form loses nothing that a command could carry.
pub proof fn lemma_canonical_round_trip(d: Date)
    requires
        crate::date::date_in_range(d),
    ensures
        spec_checked_date(crate::date::spec_format_date(d)) == Ok::<Date, AppError>(d),
{
    crate::date::lemma_format_then_parse(d);
}

/// Is `c` ASCII whitespace (space, tab, line feed, carriage return or
/// form feed)?
pub open spec fn is_space(c: char) -> bool {
    c == ' ' || c == '\t' || c == '\n' || c == '\r' || c == '\u{000C}'
}

/// The first position at or after `from` holding whitespace, or the
/// length of `s` if there is none.
pub open spec fn find_space(s: Seq<char>, from: int) -> int
    decreases s.len() - from when from <= s.len()
{
    if from >= s.len() {
        s.len() as int
    } else if is_space(s[from]) {
        from
    } else {
        find_space(s, from + 1)
    }
}

/// The first position at or after `from` holding non-whitespace, or the
/// length of `s` if there is none.
pub open spec fn find_non_space(s: Seq<char>, from: int) -> int
    decreases s.len() - from when from <= s.len()
{
    if from >= s.len() {
        s.len() as int
    } else if !is_space(s[from]) {
        from
    } else {
        find_non_space(s, from + 1)
    }
}

proof fn lemma_find_space_bounds(s: Seq<char>, from: int)
    requires
        0 <= from <= s.len(),
    ensures
        from <= find_space(s, from) <= s.len(),
        find_space(s, from) < s.len() ==> is_space(s[find_space(s, from)]),
    decreases s.len() - from,
{
    if from < s.len() && !is_space(s[from]) {
        lemma_find_space_bounds(s, from + 1);
    }
}

proof fn lemma_find_non_space_bounds(s: Seq<char>, from: int)
    requires
        0 <= from <= s.len(),
    ensures
        from <= find_non_space(s, from) <= s.len(),
        find_non_space(s, from) < s.len() ==> !is_space(s[find_non_space(s, from)]),
    decreases s.len() - from,
{
    if from < s.len() && is_space(s[from]) {
        lemma_find_non_space_bounds(s, from + 1);
    }
}

/// The tokens of `s` from position `i` on: maximal whitespace-free runs.
pub open spec fn spec_tokens_from(s: Seq<char>, i: int) -> Seq<Seq<char>>
    decreases s.len() - i when 0 <= i <= s.len()
    via spec_tokens_from_decreases
{
    let start = find_non_space(s, i);
    if start >= s.len() {
        Seq::empty()
    } else {
        let end = find_space(s, start);
        seq![s.subrange(start, end)] + spec_tokens_from(s, end)
    }
}

#[via_fn]
proof fn spec_tokens_from_decreases(s: Seq<char>, i: int) {
    lemma_find_non_space_bounds(s, i);
    let start = find_non_space(s, i);
    if start < s.len() {
        lemma_find_space_bounds(s, start);
        let end = find_space(s, start);
        assert(end != start);
    }
}

/// The whitespace-separated tokens of a whole line.
pub open spec fn spec_tokenize(s: Seq<char>) -> Seq<Seq<char>> {
    spec_tokens_from(s, 0)
}

/// Scans `s` from `from` for the first whitespace character.
fn find_space_exec(s: &str, from: usize) -> (r: usize)
    requires
        from <= s@.len(),
    ensures
        r == find_space(s@, from as int),
        from <= r <= s@.len(),
{
    let n = s.unicode_len();
    let mut i: usize = from;
    while i < n
        invariant
            from <= i <= n,
            n == s@.len(),
            find_space(s@, from as int) == find_space(s@, i as int),
        decreases n - i,
    {
        let c = s.get_char(i);
        if c == ' ' || c == '\t' || c == '\n' || c == '\r' || c == '\u{000C}' {
            return i;
        }
        i += 1;
    }
    i
}

/// Scans `s` from `from` for the first non-whitespace character.
fn find_non_space_exec(s: &str, from: usize) -> (r: usize)
    requires
        from <= s@.len(),
    ensures
        r == find_non_space(s@, from as int),
        from <= r <= s@.len(),
{
    let n = s.unicode_len();
    let mut i: usize = from;
    while i < n
        invariant
            from <= i <= n,
            n == s@.len(),
            find_non_space(s@, from as int) == find_non_space(s@, i as int),
        decreases n - i,
    {
        let c = s.get_char(i);
        if !(c == ' ' || c == '\t' || c == '\n' || c == '\r' || c == '\u{000C}') {
            return i;
        }
        i += 1;
    }
    i
}

/// Splits a raw input line into its whitespace-separated tokens: maximal
/// non-blank runs, with leading, trailing and repeated blanks ignored.
pub fn tokenize(line: &str) -> (r: Vec<String>)
    ensures
        views_of(r@) == spec_tokenize(line@),
{
    let n = line.unicode_len();
    let mut toks: Vec<String> = Vec::new();
    let mut i: usize = 0;
    while i < n
        invariant
            0 <= i <= n,
            n == line@.len(),
            views_of(toks@) + spec_tokens_from(line@, i as int) == spec_tokenize(line@),
        decreases n - i,
    {
        let start = find_non_space_exec(line, i);
        if start == n {
            proof {
                assert(spec_tokens_from(line@, i as int) =~= spec_tokens_from(line@, n as int));
            }
            i = n;
        } else {
            let end = find_space_exec(line, start);
            proof {
                lemma_find_non_space_bounds(line@, i as int);
                lemma_find_space_bounds(line@, start as int);
                assert(!is_space(line@[start as int]));
                assert(end > start);
            }
            let tok = line.substring_char(start, end);
            let ghost old_toks = toks@;
            toks.push(tok.to_owned());
            proof {
                assert(views_of(toks@) =~= views_of(old_toks).push(tok@));
                assert(spec_tokens_from(line@, i as int) == seq![line@.subrange(
                    start as int,
                    end as int,
                )] + spec_tokens_from(line@, end as int));
                assert(views_of(toks@) + spec_tokens_from(line@, end as int) =~= spec_tokenize(
                    line@,
                ));
            }
            i = end;
        }
    }
    proof {
        assert(spec_tokens_from(line@, n as int) =~= Seq::<Seq<char>>::empty());
        assert(views_of(toks@) =~= spec_tokenize(line@));
    }
    toks
}

impl Command {
    /// Maps a token list to a command. The first token selects the
    /// variant; a recognized command with the wrong token count is
    /// malformed; every embedded date is parsed and validated before a
    /// command is produced, so the store never sees malformed input.
    pub fn parse(tokens: &Vec<String>) -> (r: Result<Command, AppError>)
        ensures
            ({
                let ts = views_of(tokens@);
                if ts.len() == 0 {
                    r == Err::<Command, AppError>(AppError::MalformedCommand)
                } else if ts[0] == "add"@ {
                    if ts.len() != 3 {
                        r == Err::<Command, AppError>(AppError::MalformedCommand)
                    } else {
                        match spec_checked_date(ts[1]) {
                            Err(e) => r == Err::<Command, AppError>(e),
                            Ok(d) => r matches Ok(Command::Add(d2, p)) && d2 == d && p@ == ts[2],
                        }
                    }
                } else if ts[0] == "del"@ {
                    if ts.len() != 2 && ts.len() != 3 {
                        r == Err::<Command, AppError>(AppError::MalformedCommand)
                    } else {
                        match spec_checked_date(ts[1]) {
                            Err(e) => r == Err::<Command, AppError>(e),
                            Ok(d) => {
                                if ts.len() == 3 {
                                    r matches Ok(Command::Delete(d2, Some(p))) && d2 == d && p@
                                        == ts[2]
                                } else {
                                    r matches Ok(Command::Delete(d2, o)) && d2 == d && o is None
                                }
                            },
                        }
                    }
                } else if ts[0] == "find"@ {
                    if ts.len() != 2 {
                        r == Err::<Command, AppError>(AppError::MalformedCommand)
                    } else {
                        match spec_checked_date(ts[1]) {
                            Err(e) => r == Err::<Command, AppError>(e),
                            Ok(d) => r matches Ok(Command::Find(d2)) && d2 == d,
                        }
                    }
                } else if ts[0] == "print"@ {
                    if ts.len() != 1 {
                        r == Err::<Command, AppError>(AppError::MalformedCommand)
                    } else {
                        r matches Ok(c) && c is Print
                    }
                } else if ts[0] == "exit"@ {
                    if ts.len() != 1 {
                        r == Err::<Command, AppError>(AppError::MalformedCommand)
                    } else {
                        r matches Ok(c) && c is Exit
                    }
                } else {
                    r matches Err(e) && e matches AppError::UnknownCommand(t) && t@ == ts[0]
                }
            }),
    {
        if tokens.len() == 0 {
            return Err(AppError::MalformedCommand);
        }
        let head = tokens[0].as_str();
        if str_eq(head, "add") {
            if tokens.len() != 3 {
                return Err(AppError::MalformedCommand);
            }
            let d = match checked_date(tokens[1].as_str()) {
                Ok(d) => d,
                Err(e) => {
                    return Err(e);
                },
            };
            Ok(Command::Add(d, tokens[2].clone()))
        } else if str_eq(head, "del") {
            if tokens.len() != 2 && tokens.len() != 3 {
                return Err(AppError::MalformedCommand);
            }
            let d = match checked_date(tokens[1].as_str()) {
                Ok(d) => d,
                Err(e) => {
                    return Err(e);
                },
            };
            if tokens.len() == 3 {
                Ok(Command::Delete(d, Some(tokens[2].clone())))
            } else {
                Ok(Command::Delete(d, None))
            }
        } else if str_eq(head, "find") {
            if tokens.len() != 2 {
                return Err(AppError::MalformedCommand);
            }
            let d = match checked_date(tokens[1].as_str()) {
                Ok(d) => d,
                Err(e) => {
                    return Err(e);
                },
            };
            Ok(Command::Find(d))
        } else if str_eq(head, "print") {
            if tokens.len() != 1 {
                return Err(AppError::MalformedCommand);
            }
            Ok(Command::Print)
        } else if str_eq(head, "exit") {
            if tokens.len() != 1 {
                return Err(AppError::MalformedCommand);
            }
            Ok(Command::Exit)
        } else {
            Err(AppError::UnknownCommand(tokens[0].clone()))
        }
    }
}

} // verus!
