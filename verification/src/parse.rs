//! Parsing a process from a whitespace-separated text record of the form
//! `"<id> <arrival_time> <burst_time> [priority]"`.

use vstd::prelude::*;

use crate::process::{Process, ProcessState};

verus! {

/// The ways a process record can fail to parse: fewer than three fields, or
/// one of the three required fields is not an unsigned integer.
#[derive(Clone, Copy, PartialEq, Eq, Structural, Debug)]
pub enum ParseError {
    TooFewFields,
    InvalidPid,
    InvalidArrivalTime,
    InvalidBurstTime,
}

/// ASCII whitespace: space, tab, line feed, form feed, carriage return.
pub open spec fn is_space_char(c: char) -> bool {
    c == ' ' || c == '\t' || c == '\n' || c == '\u{000C}' || c == '\r'
}

/// The length of the maximal whitespace-free prefix.
pub open spec fn token_len(s: Seq<char>) -> nat
    decreases s.len(),
{
    if s.len() == 0 || is_space_char(s[0]) {
        0
    } else {
        (1 + token_len(s.drop_first())) as nat
    }
}

pub proof fn lemma_token_len_le(s: Seq<char>)
    ensures
        token_len(s) <= s.len(),
    decreases s.len(),
{
    if s.len() > 0 && !is_space_char(s[0]) {
        lemma_token_len_le(s.drop_first());
    }
}

/// The whitespace-separated fields of a text record, in order.
pub open spec fn spec_tokens(s: Seq<char>) -> Seq<Seq<char>>
    decreases s.len(),
        via spec_tokens_decreases
{
    if s.len() == 0 {
        Seq::empty()
    } else if is_space_char(s[0]) {
        spec_tokens(s.drop_first())
    } else {
        seq![s.take(token_len(s) as int)] + spec_tokens(s.skip(token_len(s) as int))
    }
}

#[via_fn]
proof fn spec_tokens_decreases(s: Seq<char>) {
    if s.len() > 0 && !is_space_char(s[0]) {
        lemma_token_len_le(s);
    }
}

/// The maximal whitespace-free prefix ends exactly where the first
/// whitespace character (or the end of the text) stands.
pub proof fn lemma_token_len_exact(t: Seq<char>, m: nat)
    requires
        m <= t.len(),
        forall|k: int| 0 <= k < m ==> !is_space_char(#[trigger] t[k]),
        m == t.len() || is_space_char(t[m as int]),
    ensures
        token_len(t) == m,
    decreases m,
{
    if m > 0 {
        assert(!is_space_char(t[0]));
        lemma_token_len_exact(t.drop_first(), (m - 1) as nat);
    }
}

/// A decimal digit.
pub open spec fn is_digit_char(c: char) -> bool {
    48 <= c as u32 <= 57
}

/// The numeric value of a decimal digit.
pub open spec fn digit_val(c: char) -> int {
    c as u32 - 48
}

pub open spec fn all_digits(t: Seq<char>) -> bool {
    forall|i: int| 0 <= i < t.len() ==> is_digit_char(#[trigger] t[i])
}

/// The numeric value of a sequence of decimal digits, most significant
/// first.
pub open spec fn digits_val(t: Seq<char>) -> int
    decreases t.len(),
{
    if t.len() == 0 {
        0
    } else {
        digits_val(t.drop_last()) * 10 + digit_val(t.last())
    }
}

/// The digits of an unsigned integer field: everything after an optional
/// leading `+`.
pub open spec fn digits_part(t: Seq<char>) -> Seq<char> {
    if t.len() > 0 && t[0] == '+' {
        t.drop_first()
    } else {
        t
    }
}

/// A field parses as a `usize`: an optional leading `+`, then at least one
/// decimal digit, with a value that fits the machine word.
pub open spec fn is_uint_token(t: Seq<char>) -> bool {
    &&& digits_part(t).len() > 0
    &&& all_digits(digits_part(t))
    &&& digits_val(digits_part(t)) <= usize::MAX
}

/// The numeric value of an unsigned integer field.
pub open spec fn uint_token_val(t: Seq<char>) -> int {
    digits_val(digits_part(t))
}

pub proof fn lemma_digits_val_nonneg(t: Seq<char>)
    requires
        all_digits(t),
    ensures
        digits_val(t) >= 0,
    decreases t.len(),
{
    if t.len() > 0 {
        assert(all_digits(t.drop_last())) by {
            assert(forall|i: int| 0 <= i < t.len() - 1 ==> t.drop_last()[i] == #[trigger] t[i]);
        }
        lemma_digits_val_nonneg(t.drop_last());
    }
}

/// A prefix of a digit sequence never has a larger value than the whole.
pub proof fn lemma_digits_val_prefix(t: Seq<char>, k: int)
    requires
        all_digits(t),
        0 <= k <= t.len(),
    ensures
        digits_val(t.take(k)) <= digits_val(t),
    decreases t.len(),
{
    if k == t.len() {
        assert(t.take(k) =~= t);
    } else {
        let dl = t.drop_last();
        assert(all_digits(dl)) by {
            assert(forall|i: int| 0 <= i < t.len() - 1 ==> dl[i] == #[trigger] t[i]);
        }
        lemma_digits_val_prefix(dl, k);
        lemma_digits_val_nonneg(dl);
        assert(t.take(k) =~= dl.take(k));
        assert(digits_val(t) == digits_val(dl) * 10 + digit_val(t.last()));
        assert(digits_val(dl) * 10 >= digits_val(dl)) by (nonlinear_arith)
            requires
                digits_val(dl) >= 0,
        ;
    }
}

/// Whether `c` is ASCII whitespace.
fn is_space(c: char) -> (b: bool)
    ensures
        b == is_space_char(c),
{
    c == ' ' || c == '\t' || c == '\n' || c == '\u{000C}' || c == '\r'
}

/// Parses the characters of `s` between `from` and `to` as a `usize`:
/// an optional leading `+`, then decimal digits.
fn parse_uint(s: &str, from: usize, to: usize) -> (r: Option<usize>)
    requires
        from <= to <= s@.len(),
    ensures
        ({
            let t = s@.subrange(from as int, to as int);
            r == if is_uint_token(t) {
                Some(uint_token_val(t) as usize)
            } else {
                None::<usize>
            }
        }),
{
    let ghost t = s@.subrange(from as int, to as int);
    let mut idx = from;
    if idx < to && s.get_char(idx) == '+' {
        idx = idx + 1;
    }
    let ghost dseq = s@.subrange(idx as int, to as int);
    proof {
        assert(dseq =~= digits_part(t));
    }
    if idx == to {
        return None;
    }
    let mut acc: usize = 0;
    let mut j = idx;
    while j < to
        invariant
            from <= idx <= j <= to <= s@.len(),
            idx < to,
            dseq == s@.subrange(idx as int, to as int),
            dseq == digits_part(s@.subrange(from as int, to as int)),
            dseq.len() == to - idx,
            all_digits(dseq.take(j - idx)),
            acc == digits_val(dseq.take(j - idx)),
        decreases to - j,
    {
        let ch = s.get_char(j);
        proof {
            assert(dseq[j - idx] == ch);
        }
        let cv = ch as u32;
        if cv < 48 || cv > 57 {
            proof {
                assert(!is_digit_char(ch));
                assert(!all_digits(dseq));
            }
            return None;
        }
        let d = (cv - 48) as usize;
        proof {
            assert(dseq.take(j - idx + 1).drop_last() =~= dseq.take(j - idx));
            assert(dseq.take(j - idx + 1).last() == ch);
            assert(all_digits(dseq.take(j - idx + 1))) by {
                assert(forall|i: int|
                    0 <= i < j - idx + 1 ==> dseq.take(j - idx + 1)[i] == #[trigger] dseq.take(
                        j - idx,
                    ).push(ch)[i]);
            }
            assert(digits_val(dseq.take(j - idx + 1)) == acc * 10 + digit_val(ch));
        }
        let acc10 = match acc.checked_mul(10) {
            Some(v) => v,
            None => {
                proof {
                    lemma_overflow(dseq, j - idx + 1, acc * 10 + digit_val(ch));
                }
                return None;
            },
        };
        let acc2 = match acc10.checked_add(d) {
            Some(v) => v,
            None => {
                proof {
                    lemma_overflow(dseq, j - idx + 1, acc * 10 + digit_val(ch));
                }
                return None;
            },
        };
        acc = acc2;
        j = j + 1;
    }
    proof {
        assert(dseq.take(to - idx) =~= dseq);
    }
    Some(acc)
}

/// If some prefix of the digit field already exceeds the machine word, the
/// whole field does, and it is not a valid `usize` token.
proof fn lemma_overflow(dseq: Seq<char>, k: int, v: int)
    requires
        0 < k <= dseq.len(),
        all_digits(dseq.take(k)),
        digits_val(dseq.take(k)) == v,
        v > usize::MAX,
    ensures
        !(all_digits(dseq) && digits_val(dseq) <= usize::MAX),
{
    if all_digits(dseq) {
        lemma_digits_val_prefix(dseq, k);
    }
}

impl Process {
    /// Parses a whitespace-separated text record
    /// `"<id> <arrival_time> <burst_time> [priority]"` into a process that
    /// has not yet entered the system. It fails if fewer than three fields
    /// are present or one of the first three is not an unsigned integer;
    /// the optional priority field is lenient and defaults to 0 when absent
    /// or unparsable.
    pub fn from_str(s: &str) -> (r: Result<Process, ParseError>)
        ensures
            ({
                let ts = spec_tokens(s@);
                if ts.len() < 3 {
                    r == Err::<Process, ParseError>(ParseError::TooFewFields)
                } else if !is_uint_token(ts[0]) {
                    r == Err::<Process, ParseError>(ParseError::InvalidPid)
                } else if !is_uint_token(ts[1]) {
                    r == Err::<Process, ParseError>(ParseError::InvalidArrivalTime)
                } else if !is_uint_token(ts[2]) {
                    r == Err::<Process, ParseError>(ParseError::InvalidBurstTime)
                } else {
                    r == Ok::<Process, ParseError>(
                        Process {
                            pid: uint_token_val(ts[0]) as usize,
                            arrival_time: uint_token_val(ts[1]) as usize,
                            burst_time: uint_token_val(ts[2]) as usize,
                            priority: if ts.len() >= 4 && is_uint_token(ts[3]) {
                                uint_token_val(ts[3]) as usize
                            } else {
                                0
                            },
                            exit_time: None,
                            state: ProcessState::NotInSystem,
                            progress: 0,
                        },
                    )
                }
            }),
    {
        let fields = tokenize(s);
        proof {
            assert(forall|k: int|
                0 <= k < fields@.len() ==> #[trigger] spec_tokens(s@)[k] == s@.subrange(
                    fields@[k].0 as int,
                    fields@[k].1 as int,
                ));
        }
        if fields.len() < 3 {
            return Err(ParseError::TooFewFields);
        }
        let pid = match parse_uint(s, fields[0].0, fields[0].1) {
            Some(v) => v,
            None => {
                return Err(ParseError::InvalidPid);
            },
        };
        let arrival_time = match parse_uint(s, fields[1].0, fields[1].1) {
            Some(v) => v,
            None => {
                return Err(ParseError::InvalidArrivalTime);
            },
        };
        let burst_time = match parse_uint(s, fields[2].0, fields[2].1) {
            Some(v) => v,
            None => {
                return Err(ParseError::InvalidBurstTime);
            },
        };
        let priority = if fields.len() >= 4 {
            match parse_uint(s, fields[3].0, fields[3].1) {
                Some(v) => v,
                None => 0,
            }
        } else {
            0
        };
        Ok(
            Process {
                pid,
                arrival_time,
                burst_time,
                priority,
                exit_time: None,
                state: ProcessState::NotInSystem,
                progress: 0,
            },
        )
    }
}

/// Finds the whitespace-separated fields of `s`, as pairs of character
/// indices `(start, end)`.
fn tokenize(s: &str) -> (fields: Vec<(usize, usize)>)
    ensures
        fields@.map_values(|t: (usize, usize)| s@.subrange(t.0 as int, t.1 as int)) == spec_tokens(
            s@,
        ),
        forall|k: int| 0 <= k < fields@.len() ==> {
            &&& (#[trigger] fields@[k]).0 < fields@[k].1
            &&& fields@[k].1 <= s@.len()
        },
{
    let n = s.unicode_len();
    let mut fields: Vec<(usize, usize)> = Vec::new();
    let mut i: usize = 0;
    proof {
        assert(s@.skip(0) =~= s@);
        assert(fields@.map_values(|t: (usize, usize)| s@.subrange(t.0 as int, t.1 as int))
            =~= Seq::<Seq<char>>::empty());
    }
    while i < n
        invariant
            i <= n,
            n == s@.len(),
            spec_tokens(s@) == fields@.map_values(
                |t: (usize, usize)| s@.subrange(t.0 as int, t.1 as int),
            ) + spec_tokens(s@.skip(i as int)),
            forall|k: int| 0 <= k < fields@.len() ==> {
                &&& (#[trigger] fields@[k]).0 < fields@[k].1
                &&& fields@[k].1 <= s@.len()
            },
        decreases n - i,
    {
        let c = s.get_char(i);
        if is_space(c) {
            proof {
                assert(s@.skip(i as int).drop_first() =~= s@.skip(i as int + 1));
            }
            i = i + 1;
        } else {
            let mut j = i + 1;
            while j < n && !is_space(s.get_char(j))
                invariant
                    i < j <= n,
                    n == s@.len(),
                    forall|k: int| i <= k < j ==> !is_space_char(#[trigger] s@[k]),
                decreases n - j,
            {
                j = j + 1;
            }
            let ghost tail = s@.skip(i as int);
            proof {
                assert(forall|k: int| 0 <= k < j - i ==> tail[k] == #[trigger] s@[k + i]);
                lemma_token_len_exact(tail, (j - i) as nat);
                assert(tail.take(j - i) =~= s@.subrange(i as int, j as int));
                assert(tail.skip(j - i) =~= s@.skip(j as int));
            }
            let ghost before = fields@;
            fields.push((i, j));
            proof {
                assert(fields@.map_values(|t: (usize, usize)| s@.subrange(t.0 as int, t.1 as int))
                    =~= before.map_values(|t: (usize, usize)| s@.subrange(t.0 as int, t.1 as int)).push(
                    s@.subrange(i as int, j as int),
                ));
                assert(before.map_values(|t: (usize, usize)| s@.subrange(t.0 as int, t.1 as int))
                    + (seq![tail.take(token_len(tail) as int)] + spec_tokens(
                    tail.skip(token_len(tail) as int),
                )) =~= fields@.map_values(
                    |t: (usize, usize)| s@.subrange(t.0 as int, t.1 as int),
                ) + spec_tokens(s@.skip(j as int)));
            }
            i = j;
        }
    }
    proof {
        assert(s@.skip(n as int).len() == 0);
        assert(fields@.map_values(|t: (usize, usize)| s@.subrange(t.0 as int, t.1 as int))
            + spec_tokens(s@.skip(n as int)) =~= fields@.map_values(
            |t: (usize, usize)| s@.subrange(t.0 as int, t.1 as int),
        ));
    }
    fields
}

} // verus!
