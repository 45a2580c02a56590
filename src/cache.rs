//! The result cache's records: where an outcome is stored and the text of the
//! stored exit code. Reading and writing the files is the caller's part.
use vstd::prelude::*;
use crate::config::{dec, dec_digit};
use crate::git::push_char;
use crate::scheduler::{Fingerprint, JobOutcome, spec_cacheable};

verus! {

pub open spec fn is_digit(c: char) -> bool {
    c == '0' || c == '1' || c == '2' || c == '3' || c == '4' || c == '5' || c == '6' || c == '7' || c == '8'
        || c == '9'
}

/// The value of a decimal digit.
pub open spec fn digit_val(c: char) -> nat {
    if c == '1' {
        1
    } else if c == '2' {
        2
    } else if c == '3' {
        3
    } else if c == '4' {
        4
    } else if c == '5' {
        5
    } else if c == '6' {
        6
    } else if c == '7' {
        7
    } else if c == '8' {
        8
    } else if c == '9' {
        9
    } else {
        0
    }
}

fn digit_of(c: char) -> (r: Option<u64>)
    ensures
        r is Some <==> is_digit(c),
        r is Some ==> r->Some_0 == digit_val(c),
{
    if c == '0' { Some(0) } else if c == '1' { Some(1) } else if c == '2' { Some(2) } else if c == '3' { Some(3) }
    else if c == '4' { Some(4) } else if c == '5' { Some(5) } else if c == '6' { Some(6) } else if c == '7' {
        Some(7)
    } else if c == '8' { Some(8) } else if c == '9' { Some(9) } else { None }
}

pub open spec fn all_digits(s: Seq<char>) -> bool {
    forall|i: int| 0 <= i < s.len() ==> is_digit(#[trigger] s[i])
}

/// The value of a run of decimal digits.
pub open spec fn digits_value(s: Seq<char>) -> nat
    decreases s.len(),
{
    if s.len() == 0 {
        0
    } else {
        digits_value(s.drop_last()) * 10 + digit_val(s.last())
    }
}

/// The text of a stored exit code: decimal, with a minus sign when negative.
pub open spec fn spec_encode(o: JobOutcome) -> Option<Seq<char>> {
    match o {
        JobOutcome::Success => Some(seq!['0']),
        JobOutcome::Failure(c) => Some(
            if c < 0 {
                seq!['-'] + dec((-c) as nat)
            } else {
                dec(c as nat)
            },
        ),
        _ => None,
    }
}

/// What a stored record means: an optional minus sign and at least one digit,
/// whose value fits an exit code; 0 is a success.
pub open spec fn spec_decode(s: Seq<char>) -> Option<JobOutcome> {
    let neg = s.len() > 0 && s[0] == '-';
    let body = if neg { s.drop_first() } else { s };
    let v: int = if neg { -(digits_value(body) as int) } else { digits_value(body) as int };
    if body.len() == 0 || !all_digits(body) {
        None
    } else if v < i32::MIN || v > i32::MAX {
        None
    } else if v == 0 {
        Some(JobOutcome::Success)
    } else {
        Some(JobOutcome::Failure(v as i32))
    }
}

proof fn lemma_dec(n: nat)
    ensures
        dec(n).len() > 0,
        forall|i: int| 0 <= i < dec(n).len() ==> is_digit(#[trigger] dec(n)[i]),
        digits_value(dec(n)) == n,
    decreases n,
{
    if n >= 10 {
        lemma_dec(n / 10);
        let d = dec(n / 10);
        assert forall|i: int| 0 <= i < dec(n).len() implies is_digit(#[trigger] dec(n)[i]) by {
            if i < d.len() {
                assert(dec(n)[i] == d[i]);
            }
        }
        assert(dec(n).drop_last() =~= d);
        assert(dec(n).last() == dec_digit(n % 10));
        assert(digit_val(dec_digit(n % 10)) == n % 10);
        assert(n == (n / 10) * 10 + n % 10) by (nonlinear_arith);
    } else {
        assert(dec(n).drop_last() =~= Seq::<char>::empty());
        assert(digits_value(Seq::<char>::empty()) == 0);
        assert(digit_val(dec_digit(n)) == n);
    }
}

/// A stored outcome reads back as itself. (A failure with exit code 0 does
/// not arise: exit code 0 is a success.)
pub proof fn lemma_record_round_trip(o: JobOutcome)
    requires
        spec_cacheable(o),
        o != JobOutcome::Failure(0),
    ensures
        spec_encode(o) is Some,
        spec_decode(spec_encode(o)->Some_0) == Some(o),
{
    match o {
        JobOutcome::Success => {
            let s = seq!['0'];
            assert(s.drop_last() =~= Seq::<char>::empty());
            assert(digits_value(Seq::<char>::empty()) == 0);
            assert(digits_value(s) == 0);
        },
        JobOutcome::Failure(c) => {
            if c < 0 {
                let n = (-c) as nat;
                lemma_dec(n);
                let s = seq!['-'] + dec(n);
                assert(s.drop_first() =~= dec(n));
                assert(s[0] == '-');
            } else {
                lemma_dec(c as nat);
                assert(dec(c as nat)[0] != '-');
            }
        },
        _ => {},
    }
}

fn digit_char(d: u64) -> (r: char)
    requires
        d < 10,
    ensures
        r == dec_digit(d as nat),
{
    if d == 0 { '0' } else if d == 1 { '1' } else if d == 2 { '2' } else if d == 3 { '3' } else if d == 4 {
        '4'
    } else if d == 5 { '5' } else if d == 6 { '6' } else if d == 7 { '7' } else if d == 8 { '8' } else { '9' }
}

fn push_decimal(s: &mut String, n: u64)
    ensures
        final(s)@ == old(s)@ + dec(n as nat),
    decreases n,
{
    if n >= 10 {
        push_decimal(s, n / 10);
    }
    push_char(s, digit_char(n % 10));
    assert(s@ =~= old(s)@ + dec(n as nat));
}

/// The text to store for an outcome; `None` for outcomes that are not cached.
pub fn encode_record(o: &JobOutcome) -> (r: Option<String>)
    ensures
        r is Some <==> spec_encode(*o) is Some,
        r is Some ==> r->Some_0@ == spec_encode(*o)->Some_0,
{
    match o {
        JobOutcome::Success => {
            let mut s = String::new();
            push_char(&mut s, '0');
            assert(s@ =~= seq!['0']);
            Some(s)
        },
        JobOutcome::Failure(c) => {
            let mut s = String::new();
            if *c < 0 {
                push_char(&mut s, '-');
                let m: i64 = -(*c as i64);
                push_decimal(&mut s, m as u64);
            } else {
                push_decimal(&mut s, *c as u64);
            }
            assert(s@ =~= spec_encode(*o)->Some_0);
            Some(s)
        },
        _ => None,
    }
}

/// Reads a stored record; `None` where it is not one.
pub fn decode_record(s: &String) -> (r: Option<JobOutcome>)
    ensures
        r == spec_decode(s@),
{
    let text = s.as_str();
    let n = text.unicode_len();
    let neg = n > 0 && text.get_char(0) == '-';
    let start: usize = if neg { 1 } else { 0 };
    let ghost body = if neg { s@.drop_first() } else { s@ };
    assert(neg == (s@.len() > 0 && s@[0] == '-'));
    assert(body =~= s@.subrange(start as int, n as int));
    if start >= n {
        return None;
    }
    assert(body.subrange(0, 0) =~= Seq::<char>::empty());
    let mut v: u64 = 0;
    let mut i: usize = start;
    while i < n
        invariant
            n == s@.len(),
            text@ == s@,
            neg == (s@.len() > 0 && s@[0] == '-'),
            body == (if neg { s@.drop_first() } else { s@ }),
            start == (if neg { 1usize } else { 0usize }),
            start <= i <= n,
            body == s@.subrange(start as int, n as int),
            forall|j: int| 0 <= j < i - start ==> is_digit(#[trigger] body[j]),
            v == digits_value(body.subrange(0, i - start)),
            v <= 0x8000_0000,
        decreases n - i,
    {
        let c = text.get_char(i);
        let d = match digit_of(c) {
            Some(d) => d,
            None => {
                proof {
                    let j = i - start;
                    assert(body[j] == c);
                    assert(0 <= j < body.len());
                    assert(!is_digit(body[j]));
                    assert(!all_digits(body));
                }
                return None;
            },
        };
        assert(body[i - start] == c);
        assert(body.subrange(0, i - start + 1).drop_last() =~= body.subrange(0, i - start));
        v = v * 10 + d;
        if v > 0x8000_0000 {
            proof {
                lemma_digits_value_grows(body, i - start + 1);
            }
            return None;
        }
        i += 1;
    }
    assert(body.subrange(0, n - start) =~= body);
    if neg {
        let x: i64 = -(v as i64);
        if x == 0 {
            Some(JobOutcome::Success)
        } else {
            Some(JobOutcome::Failure(x as i32))
        }
    } else if v > 0x7fff_ffff {
        None
    } else if v == 0 {
        Some(JobOutcome::Success)
    } else {
        Some(JobOutcome::Failure(v as i32))
    }
}

/// A longer run of digits is worth at least as much as its prefix.
proof fn lemma_digits_value_grows(s: Seq<char>, k: int)
    requires
        0 <= k <= s.len(),
    ensures
        digits_value(s) >= digits_value(s.subrange(0, k)),
    decreases s.len() - k,
{
    if k < s.len() {
        lemma_digits_value_grows(s.drop_last(), k);
        assert(s.drop_last().subrange(0, k) =~= s.subrange(0, k));
    } else {
        assert(s.subrange(0, k) =~= s);
    }
}

/// The directories, from the cache's root, that hold an outcome:
/// test name, configuration hash, cache key.
pub fn artifact_dir(fp: &Fingerprint) -> (r: Vec<String>)
    ensures
        r@.len() == 3,
        r@[0]@ == fp.test_name@,
        r@[1]@ == fp.config_hash@,
        r@[2]@ == fp.cache_key@,
{
    let mut r: Vec<String> = Vec::new();
    r.push(fp.test_name.clone());
    r.push(fp.config_hash.clone());
    r.push(fp.cache_key.clone());
    r
}

/// The files that hold a job's output.
pub fn output_files(separate_outputs: bool) -> (r: Vec<String>)
    ensures
        separate_outputs ==> r@.len() == 2 && r@[0]@ == "stdout.txt"@ && r@[1]@ == "stderr.txt"@,
        !separate_outputs ==> r@.len() == 1 && r@[0]@ == "output.txt"@,
{
    let mut r: Vec<String> = Vec::new();
    if separate_outputs {
        r.push(String::from_str("stdout.txt"));
        r.push(String::from_str("stderr.txt"));
    } else {
        r.push(String::from_str("output.txt"));
    }
    r
}

} // verus!
