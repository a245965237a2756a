use vstd::prelude::*;

use crate::line_split::{lemma_split_prefix, split_on};
use crate::normalize::{parse_count, parse_count_word};
use crate::text::{chars_of, contains, contains_seq, last_word, last_word_bounds};

verus! {

/// The character of a decimal digit.
pub open spec fn digit_char(d: nat) -> char {
    if d == 0 {
        '0'
    } else if d == 1 {
        '1'
    } else if d == 2 {
        '2'
    } else if d == 3 {
        '3'
    } else if d == 4 {
        '4'
    } else if d == 5 {
        '5'
    } else if d == 6 {
        '6'
    } else if d == 7 {
        '7'
    } else if d == 8 {
        '8'
    } else {
        '9'
    }
}

/// `n` written in decimal, without leading zeros.
pub open spec fn decimal_text(n: nat) -> Seq<char>
    decreases n,
{
    if n < 10 {
        seq![digit_char(n)]
    } else {
        decimal_text(n / 10).push(digit_char(n % 10))
    }
}

/// The process a line of `netstat -ano` names as listening on `port`: a
/// line holding `:PORT` and `LISTENING` whose last word is a process id.
pub open spec fn listening_pid_of(l: Seq<char>, port: u16) -> Option<u32> {
    if contains_seq(l, seq![':'] + decimal_text(port as nat)) && contains_seq(l, "LISTENING"@) {
        match parse_count(last_word(l)) {
            Some(v) => if v <= u32::MAX {
                Some(v as u32)
            } else {
                None
            },
            None => None,
        }
    } else {
        None
    }
}

/// The process named by the first line that names one as listening on
/// `port`.
pub open spec fn first_listening_pid(lines: Seq<Seq<char>>, port: u16) -> Option<u32>
    decreases lines.len(),
{
    if lines.len() == 0 {
        None
    } else {
        let prev = first_listening_pid(lines.drop_last(), port);
        if prev is Some {
            prev
        } else {
            listening_pid_of(lines.last(), port)
        }
    }
}

proof fn lemma_first_of_prefix(all: Seq<Seq<char>>, done: Seq<Seq<char>>, port: u16)
    requires
        done.len() <= all.len(),
        forall|t: int| 0 <= t < done.len() ==> #[trigger] all[t] == done[t],
        first_listening_pid(done, port) is Some,
    ensures
        first_listening_pid(all, port) == first_listening_pid(done, port),
    decreases all.len(),
{
    if all.len() == done.len() {
        assert(all =~= done);
    } else {
        lemma_first_of_prefix(all.drop_last(), done, port);
    }
}

fn digit(d: u16) -> (r: char)
    requires
        d < 10,
    ensures
        r == digit_char(d as nat),
{
    if d == 0 {
        '0'
    } else if d == 1 {
        '1'
    } else if d == 2 {
        '2'
    } else if d == 3 {
        '3'
    } else if d == 4 {
        '4'
    } else if d == 5 {
        '5'
    } else if d == 6 {
        '6'
    } else if d == 7 {
        '7'
    } else if d == 8 {
        '8'
    } else {
        '9'
    }
}

fn decimal_chars(n: u16) -> (r: Vec<char>)
    ensures
        r@ == decimal_text(n as nat),
    decreases n,
{
    if n < 10 {
        let mut v: Vec<char> = Vec::new();
        v.push(digit(n));
        assert(v@ =~= decimal_text(n as nat));
        v
    } else {
        let mut v = decimal_chars(n / 10);
        v.push(digit(n % 10));
        v
    }
}

/// The process a line names as listening on a port, given the line's
/// `:PORT` label and `LISTENING` as characters.
fn pid_of_line(l: &[char], label: &[char], listening: &[char], port: u16) -> (r: Option<u32>)
    requires
        label@ == seq![':'] + decimal_text(port as nat),
        listening@ == "LISTENING"@,
    ensures
        r == listening_pid_of(l@, port),
{
    if !(contains(l, label) && contains(l, listening)) {
        return None;
    }
    let (a, b) = last_word_bounds(l);
    match parse_count_word(&l[a..b]) {
        Some(v) => if v <= 0xffff_ffffusize {
            Some(v as u32)
        } else {
            None
        },
        None => None,
    }
}

/// The process that `netstat -ano` output names as listening on `port`:
/// the first line holding `:PORT` and `LISTENING` whose last word is a
/// process id.
pub fn listening_pid(output: &str, port: u16) -> (r: Option<u32>)
    ensures
        r == first_listening_pid(split_on(output@, '\n'), port),
{
    let mut label: Vec<char> = Vec::new();
    label.push(':');
    let digits = decimal_chars(port);
    let mut k: usize = 0;
    while k < digits.len()
        invariant
            k <= digits@.len(),
            label@ == seq![':'] + digits@.subrange(0, k as int),
        decreases digits@.len() - k,
    {
        label.push(digits[k]);
        assert(digits@.subrange(0, k + 1) =~= digits@.subrange(0, k as int).push(digits@[k as int]));
        k = k + 1;
    }
    assert(digits@.subrange(0, digits@.len() as int) =~= digits@);
    let listening = chars_of("LISTENING");
    let cs = chars_of(output);
    let n = cs.len();
    let ghost done: Seq<Seq<char>> = Seq::empty();
    let mut start: usize = 0;
    let mut i: usize = 0;
    assert(cs@.subrange(0, 0) =~= Seq::<char>::empty());
    assert(split_on(cs@.subrange(0, 0), '\n') =~= done.push(cs@.subrange(0, 0)));
    while i < n
        invariant
            start <= i <= n,
            n == cs@.len(),
            cs@ == output@,
            label@ == seq![':'] + decimal_text(port as nat),
            listening@ == "LISTENING"@,
            first_listening_pid(done, port) is None,
            split_on(cs@.subrange(0, i as int), '\n') == done.push(cs@.subrange(start as int, i as int)),
        decreases n - i,
    {
        let ghost prefix = cs@.subrange(0, i + 1);
        assert(prefix.drop_last() =~= cs@.subrange(0, i as int));
        assert(prefix.last() == cs@[i as int]);
        if cs[i] == '\n' {
            let line = &cs.as_slice()[start..i];
            let found = pid_of_line(line, label.as_slice(), listening.as_slice(), port);
            proof {
                assert(done.push(line@).drop_last() =~= done);
                done = done.push(line@);
            }
            if found.is_some() {
                proof {
                    assert(split_on(prefix, '\n') == split_on(prefix.drop_last(), '\n').push(
                        Seq::empty(),
                    ));
                    lemma_split_prefix(cs@, i + 1, '\n');
                    assert(cs@ == output@);
                    lemma_first_of_prefix(split_on(output@, '\n'), done, port);
                }
                return found;
            }
            start = i + 1;
            assert(cs@.subrange(start as int, i + 1) =~= Seq::<char>::empty());
            assert(split_on(prefix, '\n') == split_on(prefix.drop_last(), '\n').push(Seq::empty()));
            assert(split_on(prefix, '\n') =~= done.push(cs@.subrange(start as int, i + 1)));
        } else {
            assert(cs@.subrange(start as int, i + 1) =~= cs@.subrange(start as int, i as int).push(
                cs@[i as int],
            ));
        }
        i = i + 1;
    }
    let last = &cs.as_slice()[start..n];
    let found = pid_of_line(last, label.as_slice(), listening.as_slice(), port);
    proof {
        assert(cs@.subrange(0, n as int) =~= cs@);
        let all = done.push(last@);
        assert(all.drop_last() =~= done);
    }
    found
}

} // verus!
