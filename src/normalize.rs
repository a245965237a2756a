use vstd::prelude::*;
use vstd::string::StringExecFns;

use crate::line_split::split_on;
use crate::text::{
    contains, contains_seq, find_char, find_from, first_word, first_word_bounds, is_white_space,
    is_whitespace, slice_to_chars, string_from_chars, chars_of, decode_lossy, lossy_text, trim, trim_bounds,
};

verus! {

/// Whether `c` is an ASCII decimal digit.
pub open spec fn is_digit(c: char) -> bool {
    '0' <= c && c <= '9'
}

/// The value of a string of decimal digits.
pub open spec fn decimal_value(s: Seq<char>) -> int
    decreases s.len(),
{
    if s.len() == 0 {
        0
    } else {
        decimal_value(s.drop_last()) * 10 + (s.last() as int - '0' as int)
    }
}

/// The digits of a count: the word without one leading plus sign.
pub open spec fn count_digits(w: Seq<char>) -> Seq<char> {
    if w.len() > 0 && w[0] == '+' {
        w.drop_first()
    } else {
        w
    }
}

/// A word read as an unsigned count the way `usize::from_str` reads it: an
/// optional plus sign, then at least one decimal digit, the value in range.
pub open spec fn parse_count(w: Seq<char>) -> Option<usize> {
    let d = count_digits(w);
    if d.len() > 0 && (forall|i: int| 0 <= i < d.len() ==> is_digit(#[trigger] d[i]))
        && decimal_value(d) <= usize::MAX {
        Some(decimal_value(d) as usize)
    } else {
        None
    }
}

proof fn lemma_decimal_nonneg(s: Seq<char>)
    requires
        forall|i: int| 0 <= i < s.len() ==> is_digit(#[trigger] s[i]),
    ensures
        decimal_value(s) >= 0,
    decreases s.len(),
{
    if s.len() > 0 {
        lemma_decimal_nonneg(s.drop_last());
    }
}

/// Read a word as an unsigned count; `None` where it is not one.
pub fn parse_count_word(w: &[char]) -> (r: Option<usize>)
    ensures
        r == parse_count(w@),
{
    let n = w.len();
    let mut i: usize = 0;
    if n > 0 && w[0] == '+' {
        i = 1;
    }
    let ghost d = count_digits(w@);
    assert(d =~= w@.subrange(i as int, n as int));
    if i == n {
        return None;
    }
    let mut acc: usize = 0;
    let mut overflow = false;
    let mut k: usize = i;
    assert(d.subrange(0, 0) =~= Seq::<char>::empty());
    while k < n
        invariant
            i <= k <= n,
            n == w@.len(),
            d == w@.subrange(i as int, n as int),
            d == count_digits(w@),
            forall|t: int| 0 <= t < k - i ==> is_digit(#[trigger] d[t]),
            !overflow ==> acc == decimal_value(d.subrange(0, k - i)),
            overflow ==> decimal_value(d.subrange(0, k - i)) > usize::MAX,
        decreases n - k,
    {
        let c = w[k];
        if !('0' <= c && c <= '9') {
            assert(d[k - i] == c);
            assert(!is_digit(d[k - i]));
            return None;
        }
        let ghost prev = decimal_value(d.subrange(0, k - i));
        assert(d.subrange(0, k + 1 - i).drop_last() =~= d.subrange(0, k - i));
        proof {
            lemma_decimal_nonneg(d.subrange(0, k - i));
        }
        let digit = (c as u32 - '0' as u32) as usize;
        if !overflow {
            if acc > (usize::MAX - digit) / 10 {
                overflow = true;
                assert(prev * 10 + digit > usize::MAX) by (nonlinear_arith)
                    requires
                        prev == acc,
                        acc > (usize::MAX - digit) / 10,
                        0 <= digit <= 9,
                ;
            } else {
                assert(acc * 10 + digit <= usize::MAX) by (nonlinear_arith)
                    requires
                        acc <= (usize::MAX - digit) / 10,
                        0 <= digit <= 9,
                ;
                acc = acc * 10 + digit;
            }
        } else {
            assert(prev * 10 + digit > usize::MAX) by (nonlinear_arith)
                requires
                    prev > usize::MAX,
                    0 <= digit <= 9,
            ;
        }
        k = k + 1;
    }
    assert(d.subrange(0, n - i) =~= d);
    if overflow {
        None
    } else {
        Some(acc)
    }
}

/// The entity that stands for `c` in markup, or `c` itself.
pub open spec fn escape_char(c: char) -> Seq<char> {
    if c == '&' {
        seq!['&', 'a', 'm', 'p', ';']
    } else if c == '<' {
        seq!['&', 'l', 't', ';']
    } else if c == '>' {
        seq!['&', 'g', 't', ';']
    } else if c == '"' {
        seq!['&', 'q', 'u', 'o', 't', ';']
    } else if c == '\'' {
        seq!['&', 'a', 'p', 'o', 's', ';']
    } else {
        seq![c]
    }
}

/// `s` made safe to embed in markup: ampersands, angle brackets and both
/// quotes become entities.
pub open spec fn escape(s: Seq<char>) -> Seq<char>
    decreases s.len(),
{
    if s.len() == 0 {
        Seq::empty()
    } else {
        escape_char(s[0]) + escape(s.drop_first())
    }
}

proof fn lemma_escape_push(s: Seq<char>, c: char)
    ensures
        escape(s.push(c)) == escape(s) + escape_char(c),
    decreases s.len(),
{
    if s.len() == 0 {
        assert(s.push(c).drop_first() =~= Seq::<char>::empty());
        assert(escape(Seq::<char>::empty()) == Seq::<char>::empty());
        assert(s.push(c)[0] == c);
        assert(escape(s.push(c)) =~= escape_char(c));
    } else {
        assert(s.push(c).drop_first() =~= s.drop_first().push(c));
        lemma_escape_push(s.drop_first(), c);
        assert(escape(s.push(c)) =~= escape(s) + escape_char(c));
    }
}

/// `s` with every occurrence of `p` replaced by `r`, scanning from the
/// left without overlaps, as `str::replace` does.
pub open spec fn replace_all(s: Seq<char>, p: Seq<char>, r: Seq<char>) -> Seq<char>
    decreases s.len(),
{
    if s.len() == 0 {
        Seq::empty()
    } else if p.len() > 0 && s.len() >= p.len() && s.subrange(0, p.len() as int) == p {
        r + replace_all(s.subrange(p.len() as int, s.len() as int), p, r)
    } else {
        seq![s[0]] + replace_all(s.drop_first(), p, r)
    }
}

/// Escaped text read back by the five replacements in the reverse order
/// of escaping: apostrophes, quotes, greater-than, less-than, ampersands.
pub open spec fn unescape(e: Seq<char>) -> Seq<char> {
    let e1 = replace_all(e, escape_char('\''), seq!['\'']);
    let e2 = replace_all(e1, escape_char('"'), seq!['"']);
    let e3 = replace_all(e2, escape_char('>'), seq!['>']);
    let e4 = replace_all(e3, escape_char('<'), seq!['<']);
    replace_all(e4, escape_char('&'), seq!['&'])
}

/// Whether `c` is one of the five characters that escaping changes.
pub open spec fn is_special(c: char) -> bool {
    c == '&' || c == '<' || c == '>' || c == '"' || c == '\''
}

/// The character that replacement step `k` (from zero) of `unescape`
/// restores.
pub open spec fn restored_at(k: int) -> char {
    if k == 0 {
        '\''
    } else if k == 1 {
        '"'
    } else if k == 2 {
        '>'
    } else if k == 3 {
        '<'
    } else {
        '&'
    }
}

/// How `c` stands after the first `k` replacement steps: restored if one of
/// them restored it, still escaped otherwise.
pub open spec fn partly_escaped_char(c: char, k: int) -> Seq<char> {
    if exists|i: int| 0 <= i < k && restored_at(i) == c {
        seq![c]
    } else {
        escape_char(c)
    }
}

/// `s` escaped, then put through the first `k` replacement steps.
pub open spec fn partly_escaped(s: Seq<char>, k: int) -> Seq<char>
    decreases s.len(),
{
    if s.len() == 0 {
        Seq::empty()
    } else {
        partly_escaped_char(s[0], k) + partly_escaped(s.drop_first(), k)
    }
}

proof fn lemma_replace_skips_plain(t: Seq<char>, rest: Seq<char>, p: Seq<char>, r: Seq<char>)
    requires
        p.len() > 0,
        p[0] == '&',
        forall|i: int| 0 <= i < t.len() ==> #[trigger] t[i] != '&',
    ensures
        replace_all(t + rest, p, r) == t + replace_all(rest, p, r),
    decreases t.len(),
{
    if t.len() > 0 {
        let u = t + rest;
        if u.len() >= p.len() {
            assert(u.subrange(0, p.len() as int)[0] != p[0]);
        }
        assert(u.drop_first() =~= t.drop_first() + rest);
        lemma_replace_skips_plain(t.drop_first(), rest, p, r);
        assert(seq![t[0]] + (t.drop_first() + replace_all(rest, p, r)) =~= t + replace_all(rest, p, r));
    }
}

proof fn lemma_replace_skips_entity(c: char, d: char, rest: Seq<char>)
    requires
        is_special(c),
        is_special(d),
        c != d,
    ensures
        replace_all(escape_char(c) + rest, escape_char(d), seq![d]) == escape_char(c)
            + replace_all(rest, escape_char(d), seq![d]),
{
    let e = escape_char(c);
    let p = escape_char(d);
    let u = e + rest;
    if u.len() >= p.len() {
        let h = u.subrange(0, p.len() as int);
        assert(h[1] != p[1] || h[2] != p[2]);
    }
    assert(u.drop_first() =~= e.drop_first() + rest);
    lemma_replace_skips_plain(e.drop_first(), rest, p, seq![d]);
    assert(seq![e[0]] + (e.drop_first() + replace_all(rest, p, seq![d])) =~= e + replace_all(
        rest,
        p,
        seq![d],
    ));
}

proof fn lemma_replace_restores(rest: Seq<char>, d: char)
    requires
        is_special(d),
    ensures
        replace_all(escape_char(d) + rest, escape_char(d), seq![d]) == seq![d] + replace_all(
            rest,
            escape_char(d),
            seq![d],
        ),
{
    let p = escape_char(d);
    let u = p + rest;
    assert(u.subrange(0, p.len() as int) =~= p);
    assert(u.subrange(p.len() as int, u.len() as int) =~= rest);
}

/// Replacement step `k` takes the text after `k` steps to the text after
/// `k + 1` steps.
proof fn lemma_replace_step(s: Seq<char>, k: int)
    requires
        0 <= k < 5,
    ensures
        replace_all(partly_escaped(s, k), escape_char(restored_at(k)), seq![restored_at(k)])
            == partly_escaped(s, k + 1),
    decreases s.len(),
{
    let d = restored_at(k);
    let p = escape_char(d);
    if s.len() == 0 {
        assert(replace_all(Seq::<char>::empty(), p, seq![d]) == Seq::<char>::empty());
    } else {
        let c = s[0];
        let rest = partly_escaped(s.drop_first(), k);
        lemma_replace_step(s.drop_first(), k);
        let restored_before = exists|i: int| 0 <= i < k && restored_at(i) == c;
        if c == d {
            assert(!restored_before);
            assert(restored_at(k) == c);
            lemma_replace_restores(rest, d);
        } else if restored_before || !is_special(c) {
            assert(partly_escaped_char(c, k) == seq![c]);
            assert(c != '&') by {
                if c == '&' {
                    assert(is_special(c));
                    let i = choose|i: int| 0 <= i < k && restored_at(i) == c;
                }
            }
            lemma_replace_skips_plain(seq![c], rest, p, seq![d]);
            if restored_before {
                let i = choose|i: int| 0 <= i < k && restored_at(i) == c;
                assert(0 <= i < k + 1 && restored_at(i) == c);
            } else {
                assert(escape_char(c) == seq![c]);
            }
            assert(partly_escaped_char(c, k + 1) == seq![c]);
        } else {
            assert(partly_escaped_char(c, k) == escape_char(c));
            lemma_replace_skips_entity(c, d, rest);
            assert(!(exists|i: int| 0 <= i < k + 1 && restored_at(i) == c)) by {
                if exists|i: int| 0 <= i < k + 1 && restored_at(i) == c {
                    let i = choose|i: int| 0 <= i < k + 1 && restored_at(i) == c;
                    if i < k {
                        assert(restored_before);
                    }
                }
            }
        }
    }
}

proof fn lemma_partly_escaped_ends(s: Seq<char>)
    ensures
        partly_escaped(s, 0) == escape(s),
        partly_escaped(s, 5) == s,
    decreases s.len(),
{
    if s.len() > 0 {
        lemma_partly_escaped_ends(s.drop_first());
        let c = s[0];
        assert(partly_escaped_char(c, 0) == escape_char(c));
        if is_special(c) {
            let i = if c == '\'' {
                0int
            } else if c == '"' {
                1int
            } else if c == '>' {
                2int
            } else if c == '<' {
                3int
            } else {
                4int
            };
            assert(restored_at(i) == c);
        } else {
            assert(escape_char(c) == seq![c]);
        }
        assert(partly_escaped_char(c, 5) == seq![c]);
        assert(seq![c] + s.drop_first() =~= s);
    }
}

/// Escaping loses nothing: a match record's escaped content, put through
/// the five replacements in the reverse order of escaping, gives back the
/// content as it was before escaping.
pub proof fn lemma_unescape_escape(s: Seq<char>)
    ensures
        unescape(escape(s)) == s,
{
    lemma_partly_escaped_ends(s);
    lemma_replace_step(s, 0);
    lemma_replace_step(s, 1);
    lemma_replace_step(s, 2);
    lemma_replace_step(s, 3);
    lemma_replace_step(s, 4);
}

/// Append the markup-safe form of `c`.
fn push_escaped(out: &mut Vec<char>, c: char)
    ensures
        final(out)@ == old(out)@ + escape_char(c),
{
    if c == '&' {
        out.push('&');
        out.push('a');
        out.push('m');
        out.push('p');
        out.push(';');
    } else if c == '<' {
        out.push('&');
        out.push('l');
        out.push('t');
        out.push(';');
    } else if c == '>' {
        out.push('&');
        out.push('g');
        out.push('t');
        out.push(';');
    } else if c == '"' {
        out.push('&');
        out.push('q');
        out.push('u');
        out.push('o');
        out.push('t');
        out.push(';');
    } else if c == '\'' {
        out.push('&');
        out.push('a');
        out.push('p');
        out.push('o');
        out.push('s');
        out.push(';');
    } else {
        out.push(c);
    }
    assert(final(out)@ =~= old(out)@ + escape_char(c));
}

/// `s` made safe to embed in markup.
pub fn escape_markup(s: &[char]) -> (r: Vec<char>)
    ensures
        r@ == escape(s@),
{
    let mut out: Vec<char> = Vec::new();
    let n = s.len();
    let mut i: usize = 0;
    assert(s@.subrange(0, 0) =~= Seq::<char>::empty());
    while i < n
        invariant
            i <= n,
            n == s@.len(),
            out@ == escape(s@.subrange(0, i as int)),
        decreases n - i,
    {
        proof {
            lemma_escape_push(s@.subrange(0, i as int), s@[i as int]);
            assert(s@.subrange(0, i as int).push(s@[i as int]) =~= s@.subrange(0, i + 1));
        }
        push_escaped(&mut out, s[i]);
        i = i + 1;
    }
    assert(s@.subrange(0, n as int) =~= s@);
    out
}

/// The longest content, in characters, that a match record keeps.
pub const MAX_CONTENT_CHARS: usize = 1000;

/// Whether `c` is an ASCII character.
pub open spec fn is_ascii_char(c: char) -> bool {
    (c as u32) < 0x80
}

/// Whether match content is kept: not too long, and no character that is
/// neither ASCII nor whitespace, the mark of a binary false positive.
pub open spec fn keeps_content(s: Seq<char>) -> bool {
    s.len() <= MAX_CONTENT_CHARS && forall|i: int|
        0 <= i < s.len() ==> is_ascii_char(#[trigger] s[i]) || is_white_space(s[i])
}

/// A path with each backslash turned into a forward slash.
pub open spec fn forward_slashes(s: Seq<char>) -> Seq<char> {
    s.map_values(|c: char| if c == '\\' { '/' } else { c })
}

/// A match record as values: the file, the line number as the tool printed
/// it, and the escaped content.
pub struct MatchView {
    pub file: Seq<char>,
    pub line: Seq<char>,
    pub content: Seq<char>,
}

/// One hit of a search: the file it is in (with forward slashes), its line
/// number, and the matching line's text escaped for markup.
pub struct MatchRecord {
    pub file: String,
    pub line: String,
    pub content: String,
}

impl View for MatchRecord {
    type V = MatchView;

    open spec fn view(&self) -> MatchView {
        MatchView { file: self.file@, line: self.line@, content: self.content@ }
    }
}

/// The record a line of the form `file:line:content` gives: split at its
/// first two colons, the first not at the very start; each part trimmed.
/// Lines of another shape, and content that is not kept, give none.
pub open spec fn record_of(l: Seq<char>) -> Option<MatchView> {
    if let Some(f) = find_from(l, ':', 0) {
        if f == 0 {
            None
        } else if let Some(g) = find_from(l, ':', f + 1) {
            let content = trim(l.subrange(g + 1, l.len() as int));
            if keeps_content(content) {
                Some(
                    MatchView {
                        file: forward_slashes(trim(l.subrange(0, f))),
                        line: trim(l.subrange(f + 1, g)),
                        content: escape(content),
                    },
                )
            } else {
                None
            }
        } else {
            None
        }
    } else {
        None
    }
}

proof fn lemma_find_from_in_range(s: Seq<char>, c: char, from: int)
    ensures
        find_from(s, c, from) is Some ==> from <= find_from(s, c, from)->0 < s.len() && s[find_from(
            s,
            c,
            from,
        )->0] == c,
    decreases s.len() - from,
{
    if 0 <= from < s.len() && s[from] != c {
        lemma_find_from_in_range(s, c, from + 1);
    }
}

/// The characters of `s`, each backslash turned into a forward slash.
fn forward_slashes_of(s: &[char]) -> (r: Vec<char>)
    ensures
        r@ == forward_slashes(s@),
{
    let mut out: Vec<char> = Vec::new();
    let n = s.len();
    let mut i: usize = 0;
    while i < n
        invariant
            i <= n,
            n == s@.len(),
            out@ == forward_slashes(s@.subrange(0, i as int)),
        decreases n - i,
    {
        let c = s[i];
        if c == '\\' {
            out.push('/');
        } else {
            out.push(c);
        }
        assert(out@ =~= forward_slashes(s@.subrange(0, i + 1)));
        i = i + 1;
    }
    assert(s@.subrange(0, n as int) =~= s@);
    out
}

/// Whether match content is kept.
fn content_is_kept(s: &[char]) -> (r: bool)
    ensures
        r == keeps_content(s@),
{
    let n = s.len();
    if n > MAX_CONTENT_CHARS {
        return false;
    }
    let mut i: usize = 0;
    while i < n
        invariant
            i <= n,
            n == s@.len(),
            forall|j: int| 0 <= j < i ==> is_ascii_char(#[trigger] s@[j]) || is_white_space(s@[j]),
        decreases n - i,
    {
        let c = s[i];
        if !((c as u32) < 0x80 || is_whitespace(c)) {
            return false;
        }
        i = i + 1;
    }
    true
}

/// The match record of one line of the tool's output, if it is one.
pub fn parse_match_line(l: &[char]) -> (r: Option<MatchRecord>)
    ensures
        match r {
            Some(m) => record_of(l@) == Some(m@),
            None => record_of(l@) is None,
        },
{
    let n = l.len();
    let f = match find_char(l, ':', 0) {
        Some(f) => f,
        None => return None,
    };
    if f == 0 {
        return None;
    }
    proof {
        lemma_find_from_in_range(l@, ':', 0);
    }
    let g = match find_char(l, ':', f + 1) {
        Some(g) => g,
        None => return None,
    };
    proof {
        lemma_find_from_in_range(l@, ':', f + 1);
    }
    let tail = &l[g + 1..n];
    let (ca, cb) = trim_bounds(tail);
    let content = &tail[ca..cb];
    if !content_is_kept(content) {
        return None;
    }
    let head = &l[0..f];
    let (fa, fb) = trim_bounds(head);
    let file = forward_slashes_of(&head[fa..fb]);
    let number = &l[f + 1..g];
    let (na, nb) = trim_bounds(number);
    let line = slice_to_chars(&number[na..nb]);
    let escaped = escape_markup(content);
    let m = MatchRecord {
        file: string_from_chars(file),
        line: string_from_chars(line),
        content: string_from_chars(escaped),
    };
    Some(m)
}

/// The summary lines of the tool's statistics that the counters read.
#[derive(PartialEq, Eq, Structural, Clone, Copy, Debug)]
pub enum StatKind {
    /// Total match occurrences: a line saying "matches", but neither
    /// "matched lines" nor the count of files that "contained matches".
    Matches,
    /// Lines with at least one match.
    MatchedLines,
    /// Files searched.
    FilesSearched,
    /// Seconds spent searching.
    SearchSeconds,
    /// Seconds in all.
    TotalSeconds,
}

/// Which counter a line of the tool's output sets, if any: a line with at
/// least one word, tested against the labels in order.
pub open spec fn stat_kind(l: Seq<char>) -> Option<StatKind> {
    if first_word(l).len() == 0 {
        None
    } else if contains_seq(l, "matches"@) && !contains_seq(l, "matched lines"@) && !contains_seq(
        l,
        "contained matches"@,
    ) {
        Some(StatKind::Matches)
    } else if contains_seq(l, "matched lines"@) {
        Some(StatKind::MatchedLines)
    } else if contains_seq(l, "files searched"@) {
        Some(StatKind::FilesSearched)
    } else if contains_seq(l, "seconds spent searching"@) {
        Some(StatKind::SearchSeconds)
    } else if contains_seq(l, " seconds"@) && !contains_seq(l, "spent searching"@) {
        Some(StatKind::TotalSeconds)
    } else {
        None
    }
}

/// The labels of the statistics lines, as characters.
struct Labels {
    matches: Vec<char>,
    contained_matches: Vec<char>,
    matched_lines: Vec<char>,
    files_searched: Vec<char>,
    seconds_spent_searching: Vec<char>,
    seconds: Vec<char>,
    spent_searching: Vec<char>,
}

impl Labels {
    spec fn wf(&self) -> bool {
        &&& self.matches@ == "matches"@
        &&& self.contained_matches@ == "contained matches"@
        &&& self.matched_lines@ == "matched lines"@
        &&& self.files_searched@ == "files searched"@
        &&& self.seconds_spent_searching@ == "seconds spent searching"@
        &&& self.seconds@ == " seconds"@
        &&& self.spent_searching@ == "spent searching"@
    }

    fn new() -> (r: Self)
        ensures
            r.wf(),
    {
        Labels {
            matches: chars_of("matches"),
            contained_matches: chars_of("contained matches"),
            matched_lines: chars_of("matched lines"),
            files_searched: chars_of("files searched"),
            seconds_spent_searching: chars_of("seconds spent searching"),
            seconds: chars_of(" seconds"),
            spent_searching: chars_of("spent searching"),
        }
    }

    /// Which counter the line `l` sets, if any.
    fn kind_of(&self, l: &[char]) -> (r: Option<StatKind>)
        requires
            self.wf(),
        ensures
            r == stat_kind(l@),
    {
        let (a, b) = first_word_bounds(l);
        if a == b {
            return None;
        }
        if contains(l, self.matches.as_slice()) && !contains(l, self.matched_lines.as_slice())
            && !contains(l, self.contained_matches.as_slice()) {
            Some(StatKind::Matches)
        } else if contains(l, self.matched_lines.as_slice()) {
            Some(StatKind::MatchedLines)
        } else if contains(l, self.files_searched.as_slice()) {
            Some(StatKind::FilesSearched)
        } else if contains(l, self.seconds_spent_searching.as_slice()) {
            Some(StatKind::SearchSeconds)
        } else if contains(l, self.seconds.as_slice()) && !contains(
            l,
            self.spent_searching.as_slice(),
        ) {
            Some(StatKind::TotalSeconds)
        } else {
            None
        }
    }
}

/// The lines of the tool's output. A carriage return before a newline stays
/// on its line: it is whitespace, which every later step trims or skips.
pub open spec fn output_lines(t: Seq<char>) -> Seq<Seq<char>> {
    split_on(t, '\n')
}

/// The first word of the last line that sets counter `k`.
pub open spec fn last_word_of(lines: Seq<Seq<char>>, k: StatKind) -> Option<Seq<char>>
    decreases lines.len(),
{
    if lines.len() == 0 {
        None
    } else if stat_kind(lines.last()) == Some(k) {
        Some(first_word(lines.last()))
    } else {
        last_word_of(lines.drop_last(), k)
    }
}

/// A counter's value: the count its last line gives, zero where that line's
/// word is no count or no line gave one.
pub open spec fn count_of(w: Option<Seq<char>>) -> usize {
    match w {
        Some(w) => match parse_count(w) {
            Some(v) => v,
            None => 0,
        },
        None => 0,
    }
}

/// The statistics as values.
pub struct StatsView {
    pub total_matches: usize,
    pub matched_lines: usize,
    pub files_searched: usize,
    pub search_seconds: Option<Seq<char>>,
    pub total_seconds: Option<Seq<char>>,
}

/// The statistics a search's output reports.
pub open spec fn stats_of(lines: Seq<Seq<char>>) -> StatsView {
    StatsView {
        total_matches: count_of(last_word_of(lines, StatKind::Matches)),
        matched_lines: count_of(last_word_of(lines, StatKind::MatchedLines)),
        files_searched: count_of(last_word_of(lines, StatKind::FilesSearched)),
        search_seconds: last_word_of(lines, StatKind::SearchSeconds),
        total_seconds: last_word_of(lines, StatKind::TotalSeconds),
    }
}

/// The match records of a search's output, in output order: one for each
/// line that is no statistics line and has the shape of a match.
pub open spec fn records_of(lines: Seq<Seq<char>>) -> Seq<MatchView>
    decreases lines.len(),
{
    if lines.len() == 0 {
        Seq::empty()
    } else {
        let prev = records_of(lines.drop_last());
        let l = lines.last();
        if stat_kind(l) is None && record_of(l) is Some {
            prev.push(record_of(l)->0)
        } else {
            prev
        }
    }
}

/// Each line of the tool's output gives at most one match record, so a
/// matching line the tool prints once is reported once, however often the
/// pattern occurs in it; a lone match line gives exactly its record.
pub proof fn lemma_one_record_per_line(lines: Seq<Seq<char>>)
    ensures
        records_of(lines).len() <= lines.len(),
        lines.len() == 1 && stat_kind(lines[0]) is None && record_of(lines[0]) is Some
            ==> records_of(lines) == seq![record_of(lines[0])->0],
    decreases lines.len(),
{
    if lines.len() > 0 {
        lemma_one_record_per_line(lines.drop_last());
        if lines.len() == 1 {
            assert(lines.drop_last() =~= Seq::<Seq<char>>::empty());
            assert(records_of(lines.drop_last()) == Seq::<MatchView>::empty());
            assert(lines.last() == lines[0]);
            assert(records_of(lines) =~= if stat_kind(lines[0]) is None && record_of(lines[0]) is Some {
                seq![record_of(lines[0])->0]
            } else {
                Seq::empty()
            });
        }
    }
}

/// The views of a sequence of match records.
pub open spec fn record_views(v: Seq<MatchRecord>) -> Seq<MatchView> {
    v.map_values(|m: MatchRecord| m@)
}

/// The aggregate counters of a search. The two times are the words the tool
/// printed before its labels, in seconds; they are not read as numbers here.
pub struct SearchStats {
    pub total_matches: usize,
    pub matched_lines: usize,
    pub files_searched: usize,
    pub search_seconds: Option<String>,
    pub total_seconds: Option<String>,
}

/// The view of an optional string.
pub open spec fn opt_text(o: Option<String>) -> Option<Seq<char>> {
    match o {
        Some(s) => Some(s@),
        None => None,
    }
}

/// The view of an optional sequence of characters.
pub open spec fn opt_chars(o: Option<Vec<char>>) -> Option<Seq<char>> {
    match o {
        Some(s) => Some(s@),
        None => None,
    }
}

impl View for SearchStats {
    type V = StatsView;

    open spec fn view(&self) -> StatsView {
        StatsView {
            total_matches: self.total_matches,
            matched_lines: self.matched_lines,
            files_searched: self.files_searched,
            search_seconds: opt_text(self.search_seconds),
            total_seconds: opt_text(self.total_seconds),
        }
    }
}

/// A search's output, normalized: its statistics and its match records.
pub struct SearchOutput {
    pub stats: SearchStats,
    pub matches: Vec<MatchRecord>,
}

/// What has been read of the output so far.
struct Tally {
    matches: Option<Vec<char>>,
    matched_lines: Option<Vec<char>>,
    files_searched: Option<Vec<char>>,
    search_seconds: Option<Vec<char>>,
    total_seconds: Option<Vec<char>>,
    records: Vec<MatchRecord>,
}

impl Tally {
    spec fn reads(&self, lines: Seq<Seq<char>>) -> bool {
        &&& opt_chars(self.matches) == last_word_of(lines, StatKind::Matches)
        &&& opt_chars(self.matched_lines) == last_word_of(lines, StatKind::MatchedLines)
        &&& opt_chars(self.files_searched) == last_word_of(lines, StatKind::FilesSearched)
        &&& opt_chars(self.search_seconds) == last_word_of(lines, StatKind::SearchSeconds)
        &&& opt_chars(self.total_seconds) == last_word_of(lines, StatKind::TotalSeconds)
        &&& record_views(self.records@) == records_of(lines)
    }

    fn absorb(&mut self, labels: &Labels, l: &[char])
        requires
            labels.wf(),
        ensures
            forall|lines: Seq<Seq<char>>| #[trigger]
                old(self).reads(lines) ==> final(self).reads(lines.push(l@)),
    {
        let kind = labels.kind_of(l);
        match kind {
            Some(k) => {
                let (a, b) = first_word_bounds(l);
                let word = slice_to_chars(&l[a..b]);
                match k {
                    StatKind::Matches => self.matches = Some(word),
                    StatKind::MatchedLines => self.matched_lines = Some(word),
                    StatKind::FilesSearched => self.files_searched = Some(word),
                    StatKind::SearchSeconds => self.search_seconds = Some(word),
                    StatKind::TotalSeconds => self.total_seconds = Some(word),
                }
            },
            None => {
                match parse_match_line(l) {
                    Some(m) => {
                        self.records.push(m);
                    },
                    None => {},
                }
            },
        }
        assert forall|lines: Seq<Seq<char>>| #[trigger]
            old(self).reads(lines) implies final(self).reads(lines.push(l@)) by {
            assert(lines.push(l@).last() == l@);
            assert(lines.push(l@).drop_last() =~= lines);
            assert(record_views(final(self).records@) =~= records_of(lines.push(l@)));
        }
    }
}

/// Normalize a search tool's output: the statistics its summary lines
/// report, and a match record for each other line of the shape
/// `file:line:content` whose content is kept, in output order.
pub fn normalize_text(text: &str) -> (r: SearchOutput)
    ensures
        r.stats@ == stats_of(output_lines(text@)),
        record_views(r.matches@) == records_of(output_lines(text@)),
{
    let labels = Labels::new();
    let cs = chars_of(text);
    let n = cs.len();
    let mut tally = Tally {
        matches: None,
        matched_lines: None,
        files_searched: None,
        search_seconds: None,
        total_seconds: None,
        records: Vec::new(),
    };
    let ghost done: Seq<Seq<char>> = Seq::empty();
    assert(record_views(tally.records@) =~= Seq::<MatchView>::empty());
    let mut start: usize = 0;
    let mut i: usize = 0;
    assert(cs@.subrange(0, 0) =~= Seq::<char>::empty());
    assert(split_on(cs@.subrange(0, 0), '\n') =~= done.push(cs@.subrange(0, 0)));
    while i < n
        invariant
            start <= i <= n,
            n == cs@.len(),
            cs@ == text@,
            labels.wf(),
            tally.reads(done),
            split_on(cs@.subrange(0, i as int), '\n') == done.push(cs@.subrange(start as int, i as int)),
        decreases n - i,
    {
        let ghost prefix = cs@.subrange(0, i + 1);
        assert(prefix.drop_last() =~= cs@.subrange(0, i as int));
        assert(prefix.last() == cs@[i as int]);
        if cs[i] == '\n' {
            let line = &cs.as_slice()[start..i];
            tally.absorb(&labels, line);
            proof {
                done = done.push(cs@.subrange(start as int, i as int));
            }
            start = i + 1;
            assert(cs@.subrange(start as int, i + 1) =~= Seq::<char>::empty());
            assert(split_on(prefix, '\n') == split_on(prefix.drop_last(), '\n').push(Seq::empty()));
            assert(split_on(prefix, '\n') =~= done.push(cs@.subrange(start as int, i + 1)));
        } else {
            assert(cs@.subrange(start as int, i + 1) =~= cs@.subrange(start as int, i as int).push(
                cs@[i as int],
            ));
        }
        i = i + 1;
    }
    let last = &cs.as_slice()[start..n];
    tally.absorb(&labels, last);
    proof {
        done = done.push(cs@.subrange(start as int, n as int));
        assert(cs@.subrange(0, n as int) =~= cs@);
    }
    let stats = SearchStats {
        total_matches: count_word(&tally.matches),
        matched_lines: count_word(&tally.matched_lines),
        files_searched: count_word(&tally.files_searched),
        search_seconds: text_word(tally.search_seconds),
        total_seconds: text_word(tally.total_seconds),
    };
    SearchOutput { stats, matches: tally.records }
}

/// Normalize a search tool's raw output bytes, decoded as UTF-8 with
/// invalid sequences replaced.
pub fn normalize_output(raw: &[u8]) -> (r: SearchOutput)
    ensures
        r.stats@ == stats_of(output_lines(lossy_text(raw@))),
        record_views(r.matches@) == records_of(output_lines(lossy_text(raw@))),
{
    let text = decode_lossy(raw);
    normalize_text(text.as_str())
}

/// One match record as a markup element.
pub open spec fn record_markup(m: MatchView) -> Seq<char> {
    "<line file=\""@ + m.file + "\" num=\""@ + m.line + "\">"@ + m.content + "</line>"@
}

/// Match records as markup elements, one per line.
pub open spec fn markup_of(ms: Seq<MatchView>) -> Seq<char>
    decreases ms.len(),
{
    if ms.len() == 0 {
        Seq::empty()
    } else if ms.len() == 1 {
        record_markup(ms[0])
    } else {
        markup_of(ms.drop_last()) + "\n"@ + record_markup(ms.last())
    }
}

/// Render match records as markup: for each, in order and one per line,
/// `<line file="FILE" num="LINE">CONTENT</line>`.
pub fn render_matches(records: &Vec<MatchRecord>) -> (r: String)
    ensures
        r@ == markup_of(record_views(records@)),
{
    let mut out = String::new();
    let n = records.len();
    let mut i: usize = 0;
    let ghost views = record_views(records@);
    while i < n
        invariant
            i <= n,
            n == records@.len(),
            views == record_views(records@),
            out@ == markup_of(views.subrange(0, i as int)),
        decreases n - i,
    {
        let m = &records[i];
        if i > 0 {
            out.append("\n");
        }
        out.append("<line file=\"");
        out.append(m.file.as_str());
        out.append("\" num=\"");
        out.append(m.line.as_str());
        out.append("\">");
        out.append(m.content.as_str());
        out.append("</line>");
        proof {
            let next = views.subrange(0, i + 1);
            assert(next.drop_last() =~= views.subrange(0, i as int));
            assert(next.last() == m@);
            if i == 0 {
                assert(next.len() == 1);
            }
        }
        assert(out@ =~= markup_of(views.subrange(0, i + 1)));
        i = i + 1;
    }
    assert(views.subrange(0, n as int) =~= views);
    out
}

/// A counter's value from the word of its last line.
fn count_word(w: &Option<Vec<char>>) -> (r: usize)
    ensures
        r == count_of(opt_chars(*w)),
{
    match w {
        Some(v) => match parse_count_word(v.as_slice()) {
            Some(c) => c,
            None => 0,
        },
        None => 0,
    }
}

/// A word as a string.
fn text_word(w: Option<Vec<char>>) -> (r: Option<String>)
    ensures
        opt_text(r) == opt_chars(w),
{
    match w {
        Some(v) => Some(string_from_chars(v)),
        None => None,
    }
}

} // verus!
