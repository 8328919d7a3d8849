//! Source preprocessing: whitespace and comment removal, then `@rep` macro expansion.

use vstd::prelude::*;

use crate::text::{
    char_is_blank, char_is_digit, char_is_white_space, char_to_lower, digits_up_to, digits_value,
    i64_decimal, int_decimal, is_ascii_digit, is_blank, is_white_space, lower_char, lower_chars,
    str_chars, string_from_chars,
};

verus! {

// ---------------------------------------------------------------------------
// Removing marked characters
// ---------------------------------------------------------------------------

/// The characters of `s` whose mark is false, in order.
pub open spec fn keep_unmarked(s: Seq<char>, marks: Seq<bool>) -> Seq<char>
    decreases s.len(),
{
    if s.len() == 0 || marks.len() == 0 {
        Seq::empty()
    } else if marks.last() {
        keep_unmarked(s.drop_last(), marks.drop_last())
    } else {
        keep_unmarked(s.drop_last(), marks.drop_last()).push(s.last())
    }
}

pub fn remove_marked(s: &Vec<char>, marks: &Vec<bool>) -> (r: Vec<char>)
    requires
        s.len() == marks.len(),
    ensures
        r@ == keep_unmarked(s@, marks@),
{
    let mut r: Vec<char> = Vec::new();
    let mut i: usize = 0;
    while i < s.len()
        invariant
            s.len() == marks.len(),
            i <= s.len(),
            r@ == keep_unmarked(s@.subrange(0, i as int), marks@.subrange(0, i as int)),
        decreases s.len() - i,
    {
        let ghost a = s@.subrange(0, i + 1);
        let ghost m = marks@.subrange(0, i + 1);
        assert(a.drop_last() =~= s@.subrange(0, i as int));
        assert(m.drop_last() =~= marks@.subrange(0, i as int));
        if !marks[i] {
            r.push(s[i]);
        }
        i = i + 1;
    }
    assert(s@.subrange(0, s.len() as int) =~= s@);
    assert(marks@.subrange(0, s.len() as int) =~= marks@);
    r
}

pub open spec fn at_line_start(s: Seq<char>, p: int) -> bool {
    p == 0 || (0 < p <= s.len() && s[p - 1] == '\n')
}

// ---------------------------------------------------------------------------
// strip_whitespace
// ---------------------------------------------------------------------------

/// `(?m)^\s+`: a whitespace character is removed when it begins a line or
/// follows a removed character.
pub open spec fn leading_space_dropped(s: Seq<char>, p: int) -> bool
    decreases p,
{
    if p < 0 || p >= s.len() {
        false
    } else {
        is_white_space(s[p]) && (at_line_start(s, p) || leading_space_dropped(s, p - 1))
    }
}

/// `(?m)[[:blank:]]+$`: a blank is removed when only blanks separate it from
/// the end of its line.
pub open spec fn trailing_blank_dropped(s: Seq<char>, p: int) -> bool
    decreases s.len() - p,
{
    if p < 0 || p >= s.len() {
        false
    } else {
        is_blank(s[p]) && (p + 1 == s.len() || s[p + 1] == '\n' || trailing_blank_dropped(
            s,
            p + 1,
        ))
    }
}

pub open spec fn strip_leading_spec(s: Seq<char>) -> Seq<char> {
    keep_unmarked(s, Seq::new(s.len(), |p: int| leading_space_dropped(s, p)))
}

pub open spec fn strip_trailing_spec(s: Seq<char>) -> Seq<char> {
    keep_unmarked(s, Seq::new(s.len(), |p: int| trailing_blank_dropped(s, p)))
}

/// Leading whitespace of every line (which takes empty lines with it), then
/// trailing blanks of every line, are removed.
pub open spec fn strip_whitespace_spec(s: Seq<char>) -> Seq<char> {
    strip_trailing_spec(strip_leading_spec(s))
}

fn strip_leading_chars(s: &Vec<char>) -> (r: Vec<char>)
    ensures
        r@ == strip_leading_spec(s@),
{
    let mut marks: Vec<bool> = Vec::new();
    let mut i: usize = 0;
    while i < s.len()
        invariant
            i <= s.len(),
            marks.len() == i,
            forall|j: int| 0 <= j < i ==> marks@[j] == leading_space_dropped(s@, j),
        decreases s.len() - i,
    {
        let starts = i == 0 || s[i - 1] == '\n';
        let prev = i > 0 && marks[i - 1];
        let d = char_is_white_space(s[i]) && (starts || prev);
        marks.push(d);
        i = i + 1;
    }
    assert(marks@ =~= Seq::new(s@.len(), |p: int| leading_space_dropped(s@, p)));
    remove_marked(s, &marks)
}

fn strip_trailing_chars(s: &Vec<char>) -> (r: Vec<char>)
    ensures
        r@ == strip_trailing_spec(s@),
{
    let n = s.len();
    let mut marks: Vec<bool> = vec![false; n];
    let mut i: usize = n;
    while i > 0
        invariant
            i <= n,
            n == s.len(),
            marks.len() == n,
            forall|j: int| i <= j < n ==> marks@[j] == trailing_blank_dropped(s@, j),
        decreases i,
    {
        let p = i - 1;
        let next = p + 1 == n || s[p + 1] == '\n' || marks[p + 1];
        let d = char_is_blank(s[p]) && next;
        marks.set(p, d);
        i = p;
    }
    assert(marks@ =~= Seq::new(s@.len(), |p: int| trailing_blank_dropped(s@, p)));
    remove_marked(s, &marks)
}

pub fn strip_whitespace(i: &str) -> (r: String)
    ensures
        r@ == strip_whitespace_spec(i@),
{
    let s = str_chars(i);
    let a = strip_leading_chars(&s);
    let b = strip_trailing_chars(&a);
    string_from_chars(&b)
}

// ---------------------------------------------------------------------------
// strip_comments
// ---------------------------------------------------------------------------

/// `(?m);.*$`: from a `;` to the end of its line.
pub open spec fn semicolon_dropped(s: Seq<char>, p: int) -> bool
    decreases p,
{
    if p < 0 || p >= s.len() {
        false
    } else {
        s[p] != '\n' && (s[p] == ';' || (p > 0 && semicolon_dropped(s, p - 1)))
    }
}

/// `s[p..]` starts with `word`, ASCII letters compared without case.
pub open spec fn starts_with_nocase(s: Seq<char>, p: int, word: Seq<char>) -> bool {
    0 <= p && p + word.len() <= s.len() && lower_chars(s.subrange(p, p + word.len())) == word
}

/// `(?mi)note.*$`: from the word `note`, in any case, to the end of its line.
pub open spec fn note_dropped(s: Seq<char>, p: int) -> bool
    decreases p,
{
    if p < 0 || p >= s.len() {
        false
    } else {
        s[p] != '\n' && (starts_with_nocase(s, p, seq!['n', 'o', 't', 'e']) || (p > 0
            && note_dropped(s, p - 1)))
    }
}

pub open spec fn strip_semicolons_spec(s: Seq<char>) -> Seq<char> {
    keep_unmarked(s, Seq::new(s.len(), |p: int| semicolon_dropped(s, p)))
}

pub open spec fn strip_notes_spec(s: Seq<char>) -> Seq<char> {
    keep_unmarked(s, Seq::new(s.len(), |p: int| note_dropped(s, p)))
}

/// `;` comments, then `NOTE` comments, are removed up to the end of their line.
pub open spec fn strip_comments_spec(s: Seq<char>) -> Seq<char> {
    strip_notes_spec(strip_semicolons_spec(s))
}

/// Whether `s[p..]` starts with `word`, ASCII letters compared without case.
pub fn chars_start_with_nocase(s: &Vec<char>, p: usize, word: &Vec<char>) -> (r: bool)
    ensures
        r == starts_with_nocase(s@, p as int, word@),
{
    if p > s.len() || word.len() > s.len() - p {
        return false;
    }
    let mut k: usize = 0;
    while k < word.len()
        invariant
            p + word.len() <= s.len(),
            k <= word.len(),
            forall|j: int| 0 <= j < k ==> lower_char(#[trigger] s@[p + j]) == word@[j],
        decreases word.len() - k,
    {
        if char_to_lower(s[p + k]) != word[k] {
            assert(lower_chars(s@.subrange(p as int, p + word.len()))[k as int] != word@[k as int]);
            return false;
        }
        k = k + 1;
    }
    assert forall|j: int| 0 <= j < word.len() implies lower_chars(
        s@.subrange(p as int, p + word.len()),
    )[j] == word@[j] by {
        assert(lower_chars(s@.subrange(p as int, p + word.len()))[j] == lower_char(s@[p + j]));
    }
    assert(lower_chars(s@.subrange(p as int, p + word.len())) =~= word@);
    true
}

fn strip_semicolon_chars(s: &Vec<char>) -> (r: Vec<char>)
    ensures
        r@ == strip_semicolons_spec(s@),
{
    let mut marks: Vec<bool> = Vec::new();
    let mut i: usize = 0;
    while i < s.len()
        invariant
            i <= s.len(),
            marks.len() == i,
            forall|j: int| 0 <= j < i ==> marks@[j] == semicolon_dropped(s@, j),
        decreases s.len() - i,
    {
        let prev = i > 0 && marks[i - 1];
        let d = s[i] != '\n' && (s[i] == ';' || prev);
        marks.push(d);
        i = i + 1;
    }
    assert(marks@ =~= Seq::new(s@.len(), |p: int| semicolon_dropped(s@, p)));
    remove_marked(s, &marks)
}

fn strip_note_chars(s: &Vec<char>) -> (r: Vec<char>)
    ensures
        r@ == strip_notes_spec(s@),
{
    let word: Vec<char> = vec!['n', 'o', 't', 'e'];
    let mut marks: Vec<bool> = Vec::new();
    let mut i: usize = 0;
    while i < s.len()
        invariant
            i <= s.len(),
            marks.len() == i,
            word@ == seq!['n', 'o', 't', 'e'],
            forall|j: int| 0 <= j < i ==> marks@[j] == note_dropped(s@, j),
        decreases s.len() - i,
    {
        let prev = i > 0 && marks[i - 1];
        let d = s[i] != '\n' && (chars_start_with_nocase(s, i, &word) || prev);
        marks.push(d);
        i = i + 1;
    }
    assert(marks@ =~= Seq::new(s@.len(), |p: int| note_dropped(s@, p)));
    remove_marked(s, &marks)
}

pub fn strip_comments(i: &str) -> (r: String)
    ensures
        r@ == strip_comments_spec(i@),
{
    let s = str_chars(i);
    let a = strip_semicolon_chars(&s);
    let b = strip_note_chars(&a);
    string_from_chars(&b)
}

// ---------------------------------------------------------------------------
// strip_empty_lines
// ---------------------------------------------------------------------------

/// From `p`, only blanks come before a newline.
pub open spec fn blanks_then_newline(s: Seq<char>, p: int) -> bool
    decreases s.len() - p,
{
    if p < 0 || p >= s.len() {
        false
    } else {
        s[p] == '\n' || (is_blank(s[p]) && blanks_then_newline(s, p + 1))
    }
}

/// `(?ms)^[[:blank:]]*\n`: every character of a line made of blanks only,
/// newline included, is removed.
pub open spec fn empty_line_dropped(s: Seq<char>, p: int) -> bool
    decreases p,
{
    if p < 0 || p >= s.len() {
        false
    } else {
        blanks_then_newline(s, p) && (at_line_start(s, p) || empty_line_dropped(s, p - 1))
    }
}

pub open spec fn strip_empty_lines_spec(s: Seq<char>) -> Seq<char> {
    keep_unmarked(s, Seq::new(s.len(), |p: int| empty_line_dropped(s, p)))
}

fn strip_empty_line_chars(s: &Vec<char>) -> (r: Vec<char>)
    ensures
        r@ == strip_empty_lines_spec(s@),
{
    let n = s.len();
    let mut ahead: Vec<bool> = vec![false; n];
    let mut i: usize = n;
    while i > 0
        invariant
            i <= n,
            n == s.len(),
            ahead.len() == n,
            forall|j: int| i <= j < n ==> ahead@[j] == blanks_then_newline(s@, j),
        decreases i,
    {
        let p = i - 1;
        let next = p + 1 < n && ahead[p + 1];
        let d = s[p] == '\n' || (char_is_blank(s[p]) && next);
        assert(next == blanks_then_newline(s@, p + 1));
        assert(d == blanks_then_newline(s@, p as int));
        ahead.set(p, d);
        i = p;
    }
    let mut marks: Vec<bool> = Vec::new();
    let mut i: usize = 0;
    while i < n
        invariant
            i <= n,
            n == s.len(),
            ahead.len() == n,
            forall|j: int| 0 <= j < n ==> ahead@[j] == blanks_then_newline(s@, j),
            marks.len() == i,
            forall|j: int| 0 <= j < i ==> marks@[j] == empty_line_dropped(s@, j),
        decreases n - i,
    {
        let starts = i == 0 || s[i - 1] == '\n';
        let prev = i > 0 && marks[i - 1];
        let d = ahead[i] && (starts || prev);
        marks.push(d);
        i = i + 1;
    }
    assert(marks@ =~= Seq::new(s@.len(), |p: int| empty_line_dropped(s@, p)));
    remove_marked(s, &marks)
}

pub fn strip_empty_lines(i: &str) -> (r: String)
    ensures
        r@ == strip_empty_lines_spec(i@),
{
    let s = str_chars(i);
    let a = strip_empty_line_chars(&s);
    string_from_chars(&a)
}


// ---------------------------------------------------------------------------
// expand_macros
// ---------------------------------------------------------------------------

pub open spec fn blank_run_end(s: Seq<char>, p: int) -> int
    decreases s.len() - p,
{
    if 0 <= p < s.len() && is_blank(s[p]) {
        blank_run_end(s, p + 1)
    } else {
        p
    }
}

pub open spec fn digit_run_end(s: Seq<char>, p: int) -> int
    decreases s.len() - p,
{
    if 0 <= p < s.len() && is_ascii_digit(s[p]) {
        digit_run_end(s, p + 1)
    } else {
        p
    }
}

pub proof fn lemma_blank_run(s: Seq<char>, p: int)
    requires
        0 <= p <= s.len(),
    ensures
        p <= blank_run_end(s, p) <= s.len(),
        forall|j: int| p <= j < blank_run_end(s, p) ==> is_blank(#[trigger] s[j]),
        blank_run_end(s, p) < s.len() ==> !is_blank(s[blank_run_end(s, p)]),
    decreases s.len() - p,
{
    if p < s.len() && is_blank(s[p]) {
        lemma_blank_run(s, p + 1);
    }
}

pub proof fn lemma_digit_run(s: Seq<char>, p: int)
    requires
        0 <= p <= s.len(),
    ensures
        p <= digit_run_end(s, p) <= s.len(),
        forall|j: int| p <= j < digit_run_end(s, p) ==> is_ascii_digit(#[trigger] s[j]),
        digit_run_end(s, p) < s.len() ==> !is_ascii_digit(s[digit_run_end(s, p)]),
    decreases s.len() - p,
{
    if p < s.len() && is_ascii_digit(s[p]) {
        lemma_digit_run(s, p + 1);
    }
}

/// `@rep[[:blank:]]+(\d+)[[:blank:]]?\n` at `p` (`@rep` in any case): where the
/// repetition count's digits start and end, and where the body starts.
pub open spec fn rep_header(s: Seq<char>, p: int) -> Option<(int, int, int)> {
    if !starts_with_nocase(s, p, seq!['@', 'r', 'e', 'p']) {
        None
    } else {
        let b = blank_run_end(s, p + 4);
        let d = digit_run_end(s, b);
        if b == p + 4 || d == b {
            None
        } else if d < s.len() && s[d] == '\n' {
            Some((b, d, d + 1))
        } else if d + 1 < s.len() && is_blank(s[d]) && s[d + 1] == '\n' {
            Some((b, d, d + 2))
        } else {
            None
        }
    }
}

/// `@end[[:blank:]]?\n` at `u` (`@end` in any case): the position after the newline.
pub open spec fn end_tag(s: Seq<char>, u: int) -> Option<int> {
    if !starts_with_nocase(s, u, seq!['@', 'e', 'n', 'd']) {
        None
    } else if u + 4 < s.len() && s[u + 4] == '\n' {
        Some(u + 5)
    } else if u + 5 < s.len() && is_blank(s[u + 4]) && s[u + 5] == '\n' {
        Some(u + 6)
    } else {
        None
    }
}

/// `[[:blank:]]?@end[[:blank:]]?\n` at `t`: the end of the macro.
pub open spec fn close_at(s: Seq<char>, t: int) -> Option<int> {
    if 0 <= t < s.len() && is_blank(s[t]) && end_tag(s, t + 1) is Some {
        end_tag(s, t + 1)
    } else {
        end_tag(s, t)
    }
}

/// The first `t` at or after the given one where the macro can close: the end of
/// the shortest body (`(.+?)`), and the end of the match.
pub open spec fn find_close(s: Seq<char>, t: int) -> Option<(int, int)>
    decreases s.len() - t,
{
    if t < 0 || t >= s.len() {
        None
    } else {
        match close_at(s, t) {
            Some(e) => Some((t, e)),
            None => find_close(s, t + 1),
        }
    }
}

pub struct MacroMatch {
    pub digits_start: int,
    pub digits_end: int,
    pub body_start: int,
    pub body_end: int,
    pub end: int,
}

/// The macro `(?is)@rep[[:blank:]]+(\d+)[[:blank:]]?\n(.+?)[[:blank:]]?@end[[:blank:]]?\n`
/// matched at `p`, if it matches there.
pub open spec fn macro_at(s: Seq<char>, p: int) -> Option<MacroMatch> {
    match rep_header(s, p) {
        None => None,
        Some((ds, de, bs)) => match find_close(s, bs + 1) {
            None => None,
            Some((be, e)) => Some(
                MacroMatch { digits_start: ds, digits_end: de, body_start: bs, body_end: be, end: e },
            ),
        },
    }
}

/// An `@{start,step}` placeholder: its text, and the numbers in it.
pub struct Expansion {
    pub text: Seq<char>,
    pub start: int,
    pub step: int,
}

/// `-?\d+` at `u`: its value and where it ends.
pub open spec fn number_at(b: Seq<char>, u: int) -> Option<(int, int)> {
    let neg = 0 <= u < b.len() && b[u] == '-';
    let ds = if neg { u + 1 } else { u };
    let de = digit_run_end(b, ds);
    if u < 0 || u > b.len() || de == ds {
        None
    } else {
        let v = digits_value(b.subrange(ds, de)) as int;
        Some((if neg { -v } else { v }, de))
    }
}

/// `@\{(-?\d+),(-?\d+)\}` at `u`, and the position after it.
pub open spec fn expansion_at(b: Seq<char>, u: int) -> Option<(Expansion, int)> {
    if !(0 <= u && u + 1 < b.len() && b[u] == '@' && b[u + 1] == '{') {
        None
    } else {
        match number_at(b, u + 2) {
            None => None,
            Some((a, e1)) => if !(e1 < b.len() && b[e1] == ',') {
                None
            } else {
                match number_at(b, e1 + 1) {
                    None => None,
                    Some((c, e2)) => if !(e2 < b.len() && b[e2] == '}') {
                        None
                    } else {
                        Some((Expansion { text: b.subrange(u, e2 + 1), start: a, step: c }, e2 + 1))
                    },
                }
            },
        }
    }
}

pub proof fn lemma_number_at(b: Seq<char>, u: int)
    requires
        0 <= u <= b.len(),
    ensures
        number_at(b, u) matches Some((v, e)) ==> u < e <= b.len(),
{
    let neg = 0 <= u < b.len() && b[u] == '-';
    let ds = if neg { u + 1 } else { u };
    lemma_digit_run(b, ds);
}

pub proof fn lemma_expansion_at(b: Seq<char>, u: int)
    requires
        0 <= u <= b.len(),
    ensures
        expansion_at(b, u) matches Some((x, e)) ==> u < e <= b.len(),
{
    if 0 <= u && u + 1 < b.len() && b[u] == '@' && b[u + 1] == '{' {
        lemma_number_at(b, u + 2);
        if let Some((a, e1)) = number_at(b, u + 2) {
            if e1 < b.len() {
                lemma_number_at(b, e1 + 1);
            }
        }
    }
}

/// Every placeholder of the body, left to right, without overlap.
pub open spec fn expansions_from(b: Seq<char>, u: int) -> Seq<Expansion>
    decreases b.len() - u,
{
    if u < 0 || u >= b.len() {
        Seq::empty()
    } else {
        match expansion_at(b, u) {
            Some((x, e)) => {
                proof {
                    lemma_expansion_at(b, u);
                }
                seq![x] + expansions_from(b, e)
            },
            None => expansions_from(b, u + 1),
        }
    }
}

/// `str::replace`: every non-overlapping occurrence of `pat`, left to right,
/// becomes `rep`.
pub open spec fn replace_from(t: Seq<char>, pat: Seq<char>, rep: Seq<char>, i: int) -> Seq<char>
    decreases t.len() - i,
{
    if i < 0 || i >= t.len() {
        Seq::empty()
    } else if pat.len() > 0 && i + pat.len() <= t.len() && t.subrange(i, i + pat.len()) == pat {
        rep + replace_from(t, pat, rep, i + pat.len())
    } else {
        seq![t[i]] + replace_from(t, pat, rep, i + 1)
    }
}

/// One repetition of a body: each placeholder, in turn, is replaced in the text
/// by `start + iteration * step`.
pub open spec fn apply_expansions(body: Seq<char>, xs: Seq<Expansion>, it: int) -> Seq<char>
    decreases xs.len(),
{
    if xs.len() == 0 {
        body
    } else {
        replace_from(
            apply_expansions(body, xs.drop_last(), it),
            xs.last().text,
            int_decimal(xs.last().start + it * xs.last().step),
            0,
        )
    }
}

/// Repetitions `0..n` of a body, one after the other.
pub open spec fn repeated(body: Seq<char>, xs: Seq<Expansion>, n: nat) -> Seq<char>
    decreases n,
{
    if n == 0 {
        Seq::empty()
    } else {
        repeated(body, xs, (n - 1) as nat) + apply_expansions(body, xs, n - 1)
    }
}

pub open spec fn macro_body(s: Seq<char>, m: MacroMatch) -> Seq<char> {
    s.subrange(m.body_start, m.body_end)
}

pub open spec fn macro_reps(s: Seq<char>, m: MacroMatch) -> nat {
    digits_value(s.subrange(m.digits_start, m.digits_end))
}

pub open spec fn macro_output(s: Seq<char>, m: MacroMatch) -> Seq<char> {
    let body = macro_body(s, m);
    repeated(body, expansions_from(body, 0), macro_reps(s, m))
}

pub proof fn lemma_find_close(s: Seq<char>, t: int)
    requires
        0 <= t,
    ensures
        find_close(s, t) matches Some((be, e)) ==> t <= be && be < e <= s.len(),
    decreases s.len() - t,
{
    if t < s.len() {
        if close_at(s, t) is None {
            lemma_find_close(s, t + 1);
        }
    }
}

pub proof fn lemma_macro_at(s: Seq<char>, p: int)
    requires
        0 <= p < s.len(),
    ensures
        macro_at(s, p) matches Some(m) ==> p < m.digits_start < m.digits_end < m.body_start
            < m.body_end < m.end <= s.len() && (forall|j: int|
            m.digits_start <= j < m.digits_end ==> is_ascii_digit(#[trigger] s[j])),
{
    if starts_with_nocase(s, p, seq!['@', 'r', 'e', 'p']) {
        lemma_blank_run(s, p + 4);
        let b = blank_run_end(s, p + 4);
        lemma_digit_run(s, b);
        if let Some((ds, de, bs)) = rep_header(s, p) {
            lemma_find_close(s, bs + 1);
        }
    }
}

/// The text with every macro replaced by its repetitions.
pub open spec fn expand_from(s: Seq<char>, p: int) -> Seq<char>
    decreases s.len() - p,
{
    if p < 0 || p >= s.len() {
        Seq::empty()
    } else {
        match macro_at(s, p) {
            Some(m) => {
                proof {
                    lemma_macro_at(s, p);
                }
                macro_output(s, m) + expand_from(s, m.end)
            },
            None => seq![s[p]] + expand_from(s, p + 1),
        }
    }
}

pub open spec fn expand_macros_spec(s: Seq<char>) -> Seq<char> {
    expand_from(s, 0)
}

pub open spec fn in_i16(v: int) -> bool {
    i16::MIN <= v <= i16::MAX
}

/// In repetition `it`, a placeholder's product and value fit in an `i16`.
pub open spec fn fits_at(start: int, step: int, it: int) -> bool {
    in_i16(it * step) && in_i16(start + it * step)
}

/// The numbers of a placeholder, and every value it takes over `reps`
/// repetitions, fit in an `i16`.
pub open spec fn expansion_fits(x: Expansion, reps: nat) -> bool {
    &&& in_i16(x.start)
    &&& in_i16(x.step)
    &&& forall|it: int| 0 <= it < reps ==> #[trigger] fits_at(x.start, x.step, it)
}

/// A macro whose count and placeholders fit in `i16` arithmetic; on any other,
/// expansion panics.
pub open spec fn macro_fits(s: Seq<char>, m: MacroMatch) -> bool {
    let body = macro_body(s, m);
    let xs = expansions_from(body, 0);
    &&& macro_reps(s, m) <= i16::MAX
    &&& forall|k: int| 0 <= k < xs.len() ==> expansion_fits(#[trigger] xs[k], macro_reps(s, m))
}

pub open spec fn expansion_fits_from(s: Seq<char>, p: int) -> bool
    decreases s.len() - p,
{
    if p < 0 || p >= s.len() {
        true
    } else {
        match macro_at(s, p) {
            Some(m) => {
                proof {
                    lemma_macro_at(s, p);
                }
                macro_fits(s, m) && expansion_fits_from(s, m.end)
            },
            None => expansion_fits_from(s, p + 1),
        }
    }
}

/// The text that macro expansion takes without panicking.
pub open spec fn macros_expandable(s: Seq<char>) -> bool {
    expansion_fits_from(s, 0)
}

fn blank_run_end_exec(s: &Vec<char>, p: usize) -> (r: usize)
    requires
        p <= s.len(),
    ensures
        r == blank_run_end(s@, p as int),
        p <= r <= s.len(),
{
    let mut q = p;
    while q < s.len() && char_is_blank(s[q])
        invariant
            p <= q <= s.len(),
            blank_run_end(s@, p as int) == blank_run_end(s@, q as int),
        decreases s.len() - q,
    {
        q = q + 1;
    }
    q
}

fn digit_run_end_exec(s: &Vec<char>, p: usize) -> (r: usize)
    requires
        p <= s.len(),
    ensures
        r == digit_run_end(s@, p as int),
        p <= r <= s.len(),
{
    let mut q = p;
    while q < s.len() && char_is_digit(s[q])
        invariant
            p <= q <= s.len(),
            digit_run_end(s@, p as int) == digit_run_end(s@, q as int),
        decreases s.len() - q,
    {
        q = q + 1;
    }
    q
}

fn rep_header_exec(s: &Vec<char>, p: usize) -> (r: Option<(usize, usize, usize)>)
    requires
        p < s.len(),
    ensures
        match r {
            Some((a, b, c)) => rep_header(s@, p as int) == Some((a as int, b as int, c as int)),
            None => rep_header(s@, p as int) is None,
        },
{
    let word: Vec<char> = vec!['@', 'r', 'e', 'p'];
    if !chars_start_with_nocase(s, p, &word) {
        return None;
    }
    let b = blank_run_end_exec(s, p + 4);
    let d = digit_run_end_exec(s, b);
    if b == p + 4 || d == b {
        None
    } else if d < s.len() && s[d] == '\n' {
        Some((b, d, d + 1))
    } else if d < s.len() && d + 1 < s.len() && char_is_blank(s[d]) && s[d + 1] == '\n' {
        Some((b, d, d + 2))
    } else {
        None
    }
}

fn end_tag_exec(s: &Vec<char>, u: usize) -> (r: Option<usize>)
    requires
        u <= s.len(),
    ensures
        match r {
            Some(e) => end_tag(s@, u as int) == Some(e as int),
            None => end_tag(s@, u as int) is None,
        },
{
    let word: Vec<char> = vec!['@', 'e', 'n', 'd'];
    if !chars_start_with_nocase(s, u, &word) {
        None
    } else if u + 4 < s.len() && s[u + 4] == '\n' {
        Some(u + 5)
    } else if u + 4 < s.len() && u + 5 < s.len() && char_is_blank(s[u + 4]) && s[u + 5] == '\n' {
        Some(u + 6)
    } else {
        None
    }
}

fn close_at_exec(s: &Vec<char>, t: usize) -> (r: Option<usize>)
    requires
        t < s.len(),
    ensures
        match r {
            Some(e) => close_at(s@, t as int) == Some(e as int),
            None => close_at(s@, t as int) is None,
        },
{
    if char_is_blank(s[t]) {
        if let Some(e) = end_tag_exec(s, t + 1) {
            return Some(e);
        }
    }
    end_tag_exec(s, t)
}

fn find_close_exec(s: &Vec<char>, t: usize) -> (r: Option<(usize, usize)>)
    requires
        t <= s.len(),
    ensures
        match r {
            Some((a, b)) => find_close(s@, t as int) == Some((a as int, b as int)),
            None => find_close(s@, t as int) is None,
        },
{
    let mut u = t;
    while u < s.len()
        invariant
            t <= u <= s.len(),
            find_close(s@, t as int) == find_close(s@, u as int),
        decreases s.len() - u,
    {
        if let Some(e) = close_at_exec(s, u) {
            return Some((u, e));
        }
        u = u + 1;
    }
    None
}

pub struct MacroSpan {
    pub digits_start: usize,
    pub digits_end: usize,
    pub body_start: usize,
    pub body_end: usize,
    pub end: usize,
}

impl View for MacroSpan {
    type V = MacroMatch;

    open spec fn view(&self) -> MacroMatch {
        MacroMatch {
            digits_start: self.digits_start as int,
            digits_end: self.digits_end as int,
            body_start: self.body_start as int,
            body_end: self.body_end as int,
            end: self.end as int,
        }
    }
}

fn macro_at_exec(s: &Vec<char>, p: usize) -> (r: Option<MacroSpan>)
    requires
        p < s.len(),
    ensures
        match r {
            Some(m) => macro_at(s@, p as int) == Some(m@),
            None => macro_at(s@, p as int) is None,
        },
{
    match rep_header_exec(s, p) {
        None => None,
        Some((ds, de, bs)) => {
            proof {
                lemma_macro_at(s@, p as int);
            }
            if bs >= s.len() {
                assert(find_close(s@, bs + 1) is None);
                return None;
            }
            match find_close_exec(s, bs + 1) {
                None => None,
                Some((be, e)) => Some(
                    MacroSpan { digits_start: ds, digits_end: de, body_start: bs, body_end: be, end: e },
                ),
            }
        },
    }
}

fn sub_chars(s: &Vec<char>, a: usize, b: usize) -> (r: Vec<char>)
    requires
        a <= b <= s.len(),
    ensures
        r@ == s@.subrange(a as int, b as int),
{
    let mut r: Vec<char> = Vec::new();
    let mut i = a;
    while i < b
        invariant
            a <= i <= b <= s.len(),
            r@ == s@.subrange(a as int, i as int),
        decreases b - i,
    {
        r.push(s[i]);
        assert(s@.subrange(a as int, i + 1) =~= s@.subrange(a as int, i as int).push(s@[i as int]));
        i = i + 1;
    }
    r
}

/// Structure of `-?\d+` at `u`: where its digits start and end.
fn number_span(b: &Vec<char>, u: usize) -> (r: Option<(bool, usize, usize)>)
    requires
        u <= b.len(),
    ensures
        match r {
            Some((neg, ds, de)) => number_at(b@, u as int) is Some && number_at(b@, u as int)
                == Some(
                (
                    if neg {
                        -(digits_value(b@.subrange(ds as int, de as int)) as int)
                    } else {
                        digits_value(b@.subrange(ds as int, de as int)) as int
                    },
                    de as int,
                ),
            ) && u <= ds < de <= b.len() && (forall|j: int|
                ds <= j < de ==> is_ascii_digit(#[trigger] b@[j])),
            None => number_at(b@, u as int) is None,
        },
{
    let neg = u < b.len() && b[u] == '-';
    let ds = if neg { u + 1 } else { u };
    let de = digit_run_end_exec(b, ds);
    proof {
        lemma_digit_run(b@, ds as int);
    }
    if de == ds {
        None
    } else {
        Some((neg, ds, de))
    }
}

pub struct FoundExpansion {
    pub text: Vec<char>,
    pub start: i64,
    pub step: i64,
}

impl View for FoundExpansion {
    type V = Expansion;

    open spec fn view(&self) -> Expansion {
        Expansion { text: self.text@, start: self.start as int, step: self.step as int }
    }
}

fn signed_value(b: &Vec<char>, neg: bool, ds: usize, de: usize) -> (r: Option<i64>)
    requires
        ds <= de <= b.len(),
        forall|j: int| ds <= j < de ==> is_ascii_digit(#[trigger] b@[j]),
    ensures
        match r {
            Some(v) => v == (if neg {
                -(digits_value(b@.subrange(ds as int, de as int)) as int)
            } else {
                digits_value(b@.subrange(ds as int, de as int)) as int
            }) && in_i16(v as int),
            None => !in_i16(
                if neg {
                    -(digits_value(b@.subrange(ds as int, de as int)) as int)
                } else {
                    digits_value(b@.subrange(ds as int, de as int)) as int
                },
            ),
        },
{
    let limit: u64 = if neg { 32768 } else { 32767 };
    match digits_up_to(b, ds, de, limit) {
        None => None,
        Some(v) => if neg {
            Some(-(v as i64))
        } else {
            Some(v as i64)
        },
    }
}

pub open spec fn numbers_in_i16(xs: Seq<Expansion>) -> bool {
    forall|k: int| 0 <= k < xs.len() ==> in_i16(#[trigger] xs[k].start) && in_i16(xs[k].step)
}

/// The placeholders of a body, left to right.
fn collect_expansions(b: &Vec<char>) -> (r: Vec<FoundExpansion>)
    requires
        numbers_in_i16(expansions_from(b@, 0)),
    ensures
        r@.map_values(|x: FoundExpansion| x@) == expansions_from(b@, 0),
{
    let ghost all = expansions_from(b@, 0);
    let mut r: Vec<FoundExpansion> = Vec::new();
    let mut u: usize = 0;
    while u < b.len()
        invariant
            u <= b.len(),
            all == expansions_from(b@, 0),
            numbers_in_i16(all),
            r@.map_values(|x: FoundExpansion| x@) + expansions_from(b@, u as int) == all,
        decreases b.len() - u,
    {
        let ghost before = r@.map_values(|x: FoundExpansion| x@);
        let mut found = false;
        if u + 1 < b.len() && b[u] == '@' && b[u + 1] == '{' {
            if let Some((neg1, ds1, de1)) = number_span(b, u + 2) {
                if de1 < b.len() && b[de1] == ',' {
                    if let Some((neg2, ds2, de2)) = number_span(b, de1 + 1) {
                        if de2 < b.len() && b[de2] == '}' {
                            let ghost x = expansion_at(b@, u as int).unwrap().0;
                            assert(expansions_from(b@, u as int) == seq![x] + expansions_from(
                                b@,
                                de2 + 1,
                            ));
                            assert(all[before.len() as int] == x) by {
                                assert((before + expansions_from(b@, u as int))[before.len() as int]
                                    == x);
                            }
                            assert(in_i16(all[before.len() as int].start));
                            assert(in_i16(all[before.len() as int].step));
                            assert(in_i16(x.start) && in_i16(x.step));
                            let start = signed_value(b, neg1, ds1, de1);
                            let step = signed_value(b, neg2, ds2, de2);
                            let start = match start {
                                Some(v) => v,
                                None => {
                                    assert(false);
                                    0
                                },
                            };
                            let step = match step {
                                Some(v) => v,
                                None => {
                                    assert(false);
                                    0
                                },
                            };
                            let text = sub_chars(b, u, de2 + 1);
                            r.push(FoundExpansion { text, start, step });
                            assert(r@.map_values(|x: FoundExpansion| x@) =~= before.push(x));
                            assert(before.push(x) + expansions_from(b@, de2 + 1) =~= before + (seq![
                                x,
                            ] + expansions_from(b@, de2 + 1)));
                            u = de2 + 1;
                            found = true;
                        }
                    }
                }
            }
        }
        if !found {
            assert(expansion_at(b@, u as int) is None);
            u = u + 1;
        }
    }
    assert(r@.map_values(|x: FoundExpansion| x@) =~= all);
    r
}

/// `str::replace` on vectors of characters.
fn replace_chars(t: &Vec<char>, pat: &Vec<char>, rep: &Vec<char>) -> (r: Vec<char>)
    ensures
        r@ == replace_from(t@, pat@, rep@, 0),
{
    let mut r: Vec<char> = Vec::new();
    let mut i: usize = 0;
    while i < t.len()
        invariant
            i <= t.len(),
            r@ + replace_from(t@, pat@, rep@, i as int) == replace_from(t@, pat@, rep@, 0),
        decreases t.len() - i,
    {
        let ghost before = r@;
        if pat.len() > 0 && pat.len() <= t.len() - i && chars_equal_at(t, i, pat) {
            let mut k: usize = 0;
            while k < rep.len()
                invariant
                    k <= rep.len(),
                    r@ == before + rep@.subrange(0, k as int),
                decreases rep.len() - k,
            {
                r.push(rep[k]);
                assert(rep@.subrange(0, k + 1) =~= rep@.subrange(0, k as int).push(rep@[k as int]));
                k = k + 1;
            }
            assert(rep@.subrange(0, rep.len() as int) =~= rep@);
            assert(before + replace_from(t@, pat@, rep@, i as int) =~= r@ + replace_from(
                t@,
                pat@,
                rep@,
                i + pat.len(),
            ));
            i = i + pat.len();
        } else {
            r.push(t[i]);
            assert(before + replace_from(t@, pat@, rep@, i as int) =~= r@ + replace_from(
                t@,
                pat@,
                rep@,
                i + 1,
            ));
            i = i + 1;
        }
    }
    assert(r@ =~= r@ + replace_from(t@, pat@, rep@, i as int));
    r
}

/// Whether `pat` occurs in `t` at `i`.
fn chars_equal_at(t: &Vec<char>, i: usize, pat: &Vec<char>) -> (r: bool)
    requires
        i + pat.len() <= t.len(),
    ensures
        r == (t@.subrange(i as int, i + pat.len()) == pat@),
{
    let mut k: usize = 0;
    while k < pat.len()
        invariant
            i + pat.len() <= t.len(),
            k <= pat.len(),
            forall|j: int| 0 <= j < k ==> t@[i + j] == pat@[j],
        decreases pat.len() - k,
    {
        if t[i + k] != pat[k] {
            assert(t@.subrange(i as int, i + pat.len())[k as int] != pat@[k as int]);
            return false;
        }
        k = k + 1;
    }
    assert(t@.subrange(i as int, i + pat.len()) =~= pat@);
    true
}

/// One repetition of the body.
fn apply_expansions_exec(body: &Vec<char>, xs: &Vec<FoundExpansion>, it: i64) -> (r: Vec<char>)
    requires
        0 <= it < 32768,
        numbers_in_i16(xs@.map_values(|x: FoundExpansion| x@)),
    ensures
        r@ == apply_expansions(body@, xs@.map_values(|x: FoundExpansion| x@), it as int),
{
    let ghost xsv = xs@.map_values(|x: FoundExpansion| x@);
    let mut r = sub_chars(body, 0, body.len());
    assert(body@.subrange(0, body.len() as int) =~= body@);
    let mut k: usize = 0;
    while k < xs.len()
        invariant
            0 <= it < 32768,
            k <= xs.len(),
            xsv == xs@.map_values(|x: FoundExpansion| x@),
            numbers_in_i16(xsv),
            r@ == apply_expansions(body@, xsv.subrange(0, k as int), it as int),
        decreases xs.len() - k,
    {
        let x = &xs[k];
        assert(xsv.len() == xs.len());
        assert(xsv[k as int] == x@);
        assert(numbers_in_i16(xsv));
        assert(0 <= k < xsv.len());
        let ghost xk = xsv[k as int];
        assert(in_i16(xk.start));
        assert(in_i16(x.start as int) && in_i16(x.step as int));
        let step = x.step;
        assert(-1073741824 <= it * step <= 1073741824) by (nonlinear_arith)
            requires
                0 <= it < 32768,
                -32768 <= step <= 32767,
        ;
        let value: i64 = x.start + it * step;
        let digits = i64_decimal(value);
        let next = replace_chars(&r, &x.text, &digits);
        assert(xsv.subrange(0, k + 1).drop_last() =~= xsv.subrange(0, k as int));
        r = next;
        k = k + 1;
    }
    assert(xsv.subrange(0, xs.len() as int) =~= xsv);
    r
}

fn macro_output_exec(s: &Vec<char>, m: &MacroSpan) -> (r: Vec<char>)
    requires
        m.digits_start <= m.digits_end <= s.len(),
        m.body_start <= m.body_end <= s.len(),
        forall|j: int| m.digits_start <= j < m.digits_end ==> is_ascii_digit(#[trigger] s@[j]),
        macro_fits(s@, m@),
    ensures
        r@ == macro_output(s@, m@),
{
    let body = sub_chars(s, m.body_start, m.body_end);
    let ghost xsv = expansions_from(body@, 0);
    let reps = match digits_up_to(s, m.digits_start, m.digits_end, 32767) {
        Some(v) => v,
        None => {
            assert(false);
            0
        },
    };
    assert(body@ == macro_body(s@, m@));
    assert forall|k: int| 0 <= k < xsv.len() implies in_i16(#[trigger] xsv[k].start) && in_i16(
        xsv[k].step,
    ) by {
        assert(expansion_fits(xsv[k], macro_reps(s@, m@)));
    }
    let xs = collect_expansions(&body);
    let mut out: Vec<char> = Vec::new();
    let mut it: u64 = 0;
    while it < reps
        invariant
            it <= reps <= 32767,
            reps == macro_reps(s@, m@),
            body@ == macro_body(s@, m@),
            xs@.map_values(|x: FoundExpansion| x@) == expansions_from(body@, 0),
            numbers_in_i16(expansions_from(body@, 0)),
            out@ == repeated(body@, expansions_from(body@, 0), it as nat),
        decreases reps - it,
    {
        let mut one = apply_expansions_exec(&body, &xs, it as i64);
        out.append(&mut one);
        it = it + 1;
    }
    out
}

fn expand_chars(s: &Vec<char>) -> (r: Vec<char>)
    requires
        macros_expandable(s@),
    ensures
        r@ == expand_macros_spec(s@),
{
    let mut out: Vec<char> = Vec::new();
    let mut p: usize = 0;
    while p < s.len()
        invariant
            p <= s.len(),
            out@ + expand_from(s@, p as int) == expand_from(s@, 0),
            expansion_fits_from(s@, p as int),
        decreases s.len() - p,
    {
        let ghost before = out@;
        proof {
            lemma_macro_at(s@, p as int);
        }
        match macro_at_exec(s, p) {
            Some(m) => {
                let mut piece = macro_output_exec(s, &m);
                out.append(&mut piece);
                assert(before + expand_from(s@, p as int) =~= out@ + expand_from(s@, m.end as int));
                p = m.end;
            },
            None => {
                out.push(s[p]);
                assert(before + expand_from(s@, p as int) =~= out@ + expand_from(s@, p + 1));
                p = p + 1;
            },
        }
    }
    assert(out@ =~= out@ + expand_from(s@, p as int));
    out
}

/// Expands every `@rep N` ... `@end` block into `N` copies of its body, with each
/// `@{start,step}` placeholder replaced by `start + iteration * step`.
pub fn expand_macros(i: &str) -> (r: String)
    requires
        macros_expandable(i@),
    ensures
        r@ == expand_macros_spec(i@),
{
    let s = str_chars(i);
    let e = expand_chars(&s);
    string_from_chars(&e)
}

/// Every value between the ends of a linear run lies between its end values.
proof fn lemma_linear_between(it: int, n: int, step: int, start: int)
    requires
        0 <= it < n,
    ensures
        (0 <= it * step <= (n - 1) * step) || ((n - 1) * step <= it * step <= 0),
        (start <= start + it * step <= start + (n - 1) * step) || (start + (n - 1) * step
            <= start + it * step <= start),
{
    if step >= 0 {
        assert(0 <= it * step <= (n - 1) * step) by (nonlinear_arith)
            requires
                0 <= it < n,
                step >= 0,
        ;
    } else {
        assert((n - 1) * step <= it * step <= 0) by (nonlinear_arith)
            requires
                0 <= it < n,
                step < 0,
        ;
    }
}

proof fn lemma_fits_range(start: int, step: int, reps: int)
    requires
        reps >= 1,
        in_i16(start),
        in_i16((reps - 1) * step),
        in_i16(start + (reps - 1) * step),
    ensures
        forall|it: int| 0 <= it < reps ==> #[trigger] fits_at(start, step, it),
{
    assert forall|it: int| 0 <= it < reps implies #[trigger] fits_at(start, step, it) by {
        lemma_linear_between(it, reps, step, start);
    }
}

/// Whether a placeholder with these numbers fits over `reps` repetitions.
fn expansion_fits_exec(start: i64, step: i64, reps: u64) -> (r: bool)
    requires
        in_i16(start as int),
        in_i16(step as int),
        reps <= 32767,
    ensures
        r == (forall|it: int| 0 <= it < reps ==> #[trigger] fits_at(start as int, step as int, it)),
{
    if reps == 0 {
        return true;
    }
    let last = (reps - 1) as i64;
    assert(-1073741824 <= last * step <= 1073741824) by (nonlinear_arith)
        requires
            0 <= last < 32767,
            -32768 <= step <= 32767,
    ;
    let far = last * step;
    let end = start + far;
    if -32768 <= far && far <= 32767 && -32768 <= end && end <= 32767 {
        proof {
            lemma_fits_range(start as int, step as int, reps as int);
        }
        true
    } else {
        let ghost w: int = last as int;
        assert(w * step == far);
        assert(0 <= w < reps);
        assert(!fits_at(start as int, step as int, w));
        false
    }
}

/// Whether every placeholder of the body fits over `reps` repetitions.
fn expansions_fit_exec(b: &Vec<char>, reps: u64) -> (r: bool)
    requires
        reps <= 32767,
    ensures
        r == (forall|k: int|
            0 <= k < expansions_from(b@, 0).len() ==> expansion_fits(#[trigger] expansions_from(b@, 0)[k], reps as nat)),
{
    let ghost all = expansions_from(b@, 0);
    let ghost mut done: Seq<Expansion> = Seq::empty();
    let mut u: usize = 0;
    while u < b.len()
        invariant
            u <= b.len(),
            reps <= 32767,
            all == expansions_from(b@, 0),
            done + expansions_from(b@, u as int) == all,
            forall|k: int| 0 <= k < done.len() ==> expansion_fits(#[trigger] done[k], reps as nat),
        decreases b.len() - u,
    {
        let mut found = false;
        if u + 1 < b.len() && b[u] == '@' && b[u + 1] == '{' {
            if let Some((neg1, ds1, de1)) = number_span(b, u + 2) {
                if de1 < b.len() && b[de1] == ',' {
                    if let Some((neg2, ds2, de2)) = number_span(b, de1 + 1) {
                        if de2 < b.len() && b[de2] == '}' {
                            let ghost x = expansion_at(b@, u as int).unwrap().0;
                            let ghost done_old = done;
                            assert(number_at(b@, u + 2) == Some((x.start, de1 as int)));
                            assert(number_at(b@, de1 + 1) == Some((x.step, de2 as int)));
                            assert(expansions_from(b@, u as int) == seq![x] + expansions_from(b@, de2 + 1));
                            assert(all[done.len() as int] == x) by {
                                assert((done + expansions_from(b@, u as int))[done.len() as int] == x);
                            }
                            let start = signed_value(b, neg1, ds1, de1);
                            let step = signed_value(b, neg2, ds2, de2);
                            match (start, step) {
                                (Some(a), Some(c)) => {
                                    if !expansion_fits_exec(a, c, reps) {
                                        assert(!expansion_fits(all[done.len() as int], reps as nat));
                                        return false;
                                    }
                                },
                                _ => {
                                    assert(!expansion_fits(all[done.len() as int], reps as nat));
                                    return false;
                                },
                            }
                            proof {
                                done = done.push(x);
                            }
                            assert(done + expansions_from(b@, de2 + 1) =~= done_old + (seq![x]
                                + expansions_from(b@, de2 + 1)));
                            u = de2 + 1;
                            found = true;
                        }
                    }
                }
            }
        }
        if !found {
            assert(expansion_at(b@, u as int) is None);
            u = u + 1;
        }
    }
    assert(done =~= all);
    true
}

/// Whether macro expansion of the text runs without overflow.
fn macros_expandable_exec(s: &Vec<char>) -> (r: bool)
    ensures
        r == macros_expandable(s@),
{
    let mut p: usize = 0;
    while p < s.len()
        invariant
            p <= s.len(),
            expansion_fits_from(s@, 0) == expansion_fits_from(s@, p as int),
        decreases s.len() - p,
    {
        proof {
            lemma_macro_at(s@, p as int);
        }
        match macro_at_exec(s, p) {
            Some(m) => {
                assert(crate::text::all_digits(s@.subrange(m.digits_start as int, m.digits_end as int)));
                match digits_up_to(s, m.digits_start, m.digits_end, 32767) {
                    None => {
                        return false;
                    },
                    Some(reps) => {
                        let body = sub_chars(s, m.body_start, m.body_end);
                        if !expansions_fit_exec(&body, reps) {
                            return false;
                        }
                    },
                }
                p = m.end;
            },
            None => {
                p = p + 1;
            },
        }
    }
    true
}

/// Whether the script preprocesses without overflow in its macros.
pub fn is_preprocessable(i: &str) -> (r: bool)
    ensures
        r == preprocessable(i@),
{
    let s = str_chars(i);
    let a = strip_leading_chars(&s);
    let b = strip_trailing_chars(&a);
    let c = strip_semicolon_chars(&b);
    let d = strip_note_chars(&c);
    let e = strip_empty_line_chars(&d);
    macros_expandable_exec(&e)
}

/// Whitespace, comments and empty lines removed, in that order.
pub open spec fn cleaned_text(s: Seq<char>) -> Seq<char> {
    strip_empty_lines_spec(strip_comments_spec(strip_whitespace_spec(s)))
}

/// The text the parser reads: the cleaned text with its macros expanded.
pub open spec fn preprocess_spec(s: Seq<char>) -> Seq<char> {
    expand_macros_spec(cleaned_text(s))
}

/// Script text that preprocesses without panicking.
pub open spec fn preprocessable(s: Seq<char>) -> bool {
    macros_expandable(cleaned_text(s))
}

/// The preprocessed characters of a script.
pub fn preprocess_chars(i: &str) -> (r: Vec<char>)
    requires
        preprocessable(i@),
    ensures
        r@ == preprocess_spec(i@),
{
    let s = str_chars(i);
    let a = strip_leading_chars(&s);
    let b = strip_trailing_chars(&a);
    let c = strip_semicolon_chars(&b);
    let d = strip_note_chars(&c);
    let e = strip_empty_line_chars(&d);
    expand_chars(&e)
}

pub fn preprocess_text(i: &str) -> (r: String)
    requires
        preprocessable(i@),
    ensures
        r@ == preprocess_spec(i@),
{
    let v = preprocess_chars(i);
    string_from_chars(&v)
}

} // verus!
