//! Lenient, span-aware classifier of REPL input for syntax colouring.
//!
//! It follows the boundary rules of the lexer but never fails: a partial
//! literal such as `5.` or `1e`, or a bare `$`, still yields spans, so a line
//! can be repainted on every keystroke.
use crate::text::{
    lemma_byte_len_monotone, lemma_byte_offset_strict, ascii_alnum, ascii_alpha, ascii_digit, byte_len, byte_offset, byte_offsets, chars_of, hex_digit,
    is_ascii_alnum, is_ascii_alpha, is_digit, is_hex_digit, is_whitespace, spec_is_whitespace,
};
use vstd::prelude::*;

verus! {

#[derive(Clone, Copy, Debug, PartialEq, Eq, Structural)]
pub enum TokenClass {
    Number,
    Identifier,
    SystemIdent,
    Operator,
    Punct,
    Comment,
    Error,
}

/// A classified piece of the input; `start` and `end` are byte offsets.
#[derive(Clone, Copy, Debug, PartialEq, Eq, Structural)]
pub struct Span {
    pub start: usize,
    pub end: usize,
    pub class: TokenClass,
}

/// Index of the first character at or after `j` that does not satisfy `p`
/// (or the length of `s`).
pub open spec fn scan(s: Seq<char>, j: int, p: spec_fn(char) -> bool) -> int
    decreases s.len() - j,
{
    if 0 <= j < s.len() && p(s[j]) {
        scan(s, j + 1, p)
    } else {
        j
    }
}

pub proof fn lemma_scan_bounds(s: Seq<char>, j: int, p: spec_fn(char) -> bool)
    requires
        0 <= j,
    ensures
        j <= scan(s, j, p),
        j <= s.len() ==> scan(s, j, p) <= s.len(),
        forall|k: int| j <= k < scan(s, j, p) ==> p(#[trigger] s[k]),
        scan(s, j, p) < s.len() ==> !p(s[scan(s, j, p)]),
    decreases s.len() - j,
{
    if 0 <= j < s.len() && p(s[j]) {
        lemma_scan_bounds(s, j + 1, p);
    }
}

pub open spec fn is_punct(c: char) -> bool {
    c == '(' || c == ')' || c == '[' || c == ']' || c == '{' || c == '}' || c == ',' || c == ';'
}

pub open spec fn is_op_continuation(c: char) -> bool {
    c == '+' || c == '-' || c == '*' || c == '%' || c == '=' || c == '<' || c == '>' || c == '!'
        || c == '&' || c == '|' || c == '^' || c == '~' || c == '?' || c == ':'
}

pub open spec fn is_op_start(c: char) -> bool {
    is_op_continuation(c) || c == '/'
}

pub open spec fn is_ident_continuation(c: char) -> bool {
    is_ascii_alnum(c) || c == '_' || c == '$'
}

pub open spec fn is_based_digit(c: char) -> bool {
    is_hex_digit(c) || c == '_' || c == 'x' || c == 'X' || c == 'z' || c == 'Z' || c == '?'
}

pub open spec fn is_digit_or_underscore(c: char) -> bool {
    is_digit(c) || c == '_'
}

pub open spec fn char_at(s: Seq<char>, j: int, c: char) -> bool {
    0 <= j < s.len() && s[j] == c
}

/// End of a `//` comment whose body starts at `j`: the next newline, or the end of input.
pub open spec fn line_comment_end(s: Seq<char>, j: int) -> int {
    scan(s, j, |c: char| c != '\n')
}

/// End of a `/*` comment whose body starts at `j`: just past the first `*/`
/// of the body, or the end of input.
pub open spec fn block_comment_end(s: Seq<char>, j: int, prev_star: bool) -> int
    decreases s.len() - j,
{
    if j < 0 || j >= s.len() {
        s.len() as int
    } else if prev_star && s[j] == '/' {
        j + 1
    } else {
        block_comment_end(s, j + 1, s[j] == '*')
    }
}

/// End of the tail after an apostrophe: optional `s`/`S`, an optional letter
/// for the base, then based digits.
pub open spec fn base_marker_end(s: Seq<char>, j: int) -> int {
    let j1 = if char_at(s, j, 's') || char_at(s, j, 'S') {
        j + 1
    } else {
        j
    };
    let j2 = if 0 <= j1 < s.len() && is_ascii_alpha(s[j1]) {
        j1 + 1
    } else {
        j1
    };
    scan(s, j2, |c: char| is_based_digit(c))
}

/// End of a decimal-led number starting at `i` (digits, optional fraction,
/// optional exponent, optional based continuation).
pub open spec fn number_end(s: Seq<char>, i: int) -> int {
    let j1 = scan(s, i + 1, |c: char| is_digit_or_underscore(c));
    let j2 = if char_at(s, j1, '.') && 0 <= j1 + 1 < s.len() && is_digit(s[j1 + 1]) {
        scan(s, j1 + 1, |c: char| is_digit_or_underscore(c))
    } else {
        j1
    };
    let j3 = if char_at(s, j2, 'e') || char_at(s, j2, 'E') {
        let k = if char_at(s, j2 + 1, '+') || char_at(s, j2 + 1, '-') {
            j2 + 2
        } else {
            j2 + 1
        };
        scan(s, k, |c: char| is_digit_or_underscore(c))
    } else {
        j2
    };
    let w = scan(s, j3, |c: char| spec_is_whitespace(c));
    if char_at(s, w, '\'') {
        base_marker_end(s, w + 1)
    } else {
        j3
    }
}

/// The token that starts at character `i` (which is not whitespace): its end
/// index and its class.
pub open spec fn token_at(s: Seq<char>, i: int) -> (int, TokenClass) {
    let c = s[i];
    if c == '/' && char_at(s, i + 1, '/') {
        (line_comment_end(s, i + 2), TokenClass::Comment)
    } else if c == '/' && char_at(s, i + 1, '*') {
        (block_comment_end(s, i + 2, false), TokenClass::Comment)
    } else if is_punct(c) {
        (i + 1, TokenClass::Punct)
    } else if c == '/' {
        (i + 1, TokenClass::Operator)
    } else if is_op_continuation(c) {
        (scan(s, i + 1, |c: char| is_op_continuation(c)), TokenClass::Operator)
    } else if c == '\'' {
        if 0 <= i + 1 < s.len() && is_ascii_alpha(s[i + 1]) {
            (base_marker_end(s, i + 1), TokenClass::Number)
        } else {
            (i + 1, TokenClass::Error)
        }
    } else if c == '$' {
        let e = scan(s, i + 1, |c: char| is_ident_continuation(c));
        (e, if e > i + 1 { TokenClass::SystemIdent } else { TokenClass::Error })
    } else if is_ascii_alpha(c) || c == '_' {
        (scan(s, i + 1, |c: char| is_ident_continuation(c)), TokenClass::Identifier)
    } else if is_digit(c) {
        (number_end(s, i), TokenClass::Number)
    } else {
        (i + 1, TokenClass::Error)
    }
}

pub proof fn lemma_block_comment_end(s: Seq<char>, j: int, prev_star: bool)
    requires
        0 <= j <= s.len(),
    ensures
        j <= block_comment_end(s, j, prev_star) <= s.len(),
    decreases s.len() - j,
{
    if j < s.len() && !(prev_star && s[j] == '/') {
        lemma_block_comment_end(s, j + 1, s[j] == '*');
    }
}

pub proof fn lemma_base_marker_end(s: Seq<char>, j: int)
    requires
        0 <= j <= s.len(),
    ensures
        j <= base_marker_end(s, j) <= s.len(),
{
    let j1 = if char_at(s, j, 's') || char_at(s, j, 'S') {
        j + 1
    } else {
        j
    };
    let j2 = if 0 <= j1 < s.len() && is_ascii_alpha(s[j1]) {
        j1 + 1
    } else {
        j1
    };
    lemma_scan_bounds(s, j2, |c: char| is_based_digit(c));
}

pub proof fn lemma_token_advances(s: Seq<char>, i: int)
    requires
        0 <= i < s.len(),
    ensures
        i < token_at(s, i).0 <= s.len(),
{
    let c = s[i];
    lemma_scan_bounds(s, i + 1, |c: char| is_op_continuation(c));
    lemma_scan_bounds(s, i + 1, |c: char| is_ident_continuation(c));
    if c == '/' && char_at(s, i + 1, '/') {
        lemma_scan_bounds(s, i + 2, |c: char| c != '\n');
    } else if c == '/' && char_at(s, i + 1, '*') {
        lemma_block_comment_end(s, i + 2, false);
    } else if c == '\'' {
        if 0 <= i + 1 < s.len() && is_ascii_alpha(s[i + 1]) {
            lemma_base_marker_end(s, i + 1);
        }
    } else if is_digit(c) {
        lemma_number_end(s, i);
    }
}

pub proof fn lemma_number_end(s: Seq<char>, i: int)
    requires
        0 <= i < s.len(),
    ensures
        i < number_end(s, i) <= s.len(),
{
    let p = |c: char| is_digit_or_underscore(c);
    lemma_scan_bounds(s, i + 1, p);
    let j1 = scan(s, i + 1, p);
    lemma_scan_bounds(s, j1 + 1, p);
    let j2 = if char_at(s, j1, '.') && 0 <= j1 + 1 < s.len() && is_digit(s[j1 + 1]) {
        scan(s, j1 + 1, p)
    } else {
        j1
    };
    let k = if char_at(s, j2 + 1, '+') || char_at(s, j2 + 1, '-') {
        j2 + 2
    } else {
        j2 + 1
    };
    if char_at(s, j2, 'e') || char_at(s, j2, 'E') {
        lemma_scan_bounds(s, k, p);
    }
    let j3 = if char_at(s, j2, 'e') || char_at(s, j2, 'E') {
        scan(s, k, p)
    } else {
        j2
    };
    lemma_scan_bounds(s, j3, |c: char| spec_is_whitespace(c));
    let w = scan(s, j3, |c: char| spec_is_whitespace(c));
    if char_at(s, w, '\'') {
        lemma_base_marker_end(s, w + 1);
    }
}

/// Abstract span in character indices.
pub open spec fn spans_from(s: Seq<char>, i: int) -> Seq<(int, int, TokenClass)>
    decreases s.len() - i,
{
    if i < 0 || i >= s.len() {
        Seq::empty()
    } else if spec_is_whitespace(s[i]) {
        spans_from(s, i + 1)
    } else {
        let (e, class) = token_at(s, i);
        proof {
            lemma_token_advances(s, i);
        }
        seq![(i, e, class)] + spans_from(s, e)
    }
}

/// What `highlight_spans` returns for the characters `s`: the spans of
/// `spans_from(s, 0)` with character indices turned into byte offsets.
pub open spec fn spec_highlight(s: Seq<char>) -> Seq<Span> {
    spans_from(s, 0).map_values(|t: (int, int, TokenClass)| span_of(s, t))
}

/// A span in character indices turned into byte offsets.
pub open spec fn span_of(s: Seq<char>, t: (int, int, TokenClass)) -> Span {
    Span { start: byte_offset(s, t.0) as usize, end: byte_offset(s, t.1) as usize, class: t.2 }
}

/// Characters up to the next newline belong to a `//` comment.
fn consume_line_comment(s: &Vec<char>, j: usize) -> (e: usize)
    requires
        j <= s@.len(),
    ensures
        e == line_comment_end(s@, j as int),
        j <= e <= s@.len(),
{
    let mut k = j;
    while k < s.len() && s[k] != '\n'
        invariant
            j <= k <= s@.len(),
            scan(s@, j as int, |c: char| c != '\n') == scan(s@, k as int, |c: char| c != '\n'),
        decreases s@.len() - k,
    {
        k = k + 1;
    }
    k
}

/// A `/*` comment runs to just past the first `*/`, or to the end of input.
fn consume_block_comment(s: &Vec<char>, j: usize) -> (e: usize)
    requires
        j <= s@.len(),
    ensures
        e == block_comment_end(s@, j as int, false),
        j <= e <= s@.len(),
{
    let mut k = j;
    let mut prev_star = false;
    while k < s.len()
        invariant
            j <= k <= s@.len(),
            block_comment_end(s@, j as int, false) == block_comment_end(s@, k as int, prev_star),
        decreases s@.len() - k,
    {
        let c = s[k];
        if prev_star && c == '/' {
            return k + 1;
        }
        prev_star = c == '*';
        k = k + 1;
    }
    k
}

/// True for the characters that extend an operator run (`/` excluded).
fn is_operator_continuation(c: char) -> (r: bool)
    ensures
        r == is_op_continuation(c),
{
    c == '+' || c == '-' || c == '*' || c == '%' || c == '=' || c == '<' || c == '>' || c == '!'
        || c == '&' || c == '|' || c == '^' || c == '~' || c == '?' || c == ':'
}

fn is_ident_char(c: char) -> (r: bool)
    ensures
        r == is_ident_continuation(c),
{
    ascii_alnum(c) || c == '_' || c == '$'
}

/// Greedy run of operator characters starting at `i`; a leading `/` stands alone.
fn consume_operator_run(s: &Vec<char>, i: usize) -> (e: usize)
    requires
        i < s.len(),
        is_op_start(s@[i as int]),
    ensures
        e == (if s@[i as int] == '/' {
            i + 1
        } else {
            scan(s@, i + 1, |c: char| is_op_continuation(c))
        }),
{
    if s[i] == '/' {
        return i + 1;
    }
    let mut k = i + 1;
    while k < s.len() && is_operator_continuation(s[k])
        invariant
            i < k <= s@.len(),
            scan(s@, i + 1, |c: char| is_op_continuation(c)) == scan(
                s@,
                k as int,
                |c: char| is_op_continuation(c),
            ),
        decreases s@.len() - k,
    {
        k = k + 1;
    }
    k
}

/// Identifier characters starting at `j`.
fn read_identifier(s: &Vec<char>, j: usize) -> (e: usize)
    requires
        j <= s@.len(),
    ensures
        e == scan(s@, j as int, |c: char| is_ident_continuation(c)),
        j <= e <= s@.len(),
{
    let mut k = j;
    while k < s.len() && is_ident_char(s[k])
        invariant
            j <= k <= s@.len(),
            scan(s@, j as int, |c: char| is_ident_continuation(c)) == scan(
                s@,
                k as int,
                |c: char| is_ident_continuation(c),
            ),
        decreases s@.len() - k,
    {
        k = k + 1;
    }
    k
}

/// `$` at `i` followed by identifier characters; a bare `$` is an error.
fn read_system_identifier(s: &Vec<char>, i: usize) -> (r: (usize, TokenClass))
    requires
        i < s.len(),
    ensures
        r.0 == scan(s@, i + 1, |c: char| is_ident_continuation(c)),
        r.1 == (if r.0 > i + 1 {
            TokenClass::SystemIdent
        } else {
            TokenClass::Error
        }),
{
    let e = read_identifier(s, i + 1);
    proof {
        lemma_scan_bounds(s@, i + 1, |c: char| is_ident_continuation(c));
    }
    (e, if e > i + 1 { TokenClass::SystemIdent } else { TokenClass::Error })
}

/// A bare based literal `'b1010`: the apostrophe at `i` must be followed by a letter.
fn read_bare_based_literal(s: &Vec<char>, i: usize) -> (r: (usize, TokenClass))
    requires
        i < s.len(),
    ensures
        (r.0 as int, r.1) == (if 0 <= i + 1 < s@.len() && is_ascii_alpha(s@[i + 1]) {
            (base_marker_end(s@, i + 1), TokenClass::Number)
        } else {
            ((i + 1) as int, TokenClass::Error)
        }),
{
    if i + 1 < s.len() && ascii_alpha(s[i + 1]) {
        (consume_base_marker_and_digits(s, i + 1), TokenClass::Number)
    } else {
        (i + 1, TokenClass::Error)
    }
}

fn is_based_digit_char(c: char) -> (r: bool)
    ensures
        r == is_based_digit(c),
{
    hex_digit(c) || c == '_' || c == 'x' || c == 'X' || c == 'z' || c == 'Z' || c == '?'
}

/// The tail after an apostrophe: optional `s`/`S`, an optional base letter, then digits.
fn consume_base_marker_and_digits(s: &Vec<char>, j: usize) -> (e: usize)
    requires
        j <= s@.len(),
    ensures
        e == base_marker_end(s@, j as int),
        j <= e <= s@.len(),
{
    let mut k = j;
    if k < s.len() && (s[k] == 's' || s[k] == 'S') {
        k = k + 1;
    }
    if k < s.len() && ascii_alpha(s[k]) {
        k = k + 1;
    }
    let ghost k0 = k;
    while k < s.len() && is_based_digit_char(s[k])
        invariant
            k0 <= k <= s@.len(),
            scan(s@, k0 as int, |c: char| is_based_digit(c)) == scan(
                s@,
                k as int,
                |c: char| is_based_digit(c),
            ),
        decreases s@.len() - k,
    {
        k = k + 1;
    }
    k
}

/// Digits and underscores starting at `j`.
fn consume_digit_run(s: &Vec<char>, j: usize) -> (e: usize)
    requires
        j <= s@.len(),
    ensures
        e == scan(s@, j as int, |c: char| is_digit_or_underscore(c)),
        j <= e <= s@.len(),
{
    let mut k = j;
    while k < s.len() && (ascii_digit(s[k]) || s[k] == '_')
        invariant
            j <= k <= s@.len(),
            scan(s@, j as int, |c: char| is_digit_or_underscore(c)) == scan(
                s@,
                k as int,
                |c: char| is_digit_or_underscore(c),
            ),
        decreases s@.len() - k,
    {
        k = k + 1;
    }
    k
}

/// A number led by the decimal digit at `i`.
fn read_number(s: &Vec<char>, i: usize) -> (e: usize)
    requires
        i < s.len(),
    ensures
        e == number_end(s@, i as int),
        i < e <= s@.len(),
{
    let ghost p = |c: char| is_digit_or_underscore(c);
    let mut end = consume_digit_run(s, i + 1);
    proof {
        lemma_scan_bounds(s@, i + 1, p);
    }
    if end < s.len() && s[end] == '.' && end + 1 < s.len() && ascii_digit(s[end + 1]) {
        end = consume_digit_run(s, end + 1);
        proof {
            lemma_scan_bounds(s@, scan(s@, i + 1, p) + 1, p);
        }
    }
    if end < s.len() && (s[end] == 'e' || s[end] == 'E') {
        let mut k = end + 1;
        if k < s.len() && (s[k] == '+' || s[k] == '-') {
            k = k + 1;
        }
        end = consume_digit_run(s, k);
    }
    let mut w = end;
    while w < s.len() && is_whitespace(s[w])
        invariant
            end <= w <= s@.len(),
            scan(s@, end as int, |c: char| spec_is_whitespace(c)) == scan(
                s@,
                w as int,
                |c: char| spec_is_whitespace(c),
            ),
        decreases s@.len() - w,
    {
        w = w + 1;
    }
    if w < s.len() && s[w] == '\'' {
        end = consume_base_marker_and_digits(s, w + 1);
    }
    end
}

/// The token that starts at character `i`, which is not whitespace: where it
/// ends and its class.
pub fn next_token(s: &Vec<char>, i: usize) -> (r: (usize, TokenClass))
    requires
        i < s@.len(),
    ensures
        (r.0 as int, r.1) == token_at(s@, i as int),
        i < r.0 <= s@.len(),
{
    let ghost len_bound = s.len();
    let c = s[i];
    let r = if c == '/' && i + 1 < s.len() && s[i + 1] == '/' {
        (consume_line_comment(s, i + 2), TokenClass::Comment)
    } else if c == '/' && i + 1 < s.len() && s[i + 1] == '*' {
        (consume_block_comment(s, i + 2), TokenClass::Comment)
    } else if c == '(' || c == ')' || c == '[' || c == ']' || c == '{' || c == '}' || c == ','
        || c == ';' {
        (i + 1, TokenClass::Punct)
    } else if c == '/' || is_operator_continuation(c) {
        (consume_operator_run(s, i), TokenClass::Operator)
    } else if c == '\'' {
        read_bare_based_literal(s, i)
    } else if c == '$' {
        read_system_identifier(s, i)
    } else if ascii_alpha(c) || c == '_' {
        (read_identifier(s, i + 1), TokenClass::Identifier)
    } else if ascii_digit(c) {
        (read_number(s, i), TokenClass::Number)
    } else {
        (i + 1, TokenClass::Error)
    };
    proof {
        lemma_token_advances(s@, i as int);
    }
    r
}

/// Classifies every non-whitespace piece of `input`.
pub fn highlight_spans(input: &str) -> (spans: Vec<Span>)
    requires
        byte_len(input@) <= usize::MAX,
    ensures
        spans@ == spec_highlight(input@),
{
    let s = chars_of(input);
    let offs = byte_offsets(&s);
    let mut out: Vec<Span> = Vec::new();
    let mut i: usize = 0;
    let ghost whole = spans_from(s@, 0);
    let ghost f = |t: (int, int, TokenClass)| span_of(input@, t);
    proof {
        assert(whole =~= Seq::<(int, int, TokenClass)>::empty() + spans_from(s@, 0));
    }
    while i < s.len()
        invariant
            i <= s@.len(),
            s@ == input@,
            offs@.len() == s@.len() + 1,
            forall|k: int| 0 <= k <= s@.len() ==> offs@[k] == byte_offset(s@, k),
            whole == spans_from(s@, 0),
            f == (|t: (int, int, TokenClass)| span_of(input@, t)),
            exists|done: Seq<(int, int, TokenClass)>|
                #![trigger done.len()]
                {
                    &&& whole == done + spans_from(s@, i as int)
                    &&& out@ == done.map_values(f)
                },
        decreases s@.len() - i,
    {
        let ghost done = choose|done: Seq<(int, int, TokenClass)>|
            #![trigger done.len()]
            {
                &&& whole == done + spans_from(s@, i as int)
                &&& out@ == done.map_values(f)
            };
        let c = s[i];
        if is_whitespace(c) {
            i = i + 1;
            assert(whole == done + spans_from(s@, i as int));
            continue;
        }
        let (end, class) = next_token(&s, i);
        proof {
            assert(offs@[i as int] == byte_offset(s@, i as int));
            assert(offs@[end as int] == byte_offset(s@, end as int));
        }
        let span = Span { start: offs[i], end: offs[end], class };
        out.push(span);
        proof {
            let item = (i as int, end as int, class);
            assert(span == span_of(s@, item));
            assert(whole == (done + seq![item]) + spans_from(s@, end as int));
            assert(out@ =~= (done + seq![item]).map_values(f));
        }
        i = end;
    }
    proof {
        let done = choose|done: Seq<(int, int, TokenClass)>|
            #![trigger done.len()]
            {
                &&& whole == done + spans_from(s@, i as int)
                &&& out@ == done.map_values(f)
            };
        assert(whole =~= done);
    }
    out
}

/// The spans from `i` on lie in order between `i` and the end of `s`, none of
/// them empty, and together they hold every character that is not
/// whitespace: what lies between spans is whitespace, kept as it is.
pub proof fn lemma_spans_tile(s: Seq<char>, i: int)
    requires
        0 <= i <= s.len(),
    ensures
        forall|k: int|
            0 <= k < spans_from(s, i).len() ==> i <= #[trigger] spans_from(s, i)[k].0 < spans_from(
                s,
                i,
            )[k].1 <= s.len(),
        forall|k: int|
            0 <= k < spans_from(s, i).len() - 1 ==> #[trigger] spans_from(s, i)[k].1 <= spans_from(
                s,
                i,
            )[k + 1].0,
        forall|j: int|
            i <= j < s.len() && !spec_is_whitespace(s[j]) ==> exists|k: int|
                0 <= k < spans_from(s, i).len() && #[trigger] spans_from(s, i)[k].0 <= j
                    < spans_from(s, i)[k].1,
    decreases s.len() - i,
{
    if i < s.len() {
        if spec_is_whitespace(s[i]) {
            lemma_spans_tile(s, i + 1);
            let all = spans_from(s, i);
            assert(all == spans_from(s, i + 1));
            assert forall|j: int| i <= j < s.len() && !spec_is_whitespace(s[j]) implies exists|
                k: int,
            | 0 <= k < all.len() && #[trigger] all[k].0 <= j < all[k].1 by {
                let k = choose|k: int| 0 <= k < all.len() && #[trigger] spans_from(s, i + 1)[k].0 <= j < spans_from(s, i + 1)[k].1;
                assert(all[k] == spans_from(s, i + 1)[k]);
            }
        } else {
            let (e, class) = token_at(s, i);
            lemma_token_advances(s, i);
            lemma_spans_tile(s, e);
            let rest = spans_from(s, e);
            let all = spans_from(s, i);
            assert(all == seq![(i, e, class)] + rest);
            assert forall|k: int| 0 <= k < all.len() implies i <= #[trigger] all[k].0 < all[k].1
                <= s.len() by {
                if k > 0 {
                    assert(all[k] == rest[k - 1]);
                }
            }
            assert forall|k: int| 0 <= k < all.len() - 1 implies #[trigger] all[k].1 <= all[k
                + 1].0 by {
                assert(all[k + 1] == rest[k]);
                if k > 0 {
                    assert(all[k] == rest[k - 1]);
                }
            }
            assert forall|j: int| i <= j < s.len() && !spec_is_whitespace(s[j]) implies exists|
                k: int,
            | 0 <= k < all.len() && #[trigger] all[k].0 <= j < all[k].1 by {
                if j < e {
                    assert(all[0].0 <= j < all[0].1);
                } else {
                    let k = choose|k: int| 0 <= k < rest.len() && #[trigger] rest[k].0 <= j < rest[k].1;
                    assert(all[k + 1] == rest[k]);
                }
            }
        }
    }
}

/// The spans `highlight_spans` returns are in order along the input, each
/// a non-empty byte range inside it, and no two overlap.
pub proof fn lemma_highlight_spans_ordered(s: Seq<char>)
    requires
        byte_len(s) <= usize::MAX,
    ensures
        forall|k: int|
            0 <= k < spec_highlight(s).len() ==> #[trigger] spec_highlight(s)[k].start
                < spec_highlight(s)[k].end <= byte_len(s),
        forall|k: int|
            0 <= k < spec_highlight(s).len() - 1 ==> #[trigger] spec_highlight(s)[k].end
                <= spec_highlight(s)[k + 1].start,
{
    lemma_spans_tile(s, 0);
    let sp = spans_from(s, 0);
    let h = spec_highlight(s);
    assert forall|k: int| 0 <= k < h.len() implies #[trigger] h[k].start < h[k].end <= byte_len(
        s,
    ) by {
        lemma_byte_offset_strict(s, sp[k].0, sp[k].1);
    }
    assert forall|k: int| 0 <= k < h.len() - 1 implies #[trigger] h[k].end <= h[k + 1].start by {
        lemma_byte_offset_strict(s, sp[k].0, sp[k].1);
        lemma_byte_offset_strict(s, sp[k + 1].0, sp[k + 1].1);
        lemma_byte_len_monotone(s, sp[k].1, sp[k + 1].0);
    }
}

/// Every character of the input that is not whitespace starts at a byte
/// offset inside one of the spans `highlight_spans` returns.
pub proof fn lemma_highlight_spans_cover_bytes(s: Seq<char>)
    requires
        byte_len(s) <= usize::MAX,
    ensures
        forall|j: int|
            0 <= j < s.len() && !spec_is_whitespace(s[j]) ==> exists|k: int|
                0 <= k < spec_highlight(s).len() && #[trigger] spec_highlight(s)[k].start
                    <= byte_offset(s, j) < spec_highlight(s)[k].end,
{
    lemma_spans_tile(s, 0);
    let sp = spans_from(s, 0);
    let h = spec_highlight(s);
    assert forall|j: int| 0 <= j < s.len() && !spec_is_whitespace(s[j]) implies exists|k: int|
        0 <= k < h.len() && #[trigger] h[k].start <= byte_offset(s, j) < h[k].end by {
        let k = choose|k: int| 0 <= k < sp.len() && #[trigger] sp[k].0 <= j < sp[k].1;
        lemma_byte_len_monotone(s, sp[k].0, j);
        lemma_byte_offset_strict(s, j, sp[k].1);
        assert(h.len() == sp.len());
        assert(h[k] == span_of(s, sp[k]));
        assert(h[k].start as int == byte_offset(s, sp[k].0));
        assert(h[k].end as int == byte_offset(s, sp[k].1));
        assert(0 <= k < h.len() && h[k].start <= byte_offset(s, j) < h[k].end);
    }
}

} // verus!
