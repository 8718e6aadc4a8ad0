//! Tokenizer for REPL input (LRM lexical conventions, subset).
use crate::highlight::{is_digit_or_underscore, is_ident_continuation, lemma_scan_bounds, scan};
use crate::text::{
    ascii_alnum, ascii_alpha, ascii_digit, chars_of, is_ascii_alpha, is_digit, is_whitespace, owned,
    push_char, spec_is_whitespace, string_of,
};
use vstd::prelude::*;

verus! {

#[derive(Clone, Debug, PartialEq, Eq)]
pub enum Token {
    IntegerLiteral(String),
    /// Raw real literal text (underscores kept, `e`/`E` as written).
    RealLiteral(String),
    StringLiteral(Vec<u8>),
    SystemIdentifier(String),
    Identifier(String),
    LParen,
    RParen,
    LBracket,
    RBracket,
    Assign,
    Plus,
    Minus,
    Star,
    Slash,
    Percent,
    Power,
    Less,
    Greater,
    LessEqual,
    GreaterEqual,
    EqualEqual,
    NotEqual,
    CaseEqual,
    CaseNotEqual,
    Bang,
    LogicalAnd,
    LogicalOr,
    Tilde,
    BitwiseAnd,
    BitwiseOr,
    BitwiseXor,
    BitwiseXnor,
    BitwiseNand,
    BitwiseNor,
    LogicalShiftLeft,
    LogicalShiftRight,
    ArithmeticShiftLeft,
    ArithmeticShiftRight,
    Question,
    Colon,
    LBrace,
    RBrace,
    Comma,
    Semicolon,
    PlusColon,
    MinusColon,
}

/// Mathematical form of a token: payloads as sequences.
pub enum STok {
    IntegerLiteral(Seq<char>),
    RealLiteral(Seq<char>),
    StringLiteral(Seq<u8>),
    SystemIdentifier(Seq<char>),
    Identifier(Seq<char>),
    LParen,
    RParen,
    LBracket,
    RBracket,
    Assign,
    Plus,
    Minus,
    Star,
    Slash,
    Percent,
    Power,
    Less,
    Greater,
    LessEqual,
    GreaterEqual,
    EqualEqual,
    NotEqual,
    CaseEqual,
    CaseNotEqual,
    Bang,
    LogicalAnd,
    LogicalOr,
    Tilde,
    BitwiseAnd,
    BitwiseOr,
    BitwiseXor,
    BitwiseXnor,
    BitwiseNand,
    BitwiseNor,
    LogicalShiftLeft,
    LogicalShiftRight,
    ArithmeticShiftLeft,
    ArithmeticShiftRight,
    Question,
    Colon,
    LBrace,
    RBrace,
    Comma,
    Semicolon,
    PlusColon,
    MinusColon,
}

impl View for Token {
    type V = STok;

    open spec fn view(&self) -> STok {
        match self {
            Token::IntegerLiteral(s) => STok::IntegerLiteral(s@),
            Token::RealLiteral(s) => STok::RealLiteral(s@),
            Token::StringLiteral(b) => STok::StringLiteral(b@),
            Token::SystemIdentifier(s) => STok::SystemIdentifier(s@),
            Token::Identifier(s) => STok::Identifier(s@),
            Token::LParen => STok::LParen,
            Token::RParen => STok::RParen,
            Token::LBracket => STok::LBracket,
            Token::RBracket => STok::RBracket,
            Token::Assign => STok::Assign,
            Token::Plus => STok::Plus,
            Token::Minus => STok::Minus,
            Token::Star => STok::Star,
            Token::Slash => STok::Slash,
            Token::Percent => STok::Percent,
            Token::Power => STok::Power,
            Token::Less => STok::Less,
            Token::Greater => STok::Greater,
            Token::LessEqual => STok::LessEqual,
            Token::GreaterEqual => STok::GreaterEqual,
            Token::EqualEqual => STok::EqualEqual,
            Token::NotEqual => STok::NotEqual,
            Token::CaseEqual => STok::CaseEqual,
            Token::CaseNotEqual => STok::CaseNotEqual,
            Token::Bang => STok::Bang,
            Token::LogicalAnd => STok::LogicalAnd,
            Token::LogicalOr => STok::LogicalOr,
            Token::Tilde => STok::Tilde,
            Token::BitwiseAnd => STok::BitwiseAnd,
            Token::BitwiseOr => STok::BitwiseOr,
            Token::BitwiseXor => STok::BitwiseXor,
            Token::BitwiseXnor => STok::BitwiseXnor,
            Token::BitwiseNand => STok::BitwiseNand,
            Token::BitwiseNor => STok::BitwiseNor,
            Token::LogicalShiftLeft => STok::LogicalShiftLeft,
            Token::LogicalShiftRight => STok::LogicalShiftRight,
            Token::ArithmeticShiftLeft => STok::ArithmeticShiftLeft,
            Token::ArithmeticShiftRight => STok::ArithmeticShiftRight,
            Token::Question => STok::Question,
            Token::Colon => STok::Colon,
            Token::LBrace => STok::LBrace,
            Token::RBrace => STok::RBrace,
            Token::Comma => STok::Comma,
            Token::Semicolon => STok::Semicolon,
            Token::PlusColon => STok::PlusColon,
            Token::MinusColon => STok::MinusColon,
        }
    }
}

pub open spec fn toks_view(v: Seq<Token>) -> Seq<STok> {
    v.map_values(|t: Token| t@)
}

pub open spec fn at(s: Seq<char>, j: int, c: char) -> bool {
    0 <= j < s.len() && s[j] == c
}

/// Characters that end a bare integer literal (LRM operators and punctuation, and `$`).
pub open spec fn is_delim(c: char) -> bool {
    c == '(' || c == ')' || c == '+' || c == '-' || c == '*' || c == '/' || c == '%' || c == '<'
        || c == '>' || c == '=' || c == '!' || c == '&' || c == '|' || c == '^' || c == '~' || c
        == '?' || c == ':' || c == '{' || c == '}' || c == '[' || c == ']' || c == ',' || c == ';'
        || c == '$'
}

/// Digits after a base marker, from `k`: whitespace is skipped before the
/// first digit and ends the run after it; a delimiter other than `?` ends it.
/// Returns the collected digits, the end index, and whether a digit was seen.
pub open spec fn based_digit_run(s: Seq<char>, k: int, saw: bool) -> (Seq<char>, int, bool)
    decreases s.len() - k,
{
    if k < 0 || k >= s.len() {
        (Seq::empty(), k, saw)
    } else {
        let c = s[k];
        if c != '?' && is_delim(c) {
            (Seq::empty(), k, saw)
        } else if spec_is_whitespace(c) {
            if saw {
                (Seq::empty(), k, saw)
            } else {
                based_digit_run(s, k + 1, saw)
            }
        } else {
            let r = based_digit_run(s, k + 1, true);
            (seq![c] + r.0, r.1, r.2)
        }
    }
}

/// The base marker (with optional signed marker) and digits after an
/// apostrophe whose next character is at `j`: the text read and its end.
pub open spec fn base_and_digits(s: Seq<char>, j: int) -> Result<(Seq<char>, int), Seq<char>> {
    if j < 0 || j >= s.len() || spec_is_whitespace(s[j]) {
        Err("missing base after apostrophe"@)
    } else if (s[j] == 's' || s[j] == 'S') && (j + 1 >= s.len() || spec_is_whitespace(
        s[j + 1],
    )) {
        Err("missing base after signed marker"@)
    } else {
        let (marker, k) = if s[j] == 's' || s[j] == 'S' {
            (seq![s[j], s[j + 1]], j + 2)
        } else {
            (seq![s[j]], j + 1)
        };
        let r = based_digit_run(s, k, false);
        if !r.2 {
            Err("missing digits in integer literal"@)
        } else {
            Ok((marker + r.0, r.1))
        }
    }
}

/// A bare integer literal runs until whitespace, a delimiter, an apostrophe
/// or a `.`: a `.` belongs to a literal only as the point of a real, with a
/// digit on each side of it.
pub open spec fn is_literal_body(c: char) -> bool {
    !spec_is_whitespace(c) && !is_delim(c) && c != '\'' && c != '.'
}

/// An integer literal whose leading part `s[i..j]` was already read: the rest
/// of the bare run, then an optional (whitespace-separated) `'base digits` tail.
pub open spec fn integer_literal_from(s: Seq<char>, i: int, j: int) -> Result<(Seq<char>, int), Seq<char>> {
    let k = scan(s, j, |c: char| is_literal_body(c));
    let w = scan(s, k, |c: char| spec_is_whitespace(c));
    if at(s, w, '\'') {
        match base_and_digits(s, w + 1) {
            Ok((tail, e)) => Ok((s.subrange(i, k) + seq!['\''] + tail, e)),
            Err(m) => Err(m),
        }
    } else {
        Ok((s.subrange(i, k), k))
    }
}

/// The exponent of a real literal; `s[j]` is the `e`/`E`. Returns the end index.
pub open spec fn exponent_end(s: Seq<char>, j: int) -> Result<int, Seq<char>> {
    let k = if at(s, j + 1, '+') || at(s, j + 1, '-') {
        j + 2
    } else {
        j + 1
    };
    if 0 <= k < s.len() && is_digit(s[k]) {
        Ok(scan(s, k + 1, |c: char| is_digit_or_underscore(c)))
    } else {
        Err("missing exponent digits in real literal"@)
    }
}

/// A literal that starts with the (non-letter, non-underscore) character at `i`.
pub open spec fn number_token(s: Seq<char>, i: int) -> Result<(STok, int), Seq<char>> {
    if !is_digit(s[i]) {
        match integer_literal_from(s, i, i + 1) {
            Ok((t, e)) => Ok((STok::IntegerLiteral(t), e)),
            Err(m) => Err(m),
        }
    } else {
        let j1 = scan(s, i + 1, |c: char| is_digit_or_underscore(c));
        if at(s, j1, '.') && 0 <= j1 + 1 < s.len() && is_digit(s[j1 + 1]) {
            let j2 = scan(s, j1 + 1, |c: char| is_digit_or_underscore(c));
            if at(s, j2, 'e') || at(s, j2, 'E') {
                match exponent_end(s, j2) {
                    Ok(e) => Ok((STok::RealLiteral(s.subrange(i, e)), e)),
                    Err(m) => Err(m),
                }
            } else {
                Ok((STok::RealLiteral(s.subrange(i, j2)), j2))
            }
        } else if at(s, j1, 'e') || at(s, j1, 'E') {
            match exponent_end(s, j1) {
                Ok(e) => Ok((STok::RealLiteral(s.subrange(i, e)), e)),
                Err(m) => Err(m),
            }
        } else {
            match integer_literal_from(s, i, j1) {
                Ok((t, e)) => Ok((STok::IntegerLiteral(t), e)),
                Err(m) => Err(m),
            }
        }
    }
}

/// Operator and punctuation tokens at `i` (longest match), with their end index.
pub open spec fn symbol_token(s: Seq<char>, i: int) -> Option<(STok, int)> {
    let c = s[i];
    if c == '(' {
        Some((STok::LParen, i + 1))
    } else if c == ')' {
        Some((STok::RParen, i + 1))
    } else if c == '+' {
        Some((STok::Plus, i + 1))
    } else if c == '-' {
        Some((STok::Minus, i + 1))
    } else if c == '/' {
        Some((STok::Slash, i + 1))
    } else if c == '%' {
        Some((STok::Percent, i + 1))
    } else if c == '*' {
        if at(s, i + 1, '*') {
            Some((STok::Power, i + 2))
        } else {
            Some((STok::Star, i + 1))
        }
    } else if c == '<' {
        if at(s, i + 1, '<') {
            if at(s, i + 2, '<') {
                Some((STok::ArithmeticShiftLeft, i + 3))
            } else {
                Some((STok::LogicalShiftLeft, i + 2))
            }
        } else if at(s, i + 1, '=') {
            Some((STok::LessEqual, i + 2))
        } else {
            Some((STok::Less, i + 1))
        }
    } else if c == '>' {
        if at(s, i + 1, '>') {
            if at(s, i + 2, '>') {
                Some((STok::ArithmeticShiftRight, i + 3))
            } else {
                Some((STok::LogicalShiftRight, i + 2))
            }
        } else if at(s, i + 1, '=') {
            Some((STok::GreaterEqual, i + 2))
        } else {
            Some((STok::Greater, i + 1))
        }
    } else if c == '=' {
        if at(s, i + 1, '=') {
            if at(s, i + 2, '=') {
                Some((STok::CaseEqual, i + 3))
            } else {
                Some((STok::EqualEqual, i + 2))
            }
        } else {
            Some((STok::Assign, i + 1))
        }
    } else if c == '!' {
        if at(s, i + 1, '=') {
            if at(s, i + 2, '=') {
                Some((STok::CaseNotEqual, i + 3))
            } else {
                Some((STok::NotEqual, i + 2))
            }
        } else {
            Some((STok::Bang, i + 1))
        }
    } else if c == '&' {
        if at(s, i + 1, '&') {
            Some((STok::LogicalAnd, i + 2))
        } else {
            Some((STok::BitwiseAnd, i + 1))
        }
    } else if c == '|' {
        if at(s, i + 1, '|') {
            Some((STok::LogicalOr, i + 2))
        } else {
            Some((STok::BitwiseOr, i + 1))
        }
    } else if c == '^' {
        if at(s, i + 1, '~') {
            Some((STok::BitwiseXnor, i + 2))
        } else {
            Some((STok::BitwiseXor, i + 1))
        }
    } else if c == '~' {
        if at(s, i + 1, '^') {
            Some((STok::BitwiseXnor, i + 2))
        } else if at(s, i + 1, '&') {
            Some((STok::BitwiseNand, i + 2))
        } else if at(s, i + 1, '|') {
            Some((STok::BitwiseNor, i + 2))
        } else {
            Some((STok::Tilde, i + 1))
        }
    } else if c == '?' {
        Some((STok::Question, i + 1))
    } else if c == ':' {
        Some((STok::Colon, i + 1))
    } else if c == '{' {
        Some((STok::LBrace, i + 1))
    } else if c == '}' {
        Some((STok::RBrace, i + 1))
    } else if c == '[' {
        Some((STok::LBracket, i + 1))
    } else if c == ']' {
        Some((STok::RBracket, i + 1))
    } else if c == ',' {
        Some((STok::Comma, i + 1))
    } else if c == ';' {
        Some((STok::Semicolon, i + 1))
    } else {
        None
    }
}

/// The token that starts at the non-whitespace character `i`, and its end.
pub open spec fn lex_token(s: Seq<char>, i: int) -> Result<(STok, int), Seq<char>> {
    let c = s[i];
    match symbol_token(s, i) {
        Some(r) => Ok(r),
        None => if c == '\'' {
            match base_and_digits(s, i + 1) {
                Ok((t, e)) => Ok((STok::IntegerLiteral(seq!['\''] + t), e)),
                Err(m) => Err(m),
            }
        } else if c == '$' {
            let e = scan(s, i + 1, |c: char| is_ident_continuation(c));
            if e == i + 1 {
                Err("missing identifier after `$`"@)
            } else {
                Ok((STok::SystemIdentifier(s.subrange(i, e)), e))
            }
        } else if is_ascii_alpha(c) || c == '_' {
            let e = scan(s, i + 1, |c: char| is_ident_continuation(c));
            Ok((STok::Identifier(s.subrange(i, e)), e))
        } else if c == '.' {
            Err("unexpected character `.`"@)
        } else {
            number_token(s, i)
        },
    }
}

pub proof fn lemma_based_digit_run(s: Seq<char>, k: int, saw: bool)
    requires
        0 <= k <= s.len(),
    ensures
        k <= based_digit_run(s, k, saw).1 <= s.len(),
        based_digit_run(s, k, saw).2 == (saw || based_digit_run(s, k, saw).0.len() > 0),
    decreases s.len() - k,
{
    if k < s.len() {
        let c = s[k];
        if !(c != '?' && is_delim(c)) {
            if spec_is_whitespace(c) {
                if !saw {
                    lemma_based_digit_run(s, k + 1, saw);
                }
            } else {
                lemma_based_digit_run(s, k + 1, true);
            }
        }
    }
}

pub proof fn lemma_base_and_digits(s: Seq<char>, j: int)
    requires
        0 <= j <= s.len(),
    ensures
        base_and_digits(s, j) matches Ok((_, e)) ==> j < e <= s.len(),
{
    if !(j >= s.len() || spec_is_whitespace(s[j])) {
        if s[j] == 's' || s[j] == 'S' {
            if !(j + 1 >= s.len() || spec_is_whitespace(s[j + 1])) {
                lemma_based_digit_run(s, j + 2, false);
            }
        } else {
            lemma_based_digit_run(s, j + 1, false);
        }
    }
}

pub proof fn lemma_integer_literal_from(s: Seq<char>, i: int, j: int)
    requires
        0 <= i < j <= s.len(),
    ensures
        integer_literal_from(s, i, j) matches Ok((_, e)) ==> j <= e <= s.len(),
{
    lemma_scan_bounds(s, j, |c: char| is_literal_body(c));
    let k = scan(s, j, |c: char| is_literal_body(c));
    lemma_scan_bounds(s, k, |c: char| spec_is_whitespace(c));
    let w = scan(s, k, |c: char| spec_is_whitespace(c));
    if at(s, w, '\'') {
        lemma_base_and_digits(s, w + 1);
    }
}

pub proof fn lemma_lex_token(s: Seq<char>, i: int)
    requires
        0 <= i < s.len(),
    ensures
        lex_token(s, i) matches Ok((_, e)) ==> i < e <= s.len(),
{
    let c = s[i];
    lemma_base_and_digits(s, i + 1);
    lemma_scan_bounds(s, i + 1, |c: char| is_ident_continuation(c));
    if symbol_token(s, i) is None && c != '\'' && c != '$' && !(is_ascii_alpha(c) || c == '_') {
        lemma_integer_literal_from(s, i, i + 1);
        let p = |c: char| is_digit_or_underscore(c);
        lemma_scan_bounds(s, i + 1, p);
        let j1 = scan(s, i + 1, p);
        lemma_integer_literal_from(s, i, j1);
        lemma_scan_bounds(s, j1 + 1, p);
        let j2 = scan(s, j1 + 1, p);
        if at(s, j2, 'e') || at(s, j2, 'E') {
            lemma_exponent_end(s, j2);
        }
        if at(s, j1, 'e') || at(s, j1, 'E') {
            lemma_exponent_end(s, j1);
        }
    }
}

pub proof fn lemma_exponent_end(s: Seq<char>, j: int)
    requires
        0 <= j < s.len(),
    ensures
        exponent_end(s, j) matches Ok(e) ==> j < e <= s.len(),
{
    let k = if at(s, j + 1, '+') || at(s, j + 1, '-') {
        j + 2
    } else {
        j + 1
    };
    if 0 <= k < s.len() && is_digit(s[k]) {
        lemma_scan_bounds(s, k + 1, |c: char| is_digit_or_underscore(c));
    }
}

/// The tokens of `s` from index `i`, or the first lexical error.
pub open spec fn lex_from(s: Seq<char>, i: int) -> Result<Seq<STok>, Seq<char>>
    decreases s.len() - i,
{
    if i < 0 || i >= s.len() {
        Ok(Seq::empty())
    } else if spec_is_whitespace(s[i]) {
        lex_from(s, i + 1)
    } else {
        proof {
            lemma_lex_token(s, i);
        }
        match lex_token(s, i) {
            Ok((t, e)) => match lex_from(s, e) {
                Ok(rest) => Ok(seq![t] + rest),
                Err(m) => Err(m),
            },
            Err(m) => Err(m),
        }
    }
}

pub open spec fn spec_tokenize(s: Seq<char>) -> Result<Seq<STok>, Seq<char>> {
    lex_from(s, 0)
}

pub open spec fn spec_is_delim_fn(c: char) -> bool {
    is_delim(c)
}

fn is_expression_delimiter(c: char) -> (r: bool)
    ensures
        r == is_delim(c),
{
    c == '(' || c == ')' || c == '+' || c == '-' || c == '*' || c == '/' || c == '%' || c == '<'
        || c == '>' || c == '=' || c == '!' || c == '&' || c == '|' || c == '^' || c == '~' || c
        == '?' || c == ':' || c == '{' || c == '}' || c == '[' || c == ']' || c == ',' || c == ';'
        || c == '$'
}

/// Reads the base marker (and signed marker) and the digit run after an
/// apostrophe; `j` is the index just past the apostrophe. Appends to `literal`.
fn read_base_marker_and_digits(s: &Vec<char>, j: usize, literal: &mut String) -> (r: Result<
    usize,
    String,
>)
    requires
        j <= s@.len(),
    ensures
        match base_and_digits(s@, j as int) {
            Ok((t, e)) => r matches Ok(x) && x == e && final(literal)@ == old(literal)@ + t,
            Err(m) => r matches Err(x) && x@ == m,
        },
{
    if j >= s.len() || is_whitespace(s[j]) {
        return Err(owned("missing base after apostrophe"));
    }
    let base_ch = s[j];
    let mut k = j + 1;
    if base_ch == 's' || base_ch == 'S' {
        if k >= s.len() || is_whitespace(s[k]) {
            return Err(owned("missing base after signed marker"));
        }
        push_char(literal, base_ch);
        push_char(literal, s[k]);
        k = k + 1;
    } else {
        push_char(literal, base_ch);
    }
    let ghost k0 = k as int;
    let ghost prefix = literal@;
    let mut saw_digit = false;
    while k < s.len()
        invariant
            k0 <= k <= s@.len(),
            based_digit_run(s@, k0, false).1 == based_digit_run(s@, k as int, saw_digit).1,
            based_digit_run(s@, k0, false).2 == based_digit_run(s@, k as int, saw_digit).2,
            prefix + based_digit_run(s@, k0, false).0 == literal@ + based_digit_run(
                s@,
                k as int,
                saw_digit,
            ).0,
        ensures
            k0 <= k <= s@.len(),
            based_digit_run(s@, k as int, saw_digit) == (Seq::<char>::empty(), k as int, saw_digit),
        decreases s@.len() - k,
    {
        let c = s[k];
        if c != '?' && is_expression_delimiter(c) {
            break;
        }
        if is_whitespace(c) {
            if saw_digit {
                break;
            }
            k = k + 1;
            continue;
        }
        let ghost before = literal@;
        push_char(literal, c);
        proof {
            assert(before + based_digit_run(s@, k as int, saw_digit).0 == literal@
                + based_digit_run(s@, k + 1, true).0) by {
                assert(seq![c] + based_digit_run(s@, k + 1, true).0 == based_digit_run(
                    s@,
                    k as int,
                    saw_digit,
                ).0);
                assert(before.push(c) =~= before + seq![c]);
            }
        }
        saw_digit = true;
        k = k + 1;
    }
    proof {
        assert(literal@ =~= prefix + based_digit_run(s@, k0, false).0);
        lemma_based_digit_run(s@, k0, false);
    }
    if !saw_digit {
        return Err(owned("missing digits in integer literal"));
    }
    proof {
        assert(literal@ =~= old(literal)@ + (if base_ch == 's' || base_ch == 'S' {
            seq![s@[j as int], s@[j + 1]]
        } else {
            seq![s@[j as int]]
        }) + based_digit_run(s@, k0, false).0);
    }
    Ok(k)
}

/// Finishes an integer literal whose first part `s[i..j]` is already read.
fn read_integer_literal_from_digits(s: &Vec<char>, i: usize, j: usize) -> (r: Result<
    (String, usize),
    String,
>)
    requires
        i < j <= s@.len(),
    ensures
        match integer_literal_from(s@, i as int, j as int) {
            Ok((t, e)) => r matches Ok((lit, end)) && lit@ == t && end == e,
            Err(m) => r matches Err(x) && x@ == m,
        },
{
    let mut k = j;
    while k < s.len() && !is_whitespace(s[k]) && !is_expression_delimiter(s[k]) && s[k] != '\''
        && s[k] != '.'
        invariant
            j <= k <= s@.len(),
            scan(s@, j as int, |c: char| is_literal_body(c)) == scan(
                s@,
                k as int,
                |c: char| is_literal_body(c),
            ),
        decreases s@.len() - k,
    {
        k = k + 1;
    }
    assert(scan(s@, k as int, |c: char| is_literal_body(c)) == k);
    let mut literal = string_of(s, i, k);
    let mut w = k;
    while w < s.len() && is_whitespace(s[w])
        invariant
            k <= w <= s@.len(),
            scan(s@, k as int, |c: char| spec_is_whitespace(c)) == scan(
                s@,
                w as int,
                |c: char| spec_is_whitespace(c),
            ),
        decreases s@.len() - w,
    {
        w = w + 1;
    }
    assert(scan(s@, w as int, |c: char| spec_is_whitespace(c)) == w);
    if w < s.len() && s[w] == '\'' {
        push_char(&mut literal, '\'');
        let ghost before = literal@;
        assert(before =~= s@.subrange(i as int, k as int) + seq!['\'']);
        match read_base_marker_and_digits(s, w + 1, &mut literal) {
            Ok(e) => {
                return Ok((literal, e));
            },
            Err(m) => {
                return Err(m);
            },
        }
    }
    Ok((literal, k))
}

/// Reads the exponent of a real literal; `s[j]` is `e` or `E`.
fn consume_exponent(s: &Vec<char>, j: usize) -> (r: Result<usize, String>)
    requires
        j < s.len(),
    ensures
        match exponent_end(s@, j as int) {
            Ok(e) => r matches Ok(x) && x == e,
            Err(m) => r matches Err(x) && x@ == m,
        },
        r matches Ok(e) ==> j < e <= s@.len(),
{
    let mut k = j + 1;
    if k < s.len() && (s[k] == '+' || s[k] == '-') {
        k = k + 1;
    }
    if k < s.len() && ascii_digit(s[k]) {
        Ok(consume_digit_run(s, k + 1))
    } else {
        Err(owned("missing exponent digits in real literal"))
    }
}

fn consume_digit_run(s: &Vec<char>, j: usize) -> (e: usize)
    requires
        j <= s@.len(),
    ensures
        e == scan(s@, j as int, |c: char| is_digit_or_underscore(c)),
        j <= e <= s@.len(),
{
    let mut k = j;
    while k < s.len() && (ascii_digit(s[k]) || s[k] == '_')
        invariant
            j <= k <= s@.len(),
            scan(s@, j as int, |c: char| is_digit_or_underscore(c)) == scan(
                s@,
                k as int,
                |c: char| is_digit_or_underscore(c),
            ),
        decreases s@.len() - k,
    {
        k = k + 1;
    }
    k
}

/// An integer or real literal led by the character at `i`.
fn read_integer_or_real_literal(s: &Vec<char>, i: usize) -> (r: Result<(Token, usize), String>)
    requires
        i < s.len(),
    ensures
        match number_token(s@, i as int) {
            Ok((t, e)) => r matches Ok((tok, end)) && tok@ == t && end == e,
            Err(m) => r matches Err(x) && x@ == m,
        },
{
    if !ascii_digit(s[i]) {
        return match read_integer_literal_from_digits(s, i, i + 1) {
            Ok((lit, e)) => Ok((Token::IntegerLiteral(lit), e)),
            Err(m) => Err(m),
        };
    }
    let j1 = consume_digit_run(s, i + 1);
    if j1 < s.len() && s[j1] == '.' && j1 + 1 < s.len() && ascii_digit(s[j1 + 1]) {
        let j2 = consume_digit_run(s, j1 + 1);
        if j2 < s.len() && (s[j2] == 'e' || s[j2] == 'E') {
            return match consume_exponent(s, j2) {
                Ok(e) => Ok((Token::RealLiteral(string_of(s, i, e)), e)),
                Err(m) => Err(m),
            };
        }
        return Ok((Token::RealLiteral(string_of(s, i, j2)), j2));
    }
    if j1 < s.len() && (s[j1] == 'e' || s[j1] == 'E') {
        return match consume_exponent(s, j1) {
            Ok(e) => Ok((Token::RealLiteral(string_of(s, i, e)), e)),
            Err(m) => Err(m),
        };
    }
    match read_integer_literal_from_digits(s, i, j1) {
        Ok((lit, e)) => Ok((Token::IntegerLiteral(lit), e)),
        Err(m) => Err(m),
    }
}

/// `$name`: the `$` at `i` must be followed by identifier characters.
fn read_system_identifier(s: &Vec<char>, i: usize) -> (r: Result<(String, usize), String>)
    requires
        i < s.len(),
    ensures
        ({
            let e = scan(s@, i + 1, |c: char| is_ident_continuation(c));
            if e == i + 1 {
                r matches Err(x) && x@ == "missing identifier after `$`"@
            } else {
                r matches Ok((name, end)) && name@ == s@.subrange(i as int, e) && end == e
            }
        }),
{
    let e = read_identifier_chars(s, i + 1);
    if e == i + 1 {
        return Err(owned("missing identifier after `$`"));
    }
    Ok((string_of(s, i, e), e))
}

fn read_identifier_chars(s: &Vec<char>, j: usize) -> (e: usize)
    requires
        j <= s@.len(),
    ensures
        e == scan(s@, j as int, |c: char| is_ident_continuation(c)),
        j <= e <= s@.len(),
{
    let mut k = j;
    while k < s.len() && (ascii_alnum(s[k]) || s[k] == '_' || s[k] == '$')
        invariant
            j <= k <= s@.len(),
            scan(s@, j as int, |c: char| is_ident_continuation(c)) == scan(
                s@,
                k as int,
                |c: char| is_ident_continuation(c),
            ),
        decreases s@.len() - k,
    {
        k = k + 1;
    }
    k
}

/// A simple identifier whose first character (letter or `_`) is at `i`.
fn read_simple_identifier(s: &Vec<char>, i: usize) -> (r: (Token, usize))
    requires
        i < s.len(),
    ensures
        ({
            let e = scan(s@, i + 1, |c: char| is_ident_continuation(c));
            r.0@ == STok::Identifier(s@.subrange(i as int, e)) && r.1 == e
        }),
{
    let e = read_identifier_chars(s, i + 1);
    (Token::Identifier(string_of(s, i, e)), e)
}

fn peek_is(s: &Vec<char>, j: usize, c: char) -> (r: bool)
    ensures
        r == at(s@, j as int, c),
{
    j < s.len() && s[j] == c
}

/// Operator or punctuation token at `i`, longest match first.
fn read_symbol(s: &Vec<char>, i: usize) -> (r: Option<(Token, usize)>)
    requires
        i < s.len(),
    ensures
        match symbol_token(s@, i as int) {
            Some((t, e)) => r matches Some((tok, end)) && tok@ == t && end == e,
            None => r is None,
        },
{
    let c = s[i];
    if c == '(' {
        Some((Token::LParen, i + 1))
    } else if c == ')' {
        Some((Token::RParen, i + 1))
    } else if c == '+' {
        Some((Token::Plus, i + 1))
    } else if c == '-' {
        Some((Token::Minus, i + 1))
    } else if c == '/' {
        Some((Token::Slash, i + 1))
    } else if c == '%' {
        Some((Token::Percent, i + 1))
    } else if c == '*' {
        if peek_is(s, i + 1, '*') {
            Some((Token::Power, i + 2))
        } else {
            Some((Token::Star, i + 1))
        }
    } else if c == '<' {
        if peek_is(s, i + 1, '<') {
            if peek_is(s, i + 2, '<') {
                Some((Token::ArithmeticShiftLeft, i + 3))
            } else {
                Some((Token::LogicalShiftLeft, i + 2))
            }
        } else if peek_is(s, i + 1, '=') {
            Some((Token::LessEqual, i + 2))
        } else {
            Some((Token::Less, i + 1))
        }
    } else if c == '>' {
        if peek_is(s, i + 1, '>') {
            if peek_is(s, i + 2, '>') {
                Some((Token::ArithmeticShiftRight, i + 3))
            } else {
                Some((Token::LogicalShiftRight, i + 2))
            }
        } else if peek_is(s, i + 1, '=') {
            Some((Token::GreaterEqual, i + 2))
        } else {
            Some((Token::Greater, i + 1))
        }
    } else if c == '=' {
        if peek_is(s, i + 1, '=') {
            if peek_is(s, i + 2, '=') {
                Some((Token::CaseEqual, i + 3))
            } else {
                Some((Token::EqualEqual, i + 2))
            }
        } else {
            Some((Token::Assign, i + 1))
        }
    } else if c == '!' {
        if peek_is(s, i + 1, '=') {
            if peek_is(s, i + 2, '=') {
                Some((Token::CaseNotEqual, i + 3))
            } else {
                Some((Token::NotEqual, i + 2))
            }
        } else {
            Some((Token::Bang, i + 1))
        }
    } else if c == '&' {
        if peek_is(s, i + 1, '&') {
            Some((Token::LogicalAnd, i + 2))
        } else {
            Some((Token::BitwiseAnd, i + 1))
        }
    } else if c == '|' {
        if peek_is(s, i + 1, '|') {
            Some((Token::LogicalOr, i + 2))
        } else {
            Some((Token::BitwiseOr, i + 1))
        }
    } else if c == '^' {
        if peek_is(s, i + 1, '~') {
            Some((Token::BitwiseXnor, i + 2))
        } else {
            Some((Token::BitwiseXor, i + 1))
        }
    } else if c == '~' {
        if peek_is(s, i + 1, '^') {
            Some((Token::BitwiseXnor, i + 2))
        } else if peek_is(s, i + 1, '&') {
            Some((Token::BitwiseNand, i + 2))
        } else if peek_is(s, i + 1, '|') {
            Some((Token::BitwiseNor, i + 2))
        } else {
            Some((Token::Tilde, i + 1))
        }
    } else if c == '?' {
        Some((Token::Question, i + 1))
    } else if c == ':' {
        Some((Token::Colon, i + 1))
    } else if c == '{' {
        Some((Token::LBrace, i + 1))
    } else if c == '}' {
        Some((Token::RBrace, i + 1))
    } else if c == '[' {
        Some((Token::LBracket, i + 1))
    } else if c == ']' {
        Some((Token::RBracket, i + 1))
    } else if c == ',' {
        Some((Token::Comma, i + 1))
    } else if c == ';' {
        Some((Token::Semicolon, i + 1))
    } else {
        None
    }
}

/// Splits `input` into tokens, or reports the first lexical error.
pub fn tokenize(input: &str) -> (r: Result<Vec<Token>, String>)
    ensures
        match spec_tokenize(input@) {
            Ok(ts) => r matches Ok(v) && toks_view(v@) == ts,
            Err(m) => r matches Err(x) && x@ == m,
        },
{
    let s = chars_of(input);
    let mut tokens: Vec<Token> = Vec::new();
    let mut i: usize = 0;
    while i < s.len()
        invariant
            i <= s@.len(),
            s@ == input@,
            match lex_from(s@, 0) {
                Ok(all) => match lex_from(s@, i as int) {
                    Ok(rest) => all == toks_view(tokens@) + rest,
                    Err(_) => false,
                },
                Err(m) => lex_from(s@, i as int) == Err::<Seq<STok>, Seq<char>>(m),
            },
        decreases s@.len() - i,
    {
        let c = s[i];
        if is_whitespace(c) {
            i = i + 1;
            continue;
        }
        proof {
            lemma_lex_token(s@, i as int);
        }
        let step: Result<(Token, usize), String> = match read_symbol(&s, i) {
            Some(r) => Ok(r),
            None => {
                if c == '\'' {
                    let mut lit = owned("'");
                    proof {
                        reveal_strlit("'");
                    }
                    match read_base_marker_and_digits(&s, i + 1, &mut lit) {
                        Ok(e) => {
                            assert(lit@ =~= seq!['\''] + base_and_digits(s@, i + 1)->Ok_0.0);
                            Ok((Token::IntegerLiteral(lit), e))
                        },
                        Err(m) => Err(m),
                    }
                } else if c == '$' {
                    match read_system_identifier(&s, i) {
                        Ok((name, e)) => Ok((Token::SystemIdentifier(name), e)),
                        Err(m) => Err(m),
                    }
                } else if ascii_alpha(c) || c == '_' {
                    Ok(read_simple_identifier(&s, i))
                } else if c == '.' {
                    proof {
                        reveal_strlit("unexpected character `.`");
                    }
                    Err(owned("unexpected character `.`"))
                } else {
                    read_integer_or_real_literal(&s, i)
                }
            },
        };
        match step {
            Ok((tok, e)) => {
                proof {
                    assert(lex_token(s@, i as int) == Ok::<(STok, int), Seq<char>>(
                        (tok@, e as int),
                    ));
                }
                let ghost before = tokens@;
                tokens.push(tok);
                proof {
                    assert(toks_view(tokens@) =~= toks_view(before) + seq![tok@]);
                    match lex_from(s@, e as int) {
                        Ok(rest) => {
                            assert(seq![tok@] + rest =~= lex_from(s@, i as int)->Ok_0);
                            assert(toks_view(before) + (seq![tok@] + rest) =~= toks_view(
                                tokens@,
                            ) + rest);
                        },
                        Err(_) => {},
                    }
                }
                i = e;
            },
            Err(m) => {
                return Err(m);
            },
        }
    }
    proof {
        assert(toks_view(tokens@) + Seq::<STok>::empty() =~= toks_view(tokens@));
    }
    Ok(tokens)
}

/// How an operator or punctuation token is written; empty for the tokens
/// that carry their own text (literals and identifiers).
pub open spec fn symbol_text(t: STok) -> Seq<char> {
    match t {
        STok::LParen => seq!['('],
        STok::RParen => seq![')'],
        STok::LBracket => seq!['['],
        STok::RBracket => seq![']'],
        STok::Assign => seq!['='],
        STok::Plus => seq!['+'],
        STok::Minus => seq!['-'],
        STok::Star => seq!['*'],
        STok::Slash => seq!['/'],
        STok::Percent => seq!['%'],
        STok::Power => seq!['*', '*'],
        STok::Less => seq!['<'],
        STok::Greater => seq!['>'],
        STok::LessEqual => seq!['<', '='],
        STok::GreaterEqual => seq!['>', '='],
        STok::EqualEqual => seq!['=', '='],
        STok::NotEqual => seq!['!', '='],
        STok::CaseEqual => seq!['=', '=', '='],
        STok::CaseNotEqual => seq!['!', '=', '='],
        STok::Bang => seq!['!'],
        STok::LogicalAnd => seq!['&', '&'],
        STok::LogicalOr => seq!['|', '|'],
        STok::Tilde => seq!['~'],
        STok::BitwiseAnd => seq!['&'],
        STok::BitwiseOr => seq!['|'],
        STok::BitwiseXor => seq!['^'],
        STok::BitwiseXnor => seq!['~', '^'],
        STok::BitwiseNand => seq!['~', '&'],
        STok::BitwiseNor => seq!['~', '|'],
        STok::LogicalShiftLeft => seq!['<', '<'],
        STok::LogicalShiftRight => seq!['>', '>'],
        STok::ArithmeticShiftLeft => seq!['<', '<', '<'],
        STok::ArithmeticShiftRight => seq!['>', '>', '>'],
        STok::Question => seq!['?'],
        STok::Colon => seq![':'],
        STok::LBrace => seq!['{'],
        STok::RBrace => seq!['}'],
        STok::Comma => seq![','],
        STok::Semicolon => seq![';'],
        STok::PlusColon => seq!['+', ':'],
        STok::MinusColon => seq!['-', ':'],
        _ => Seq::empty(),
    }
}

/// Whether `p` is a spelling of the token `t`: its text, or `^~` for `~^`.
pub open spec fn spells(p: Seq<char>, t: STok) -> bool {
    symbol_text(t).len() > 0 && (p == symbol_text(t) || (t == STok::BitwiseXnor && p == seq![
        '^',
        '~',
    ]))
}

/// Whether the text of `s` at `i` starts with `p`.
pub open spec fn spelled_at(s: Seq<char>, i: int, p: Seq<char>) -> bool {
    0 <= i && i + p.len() <= s.len() && s.subrange(i, i + p.len()) == p
}

/// An operator or punctuation token covers exactly the characters that spell
/// it (`>=` is `GreaterEqual`, never `>` with a character lost); a token read
/// where no symbol starts is no operator or punctuation token; and the
/// lexer takes the longest spelling that the text at `i` offers (`+:` and
/// `-:` are left to the parser as two tokens).
pub proof fn lemma_symbol_spelling(s: Seq<char>, i: int)
    requires
        0 <= i < s.len(),
    ensures
        symbol_token(s, i) matches Some((t, e)) ==> i < e <= s.len() && spells(
            s.subrange(i, e),
            t,
        ),
        lex_token(s, i) matches Ok((t, e)) ==> (symbol_text(t).len() > 0 ==> i < e <= s.len()
            && spells(s.subrange(i, e), t)),
        forall|t2: STok|
            #![trigger symbol_text(t2)]
            symbol_text(t2).len() > 0 && t2 != STok::PlusColon && t2 != STok::MinusColon
                && spelled_at(s, i, symbol_text(t2)) ==> (symbol_token(s, i) matches Some((t, e))
                && symbol_text(t2).len() <= e - i),
{
    if let Some((t, e)) = symbol_token(s, i) {
        let c = s[i];
        if c == '(' {
            assert(s.subrange(i, e) =~= symbol_text(t));
        } else if c == ')' {
            assert(s.subrange(i, e) =~= symbol_text(t));
        } else if c == '+' {
            assert(s.subrange(i, e) =~= symbol_text(t));
        } else if c == '-' {
            assert(s.subrange(i, e) =~= symbol_text(t));
        } else if c == '/' {
            assert(s.subrange(i, e) =~= symbol_text(t));
        } else if c == '%' {
            assert(s.subrange(i, e) =~= symbol_text(t));
        } else if c == '*' {
            assert(s.subrange(i, e) =~= symbol_text(t));
        } else if c == '<' {
            assert(s.subrange(i, e) =~= symbol_text(t));
        } else if c == '>' {
            assert(s.subrange(i, e) =~= symbol_text(t));
        } else if c == '=' {
            assert(s.subrange(i, e) =~= symbol_text(t));
        } else if c == '!' {
            assert(s.subrange(i, e) =~= symbol_text(t));
        } else if c == '&' {
            assert(s.subrange(i, e) =~= symbol_text(t));
        } else if c == '|' {
            assert(s.subrange(i, e) =~= symbol_text(t));
        } else if c == '^' {
            if at(s, i + 1, '~') {
                assert(s.subrange(i, e) =~= seq!['^', '~']);
            } else {
                assert(s.subrange(i, e) =~= symbol_text(t));
            }
        } else if c == '~' {
            assert(s.subrange(i, e) =~= symbol_text(t));
        } else if c == '?' {
            assert(s.subrange(i, e) =~= symbol_text(t));
        } else if c == ':' {
            assert(s.subrange(i, e) =~= symbol_text(t));
        } else if c == '{' {
            assert(s.subrange(i, e) =~= symbol_text(t));
        } else if c == '}' {
            assert(s.subrange(i, e) =~= symbol_text(t));
        } else if c == '[' {
            assert(s.subrange(i, e) =~= symbol_text(t));
        } else if c == ']' {
            assert(s.subrange(i, e) =~= symbol_text(t));
        } else if c == ',' {
            assert(s.subrange(i, e) =~= symbol_text(t));
        } else if c == ';' {
            assert(s.subrange(i, e) =~= symbol_text(t));
        }
    }
    assert forall|t2: STok|
        #![trigger symbol_text(t2)]
        symbol_text(t2).len() > 0 && t2 != STok::PlusColon && t2 != STok::MinusColon
            && spelled_at(s, i, symbol_text(t2)) implies (symbol_token(s, i) matches Some((t, e))
            && symbol_text(t2).len() <= e - i) by {
        let p = symbol_text(t2);
        assert(s[i] == p[0]) by {
            assert(s.subrange(i, i + p.len())[0] == s[i]);
        }
        if p.len() > 1 {
            assert(s[i + 1] == p[1]) by {
                assert(s.subrange(i, i + p.len())[1] == s[i + 1]);
            }
        }
        if p.len() > 2 {
            assert(s[i + 2] == p[2]) by {
                assert(s.subrange(i, i + p.len())[2] == s[i + 2]);
            }
        }
    }
}

/// `t` with its whitespace left out.
pub open spec fn no_ws(t: Seq<char>) -> Seq<char>
    decreases t.len(),
{
    if t.len() == 0 {
        Seq::empty()
    } else if spec_is_whitespace(t[0]) {
        no_ws(t.drop_first())
    } else {
        seq![t[0]] + no_ws(t.drop_first())
    }
}

proof fn lemma_no_ws_concat(a: Seq<char>, b: Seq<char>)
    ensures
        no_ws(a + b) == no_ws(a) + no_ws(b),
    decreases a.len(),
{
    if a.len() == 0 {
        assert(a + b =~= b);
        assert(no_ws(a) =~= Seq::<char>::empty());
        assert(Seq::<char>::empty() + no_ws(b) =~= no_ws(b));
    } else {
        lemma_no_ws_concat(a.drop_first(), b);
        assert((a + b).drop_first() =~= a.drop_first() + b);
        assert((a + b)[0] == a[0]);
        if !spec_is_whitespace(a[0]) {
            assert(seq![a[0]] + (no_ws(a.drop_first()) + no_ws(b)) =~= (seq![a[0]] + no_ws(
                a.drop_first(),
            )) + no_ws(b));
        }
    }
}

proof fn lemma_no_ws_plain(t: Seq<char>)
    requires
        forall|k: int| 0 <= k < t.len() ==> !spec_is_whitespace(#[trigger] t[k]),
    ensures
        no_ws(t) == t,
    decreases t.len(),
{
    if t.len() > 0 {
        assert forall|k: int| 0 <= k < t.drop_first().len() implies !spec_is_whitespace(
            #[trigger] t.drop_first()[k],
        ) by {
            assert(t.drop_first()[k] == t[k + 1]);
        }
        lemma_no_ws_plain(t.drop_first());
        assert(!spec_is_whitespace(t[0]));
        assert(seq![t[0]] + t.drop_first() =~= t);
    }
}

proof fn lemma_no_ws_blank(t: Seq<char>)
    requires
        forall|k: int| 0 <= k < t.len() ==> spec_is_whitespace(#[trigger] t[k]),
    ensures
        no_ws(t) == Seq::<char>::empty(),
    decreases t.len(),
{
    if t.len() > 0 {
        assert forall|k: int| 0 <= k < t.drop_first().len() implies spec_is_whitespace(
            #[trigger] t.drop_first()[k],
        ) by {
            assert(t.drop_first()[k] == t[k + 1]);
        }
        lemma_no_ws_blank(t.drop_first());
        assert(spec_is_whitespace(t[0]));
    }
}

proof fn lemma_digit_run_text(s: Seq<char>, k: int, saw: bool)
    requires
        0 <= k <= s.len(),
    ensures
        based_digit_run(s, k, saw).0 == no_ws(s.subrange(k, based_digit_run(s, k, saw).1)),
    decreases s.len() - k,
{
    lemma_based_digit_run(s, k, saw);
    let e = based_digit_run(s, k, saw).1;
    if k < s.len() {
        let c = s[k];
        if !(c != '?' && is_delim(c)) && !(spec_is_whitespace(c) && saw) {
            let saw2 = if spec_is_whitespace(c) {
                saw
            } else {
                true
            };
            lemma_digit_run_text(s, k + 1, saw2);
            lemma_based_digit_run(s, k + 1, saw2);
            assert(s.subrange(k, e).drop_first() =~= s.subrange(k + 1, e));
            assert(s.subrange(k, e)[0] == c);
        } else {
            assert(s.subrange(k, e) =~= Seq::<char>::empty());
        }
    } else {
        assert(s.subrange(k, e) =~= Seq::<char>::empty());
    }
}

proof fn lemma_base_and_digits_text(s: Seq<char>, j: int)
    requires
        0 <= j <= s.len(),
    ensures
        base_and_digits(s, j) matches Ok((t, e)) ==> t == no_ws(s.subrange(j, e)),
{
    lemma_base_and_digits(s, j);
    if let Ok((t, e)) = base_and_digits(s, j) {
        let k = if s[j] == 's' || s[j] == 'S' {
            j + 2
        } else {
            j + 1
        };
        lemma_digit_run_text(s, k, false);
        lemma_based_digit_run(s, k, false);
        let m = s.subrange(j, k);
        assert(s.subrange(j, e) =~= m + s.subrange(k, e));
        lemma_no_ws_concat(m, s.subrange(k, e));
        lemma_no_ws_plain(m);
        if s[j] == 's' || s[j] == 'S' {
            assert(m =~= seq![s[j], s[j + 1]]);
        } else {
            assert(m =~= seq![s[j]]);
        }
    }
}

proof fn lemma_integer_literal_text(s: Seq<char>, i: int, j: int)
    requires
        0 <= i < j <= s.len(),
        forall|k: int| i <= k < j ==> !spec_is_whitespace(#[trigger] s[k]),
    ensures
        integer_literal_from(s, i, j) matches Ok((t, e)) ==> t == no_ws(s.subrange(i, e)),
{
    let pb = |c: char| is_literal_body(c);
    let pw = |c: char| spec_is_whitespace(c);
    lemma_scan_bounds(s, j, pb);
    let k = scan(s, j, pb);
    lemma_scan_bounds(s, k, pw);
    let w = scan(s, k, pw);
    let a = s.subrange(i, k);
    assert forall|q: int| 0 <= q < a.len() implies !spec_is_whitespace(#[trigger] a[q]) by {
        assert(a[q] == s[i + q]);
        if i + q >= j {
            assert(pb(s[i + q]));
        }
    }
    lemma_no_ws_plain(a);
    if at(s, w, '\'') {
        lemma_base_and_digits_text(s, w + 1);
        lemma_base_and_digits(s, w + 1);
        if let Ok((tail, e)) = base_and_digits(s, w + 1) {
            let b = s.subrange(k, w);
            assert forall|q: int| 0 <= q < b.len() implies spec_is_whitespace(#[trigger] b[q]) by {
                assert(b[q] == s[k + q]);
                assert(pw(s[k + q]));
            }
            lemma_no_ws_blank(b);
            let q = seq!['\''];
            assert(!spec_is_whitespace('\''));
            lemma_no_ws_plain(q);
            let d = s.subrange(w + 1, e);
            assert(s.subrange(i, e) =~= a + (b + (q + d)));
            lemma_no_ws_concat(q, d);
            lemma_no_ws_concat(b, q + d);
            lemma_no_ws_concat(a, b + (q + d));
            assert(no_ws(s.subrange(i, e)) =~= a + seq!['\''] + tail);
        }
    }
}

/// A literal or identifier token carries exactly the characters it spans,
/// leaving out only the whitespace an integer literal may hold (`8 'h ff`).
pub proof fn lemma_word_token_text(s: Seq<char>, i: int)
    requires
        0 <= i < s.len(),
        !spec_is_whitespace(s[i]),
    ensures
        lex_token(s, i) matches Ok((t, e)) ==> match t {
            STok::IntegerLiteral(x) => x == no_ws(s.subrange(i, e)),
            STok::RealLiteral(x) => x == s.subrange(i, e),
            STok::Identifier(x) => x == s.subrange(i, e),
            STok::SystemIdentifier(x) => x == s.subrange(i, e),
            _ => true,
        },
{
    let c = s[i];
    if symbol_token(s, i) is None {
        if c == '\'' {
            lemma_base_and_digits_text(s, i + 1);
            lemma_base_and_digits(s, i + 1);
            if let Ok((t, e)) = base_and_digits(s, i + 1) {
                let q = seq!['\''];
                lemma_no_ws_plain(q);
                assert(s.subrange(i, e) =~= q + s.subrange(i + 1, e));
                lemma_no_ws_concat(q, s.subrange(i + 1, e));
            }
        } else if c != '$' && !(is_ascii_alpha(c) || c == '_') && c != '.' {
            let p = |c: char| is_digit_or_underscore(c);
            if !is_digit(c) {
                lemma_integer_literal_text(s, i, i + 1);
            } else {
                lemma_scan_bounds(s, i + 1, p);
                let j1 = scan(s, i + 1, p);
                assert forall|k: int| i <= k < j1 implies !spec_is_whitespace(#[trigger] s[k]) by {
                    if k > i {
                        assert(p(s[k]));
                    }
                }
                lemma_integer_literal_text(s, i, j1);
            }
        }
    }
}

} // verus!
