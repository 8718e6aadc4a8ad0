//! ANSI colouring of REPL text: the prompt, and an input line painted by the
//! classes of its tokens.
use crate::highlight::{TokenClass, lemma_token_advances, next_token, token_at};
use crate::text::{append_str, chars_of, owned, push_char, is_whitespace, spec_is_whitespace, string_of};
use vstd::prelude::*;

verus! {

/// `s` between the SGR sequence `open` and the reset sequence.
pub open spec fn painted(open: Seq<char>, s: Seq<char>) -> Seq<char> {
    open + s + "\x1b[0m"@
}

fn paint(open: &str, s: &str) -> (r: String)
    ensures
        r@ == painted(open@, s@),
{
    let mut r = owned(open);
    append_str(&mut r, s);
    append_str(&mut r, "\x1b[0m");
    r
}

/// `s` in green.
pub fn green(s: &str) -> (r: String)
    ensures
        r@ == painted("\x1b[32m"@, s@),
{
    paint("\x1b[32m", s)
}

/// `s` in red.
pub fn red(s: &str) -> (r: String)
    ensures
        r@ == painted("\x1b[31m"@, s@),
{
    paint("\x1b[31m", s)
}

/// `s` in yellow.
pub fn yellow(s: &str) -> (r: String)
    ensures
        r@ == painted("\x1b[33m"@, s@),
{
    paint("\x1b[33m", s)
}

/// `s` in magenta.
pub fn magenta(s: &str) -> (r: String)
    ensures
        r@ == painted("\x1b[35m"@, s@),
{
    paint("\x1b[35m", s)
}

/// `s` dimmed.
pub fn dim(s: &str) -> (r: String)
    ensures
        r@ == painted("\x1b[2m"@, s@),
{
    paint("\x1b[2m", s)
}

/// The text of one token as it is shown: numbers yellow, system identifiers
/// magenta, comments dim, unrecognised characters red, the rest unchanged.
pub open spec fn shown(class: TokenClass, t: Seq<char>) -> Seq<char> {
    match class {
        TokenClass::Number => painted("\x1b[33m"@, t),
        TokenClass::SystemIdent => painted("\x1b[35m"@, t),
        TokenClass::Comment => painted("\x1b[2m"@, t),
        TokenClass::Error => painted("\x1b[31m"@, t),
        _ => t,
    }
}

/// The characters of `s` from `i` on, each token shown by its class and the
/// whitespace between tokens kept as it is.
pub open spec fn shown_from(s: Seq<char>, i: int) -> Seq<char>
    decreases s.len() - i,
{
    if i < 0 || i >= s.len() {
        Seq::empty()
    } else if spec_is_whitespace(s[i]) {
        seq![s[i]] + shown_from(s, i + 1)
    } else {
        let (e, class) = token_at(s, i);
        proof {
            lemma_token_advances(s, i);
        }
        shown(class, s.subrange(i, e)) + shown_from(s, e)
    }
}

fn show_token(class: TokenClass, t: &str) -> (r: String)
    ensures
        r@ == shown(class, t@),
{
    match class {
        TokenClass::Number => yellow(t),
        TokenClass::SystemIdent => magenta(t),
        TokenClass::Comment => dim(t),
        TokenClass::Error => red(t),
        _ => owned(t),
    }
}

/// `line` with its tokens coloured by class.
pub fn highlight_line(line: &str) -> (r: String)
    ensures
        r@ == shown_from(line@, 0),
{
    let s = chars_of(line);
    let mut out = String::new();
    let mut i: usize = 0;
    assert(out@ + shown_from(s@, 0) =~= shown_from(s@, 0));
    while i < s.len()
        invariant
            i <= s@.len(),
            s@ == line@,
            shown_from(s@, 0) == out@ + shown_from(s@, i as int),
        decreases s@.len() - i,
    {
        let c = s[i];
        if is_whitespace(c) {
            let ghost before = out@;
            push_char(&mut out, c);
            assert(before + shown_from(s@, i as int) =~= out@ + shown_from(s@, i + 1));
            i = i + 1;
        } else {
            let (e, class) = next_token(&s, i);
            let t = string_of(&s, i, e);
            let x = show_token(class, t.as_str());
            let ghost before = out@;
            append_str(&mut out, x.as_str());
            assert(before + shown_from(s@, i as int) =~= out@ + shown_from(s@, e as int));
            i = e;
        }
    }
    assert(out@ + shown_from(s@, i as int) =~= out@);
    out
}

} // verus!
