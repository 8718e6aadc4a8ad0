//! A Verilog expression calculator: lexer, parser, syntax-tree rendering, the
//! line highlighter of its REPL, and the four-state integer evaluator with its
//! session of variables.
use vstd::prelude::*;

pub mod text;
pub mod highlight;
pub mod lexer;
pub mod bignum;
pub mod ast;
pub mod literal;
pub mod parser;
pub mod truncate;
pub mod render;
pub mod system;
pub mod color;
pub mod width;
pub mod value;
pub mod reduction;
pub mod select;
pub mod canonical;
pub mod eval;

use crate::ast::{SStmt, Stmt, view_stmt, view_stmts};
use crate::bignum::decimal_string;
use crate::parser::{parse_statements, reversed, spec_parse_statements};
use crate::render::{decimal_text, r_stmts, render_stmts};
use crate::text::{append_str, chars_of, owned, push_char, trim, trimmed};
use crate::truncate::{lemma_trunc_stmt_keeps_shallow, stmt_within, trunc_stmt, truncate_stmt};

verus! {

/// What one evaluated REPL input produces: bytes written by system tasks, the
/// value to show, and whether the session should end.
#[derive(Debug, PartialEq, Eq)]
pub struct Evaluation {
    pub task_output: Vec<u8>,
    pub output: String,
    pub should_exit: bool,
}

/// Depth at which `parse_input` caps the rendered syntax tree.
pub const DEFAULT_DISPLAY_DEPTH: usize = 64;

/// What `parse_input_with_depth` yields for `input` and the cap `max`: nothing
/// for blank input, the rendered statements (each capped at depth `max`), or
/// the syntax error.
pub open spec fn spec_parse_input(input: Seq<char>, max: nat) -> Result<Seq<char>, Seq<char>> {
    let t = trimmed(input);
    if t.len() == 0 {
        Ok(Seq::empty())
    } else {
        match spec_parse_statements(t) {
            Err(m) => Err("Syntax error: "@ + m),
            Ok((ss, _)) => Ok(r_stmts(ss.map_values(|s: SStmt| trunc_stmt(s, max)))),
        }
    }
}

/// Parses `input` (surrounding whitespace ignored) without evaluating it and
/// renders the statements, every sub-tree at depth `max_depth` or deeper shown
/// as `Truncated`. Blank input gives an empty string.
pub fn parse_input_with_depth(input: &str, max_depth: usize) -> (r: Result<String, String>)
    ensures
        match spec_parse_input(input@, max_depth as nat) {
            Ok(s) => r matches Ok(x) && x@ == s,
            Err(m) => r matches Err(x) && x@ == m,
        },
{
    let t = trim(input);
    let cs = chars_of(t.as_str());
    if cs.len() == 0 {
        return Ok(String::new());
    }
    let (stmts, _trailing) = match parse_statements(t.as_str()) {
        Ok(x) => x,
        Err(e) => {
            let mut m = owned("Syntax error: ");
            append_str(&mut m, e.as_str());
            return Err(m);
        },
    };
    let ghost orig = stmts@;
    let n = stmts.len();
    let mut rest = reversed(stmts);
    let mut out: Vec<Stmt> = Vec::new();
    let mut k: usize = 0;
    while k < n
        invariant
            k <= n == orig.len(),
            rest@.len() == n - k,
            forall|i: int| 0 <= i < n - k ==> #[trigger] rest@[i] == orig[n - 1 - i],
            out@.len() == k,
            forall|i: int|
                0 <= i < k ==> #[trigger] view_stmt(out@[i]) == trunc_stmt(
                    view_stmt(orig[i]),
                    max_depth as nat,
                ),
        decreases n - k,
    {
        let s = rest.pop().unwrap();
        assert(s == orig[k as int]);
        out.push(truncate_stmt(s, max_depth));
        k = k + 1;
    }
    assert(view_stmts(out@) =~= view_stmts(orig).map_values(
        |s: SStmt| trunc_stmt(s, max_depth as nat),
    ));
    Ok(render_stmts(&out))
}

/// `parse_input_with_depth` at `DEFAULT_DISPLAY_DEPTH`.
pub fn parse_input(input: &str) -> (r: Result<String, String>)
    ensures
        match spec_parse_input(input@, DEFAULT_DISPLAY_DEPTH as nat) {
            Ok(s) => r matches Ok(x) && x@ == s,
            Err(m) => r matches Err(x) && x@ == m,
        },
{
    parse_input_with_depth(input, DEFAULT_DISPLAY_DEPTH)
}

/// The REPL prompt before input line `index`.
pub open spec fn prompt_text(index: nat) -> Seq<char> {
    "In ["@ + decimal_string(index) + "]: "@
}

/// What the parse-only REPL prints after reading `line` as line `index`.
pub open spec fn parse_reply_text(index: nat, line: Seq<char>, max: nat) -> Seq<char> {
    match spec_parse_input(line, max) {
        Ok(ast) => if ast.len() == 0 {
            "\n"@
        } else {
            out_prefix_text(index) + ast + "\n"@ + "\n"@
        },
        Err(m) => m + "\n"@ + "\n"@,
    }
}

/// Prompts and replies for the lines `ls`, numbered from 0.
pub open spec fn parse_session_body(ls: Seq<Seq<char>>, max: nat) -> Seq<char>
    decreases ls.len(),
{
    if ls.len() == 0 {
        Seq::empty()
    } else {
        let i = (ls.len() - 1) as nat;
        parse_session_body(ls.drop_last(), max) + prompt_text(i) + parse_reply_text(
            i,
            ls.last(),
            max,
        )
    }
}

/// Everything the parse-only REPL writes when it reads the lines `ls` and then
/// reaches the end of its input: a prompt and a reply per line, and a last
/// prompt.
pub open spec fn parse_session(ls: Seq<Seq<char>>, max: nat) -> Seq<char> {
    parse_session_body(ls, max) + prompt_text(ls.len())
}

/// The prompt `In [index]: `.
pub fn prompt(index: usize) -> (r: String)
    ensures
        r@ == prompt_text(index as nat),
{
    let mut r = owned("In [");
    append_str(&mut r, decimal_text(index).as_str());
    append_str(&mut r, "]: ");
    r
}

pub open spec fn out_prefix_text(index: nat) -> Seq<char> {
    "Out["@ + decimal_string(index) + "]: "@
}

/// The label `Out[index]: ` that precedes the answer to input line `index`.
pub fn out_prefix(index: usize) -> (r: String)
    ensures
        r@ == out_prefix_text(index as nat),
{
    let mut r = owned("Out[");
    append_str(&mut r, decimal_text(index).as_str());
    append_str(&mut r, "]: ");
    r
}

/// The parse-only REPL's answer to input line `index`: an empty line for
/// blank input, `Out[index]: ` and the rendered statements, or the error,
/// each followed by a blank line.
pub fn parse_reply(index: usize, line: &str, max_depth: usize) -> (r: String)
    ensures
        r@ == parse_reply_text(index as nat, line@, max_depth as nat),
{
    match parse_input_with_depth(line, max_depth) {
        Ok(ast) => {
            let cs = chars_of(ast.as_str());
            if cs.len() == 0 {
                owned("\n")
            } else {
                let mut r = out_prefix(index);
                append_str(&mut r, ast.as_str());
                append_str(&mut r, "\n");
                append_str(&mut r, "\n");
                r
            }
        },
        Err(m) => {
            let mut r = m;
            append_str(&mut r, "\n");
            append_str(&mut r, "\n");
            r
        },
    }
}

/// The parse-only REPL over the input lines `lines`: the whole text it writes,
/// prompts and replies in turn, ending with the prompt at which the input ran
/// out.
pub fn run_parse_repl(lines: &Vec<String>, max_depth: usize) -> (r: String)
    ensures
        r@ == parse_session(lines@.map_values(|s: String| s@), max_depth as nat),
{
    let ghost ls = lines@.map_values(|s: String| s@);
    let mut out = String::new();
    let mut k: usize = 0;
    assert(ls.take(0) =~= Seq::<Seq<char>>::empty());
    while k < lines.len()
        invariant
            k <= lines@.len() == ls.len(),
            ls == lines@.map_values(|s: String| s@),
            out@ == parse_session_body(ls.take(k as int), max_depth as nat),
        decreases lines@.len() - k,
    {
        append_str(&mut out, prompt(k).as_str());
        append_str(&mut out, parse_reply(k, lines[k].as_str(), max_depth).as_str());
        assert(ls.take(k + 1).drop_last() =~= ls.take(k as int));
        k = k + 1;
    }
    assert(ls.take(k as int) =~= ls);
    append_str(&mut out, prompt(k).as_str());
    out
}

/// The characters of a task's output bytes.
pub open spec fn bytes_text(t: Seq<u8>) -> Seq<char> {
    Seq::new(t.len(), |j: int| t[j] as char)
}

/// What the calculator REPL prints from input line `i` on, with the
/// variables `vs`: a prompt, then the task output and `Out[i]: value` (or a
/// bare newline when nothing is shown), or the error; `$finish` ends it, and
/// so does the end of the input, after one last prompt.
pub open spec fn repl_from(vs: crate::eval::Vars, ls: Seq<Seq<char>>, i: nat) -> Seq<char>
    decreases ls.len() - i,
{
    if i >= ls.len() {
        prompt_text(i)
    } else {
        let (r, nv) = crate::eval::spec_eval(vs, ls[i as int]);
        prompt_text(i) + match r {
            Ok((t, o, x)) => bytes_text(t) + (if o.len() == 0 {
                "\n"@
            } else {
                out_prefix_text(i) + o + "\n"@ + "\n"@
            }) + (if x {
                Seq::empty()
            } else {
                repl_from(nv, ls, i + 1)
            }),
            Err(m) => m + "\n"@ + "\n"@ + repl_from(nv, ls, i + 1),
        }
    }
}

/// The REPL over the lines `ls`, starting with no variables.
pub open spec fn spec_repl(ls: Seq<Seq<char>>) -> Seq<char> {
    repl_from(Seq::empty(), ls, 0)
}

/// Evaluates one input in a fresh session.
pub fn evaluate_input(input: &str) -> (r: Result<Evaluation, String>)
    ensures
        match crate::eval::spec_eval(Seq::empty(), input@).0 {
            Ok((t, o, x)) => r matches Ok(ev) && ev.task_output@ == t && ev.output@ == o
                && ev.should_exit == x,
            Err(m) => r matches Err(e) && e@ == m,
        },
{
    let mut s = crate::eval::Session::new();
    s.eval(input)
}

/// Runs the calculator REPL over `lines` and returns everything it prints.
#[verifier::rlimit(100)]
#[verifier::spinoff_prover]
pub fn run_repl(lines: &Vec<String>) -> (r: String)
    ensures
        r@ == spec_repl(lines@.map_values(|s: String| s@)),
{
    let ghost ls = lines@.map_values(|s: String| s@);
    let mut session = crate::eval::Session::new();
    let mut out = String::new();
    let mut k: usize = 0;
    assert(out@ + repl_from(session@, ls, 0) =~= spec_repl(ls));
    while k < lines.len()
        invariant
            k <= lines@.len() == ls.len(),
            ls == lines@.map_values(|s: String| s@),
            session.wf(),
            spec_repl(ls) == out@ + repl_from(session@, ls, k as nat),
        decreases lines@.len() - k,
    {
        let ghost before = session@;
        let ghost o0 = out@;
        append_str(&mut out, prompt(k).as_str());
        let r = session.eval(lines[k].as_str());
        assert(ls[k as int] == lines@[k as int]@);
        match r {
            Ok(ev) => {
                let mut j: usize = 0;
                let ghost o1 = out@;
                while j < ev.task_output.len()
                    invariant
                        j <= ev.task_output@.len(),
                        out@ == o1 + bytes_text(ev.task_output@).take(j as int),
                    decreases ev.task_output@.len() - j,
                {
                    push_char(&mut out, ev.task_output[j] as char);
                    j = j + 1;
                    assert(out@ =~= o1 + bytes_text(ev.task_output@).take(j as int));
                }
                assert(bytes_text(ev.task_output@).take(j as int) =~= bytes_text(ev.task_output@));
                if chars_of(ev.output.as_str()).len() == 0 {
                    append_str(&mut out, "\n");
                } else {
                    append_str(&mut out, out_prefix(k).as_str());
                    append_str(&mut out, ev.output.as_str());
                    append_str(&mut out, "\n");
                    append_str(&mut out, "\n");
                }
                if ev.should_exit {
                    assert(out@ =~= spec_repl(ls));
                    return out;
                }
            },
            Err(m) => {
                append_str(&mut out, m.as_str());
                append_str(&mut out, "\n");
                append_str(&mut out, "\n");
            },
        }
        k = k + 1;
        assert(out@ + repl_from(session@, ls, k as nat) =~= spec_repl(ls));
    }
    append_str(&mut out, prompt(k).as_str());
    out
}

/// When no tree of any statement reaches depth `max`, the rendering shows the
/// parse whole: truncation at `max` takes nothing away.
pub proof fn lemma_parse_input_untruncated(input: Seq<char>, max: nat)
    requires
        trimmed(input).len() > 0,
        spec_parse_statements(trimmed(input)) is Ok,
        forall|i: int|
            0 <= i < spec_parse_statements(trimmed(input))->Ok_0.0.len() ==> stmt_within(
                #[trigger] spec_parse_statements(trimmed(input))->Ok_0.0[i],
                max,
            ),
    ensures
        spec_parse_input(input, max) == Ok::<Seq<char>, Seq<char>>(
            r_stmts(spec_parse_statements(trimmed(input))->Ok_0.0),
        ),
{
    let ss = spec_parse_statements(trimmed(input))->Ok_0.0;
    assert forall|i: int| 0 <= i < ss.len() implies trunc_stmt(ss[i], max) == ss[i] by {
        lemma_trunc_stmt_keeps_shallow(ss[i], max);
    }
    assert(ss.map_values(|s: SStmt| trunc_stmt(s, max)) =~= ss);
}

/// What the parse-only REPL has written by the time it asks for a line does
/// not depend on the lines that come later: the session over `ls` is a prefix
/// of the session over `ls` followed by `ms`.
pub proof fn lemma_parse_session_prefix(ls: Seq<Seq<char>>, ms: Seq<Seq<char>>, max: nat)
    ensures
        parse_session(ls, max).is_prefix_of(parse_session(ls + ms, max)),
    decreases ms.len(),
{
    if ms.len() == 0 {
        assert(ls + ms =~= ls);
        assert(parse_session(ls, max).subrange(0, parse_session(ls, max).len() as int) =~= parse_session(ls, max));
    } else {
        let ms1 = ms.drop_last();
        lemma_parse_session_prefix(ls, ms1, max);
        let all = ls + ms;
        assert(all.drop_last() =~= ls + ms1);
        let a = parse_session(ls, max);
        let b = parse_session(ls + ms1, max);
        let c = parse_session(all, max);
        let n = (all.len() - 1) as nat;
        assert(c == b + parse_reply_text(n, all.last(), max) + prompt_text(all.len()));
        assert(b.is_prefix_of(c)) by {
            assert(c.subrange(0, b.len() as int) =~= b);
        }
        assert(a.is_prefix_of(c)) by {
            assert(c.subrange(0, a.len() as int) =~= b.subrange(0, a.len() as int));
        }
    }
}

} // verus!
