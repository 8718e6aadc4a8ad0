use vcal::{parse_reply, prompt, run_parse_repl};

#[test]
fn prompt_counts_lines() {
    assert_eq!(prompt(0), "In [0]: ");
    assert_eq!(prompt(12), "In [12]: ");
}

#[test]
fn blank_line_gets_an_empty_reply() {
    assert_eq!(parse_reply(3, "   \n", 64), "\n");
}

#[test]
fn error_reply_is_followed_by_a_blank_line() {
    assert_eq!(
        parse_reply(0, "(1\n", 64),
        "Syntax error: missing closing parenthesis\n\n"
    );
}

#[test]
fn value_reply_names_its_line() {
    assert_eq!(
        parse_reply(7, "a\n", 64),
        "Out[7]: [\n    Expr(\n        Identifier(\n            \"a\",\n        ),\n    ),\n]\n\n"
    );
}

#[test]
fn session_alternates_prompts_and_replies() {
    let lines = vec!["a\n".to_string(), "\n".to_string(), ")\n".to_string()];
    let expected = "In [0]: Out[0]: [\n    Expr(\n        Identifier(\n            \"a\",\n        ),\n    ),\n]\n\n\
In [1]: \n\
In [2]: Syntax error: unexpected closing parenthesis\n\n\
In [3]: ";
    assert_eq!(run_parse_repl(&lines, 64), expected);
}

#[test]
fn empty_session_is_one_prompt() {
    assert_eq!(run_parse_repl(&Vec::new(), 64), "In [0]: ");
}

#[test]
fn session_over_more_lines_extends_the_shorter_one() {
    let short = vec!["a\n".to_string()];
    let long = vec!["a\n".to_string(), "b; c\n".to_string()];
    let s = run_parse_repl(&short, 64);
    let l = run_parse_repl(&long, 64);
    assert!(l.starts_with(&s));
}

#[test]
fn evaluation_record_compares_by_fields() {
    let a = vcal::Evaluation { task_output: b"x\n".to_vec(), output: String::new(), should_exit: true };
    let b = vcal::Evaluation { task_output: b"x\n".to_vec(), output: String::new(), should_exit: true };
    assert_eq!(a, b);
    assert!(a.should_exit && a.output.is_empty());
}

#[test]
fn answers_are_labelled_by_their_line() {
    assert_eq!(vcal::out_prefix(0), "Out[0]: ".to_string());
    assert_eq!(vcal::out_prefix(17), "Out[17]: ".to_string());
}
