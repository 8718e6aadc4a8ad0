use vcal::highlight::{highlight_spans, TokenClass};

fn classes(input: &str) -> Vec<(&str, TokenClass)> {
    highlight_spans(input)
        .into_iter()
        .map(|s| (&input[s.start..s.end], s.class))
        .collect()
}

#[test]
fn classifies_decl_and_assign() {
    assert_eq!(
        classes("reg [3:0] a = 4'b1010;"),
        vec![
            ("reg", TokenClass::Identifier),
            ("[", TokenClass::Punct),
            ("3", TokenClass::Number),
            (":", TokenClass::Operator),
            ("0", TokenClass::Number),
            ("]", TokenClass::Punct),
            ("a", TokenClass::Identifier),
            ("=", TokenClass::Operator),
            ("4'b1010", TokenClass::Number),
            (";", TokenClass::Punct),
        ]
    );
}

#[test]
fn lenient_on_partial_literals() {
    assert_eq!(
        classes("5."),
        vec![("5", TokenClass::Number), (".", TokenClass::Error)]
    );
    assert_eq!(classes("1e"), vec![("1e", TokenClass::Number)]);
    assert_eq!(classes("1e+"), vec![("1e+", TokenClass::Number)]);
}

#[test]
fn comments_eat_to_end() {
    let spans = classes("a // tail");
    assert_eq!(spans.len(), 2);
    assert_eq!(spans[0], ("a", TokenClass::Identifier));
    assert_eq!(spans[1], ("// tail", TokenClass::Comment));

    let spans = classes("/* unterminated");
    assert_eq!(spans, vec![("/* unterminated", TokenClass::Comment)]);
}

#[test]
fn bare_dollar_is_error_but_system_call_is_not() {
    assert_eq!(classes("$"), vec![("$", TokenClass::Error)]);
    assert_eq!(
        classes("$finish"),
        vec![("$finish", TokenClass::SystemIdent)]
    );
}

#[test]
fn slash_does_not_swallow_following_comment() {
    assert_eq!(
        classes("+//x"),
        vec![("+", TokenClass::Operator), ("//x", TokenClass::Comment)]
    );
}

#[test]
fn block_comment_closes_and_multibyte_offsets_are_bytes() {
    assert_eq!(
        classes("/* a */ b"),
        vec![("/* a */", TokenClass::Comment), ("b", TokenClass::Identifier)]
    );
    let spans = highlight_spans("é+1");
    assert_eq!(spans[0].start, 0);
    assert_eq!(spans[0].end, 2);
    assert_eq!(spans[0].class, TokenClass::Error);
    assert_eq!((spans[1].start, spans[1].end), (2, 3));
}

#[test]
fn based_literal_after_whitespace_binds_to_size() {
    assert_eq!(classes("8 'd6"), vec![("8 'd6", TokenClass::Number)]);
    assert_eq!(classes("'"), vec![("'", TokenClass::Error)]);
    assert_eq!(classes("'sh1F"), vec![("'sh1F", TokenClass::Number)]);
}

#[test]
fn spans_cover_every_non_whitespace_byte_offset() {
    for input in ["é + 4'b1x // ü", "reg [3:0] a = 4'b1010;", "  $display(a, \"ß\")  "] {
        let spans = highlight_spans(input);
        for (offset, c) in input.char_indices() {
            if !c.is_whitespace() {
                assert!(
                    spans.iter().any(|s| s.start <= offset && offset < s.end),
                    "offset {offset} of {input:?} is not covered"
                );
            }
        }
    }
}
