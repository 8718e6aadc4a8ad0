use vcal::ast::Stmt;
use vcal::parser::parse_statements;
use vcal::{parse_input, parse_input_with_depth, DEFAULT_DISPLAY_DEPTH};

#[test]
fn blank_input_renders_nothing() {
    assert_eq!(parse_input(""), Ok(String::new()));
    assert_eq!(parse_input("  \t\n"), Ok(String::new()));
}

#[test]
fn default_depth_is_sixty_four() {
    assert_eq!(DEFAULT_DISPLAY_DEPTH, 64);
}

#[test]
fn unsized_decimal_literal_renders_its_spec() {
    let expected = "[
    Expr(
        Literal(
            LiteralSpec {
                width: 32,
                signed: true,
                base: Decimal,
                unsized_literal: true,
                payload: Numeric {
                    magnitude: 1,
                },
            },
        ),
    ),
]";
    assert_eq!(parse_input("1"), Ok(expected.to_string()));
    assert_eq!(parse_input("  1 \n"), Ok(expected.to_string()));
}

#[test]
fn sized_binary_literal_keeps_low_bits_first() {
    let expected = "[
    Expr(
        Literal(
            LiteralSpec {
                width: 4,
                signed: false,
                base: Binary,
                unsized_literal: false,
                payload: Bits {
                    low_bits: [
                        Zero,
                        One,
                        Zero,
                        One,
                    ],
                    fill: Zero,
                },
            },
        ),
    ),
]";
    assert_eq!(parse_input("4'b1010"), Ok(expected.to_string()));
}

#[test]
fn subtraction_is_left_associative() {
    let expected = "[
    Expr(
        Binary {
            op: Subtract,
            lhs: Binary {
                op: Subtract,
                lhs: Identifier(
                    \"a\",
                ),
                rhs: Identifier(
                    \"b\",
                ),
            },
            rhs: Identifier(
                \"c\",
            ),
        },
    ),
]";
    assert_eq!(parse_input("a - b - c"), Ok(expected.to_string()));
}

#[test]
fn multiplication_binds_tighter_than_addition() {
    let expected = "[
    Expr(
        Binary {
            op: Add,
            lhs: Identifier(
                \"a\",
            ),
            rhs: Binary {
                op: Multiply,
                lhs: Identifier(
                    \"b\",
                ),
                rhs: Identifier(
                    \"c\",
                ),
            },
        },
    ),
]";
    assert_eq!(parse_input("a + b * c"), Ok(expected.to_string()));
}

#[test]
fn conditional_chains_to_the_right() {
    let expected = "[
    Expr(
        Conditional {
            cond: Identifier(
                \"a\",
            ),
            then_expr: Identifier(
                \"b\",
            ),
            else_expr: Conditional {
                cond: Identifier(
                    \"c\",
                ),
                then_expr: Identifier(
                    \"d\",
                ),
                else_expr: Identifier(
                    \"e\",
                ),
            },
        },
    ),
]";
    assert_eq!(parse_input("a ? b : c ? d : e"), Ok(expected.to_string()));
}

#[test]
fn prefix_operator_wraps_the_group() {
    let expected = "[
    Expr(
        Unary {
            op: LogicalNot,
            expr: Grouped(
                Identifier(
                    \"a\",
                ),
            ),
        },
    ),
]";
    assert_eq!(parse_input("!(a)"), Ok(expected.to_string()));
}

#[test]
fn unary_minus_binds_tighter_than_power() {
    let expected = "[
    Expr(
        Binary {
            op: Power,
            lhs: Unary {
                op: Minus,
                expr: Identifier(
                    \"a\",
                ),
            },
            rhs: Identifier(
                \"b\",
            ),
        },
    ),
]";
    assert_eq!(parse_input("-a ** b"), Ok(expected.to_string()));
}

#[test]
fn depth_cap_cuts_nested_groups() {
    let expected = "[
    Expr(
        Grouped(
            Grouped(
                Truncated,
            ),
        ),
    ),
]";
    assert_eq!(parse_input_with_depth("(((1)))", 2), Ok(expected.to_string()));
}

#[test]
fn depth_zero_truncates_every_expression() {
    let expected = "[
    Expr(
        Truncated,
    ),
]";
    assert_eq!(parse_input_with_depth("1 + 2", 0), Ok(expected.to_string()));
}

#[test]
fn declaration_renders_range_and_names() {
    let expected = "[
    Decl {
        kind: Reg,
        signed: true,
        range: Some(
            (
                Truncated,
                Truncated,
            ),
        ),
        names: [
            DeclName {
                name: \"x\",
                init: Some(
                    Truncated,
                ),
                dim: None,
            },
            DeclName {
                name: \"y\",
                init: None,
                dim: Some(
                    (
                        Truncated,
                        Truncated,
                    ),
                ),
            },
        ],
    },
]";
    assert_eq!(
        parse_input_with_depth("reg signed [7:0] x = 5, y [0:3]", 0),
        Ok(expected.to_string())
    );
}

#[test]
fn concatenation_target_becomes_an_lvalue() {
    let expected = "[
    Assign {
        lvalue: Concat(
            [
                Name(
                    \"a\",
                ),
                Select {
                    name: \"b\",
                    kind: Bit {
                        index: Truncated,
                    },
                    inner: None,
                },
            ],
        ),
        rhs: Identifier(
            \"c\",
        ),
    },
]";
    assert_eq!(parse_input_with_depth("{a, b[1]} = c", 2), Ok(expected.to_string()));
}

#[test]
fn parenthesized_item_of_a_target_is_unwrapped() {
    let expected = "[
    Assign {
        lvalue: Concat(
            [
                Name(
                    \"a\",
                ),
            ],
        ),
        rhs: Identifier(
            \"b\",
        ),
    },
]";
    assert_eq!(parse_input_with_depth("{(a)} = b", 2), Ok(expected.to_string()));
    // A statement that starts with `(` is an expression: the `=` is left over.
    assert_eq!(
        parse_input("(a) = 1"),
        Err("Syntax error: unexpected token after end of statement".to_string())
    );
}

#[test]
fn system_task_keeps_null_arguments() {
    let expected = "[
    Expr(
        SystemCall {
            name: \"$display\",
            args: [
                Null,
                Expr(
                    Truncated,
                ),
            ],
        },
    ),
]";
    assert_eq!(parse_input_with_depth("$display(, 1)", 1), Ok(expected.to_string()));
    let bare = "[
    Expr(
        SystemCall {
            name: \"$finish\",
            args: [],
        },
    ),
]";
    assert_eq!(parse_input("$finish"), Ok(bare.to_string()));
    assert_eq!(parse_input("$finish()"), Ok(bare.to_string()));
}

#[test]
fn real_literal_renders_its_value() {
    let expected = "[
    Expr(
        RealLiteral(
            1.5,
        ),
    ),
]";
    assert_eq!(parse_input("1.5"), Ok(expected.to_string()));
}

#[test]
fn part_selects_and_chained_selects() {
    let expected = "[
    Expr(
        Select {
            name: \"m\",
            kind: Bit {
                index: Truncated,
            },
            inner: Some(
                PartConst {
                    msb: Truncated,
                    lsb: Truncated,
                },
            ),
        },
    ),
]";
    assert_eq!(parse_input_with_depth("m[i][3:0]", 1), Ok(expected.to_string()));
}

#[test]
fn several_statements_are_listed_in_order() {
    let expected = "[
    Expr(
        Identifier(
            \"a\",
        ),
    ),
    Expr(
        Identifier(
            \"b\",
        ),
    ),
]";
    assert_eq!(parse_input("a;; b;"), Ok(expected.to_string()));
}

#[test]
fn trailing_semicolon_is_reported() {
    let (stmts, trailing) = parse_statements("a; b;").unwrap();
    assert_eq!(stmts.len(), 2);
    assert!(trailing);
    let (stmts, trailing) = parse_statements("a; b").unwrap();
    assert_eq!(stmts.len(), 2);
    assert!(!trailing);
    let (stmts, trailing) = parse_statements(";").unwrap();
    assert_eq!(stmts.len(), 0);
    assert!(trailing);
}

#[test]
fn syntax_errors_carry_their_stage() {
    assert_eq!(
        parse_input("(1"),
        Err("Syntax error: missing closing parenthesis".to_string())
    );
    assert_eq!(
        parse_input("1 = 2"),
        Err("Syntax error: unexpected token after end of statement".to_string())
    );
    assert_eq!(
        parse_input("{a{b}} = 1"),
        Err("Syntax error: invalid lvalue: replication is not a variable_lvalue".to_string())
    );
    assert_eq!(
        parse_input("a + b = 1"),
        Err(
            "Syntax error: invalid lvalue: expected name, bit/part-select, or concatenation"
                .to_string()
        )
    );
    assert_eq!(
        parse_input("a ? b"),
        Err("Syntax error: expected `:` in conditional expression".to_string())
    );
    assert_eq!(
        parse_input("{a, b"),
        Err("Syntax error: missing closing brace in concatenation".to_string())
    );
    assert_eq!(
        parse_input("{2{a}"),
        Err("Syntax error: missing closing brace in replication".to_string())
    );
    assert_eq!(
        parse_input("$sqrt(1 2)"),
        Err("Syntax error: expected `)` after $sqrt argument".to_string())
    );
    assert_eq!(
        parse_input("a[1][2][3]"),
        Err("Syntax error: chained selects beyond one inner bracket are not supported".to_string())
    );
    assert_eq!(
        parse_input(")"),
        Err("Syntax error: unexpected closing parenthesis".to_string())
    );
    assert_eq!(
        parse_input("a +"),
        Err("Syntax error: unexpected end of expression".to_string())
    );
}

#[test]
fn declaration_errors() {
    assert_eq!(
        parse_input("integer signed i"),
        Err("Syntax error: `signed` qualifier is not allowed on integer declarations".to_string())
    );
    assert_eq!(
        parse_input("real [1:0] r"),
        Err("Syntax error: packed range `[..]` is not allowed on real declarations".to_string())
    );
    assert_eq!(
        parse_input("reg a, a"),
        Err("Syntax error: duplicate name in reg declaration: a".to_string())
    );
    assert_eq!(
        parse_input("reg signed"),
        Err("Syntax error: expected identifier in reg declaration".to_string())
    );
    assert_eq!(
        parse_input("reg real"),
        Err("Syntax error: `real` cannot be used as a reg name".to_string())
    );
    assert_eq!(
        parse_input("reg x [0:1] = 3"),
        Err("Syntax error: array variable `x` cannot have an init expression".to_string())
    );
    assert_eq!(
        parse_input("reg x [0:1][0:1]"),
        Err(
            "Syntax error: multi-dimensional arrays are not supported (only one `[…]` after the name)"
                .to_string()
        )
    );
}

#[test]
fn width_analysis_of_parsed_expressions() {
    use_width_checks();
}

fn first_expr(input: &str) -> vcal::ast::Expr {
    let (mut stmts, _) = parse_statements(input).unwrap();
    match stmts.remove(0) {
        vcal::ast::Stmt::Expr(e) => e,
        _ => panic!("not an expression statement"),
    }
}

fn use_width_checks() {
    use_width(&first_expr("4'd1 + 1"), true);
    use_width(&first_expr("4'd1 + 4'd2"), false);
    use_width(&first_expr("(1 == 2)"), false);
    use_width(&first_expr("a ? 4'd1 : 2"), true);
    use_width(&first_expr("2 << 4'd1"), true);
    use_width(&first_expr("4'd1 << 2"), false);
    use_width(&first_expr("-1.5"), true);
    use_width(&first_expr("{1}"), false);
    use_width(&first_expr("~&1"), false);
    // The right operand is looked at first: an unsized literal there decides
    // the answer before the left operand, here a display placeholder, is read.
    let rhs_first = vcal::ast::Expr::Binary {
        op: vcal::ast::BinaryOp::Add,
        lhs: Box::new(vcal::ast::Expr::Truncated),
        rhs: Box::new(first_expr("1")),
    };
    use_width(&rhs_first, true);
}

fn use_width(e: &vcal::ast::Expr, expected: bool) {
    assert_eq!(vcal::width::is_indefinite_width(e), expected);
}

#[test]
fn redundant_parentheses_are_looked_through() {
    let e = first_expr("((($finish)))");
    match vcal::width::unwrap_grouped(&e) {
        vcal::ast::Expr::SystemCall { name, args } => {
            assert_eq!(name, "$finish");
            assert!(args.is_empty());
        }
        other => panic!("unexpected {other:?}"),
    }
}

#[test]
fn power_is_left_associative() {
    let expected = "[
    Expr(
        Binary {
            op: Power,
            lhs: Binary {
                op: Power,
                lhs: Identifier(
                    \"a\",
                ),
                rhs: Identifier(
                    \"b\",
                ),
            },
            rhs: Identifier(
                \"c\",
            ),
        },
    ),
]";
    assert_eq!(parse_input("a ** b ** c"), Ok(expected.to_string()));
}

#[test]
fn deep_nesting_is_capped_for_display() {
    let depth = 300;
    let input = format!("{}x{}", "(".repeat(depth), ")".repeat(depth));
    let out = parse_input(&input).unwrap();
    assert_eq!(out.matches("Grouped(").count(), 64);
    assert_eq!(out.matches("Truncated").count(), 1);
    assert!(!out.contains("Identifier"));
}

#[test]
fn unknown_character_reaches_the_literal_parser() {
    assert_eq!(
        parse_input("#"),
        Err("Syntax error: invalid decimal digits: #".to_string())
    );
    assert_eq!(
        parse_input("1.5e"),
        Err("Syntax error: missing exponent digits in real literal".to_string())
    );
}

#[test]
fn a_dot_without_a_fraction_is_a_syntax_error() {
    assert_eq!(
        parse_input("5."),
        Err("Syntax error: unexpected character `.`".to_string())
    );
    assert_eq!(
        parse_input("a = 5.;"),
        Err("Syntax error: unexpected character `.`".to_string())
    );
}

#[test]
fn replication_renders_count_and_items() {
    let expected = "[
    Expr(
        Replication {
            count: Truncated,
            items: [
                Truncated,
                Truncated,
            ],
        },
    ),
]";
    assert_eq!(parse_input_with_depth("{3{a, b}}", 1), Ok(expected.to_string()));
}

#[test]
fn readme_session_lines_parse() {
    let (s, _) = parse_statements("reg [7:0] a").unwrap();
    assert!(matches!(s[0], Stmt::Decl { .. }));
    let (s, _) = parse_statements("a = 4'hF + 4'hF").unwrap();
    assert!(matches!(s[0], Stmt::Assign { .. }));
    let (s, _) = parse_statements("a + 4'b1").unwrap();
    assert!(matches!(s[0], Stmt::Expr(_)));
}
