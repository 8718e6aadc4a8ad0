use vcal::eval::Session;
use vcal::{evaluate_input, run_repl};

fn out(input: &str) -> String {
    evaluate_input(input).unwrap().output
}

fn err(input: &str) -> String {
    evaluate_input(input).unwrap_err()
}

#[test]
fn readme_session() {
    let lines: Vec<String> = ["reg [7:0] a", "a = 4'hF + 4'hF", "a", "a + 4'b1"]
        .iter()
        .map(|s| s.to_string())
        .collect();
    assert_eq!(
        run_repl(&lines),
        "In [0]: \nIn [1]: \nIn [2]: Out[2]: 8'b00011110\n\nIn [3]: Out[3]: 8'b00011111\n\nIn [4]: "
    );
}

#[test]
fn literals_and_arithmetic() {
    assert_eq!(out("1 + 2"), "32'sd3");
    assert_eq!(out("4'hF + 4'hF"), "4'he");
    assert_eq!(out("8'd200 + 8'd100"), "8'd44");
    assert_eq!(out("4'b1010 & 4'b0110"), "4'b0010");
    assert_eq!(out("~4'b1010"), "4'b0101");
    assert_eq!(out("4'd3 - 4'd5"), "4'd14");
    assert_eq!(out("-1"), "-32'sd1");
    assert_eq!(out("7 / 2"), "32'sd3");
    assert_eq!(out("7 % 0"), "32'sdx");
    assert_eq!(out("2 ** 10"), "32'sd1024");
    assert_eq!(out("4'b1x01 + 4'b0001"), "4'bxxxx");
    assert_eq!(out("8'hF0 >> 4"), "8'h0f");
    assert_eq!(out("8'shF0 >>> 4"), "8'shff");
}

#[test]
fn comparisons_and_logic() {
    assert_eq!(out("4'd3 < 4'd5"), "1'b1");
    assert_eq!(out("4'b1x00 == 4'b1000"), "1'bx");
    assert_eq!(out("4'b1x00 === 4'b1x00"), "1'b1");
    assert_eq!(out("!4'd0"), "1'b1");
    assert_eq!(out("&4'b1111"), "1'b1");
    assert_eq!(out("1 && 0"), "1'b0");
    assert_eq!(out("-1 < 1"), "1'b1");
    assert_eq!(out("4'hF < 1"), "1'b0");
}

#[test]
fn conditionals_concatenations_and_casts() {
    assert_eq!(out("1 ? 4'd3 : 4'd5"), "4'd3");
    assert_eq!(out("1'bx ? 4'b1100 : 4'b1010"), "4'b1xx0");
    assert_eq!(out("{4'hA, 4'h5}"), "8'ha5");
    assert_eq!(out("{2{2'b10}}"), "4'b1010");
    assert_eq!(out("{2'b11, {0{1'b1}}}"), "2'b11");
    assert_eq!(out("$unsigned(-4'sd1)"), "4'd15");
    assert_eq!(out("$hex(8'd255)"), "8'hff");
    assert_eq!(out("$clog2(8)"), "32'sd3");
}

#[test]
fn evaluation_errors() {
    assert_eq!(err("x + 1"), "Semantic error: undeclared identifier: x");
    assert_eq!(err("{4'd1 + 1, 4'd2}"), "concatenation operand has indefinite width");
    assert_eq!(err("{0{1'b1}}"), "replication count must be positive in this context");
    assert!(err("1 +").starts_with("Syntax error: "));
    assert_eq!(err("$finish(1) + 1"), "Semantic error: $finish() is a system task, it cannot be called as a function.");
    assert_eq!(err("1.5 + 1"), "Semantic error: real value has no integer width or signedness");
}

#[test]
fn session_keeps_variables() {
    let mut s = Session::new();
    assert_eq!(s.eval("reg [3:0] a = 4'b0101").unwrap().output, "");
    assert_eq!(s.eval("a[2:1]").unwrap().output, "2'b10");
    assert_eq!(s.eval("a[4:3]").unwrap().output, "2'bx0");
    assert_eq!(s.eval("a[0]").unwrap().output, "1'b1");
    assert_eq!(s.eval("a = 4'd9").unwrap().output, "");
    assert_eq!(s.eval("a").unwrap().output, "4'b1001");
    assert_eq!(s.eval("integer i = 5, j = i + 1; j").unwrap().output, "32'sd6");
    assert_eq!(s.eval("i = i * 2;").unwrap().output, "");
    assert_eq!(s.eval("i").unwrap().output, "32'sd10");
    assert_eq!(s.eval("reg b").unwrap().output, "");
    assert_eq!(s.eval("b").unwrap().output, "1'bx");
    assert_eq!(
        s.eval("b[0]").unwrap_err(),
        "Semantic error: bit-select or part-select on scalar reg `b` is illegal"
    );
    // A failing statement keeps the effect of those before it.
    assert!(s.eval("a = 4'd1; nope").is_err());
    assert_eq!(s.eval("a").unwrap().output, "4'b0001");
    let done = s.eval("$finish").unwrap();
    assert!(done.should_exit);
    assert_eq!(done.output, "");
}

#[test]
fn display_without_arguments_prints_a_newline() {
    let r = evaluate_input("$display").unwrap();
    assert_eq!(r.task_output, b"\n".to_vec());
    assert_eq!(r.output, "");
    let r = evaluate_input("$write;").unwrap();
    assert!(r.task_output.is_empty());
    assert_eq!(evaluate_input("   ").unwrap().output, "");
}

#[test]
fn finish_stops_the_repl() {
    let lines: Vec<String> = ["1", "$finish", "2"].iter().map(|s| s.to_string()).collect();
    assert_eq!(run_repl(&lines), "In [0]: Out[0]: 32'sd1\n\nIn [1]: \n");
}

#[test]
fn display_writes_its_arguments() {
    assert_eq!(evaluate_input("$display(1)").unwrap().task_output, b"1\n".to_vec());
    assert_eq!(evaluate_input("$display(-4'sd3, 4'd5)").unwrap().task_output, b"-3 5\n".to_vec());
    assert_eq!(evaluate_input("$displayh(8'd255)").unwrap().task_output, b"ff\n".to_vec());
    assert_eq!(evaluate_input("$displayb(4'b1x0z)").unwrap().task_output, b"1x0z\n".to_vec());
    assert_eq!(evaluate_input("$displayo(8'd8)").unwrap().task_output, b"010\n".to_vec());
    assert_eq!(evaluate_input("$display(8'bx)").unwrap().task_output, b"x\n".to_vec());
    let r = evaluate_input("$write(1, , 2)").unwrap();
    assert_eq!(r.task_output, b"1 2".to_vec());
    assert_eq!(r.output, "");
    assert!(!r.should_exit);
    assert_eq!(err("$display(1, y)"), "Semantic error: undeclared identifier: y");
    let lines: Vec<String> = ["reg [3:0] a = 4'd6", "$display(a)"].iter().map(|s| s.to_string()).collect();
    assert_eq!(run_repl(&lines), "In [0]: \nIn [1]: 6\n\nIn [2]: ");
}
