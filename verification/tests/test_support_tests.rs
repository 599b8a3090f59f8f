use interpreter_rs::test_support::{
    check_output, error_lines, expectations, output_lines, test_mode, Mismatch,
};
use interpreter_rs::Mode;

fn strings(v: &[&str]) -> Vec<String> {
    v.iter().map(|s| s.to_string()).collect()
}

#[test]
fn test_mode_follows_the_directory() {
    assert_eq!(test_mode("test/scanning/identifiers.lox"), Mode::Tokenize);
    assert_eq!(test_mode("test/expressions/parse.lox"), Mode::Parse);
    assert_eq!(test_mode("test/expressions/evaluate.lox"), Mode::Evaluate);
    assert_eq!(test_mode("test/closure/nested.lox"), Mode::Run);
    assert_eq!(test_mode("scanning/x.lox"), Mode::Run);
}

#[test]
fn output_lines_split_like_str_lines() {
    assert_eq!(output_lines("a\nb\r\nc"), strings(&["a", "b", "c"]));
    assert_eq!(output_lines("a\n"), strings(&["a"]));
    assert_eq!(output_lines("\n\nx"), strings(&["", "", "x"]));
    assert_eq!(output_lines(""), Vec::<String>::new());
    assert_eq!(output_lines("x\r"), strings(&["x\r"]));
}

#[test]
fn expectations_are_read_from_comments() {
    let source = "print 1; // expect: 1\n\
                  // expect runtime error: Operands must be numbers.\n\
                  var a = ; // [line 3] Error at ';': Expect expression.\n\
                  // Error at 'x': oops\n\
                  // just a remark\n\
                  print \"//\"; // expect: //\n";
    let e = expectations(source);
    // The first `//` of the last line opens the string, so it expects nothing.
    assert_eq!(e.output, strings(&["1"]));
    assert_eq!(
        e.errors,
        strings(&[
            "Operands must be numbers.",
            "[line 3] Error at ';': Expect expression.",
            "Error at 'x': oops",
        ])
    );
}

#[test]
fn error_lines_drop_line_markers() {
    let err = "Undefined variable 'x'.\n  [line 4]  \n[line 2] Error at end: x\n";
    assert_eq!(
        error_lines(err),
        strings(&["Undefined variable 'x'.", "[line 2] Error at end: x"])
    );
}

#[test]
fn verdict_on_runs() {
    let ok = check_output(
        &strings(&["1"]),
        &strings(&["Error at 'x': oops", "[line 3] Error."]),
        &strings(&["1"]),
        &strings(&["[line 1] Error at 'x': oops", "[line 3] Error at end"]),
    );
    assert_eq!(ok, Ok(()));
    assert_eq!(
        check_output(&strings(&["1"]), &[], &strings(&["1", "2"]), &[]),
        Err(Mismatch::OutputCount)
    );
    assert_eq!(
        check_output(&[], &strings(&["e"]), &[], &[]),
        Err(Mismatch::ErrorCount)
    );
    assert_eq!(
        check_output(&strings(&["1", "2"]), &[], &strings(&["1", "3"]), &[]),
        Err(Mismatch::Output(1))
    );
    assert_eq!(
        check_output(&[], &strings(&["Error at 'y'"]), &[], &strings(&["Error at 'x'"])),
        Err(Mismatch::MissingError(0))
    );
    assert_eq!(
        check_output(&[], &strings(&["[line 2] Oops."]), &[], &strings(&["[line 3] Oops"])),
        Err(Mismatch::Error(0))
    );
}

#[test]
fn matching_run_passes() {
    let out = strings(&["1", "", "two words"]);
    let err = strings(&["Error at 'x': oops.", "[line 2] Something...", "Plain"]);
    assert_eq!(check_output(&out, &err, &out, &err), Ok(()));
}

#[test]
fn written_lines_read_back() {
    let lines = strings(&["first", "", "  third  ", "é"]);
    let mut text = String::new();
    for l in &lines {
        text.push_str(&format!("{}\n", l));
    }
    assert_eq!(output_lines(&text), lines);
}
