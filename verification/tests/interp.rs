use sexp::eval::{eval, EvalError};
use sexp::syntax::parse;
use sexp::token::Tokenizer;

fn run(src: &str, input: &str) -> Result<Vec<u8>, EvalError> {
    eval(&src.as_bytes().to_vec(), &input.as_bytes().to_vec())
}

fn out(src: &str, input: &str) -> String {
    String::from_utf8(run(src, input).expect("evaluation failed")).expect("output not utf-8")
}

const PROGRAM: &str = "(vec\n    (let A (read_int))\n    (let B (read_int))\n    (let C (read_int))\n    (let S (read_str))\n    (println (sum A B C) S)\n)\n";

#[test]
fn test() {
    // A bare identifier at top level pushes a value and prints nothing,
    // and tokens after the first top-level expression are ignored.
    assert_eq!(run("read_int\nprintln", "42"), Ok(Vec::new()));
}

#[test]
fn tokenize_round_trip() {
    // Reassembling the source from the token ranges reproduces the
    // non-whitespace, non-comment text exactly, in order.
    let src = "(sum 12 abc \"a b\" // note\n +=) x\t";
    let toks = Tokenizer::new(src.as_bytes().to_vec()).tokenize();
    let mut rebuilt = Vec::new();
    for t in &toks {
        rebuilt.extend_from_slice(&src.as_bytes()[t.lo..t.hi]);
    }
    assert_eq!(String::from_utf8(rebuilt).unwrap(), "(sum12abc\"a b\"+=)x\t");
}

#[test]
fn let_overwrites_last_binding_wins() {
    // X and Y both hold the unresolved identifier A; the two later lets
    // therefore bind A twice, and the lookup sees the second binding.
    let src = "(vec (let X A) (let Y A) (let X 5) (let Y 6) (println A))";
    assert_eq!(out(src, ""), "6 \n");
}

#[test]
fn sum_of_three() {
    assert_eq!(out("(println (sum 1 2 3))", ""), "6 \n");
}

#[test]
fn sum_of_nothing() {
    assert_eq!(out("(println (sum))", ""), "0 \n");
}

#[test]
fn sum_rejects_non_integer() {
    assert_eq!(run("(sum \"x\")", ""), Err(EvalError::SumArgNotInt));
}

#[test]
fn sum_overflow_fails() {
    assert_eq!(
        run(
            "(sum 9223372036854775807 9223372036854775807)",
            ""
        ),
        Err(EvalError::SumOverflow)
    );
}

#[test]
fn join_separator_only_is_empty() {
    assert_eq!(out("(println (join \",\" ))", ""), " \n");
}

#[test]
fn join_with_items() {
    assert_eq!(out("(println (join \",\" 1 2 3))", ""), "1,2,3 \n");
}

#[test]
fn join_without_separator_fails() {
    assert_eq!(run("(join)", ""), Err(EvalError::JoinMissingSeparator));
}

#[test]
fn join_separator_must_be_string() {
    assert_eq!(run("(join 1 2)", ""), Err(EvalError::JoinSeparatorNotStr));
}

#[test]
fn bracket_kinds_interchangeable() {
    let a = run("(vec 1 2)", "");
    let b = run("[vec 1 2]", "");
    let c = run("{vec 1 2}", "");
    assert_eq!(a, b);
    assert_eq!(b, c);
    assert_eq!(a, Ok(Vec::new()));
    let pa = out("(println (vec 1 2))", "");
    let pb = out("[println [vec 1 2]]", "");
    let pc = out("{println {vec 1 2}}", "");
    assert_eq!(pa, "[12] \n");
    assert_eq!(pb, pa);
    assert_eq!(pc, pa);
}

#[test]
fn bracket_kinds_same_parse() {
    let (_, s1) = parse(&"(vec 1 2)".as_bytes().to_vec());
    let (_, s2) = parse(&"[vec 1 2}".as_bytes().to_vec());
    assert_eq!(s1, s2);
}

#[test]
fn unknown_identifier_fails() {
    assert_eq!(run("(frobnicate 1)", ""), Err(EvalError::UnknownIdentifier));
}

#[test]
fn end_to_end_default_program() {
    assert_eq!(out(PROGRAM, "40 1\n1 ok"), "42 ok \n");
}

#[test]
fn end_to_end_single_word_exhausts() {
    assert_eq!(run(PROGRAM, "42"), Err(EvalError::InputExhausted));
}

#[test]
fn empty_input_exhausts() {
    assert_eq!(run(PROGRAM, ""), Err(EvalError::InputExhausted));
}

#[test]
fn read_budget_boundary() {
    // Up to eight blank lines before the word still succeed; ten blank
    // lines exceed the bounded retry budget.
    let eight = "\n\n\n\n\n\n\n\n42";
    assert_eq!(out("(println (read_int))", eight), "42 \n");
    let ten = "\n\n\n\n\n\n\n\n\n\n42";
    assert_eq!(
        run("(println (read_int))", ten),
        Err(EvalError::InputExhausted)
    );
}

#[test]
fn read_int_negative_word() {
    assert_eq!(out("(println (read_int))", "-42"), "-42 \n");
}

#[test]
fn read_int_rejects_non_number() {
    assert_eq!(run("(read_int)", "abc"), Err(EvalError::ReadIntBadWord));
}

#[test]
fn read_str_takes_first_word() {
    assert_eq!(out("(println (read_str))", "hi there"), "hi \n");
}

#[test]
fn words_come_line_by_line() {
    let src = "(vec (println (read_str)) (println (read_str)) (println (read_str)))";
    assert_eq!(out(src, "a b\nc"), "a \nb \nc \n");
}

#[test]
fn unmatched_bracket_fails() {
    assert_eq!(run(")", ""), Err(EvalError::UnmatchedBracket));
}

#[test]
fn unrecognized_byte_fails_when_reached() {
    assert_eq!(run("~", ""), Err(EvalError::LexError));
}

#[test]
fn head_must_be_identifier() {
    assert_eq!(run("(1 2)", ""), Err(EvalError::HeadNotIdentifier));
}

#[test]
fn let_needs_two_arguments() {
    assert_eq!(run("(let X)", ""), Err(EvalError::LetMissingArgs));
}

#[test]
fn let_name_must_be_identifier() {
    assert_eq!(run("(let 1 2)", ""), Err(EvalError::LetNameNotId));
}

#[test]
fn bare_punctuation_underflows() {
    assert_eq!(run("(: :)", ""), Err(EvalError::StackUnderflow));
}

#[test]
fn vector_display_form() {
    assert_eq!(
        out("(println (vec 1 (vec 2 3) \"x\"))", ""),
        "[1[23]x] \n"
    );
}

#[test]
fn println_multiple_arguments() {
    assert_eq!(out("(println 1 \"a\" (vec))", ""), "1 a [] \n");
}

#[test]
fn integer_literal_overflow_reads_as_zero() {
    assert_eq!(out("(println 99999999999999999999)", ""), "0 \n");
}

#[test]
fn unterminated_string_closes_at_end() {
    assert_eq!(out("(println \"ab", ""), "ab \n");
}

#[test]
fn comments_are_skipped() {
    assert_eq!(out("// intro\n(println 1) // trailing", ""), "1 \n");
}

#[test]
fn let_pushes_bound_value() {
    assert_eq!(out("(println (let X 7))", ""), "7 \n");
}

#[test]
fn empty_application_does_nothing() {
    assert_eq!(run("()", ""), Ok(Vec::new()));
}
