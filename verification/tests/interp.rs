use owl::env::Env;
use owl::evaluator::{eval, EvalError, Evaluator, Intrinsic};
use owl::reader::{Reader, ReaderError};
use owl::values::Value::{self, Bool, List, Num, Str, Sym};

fn bits(x: f64) -> u64 {
    x.to_bits()
}

#[test]
fn arithmetic_folds() {
    assert_eq!(eval("(+ 1 2 3)"), Ok(Num(bits(6.0))));
    assert_eq!(eval("(+ 1 (+ 1 2) 3)"), Ok(Num(bits(7.0))));
    assert_eq!(eval(r#"(eval "(+ 1 2 3)")"#), Ok(Num(bits(6.0))));
}

#[test]
fn arithmetic_each_operation() {
    assert_eq!(eval("(+)"), Ok(Num(bits(0.0))));
    assert_eq!(eval("(*)"), Ok(Num(bits(1.0))));
    assert_eq!(eval("(* 2 3 4)"), Ok(Num(bits(24.0))));
    assert_eq!(eval("(- 5 2)"), Ok(Num(bits(3.0))));
    assert_eq!(eval("(- 5 2 1)"), Ok(Num(bits(2.0))));
    assert_eq!(eval("(/ 1 2)"), Ok(Num(bits(0.5))));
    assert_eq!(eval("(+ 0.1 0.2)"), Ok(Num(bits(0.1f64 + 0.2f64))));
}

#[test]
fn division_by_zero_is_ieee() {
    assert_eq!(eval("(/ 1 0)"), Ok(Num(bits(f64::INFINITY))));
    assert_eq!(eval("(/ -1 0)"), Ok(Num(bits(f64::NEG_INFINITY))));
}

#[test]
fn non_numeric_arguments_coerce_to_zero() {
    // An unresolved symbol evaluates to the absent value, which the
    // accumulating folds coerce to zero.
    assert_eq!(eval("(+ 1 ghost-town 2)"), Ok(Num(bits(3.0))));
}

#[test]
fn raw_first_argument_asymmetry() {
    // The seed of `-` and `/` is the raw first argument's coercion: a
    // symbol is not resolved there, so it contributes zero.
    assert_eq!(eval("{ (def x 5) (- x 1) }"), Ok(Num(bits(-1.0))));
    // The head of `=` is likewise raw: an unevaluated list never equals
    // the evaluated number three.
    assert_eq!(eval("(= (+ 1 2) 3)"), Ok(Bool(false)));
    // With the literal first, the remaining arguments are evaluated.
    assert_eq!(eval("(= 3 (+ 1 2))"), Ok(Bool(true)));
    assert_eq!(eval("(= 3 (+ 1 2) (+ 2 1))"), Ok(Bool(true)));
    assert_eq!(eval("(= 3 (+ 1 2) 4)"), Ok(Bool(false)));
    assert_eq!(eval(r#"(= "a" "a")"#), Ok(Bool(true)));
    assert_eq!(eval("(=)"), Ok(Bool(true)));
}

#[test]
fn def_set_get_round_trip() {
    let mut env = Env::new();
    let evaluator = Evaluator::new();
    assert_eq!(evaluator.eval(&mut env, "(def x 1)"), Ok(Num(bits(1.0))));
    assert_eq!(env.get("x"), Num(bits(1.0)));
    assert_eq!(evaluator.eval(&mut env, "(set x 2)"), Ok(Num(bits(2.0))));
    assert_eq!(env.get("x"), Num(bits(2.0)));
    assert!(env.has("x"));
    assert!(!env.has("y"));
}

#[test]
fn set_on_undefined_symbol_is_fatal() {
    assert_eq!(eval("(set nowhere 1)"), Err(EvalError::UnboundSymbol));
}

#[test]
fn malformed_special_forms() {
    assert_eq!(eval("(if 1)"), Err(EvalError::MissingArguments));
    assert_eq!(eval("(def 1 2)"), Err(EvalError::NotASymbol));
    assert_eq!(eval("(def x)"), Err(EvalError::MissingArguments));
    assert_eq!(eval("(set 1 2)"), Err(EvalError::NotASymbol));
    assert_eq!(eval("{ (def f 1) (fun f) }"), Err(EvalError::AlreadyBound));
    assert_eq!(eval("(fun g)"), Ok(Value::Nil));
}

#[test]
fn truthiness_in_if() {
    // Numeric zero is falsy; nonzero numbers, strings and true are truthy.
    assert_eq!(eval("(if 0 1 2)"), Ok(Num(bits(2.0))));
    assert_eq!(eval("(if 3 1 2)"), Ok(Num(bits(1.0))));
    assert_eq!(eval(r#"(if "s" 1 2)"#), Ok(Num(bits(1.0))));
    assert_eq!(eval("(if #f 1 2)"), Ok(Num(bits(2.0))));
    assert_eq!(eval("(if ghost-town 1 2)"), Ok(Num(bits(2.0))));
    // The else-branch defaults to the absent value.
    assert_eq!(eval("(if 0 1)"), Ok(Value::Nil));
}

#[test]
fn leniencies() {
    // Unresolved symbols and unknown operators evaluate to the absent
    // value rather than failing.
    assert_eq!(eval("ghost-town"), Ok(Value::Nil));
    assert_eq!(eval("(no-such-op 1 2)"), Ok(Value::Nil));
    // An empty list is self-evaluating.
    assert_eq!(eval("()"), Ok(List(vec![])));
    // Literals are self-evaluating.
    assert_eq!(eval(r#""hi""#), Ok(Str("hi".into())));
    assert_eq!(eval("#t"), Ok(Bool(true)));
}

#[test]
fn do_sequences_and_yields_last() {
    assert_eq!(eval("{ 1 2 3 }"), Ok(Num(bits(3.0))));
    assert_eq!(eval("(do)"), Ok(Value::Nil));
    assert_eq!(eval("{ (def a 1) (def b 2) (+ a b) }"), Ok(Num(bits(3.0))));
}

#[test]
fn do_block_matches_do_form() {
    let braces = String::from("{ a 1 2 3 }");
    let parens = String::from("(do a 1 2 3)");
    let mut r1 = Reader::new();
    let mut r2 = Reader::new();
    assert_eq!(r1.read(&braces).unwrap(), r2.read(&parens).unwrap());
}

#[test]
fn top_level_eval_swallows_parse_errors() {
    let mut env = Env::new();
    let evaluator = Evaluator::new();
    assert_eq!(evaluator.eval(&mut env, "(a (b"), Ok(Value::Nil));
}

#[test]
fn cursor_restored_on_failures() {
    // Unbalanced parenthesis restores the cursor to the call start.
    let code = String::from("(a (b c)");
    let mut reader = Reader::new();
    assert_eq!(reader.read(&code), Err(ReaderError::UnbalancedParenthesis));
    assert_eq!(reader.it, 0);
    // An unterminated string restores the cursor to before the quote.
    let code2 = String::from(r#""abc"#);
    reader.reset();
    assert_eq!(reader.read(&code2), Err(ReaderError::UnterminatedString));
    assert_eq!(reader.it, 0);
}

#[test]
fn sequential_reads_resume_after_closing_delimiter() {
    let code = String::from("(def x (= (+ 1 2) 3))\nx");
    let mut reader = Reader::new();
    let first = reader.read(&code).unwrap();
    assert!(matches!(first, List(_)));
    assert_eq!(reader.it, 21);
    let second = reader.read(&code).unwrap();
    assert_eq!(second, Sym("x".into()));
}

#[test]
fn hash_with_other_suffix_reads_as_symbol() {
    let code = String::from("#x");
    let mut reader = Reader::new();
    assert_eq!(reader.read(&code).unwrap(), Sym("#x".into()));
}

#[test]
fn reader_cursor_helpers() {
    let code = String::from("a(b");
    let mut reader = Reader::new();
    assert!(!reader.at_eof(&code));
    assert!(reader.is_chr(&code, 'a'));
    assert!(!reader.is_chr(&code, 'b'));
    assert!(reader.is_chr_p(&code, |c: char| c == 'a'));
    assert!(!reader.is_whitespace(&code));
    reader.it = 1;
    assert!(reader.is_delimiter(&code));
    reader.it = 3;
    assert!(reader.at_eof(&code));
    assert_eq!(reader.chr(&code), None);
    reader.reset();
    assert_eq!(reader.it, 0);
}

#[test]
fn intrinsic_registry() {
    let mut evaluator = Evaluator::new();
    assert!(evaluator.is_intrinsic("+"));
    assert!(evaluator.is_intrinsic("eval"));
    assert!(evaluator.is_intrinsic("="));
    assert!(!evaluator.is_intrinsic("nop"));
    evaluator.add_intrinsic(Intrinsic::Nop);
    assert!(evaluator.is_intrinsic("nop"));
    assert_eq!(Intrinsic::Nop.name(), "nop");
    assert_eq!(Intrinsic::Div.name(), "/");
}

#[test]
fn eval_intrinsic_on_symbols_and_numbers() {
    // A symbol argument to `eval` is resolved through the environment.
    assert_eq!(eval("{ (def x 4) (eval x) }"), Ok(Num(bits(4.0))));
    // A number evaluates to itself once more.
    assert_eq!(eval("(eval 7)"), Ok(Num(bits(7.0))));
}

#[test]
fn number_parsing_is_exact() {
    // The reader's decimal conversion agrees with the platform's.
    for text in ["0.1", "2.5", "1e0", "123", "5.", ".5", "-0.0", "34.41"] {
        let mut reader = Reader::new();
        let code = String::from(text);
        let parsed = reader.read(&code);
        // "1e0" reads as the number 1 followed by the symbol e0: the
        // grammar has no exponent form.
        if text == "1e0" {
            assert_eq!(parsed.unwrap(), Num(bits(1.0)));
            continue;
        }
        assert_eq!(parsed.unwrap(), Num(bits(text.parse::<f64>().unwrap())));
    }
}

#[test]
fn value_helpers() {
    assert!(Bool(true).is_true());
    assert!(!Bool(false).is_true());
    assert!(!Value::Nil.is_true());
    assert!(!Num(bits(0.0)).is_true());
    assert!(!Num(bits(-0.0)).is_true());
    assert!(Num(bits(2.0)).is_true());
    assert!(Str("".into()).is_true());
    assert_eq!(Num(bits(4.0)).as_num(), bits(4.0));
    assert_eq!(Sym("x".into()).as_num(), bits(0.0));
    assert_eq!(
        List(vec![Num(bits(1.0))]).as_vec(),
        vec![Num(bits(1.0))]
    );
    assert_eq!(Bool(true).as_vec(), vec![]);
    let l = List(vec![Sym("a".into()), Num(bits(1.0))]);
    assert_eq!(owl::values::car(&l), Sym("a".into()));
    assert_eq!(owl::values::cdr(&l), List(vec![Num(bits(1.0))]));
    assert_eq!(owl::values::car(&Value::Nil), Value::Nil);
    assert_eq!(owl::values::cdr(&Value::Nil), Value::Nil);
}

#[test]
fn production_failures_restore_the_cursor() {
    let code = String::from("abc");
    let mut reader = Reader::new();
    assert_eq!(reader.read_number(&code), Err(ReaderError::NotANumber));
    assert_eq!(reader.it, 0);
    assert_eq!(reader.read_boolean(&code), Err(ReaderError::NotABoolean));
    assert_eq!(reader.it, 0);
    assert_eq!(reader.read_string(&code), Err(ReaderError::NotAString));
    assert_eq!(reader.it, 0);
    assert_eq!(reader.read_list(&code), Err(ReaderError::NotAList));
    assert_eq!(reader.it, 0);
    let hash = String::from("#x");
    assert_eq!(reader.read_boolean(&hash), Err(ReaderError::NotABoolean));
    assert_eq!(reader.it, 0);
    let empty = String::from("");
    assert_eq!(
        reader.read_symbol(&empty),
        Err(ReaderError::InvalidSymbol("Empty symbol".into()))
    );
    let no_list = String::from("a b");
    assert_eq!(reader.read_function_call(&no_list), Err(ReaderError::NotAList));
    assert_eq!(reader.it, 0);
}
