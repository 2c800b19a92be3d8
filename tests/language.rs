use scheme::cursor::ClingyIter;
use scheme::eval::{
    arith_table, copy_table, eval, eval_from_src, quote, ArithOp, EvalError, Printed, SValue,
    SourceError, SymTable,
};
use scheme::lexer::{is_symbol_char, tokenize, LexError, Token};
use scheme::reader::{parse_str_contents, read_sexp, ParseError, Sexp};

fn read_all(src: &str) -> Vec<Sexp> {
    let toks = tokenize(&src.to_string()).expect("lexes");
    let mut citer = ClingyIter::new(toks);
    let mut forms = Vec::new();
    while citer.value().is_some() {
        forms.push(read_sexp(&mut citer).expect("reads"));
    }
    forms
}

fn run_in(table: &mut SymTable, src: &str) -> Result<SValue, EvalError> {
    let mut out = Vec::new();
    let mut last = Ok(SValue::nil());
    for form in read_all(src) {
        last = eval(table, form, &mut out);
        if last.is_err() {
            return last;
        }
    }
    last
}

fn run(src: &str) -> Result<SValue, EvalError> {
    run_in(&mut SymTable::empty(), src)
}

fn sym(s: &str) -> Sexp {
    Sexp::Symbol(s.to_string())
}

#[test]
fn lexes_reads_and_evaluates_a_sum() {
    let toks = tokenize(&"(+ 1 2)".to_string()).unwrap();
    assert_eq!(
        toks,
        vec![
            Token::LeftParen,
            Token::Symbol("+".to_string()),
            Token::Number(1),
            Token::Number(2),
            Token::RightParen
        ]
    );
    let mut citer = ClingyIter::new(toks);
    let form = read_sexp(&mut citer).unwrap();
    assert_eq!(form, Sexp::List(vec![sym("+"), Sexp::Integer(1), Sexp::Integer(2)]));
    let mut table = SymTable::empty();
    let mut out = Vec::new();
    assert_eq!(eval(&mut table, form, &mut out), Ok(SValue::Number(3)));
    assert!(out.is_empty());
}

#[test]
fn unbalanced_input_is_an_unterminated_list() {
    let toks = tokenize(&"(+ 1 2".to_string()).unwrap();
    let mut citer = ClingyIter::new(toks);
    assert_eq!(read_sexp(&mut citer), Err(ParseError::UnterminatedList));
}

#[test]
fn unbound_symbol_is_named() {
    assert_eq!(run("foo"), Err(EvalError::UnboundSymbol("foo".to_string())));
}

#[test]
fn booleans_lex_to_their_values() {
    let toks = tokenize(&"#t #f".to_string()).unwrap();
    assert_eq!(toks, vec![Token::Bool(true), Token::Bool(false)]);
    assert_eq!(run("#f"), Ok(SValue::Bool(false)));
}

#[test]
fn quote_returns_its_argument_verbatim() {
    let expected = SValue::List(vec![
        SValue::Symbol("a".to_string()),
        SValue::List(vec![SValue::Symbol("undefined".to_string()), SValue::Number(2)]),
        SValue::List(vec![]),
        SValue::String("s".to_string()),
        SValue::Bool(true),
    ]);
    assert_eq!(run("(quote (a (undefined 2) () \"s\" #t))"), Ok(expected));
    assert_eq!(run("(quote ())"), Ok(SValue::nil()));
    assert_eq!(run("(quote)"), Err(EvalError::QuoteArity));
    assert_eq!(run("(quote a b)"), Err(EvalError::QuoteArity));
}

#[test]
fn quote_converts_nested_lists() {
    let form = Sexp::List(vec![sym("x"), Sexp::List(vec![Sexp::Integer(-4)])]);
    let expected = SValue::List(vec![
        SValue::Symbol("x".to_string()),
        SValue::List(vec![SValue::Number(-4)]),
    ]);
    assert_eq!(quote(&form), expected);
}

#[test]
fn sum_is_a_left_fold_from_zero() {
    assert_eq!(run("(+ 1 2 3 4)"), Ok(SValue::Number(10)));
    assert_eq!(run("(+)"), Ok(SValue::Number(0)));
    assert_eq!(run("(+ -5)"), Ok(SValue::Number(-5)));
    assert_eq!(run("(+ 1 (+ 2 3))"), Ok(SValue::Number(6)));
}

#[test]
fn product_and_reciprocal() {
    assert_eq!(run("(* 2 3 4)"), Ok(SValue::Number(24)));
    assert_eq!(run("(*)"), Ok(SValue::Number(1)));
    assert_eq!(run("(reciprocal 1)"), Ok(SValue::Number(1)));
    assert_eq!(run("(reciprocal -1)"), Ok(SValue::Number(-1)));
    assert_eq!(run("(reciprocal 2)"), Ok(SValue::Number(0)));
    assert_eq!(run("(reciprocal 0)"), Err(EvalError::DivisionByZero));
}

#[test]
fn arithmetic_errors() {
    assert_eq!(run("(+ 1 #t)"), Err(EvalError::TypeMismatch(ArithOp::Add)));
    assert_eq!(run("(* \"a\")"), Err(EvalError::TypeMismatch(ArithOp::Mul)));
    assert_eq!(run("(reciprocal (quote x))"), Err(EvalError::TypeMismatch(ArithOp::Reciprocal)));
    assert_eq!(run("(+ 9223372036854775807 1)"), Err(EvalError::Overflow));
    assert_eq!(run("(* -9223372036854775808 -1)"), Err(EvalError::Overflow));
    assert_eq!(run("(+ 9223372036854775807 -1)"), Ok(SValue::Number(9223372036854775806)));
}

#[test]
fn define_binds_in_the_same_environment() {
    let mut table = SymTable::empty();
    let snapshot = copy_table(&table);
    assert_eq!(run_in(&mut table, "(define x (+ 40 2))"), Ok(SValue::nil()));
    assert_eq!(run_in(&mut table, "x"), Ok(SValue::Number(42)));
    let mut before = snapshot;
    assert_eq!(run_in(&mut before, "x"), Err(EvalError::UnboundSymbol("x".to_string())));
    assert_eq!(run_in(&mut table, "(define x 7) x"), Ok(SValue::Number(7)));
}

#[test]
fn define_errors() {
    assert_eq!(run("(define 1 2)"), Err(EvalError::DefineForm));
    assert_eq!(run("(define x)"), Err(EvalError::DefineForm));
    assert_eq!(run("(define x 1 2)"), Err(EvalError::DefineForm));
    assert_eq!(run("(define x y)"), Err(EvalError::UnboundSymbol("y".to_string())));
}

#[test]
fn closure_adds_two_numbers() {
    assert_eq!(run("((lambda (a b) (+ a b)) 3 4)"), Ok(SValue::Number(7)));
    assert_eq!(
        run("((lambda (a b) (+ a b)) 3 #t)"),
        Err(EvalError::TypeMismatch(ArithOp::Add))
    );
    assert_eq!(run("((lambda (a b) (+ a b)) 3 4 5)"), Ok(SValue::Number(7)));
    assert_eq!(run("((lambda (a b) (+ a b)) 3)"), Err(EvalError::ArgumentCount));
}

#[test]
fn closures_capture_a_snapshot() {
    let mut table = SymTable::empty();
    assert_eq!(run_in(&mut table, "(define y 1)"), Ok(SValue::nil()));
    assert_eq!(run_in(&mut table, "(define f (lambda () y))"), Ok(SValue::nil()));
    assert_eq!(run_in(&mut table, "(define y 2)"), Ok(SValue::nil()));
    assert_eq!(run_in(&mut table, "(f)"), Ok(SValue::Number(1)));
    assert_eq!(run_in(&mut table, "((lambda (z) (define z 5)) 1) y"), Ok(SValue::Number(2)));
}

#[test]
fn lambda_and_call_errors() {
    assert_eq!(run("(lambda x x)"), Err(EvalError::LambdaForm));
    assert_eq!(run("(lambda (1) 1)"), Err(EvalError::LambdaForm));
    assert_eq!(run("(lambda (x))"), Err(EvalError::LambdaForm));
    assert_eq!(run("(lambda (x) x x)"), Err(EvalError::LambdaForm));
    assert_eq!(run("(1 2)"), Err(EvalError::NotCallable));
    assert_eq!(run("()"), Err(EvalError::EmptyCombination));
    assert_eq!(
        run("((lambda (f) (f f)) (lambda (f) (f f)))"),
        Err(EvalError::DepthExceeded)
    );
}

#[test]
fn display_and_write_hand_values_to_the_output() {
    let mut table = SymTable::empty();
    let mut out = Vec::new();
    let forms = read_all("(display 5) (write \"hi\")");
    let mut results = Vec::new();
    for f in forms {
        results.push(eval(&mut table, f, &mut out));
    }
    assert_eq!(results, vec![Ok(SValue::nil()), Ok(SValue::nil())]);
    assert_eq!(
        out,
        vec![Printed::Display(SValue::Number(5)), Printed::Write(SValue::String("hi".to_string()))]
    );
    assert_eq!(run("(display)"), Err(EvalError::PrintArity));
    assert_eq!(run("(write 1 2)"), Err(EvalError::PrintArity));
}

#[test]
fn starting_table_doubles() {
    let mut table = arith_table();
    assert_eq!(run_in(&mut table, "(double 21)"), Ok(SValue::Number(42)));
    assert!(table.lookup(&"double".to_string()).is_some());
    assert!(table.lookup(&"triple".to_string()).is_none());
}

#[test]
fn table_assign_overwrites() {
    let mut table = SymTable::empty();
    table.assign(&"a".to_string(), SValue::Number(1));
    table.assign(&"b".to_string(), SValue::Number(2));
    table.assign(&"a".to_string(), SValue::Number(3));
    assert_eq!(table.items.len(), 2);
    assert_eq!(table.lookup(&"a".to_string()), Some(SValue::Number(3)));
    assert_eq!(table.lookup(&"b".to_string()), Some(SValue::Number(2)));
    let from = SymTable::from(vec![("k".to_string(), SValue::Bool(true))]);
    assert_eq!(from.lookup(&"k".to_string()), Some(SValue::Bool(true)));
}

#[test]
fn source_runs_end_to_end() {
    let mut out = Vec::new();
    assert_eq!(eval_from_src("(* 6 7)".to_string(), &mut out), Ok(SValue::Number(42)));
    assert_eq!(
        eval_from_src("(+ 1 [".to_string(), &mut out),
        Err(SourceError::Lex(LexError::IllegalCharacter('[')))
    );
    assert_eq!(
        eval_from_src(")".to_string(), &mut out),
        Err(SourceError::Parse(ParseError::UnexpectedCloseParen))
    );
    assert_eq!(
        eval_from_src("zz".to_string(), &mut out),
        Err(SourceError::Eval(EvalError::UnboundSymbol("zz".to_string())))
    );
}

#[test]
fn lexical_errors() {
    let lex = |s: &str| tokenize(&s.to_string());
    assert_eq!(lex("(a [b])"), Err(LexError::IllegalCharacter('[')));
    assert_eq!(lex("1.5"), Err(LexError::IllegalNumber("1.5".to_string())));
    assert_eq!(lex("12abc"), Err(LexError::IllegalNumber("12abc".to_string())));
    assert_eq!(
        lex("99999999999999999999"),
        Err(LexError::IllegalNumber("99999999999999999999".to_string()))
    );
    assert_eq!(lex("#x"), Err(LexError::IllegalHash("#x".to_string())));
    assert_eq!(lex("#"), Err(LexError::IllegalHash("#".to_string())));
    assert_eq!(lex("\"abc"), Err(LexError::UnterminatedString));
    assert_eq!(lex("\"ab\\\""), Err(LexError::UnterminatedString));
}

#[test]
fn symbols_and_numbers_are_told_apart() {
    let toks = tokenize(&"-5 +7 - + -x a1 <=? λ".to_string()).unwrap();
    assert_eq!(
        toks,
        vec![
            Token::Number(-5),
            Token::Number(7),
            Token::Symbol("-".to_string()),
            Token::Symbol("+".to_string()),
            Token::Symbol("-x".to_string()),
            Token::Symbol("a1".to_string()),
            Token::Symbol("<=?".to_string()),
            Token::Symbol("λ".to_string()),
        ]
    );
    assert_eq!(
        tokenize(&"-9223372036854775808".to_string()).unwrap(),
        vec![Token::Number(i64::MIN)]
    );
    assert!(is_symbol_char('a'));
    assert!(is_symbol_char('~'));
    assert!(is_symbol_char('é'));
    assert!(!is_symbol_char('('));
    assert!(!is_symbol_char(' '));
    assert!(!is_symbol_char('#'));
}

#[test]
fn strings_keep_raw_contents_until_read() {
    let toks = tokenize(&"\"a\\nb\" x".to_string()).unwrap();
    assert_eq!(
        toks,
        vec![Token::String("a\\nb".to_string()), Token::Symbol("x".to_string())]
    );
    let mut citer = ClingyIter::new(toks);
    assert_eq!(read_sexp(&mut citer), Ok(Sexp::String("a\nb".to_string())));
    assert_eq!(read_sexp(&mut citer), Ok(sym("x")));
    assert_eq!(read_sexp(&mut citer), Err(ParseError::NoTokens));
}

#[test]
fn escapes_resolve() {
    let p = |s: &str| parse_str_contents(&s.to_string());
    assert_eq!(p("\\\\ \\n \\t \\\" \\r"), Ok("\\ \n \t \" \r".to_string()));
    assert_eq!(p("plain"), Ok("plain".to_string()));
    assert_eq!(p("bad \\q"), Err(ParseError::InvalidEscape('q')));
    assert_eq!(p("end \\"), Err(ParseError::DanglingEscape));
}

#[test]
fn reader_errors() {
    let toks = tokenize(&") (".to_string()).unwrap();
    let mut citer = ClingyIter::new(toks);
    assert_eq!(read_sexp(&mut citer), Err(ParseError::UnexpectedCloseParen));
    let mut empty = ClingyIter::new(Vec::<Token>::new());
    assert_eq!(read_sexp(&mut empty), Err(ParseError::NoTokens));
    let toks = tokenize(&"(\"\\q\")".to_string()).unwrap();
    let mut citer = ClingyIter::new(toks);
    assert_eq!(read_sexp(&mut citer), Err(ParseError::InvalidEscape('q')));
}

#[test]
fn cursor_walks_items() {
    let mut c = ClingyIter::new(vec![1u8, 2]);
    assert_eq!(c.value(), Some(&1));
    c.advance();
    assert_eq!(c.value(), Some(&2));
    c.advance();
    assert_eq!(c.value(), None);
    c.advance();
    assert_eq!(c.value(), None);
}

#[test]
fn several_forms_read_from_one_line() {
    let forms = read_all("(define a 1) (+ a 2) #t");
    assert_eq!(forms.len(), 3);
    assert_eq!(run("(define a 1) (+ a 2)"), Ok(SValue::Number(3)));
}

#[test]
fn values_render_for_display_and_write() {
    let v = SValue::List(vec![
        SValue::Number(-12),
        SValue::String("a\"b\n".to_string()),
        SValue::Symbol("sym".to_string()),
        SValue::List(vec![]),
        SValue::Bool(false),
    ]);
    assert_eq!(v.display_string(), "(-12 a\"b\n sym () #f)");
    assert_eq!(v.write_string(), "(-12 \"a\\\"b\\n\" sym () #f)");
    assert_eq!(SValue::nil().display_string(), "()");
    assert_eq!(SValue::Number(i64::MIN).display_string(), "-9223372036854775808");
    assert_eq!(SValue::Number(0).write_string(), "0");
    let f = run("(lambda (x) x)").unwrap();
    assert_eq!(f.display_string(), "#<procedure>");
}

#[test]
fn rendered_forms_read_back_equal() {
    let src = "(a (1 -2 9223372036854775807) #t #f () (b (c)) <=? -)";
    let forms = read_all(src);
    assert_eq!(forms.len(), 1);
    let text = scheme::render::render_sexp(&forms[0]);
    assert_eq!(text, src);
    let again = read_all(&text);
    assert_eq!(again, forms);
}

#[test]
fn lambda_rejects_repeated_parameters() {
    assert_eq!(run("(lambda (x y x) y)"), Err(EvalError::DuplicateParameter));
    assert_eq!(run("((lambda (x y) y) 1 2)"), Ok(SValue::Number(2)));
}

#[test]
fn rendered_strings_read_back_equal() {
    let form = Sexp::List(vec![
        Sexp::String("tab\there \"quoted\" back\\slash\nline\r".to_string()),
        Sexp::String(String::new()),
        sym("s"),
    ]);
    let text = scheme::render::render_sexp(&form);
    assert_eq!(text, "(\"tab\\there \\\"quoted\\\" back\\\\slash\\nline\\r\" \"\" s)");
    assert_eq!(read_all(&text), vec![form]);
}
