use kal::checker::analyze;
use kal::program::{ExpressionKind, Program};
use kal::syntax::{parse, tokenize, Expression, Token};
use kal::codegen::{build_module, emit_object};
use kal::types::{unify, Type};
use kal::{compile, default_output_path, output_path_from_stem, Error};
use cranelift_module::{Linkage, Module};

const HELLO_WORLD: &str = r#"(defn main ((args (Array String))) -> Int
  (do
    (print "Hello, world!")
    0))
"#;

const SHOW: &str = r#"
(trait Show (fn show ((value Self)) -> Int))
(impl Show for Int (fn show ((value Int)) -> Int value))
"#;

fn check(source: &str) -> Result<Program, Error> {
    let expressions = parse(source)?;
    analyze(expressions)
}

fn check_error(source: &str) -> String {
    match check(source) {
        Ok(_) => panic!("the program should be rejected"),
        Err(error) => error.message(),
    }
}

fn compilation_error(source: &str) -> String {
    match compile(source) {
        Ok(_) => panic!("the program should not compile"),
        Err(error) => error.message(),
    }
}

fn main_returning(body: &str) -> String {
    format!("(defn main ((args (Array String))) -> Int {body})")
}

fn symbols(program: &Program) -> Vec<String> {
    program.functions.iter().map(|function| function.symbol.clone()).collect()
}

fn atom(text: &str) -> Token {
    Token::Atom(text.to_string())
}

fn symbol(text: &str) -> Expression {
    Expression::Symbol(text.to_string())
}

// ---------------------------------------------------------------------------
// Reading
// ---------------------------------------------------------------------------

#[test]
fn tokenizes_brackets_strings_and_comments() {
    let tokens = tokenize("(a [b] \"x\\ny\") ; comment )\n d").expect("tokenize");
    assert_eq!(
        tokens,
        vec![
            Token::LeftParenthesis,
            atom("a"),
            Token::LeftBracket,
            atom("b"),
            Token::RightBracket,
            Token::String("x\ny".to_string()),
            Token::RightParenthesis,
            atom("d"),
        ]
    );
}

#[test]
fn atoms_end_at_delimiters() {
    let tokens = tokenize("ab(cd;x\n)").expect("tokenize");
    assert_eq!(
        tokens,
        vec![atom("ab"), Token::LeftParenthesis, atom("cd"), Token::RightParenthesis]
    );
}

#[test]
fn atoms_split_exactly_at_unicode_white_space() {
    for code in 0u32..0x3100 {
        let c = match char::from_u32(code) {
            Some(c) => c,
            None => continue,
        };
        if "()[];\"".contains(c) {
            continue;
        }
        let source = format!("a{}b", c);
        let tokens = tokenize(&source).expect("tokenize");
        if c.is_whitespace() {
            assert_eq!(tokens, vec![atom("a"), atom("b")], "U+{:04X}", code);
        } else {
            assert_eq!(tokens, vec![atom(&source)], "U+{:04X}", code);
        }
    }
}

#[test]
fn reads_every_supported_escape() {
    let tokens = tokenize(r#""\n\r\t\"\\""#).expect("tokenize");
    assert_eq!(tokens, vec![Token::String("\n\r\t\"\\".to_string())]);
}

#[test]
fn reports_an_unterminated_string() {
    let error = tokenize("\"abc").expect_err("unterminated");
    assert_eq!(error.message(), "unterminated string literal");
}

#[test]
fn reports_an_unsupported_escape() {
    let error = tokenize(r#""a\q""#).expect_err("bad escape");
    assert_eq!(error.message(), "unsupported string escape `\\q`");
}

#[test]
fn reports_an_unterminated_escape() {
    let error = tokenize("\"a\\").expect_err("unterminated escape");
    assert_eq!(error.message(), "unterminated escape sequence in string");
}

#[test]
fn parses_integers_and_symbols() {
    let expressions =
        parse("(f 42 -7 +5 x 9223372036854775807 -9223372036854775808 9223372036854775808 - 1a)")
            .expect("parse");
    assert_eq!(
        expressions,
        vec![Expression::List(vec![
            symbol("f"),
            Expression::Integer(42),
            Expression::Integer(-7),
            Expression::Integer(5),
            symbol("x"),
            Expression::Integer(i64::MAX),
            Expression::Integer(i64::MIN),
            symbol("9223372036854775808"),
            symbol("-"),
            symbol("1a"),
        ])]
    );
}

#[test]
fn parses_several_top_level_forms() {
    let expressions = parse("(a) [b \"s\"] c").expect("parse");
    assert_eq!(
        expressions,
        vec![
            Expression::List(vec![symbol("a")]),
            Expression::List(vec![symbol("b"), Expression::String("s".to_string())]),
            symbol("c"),
        ]
    );
}

#[test]
fn parse_requires_a_top_level_form() {
    let error = parse("  ; nothing here\n").expect_err("empty");
    assert_eq!(error.message(), "expected a top-level form");
}

#[test]
fn parse_reports_unbalanced_brackets() {
    assert_eq!(parse("(a").expect_err("open").message(), "unterminated list");
    assert_eq!(parse(")").expect_err("close").message(), "unexpected `)`");
    assert_eq!(parse("[a").expect_err("open").message(), "unterminated generic parameter list");
    assert_eq!(parse("]").expect_err("close").message(), "unexpected `]`");
    assert_eq!(parse("(a ]").expect_err("mismatch").message(), "unexpected `]`");
}

// ---------------------------------------------------------------------------
// Checking
// ---------------------------------------------------------------------------

#[test]
fn checks_hello_world() {
    let program = check(HELLO_WORLD).expect("valid program");
    assert_eq!(symbols(&program), vec!["main".to_string()]);
    assert_eq!(program.main, 0);
    assert_eq!(program.strings, vec![b"Hello, world!".to_vec()]);
    let main = &program.functions[0];
    assert_eq!(main.parameters, vec![Type::Array(Box::new(Type::String))]);
    assert_eq!(main.return_type, Type::Int);
    assert_eq!(main.body.ty, Type::Int);
    match &main.body.kind {
        ExpressionKind::Do(expressions) => {
            assert_eq!(expressions.len(), 2);
            assert!(matches!(expressions[0].kind, ExpressionKind::Print(0)));
            assert_eq!(expressions[0].ty, Type::Unit);
            assert!(matches!(expressions[1].kind, ExpressionKind::Integer(0)));
        }
        other => panic!("unexpected body {other:?}"),
    }
}

#[test]
fn rejects_a_main_that_returns_a_string() {
    let source = "(defn main ((args (Array String))) -> String\n  \"not a valid main\")\n";
    assert_eq!(check_error(source), "main must return `Int`");
    assert_eq!(compilation_error(source), "main must return `Int`");
}

#[test]
fn requires_a_main_function() {
    assert_eq!(check_error("(defn helper () -> Int 1)"), "program must define `main`");
}

#[test]
fn requires_the_entry_parameter() {
    assert_eq!(
        check_error("(defn main () -> Int 0)"),
        "main must accept exactly one `Array String` parameter"
    );
    assert_eq!(
        check_error("(defn main ((args (Array Int))) -> Int 0)"),
        "main must accept exactly one `Array String` parameter"
    );
}

#[test]
fn reports_a_body_of_the_wrong_type() {
    assert_eq!(
        check_error(&main_returning("\"text\"")),
        "main body has type `String`, expected `Int`"
    );
    let source = format!("(defn f () -> Int (print \"x\")) {}", main_returning("(f)"));
    assert_eq!(check_error(&source), "function `f` body has type `Unit`, expected `Int`");
}

#[test]
fn addition_requires_integers() {
    assert_eq!(
        check_error(&main_returning("(+ 1 \"two\")")),
        "`+` requires two `Int` arguments"
    );
    assert_eq!(check_error(&main_returning("(+ 1)")), "`+` requires exactly two arguments");
}

#[test]
fn reports_unknown_names_and_operators() {
    assert_eq!(check_error(&main_returning("y")), "unknown name `y`");
    assert_eq!(
        check_error(&main_returning("(nope 1)")),
        "no function or trait method `nope` accepts the supplied argument types"
    );
    assert_eq!(
        check_error(&main_returning("(1 2)")),
        "expression must begin with an operator"
    );
}

#[test]
fn print_takes_one_string_literal() {
    assert_eq!(
        check_error(&main_returning("(do (print 1) 0)")),
        "`print` requires exactly one string literal"
    );
    assert_eq!(
        check_error(&main_returning("(do (print \"a\" \"b\") 0)")),
        "`print` requires exactly one string literal"
    );
}

#[test]
fn do_requires_an_expression() {
    assert_eq!(
        check_error(&main_returning("(do)")),
        "`do` requires at least one expression"
    );
}

#[test]
fn do_has_the_type_of_its_last_expression() {
    let program = check(&main_returning("(do 1 \"s\" (print \"p\") 7)")).expect("valid");
    let body = &program.functions[program.main].body;
    assert_eq!(body.ty, Type::Int);
    match &body.kind {
        ExpressionKind::Do(expressions) => {
            let types: Vec<Type> = expressions.iter().map(|e| e.ty.duplicate()).collect();
            assert_eq!(types, vec![Type::Int, Type::String, Type::Unit, Type::Int]);
        }
        other => panic!("unexpected body {other:?}"),
    }
}

#[test]
fn records_printed_strings_in_order() {
    let program =
        check(&main_returning("(do (print \"a\") (print \"b\") (print \"a\") 0)")).expect("valid");
    assert_eq!(program.strings, vec![b"a".to_vec(), b"b".to_vec(), b"a".to_vec()]);
}

#[test]
fn records_strings_as_utf8_bytes() {
    let program = check(&main_returning("(do (print \"h\u{e9}llo \u{1F600}\\n\") 0)")).expect("valid");
    assert_eq!(program.strings, vec!["h\u{e9}llo \u{1F600}\n".as_bytes().to_vec()]);
}

#[test]
fn calls_a_function_with_parameters() {
    let source = format!("(defn add ((l Int) (r Int)) -> Int (+ l r)) {}", main_returning("(add 1 2)"));
    let program = check(&source).expect("valid");
    assert_eq!(symbols(&program), vec!["kal.fn.add".to_string(), "main".to_string()]);
    assert_eq!(program.main, 1);
    let add = &program.functions[0];
    match &add.body.kind {
        ExpressionKind::Add(left, right) => {
            assert!(matches!(left.kind, ExpressionKind::Parameter(0)));
            assert!(matches!(right.kind, ExpressionKind::Parameter(1)));
        }
        other => panic!("unexpected body {other:?}"),
    }
    match &program.functions[1].body.kind {
        ExpressionKind::Call { function, arguments } => {
            assert_eq!(*function, 0);
            assert_eq!(arguments.len(), 2);
        }
        other => panic!("unexpected body {other:?}"),
    }
}

#[test]
fn checks_call_arguments() {
    let source = format!("(defn add ((l Int) (r Int)) -> Int (+ l r)) {}", main_returning("(add 1)"));
    assert_eq!(check_error(&source), "arguments to `add` do not match its parameter types");
}

#[test]
fn function_names_are_unique() {
    let source = format!("(defn f () -> Int 1) (defn f () -> Int 2) {}", main_returning("0"));
    assert_eq!(check_error(&source), "function `f` is defined more than once");
}

#[test]
fn parameter_names_are_unique() {
    let source = format!("(defn f ((a Int) (a Int)) -> Int a) {}", main_returning("0"));
    assert_eq!(check_error(&source), "function parameter `a` is declared more than once");
}

#[test]
fn rejects_unknown_top_level_forms_and_types() {
    assert_eq!(check_error("(def x 1)"), "unsupported top-level form `def`");
    assert_eq!(check_error("(defn main ((args (Vec String))) -> Int 0)"), "unknown type");
    assert_eq!(check_error("7"), "top-level form must be a list");
}

#[test]
fn reports_malformed_functions() {
    assert_eq!(
        check_error("(defn f () -> Int)"),
        "function `f` must contain exactly one body expression"
    );
    assert_eq!(check_error("(defn f () Int 1 2)"), "expected `->` before the return type");
    assert_eq!(check_error("(defn 7 () -> Int 1)"), "function is missing its name");
    assert_eq!(check_error("(defn f (x) -> Int 1)"), "function parameter must be `(name type)`");
    assert_eq!(check_error("(defn f x -> Int 1)"), "function parameters must be a list");
}

#[test]
fn reports_malformed_generic_parameters() {
    assert_eq!(
        check_error("(defn f [T] ((x T)) -> Int 1)"),
        "generic parameters require a `where` clause"
    );
    assert_eq!(
        check_error("(defn f [T where] ((x T)) -> Int 1)"),
        "generic parameters require names and at least one trait requirement"
    );
    assert_eq!(
        check_error("(defn f [T T where (implements T Show)] ((x T)) -> Int 1)"),
        "generic parameter `T` is declared more than once"
    );
    assert_eq!(
        check_error("(defn f [T where (implements T)] ((x T)) -> Int 1)"),
        "trait requirement must be `(implements TypeParameter Trait)`"
    );
    assert_eq!(
        check_error("(defn f [T where (needs T Show)] ((x T)) -> Int 1)"),
        "trait requirement must start with `implements`"
    );
    assert_eq!(
        check_error("(defn f [T where (implements U Show)] ((x T)) -> Int 1)"),
        "trait requirement references unknown type parameter `U`"
    );
    assert_eq!(
        check_error("(defn f [T where x] ((x T)) -> Int 1)"),
        "trait requirement must be a list"
    );
}

#[test]
fn reports_malformed_traits_and_implementations() {
    assert_eq!(check_error("(trait Show)"), "trait `Show` must declare at least one method");
    assert_eq!(
        check_error("(trait Show (fn show ((v Self)) -> Int 1))"),
        "trait method must contain only a signature"
    );
    assert_eq!(
        check_error("(trait Show (fn show ((v Self)) -> Int) (fn show ((v Self)) -> Int))"),
        "method `show` is declared more than once in trait"
    );
    assert_eq!(check_error("(impl Show to Int (fn show ((v Int)) -> Int v))"), "expected `for` in trait implementation");
    assert_eq!(check_error("(impl Show for Int)"), "trait implementation must define its methods");
    assert_eq!(
        check_error("(impl Show for Int (defn show ((v Int)) -> Int v))"),
        "function must start with `fn`"
    );
    assert_eq!(
        check_error("(impl Show for Self (fn show ((v Int)) -> Int v))"),
        "unknown type"
    );
}

// ---------------------------------------------------------------------------
// Traits and generic functions
// ---------------------------------------------------------------------------

#[test]
fn specializes_a_generic_function_once_per_type() {
    let source = format!(
        "{SHOW}(defn twice [T where (implements T Show)] ((x T)) -> Int (+ (show x) (show x))) {}",
        main_returning("(+ (twice 20) (twice 1))")
    );
    let program = check(&source).expect("valid");
    assert_eq!(
        symbols(&program),
        vec!["main".to_string(), "kal.impl.Show.Int.show".to_string(), "kal.fn.twice.Int".to_string()]
    );
    let twice = &program.functions[2];
    assert_eq!(twice.parameters, vec![Type::Int]);
    assert_eq!(twice.return_type, Type::Int);
    match &program.functions[0].body.kind {
        ExpressionKind::Add(left, right) => {
            assert!(matches!(left.kind, ExpressionKind::Call { function: 2, .. }));
            assert!(matches!(right.kind, ExpressionKind::Call { function: 2, .. }));
        }
        other => panic!("unexpected body {other:?}"),
    }
}

#[test]
fn every_checked_body_has_its_function_type() {
    let source = format!(
        "{SHOW}(defn pick [T where (implements T Show)] ((x T) (y T)) -> T y) {}",
        main_returning("(do (print \"x\") (show (pick 1 2)))")
    );
    let program = check(&source).expect("valid");
    for function in &program.functions {
        assert_eq!(function.body.ty, function.return_type, "{}", function.symbol);
    }
    assert!(symbols(&program).contains(&"kal.fn.pick.Int".to_string()));
}

#[test]
fn generic_requirements_must_hold() {
    let source = format!(
        "{SHOW}(defn twice [T where (implements T Show)] ((x T)) -> Int (show x)) {}",
        main_returning("(twice \"s\")")
    );
    assert_eq!(
        check_error(&source),
        "type `String` does not implement trait `Show` required by `twice`"
    );
}

#[test]
fn generic_calls_check_their_arguments() {
    let source = format!(
        "{SHOW}(defn twice [T where (implements T Show)] ((x T)) -> Int (show x)) {}",
        main_returning("(twice 1 2)")
    );
    assert_eq!(check_error(&source), "function `twice` expects 1 arguments, received 2");
    let source = format!(
        "{SHOW}(defn same [T where (implements T Show)] ((x T) (y T)) -> Int (show x)) {}",
        main_returning("(same 1 \"s\")")
    );
    assert_eq!(check_error(&source), "arguments to `same` do not match its parameter types");
}

#[test]
fn type_parameters_must_be_determined() {
    let source = format!(
        "{SHOW}(defn make [T where (implements T Show)] () -> Int 1) {}",
        main_returning("(make)")
    );
    assert_eq!(check_error(&source), "could not determine type parameter `T` for `make`");
}

#[test]
fn requirements_name_known_traits() {
    let source = format!(
        "(defn f [T where (implements T Nope)] ((x T)) -> Int 1) {}",
        main_returning("0")
    );
    assert_eq!(check_error(&source), "unknown trait `Nope` in requirements for `f`");
}

#[test]
fn generic_bodies_are_checked_before_use() {
    let source = format!(
        "{SHOW}(defn f [T where (implements T Show)] ((x T)) -> Int x) {}",
        main_returning("0")
    );
    assert_eq!(check_error(&source), "function `f` body has type `T`, expected `Int`");
}

#[test]
fn implementations_match_their_traits() {
    let missing = format!("(trait Show (fn show ((value Self)) -> Int)) (impl Show for Int (fn other ((value Int)) -> Int value)) {}", main_returning("0"));
    assert_eq!(check_error(&missing), "implementation of `Show` for `Int` is missing method `show`");
    let extra = format!(
        "{SHOW}(impl Show for String (fn show ((value String)) -> Int 1) (fn extra ((value String)) -> Int 2)) {}",
        main_returning("0")
    );
    assert_eq!(check_error(&extra), "method `extra` is not declared by trait `Show`");
    let mismatched = format!(
        "(trait Show (fn show ((value Self)) -> Int)) (impl Show for Int (fn show ((value String)) -> Int 1)) {}",
        main_returning("0")
    );
    assert_eq!(check_error(&mismatched), "method `show` does not match trait `Show` for `Int`");
    let twice = format!("{SHOW}(impl Show for Int (fn show ((value Int)) -> Int 2)) {}", main_returning("0"));
    assert_eq!(check_error(&twice), "trait `Show` is implemented more than once for `Int`");
    let unknown = format!("(impl Show for Int (fn show ((value Int)) -> Int 2)) {}", main_returning("0"));
    assert_eq!(check_error(&unknown), "unknown trait `Show` in implementation");
}

#[test]
fn trait_names_are_unique() {
    let source = format!(
        "(trait Show (fn show ((value Self)) -> Int)) (trait Show (fn other ((value Self)) -> Int)) {}",
        main_returning("0")
    );
    assert_eq!(check_error(&source), "trait names must be unique");
}

#[test]
fn trait_method_calls_resolve_to_the_implementation() {
    let source = format!("{SHOW}{}", main_returning("(show 5)"));
    let program = check(&source).expect("valid");
    match &program.functions[program.main].body.kind {
        ExpressionKind::Call { function, .. } => {
            assert_eq!(program.functions[*function].symbol, "kal.impl.Show.Int.show");
        }
        other => panic!("unexpected body {other:?}"),
    }
}

#[test]
fn reports_an_ambiguous_trait_call() {
    let source = format!(
        "{SHOW}(trait Also (fn show ((value Self)) -> Int)) (impl Also for Int (fn show ((value Int)) -> Int 3)) {}",
        main_returning("(show 5)")
    );
    assert_eq!(check_error(&source), "call to trait method `show` is ambiguous");
}

#[test]
fn specializations_nest_as_deeply_as_the_program_calls() {
    let mut source = String::from(SHOW);
    source.push_str("(defn level0 [T where (implements T Show)] ((x T)) -> Int (show x)) ");
    for level in 1..=110 {
        source.push_str(&format!(
            "(defn level{level} [T where (implements T Show)] ((x T)) -> Int (level{} x)) ",
            level - 1
        ));
    }
    source.push_str(&main_returning("(level110 7)"));
    let program = check(&source).expect("check");
    assert!(symbols(&program).contains(&"kal.fn.level0.Int".to_string()));
    assert!(symbols(&program).contains(&"kal.fn.level110.Int".to_string()));
}

// ---------------------------------------------------------------------------
// Code generation
// ---------------------------------------------------------------------------

fn assert_elf(bytes: &[u8]) {
    assert!(bytes.len() > 20);
    assert_eq!(&bytes[..4], b"\x7fELF");
}

#[test]
fn compiles_hello_world_to_an_object_file() {
    let object = compile(HELLO_WORLD).expect("compile");
    assert_elf(&object);
}

#[test]
fn compiles_calls_with_parameters() {
    let source = format!(
        "{SHOW}(defn add ((l Int) (r Int)) -> Int (+ l r)) \
         (defn twice [T where (implements T Show)] ((x T)) -> Int (add (show x) (show x))) {}",
        main_returning("(do (print \"hi\") (twice 21))")
    );
    assert_elf(&compile(&source).expect("compile"));
}

#[test]
fn main_cannot_read_its_arguments_yet() {
    assert_eq!(
        compilation_error(&main_returning("(do args 0)")),
        "using the native `args` value is not implemented yet"
    );
}

#[test]
fn unit_parameters_have_no_native_type() {
    let source = format!("(defn f ((u Unit)) -> Int 1) {}", main_returning("(f (print \"x\"))"));
    assert!(check(&source).is_ok());
    assert_eq!(compilation_error(&source), "`Unit` cannot be used as a function parameter");
}

#[test]
fn compile_reports_reader_errors() {
    assert_eq!(compilation_error("(defn main"), "unterminated list");
}

// ---------------------------------------------------------------------------
// Paths, diagnostics, types
// ---------------------------------------------------------------------------

#[test]
fn default_output_is_the_file_stem() {
    assert_eq!(default_output_path("program.kal").expect("stem"), "program");
    assert_eq!(default_output_path("examples/hello.kal").expect("stem"), "hello");
    assert_eq!(default_output_path("archive.tar.gz").expect("stem"), "archive.tar");
    assert_eq!(default_output_path("noext").expect("stem"), "noext");
    assert_eq!(default_output_path(".hidden").expect("stem"), ".hidden");
}

#[test]
fn paths_without_a_file_name_are_refused() {
    assert_eq!(default_output_path("").expect_err("empty").message(), " has no file name");
    assert_eq!(default_output_path("/").expect_err("root").message(), "/ has no file name");
    assert_eq!(default_output_path("a/..").expect_err("parent").message(), "a/.. has no file name");
}

#[test]
fn output_path_follows_the_stem() {
    assert_eq!(output_path_from_stem("x.kal", Some("x".to_string())).expect("ok"), "x");
    assert_eq!(
        output_path_from_stem("x", Some(String::new())).expect_err("empty").message(),
        "x has no file name"
    );
    assert_eq!(
        output_path_from_stem("dir/", None).expect_err("none").message(),
        "dir/ has no file name"
    );
}

#[test]
fn errors_carry_their_message() {
    assert_eq!(Error::new("boom".to_string()).message(), "boom");
}

#[test]
fn types_are_written_as_in_source() {
    let ty = Type::Array(Box::new(Type::Array(Box::new(Type::String))));
    assert_eq!(ty.text(), "(Array (Array String))");
    assert_eq!(Type::Parameter("T".to_string()).text(), "T");
    assert_eq!(Type::TraitSelf.text(), "Self");
    assert!(ty.same(&ty.duplicate()));
    assert!(!Type::Int.same(&Type::Unit));
}

// ---------------------------------------------------------------------------
// The object module
// ---------------------------------------------------------------------------

fn declared_functions(module: &cranelift_object::ObjectModule) -> Vec<(String, Linkage, usize, usize)> {
    module
        .declarations()
        .get_functions()
        .map(|(_, declaration)| {
            (
                declaration.name.clone().expect("named"),
                declaration.linkage,
                declaration.signature.params.len(),
                declaration.signature.returns.len(),
            )
        })
        .collect()
}

fn declared_data(module: &cranelift_object::ObjectModule) -> Vec<(String, Linkage, bool)> {
    module
        .declarations()
        .get_data_objects()
        .map(|(_, declaration)| (declaration.name.clone().expect("named"), declaration.linkage, declaration.writable))
        .collect()
}

#[test]
fn hello_world_module_exports_main_and_imports_write() {
    let program = check(HELLO_WORLD).expect("check");
    let module = build_module(&program).expect("module");
    assert_eq!(
        declared_functions(&module),
        vec![("write".to_string(), Linkage::Import, 3, 1), ("main".to_string(), Linkage::Export, 2, 1)]
    );
    assert_eq!(declared_data(&module), vec![("kal.string.0".to_string(), Linkage::Local, false)]);
    assert_eq!(program.strings, vec![b"Hello, world!".to_vec()]);
}

#[test]
fn module_has_one_local_function_per_program_function() {
    let source = format!(
        "(defn add ((l Int) (r Int)) -> Int (+ l r)) (defn say ((s String)) -> Unit (print \"x\")) {}",
        main_returning("(do (print \"a\") (print \"b\") (add 1 2))")
    );
    let program = check(&source).expect("check");
    let module = build_module(&program).expect("module");
    let mut expected = vec![("write".to_string(), Linkage::Import, 3, 1)];
    for (index, function) in program.functions.iter().enumerate() {
        let linkage = if index == program.main { Linkage::Export } else { Linkage::Local };
        let (parameters, results) = match function.symbol.as_str() {
            "main" => (2, 1),
            "kal.fn.add" => (2, 1),
            "kal.fn.say" => (1, 0),
            other => panic!("unexpected function {other}"),
        };
        expected.push((function.symbol.clone(), linkage, parameters, results));
    }
    assert_eq!(declared_functions(&module), expected);
    assert_eq!(
        declared_data(&module),
        vec![
            ("kal.string.0".to_string(), Linkage::Local, false),
            ("kal.string.1".to_string(), Linkage::Local, false),
            ("kal.string.2".to_string(), Linkage::Local, false),
        ]
    );
}

#[test]
fn emit_object_reports_the_first_body_diagnostic() {
    let program = check(&main_returning("(do args 0)")).expect("check");
    assert_eq!(
        emit_object(&program).expect_err("args").message(),
        "using the native `args` value is not implemented yet"
    );
}

#[test]
fn emit_object_writes_an_object_file() {
    let program = check(HELLO_WORLD).expect("check");
    assert_elf(&emit_object(&program).expect("object"));
}

#[test]
fn additions_compile_in_every_position() {
    let source = format!(
        "(defn add3 ((a Int) (b Int) (c Int)) -> Int (+ (+ a b) c)) {}",
        main_returning("(add3 (+ 1 2) (+ 3 4) 9223372036854775807)")
    );
    assert_elf(&compile(&source).expect("compile"));
}

// ---------------------------------------------------------------------------
// Whitespace and unification
// ---------------------------------------------------------------------------

#[test]
fn unicode_white_space_separates_atoms() {
    let tokens = tokenize("a\u{3000}b\u{2028}c\u{85}d").expect("tokens");
    assert_eq!(tokens, vec![atom("a"), atom("b"), atom("c"), atom("d")]);
    let joined = tokenize("a\u{200b}b").expect("tokens");
    assert_eq!(joined, vec![atom("a\u{200b}b")]);
}

#[test]
fn failed_unification_leaves_the_substitution_alone() {
    let mut substitution = vec![("T".to_string(), Type::Int)];
    let expected = Type::Array(Box::new(Type::Parameter("T".to_string())));
    assert!(!unify(&expected, &Type::Array(Box::new(Type::String)), &mut substitution));
    assert_eq!(substitution.len(), 1);
    assert!(substitution[0].1.same(&Type::Int));
    let mut empty = Vec::new();
    assert!(!unify(&Type::Int, &Type::String, &mut empty));
    assert!(empty.is_empty());
    assert!(unify(&Type::Parameter("U".to_string()), &Type::String, &mut empty));
    assert_eq!(empty.len(), 1);
}
