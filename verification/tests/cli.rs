//! The decisions of the command line and of the interactive evaluator.
use forge::cli::{
    bind_arguments, compile_plan, exit_code, hex, is_compile_error, is_float_function,
    is_identifier, only_floats, paint, parse_size, parse_sizes, print_cfg, shows_optimized,
    split_arguments, Argument, BindError, Command, CompileArgs, PlanError, SizeError, SplitError,
    Target, VerifyArgs,
};
use forge::collections::BlockList;
use forge::float::FloatOp;
use forge::interp::{interpret, RtValue};
use forge::ir::{Block, BlockData, Function, Inst, Span, Terminator, Ty, Value};
use forge::lower::{lower, BinaryOp, Expr, ExprKind, TypedAst};
use forge::repl::{classify, cut, history_text, read_command, Entry, Request};
use std::collections::HashMap;

#[test]
fn color_output_is_disabled_without_a_terminal() {
    assert_eq!(paint("error", 31, false, false), "error");
}

#[test]
fn color_output_surrounds_the_text_on_a_terminal() {
    assert_eq!(paint("error", 31, true, false), "\x1b[31merror\x1b[0m");
    assert_eq!(paint("error", 31, true, true), "error");
}

#[test]
fn exit_codes_distinguish_compile_and_verification_failures() {
    let compile = Command::Compile(CompileArgs {
        expression: "if x then x else x".to_string(),
        arch: "aarch64".to_string(),
        opt: "2".to_string(),
        features: None,
        emit: false,
    });
    assert_eq!(exit_code(&compile, "AArch64 compilation failed: unsupported"), 2);

    let verify = Command::Verify(VerifyArgs { expression: "x".to_string(), iters: 1 });
    assert_eq!(exit_code(&verify, "mismatch at iteration 0"), 3);
    assert_eq!(exit_code(&verify, "type checking failed: bad input"), 2);
}

#[test]
fn other_failures_end_with_one() {
    assert_eq!(exit_code(&Command::Repl, "mismatch at iteration 0"), 1);
    assert_eq!(exit_code(&Command::Cpuinfo, "no such file"), 1);
    for prefix in [
        "lexing failed",
        "parsing failed",
        "type checking failed",
        "IR verification failed",
        "register allocation verification failed",
        "JIT unavailable",
        "executable memory allocation failed",
        "unknown architecture",
        "--opt must be",
        "WASM backend",
        "AArch64 currently",
        "AArch64 compilation failed",
    ] {
        assert!(is_compile_error(&format!("{prefix}: why")));
        assert!(!is_compile_error(&format!(" {prefix}")));
    }
}

/// Follows a command as the program does.
fn obey(line: &str, bindings: &mut HashMap<String, f64>) -> Result<(), String> {
    match read_command(line) {
        Request::Bind { name, value, identifier } => {
            let value = value.parse::<f64>().map_err(|e| format!("invalid value: {e}"))?;
            if !identifier {
                return Err(format!("invalid binding name {name:?}"));
            }
            bindings.insert(name, value);
            Ok(())
        }
        other => Err(format!("{other:?}")),
    }
}

fn unit(op: FloatOp, a: u64, b: u64, _c: u64) -> u64 {
    let (x, y) = (f64::from_bits(a), f64::from_bits(b));
    match op {
        FloatOp::Mul => (x * y).to_bits(),
        FloatOp::FromInt => (a as i64 as f64).to_bits(),
        other => panic!("{other:?} is not needed here"),
    }
}

/// The value of an expression under the bindings.
fn evaluated(typed: &TypedAst, bindings: &HashMap<String, f64>) -> f64 {
    let function = lower(typed);
    let args: Vec<RtValue> =
        function.params.iter().map(|(name, _)| RtValue::F64(bindings[name].to_bits())).collect();
    f64::from_bits(interpret(&function, &args, &unit).as_f64())
}

#[test]
fn repl_bindings_are_reused_by_later_expressions() {
    let mut bindings = HashMap::new();
    obey(":set x 3", &mut bindings).unwrap();
    // x * 2
    let x = Expr {
        kind: ExprKind::Ident("x".to_string()),
        ty: Ty::F64,
        span: Span::new(0, 1),
    };
    let two = Expr { kind: ExprKind::Int(2), ty: Ty::I64, span: Span::new(4, 5) };
    let product = ExprKind::Binary { op: BinaryOp::Mul, lhs: Box::new(x), rhs: Box::new(two) };
    let typed = TypedAst {
        root: Expr { kind: product, ty: Ty::F64, span: Span::new(0, 5) },
        params: vec![("x".to_string(), Ty::F64)],
    };
    assert_eq!(evaluated(&typed, &bindings), 6.0);
}

#[test]
fn binding_names_are_checked_before_insertion() {
    let mut bindings = HashMap::new();
    let error = obey(":set 3x 1", &mut bindings).unwrap_err();
    assert!(error.contains("invalid binding name"));
    assert!(bindings.is_empty());
}

#[test]
fn commands_are_told_apart_and_say_how_they_are_used() {
    assert!(matches!(read_command(":help"), Request::Help));
    assert!(matches!(read_command(":vars"), Request::Vars));
    assert!(matches!(read_command(":history"), Request::History));
    assert!(matches!(read_command(":clear"), Request::Clear));
    assert!(matches!(read_command(":unset x"), Request::Unbind { name } if name == "x"));
    assert!(matches!(read_command(":asm x"), Request::Asm { expression } if expression == "x"));
    assert!(matches!(read_command(":ir x"), Request::Ir { expression } if expression == "x"));
    assert!(matches!(
        read_command(":bench x 1,2 3"),
        Request::Bench { expression, sizes } if expression == "x" && sizes == "1,2 3"
    ));
    assert!(matches!(
        read_command(":bench x"),
        Request::Bench { sizes, .. } if sizes == "1,10,100,1K"
    ));
    assert!(matches!(read_command(":set x"), Request::Usage(u) if u == "usage: :set NAME VALUE"));
    assert!(matches!(read_command(":unset"), Request::Usage(_)));
    assert!(matches!(read_command(":asm"), Request::Usage(_)));
    assert!(matches!(read_command(":ir"), Request::Usage(_)));
    assert!(matches!(read_command(":bench"), Request::Usage(_)));
    assert!(matches!(read_command(":what now"), Request::Unknown(c) if c == ":what"));
}

#[test]
fn a_line_is_cut_at_its_first_two_spaces() {
    assert_eq!(cut(":set x 1 2"), vec![":set", "x", "1 2"]);
    assert_eq!(cut(":set\tx\u{2003}1"), vec![":set", "x", "1"]);
    assert_eq!(cut(":set  x 1"), vec![":set", "x 1"]);
    assert_eq!(cut(" x"), vec!["x"]);
    assert_eq!(cut(""), Vec::<String>::new());
}

#[test]
fn lines_are_told_apart() {
    assert_eq!(classify(":quit"), Entry::Quit);
    assert_eq!(classify(":q"), Entry::Quit);
    assert_eq!(classify(""), Entry::Blank);
    assert_eq!(classify(":help"), Entry::Command);
    assert_eq!(classify("x + 1"), Entry::Expression);
}

#[test]
fn history_is_numbered() {
    let entries: Vec<String> = (1..=11).map(|i| format!("e{i}")).collect();
    let text = history_text(&entries);
    assert!(text.starts_with("   1  e1\n   2  e2\n"));
    assert!(text.ends_with("  10  e10\n  11  e11\n"));
}

#[test]
fn identifiers_start_with_a_letter_or_underscore() {
    for name in ["x", "_", "x1", "Ab_9"] {
        assert!(is_identifier(name));
    }
    for name in ["", "1", "3x", "a-b", "\u{e9}"] {
        assert!(!is_identifier(name));
    }
}

#[test]
fn sizes_have_suffixes_and_saturate() {
    assert_eq!(parse_size("12"), Ok(12));
    assert_eq!(parse_size("+7"), Ok(7));
    assert_eq!(parse_size("3K"), Ok(3_000));
    assert_eq!(parse_size("2M"), Ok(2_000_000));
    assert_eq!(parse_size(""), Err(SizeError::Empty));
    assert_eq!(parse_size("K"), Err(SizeError::Empty));
    assert_eq!(parse_size("+"), Err(SizeError::InvalidDigit));
    assert_eq!(parse_size("-1"), Err(SizeError::InvalidDigit));
    assert_eq!(parse_size("1x"), Err(SizeError::InvalidDigit));
    assert_eq!(parse_size("99999999999999999999999"), Err(SizeError::Overflow));
    assert_eq!(parse_size(&format!("{}M", usize::MAX)), Ok(usize::MAX));
}

#[test]
fn sizes_agree_with_the_standard_reader() {
    for text in ["0", "007", "18446744073709551615", "18446744073709551616", "+", "1 ", "a"] {
        assert_eq!(parse_size(text).ok(), text.parse::<usize>().ok(), "{text}");
    }
}

#[test]
fn a_list_of_sizes_stops_at_the_first_that_is_none() {
    assert_eq!(parse_sizes("1,10,1K").unwrap(), vec![1, 10, 1_000]);
    let bad = parse_sizes("1,x,").unwrap_err();
    assert_eq!((bad.piece.as_str(), bad.error), ("x", SizeError::InvalidDigit));
    let bad = parse_sizes("1,").unwrap_err();
    assert_eq!((bad.piece.as_str(), bad.error), ("", SizeError::Empty));
}

#[test]
fn bytes_are_written_in_pairs_of_digits() {
    assert_eq!(hex(&vec![]), "");
    assert_eq!(hex(&vec![0x0f, 0xa0, 0x5c]), "0f a0 5c");
}

fn strings(list: &[&str]) -> Vec<String> {
    list.iter().map(|s| s.to_string()).collect()
}

fn params(names: &[&str]) -> Vec<(String, Ty)> {
    names.iter().map(|n| (n.to_string(), Ty::F64)).collect()
}

#[test]
fn arguments_go_by_place_or_by_name() {
    let (list, fault) = split_arguments(&strings(&["1", "--y=2=3", "--z", "-4"]));
    assert_eq!(fault, None);
    assert!(matches!(&list[0], Argument::Positional(v) if v == "1"));
    assert!(matches!(&list[1], Argument::Named { name, value } if name == "y" && value == "2=3"));
    assert!(matches!(&list[2], Argument::Named { name, value } if name == "z" && value == "-4"));
    assert_eq!(bind_arguments(&list, &params(&["x", "y", "z"])), Ok(vec![0, 1, 2]));
}

#[test]
fn a_name_goes_before_a_place_and_the_last_of_a_name_counts() {
    let (list, _) = split_arguments(&strings(&["1", "2", "--x=3", "--x=4"]));
    assert_eq!(bind_arguments(&list, &params(&["x", "y"])), Ok(vec![3, 1]));
}

#[test]
fn arguments_that_make_no_sense_are_named() {
    let (list, fault) = split_arguments(&strings(&["1", "--"]));
    assert_eq!((list.len(), fault), (1, Some(SplitError::EmptyName)));
    let (list, fault) = split_arguments(&strings(&["1", "--x"]));
    assert_eq!((list.len(), fault), (1, Some(SplitError::MissingValue(1))));
}

#[test]
fn arguments_that_do_not_fit_are_named() {
    let (list, _) = split_arguments(&strings(&["1", "2"]));
    assert_eq!(
        bind_arguments(&list, &params(&["x"])),
        Err(BindError::TooMany { limit: 1, given: 2 })
    );
    assert_eq!(bind_arguments(&list, &params(&["x", "y", "z"])), Err(BindError::Missing(2)));
    let (list, _) = split_arguments(&strings(&["1", "--w=2"]));
    assert_eq!(bind_arguments(&list, &params(&["x"])), Err(BindError::Unknown(1)));
    let mixed = vec![("n".to_string(), Ty::I64)];
    assert_eq!(bind_arguments(&list, &mixed), Err(BindError::NotFloat));
    assert!(!only_floats(&mixed));
}

#[test]
fn targets_and_levels_are_checked_in_order() {
    assert_eq!(compile_plan("x86_64", "0"), Ok((Target::X86_64, false)));
    assert_eq!(compile_plan("aarch64", "1"), Ok((Target::Aarch64, true)));
    assert_eq!(compile_plan("wasm", "2"), Ok((Target::Wasm, true)));
    assert_eq!(compile_plan("mips", "3"), Err(PlanError::Optimization));
    assert_eq!(compile_plan("mips", "2"), Err(PlanError::Architecture));
    assert!(!shows_optimized(&None));
    assert!(!shows_optimized(&Some("none".to_string())));
    assert!(!shows_optimized(&Some("lower".to_string())));
    assert!(shows_optimized(&Some("gvn".to_string())));
}

fn diamond() -> Function {
    let block = |insts: Vec<Value>, term: Option<Terminator>| BlockData {
        insts,
        term,
        preds: BlockList::new(),
    };
    Function {
        insts: vec![Inst::ConstBool(true), Inst::ConstF64(0)],
        types: vec![Ty::Bool, Ty::F64],
        spans: vec![Span::new(0, 0), Span::new(0, 0)],
        blocks: vec![
            block(
                vec![Value(0), Value(1)],
                Some(Terminator::Branch { cond: Value(0), then_: Block(1), else_: Block(2) }),
            ),
            block(vec![], Some(Terminator::Jump(Block(2)))),
            block(vec![], Some(Terminator::Return(Value(1)))),
            block(vec![], None),
        ],
        entry: Block(0),
        params: vec![],
    }
}

#[test]
fn the_graph_is_listed_or_drawn() {
    let f = diamond();
    assert_eq!(
        print_cfg(&f, false),
        "block0: 2 instructions -> block1, block2\nblock1: 0 instructions -> block2\n\
         block2: 0 instructions -> return\nblock3: 0 instructions -> unterminated\n"
    );
    assert_eq!(
        print_cfg(&f, true),
        "digraph forge_cfg {\n  block0 [label=\"block0\\n2 instructions\"];\n  \
         block0 -> block1 [label=\"then\"];\n  block0 -> block2 [label=\"else\"];\n  \
         block1 [label=\"block1\\n0 instructions\"];\n  block1 -> block2;\n  \
         block2 [label=\"block2\\n0 instructions\"];\n  \
         block3 [label=\"block3\\n0 instructions\"];\n}\n"
    );
    assert!(is_float_function(&f));
    let mut g = diamond();
    g.types[1] = Ty::I64;
    assert!(!is_float_function(&g));
}

#[test]
fn commands_are_split_at_white_space() {
    for gap in ['\t', ' ', '\u{a0}', '\u{1680}', '\u{2003}', '\u{2029}', '\u{3000}'] {
        let line = format!(":unset{gap}x");
        assert!(matches!(read_command(&line), Request::Unbind { name } if name == "x"));
    }
    for joint in ['\u{200b}', '\u{180e}', '_'] {
        let line = format!(":unset{joint}x");
        assert!(matches!(read_command(&line), Request::Unknown(_)));
    }
}
