use lib::code_gen::{generate_code, kind_name_str, CodeGenError};
use lib::common::{main_tape, Operation, Size, Tape, TokenType};
use lib::includes::{ends_with_bf, folder_of_path, include_candidate_exec, IncludeAction, IncludeEvent, IncludeExpander};
use lib::lexer::lex_file;
use lib::parser::parse_file;
use lib::preprocess::{preprocess_tokens, PreprocessError};
use lib::program::{assemble, base_name, operations_ready, replace_dot_bf};
use lib::text::push_decimal;

fn ops_of(src: &str, tapes: &Vec<Tape>) -> Vec<Operation> {
    parse_file(lex_file(src.to_string()).unwrap(), tapes).unwrap()
}

fn code_of(src: &str, tapes: &Vec<Tape>) -> Result<String, CodeGenError> {
    let mut out = String::from("; start\n");
    generate_code(ops_of(src, tapes), &mut out, tapes)?;
    Ok(out)
}

fn op(token_type: TokenType, values: Vec<&str>) -> Operation {
    Operation { token_type, count: 1, values: values.into_iter().map(|v| v.to_string()).collect(), tape: None }
}

#[test]
fn decimal_notation() {
    let mut s = String::from("x=");
    push_decimal(&mut s, 0);
    assert_eq!(s, "x=0");
    let mut s = String::new();
    push_decimal(&mut s, 1048576);
    assert_eq!(s, "1048576");
    let mut s = String::new();
    push_decimal(&mut s, usize::MAX);
    assert_eq!(s, usize::MAX.to_string());
}

#[test]
fn kind_names() {
    assert_eq!(kind_name_str(TokenType::Add), "Add");
    assert_eq!(kind_name_str(TokenType::NonZeroJump), "NonZeroJump");
    assert_eq!(kind_name_str(TokenType::TapeName), "TapeName");
}

#[test]
fn add_code_is_appended() {
    let tapes = vec![main_tape()];
    assert_eq!(
        code_of("+++", &tapes).unwrap(),
        "; start\n    ; ---------   Add x 3 ( main )  --------- ;\n    mov rax, main\n    add rax, QWORD[main_pointer]\n    add BYTE [rax], 3\n"
    );
}

#[test]
fn pointer_moves_wrap() {
    let tapes = vec![Tape { name: "t".to_string(), size: Size::Word, cell_count: 5 }];
    assert_eq!(
        code_of(">>", &tapes).unwrap(),
        "; start\n    ; ---------   PointerRight x 2 ( t )  --------- ;\n    mov rax, QWORD[t_pointer]\n    add rax, 4\n    cmp rax, 10\n    jb .skip_0\n    sub rax, 10\n    .skip_0:\n    mov QWORD[t_pointer], rax\n"
    );
    assert_eq!(
        code_of("<", &tapes).unwrap(),
        "; start\n    ; ---------   PointerLeft x 1 ( t )  --------- ;\n    mov rax, QWORD[t_pointer]\n    sub rax, 2\n    jae .skip_0\n    add rax, 10\n    .skip_0:\n    mov QWORD[t_pointer], rax\n"
    );
    // a run longer than the tape moves by its remainder: 7 moves on 5 cells are 2
    assert!(code_of(">>>>>>>", &tapes).unwrap().contains("    add rax, 4\n    cmp rax, 10\n"));
    assert!(code_of("<<<<<", &tapes).unwrap().contains("    sub rax, 0\n"));
}

#[test]
fn syscall_pushes_its_result() {
    let tapes = vec![main_tape()];
    assert!(code_of("?", &tapes).unwrap().ends_with("    mov rdx, QWORD[rbp]\n    syscall\n    push rax\n"));
}

#[test]
fn discard_drops_the_top_of_the_stack() {
    let tapes = vec![main_tape()];
    assert_eq!(
        code_of("*", &tapes).unwrap(),
        "; start\n    ; ---------   Discard x 1 ( main )  --------- ;\n    add rsp, 8\n"
    );
}

#[test]
fn brackets_are_linked() {
    let tapes = vec![main_tape()];
    let code = code_of("[[]][]", &tapes).unwrap();
    let jumps: Vec<&str> = code.lines().filter(|l| l.contains("je .") || l.contains("jne .") || l.trim_start().starts_with('.')).collect();
    assert_eq!(
        jumps,
        vec![
            "    je .forward_3",
            "    .condition_0:",
            "    je .forward_2",
            "    .condition_1:",
            "    jne .condition_1",
            "    .forward_2:",
            "    jne .condition_0",
            "    .forward_3:",
            "    je .forward_5",
            "    .condition_4:",
            "    jne .condition_4",
            "    .forward_5:",
        ]
    );
}

#[test]
fn tape_switch_changes_the_tape_used() {
    let tapes = vec![main_tape(), Tape { name: "w".to_string(), size: Size::Dword, cell_count: 2 }];
    let code = code_of("@`{w}` + `{main}`", &tapes).unwrap();
    assert!(code.contains("    ; ---------   CurrentTape x 1 ( w )  --------- ;\n    ; ---------   Add x 1 ( w )"));
    assert!(code.contains("    add DWORD [rax], 1\n"));
    assert!(code.contains("    mov rbx, main\n    mov QWORD[rax], rbx\n"));
}

#[test]
fn string_literal_bytes() {
    let tapes = vec![main_tape()];
    let code = code_of("`\"Hi\"`", &tapes).unwrap();
    assert!(code.ends_with("    mov BYTE [rax], 72\n    add rax, 1\n    mov BYTE [rax], 105\n    add rax, 1\n"));
}

#[test]
fn code_generation_errors() {
    let tapes = vec![main_tape()];
    assert_eq!(code_of("]", &tapes).unwrap_err(), CodeGenError::UnmatchedClose);
    assert_eq!(code_of("+ `{nope}`", &tapes).unwrap_err(), CodeGenError::TapeNotDefined { op: 1 });
    let empty = vec![Tape { name: "e".to_string(), size: Size::Byte, cell_count: 0 }];
    assert_eq!(code_of("+>", &empty).unwrap_err(), CodeGenError::EmptyTape { op: 1 });
    let mut out = String::new();
    assert_eq!(
        generate_code(vec![op(TokenType::Ident, vec!["x"])], &mut out, &tapes).unwrap_err(),
        CodeGenError::IdentNotImplemented { op: 0 }
    );
    assert_eq!(
        generate_code(vec![op(TokenType::MacroDecl, vec!["#define"])], &mut out, &tapes).unwrap_err(),
        CodeGenError::Unexpected { op: 0, token_type: TokenType::MacroDecl }
    );
    assert_eq!(
        generate_code(vec![op(TokenType::CurrentTape, vec!["main"])], &mut out, &tapes).unwrap_err(),
        CodeGenError::NoTapeSelected { op: 0 }
    );
    assert_eq!(generate_code(vec![op(TokenType::Add, vec!["+"])], &mut out, &vec![]).unwrap_err(), CodeGenError::NoTape { op: 0 });
    let huge = vec![Tape { name: "h".to_string(), size: Size::Qword, cell_count: usize::MAX }];
    assert_eq!(generate_code(vec![op(TokenType::Add, vec!["+"])], &mut out, &huge).unwrap_err(), CodeGenError::TapeTooLarge { op: 0 });
}

#[test]
fn empty_program_assembly() {
    let text = assemble(Vec::new(), &vec![main_tape()]).unwrap();
    assert_eq!(
        text,
        "BITS 64\nsection .text\nglobal _start\n_start:\n    mov rax, 60\n    mov rdi, 0\n    syscall\nsection .bss\n; -------- tapes -------- ; \n    main_pointer: resq 1\n    main: resb 1048576\n"
    );
}

#[test]
fn declared_count_is_reserved() {
    let mut tapes = vec![main_tape()];
    let tokens = preprocess_tokens(lex_file("#tape d word `1234`\n-".to_string()).unwrap(), &mut tapes).unwrap();
    assert_eq!(tapes[1].cell_count, 1234);
    let text = assemble(parse_file(tokens, &tapes).unwrap(), &tapes).unwrap();
    assert!(text.ends_with("    main_pointer: resq 1\n    main: resb 1048576\n    d_pointer: resq 1\n    d: resw 1234\n"));
}

#[test]
fn readiness_of_operations() {
    assert!(operations_ready(&vec![op(TokenType::StringLit, vec!["ok"])]));
    assert!(!operations_ready(&vec![op(TokenType::IntLit, vec![])]));
    assert!(!operations_ready(&vec![op(TokenType::StringLit, vec!["é"])]));
    assert!(operations_ready(&vec![op(TokenType::Add, vec![])]));
}

#[test]
fn folders_and_candidates() {
    assert_eq!(folder_of_path("examples/hello.bf"), "examples/");
    assert_eq!(folder_of_path("hello.bf"), "");
    assert_eq!(folder_of_path("/usr/bin/bfp"), "/usr/bin/");
    assert_eq!(include_candidate_exec("std", "io.bf").unwrap(), "std/io.bf");
    assert_eq!(include_candidate_exec("a/b/c", "x/io.bf").unwrap(), "a/b/x/io.bf");
    assert!(include_candidate_exec("a", "x/y/z.bf").is_none());
}

fn expander(src: &str, folders: Vec<&str>) -> IncludeExpander {
    IncludeExpander::new(
        lex_file(src.to_string()).unwrap(),
        "dir/main.bf".to_string(),
        "dir/".to_string(),
        folders.into_iter().map(|f| f.to_string()).collect(),
    )
}

fn output_kinds(e: &IncludeExpander) -> Vec<TokenType> {
    e.output.iter().map(|t| t.token_type).collect()
}

#[test]
fn include_path_is_searched_and_read() {
    let mut e = expander("#include `(lib.bf)`\n+", vec!["first", "second"]);
    match e.step(IncludeEvent::Start).unwrap() {
        IncludeAction::CheckExists(f) => assert_eq!(f, "first/lib.bf"),
        other => panic!("{:?}", other),
    }
    match e.step(IncludeEvent::Exists(false)).unwrap() {
        IncludeAction::CheckExists(f) => assert_eq!(f, "second/lib.bf"),
        other => panic!("{:?}", other),
    }
    match e.step(IncludeEvent::Exists(true)).unwrap() {
        IncludeAction::ReadFile(f) => assert_eq!(f, "second/lib.bf"),
        other => panic!("{:?}", other),
    }
    assert!(matches!(e.step(IncludeEvent::Contents("-.".to_string())).unwrap(), IncludeAction::Finished));
    assert_eq!(output_kinds(&e), vec![TokenType::Sub, TokenType::WriteByte, TokenType::NewLine, TokenType::Add]);
    assert!(output_kinds(&e).iter().all(|k| *k != TokenType::IncludeMacro));
}

#[test]
fn string_include_is_relative() {
    let mut e = expander("+ #include `\"part.bf\"` .", vec![]);
    match e.step(IncludeEvent::Start).unwrap() {
        IncludeAction::ReadFile(f) => assert_eq!(f, "dir/part.bf"),
        other => panic!("{:?}", other),
    }
    assert!(matches!(e.step(IncludeEvent::Contents("-".to_string())).unwrap(), IncludeAction::Finished));
    assert_eq!(output_kinds(&e), vec![TokenType::Add, TokenType::Sub, TokenType::WriteByte]);
}

#[test]
fn program_without_includes_finishes_at_once() {
    let mut e = expander("+-.", vec!["std"]);
    assert!(matches!(e.step(IncludeEvent::Start).unwrap(), IncludeAction::Finished));
    assert_eq!(output_kinds(&e), vec![TokenType::Add, TokenType::Sub, TokenType::WriteByte]);
}

#[test]
fn include_errors() {
    let mut e = expander("#include `\"main.bf\"`", vec![]);
    assert!(matches!(e.step(IncludeEvent::Start).unwrap_err(), PreprocessError::IncludeSelf(_)));
    let mut e = expander("#include `\"x.txt\"`", vec![]);
    assert!(matches!(e.step(IncludeEvent::Start).unwrap_err(), PreprocessError::IncludeNotBf));
    let mut e = expander("#include `(x.bf)`", vec!["a"]);
    e.step(IncludeEvent::Start).unwrap();
    match e.step(IncludeEvent::Exists(false)).unwrap_err() {
        PreprocessError::IncludeNotFound(n) => assert_eq!(n, "x.bf"),
        other => panic!("{:?}", other),
    }
    let mut e = expander("#include +", vec![]);
    assert!(matches!(e.step(IncludeEvent::Start).unwrap_err(), PreprocessError::IncludeExpectedPath));
    let mut e = expander("#include", vec![]);
    assert!(matches!(e.step(IncludeEvent::Start).unwrap_err(), PreprocessError::UnexpectedEnd));
    let mut e = expander("#include `(a/b/x.bf)`", vec!["top"]);
    assert!(matches!(e.step(IncludeEvent::Start).unwrap_err(), PreprocessError::IncludeSearchUnderflow));
    let mut e = expander("+", vec![]);
    assert!(matches!(e.step(IncludeEvent::Exists(true)).unwrap_err(), PreprocessError::UnexpectedEvent));
    let mut e = expander("#include `\"y.bf\"`", vec![]);
    e.step(IncludeEvent::Start).unwrap();
    assert!(matches!(e.step(IncludeEvent::Contents("é".to_string())).unwrap_err(), PreprocessError::IncludeNotAscii));
    let mut e = expander("#include `\"y.bf\"`", vec![]);
    e.step(IncludeEvent::Start).unwrap();
    assert!(matches!(e.step(IncludeEvent::Contents("`x".to_string())).unwrap_err(), PreprocessError::Lex(_)));
}

#[test]
fn refused_program_leaves_content() {
    let tapes = vec![main_tape()];
    let mut out = String::from("keep\n");
    let r = generate_code(ops_of("+ ] [", &tapes), &mut out, &tapes);
    assert_eq!(r.unwrap_err(), CodeGenError::UnmatchedClose);
    assert_eq!(out, "keep\n");
    let r = generate_code(ops_of("+ `{nope}`", &tapes), &mut out, &tapes);
    assert_eq!(r.unwrap_err(), CodeGenError::TapeNotDefined { op: 1 });
    assert_eq!(out, "keep\n");
}

#[test]
fn accepted_programs_compile() {
    let tapes = vec![main_tape(), Tape { name: "q".to_string(), size: Size::Qword, cell_count: 3 }];
    assert!(code_of("[[+]", &tapes).is_ok());
    assert!(code_of("[]]", &tapes).is_ok());
    assert!(code_of("@`{q}` >>> <<< `{main}` ^ _ ' ? % $ & , . `7` `\"ok\"`", &tapes).is_ok());
}

#[test]
fn file_names() {
    assert_eq!(base_name("./target/release/bfp"), "bfp");
    assert_eq!(base_name("bfp"), "bfp");
    assert_eq!(base_name("dir/"), "");
    assert_eq!(replace_dot_bf("examples/hello.bf", ""), "examples/hello");
    assert_eq!(replace_dot_bf("examples/hello.bf", ".asm"), "examples/hello.asm");
    assert_eq!(replace_dot_bf("a.bf.bf", ".o"), "a.o.o");
    assert_eq!(replace_dot_bf("x.b", ".o"), "x.b");
    assert!(ends_with_bf(&"examples/hello.bf".to_string()));
    assert!(!ends_with_bf(&"hello.bfx".to_string()));
    assert!(!ends_with_bf(&"bf".to_string()));
}

#[test]
fn classic_programs_compile() {
    for src in ["", "[]]", "+[->,.<]\n>>[[-]<]", "  [ ] "] {
        let mut tapes = vec![main_tape()];
        let tokens = preprocess_tokens(lex_file(src.to_string()).unwrap(), &mut tapes).unwrap();
        assert_eq!(tapes.len(), 1);
        let ops = parse_file(tokens, &tapes).unwrap();
        assert!(assemble(ops, &tapes).is_ok());
    }
}
