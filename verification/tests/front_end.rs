use lib::common::{main_tape, Size, Tape, Token, TokenType, MEM_SIZE};
use lib::lexer::{lex_file, LexError};
use lib::parser::{parse_file, ParseError};
use lib::preprocess::{is_macro, preprocess_tokens, Macro, PreprocessError};

fn kinds(tokens: &[Token]) -> Vec<TokenType> {
    tokens.iter().map(|t| t.token_type).collect()
}

fn values(tokens: &[Token]) -> Vec<String> {
    tokens.iter().map(|t| t.value.clone()).collect()
}

fn lex(src: &str) -> Vec<Token> {
    lex_file(src.to_string()).expect("lexes")
}

fn preprocess(src: &str) -> Result<(Vec<Token>, Vec<Tape>), PreprocessError> {
    let mut tapes = vec![main_tape()];
    let out = preprocess_tokens(lex(src), &mut tapes)?;
    Ok((out, tapes))
}

fn preprocess_err(src: &str) -> PreprocessError {
    match preprocess(src) {
        Ok(_) => panic!("expected an error"),
        Err(e) => e,
    }
}

#[test]
fn command_characters_lex_one_to_one() {
    let toks = lex("+-<> .,\t[]'%$&?^_*@\n");
    assert_eq!(
        kinds(&toks),
        vec![
            TokenType::Add,
            TokenType::Sub,
            TokenType::PointerLeft,
            TokenType::PointerRight,
            TokenType::WriteByte,
            TokenType::ReadByte,
            TokenType::ZeroJump,
            TokenType::NonZeroJump,
            TokenType::Clear,
            TokenType::BaseMemAddr,
            TokenType::MemAddr,
            TokenType::PointerReset,
            TokenType::Syscall,
            TokenType::Push,
            TokenType::Pop,
            TokenType::Discard,
            TokenType::CurrentTape,
            TokenType::NewLine,
        ]
    );
    assert_eq!(values(&toks)[0], "+");
    assert_eq!(values(&toks)[15], "*");
    assert_eq!(values(&toks)[17], "\n");
}

#[test]
fn empty_text_lexes_to_nothing() {
    assert!(lex("").is_empty());
    assert!(lex("   \t ").is_empty());
}

#[test]
fn keywords_in_any_case() {
    let toks = lex("#DEFINE #IfDef #ifndef #Else #ENDIF #include #Tape BYTE word Dword qword name");
    assert_eq!(
        kinds(&toks),
        vec![
            TokenType::MacroDecl,
            TokenType::IfdefMacro,
            TokenType::IfNdefMacro,
            TokenType::ElseMacro,
            TokenType::EndifMacro,
            TokenType::IncludeMacro,
            TokenType::TapeDecl,
            TokenType::CellSize,
            TokenType::CellSize,
            TokenType::CellSize,
            TokenType::CellSize,
            TokenType::Ident,
        ]
    );
    assert_eq!(values(&toks)[0], "#DEFINE");
    assert_eq!(values(&toks)[11], "name");
}

#[test]
fn comments_become_line_breaks() {
    let toks = lex("+ // note\n- /* a\nblock */ .");
    assert_eq!(
        kinds(&toks),
        vec![TokenType::Add, TokenType::NewLine, TokenType::Sub, TokenType::NewLine, TokenType::WriteByte]
    );
}

#[test]
fn literals() {
    let toks = lex("`\"hi\\nyou\"` `(std/io.bf)` `{data}` `42`");
    assert_eq!(
        kinds(&toks),
        vec![TokenType::StringLit, TokenType::IncludePath, TokenType::TapeName, TokenType::IntLit]
    );
    assert_eq!(values(&toks), vec!["hi\nyou", "std/io.bf", "data", "42"]);
}

#[test]
fn lex_errors() {
    assert_eq!(lex_file("`\"abc`".to_string()).unwrap_err(), LexError::UnterminatedString);
    assert_eq!(lex_file("`(abc`".to_string()).unwrap_err(), LexError::UnterminatedIncludePath);
    assert_eq!(lex_file("`{abc`".to_string()).unwrap_err(), LexError::UnterminatedTapeName);
    assert_eq!(lex_file("`4a`".to_string()).unwrap_err(), LexError::ExpectedIntLit);
    assert_eq!(lex_file("+`".to_string()).unwrap_err(), LexError::OpenBacktickAtEnd);
}

#[test]
fn runs_are_merged() {
    let ops = parse_file(lex("+++-->><<<^^__.."), &vec![main_tape()]).unwrap();
    let summary: Vec<(TokenType, usize)> = ops.iter().map(|o| (o.token_type, o.count)).collect();
    assert_eq!(
        summary,
        vec![
            (TokenType::Add, 3),
            (TokenType::Sub, 2),
            (TokenType::PointerRight, 2),
            (TokenType::PointerLeft, 3),
            (TokenType::Push, 2),
            (TokenType::Pop, 2),
            (TokenType::WriteByte, 1),
            (TokenType::WriteByte, 1),
        ]
    );
    assert_eq!(ops[0].values, vec!["+", "+", "+"]);
    assert!(ops.iter().all(|o| o.tape.is_none()));
}

#[test]
fn tape_selection_is_resolved() {
    let tapes = vec![main_tape(), Tape { name: "data".to_string(), size: Size::Word, cell_count: 8 }];
    let ops = parse_file(lex("@`{data}` + @`{main}`"), &tapes).unwrap();
    assert_eq!(ops.len(), 3);
    assert_eq!(ops[0].token_type, TokenType::CurrentTape);
    assert_eq!(ops[0].values, vec!["data"]);
    let t = ops[0].tape.as_ref().unwrap();
    assert_eq!((t.name.as_str(), t.size, t.cell_count), ("data", Size::Word, 8));
    assert_eq!(ops[2].tape.as_ref().unwrap().name, "main");
}

#[test]
fn parse_errors() {
    let tapes = vec![main_tape()];
    assert_eq!(parse_file(lex("+ @"), &tapes).unwrap_err(), ParseError::MissingTapeName { at: 1 });
    assert_eq!(parse_file(lex("@ +"), &tapes).unwrap_err(), ParseError::ExpectedTapeName { at: 0 });
    assert_eq!(parse_file(lex("@`{nope}`"), &tapes).unwrap_err(), ParseError::UndefinedTape { at: 0 });
}

#[test]
fn plain_program_is_unchanged() {
    let src = "+[->+<]\n.";
    let (out, tapes) = preprocess(src).unwrap();
    assert_eq!(kinds(&out), kinds(&lex(src)));
    assert_eq!(values(&out), values(&lex(src)));
    assert_eq!(tapes.len(), 1);
    assert_eq!(tapes[0].cell_count, MEM_SIZE);
}

#[test]
fn nested_macros_expand_fully() {
    let (out, _) = preprocess("#define INC +\n#define TWO INC INC\nTWO - TWO\n").unwrap();
    assert_eq!(
        kinds(&out),
        vec![TokenType::Add, TokenType::Add, TokenType::Sub, TokenType::Add, TokenType::Add, TokenType::NewLine]
    );
    assert!(out.iter().all(|t| t.token_type != TokenType::Ident));
}

#[test]
fn conditionals_keep_one_branch() {
    let (out, _) = preprocess("#define A +\n#ifdef A\n.\n#else\n,\n#endif\n-\n#ifndef A\n'\n#else\n?\n#endif\n$").unwrap();
    assert_eq!(
        kinds(&out),
        vec![
            TokenType::NewLine,
            TokenType::WriteByte,
            TokenType::NewLine,
            TokenType::Sub,
            TokenType::NewLine,
            TokenType::NewLine,
            TokenType::Syscall,
            TokenType::NewLine,
            TokenType::MemAddr,
        ]
    );
}

#[test]
fn tape_declarations_add_tapes() {
    let (out, tapes) = preprocess("#tape data qword `1234`\n+").unwrap();
    assert_eq!(kinds(&out), vec![TokenType::Add]);
    assert_eq!(tapes.len(), 2);
    assert_eq!(tapes[0].name, "main");
    assert_eq!((tapes[1].name.as_str(), tapes[1].size, tapes[1].cell_count), ("data", Size::Qword, 1234));
}

#[test]
fn preprocess_errors() {
    assert!(matches!(preprocess_err("#define"), PreprocessError::UnexpectedEnd));
    assert!(matches!(preprocess_err("#define + x\n"), PreprocessError::MacroExpectedIdentifier));
    match preprocess_err("#define A +\n#define A -\n") {
        PreprocessError::MacroAlreadyDefined(n) => assert_eq!(n, "A"),
        other => panic!("{:?}", other),
    }
    assert!(matches!(preprocess_err("#define A #ifdef\n"), PreprocessError::MacroInsideDefine));
    assert!(matches!(preprocess_err("#ifdef +\n#endif\n"), PreprocessError::CondExpectedIdentifier));
    assert!(matches!(preprocess_err("#tape `{x}` byte `1`\n"), PreprocessError::TapeExpectedIdentifier));
    match preprocess_err("#tape t + `1`\n") {
        PreprocessError::TapeExpectedCellSize { tape, got } => assert_eq!((tape.as_str(), got.as_str()), ("t", "+")),
        other => panic!("{:?}", other),
    }
    assert!(matches!(preprocess_err("#tape t BYTE `1`\n"), PreprocessError::TapeUnknownCellSize));
    match preprocess_err("#tape t byte x\n") {
        PreprocessError::TapeExpectedIntLit { tape, got } => assert_eq!((tape.as_str(), got.as_str()), ("t", "byte")),
        other => panic!("{:?}", other),
    }
    assert!(matches!(preprocess_err("#tape t byte `99999999999999999999999`\n"), PreprocessError::TapeBadCellCount));
    assert!(matches!(preprocess_err("#tape t byte `3` +\n"), PreprocessError::TapeExpectedNewLine { .. }));
    assert!(matches!(preprocess_err("#endif\n"), PreprocessError::EndifWithoutCondition));
    assert!(matches!(preprocess_err("#else\n"), PreprocessError::ElseWithoutCondition));
    assert!(matches!(preprocess_err("#ifdef A\n+\n"), PreprocessError::UnexpectedEnd));
    match preprocess_err("#define A B\nA\n") {
        PreprocessError::UndefinedInMacro(n) => assert_eq!(n, "B"),
        other => panic!("{:?}", other),
    }
    match preprocess_err("+ C\n") {
        PreprocessError::Undefined(n) => assert_eq!(n, "C"),
        other => panic!("{:?}", other),
    }
    assert!(matches!(preprocess_err("#define A B\n#define B A\nA\n"), PreprocessError::MacroCycle));
}

#[test]
fn macro_lookup() {
    let macros = vec![
        Macro { name: "A".to_string(), tokens: lex("+") },
        Macro { name: "B".to_string(), tokens: lex("-") },
        Macro { name: "A".to_string(), tokens: lex(".") },
    ];
    let found = is_macro("A".to_string(), &macros).unwrap();
    assert_eq!(kinds(&found.tokens), vec![TokenType::Add]);
    assert_eq!(kinds(&is_macro("B".to_string(), &macros).unwrap().tokens), vec![TokenType::Sub]);
    assert!(is_macro("C".to_string(), &macros).is_none());
}

#[test]
fn failed_preprocessing_keeps_tapes() {
    let mut tapes = vec![main_tape()];
    let r = preprocess_tokens(lex("#tape a byte `2`\n+\n#endif\n"), &mut tapes);
    assert!(matches!(r, Err(PreprocessError::EndifWithoutCondition)));
    assert_eq!(tapes.len(), 1);
    assert_eq!(tapes[0].name, "main");
}

#[test]
fn command_text_passes_the_front_end_unchanged() {
    let src = "+>[-<.>]\n,";
    let (out, tapes) = preprocess(src).unwrap();
    assert_eq!(values(&out), vec!["+", ">", "[", "-", "<", ".", ">", "]", "\n", ","]);
    assert_eq!(tapes.len(), 1);
}

#[test]
fn macros_named_before_never_cycle() {
    let (out, _) = preprocess("#define A +\n#define B A A\n#define C B B .\nC\n").unwrap();
    assert_eq!(kinds(&out).iter().filter(|k| **k == TokenType::Add).count(), 4);
    let (out, _) = preprocess("#define B A\n#define A -\nB\n").unwrap();
    assert_eq!(kinds(&out), vec![TokenType::Sub, TokenType::NewLine]);
    assert!(matches!(preprocess_err("#define A A\nA\n"), PreprocessError::MacroCycle));
}

#[test]
fn bare_number_declares_a_tape() {
    let (out, tapes) = preprocess("#tape msg byte 14\n+").unwrap();
    assert_eq!(kinds(&out), vec![TokenType::Add]);
    assert_eq!(tapes.len(), 2);
    assert_eq!((tapes[1].name.as_str(), tapes[1].size, tapes[1].cell_count), ("msg", Size::Byte, 14));
    assert!(matches!(preprocess_err("#tape t byte 1x\n"), PreprocessError::TapeExpectedIntLit { .. }));
    assert!(matches!(preprocess_err("#tape t byte 99999999999999999999999\n"), PreprocessError::TapeBadCellCount));
}

#[test]
fn ifndef_is_ifdef_turned_around() {
    let (a, _) = preprocess("#ifndef A\n+\n#else\n-\n#endif\n").unwrap();
    let (b, _) = preprocess("#define A .\n#ifdef A\n+\n#else\n-\n#endif\n").unwrap();
    assert_eq!(kinds(&a), kinds(&b));
    assert_eq!(kinds(&a), vec![TokenType::NewLine, TokenType::Add, TokenType::NewLine]);
}

#[test]
fn counts_give_back_the_token_kinds() {
    let tapes = vec![main_tape()];
    let ops = parse_file(lex("++>@`{main}`--."), &tapes).unwrap();
    let expanded: Vec<TokenType> =
        ops.iter().flat_map(|o| std::iter::repeat(o.token_type).take(o.count)).collect();
    assert_eq!(
        expanded,
        vec![
            TokenType::Add,
            TokenType::Add,
            TokenType::PointerRight,
            TokenType::CurrentTape,
            TokenType::Sub,
            TokenType::Sub,
            TokenType::WriteByte,
        ]
    );
}
