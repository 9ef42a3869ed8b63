use vstd::prelude::*;

verus! {

/// Number of cells of the default `main` tape.
pub const MEM_SIZE: usize = 1048576;

/// The kinds of lexical tokens of a bf+ source file.
#[derive(Debug, Clone, Copy, PartialEq, Eq, Structural)]
pub enum TokenType {
    /// a name (macro use)
    Ident,
    /// `#define`
    MacroDecl,
    /// `<`
    PointerLeft,
    /// `>`
    PointerRight,
    /// `&`
    PointerReset,
    /// `+`
    Add,
    /// `-`
    Sub,
    /// `,`
    ReadByte,
    /// `.`
    WriteByte,
    /// `'`
    Clear,
    /// `%`
    BaseMemAddr,
    /// `$`
    MemAddr,
    /// `[`
    ZeroJump,
    /// `]`
    NonZeroJump,
    /// `?`
    Syscall,
    /// a line break
    NewLine,
    /// `^`
    Push,
    /// `_`
    Pop,
    /// `*`
    Discard,
    /// a literal number in back-quotes
    IntLit,
    /// a literal string in back-quotes
    StringLit,
    /// `#ifdef`
    IfdefMacro,
    /// `#ifndef`
    IfNdefMacro,
    /// `#else`
    ElseMacro,
    /// `#endif`
    EndifMacro,
    /// `#include`
    IncludeMacro,
    /// an include path in back-quoted parentheses
    IncludePath,
    /// `#tape`
    TapeDecl,
    /// `byte`, `word`, `dword` or `qword`
    CellSize,
    /// `@`
    CurrentTape,
    /// a tape name in back-quoted braces
    TapeName,
}

/// A token: its kind and the text it carries.
#[derive(Debug)]
pub struct Token {
    pub token_type: TokenType,
    pub value: String,
}

/// The mathematical content of a token.
pub struct TokenModel {
    pub token_type: TokenType,
    pub value: Seq<char>,
}

impl View for Token {
    type V = TokenModel;

    open spec fn view(&self) -> TokenModel {
        TokenModel { token_type: self.token_type, value: self.value@ }
    }
}

impl Clone for Token {
    fn clone(&self) -> (res: Self)
        ensures
            res == *self,
    {
        Token { token_type: self.token_type, value: self.value.clone() }
    }
}

/// The models of a sequence of tokens.
pub open spec fn tokens_view(toks: Seq<Token>) -> Seq<TokenModel> {
    toks.map_values(|t: Token| t@)
}

/// The width of the cells of a tape.
#[derive(Debug, Clone, Copy, PartialEq, Eq, Structural)]
pub enum Size {
    Byte,
    Word,
    Dword,
    Qword,
}

/// Number of bytes of a cell of the given width.
pub open spec fn size_bytes(s: Size) -> nat {
    match s {
        Size::Byte => 1,
        Size::Word => 2,
        Size::Dword => 4,
        Size::Qword => 8,
    }
}

/// A memory tape: a named array of cells.
#[derive(Debug)]
pub struct Tape {
    pub name: String,
    pub size: Size,
    pub cell_count: usize,
}

impl Clone for Tape {
    fn clone(&self) -> (res: Self)
        ensures
            res == *self,
    {
        Tape { name: self.name.clone(), size: self.size, cell_count: self.cell_count }
    }
}

/// The mathematical content of a tape.
pub struct TapeModel {
    pub name: Seq<char>,
    pub size: Size,
    pub cell_count: nat,
}

impl View for Tape {
    type V = TapeModel;

    open spec fn view(&self) -> TapeModel {
        TapeModel { name: self.name@, size: self.size, cell_count: self.cell_count as nat }
    }
}

/// The models of a sequence of tapes.
pub open spec fn tapes_view(tapes: Seq<Tape>) -> Seq<TapeModel> {
    tapes.map_values(|t: Tape| t@)
}

/// The default tape every program starts with.
pub fn main_tape() -> (t: Tape)
    ensures
        t@ == (TapeModel { name: seq!['m', 'a', 'i', 'n'], size: Size::Byte, cell_count: MEM_SIZE as nat }),
{
    let name = String::from_str("main");
    proof {
        reveal_strlit("main");
    }
    assert(name@ =~= seq!['m', 'a', 'i', 'n']);
    Tape { name, size: Size::Byte, cell_count: MEM_SIZE }
}

/// An opening bracket, with the index of its matching closing bracket.
#[derive(Debug, Clone, Copy, PartialEq, Eq, Structural)]
pub struct Condition {
    pub addr: usize,
}

/// A closing bracket, with the index of its matching opening bracket.
#[derive(Debug, Clone, Copy, PartialEq, Eq, Structural)]
pub struct Forward {
    pub back_addr: usize,
}

/// A bracket of a program with its cross reference.
#[derive(Debug, Clone, Copy, PartialEq, Eq, Structural)]
pub enum Jumps {
    Condition(Condition),
    Forward(Forward),
}

/// One step of a parsed program: a kind of token, how many times it repeats,
/// the texts of the tokens it stands for, and the tape it selects (for `@`).
#[derive(Debug)]
pub struct Operation {
    pub token_type: TokenType,
    pub count: usize,
    pub values: Vec<String>,
    pub tape: Option<Tape>,
}

/// The mathematical content of an operation.
pub struct OperationModel {
    pub token_type: TokenType,
    pub count: nat,
    pub values: Seq<Seq<char>>,
    pub tape: Option<TapeModel>,
}

/// The models of a sequence of strings.
pub open spec fn strings_view(v: Seq<String>) -> Seq<Seq<char>> {
    v.map_values(|s: String| s@)
}

impl View for Operation {
    type V = OperationModel;

    open spec fn view(&self) -> OperationModel {
        OperationModel {
            token_type: self.token_type,
            count: self.count as nat,
            values: strings_view(self.values@),
            tape: match self.tape {
                Some(t) => Some(t@),
                None => None,
            },
        }
    }
}

/// The models of a sequence of operations.
pub open spec fn operations_view(ops: Seq<Operation>) -> Seq<OperationModel> {
    ops.map_values(|o: Operation| o@)
}

} // verus!
