use vstd::prelude::*;

use crate::common::{Size, Tape, Token, TokenModel, TokenType, tokens_view};
use crate::lexer::{LexError, all_digits, command_tokens, commands_only, single_char_kind};
use crate::text::{decimal, digit_char};

verus! {

/// A macro: a name and the tokens it stands for.
#[derive(Debug)]
pub struct Macro {
    pub name: String,
    pub tokens: Vec<Token>,
}

/// The mathematical content of a macro.
pub struct MacroModel {
    pub name: Seq<char>,
    pub body: Seq<Token>,
}

impl View for Macro {
    type V = MacroModel;

    open spec fn view(&self) -> MacroModel {
        MacroModel { name: self.name@, body: self.tokens@ }
    }
}

impl Clone for Macro {
    fn clone(&self) -> (res: Self)
        ensures
            res@ == self@,
    {
        let mut tokens: Vec<Token> = Vec::new();
        let mut k: usize = 0;
        while k < self.tokens.len()
            invariant
                k <= self.tokens.len(),
                tokens@ == self.tokens@.take(k as int),
            decreases self.tokens.len() - k,
        {
            tokens.push(self.tokens[k].clone());
            k += 1;
            assert(tokens@ =~= self.tokens@.take(k as int));
        }
        assert(self.tokens@.take(k as int) =~= self.tokens@);
        Macro { name: self.name.clone(), tokens }
    }
}

/// The models of a sequence of macros.
pub open spec fn macros_view(ms: Seq<Macro>) -> Seq<MacroModel> {
    ms.map_values(|m: Macro| m@)
}

/// Why the directives of a token stream cannot be carried out.
#[derive(Debug)]
pub enum PreprocessError {
    /// a directive runs past the last token
    UnexpectedEnd,
    /// `#define` is not followed by a name
    MacroExpectedIdentifier,
    /// `#define` of a name that is already a macro
    MacroAlreadyDefined(String),
    /// a directive inside the body of a `#define`
    MacroInsideDefine,
    /// `#ifdef` or `#ifndef` is not followed by a name
    CondExpectedIdentifier,
    /// `#tape` is not followed by a name
    TapeExpectedIdentifier,
    /// the name of a `#tape` is not followed by a cell size
    TapeExpectedCellSize { tape: String, got: String },
    /// the cell size of a `#tape` is not written in lower case
    TapeUnknownCellSize,
    /// the cell size of a `#tape` is not followed by a number
    TapeExpectedIntLit { tape: String, got: String },
    /// the cell count of a `#tape` is not a number that fits in a machine word
    TapeBadCellCount,
    /// a `#tape` declaration does not end its line
    TapeExpectedNewLine { tape: String, got: String },
    /// `#endif` outside a conditional
    EndifWithoutCondition,
    /// `#else` outside a conditional
    ElseWithoutCondition,
    /// a token that is not a directive was handled as one
    NotAMacro(String),
    /// a name inside a macro body that is not a macro
    UndefinedInMacro(String),
    /// a name in the program that is not a macro
    Undefined(String),
    /// a macro expands, through other macros, to itself
    MacroCycle,
    /// `#include` is not followed by a string or an include path
    IncludeExpectedPath,
    /// no include folder holds the file of this include path
    IncludeNotFound(String),
    /// a file includes itself
    IncludeSelf(String),
    /// an included file does not end in `.bf`
    IncludeNotBf,
    /// the include path has more folders than an include folder
    IncludeSearchUnderflow,
    /// an included file cannot be split into tokens
    Lex(LexError),
    /// an included file holds a character that is not ASCII
    IncludeNotAscii,
    /// the include expansion was handed an event it did not ask for
    UnexpectedEvent,
}

/// The directive tokens that the macro pass handles.
pub open spec fn is_directive(t: TokenType) -> bool {
    t == TokenType::MacroDecl || t == TokenType::IfdefMacro || t == TokenType::IfNdefMacro
        || t == TokenType::ElseMacro || t == TokenType::EndifMacro || t == TokenType::TapeDecl
}

/// What the macro pass has built so far: the tokens it keeps, the macros and the tapes.
#[verifier::ext_equal]
pub struct PreState {
    pub out: Seq<Token>,
    pub macros: Seq<MacroModel>,
    pub tapes: Seq<Tape>,
}

/// Whether a macro called `name` is defined.
pub open spec fn defined(ms: Seq<MacroModel>, name: Seq<char>) -> bool {
    exists|k: int| 0 <= k < ms.len() && ms[k].name == name
}

/// The end of the body of a `#define` that starts at `j`: the next line break.
pub open spec fn decl_end(toks: Seq<Token>, j: int) -> Result<int, PreprocessError>
    decreases toks.len() - j,
{
    if j < 0 || j >= toks.len() {
        Err(PreprocessError::UnexpectedEnd)
    } else if toks[j].token_type == TokenType::NewLine {
        Ok(j)
    } else if is_directive(toks[j].token_type) {
        Err(PreprocessError::MacroInsideDefine)
    } else {
        decl_end(toks, j + 1)
    }
}

/// `#define NAME body`: the position of the line break that ends it, and the state with the new macro.
pub open spec fn do_decl(toks: Seq<Token>, i: int, st: PreState) -> Result<(int, PreState), PreprocessError> {
    if i + 1 >= toks.len() {
        Err(PreprocessError::UnexpectedEnd)
    } else if toks[i + 1].token_type != TokenType::Ident {
        Err(PreprocessError::MacroExpectedIdentifier)
    } else if defined(st.macros, toks[i + 1].value@) {
        Err(PreprocessError::MacroAlreadyDefined(toks[i + 1].value))
    } else {
        match decl_end(toks, i + 2) {
            Ok(j) => Ok(
                (
                    j,
                    PreState {
                        macros: st.macros.push(
                            MacroModel { name: toks[i + 1].value@, body: toks.subrange(i + 2, j) },
                        ),
                        ..st
                    },
                ),
            ),
            Err(e) => Err(e),
        }
    }
}

/// The cell width a size keyword stands for.
pub open spec fn cell_size_of(v: Seq<char>) -> Option<Size> {
    if v == seq!['b', 'y', 't', 'e'] {
        Some(Size::Byte)
    } else if v == seq!['w', 'o', 'r', 'd'] {
        Some(Size::Word)
    } else if v == seq!['d', 'w', 'o', 'r', 'd'] {
        Some(Size::Dword)
    } else if v == seq!['q', 'w', 'o', 'r', 'd'] {
        Some(Size::Qword)
    } else {
        None
    }
}

/// The number written by a sequence of decimal digits.
pub open spec fn digits_value(d: Seq<char>) -> nat
    decreases d.len(),
{
    if d.len() == 0 {
        0
    } else {
        digits_value(d.drop_last()) * 10 + (d.last() as nat - '0' as nat) as nat
    }
}

/// A machine word written in decimal, with an optional leading `+`.
pub open spec fn parse_usize(v: Seq<char>) -> Option<usize> {
    let d = if v.len() > 0 && v[0] == '+' {
        v.drop_first()
    } else {
        v
    };
    if d.len() > 0 && all_digits(d) && digits_value(d) <= usize::MAX {
        Some(digits_value(d) as usize)
    } else {
        None
    }
}

/// A token that can give the cell count of a `#tape`: a back-quoted number,
/// or a bare word made of digits.
pub open spec fn count_token(t: Token) -> bool {
    t.token_type == TokenType::IntLit || (t.token_type == TokenType::Ident && all_digits(t.value@))
}

/// `#tape NAME size count`: the position of the line break that ends it, and
/// the state with the new tape.
pub open spec fn do_tape(toks: Seq<Token>, i: int, st: PreState) -> Result<(int, PreState), PreprocessError> {
    if i + 1 >= toks.len() {
        Err(PreprocessError::UnexpectedEnd)
    } else if toks[i + 1].token_type != TokenType::Ident {
        Err(PreprocessError::TapeExpectedIdentifier)
    } else if i + 2 >= toks.len() {
        Err(PreprocessError::UnexpectedEnd)
    } else if toks[i + 2].token_type != TokenType::CellSize {
        Err(PreprocessError::TapeExpectedCellSize { tape: toks[i + 1].value, got: toks[i + 2].value })
    } else {
        match cell_size_of(toks[i + 2].value@) {
            None => Err(PreprocessError::TapeUnknownCellSize),
            Some(size) => if i + 3 >= toks.len() {
                Err(PreprocessError::UnexpectedEnd)
            } else if !count_token(toks[i + 3]) {
                Err(PreprocessError::TapeExpectedIntLit { tape: toks[i + 1].value, got: toks[i + 2].value })
            } else {
                match parse_usize(toks[i + 3].value@) {
                    None => Err(PreprocessError::TapeBadCellCount),
                    Some(count) => if i + 4 >= toks.len() {
                        Err(PreprocessError::UnexpectedEnd)
                    } else if toks[i + 4].token_type != TokenType::NewLine {
                        Err(
                            PreprocessError::TapeExpectedNewLine {
                                tape: toks[i + 1].value,
                                got: toks[i + 2].value,
                            },
                        )
                    } else {
                        Ok(
                            (
                                i + 4,
                                PreState {
                                    tapes: st.tapes.push(Tape { name: toks[i + 1].value, size, cell_count: count }),
                                    ..st
                                },
                            ),
                        )
                    },
                }
            },
        }
    }
}

/// The first `#endif` at or after `j` (or `#else`, when `stop_else`), skipping
/// everything before it.
pub open spec fn skip_to(toks: Seq<Token>, j: int, stop_else: bool) -> Result<int, PreprocessError>
    decreases toks.len() - j,
{
    if j < 0 || j >= toks.len() {
        Err(PreprocessError::UnexpectedEnd)
    } else if toks[j].token_type == TokenType::EndifMacro || (stop_else && toks[j].token_type
        == TokenType::ElseMacro) {
        Ok(j)
    } else {
        skip_to(toks, j + 1, stop_else)
    }
}

pub proof fn lemma_skip_to(toks: Seq<Token>, j: int, stop_else: bool)
    requires
        0 <= j,
    ensures
        skip_to(toks, j, stop_else) matches Ok(k) ==> j <= k < toks.len() && (toks[k].token_type
            == TokenType::EndifMacro || (stop_else && toks[k].token_type == TokenType::ElseMacro)),
    decreases toks.len() - j,
{
    if j < toks.len() && !(toks[j].token_type == TokenType::EndifMacro || (stop_else
        && toks[j].token_type == TokenType::ElseMacro)) {
        lemma_skip_to(toks, j + 1, stop_else);
    }
}

pub proof fn lemma_decl_end(toks: Seq<Token>, j: int)
    requires
        0 <= j,
    ensures
        decl_end(toks, j) matches Ok(k) ==> j <= k < toks.len(),
    decreases toks.len() - j,
{
    if j < toks.len() && toks[j].token_type != TokenType::NewLine && !is_directive(toks[j].token_type) {
        lemma_decl_end(toks, j + 1);
    }
}

/// A directive at `i`: the position where the macro pass goes on, and the new state.
pub open spec fn dispatch(toks: Seq<Token>, i: int, st: PreState) -> Result<(int, PreState), PreprocessError>
    decreases toks.len() - i, 2nat,
{
    if i < 0 || i >= toks.len() {
        Err(PreprocessError::UnexpectedEnd)
    } else {
        match toks[i].token_type {
            TokenType::MacroDecl => do_decl(toks, i, st),
            TokenType::IfdefMacro => do_cond(toks, i, st, false),
            TokenType::IfNdefMacro => do_cond(toks, i, st, true),
            TokenType::EndifMacro => Err(PreprocessError::EndifWithoutCondition),
            TokenType::ElseMacro => Err(PreprocessError::ElseWithoutCondition),
            TokenType::TapeDecl => do_tape(toks, i, st),
            _ => Err(PreprocessError::NotAMacro(toks[i].value)),
        }
    }
}

/// `#ifdef NAME` (or `#ifndef NAME`, when `negate`): keeps the branch that the
/// definition of NAME selects and drops the other.
pub open spec fn do_cond(toks: Seq<Token>, i: int, st: PreState, negate: bool) -> Result<
    (int, PreState),
    PreprocessError,
>
    decreases toks.len() - i, 1nat,
{
    if i < 0 || i + 1 >= toks.len() {
        Err(PreprocessError::UnexpectedEnd)
    } else if toks[i + 1].token_type != TokenType::Ident {
        Err(PreprocessError::CondExpectedIdentifier)
    } else if defined(st.macros, toks[i + 1].value@) != negate {
        match active(toks, i + 2, st, true) {
            Ok((k, st2)) => if 0 <= k < toks.len() && toks[k].token_type == TokenType::ElseMacro {
                match skip_to(toks, k, false) {
                    Ok(m) => Ok((m + 1, st2)),
                    Err(e) => Err(e),
                }
            } else {
                Ok((k + 1, st2))
            },
            Err(e) => Err(e),
        }
    } else {
        match skip_to(toks, i + 2, true) {
            Ok(k) => if toks[k].token_type == TokenType::ElseMacro {
                proof {
                    lemma_skip_to(toks, i + 2, true);
                }
                match active(toks, k + 1, st, false) {
                    Ok((m, st2)) => Ok((m + 1, st2)),
                    Err(e) => Err(e),
                }
            } else {
                Ok((k + 1, st))
            },
            Err(e) => Err(e),
        }
    }
}

/// The tokens of a kept branch from `j` on, up to its `#endif` (or `#else`,
/// when `stop_else`): ordinary tokens are kept, directives are carried out.
pub open spec fn active(toks: Seq<Token>, j: int, st: PreState, stop_else: bool) -> Result<
    (int, PreState),
    PreprocessError,
>
    decreases toks.len() - j, 3nat,
{
    if j < 0 || j >= toks.len() {
        Err(PreprocessError::UnexpectedEnd)
    } else if toks[j].token_type == TokenType::EndifMacro || (stop_else && toks[j].token_type
        == TokenType::ElseMacro) {
        Ok((j, st))
    } else if is_directive(toks[j].token_type) {
        match dispatch(toks, j, st) {
            // a directive always moves past its own position
            Ok((j2, st2)) => if j < j2 <= toks.len() {
                active(toks, j2, st2, stop_else)
            } else {
                Err(PreprocessError::UnexpectedEnd)
            },
            Err(e) => Err(e),
        }
    } else {
        active(toks, j + 1, PreState { out: st.out.push(toks[j]), ..st }, stop_else)
    }
}

/// The macro pass from position `i` on: ordinary tokens are kept, directives
/// are carried out, and the token right after each directive's end is skipped.
pub open spec fn macros_from(toks: Seq<Token>, i: int, st: PreState) -> Result<PreState, PreprocessError>
    decreases toks.len() + 1 - i,
{
    if i < 0 || i >= toks.len() {
        Ok(st)
    } else if is_directive(toks[i].token_type) {
        match dispatch(toks, i, st) {
            // a directive always moves past its own position
            Ok((j, st2)) => if i < j <= toks.len() {
                macros_from(toks, j + 1, st2)
            } else {
                Err(PreprocessError::UnexpectedEnd)
            },
            Err(e) => Err(e),
        }
    } else {
        macros_from(toks, i + 1, PreState { out: st.out.push(toks[i]), ..st })
    }
}

/// The state of the macro pass held in three vectors.
pub open spec fn state_of(out: Seq<Token>, macros: Seq<Macro>, tapes: Seq<Tape>) -> PreState {
    PreState { out, macros: macros_view(macros), tapes }
}

fn is_macro_token(token_type: TokenType) -> (r: bool)
    ensures
        r == is_directive(token_type),
{
    token_type == TokenType::MacroDecl || token_type == TokenType::IfdefMacro || token_type
        == TokenType::IfNdefMacro || token_type == TokenType::ElseMacro || token_type
        == TokenType::EndifMacro || token_type == TokenType::TapeDecl
}

/// Whether a macro called `name` is defined.
fn is_defined(macros: &Vec<Macro>, name: &String) -> (r: bool)
    ensures
        r == defined(macros_view(macros@), name@),
{
    let ghost mv = macros_view(macros@);
    let mut k: usize = 0;
    while k < macros.len()
        invariant
            mv == macros_view(macros@),
            k <= macros.len(),
            forall|m: int| 0 <= m < k ==> mv[m].name != name@,
        decreases macros.len() - k,
    {
        if macros[k].name == *name {
            assert(mv[k as int].name == name@);
            return true;
        }
        k += 1;
    }
    false
}

/// Reads a `#define` at `*i` into a new macro; `*i` ends on the line break after its body.
fn preprocess_macro_decl(i: &mut usize, tokens: &[Token], macros: &mut Vec<Macro>) -> (res: Result<
    (),
    PreprocessError,
>)
    ensures
        match do_decl(tokens@, *old(i) as int, state_of(seq![], old(macros)@, seq![])) {
            Ok((j, st)) => res is Ok && *final(i) == j && macros_view(final(macros)@) == st.macros,
            Err(e) => res == Err::<(), PreprocessError>(e),
        },
{
    let ghost toks = tokens@;
    let start = *i;
    let len = tokens.len();
    if start >= len || start + 1 >= len {
        return Err(PreprocessError::UnexpectedEnd);
    }
    let macro_name: Token = tokens[start + 1].clone();
    if macro_name.token_type != TokenType::Ident {
        return Err(PreprocessError::MacroExpectedIdentifier);
    }
    if is_defined(macros, &macro_name.value) {
        return Err(PreprocessError::MacroAlreadyDefined(macro_name.value));
    }
    let mut j = start + 2;
    let mut terms: Vec<Token> = Vec::new();
    while j < len && tokens[j].token_type != TokenType::NewLine
        invariant
            toks == tokens@,
            len == toks.len(),
            start + 2 <= j <= len,
            *i == start,
            toks[start + 1].token_type == TokenType::Ident,
            !defined(macros_view(macros@), toks[start + 1].value@),
            decl_end(toks, start + 2) == decl_end(toks, j as int),
            terms@ == toks.subrange(start + 2, j as int),
        decreases len - j,
    {
        let token = tokens[j].clone();
        if is_macro_token(token.token_type) {
            return Err(PreprocessError::MacroInsideDefine);
        }
        terms.push(token);
        j += 1;
        assert(terms@ =~= toks.subrange(start + 2, j as int));
    }
    if j >= len {
        return Err(PreprocessError::UnexpectedEnd);
    }
    let ghost old_macros = macros_view(macros@);
    macros.push(Macro { name: macro_name.value, tokens: terms });
    assert(macros_view(macros@) =~= old_macros.push(
        MacroModel { name: toks[start + 1].value@, body: toks.subrange(start + 2, j as int) },
    ));
    *i = j;
    Ok(())
}

/// The cell width a size keyword stands for.
fn cell_size_exec(v: &String) -> (r: Option<Size>)
    ensures
        r == cell_size_of(v@),
{
    let s = v.as_str();
    proof {
        reveal_strlit("byte");
        reveal_strlit("word");
        reveal_strlit("dword");
        reveal_strlit("qword");
    }
    let byte = String::from_str("byte");
    let word = String::from_str("word");
    let dword = String::from_str("dword");
    let qword = String::from_str("qword");
    assert(byte@ =~= seq!['b', 'y', 't', 'e']);
    assert(word@ =~= seq!['w', 'o', 'r', 'd']);
    assert(dword@ =~= seq!['d', 'w', 'o', 'r', 'd']);
    assert(qword@ =~= seq!['q', 'w', 'o', 'r', 'd']);
    if *v == byte {
        Some(Size::Byte)
    } else if *v == word {
        Some(Size::Word)
    } else if *v == dword {
        Some(Size::Dword)
    } else if *v == qword {
        Some(Size::Qword)
    } else {
        None
    }
}

/// The machine word written in decimal in `v`, with an optional leading `+`.
fn parse_usize_exec(v: &String) -> (r: Option<usize>)
    ensures
        r == parse_usize(v@),
{
    let s = v.as_str();
    let n = s.unicode_len();
    let mut k: usize = 0;
    if n > 0 && s.get_char(0) == '+' {
        k = 1;
    }
    let ghost d = if v@.len() > 0 && v@[0] == '+' {
        v@.drop_first()
    } else {
        v@
    };
    assert(d =~= v@.subrange(k as int, n as int));
    if k >= n {
        return None;
    }
    let start = k;
    let mut value: usize = 0;
    while k < n
        invariant
            n == v@.len(),
            s@ == v@,
            start < n,
            start <= k <= n,
            d == v@.subrange(start as int, n as int),
            d == if v@.len() > 0 && v@[0] == '+' {
                v@.drop_first()
            } else {
                v@
            },
            all_digits(d.subrange(0, k - start)),
            value == digits_value(d.subrange(0, k - start)),
        decreases n - k,
    {
        let c = s.get_char(k);
        let ghost prefix = d.subrange(0, k - start);
        let ghost next = d.subrange(0, k + 1 - start);
        assert(next.drop_last() =~= prefix);
        assert(d[k - start] == c);
        assert(next.last() == c);
        if !('0' <= c && c <= '9') {
            assert(!all_digits(d));
            return None;
        }
        let digit = (c as u32 - '0' as u32) as usize;
        assert(digits_value(next) == value * 10 + digit);
        assert(all_digits(next)) by {
            assert forall|m: int| 0 <= m < next.len() implies '0' <= #[trigger] next[m] <= '9' by {
                if m < prefix.len() {
                    assert(next[m] == prefix[m]);
                }
            }
        }
        if value > (usize::MAX - digit) / 10 {
            proof {
                assert(value * 10 + digit > usize::MAX) by (nonlinear_arith)
                    requires
                        value > (usize::MAX - digit) / 10,
                        digit <= 9,
                ;
                if all_digits(d) {
                    lemma_digits_prefix_monotone(d, k + 1 - start);
                }
            }
            return None;
        }
        assert(value * 10 + digit <= usize::MAX) by (nonlinear_arith)
            requires
                value <= (usize::MAX - digit) / 10,
                digit <= 9,
        ;
        value = value * 10 + digit;
        k += 1;
    }
    assert(d.subrange(0, n - start) =~= d);
    Some(value)
}

/// A prefix of digits never writes a larger number than the whole.
pub proof fn lemma_digits_prefix_monotone(d: Seq<char>, m: int)
    requires
        all_digits(d),
        0 <= m <= d.len(),
    ensures
        digits_value(d.subrange(0, m)) <= digits_value(d),
    decreases d.len() - m,
{
    if m < d.len() {
        lemma_digits_prefix_monotone(d, m + 1);
        let p = d.subrange(0, m + 1);
        assert(p.drop_last() =~= d.subrange(0, m));
        assert('0' <= p.last() <= '9');
    } else {
        assert(d.subrange(0, m) =~= d);
    }
}

/// Reads a `#tape` declaration at `*i` into a new tape; `*i` ends on the line
/// break that ends it.
fn preprocess_tape_decl(i: &mut usize, tokens: &[Token], tapes: &mut Vec<Tape>) -> (res: Result<
    (),
    PreprocessError,
>)
    ensures
        match do_tape(tokens@, *old(i) as int, state_of(seq![], seq![], old(tapes)@)) {
            Ok((j, st)) => res is Ok && *final(i) == j && final(tapes)@ == st.tapes,
            Err(e) => res == Err::<(), PreprocessError>(e),
        },
{
    let ghost toks = tokens@;
    let len = tokens.len();
    if *i >= len || *i + 1 >= len {
        return Err(PreprocessError::UnexpectedEnd);
    }
    *i += 1;
    let name = tokens[*i].clone();
    if name.token_type != TokenType::Ident {
        return Err(PreprocessError::TapeExpectedIdentifier);
    }
    if *i + 1 >= len {
        return Err(PreprocessError::UnexpectedEnd);
    }
    *i += 1;
    let size = tokens[*i].clone();
    if size.token_type != TokenType::CellSize {
        return Err(PreprocessError::TapeExpectedCellSize { tape: name.value, got: size.value });
    }
    let cell = match cell_size_exec(&size.value) {
        Some(c) => c,
        None => {
            return Err(PreprocessError::TapeUnknownCellSize);
        },
    };
    if *i + 1 >= len {
        return Err(PreprocessError::UnexpectedEnd);
    }
    *i += 1;
    let cell_count = tokens[*i].clone();
    if !(cell_count.token_type == TokenType::IntLit || (cell_count.token_type == TokenType::Ident
        && all_digits_exec(&cell_count.value))) {
        return Err(PreprocessError::TapeExpectedIntLit { tape: name.value, got: size.value });
    }
    let count = match parse_usize_exec(&cell_count.value) {
        Some(n) => n,
        None => {
            return Err(PreprocessError::TapeBadCellCount);
        },
    };
    if *i + 1 >= len {
        return Err(PreprocessError::UnexpectedEnd);
    }
    *i += 1;
    if tokens[*i].token_type != TokenType::NewLine {
        return Err(PreprocessError::TapeExpectedNewLine { tape: name.value, got: size.value });
    }
    tapes.push(Tape { name: name.value, size: cell, cell_count: count });
    Ok(())
}

/// Whether every character of `v` is a decimal digit.
fn all_digits_exec(v: &String) -> (r: bool)
    ensures
        r == all_digits(v@),
{
    let s = v.as_str();
    let n = s.unicode_len();
    let mut k: usize = 0;
    while k < n
        invariant
            k <= n == v@.len(),
            s@ == v@,
            forall|m: int| 0 <= m < k ==> '0' <= #[trigger] v@[m] <= '9',
        decreases n - k,
    {
        let c = s.get_char(k);
        if !('0' <= c && c <= '9') {
            return false;
        }
        k += 1;
    }
    true
}

/// `res`, the final position and the final state agree with the outcome `r` of the spec.
pub open spec fn outcome_matches(
    r: Result<(int, PreState), PreprocessError>,
    res: Result<(), PreprocessError>,
    final_i: usize,
    st: PreState,
) -> bool {
    match r {
        Ok((j, s2)) => res is Ok && final_i == j && st == s2,
        Err(e) => res == Err::<(), PreprocessError>(e),
    }
}

/// The first `#endif` at or after `j` (or `#else`, when `stop_else`).
fn skip_to_exec(tokens: &[Token], j: usize, stop_else: bool) -> (res: Result<usize, PreprocessError>)
    ensures
        match res {
            Ok(k) => skip_to(tokens@, j as int, stop_else) == Ok::<int, PreprocessError>(k as int) && j <= k
                < tokens.len(),
            Err(e) => skip_to(tokens@, j as int, stop_else) == Err::<int, PreprocessError>(e),
        },
{
    proof {
        lemma_skip_to(tokens@, j as int, stop_else);
    }
    let mut k = j;
    while k < tokens.len()
        invariant
            j <= k,
            skip_to(tokens@, j as int, stop_else) == skip_to(tokens@, k as int, stop_else),
        decreases tokens.len() - k,
    {
        let t = tokens[k].token_type;
        if t == TokenType::EndifMacro || (stop_else && t == TokenType::ElseMacro) {
            return Ok(k);
        }
        k += 1;
    }
    Err(PreprocessError::UnexpectedEnd)
}

/// Carries out the directive at `*i`; `*i` ends where the pass goes on.
fn preprocess_macro(
    i: &mut usize,
    tokens: &[Token],
    new_tokens: &mut Vec<Token>,
    macros: &mut Vec<Macro>,
    tapes: &mut Vec<Tape>,
) -> (res: Result<(), PreprocessError>)
    ensures
        outcome_matches(
            dispatch(tokens@, *old(i) as int, state_of(old(new_tokens)@, old(macros)@, old(tapes)@)),
            res,
            *final(i),
            state_of(final(new_tokens)@, final(macros)@, final(tapes)@),
        ),
        res is Ok ==> *old(i) < *final(i) <= tokens.len(),
    decreases tokens.len() - *old(i), 4nat,
{
    let ghost st = state_of(new_tokens@, macros@, tapes@);
    let ghost toks = tokens@;
    let ghost i0 = *i as int;
    if *i >= tokens.len() {
        return Err(PreprocessError::UnexpectedEnd);
    }
    match tokens[*i].token_type {
        TokenType::MacroDecl => {
            let ghost old_macros = macros@;
            let r = preprocess_macro_decl(i, tokens, macros);
            proof {
                lemma_decl_end(toks, i0 + 2);
                match do_decl(toks, i0, state_of(seq![], old_macros, seq![])) {
                    Ok((j, sm)) => {
                        assert(do_decl(toks, i0, st) == Ok::<(int, PreState), PreprocessError>(
                            (j, PreState { macros: sm.macros, ..st }),
                        ));
                        assert(state_of(new_tokens@, macros@, tapes@) =~= PreState { macros: sm.macros, ..st });
                    },
                    Err(e) => {
                        assert(do_decl(toks, i0, st) == Err::<(int, PreState), PreprocessError>(e));
                    },
                }
            }
            assert(r is Ok ==> i0 < *i <= tokens.len());
            r
        },
        TokenType::IfdefMacro => preprocess_ifdef_macro(i, tokens, new_tokens, macros, tapes),
        TokenType::IfNdefMacro => preprocess_ifndef_macro(i, tokens, new_tokens, macros, tapes),
        TokenType::EndifMacro => Err(PreprocessError::EndifWithoutCondition),
        TokenType::ElseMacro => Err(PreprocessError::ElseWithoutCondition),
        TokenType::TapeDecl => {
            let ghost old_tapes = tapes@;
            let r = preprocess_tape_decl(i, tokens, tapes);
            proof {
                match do_tape(toks, i0, state_of(seq![], seq![], old_tapes)) {
                    Ok((j, sm)) => {
                        assert(do_tape(toks, i0, st) == Ok::<(int, PreState), PreprocessError>(
                            (j, PreState { tapes: sm.tapes, ..st }),
                        ));
                        assert(state_of(new_tokens@, macros@, tapes@) =~= PreState { tapes: sm.tapes, ..st });
                    },
                    Err(e) => {
                        assert(do_tape(toks, i0, st) == Err::<(int, PreState), PreprocessError>(e));
                    },
                }
            }
            r
        },
        _ => Err(PreprocessError::NotAMacro(tokens[*i].value.clone())),
    }
}

/// `#ifdef NAME` at `*i`.
fn preprocess_ifdef_macro(
    i: &mut usize,
    tokens: &[Token],
    new_tokens: &mut Vec<Token>,
    macros: &mut Vec<Macro>,
    tapes: &mut Vec<Tape>,
) -> (res: Result<(), PreprocessError>)
    ensures
        outcome_matches(
            do_cond(tokens@, *old(i) as int, state_of(old(new_tokens)@, old(macros)@, old(tapes)@), false),
            res,
            *final(i),
            state_of(final(new_tokens)@, final(macros)@, final(tapes)@),
        ),
        res is Ok ==> *old(i) < *final(i) <= tokens.len(),
    decreases tokens.len() - *old(i), 3nat,
{
    preprocess_conditional(i, tokens, new_tokens, macros, tapes, false)
}

/// `#ifndef NAME` at `*i`.
fn preprocess_ifndef_macro(
    i: &mut usize,
    tokens: &[Token],
    new_tokens: &mut Vec<Token>,
    macros: &mut Vec<Macro>,
    tapes: &mut Vec<Tape>,
) -> (res: Result<(), PreprocessError>)
    ensures
        outcome_matches(
            do_cond(tokens@, *old(i) as int, state_of(old(new_tokens)@, old(macros)@, old(tapes)@), true),
            res,
            *final(i),
            state_of(final(new_tokens)@, final(macros)@, final(tapes)@),
        ),
        res is Ok ==> *old(i) < *final(i) <= tokens.len(),
    decreases tokens.len() - *old(i), 3nat,
{
    preprocess_conditional(i, tokens, new_tokens, macros, tapes, true)
}

/// A conditional at `*i`: keeps the branch that the definition of its name
/// selects (the other one when `negate`).
fn preprocess_conditional(
    i: &mut usize,
    tokens: &[Token],
    new_tokens: &mut Vec<Token>,
    macros: &mut Vec<Macro>,
    tapes: &mut Vec<Tape>,
    negate: bool,
) -> (res: Result<(), PreprocessError>)
    ensures
        outcome_matches(
            do_cond(tokens@, *old(i) as int, state_of(old(new_tokens)@, old(macros)@, old(tapes)@), negate),
            res,
            *final(i),
            state_of(final(new_tokens)@, final(macros)@, final(tapes)@),
        ),
        res is Ok ==> *old(i) < *final(i) <= tokens.len(),
    decreases tokens.len() - *old(i), 2nat,
{
    let ghost toks = tokens@;
    let ghost st = state_of(new_tokens@, macros@, tapes@);
    let start = *i;
    let len = tokens.len();
    if start >= len || start + 1 >= len {
        return Err(PreprocessError::UnexpectedEnd);
    }
    if tokens[start + 1].token_type != TokenType::Ident {
        return Err(PreprocessError::CondExpectedIdentifier);
    }
    let is_def = is_defined(macros, &tokens[start + 1].value);
    *i = start + 2;
    assert(is_def == defined(st.macros, toks[start + 1].value@));
    if is_def != negate {
        match run_active(i, tokens, new_tokens, macros, tapes, true) {
            Ok(()) => {},
            Err(e) => {
                return Err(e);
            },
        }
        let ghost k = *i as int;
        let ghost st2 = state_of(new_tokens@, macros@, tapes@);
        assert(active(toks, start + 2, st, true) == Ok::<(int, PreState), PreprocessError>((k, st2)));
        if tokens[*i].token_type == TokenType::ElseMacro {
            match skip_to_exec(tokens, *i, false) {
                Ok(m) => {
                    assert(skip_to(toks, k, false) == Ok::<int, PreprocessError>(m as int));
                    assert(toks[k].token_type == TokenType::ElseMacro);
                    assert(do_cond(toks, start as int, st, negate) == Ok::<(int, PreState), PreprocessError>((m + 1, st2)));
                    *i = m + 1;
                },
                Err(e) => {
                    return Err(e);
                },
            }
        } else {
            *i = *i + 1;
        }
        assert(do_cond(toks, start as int, st, negate) == Ok::<(int, PreState), PreprocessError>((*i as int, st2)));
    } else {
        proof {
            lemma_skip_to(toks, start + 2, true);
        }
        let k = match skip_to_exec(tokens, start + 2, true) {
            Ok(k) => k,
            Err(e) => {
                return Err(e);
            },
        };
        if tokens[k].token_type == TokenType::ElseMacro {
            *i = k + 1;
            match run_active(i, tokens, new_tokens, macros, tapes, false) {
                Ok(()) => {},
                Err(e) => {
                    return Err(e);
                },
            }
            *i = *i + 1;
            assert(do_cond(toks, start as int, st, negate) == Ok::<(int, PreState), PreprocessError>((*i as int, state_of(new_tokens@, macros@, tapes@))));
        } else {
            *i = k + 1;
            assert(do_cond(toks, start as int, st, negate) == Ok::<(int, PreState), PreprocessError>((*i as int, st)));
        }
    }
    Ok(())
}

/// The kept branch from `*i` on, up to its `#endif` (or `#else`, when
/// `stop_else`), where `*i` ends: keeps ordinary tokens, carries out directives.
fn run_active(
    i: &mut usize,
    tokens: &[Token],
    new_tokens: &mut Vec<Token>,
    macros: &mut Vec<Macro>,
    tapes: &mut Vec<Tape>,
    stop_else: bool,
) -> (res: Result<(), PreprocessError>)
    ensures
        outcome_matches(
            active(tokens@, *old(i) as int, state_of(old(new_tokens)@, old(macros)@, old(tapes)@), stop_else),
            res,
            *final(i),
            state_of(final(new_tokens)@, final(macros)@, final(tapes)@),
        ),
        res is Ok ==> *old(i) <= *final(i) < tokens.len(),
    decreases tokens.len() - *old(i), 5nat,
{
    let ghost toks = tokens@;
    let ghost i0 = *i as int;
    let ghost goal = active(toks, i0, state_of(new_tokens@, macros@, tapes@), stop_else);
    loop
        invariant
            toks == tokens@,
            i0 == *old(i),
            goal == active(toks, i0, state_of(old(new_tokens)@, old(macros)@, old(tapes)@), stop_else),
            i0 <= *i,
            goal == active(toks, *i as int, state_of(new_tokens@, macros@, tapes@), stop_else),
        decreases tokens.len() - *i,
    {
        if *i >= tokens.len() {
            return Err(PreprocessError::UnexpectedEnd);
        }
        let t = tokens[*i].token_type;
        if t == TokenType::EndifMacro || (stop_else && t == TokenType::ElseMacro) {
            return Ok(());
        }
        if is_macro_token(t) {
            match preprocess_macro(i, tokens, new_tokens, macros, tapes) {
                Ok(()) => {},
                Err(e) => {
                    return Err(e);
                },
            }
        } else {
            let ghost before = new_tokens@;
            new_tokens.push(tokens[*i].clone());
            assert(new_tokens@ == before.push(toks[*i as int]));
            *i = *i + 1;
        }
    }
}

/// Runs the macro pass over a token stream: keeps its ordinary tokens, reads
/// its `#define`s and `#tape`s, and resolves its conditionals.
fn preprocess_macros(tokens: Vec<Token>, tapes: &mut Vec<Tape>) -> (res: Result<
    (Vec<Token>, Vec<Macro>),
    PreprocessError,
>)
    ensures
        match macros_from(tokens@, 0, state_of(seq![], seq![], old(tapes)@)) {
            Ok(st) => res is Ok && state_of(res->Ok_0.0@, res->Ok_0.1@, final(tapes)@) == st,
            Err(e) => res matches Err(e2) && e2 == e,
        },
{
    let ghost toks = tokens@;
    let ghost goal = macros_from(toks, 0, state_of(seq![], seq![], tapes@));
    let mut new_tokens: Vec<Token> = Vec::new();
    let mut macros: Vec<Macro> = Vec::new();
    let mut i: usize = 0;
    let len: usize = tokens.len();
    assert(macros_view(macros@) =~= Seq::<MacroModel>::empty());
    while i < len
        invariant
            toks == tokens@,
            len == toks.len(),
            i <= len,
            goal == macros_from(toks, 0, state_of(seq![], seq![], old(tapes)@)),
            goal == macros_from(toks, i as int, state_of(new_tokens@, macros@, tapes@)),
        decreases len - i,
    {
        let t = tokens[i].token_type;
        if is_macro_token(t) {
            match preprocess_macro(&mut i, &tokens, &mut new_tokens, &mut macros, tapes) {
                Ok(()) => {},
                Err(e) => {
                    return Err(e);
                },
            }
            if i < len {
                i += 1;
            } else {
                assert(macros_from(toks, len + 1, state_of(new_tokens@, macros@, tapes@)) == macros_from(
                    toks,
                    len as int,
                    state_of(new_tokens@, macros@, tapes@),
                ));
            }
        } else {
            let ghost before = new_tokens@;
            new_tokens.push(tokens[i].clone());
            assert(new_tokens@ == before.push(toks[i as int]));
            i += 1;
        }
    }
    Ok((new_tokens, macros))
}

/// Index of the first macro called `name`, searching from index `k`.
pub open spec fn find_macro_from(ms: Seq<MacroModel>, name: Seq<char>, k: int) -> Option<int>
    decreases ms.len() - k,
{
    if k < 0 || k >= ms.len() {
        None
    } else if ms[k].name == name {
        Some(k)
    } else {
        find_macro_from(ms, name, k + 1)
    }
}

/// Index of the first macro called `name`.
pub open spec fn find_macro(ms: Seq<MacroModel>, name: Seq<char>) -> Option<int> {
    find_macro_from(ms, name, 0)
}

pub proof fn lemma_find_macro_from(ms: Seq<MacroModel>, name: Seq<char>, k: int)
    requires
        0 <= k,
    ensures
        find_macro_from(ms, name, k) matches Some(j) ==> k <= j < ms.len() && ms[j].name == name,
        find_macro_from(ms, name, k) is None ==> forall|m: int| k <= m < ms.len() ==> ms[m].name != name,
    decreases ms.len() - k,
{
    if k < ms.len() && ms[k].name != name {
        lemma_find_macro_from(ms, name, k + 1);
    }
}

/// The first macro called `name`, if there is one.
#[must_use]
pub fn is_macro(name: String, macros: &[Macro]) -> (res: Option<Macro>)
    ensures
        match find_macro(macros_view(macros@), name@) {
            Some(k) => res is Some && res->Some_0@ == macros@[k]@,
            None => res is None,
        },
{
    let ghost mv = macros_view(macros@);
    proof {
        lemma_find_macro_from(mv, name@, 0);
    }
    let mut k: usize = 0;
    while k < macros.len()
        invariant
            mv == macros_view(macros@),
            k <= macros.len(),
            find_macro(mv, name@) == find_macro_from(mv, name@, k as int),
        decreases macros.len() - k,
    {
        if name == macros[k].name {
            return Some(macros[k].clone());
        }
        k += 1;
    }
    None
}

/// The expansion of the tokens of a macro body, with `fuel` more levels of
/// nested macros allowed.
pub open spec fn expand_seq(body: Seq<Token>, ms: Seq<MacroModel>, fuel: nat) -> Result<
    Seq<Token>,
    PreprocessError,
>
    decreases fuel, body.len(), 1nat,
{
    if body.len() == 0 {
        Ok(seq![])
    } else {
        match expand_token(body[0], ms, fuel) {
            Ok(a) => match expand_seq(body.drop_first(), ms, fuel) {
                Ok(b) => Ok(a + b),
                Err(e) => Err(e),
            },
            Err(e) => Err(e),
        }
    }
}

/// The expansion of one token of a macro body: a name is replaced by the
/// expansion of its macro, any other token stays.
pub open spec fn expand_token(t: Token, ms: Seq<MacroModel>, fuel: nat) -> Result<Seq<Token>, PreprocessError>
    decreases fuel, 0nat, 0nat,
{
    if t.token_type != TokenType::Ident {
        Ok(seq![t])
    } else {
        match find_macro(ms, t.value@) {
            None => Err(PreprocessError::UndefinedInMacro(t.value)),
            Some(k) => if fuel == 0 {
                Err(PreprocessError::MacroCycle)
            } else {
                expand_seq(ms[k].body, ms, (fuel - 1) as nat)
            },
        }
    }
}

/// The nesting a macro expansion may reach: as deep as there are macros.
pub open spec fn expansion_fuel(ms: Seq<MacroModel>) -> nat {
    if ms.len() == 0 {
        0
    } else {
        (ms.len() - 1) as nat
    }
}

/// The expansion of one token of the program: a name is replaced by the full
/// expansion of its macro, any other token stays.
pub open spec fn unwrap_token(t: Token, ms: Seq<MacroModel>) -> Result<Seq<Token>, PreprocessError> {
    if t.token_type != TokenType::Ident {
        Ok(seq![t])
    } else {
        match find_macro(ms, t.value@) {
            None => Err(PreprocessError::Undefined(t.value)),
            Some(k) => expand_seq(ms[k].body, ms, expansion_fuel(ms)),
        }
    }
}

/// The program with every name replaced by the full expansion of its macro.
pub open spec fn unwrap_all(toks: Seq<Token>, ms: Seq<MacroModel>) -> Result<Seq<Token>, PreprocessError>
    decreases toks.len(),
{
    if toks.len() == 0 {
        Ok(seq![])
    } else {
        match unwrap_token(toks[0], ms) {
            Ok(a) => match unwrap_all(toks.drop_first(), ms) {
                Ok(b) => Ok(a + b),
                Err(e) => Err(e),
            },
            Err(e) => Err(e),
        }
    }
}

/// `r` with the tokens `pre` put in front of it when it succeeds.
pub open spec fn prepend_pre(pre: Seq<Token>, r: Result<Seq<Token>, PreprocessError>) -> Result<
    Seq<Token>,
    PreprocessError,
> {
    match r {
        Ok(ts) => Ok(pre + ts),
        Err(e) => Err(e),
    }
}

/// `res` agrees with the outcome `r` of the spec.
pub open spec fn tokens_outcome(r: Result<Seq<Token>, PreprocessError>, res: Result<Vec<Token>, PreprocessError>) -> bool {
    match r {
        Ok(ts) => res is Ok && res->Ok_0@ == ts,
        Err(e) => res matches Err(e2) && e2 == e,
    }
}

/// `a` followed by `r`, when both succeed; the first error otherwise.
pub open spec fn then_pre(a: Result<Seq<Token>, PreprocessError>, r: Result<Seq<Token>, PreprocessError>) -> Result<
    Seq<Token>,
    PreprocessError,
> {
    match a {
        Ok(x) => prepend_pre(x, r),
        Err(e) => Err(e),
    }
}

pub proof fn lemma_expand_step(body: Seq<Token>, ms: Seq<MacroModel>, fuel: nat, k: int)
    requires
        0 <= k < body.len(),
    ensures
        expand_seq(body.skip(k), ms, fuel) == then_pre(
            expand_token(body[k], ms, fuel),
            expand_seq(body.skip(k + 1), ms, fuel),
        ),
{
    let rest = body.skip(k);
    assert(rest[0] == body[k]);
    assert(rest.drop_first() =~= body.skip(k + 1));
}

pub proof fn lemma_unwrap_step(toks: Seq<Token>, ms: Seq<MacroModel>, k: int)
    requires
        0 <= k < toks.len(),
    ensures
        unwrap_all(toks.skip(k), ms) == then_pre(unwrap_token(toks[k], ms), unwrap_all(toks.skip(k + 1), ms)),
{
    let rest = toks.skip(k);
    assert(rest[0] == toks[k]);
    assert(rest.drop_first() =~= toks.skip(k + 1));
}

pub proof fn lemma_prepend_pre(pre: Seq<Token>, a: Seq<Token>, r: Result<Seq<Token>, PreprocessError>)
    ensures
        prepend_pre(pre, prepend_pre(a, r)) == prepend_pre(pre + a, r),
        prepend_pre(Seq::<Token>::empty(), r) == r,
{
    match r {
        Ok(ts) => {
            assert(pre + (a + ts) =~= (pre + a) + ts);
            assert(Seq::<Token>::empty() + ts =~= ts);
        },
        Err(_) => {},
    }
}

/// The tokens of a macro body with every name in it expanded, at most `fuel`
/// levels deep.
fn unwrap_macro(uno_macro: Macro, macros: &Vec<Macro>, fuel: usize) -> (res: Result<Vec<Token>, PreprocessError>)
    ensures
        tokens_outcome(expand_seq(uno_macro@.body, macros_view(macros@), fuel as nat), res),
    decreases fuel,
{
    let ghost ms = macros_view(macros@);
    let ghost body = uno_macro@.body;
    let ghost goal = expand_seq(body, ms, fuel as nat);
    let mut unwrap_token: Vec<Token> = Vec::new();
    let mut k: usize = 0;
    proof {
        lemma_prepend_pre(Seq::<Token>::empty(), Seq::<Token>::empty(), goal);
        assert(body.skip(0) =~= body);
    }
    while k < uno_macro.tokens.len()
        invariant
            ms == macros_view(macros@),
            body == uno_macro.tokens@,
            k <= body.len(),
            goal == expand_seq(body, ms, fuel as nat),
            goal == prepend_pre(unwrap_token@, expand_seq(body.skip(k as int), ms, fuel as nat)),
        decreases body.len() - k,
    {
        proof {
            lemma_expand_step(body, ms, fuel as nat, k as int);
        }
        let token = &uno_macro.tokens[k];
        let ghost before = unwrap_token@;
        if token.token_type != TokenType::Ident {
            unwrap_token.push(token.clone());
            proof {
                assert(expand_token(body[k as int], ms, fuel as nat) == Ok::<Seq<Token>, PreprocessError>(
                    seq![body[k as int]],
                ));
                lemma_prepend_pre(before, seq![body[k as int]], expand_seq(body.skip(k + 1), ms, fuel as nat));
                assert(unwrap_token@ == before + seq![body[k as int]]);
            }
        } else {
            match is_macro(token.value.clone(), macros) {
                None => {
                    return Err(PreprocessError::UndefinedInMacro(token.value.clone()));
                },
                Some(nmacro) => {
                    if fuel == 0 {
                        return Err(PreprocessError::MacroCycle);
                    }
                    proof {
                        lemma_find_macro_from(ms, token.value@, 0);
                        let j = find_macro(ms, token.value@)->Some_0;
                        assert(ms[j] == macros@[j]@);
                    }
                    match unwrap_macro(nmacro, macros, fuel - 1) {
                        Ok(mut tokens) => {
                            let ghost expanded = tokens@;
                            unwrap_token.append(&mut tokens);
                            proof {
                                assert(expand_token(body[k as int], ms, fuel as nat) == Ok::<Seq<Token>, PreprocessError>(
                                    expanded,
                                ));
                                lemma_prepend_pre(before, expanded, expand_seq(body.skip(k + 1), ms, fuel as nat));
                            }
                        },
                        Err(e) => {
                            return Err(e);
                        },
                    }
                },
            }
        }
        k += 1;
    }
    proof {
        assert(body.skip(k as int) =~= Seq::<Token>::empty());
        assert(unwrap_token@ + Seq::<Token>::empty() =~= unwrap_token@);
    }
    Ok(unwrap_token)
}

/// The program with every name replaced by the full expansion of its macro.
fn unwrap_macros(tokens: Vec<Token>, macros: Vec<Macro>) -> (res: Result<Vec<Token>, PreprocessError>)
    ensures
        tokens_outcome(unwrap_all(tokens@, macros_view(macros@)), res),
{
    let ghost ms = macros_view(macros@);
    let ghost toks = tokens@;
    let ghost goal = unwrap_all(toks, ms);
    let fuel: usize = if macros.len() == 0 {
        0
    } else {
        macros.len() - 1
    };
    let mut next_tokens: Vec<Token> = Vec::new();
    let mut i: usize = 0;
    let len: usize = tokens.len();
    proof {
        lemma_prepend_pre(Seq::<Token>::empty(), Seq::<Token>::empty(), goal);
        assert(toks.skip(0) =~= toks);
    }
    while i < len
        invariant
            ms == macros_view(macros@),
            toks == tokens@,
            len == toks.len(),
            fuel == expansion_fuel(ms),
            i <= len,
            goal == unwrap_all(toks, ms),
            goal == prepend_pre(next_tokens@, unwrap_all(toks.skip(i as int), ms)),
        decreases len - i,
    {
        proof {
            lemma_unwrap_step(toks, ms, i as int);
        }
        let token = &tokens[i];
        let ghost before = next_tokens@;
        if token.token_type != TokenType::Ident {
            next_tokens.push(token.clone());
            proof {
                assert(unwrap_token(toks[i as int], ms) == Ok::<Seq<Token>, PreprocessError>(seq![toks[i as int]]));
                lemma_prepend_pre(before, seq![toks[i as int]], unwrap_all(toks.skip(i + 1), ms));
                assert(next_tokens@ == before + seq![toks[i as int]]);
            }
        } else {
            match is_macro(token.value.clone(), &macros) {
                None => {
                    return Err(PreprocessError::Undefined(token.value.clone()));
                },
                Some(macrom) => {
                    proof {
                        lemma_find_macro_from(ms, token.value@, 0);
                        let j = find_macro(ms, token.value@)->Some_0;
                        assert(ms[j] == macros@[j]@);
                    }
                    match unwrap_macro(macrom, &macros, fuel) {
                        Ok(mut macro_tokens) => {
                            let ghost expanded = macro_tokens@;
                            next_tokens.append(&mut macro_tokens);
                            proof {
                                assert(unwrap_token(toks[i as int], ms) == Ok::<Seq<Token>, PreprocessError>(expanded));
                                lemma_prepend_pre(before, expanded, unwrap_all(toks.skip(i + 1), ms));
                            }
                        },
                        Err(e) => {
                            return Err(e);
                        },
                    }
                },
            }
        }
        i += 1;
    }
    proof {
        assert(toks.skip(i as int) =~= Seq::<Token>::empty());
        assert(next_tokens@ + Seq::<Token>::empty() =~= next_tokens@);
    }
    Ok(next_tokens)
}

/// The outcome of the macro pass and the macro expansion of a token stream,
/// with the tapes declared before it.
pub open spec fn preprocess_spec(toks: Seq<Token>, tapes: Seq<Tape>) -> Result<Seq<Token>, PreprocessError> {
    match macros_from(toks, 0, PreState { out: seq![], macros: seq![], tapes }) {
        Ok(st) => unwrap_all(st.out, st.macros),
        Err(e) => Err(e),
    }
}

/// The tapes declared once a token stream has been preprocessed.
pub open spec fn preprocess_tapes(toks: Seq<Token>, tapes: Seq<Tape>) -> Seq<Tape> {
    match macros_from(toks, 0, PreState { out: seq![], macros: seq![], tapes }) {
        Ok(st) => st.tapes,
        Err(_) => tapes,
    }
}

/// Preprocesses a token stream whose includes are expanded: carries out its
/// `#define`, `#ifdef`, `#ifndef`, `#else`, `#endif` and `#tape` directives,
/// adding the declared tapes to `tapes`, and replaces every name by the full
/// expansion of its macro. When a directive is malformed, `tapes` is left as
/// it was.
pub fn preprocess_tokens(tokens: Vec<Token>, tapes: &mut Vec<Tape>) -> (res: Result<Vec<Token>, PreprocessError>)
    ensures
        tokens_outcome(preprocess_spec(tokens@, old(tapes)@), res),
        final(tapes)@ == preprocess_tapes(tokens@, old(tapes)@),
{
    let ghost toks = tokens@;
    let ghost tapes0 = tapes@;
    assert(state_of(seq![], seq![], tapes0) =~= PreState { out: seq![], macros: seq![], tapes: tapes0 });
    let saved = copy_tapes(tapes);
    match preprocess_macros(tokens, tapes) {
        Ok((new_tokens, macros)) => unwrap_macros(new_tokens, macros),
        Err(e) => {
            *tapes = saved;
            Err(e)
        },
    }
}

/// A copy of the tapes.
fn copy_tapes(tapes: &Vec<Tape>) -> (copy: Vec<Tape>)
    ensures
        copy@ == tapes@,
{
    let mut copy: Vec<Tape> = Vec::new();
    let mut k: usize = 0;
    while k < tapes.len()
        invariant
            k <= tapes.len(),
            copy@ == tapes@.take(k as int),
        decreases tapes.len() - k,
    {
        copy.push(tapes[k].clone());
        k += 1;
        assert(copy@ =~= tapes@.take(k as int));
    }
    assert(tapes@.take(k as int) =~= tapes@);
    copy
}


/// No token is a name.
pub open spec fn no_names(toks: Seq<Token>) -> bool {
    forall|k: int| 0 <= k < toks.len() ==> (#[trigger] toks[k]).token_type != TokenType::Ident
}

/// No token is a directive or a name: a program with nothing to preprocess.
pub open spec fn plain(toks: Seq<Token>) -> bool {
    no_names(toks) && forall|k: int| 0 <= k < toks.len() ==> !is_directive((#[trigger] toks[k]).token_type)
}

proof fn lemma_no_names_concat(a: Seq<Token>, b: Seq<Token>)
    requires
        no_names(a),
        no_names(b),
    ensures
        no_names(a + b),
{
    assert forall|k: int| 0 <= k < (a + b).len() implies (#[trigger] (a + b)[k]).token_type != TokenType::Ident by {
        if k < a.len() {
            assert((a + b)[k] == a[k]);
        } else {
            assert((a + b)[k] == b[k - a.len()]);
        }
    }
}

proof fn lemma_expand_no_names(body: Seq<Token>, ms: Seq<MacroModel>, fuel: nat)
    ensures
        expand_seq(body, ms, fuel) matches Ok(r) ==> no_names(r),
    decreases fuel, body.len(), 1nat,
{
    if body.len() > 0 {
        lemma_expand_token_no_names(body[0], ms, fuel);
        lemma_expand_no_names(body.drop_first(), ms, fuel);
        if let Ok(a) = expand_token(body[0], ms, fuel) {
            if let Ok(b) = expand_seq(body.drop_first(), ms, fuel) {
                lemma_no_names_concat(a, b);
            }
        }
    }
}

proof fn lemma_expand_token_no_names(t: Token, ms: Seq<MacroModel>, fuel: nat)
    ensures
        expand_token(t, ms, fuel) matches Ok(r) ==> no_names(r),
    decreases fuel, 0nat, 0nat,
{
    if t.token_type == TokenType::Ident {
        if let Some(k) = find_macro(ms, t.value@) {
            if fuel > 0 {
                lemma_expand_no_names(ms[k].body, ms, (fuel - 1) as nat);
            }
        }
    }
}

proof fn lemma_unwrap_all_no_names(toks: Seq<Token>, ms: Seq<MacroModel>)
    ensures
        unwrap_all(toks, ms) matches Ok(r) ==> no_names(r),
    decreases toks.len(),
{
    if toks.len() > 0 {
        lemma_unwrap_all_no_names(toks.drop_first(), ms);
        let t = toks[0];
        if t.token_type == TokenType::Ident {
            if let Some(k) = find_macro(ms, t.value@) {
                lemma_expand_no_names(ms[k].body, ms, expansion_fuel(ms));
            }
        }
        if let Ok(a) = unwrap_token(t, ms) {
            if let Ok(b) = unwrap_all(toks.drop_first(), ms) {
                lemma_no_names_concat(a, b);
            }
        }
    }
}

/// Preprocessing leaves no name behind: every name of a program that
/// preprocesses without error has been replaced by what its macro stands for,
/// through every level of nesting.
pub proof fn law_no_names_left(toks: Seq<Token>, tapes: Seq<Tape>)
    ensures
        preprocess_spec(toks, tapes) matches Ok(out) ==> no_names(out),
{
    if let Ok(st) = macros_from(toks, 0, PreState { out: seq![], macros: seq![], tapes }) {
        lemma_unwrap_all_no_names(st.out, st.macros);
    }
}

proof fn lemma_plain_macros_from(toks: Seq<Token>, i: int, st: PreState)
    requires
        0 <= i <= toks.len(),
        plain(toks),
    ensures
        macros_from(toks, i, st) == Ok::<PreState, PreprocessError>(PreState { out: st.out + toks.skip(i), ..st }),
    decreases toks.len() - i,
{
    if i == toks.len() {
        assert(st.out + toks.skip(i) =~= st.out);
        assert(PreState { out: st.out + toks.skip(i), ..st } =~= st);
    } else {
        assert(!is_directive(toks[i].token_type));
        let st2 = PreState { out: st.out.push(toks[i]), ..st };
        lemma_plain_macros_from(toks, i + 1, st2);
        assert(st2.out + toks.skip(i + 1) =~= st.out + toks.skip(i));
    }
}

proof fn lemma_plain_unwrap_all(toks: Seq<Token>, ms: Seq<MacroModel>)
    requires
        no_names(toks),
    ensures
        unwrap_all(toks, ms) == Ok::<Seq<Token>, PreprocessError>(toks),
    decreases toks.len(),
{
    if toks.len() > 0 {
        let rest = toks.drop_first();
        assert(toks[0].token_type != TokenType::Ident);
        assert forall|k: int| 0 <= k < rest.len() implies (#[trigger] rest[k]).token_type != TokenType::Ident by {
            assert(rest[k] == toks[k + 1]);
        }
        lemma_plain_unwrap_all(rest, ms);
        assert(unwrap_token(toks[0], ms) == Ok::<Seq<Token>, PreprocessError>(seq![toks[0]]));
        assert(seq![toks[0]] + rest =~= toks);
    } else {
        assert(toks =~= Seq::<Token>::empty());
    }
}

/// A program without directives and names passes preprocessing unchanged,
/// and the declared tapes stay as they were.
pub proof fn law_plain_program_unchanged(toks: Seq<Token>, tapes: Seq<Tape>)
    requires
        plain(toks),
    ensures
        preprocess_spec(toks, tapes) == Ok::<Seq<Token>, PreprocessError>(toks),
        preprocess_tapes(toks, tapes) == tapes,
{
    let st0 = PreState { out: seq![], macros: seq![], tapes };
    lemma_plain_macros_from(toks, 0, st0);
    assert(Seq::<Token>::empty() + toks.skip(0) =~= toks);
    lemma_plain_unwrap_all(toks, seq![]);
}


/// No token is a directive.
pub open spec fn no_directives(toks: Seq<Token>) -> bool {
    forall|k: int| 0 <= k < toks.len() ==> !is_directive((#[trigger] toks[k]).token_type)
}

/// Every macro body is free of directives.
pub open spec fn bodies_clean(ms: Seq<MacroModel>) -> bool {
    forall|k: int| 0 <= k < ms.len() ==> no_directives((#[trigger] ms[k]).body)
}

/// What the macro pass keeps as it goes: the kept tokens and the macro bodies
/// hold no directive.
pub open spec fn pass_clean(st: PreState) -> bool {
    no_directives(st.out) && bodies_clean(st.macros)
}

/// The tapes of `st2` are those of `st` with possibly more after them.
pub open spec fn tapes_extend(st: PreState, st2: PreState) -> bool {
    st.tapes.len() <= st2.tapes.len() && st2.tapes.take(st.tapes.len() as int) == st.tapes
}

/// What every step of the macro pass keeps.
pub open spec fn step_keeps(st: PreState, st2: PreState) -> bool {
    (pass_clean(st) ==> pass_clean(st2)) && tapes_extend(st, st2)
}

proof fn lemma_step_keeps_trans(a: PreState, b: PreState, c: PreState)
    requires
        step_keeps(a, b),
        step_keeps(b, c),
    ensures
        step_keeps(a, c),
{
    assert(c.tapes.take(a.tapes.len() as int) =~= c.tapes.take(b.tapes.len() as int).take(a.tapes.len() as int));
}

proof fn lemma_step_keeps_refl(a: PreState)
    ensures
        step_keeps(a, a),
{
    assert(a.tapes.take(a.tapes.len() as int) =~= a.tapes);
}

proof fn lemma_keep_token(st: PreState, t: Token)
    requires
        !is_directive(t.token_type),
    ensures
        step_keeps(st, PreState { out: st.out.push(t), ..st }),
{
    let st2 = PreState { out: st.out.push(t), ..st };
    lemma_step_keeps_refl(st);
    if pass_clean(st) {
        assert forall|k: int| 0 <= k < st2.out.len() implies !is_directive((#[trigger] st2.out[k]).token_type) by {
            if k < st.out.len() {
                assert(st2.out[k] == st.out[k]);
            }
        }
    }
}

proof fn lemma_decl_end_clean(toks: Seq<Token>, j: int)
    requires
        0 <= j,
    ensures
        decl_end(toks, j) matches Ok(e) ==> j <= e < toks.len() && no_directives(toks.subrange(j, e)),
    decreases toks.len() - j,
{
    if 0 <= j < toks.len() && toks[j].token_type != TokenType::NewLine && !is_directive(toks[j].token_type) {
        lemma_decl_end_clean(toks, j + 1);
        lemma_decl_end(toks, j + 1);
        if let Ok(e) = decl_end(toks, j + 1) {
            let sub = toks.subrange(j, e);
            let tail = toks.subrange(j + 1, e);
            assert forall|k: int| 0 <= k < sub.len() implies !is_directive((#[trigger] sub[k]).token_type) by {
                if k > 0 {
                    assert(sub[k] == tail[k - 1]);
                } else {
                    assert(sub[0] == toks[j]);
                }
            }
        }
    } else if 0 <= j < toks.len() && toks[j].token_type == TokenType::NewLine {
        assert(toks.subrange(j, j).len() == 0);
    }
}

proof fn lemma_decl_keeps(toks: Seq<Token>, i: int, st: PreState)
    requires
        0 <= i,
    ensures
        do_decl(toks, i, st) matches Ok((j, st2)) ==> step_keeps(st, st2),
{
    lemma_step_keeps_refl(st);
    if i + 1 < toks.len() {
        lemma_decl_end_clean(toks, i + 2);
        if let Ok((j, st2)) = do_decl(toks, i, st) {
            let m = MacroModel { name: toks[i + 1].value@, body: toks.subrange(i + 2, j) };
            assert(st2.macros == st.macros.push(m));
            if pass_clean(st) {
                assert forall|k: int| 0 <= k < st2.macros.len() implies no_directives((#[trigger] st2.macros[k]).body) by {
                    if k < st.macros.len() {
                        assert(st2.macros[k] == st.macros[k]);
                    }
                }
            }
        }
    }
}

proof fn lemma_tape_keeps(toks: Seq<Token>, i: int, st: PreState)
    ensures
        do_tape(toks, i, st) matches Ok((j, st2)) ==> step_keeps(st, st2),
{
    if let Ok((j, st2)) = do_tape(toks, i, st) {
        assert(st2.tapes.take(st.tapes.len() as int) =~= st.tapes);
    }
}

proof fn lemma_dispatch_keeps(toks: Seq<Token>, i: int, st: PreState)
    ensures
        dispatch(toks, i, st) matches Ok((j, st2)) ==> step_keeps(st, st2),
    decreases toks.len() - i, 2nat,
{
    if 0 <= i < toks.len() {
        match toks[i].token_type {
            TokenType::MacroDecl => lemma_decl_keeps(toks, i, st),
            TokenType::IfdefMacro => lemma_cond_keeps(toks, i, st, false),
            TokenType::IfNdefMacro => lemma_cond_keeps(toks, i, st, true),
            TokenType::TapeDecl => lemma_tape_keeps(toks, i, st),
            _ => {},
        }
    }
}

proof fn lemma_cond_keeps(toks: Seq<Token>, i: int, st: PreState, negate: bool)
    ensures
        do_cond(toks, i, st, negate) matches Ok((j, st2)) ==> step_keeps(st, st2),
    decreases toks.len() - i, 1nat,
{
    if 0 <= i && i + 1 < toks.len() && toks[i + 1].token_type == TokenType::Ident {
        if defined(st.macros, toks[i + 1].value@) != negate {
            lemma_active_keeps(toks, i + 2, st, true);
        } else {
            lemma_step_keeps_refl(st);
            lemma_skip_to(toks, i + 2, true);
            if let Ok(k) = skip_to(toks, i + 2, true) {
                if toks[k].token_type == TokenType::ElseMacro {
                    lemma_active_keeps(toks, k + 1, st, false);
                }
            }
        }
    }
}

proof fn lemma_active_keeps(toks: Seq<Token>, j: int, st: PreState, stop_else: bool)
    ensures
        active(toks, j, st, stop_else) matches Ok((k, st2)) ==> step_keeps(st, st2),
    decreases toks.len() - j, 3nat,
{
    if 0 <= j < toks.len() {
        if toks[j].token_type == TokenType::EndifMacro || (stop_else && toks[j].token_type
            == TokenType::ElseMacro) {
            lemma_step_keeps_refl(st);
        } else if is_directive(toks[j].token_type) {
            lemma_dispatch_keeps(toks, j, st);
            if let Ok((j2, st2)) = dispatch(toks, j, st) {
                if j < j2 <= toks.len() {
                    lemma_active_keeps(toks, j2, st2, stop_else);
                    if let Ok((k, st3)) = active(toks, j2, st2, stop_else) {
                        lemma_step_keeps_trans(st, st2, st3);
                    }
                }
            }
        } else {
            let st2 = PreState { out: st.out.push(toks[j]), ..st };
            lemma_keep_token(st, toks[j]);
            lemma_active_keeps(toks, j + 1, st2, stop_else);
            if let Ok((k, st3)) = active(toks, j + 1, st2, stop_else) {
                lemma_step_keeps_trans(st, st2, st3);
            }
        }
    }
}

proof fn lemma_macros_from_keeps(toks: Seq<Token>, i: int, st: PreState)
    ensures
        macros_from(toks, i, st) matches Ok(st2) ==> step_keeps(st, st2),
    decreases toks.len() + 1 - i,
{
    if i < 0 || i >= toks.len() {
        lemma_step_keeps_refl(st);
    } else if is_directive(toks[i].token_type) {
        lemma_dispatch_keeps(toks, i, st);
        if let Ok((j, st2)) = dispatch(toks, i, st) {
            if i < j <= toks.len() {
                lemma_macros_from_keeps(toks, j + 1, st2);
                if let Ok(st3) = macros_from(toks, j + 1, st2) {
                    lemma_step_keeps_trans(st, st2, st3);
                }
            }
        }
    } else {
        let st2 = PreState { out: st.out.push(toks[i]), ..st };
        lemma_keep_token(st, toks[i]);
        lemma_macros_from_keeps(toks, i + 1, st2);
        if let Ok(st3) = macros_from(toks, i + 1, st2) {
            lemma_step_keeps_trans(st, st2, st3);
        }
    }
}

proof fn lemma_no_directives_concat(a: Seq<Token>, b: Seq<Token>)
    requires
        no_directives(a),
        no_directives(b),
    ensures
        no_directives(a + b),
{
    assert forall|k: int| 0 <= k < (a + b).len() implies !is_directive((#[trigger] (a + b)[k]).token_type) by {
        if k < a.len() {
            assert((a + b)[k] == a[k]);
        } else {
            assert((a + b)[k] == b[k - a.len()]);
        }
    }
}

proof fn lemma_expand_no_directives(body: Seq<Token>, ms: Seq<MacroModel>, fuel: nat)
    requires
        no_directives(body),
        bodies_clean(ms),
    ensures
        expand_seq(body, ms, fuel) matches Ok(r) ==> no_directives(r),
    decreases fuel, body.len(), 1nat,
{
    if body.len() > 0 {
        let rest = body.drop_first();
        assert forall|k: int| 0 <= k < rest.len() implies !is_directive((#[trigger] rest[k]).token_type) by {
            assert(rest[k] == body[k + 1]);
        }
        assert(!is_directive(body[0].token_type));
        lemma_expand_token_no_directives(body[0], ms, fuel);
        lemma_expand_no_directives(rest, ms, fuel);
        if let Ok(a) = expand_token(body[0], ms, fuel) {
            if let Ok(b) = expand_seq(rest, ms, fuel) {
                lemma_no_directives_concat(a, b);
            }
        }
    }
}

proof fn lemma_expand_token_no_directives(t: Token, ms: Seq<MacroModel>, fuel: nat)
    requires
        !is_directive(t.token_type),
        bodies_clean(ms),
    ensures
        expand_token(t, ms, fuel) matches Ok(r) ==> no_directives(r),
    decreases fuel, 0nat, 0nat,
{
    if t.token_type == TokenType::Ident {
        if let Some(k) = find_macro(ms, t.value@) {
            lemma_find_macro_from(ms, t.value@, 0);
            if fuel > 0 {
                assert(no_directives(ms[k].body));
                lemma_expand_no_directives(ms[k].body, ms, (fuel - 1) as nat);
            }
        }
    } else {
        assert(seq![t][0] == t);
    }
}

proof fn lemma_unwrap_all_no_directives(toks: Seq<Token>, ms: Seq<MacroModel>)
    requires
        no_directives(toks),
        bodies_clean(ms),
    ensures
        unwrap_all(toks, ms) matches Ok(r) ==> no_directives(r),
    decreases toks.len(),
{
    if toks.len() > 0 {
        let rest = toks.drop_first();
        assert forall|k: int| 0 <= k < rest.len() implies !is_directive((#[trigger] rest[k]).token_type) by {
            assert(rest[k] == toks[k + 1]);
        }
        assert(!is_directive(toks[0].token_type));
        lemma_unwrap_all_no_directives(rest, ms);
        let t = toks[0];
        if t.token_type == TokenType::Ident {
            if let Some(k) = find_macro(ms, t.value@) {
                lemma_find_macro_from(ms, t.value@, 0);
                lemma_expand_no_directives(ms[k].body, ms, expansion_fuel(ms));
            }
        } else {
            assert(seq![t][0] == t);
        }
        if let Ok(a) = unwrap_token(t, ms) {
            if let Ok(b) = unwrap_all(rest, ms) {
                lemma_no_directives_concat(a, b);
            }
        }
    }
}

/// Preprocessing carries out every directive: no `#define`, `#ifdef`,
/// `#ifndef`, `#else`, `#endif` or `#tape` is left in what it gives, neither
/// from the program nor from the body of a macro.
pub proof fn law_no_directives_left(toks: Seq<Token>, tapes: Seq<Tape>)
    ensures
        preprocess_spec(toks, tapes) matches Ok(out) ==> no_directives(out),
{
    let st0 = PreState { out: seq![], macros: seq![], tapes };
    lemma_macros_from_keeps(toks, 0, st0);
    if let Ok(st) = macros_from(toks, 0, st0) {
        lemma_unwrap_all_no_directives(st.out, st.macros);
    }
}

/// Preprocessing only adds tapes: the tapes declared before it come first,
/// unchanged, in what it leaves.
pub proof fn law_tapes_only_grow(toks: Seq<Token>, tapes: Seq<Tape>)
    ensures
        tapes.len() <= preprocess_tapes(toks, tapes).len(),
        preprocess_tapes(toks, tapes).take(tapes.len() as int) == tapes,
{
    let st0 = PreState { out: seq![], macros: seq![], tapes };
    lemma_macros_from_keeps(toks, 0, st0);
    if macros_from(toks, 0, st0) is Err {
        assert(tapes.take(tapes.len() as int) =~= tapes);
    }
}


proof fn lemma_decimal_digits(n: nat)
    ensures
        decimal(n).len() > 0,
        all_digits(decimal(n)),
        digits_value(decimal(n)) == n,
    decreases n,
{
    let d = n % 10;
    assert('0' <= digit_char(d) <= '9');
    assert(digit_char(d) as nat - '0' as nat == d);
    if n >= 10 {
        lemma_decimal_digits(n / 10);
        let w = decimal(n);
        let front = decimal(n / 10);
        assert(w == front.push(digit_char(d)));
        assert(w.drop_last() =~= front);
        assert(w.last() == digit_char(d));
        assert(digits_value(w) == digits_value(front) * 10 + (digit_char(d) as nat - '0' as nat) as nat);
        assert((n / 10) * 10 + n % 10 == n) by (nonlinear_arith);
        assert(digits_value(front) == n / 10);
        assert(digits_value(w) == (n / 10) * 10 + d);
        assert forall|k: int| 0 <= k < w.len() implies '0' <= #[trigger] w[k] <= '9' by {
            if k < front.len() {
                assert(w[k] == front[k]);
            }
        }
    } else {
        assert(decimal(n) == seq![digit_char(n)]);
        assert(decimal(n).drop_last() =~= Seq::<char>::empty());
        assert(decimal(n).last() == digit_char(n));
        assert(n % 10 == n);
        assert(digits_value(Seq::<char>::empty()) == 0);
        assert(digits_value(decimal(n)) == n);
    }
}

/// A cell count read back from the decimal notation in which a program's
/// tape reservation writes it is the count itself: `#tape` declarations and
/// the reservations agree on every count that fits in a machine word.
pub proof fn law_cell_count_round_trip(n: usize)
    ensures
        parse_usize(decimal(n as nat)) == Some(n),
{
    lemma_decimal_digits(n as nat);
    let w = decimal(n as nat);
    assert('0' <= w[0] <= '9');
}


proof fn lemma_command_token_kinds(s: Seq<char>)
    ensures
        forall|k: int|
            0 <= k < command_tokens(s).len() ==> {
                let t = (#[trigger] command_tokens(s)[k]).token_type;
                &&& !is_directive(t)
                &&& t != TokenType::Ident
            },
    decreases s.len(),
{
    if s.len() > 0 {
        lemma_command_token_kinds(s.drop_first());
        let head = match single_char_kind(s[0]) {
            Some(t) => seq![TokenModel { token_type: t, value: seq![s[0]] }],
            None => Seq::<TokenModel>::empty(),
        };
        let rest = command_tokens(s.drop_first());
        assert(command_tokens(s) == head + rest);
        assert forall|k: int| 0 <= k < command_tokens(s).len() implies {
            let t = (#[trigger] command_tokens(s)[k]).token_type;
            &&& !is_directive(t)
            &&& t != TokenType::Ident
        } by {
            if k < head.len() {
                assert(command_tokens(s)[k] == head[k]);
            } else {
                assert(command_tokens(s)[k] == rest[k - head.len()]);
            }
        }
    }
}

/// A text of command characters needs no preprocessing: the tokens it lexes
/// to pass through preprocessing unchanged, with the tapes as they were.
pub proof fn law_commands_need_no_preprocessing(s: Seq<char>, toks: Seq<Token>, tapes: Seq<Tape>)
    requires
        commands_only(s),
        tokens_view(toks) == command_tokens(s),
    ensures
        plain(toks),
        preprocess_spec(toks, tapes) == Ok::<Seq<Token>, PreprocessError>(toks),
        preprocess_tapes(toks, tapes) == tapes,
{
    lemma_command_token_kinds(s);
    assert forall|k: int| 0 <= k < toks.len() implies {
        &&& (#[trigger] toks[k]).token_type != TokenType::Ident
        &&& !is_directive(toks[k].token_type)
    } by {
        assert(tokens_view(toks)[k] == toks[k]@);
        assert(command_tokens(s)[k].token_type == toks[k].token_type);
    }
    law_plain_program_unchanged(toks, tapes);
}


/// The macros are ranked by `rank`: each rank is below the number of macros,
/// and every name in the body of a macro names a macro of lower rank.
pub open spec fn ranked(ms: Seq<MacroModel>, rank: spec_fn(int) -> nat) -> bool {
    &&& forall|k: int| 0 <= k < ms.len() ==> #[trigger] rank(k) < ms.len()
    &&& forall|j: int, p: int|
        0 <= j < ms.len() && 0 <= p < ms[j].body.len() && (#[trigger] ms[j].body[p]).token_type
            == TokenType::Ident ==> (find_macro(ms, ms[j].body[p].value@) matches Some(k) ==> rank(k) < rank(j))
}

/// Every name in `body` names a macro of rank below `bound`.
pub open spec fn names_below(body: Seq<Token>, ms: Seq<MacroModel>, rank: spec_fn(int) -> nat, bound: int) -> bool {
    forall|p: int|
        0 <= p < body.len() && (#[trigger] body[p]).token_type == TokenType::Ident ==> (find_macro(
            ms,
            body[p].value@,
        ) matches Some(k) ==> rank(k) < bound)
}

proof fn lemma_expand_no_cycle(body: Seq<Token>, ms: Seq<MacroModel>, rank: spec_fn(int) -> nat, fuel: nat, bound: int)
    requires
        ranked(ms, rank),
        names_below(body, ms, rank, bound),
        bound <= fuel,
    ensures
        expand_seq(body, ms, fuel) != Err::<Seq<Token>, PreprocessError>(PreprocessError::MacroCycle),
    decreases fuel, body.len(), 1nat,
{
    if body.len() > 0 {
        let rest = body.drop_first();
        assert forall|p: int| 0 <= p < rest.len() && (#[trigger] rest[p]).token_type == TokenType::Ident implies (
        find_macro(ms, rest[p].value@) matches Some(k) ==> rank(k) < bound) by {
            assert(rest[p] == body[p + 1]);
        }
        lemma_expand_token_no_cycle(body[0], ms, rank, fuel, bound);
        lemma_expand_no_cycle(rest, ms, rank, fuel, bound);
    }
}

proof fn lemma_expand_token_no_cycle(t: Token, ms: Seq<MacroModel>, rank: spec_fn(int) -> nat, fuel: nat, bound: int)
    requires
        ranked(ms, rank),
        t.token_type == TokenType::Ident ==> (find_macro(ms, t.value@) matches Some(k) ==> rank(k) < bound),
        bound <= fuel,
    ensures
        expand_token(t, ms, fuel) != Err::<Seq<Token>, PreprocessError>(PreprocessError::MacroCycle),
    decreases fuel, 0nat, 0nat,
{
    if t.token_type == TokenType::Ident {
        if let Some(k) = find_macro(ms, t.value@) {
            lemma_find_macro_from(ms, t.value@, 0);
            assert(fuel > 0);
            assert forall|p: int|
                0 <= p < ms[k].body.len() && (#[trigger] ms[k].body[p]).token_type == TokenType::Ident implies (
            find_macro(ms, ms[k].body[p].value@) matches Some(k2) ==> rank(k2) < rank(k)) by {}
            lemma_expand_no_cycle(ms[k].body, ms, rank, (fuel - 1) as nat, rank(k) as int);
        }
    }
}

/// Macro expansion never stops for want of depth when the macros can be
/// ranked so that each names only macros of lower rank (by the order of
/// definition, for instance, when each names only macros defined before it).
pub proof fn law_expansion_depth_suffices(toks: Seq<Token>, ms: Seq<MacroModel>, rank: spec_fn(int) -> nat)
    requires
        ranked(ms, rank),
    ensures
        unwrap_all(toks, ms) != Err::<Seq<Token>, PreprocessError>(PreprocessError::MacroCycle),
    decreases toks.len(),
{
    if toks.len() > 0 {
        law_expansion_depth_suffices(toks.drop_first(), ms, rank);
        let t = toks[0];
        if t.token_type == TokenType::Ident {
            if let Some(k) = find_macro(ms, t.value@) {
                lemma_find_macro_from(ms, t.value@, 0);
                assert(rank(k) < ms.len());
                assert forall|p: int|
                    0 <= p < ms[k].body.len() && (#[trigger] ms[k].body[p]).token_type == TokenType::Ident implies (
                find_macro(ms, ms[k].body[p].value@) matches Some(k2) ==> rank(k2) < rank(k)) by {}
                lemma_expand_no_cycle(ms[k].body, ms, rank, expansion_fuel(ms), rank(k) as int);
            }
        }
    }
}


/// Some name in `body` is found as macro `k`.
pub open spec fn named_in(body: Seq<Token>, ms: Seq<MacroModel>, k: int) -> bool {
    exists|p: int|
        0 <= p < body.len() && (#[trigger] body[p]).token_type == TokenType::Ident && find_macro(ms, body[p].value@)
            == Some(k)
}

/// A chain of macros, each naming the next.
pub open spec fn name_chain(ms: Seq<MacroModel>, c: Seq<int>) -> bool {
    &&& forall|i: int| 0 <= i < c.len() ==> 0 <= #[trigger] c[i] < ms.len()
    &&& forall|i: int| 0 <= i < c.len() - 1 ==> named_in(ms[#[trigger] c[i]].body, ms, c[i + 1])
}

/// Some macro reaches itself through a chain of names.
pub open spec fn has_circle(ms: Seq<MacroModel>) -> bool {
    exists|c: Seq<int>| #[trigger] name_chain(ms, c) && c.len() >= 2 && c[0] == c.last()
}

proof fn lemma_chain_cons(ms: Seq<MacroModel>, k: int, c: Seq<int>)
    requires
        0 <= k < ms.len(),
        name_chain(ms, c),
        c.len() > 0,
        named_in(ms[k].body, ms, c[0]),
    ensures
        name_chain(ms, seq![k] + c),
{
    let c2 = seq![k] + c;
    assert forall|i: int| 0 <= i < c2.len() implies 0 <= #[trigger] c2[i] < ms.len() by {
        if i > 0 {
            assert(c2[i] == c[i - 1]);
        }
    }
    assert forall|i: int| 0 <= i < c2.len() - 1 implies named_in(ms[#[trigger] c2[i]].body, ms, c2[i + 1]) by {
        if i > 0 {
            assert(c2[i] == c[i - 1]);
            assert(c2[i + 1] == c[i]);
        } else {
            assert(c2[1] == c[0]);
        }
    }
}

proof fn lemma_cycle_chain_seq(body: Seq<Token>, ms: Seq<MacroModel>, fuel: nat) -> (c: Seq<int>)
    requires
        expand_seq(body, ms, fuel) == Err::<Seq<Token>, PreprocessError>(PreprocessError::MacroCycle),
    ensures
        c.len() == fuel + 1,
        name_chain(ms, c),
        named_in(body, ms, c[0]),
    decreases fuel, body.len(), 1nat,
{
    let rest = body.drop_first();
    if expand_token(body[0], ms, fuel) == Err::<Seq<Token>, PreprocessError>(PreprocessError::MacroCycle) {
        let c = lemma_cycle_chain_token(body[0], ms, fuel);
        assert(body[0] == body[0]);
        let p = 0int;
        assert(0 <= p < body.len() && body[p].token_type == TokenType::Ident && find_macro(ms, body[p].value@)
            == Some(c[0]));
        c
    } else {
        let c = lemma_cycle_chain_seq(rest, ms, fuel);
        let p = choose|p: int|
            0 <= p < rest.len() && (#[trigger] rest[p]).token_type == TokenType::Ident && find_macro(
                ms,
                rest[p].value@,
            ) == Some(c[0]);
        assert(rest[p] == body[p + 1]);
        c
    }
}

proof fn lemma_cycle_chain_token(t: Token, ms: Seq<MacroModel>, fuel: nat) -> (c: Seq<int>)
    requires
        expand_token(t, ms, fuel) == Err::<Seq<Token>, PreprocessError>(PreprocessError::MacroCycle),
    ensures
        c.len() == fuel + 1,
        name_chain(ms, c),
        t.token_type == TokenType::Ident,
        find_macro(ms, t.value@) == Some(c[0]),
    decreases fuel, 0nat, 0nat,
{
    let k = find_macro(ms, t.value@)->Some_0;
    lemma_find_macro_from(ms, t.value@, 0);
    if fuel == 0 {
        let c = seq![k];
        assert(c[0] == k);
        c
    } else {
        let rest = lemma_cycle_chain_seq(ms[k].body, ms, (fuel - 1) as nat);
        lemma_chain_cons(ms, k, rest);
        let c = seq![k] + rest;
        assert(c[0] == k);
        c
    }
}

proof fn lemma_pigeonhole(c: Seq<int>, n: int)
    requires
        c.len() > n >= 0,
        forall|i: int| 0 <= i < c.len() ==> 0 <= #[trigger] c[i] < n,
    ensures
        exists|i: int, j: int| 0 <= i < j < c.len() && #[trigger] c[i] == #[trigger] c[j],
{
    vstd::set_lib::lemma_int_range(0, n);
    if c.no_duplicates() {
        c.unique_seq_to_set();
        assert(c.to_set().subset_of(vstd::set_lib::set_int_range(0, n)));
        vstd::set_lib::lemma_len_subset(c.to_set(), vstd::set_lib::set_int_range(0, n));
    }
    let (i, j) = choose|i: int, j: int| 0 <= i < c.len() && 0 <= j < c.len() && i != j && c[i] == c[j];
    if i < j {
        assert(c[i] == c[j]);
    } else {
        assert(c[j] == c[i]);
    }
}

/// `MacroCycle` is reported only for macros that name one another in a
/// circle: some macro reaches itself through a chain of names.
pub proof fn law_cycle_reported_only_for_circles(toks: Seq<Token>, ms: Seq<MacroModel>)
    requires
        unwrap_all(toks, ms) == Err::<Seq<Token>, PreprocessError>(PreprocessError::MacroCycle),
    ensures
        has_circle(ms),
    decreases toks.len(),
{
    let t = toks[0];
    if unwrap_token(t, ms) == Err::<Seq<Token>, PreprocessError>(PreprocessError::MacroCycle) {
        let k = find_macro(ms, t.value@)->Some_0;
        lemma_find_macro_from(ms, t.value@, 0);
        let n = ms.len() as int;
        let rest = lemma_cycle_chain_seq(ms[k].body, ms, expansion_fuel(ms));
        lemma_chain_cons(ms, k, rest);
        let c = seq![k] + rest;
        assert(c.len() == n + 1);
        lemma_pigeonhole(c, n);
        let (i, j) = choose|i: int, j: int| 0 <= i < j < c.len() && #[trigger] c[i] == #[trigger] c[j];
        let circle = c.subrange(i, j + 1);
        assert forall|m: int| 0 <= m < circle.len() implies 0 <= #[trigger] circle[m] < ms.len() by {
            assert(circle[m] == c[i + m]);
        }
        assert forall|m: int| 0 <= m < circle.len() - 1 implies named_in(ms[#[trigger] circle[m]].body, ms, circle[m + 1]) by {
            assert(circle[m] == c[i + m]);
            assert(circle[m + 1] == c[i + m + 1]);
        }
        assert(name_chain(ms, circle));
        assert(circle[0] == circle.last());
    } else {
        law_cycle_reported_only_for_circles(toks.drop_first(), ms);
    }
}


/// From position `j` on, the only directives are `#else` and `#endif`.
pub open spec fn only_branch_marks_from(toks: Seq<Token>, j: int) -> bool {
    forall|k: int|
        j <= k < toks.len() && is_directive((#[trigger] toks[k]).token_type) ==> toks[k].token_type
            == TokenType::ElseMacro || toks[k].token_type == TokenType::EndifMacro
}

/// Two outcomes of a step of the macro pass agree on where the pass goes on
/// and on the tokens kept, or fail alike.
pub open spec fn same_course(
    a: Result<(int, PreState), PreprocessError>,
    b: Result<(int, PreState), PreprocessError>,
) -> bool {
    match (a, b) {
        (Ok((j1, s1)), Ok((j2, s2))) => j1 == j2 && s1.out == s2.out,
        (Err(e1), Err(e2)) => e1 == e2,
        _ => false,
    }
}

proof fn lemma_active_course(toks: Seq<Token>, j: int, st1: PreState, st2: PreState, stop_else: bool)
    requires
        only_branch_marks_from(toks, j),
        st1.out == st2.out,
    ensures
        same_course(active(toks, j, st1, stop_else), active(toks, j, st2, stop_else)),
    decreases toks.len() - j,
{
    if 0 <= j < toks.len() {
        let t = toks[j].token_type;
        if t == TokenType::EndifMacro || (stop_else && t == TokenType::ElseMacro) {
        } else if is_directive(t) {
            assert(t == TokenType::ElseMacro);
            assert(dispatch(toks, j, st1) == Err::<(int, PreState), PreprocessError>(
                PreprocessError::ElseWithoutCondition,
            ));
            assert(dispatch(toks, j, st2) == Err::<(int, PreState), PreprocessError>(
                PreprocessError::ElseWithoutCondition,
            ));
        } else {
            lemma_active_course(
                toks,
                j + 1,
                PreState { out: st1.out.push(toks[j]), ..st1 },
                PreState { out: st2.out.push(toks[j]), ..st2 },
                stop_else,
            );
        }
    }
}

/// `#ifndef NAME` is `#ifdef NAME` with the definition of NAME turned
/// around: over branches that hold no directive of their own, the two go on
/// at the same place and keep the same tokens (or fail alike) when NAME is
/// defined for one exactly when it is not for the other.
pub proof fn law_ifndef_is_flipped_ifdef(toks: Seq<Token>, i: int, st1: PreState, st2: PreState)
    requires
        only_branch_marks_from(toks, i + 2),
        st1.out == st2.out,
        defined(st2.macros, toks[i + 1].value@) == !defined(st1.macros, toks[i + 1].value@),
    ensures
        same_course(do_cond(toks, i, st1, true), do_cond(toks, i, st2, false)),
{
    if 0 <= i && i + 1 < toks.len() && toks[i + 1].token_type == TokenType::Ident {
        let name = toks[i + 1].value@;
        if defined(st1.macros, name) != true {
            lemma_active_course(toks, i + 2, st1, st2, true);
        } else {
            lemma_skip_to(toks, i + 2, true);
            if let Ok(k) = skip_to(toks, i + 2, true) {
                if toks[k].token_type == TokenType::ElseMacro {
                    assert forall|m: int| k + 1 <= m < toks.len() && is_directive((#[trigger] toks[m]).token_type) implies toks[m].token_type
                        == TokenType::ElseMacro || toks[m].token_type == TokenType::EndifMacro by {}
                    lemma_active_course(toks, k + 1, st1, st2, false);
                }
            }
        }
    }
}

} // verus!
