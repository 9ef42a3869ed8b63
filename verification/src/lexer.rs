use vstd::prelude::*;

use crate::common::{Token, TokenModel, TokenType, tokens_view};

verus! {

/// Why a source text cannot be split into tokens.
#[derive(Debug, Clone, Copy, PartialEq, Eq, Structural)]
pub enum LexError {
    /// a back-quoted literal starts with `"` but does not end with one
    UnterminatedString,
    /// a back-quoted literal starts with `(` but does not end with `)`
    UnterminatedIncludePath,
    /// a back-quoted literal starts with `{` but does not end with `}`
    UnterminatedTapeName,
    /// a back-quoted literal is neither a string, a path, a tape name nor a number
    ExpectedIntLit,
    /// the text ends with the back-quote that opens a literal
    OpenBacktickAtEnd,
}

/// Where the lexer stands: in code, in a `//` comment or in a `/* */` comment.
#[derive(Debug, Clone, Copy, PartialEq, Eq, Structural)]
pub enum LexMode {
    Code,
    LineComment,
    BlockComment,
}

/// ASCII white space.
pub open spec fn is_ws(c: char) -> bool {
    c == ' ' || c == '\t' || c == '\n' || c == '\x0B' || c == '\x0C' || c == '\r'
}

fn is_ws_exec(c: char) -> (r: bool)
    ensures
        r == is_ws(c),
{
    c == ' ' || c == '\t' || c == '\n' || c == '\x0B' || c == '\x0C' || c == '\r'
}

/// The kind of the one-character tokens.
pub open spec fn single_char_kind(c: char) -> Option<TokenType> {
    if c == '<' {
        Some(TokenType::PointerLeft)
    } else if c == '>' {
        Some(TokenType::PointerRight)
    } else if c == '&' {
        Some(TokenType::PointerReset)
    } else if c == '+' {
        Some(TokenType::Add)
    } else if c == '-' {
        Some(TokenType::Sub)
    } else if c == ',' {
        Some(TokenType::ReadByte)
    } else if c == '.' {
        Some(TokenType::WriteByte)
    } else if c == '\'' {
        Some(TokenType::Clear)
    } else if c == '%' {
        Some(TokenType::BaseMemAddr)
    } else if c == '$' {
        Some(TokenType::MemAddr)
    } else if c == '[' {
        Some(TokenType::ZeroJump)
    } else if c == ']' {
        Some(TokenType::NonZeroJump)
    } else if c == '?' {
        Some(TokenType::Syscall)
    } else if c == '\n' {
        Some(TokenType::NewLine)
    } else if c == '^' {
        Some(TokenType::Push)
    } else if c == '_' {
        Some(TokenType::Pop)
    } else if c == '*' {
        Some(TokenType::Discard)
    } else if c == '@' {
        Some(TokenType::CurrentTape)
    } else {
        None
    }
}

fn single_char_kind_exec(c: char) -> (r: Option<TokenType>)
    ensures
        r == single_char_kind(c),
{
    if c == '<' {
        Some(TokenType::PointerLeft)
    } else if c == '>' {
        Some(TokenType::PointerRight)
    } else if c == '&' {
        Some(TokenType::PointerReset)
    } else if c == '+' {
        Some(TokenType::Add)
    } else if c == '-' {
        Some(TokenType::Sub)
    } else if c == ',' {
        Some(TokenType::ReadByte)
    } else if c == '.' {
        Some(TokenType::WriteByte)
    } else if c == '\'' {
        Some(TokenType::Clear)
    } else if c == '%' {
        Some(TokenType::BaseMemAddr)
    } else if c == '$' {
        Some(TokenType::MemAddr)
    } else if c == '[' {
        Some(TokenType::ZeroJump)
    } else if c == ']' {
        Some(TokenType::NonZeroJump)
    } else if c == '?' {
        Some(TokenType::Syscall)
    } else if c == '\n' {
        Some(TokenType::NewLine)
    } else if c == '^' {
        Some(TokenType::Push)
    } else if c == '_' {
        Some(TokenType::Pop)
    } else if c == '*' {
        Some(TokenType::Discard)
    } else if c == '@' {
        Some(TokenType::CurrentTape)
    } else {
        None
    }
}

/// The code of a character after ASCII lower-casing.
pub open spec fn lower_code(c: char) -> u32 {
    if 65 <= (c as u32) <= 90 {
        (c as u32 + 32) as u32
    } else {
        c as u32
    }
}

/// Whether `w` spells `pat` when lower-cased.
pub open spec fn lower_matches(w: Seq<char>, pat: Seq<char>) -> bool {
    w.len() == pat.len() && forall|k: int| 0 <= k < w.len() ==> lower_code(w[k]) == pat[k] as u32
}

/// The kind of a bare word: a directive or cell size when it spells one in any
/// letter case, a name otherwise.
pub open spec fn word_kind(w: Seq<char>) -> TokenType {
    if lower_matches(w, seq!['#', 'd', 'e', 'f', 'i', 'n', 'e']) {
        TokenType::MacroDecl
    } else if lower_matches(w, seq!['#', 'i', 'f', 'd', 'e', 'f']) {
        TokenType::IfdefMacro
    } else if lower_matches(w, seq!['#', 'i', 'f', 'n', 'd', 'e', 'f']) {
        TokenType::IfNdefMacro
    } else if lower_matches(w, seq!['#', 'e', 'l', 's', 'e']) {
        TokenType::ElseMacro
    } else if lower_matches(w, seq!['#', 'e', 'n', 'd', 'i', 'f']) {
        TokenType::EndifMacro
    } else if lower_matches(w, seq!['#', 'i', 'n', 'c', 'l', 'u', 'd', 'e']) {
        TokenType::IncludeMacro
    } else if lower_matches(w, seq!['#', 't', 'a', 'p', 'e']) {
        TokenType::TapeDecl
    } else if lower_matches(w, seq!['b', 'y', 't', 'e']) || lower_matches(w, seq!['w', 'o', 'r', 'd'])
        || lower_matches(w, seq!['d', 'w', 'o', 'r', 'd']) || lower_matches(w, seq!['q', 'w', 'o', 'r', 'd']) {
        TokenType::CellSize
    } else {
        TokenType::Ident
    }
}

/// Whether `chars[from..to]` spells `pat` when lower-cased.
fn lower_matches_exec(chars: &Vec<char>, from: usize, to: usize, pat: &[char]) -> (r: bool)
    requires
        from <= to <= chars.len(),
    ensures
        r == lower_matches(chars@.subrange(from as int, to as int), pat@),
{
    let ghost w = chars@.subrange(from as int, to as int);
    if to - from != pat.len() {
        return false;
    }
    let mut k: usize = 0;
    while k < pat.len()
        invariant
            w == chars@.subrange(from as int, to as int),
            w.len() == pat@.len(),
            from <= to <= chars.len(),
            k <= pat.len(),
            forall|m: int| 0 <= m < k ==> lower_code(w[m]) == pat@[m] as u32,
        decreases pat.len() - k,
    {
        let c = chars[from + k];
        let code: u32 = if 65 <= (c as u32) && (c as u32) <= 90 {
            c as u32 + 32
        } else {
            c as u32
        };
        assert(w[k as int] == c);
        if code != pat[k] as u32 {
            return false;
        }
        k += 1;
    }
    true
}

fn word_kind_exec(chars: &Vec<char>, from: usize, to: usize) -> (t: TokenType)
    requires
        from <= to <= chars.len(),
    ensures
        t == word_kind(chars@.subrange(from as int, to as int)),
{
    let ghost w = chars@.subrange(from as int, to as int);
    let define = ['#', 'd', 'e', 'f', 'i', 'n', 'e'];
    let ifdef = ['#', 'i', 'f', 'd', 'e', 'f'];
    let ifndef = ['#', 'i', 'f', 'n', 'd', 'e', 'f'];
    let else_ = ['#', 'e', 'l', 's', 'e'];
    let endif = ['#', 'e', 'n', 'd', 'i', 'f'];
    let include_kw = ['#', 'i', 'n', 'c', 'l', 'u', 'd', 'e'];
    let tape = ['#', 't', 'a', 'p', 'e'];
    let byte = ['b', 'y', 't', 'e'];
    let word = ['w', 'o', 'r', 'd'];
    let dword = ['d', 'w', 'o', 'r', 'd'];
    let qword = ['q', 'w', 'o', 'r', 'd'];
    assert(define@ =~= seq!['#', 'd', 'e', 'f', 'i', 'n', 'e']);
    assert(ifdef@ =~= seq!['#', 'i', 'f', 'd', 'e', 'f']);
    assert(ifndef@ =~= seq!['#', 'i', 'f', 'n', 'd', 'e', 'f']);
    assert(else_@ =~= seq!['#', 'e', 'l', 's', 'e']);
    assert(endif@ =~= seq!['#', 'e', 'n', 'd', 'i', 'f']);
    assert(include_kw@ =~= seq!['#', 'i', 'n', 'c', 'l', 'u', 'd', 'e']);
    assert(tape@ =~= seq!['#', 't', 'a', 'p', 'e']);
    assert(byte@ =~= seq!['b', 'y', 't', 'e']);
    assert(word@ =~= seq!['w', 'o', 'r', 'd']);
    assert(dword@ =~= seq!['d', 'w', 'o', 'r', 'd']);
    assert(qword@ =~= seq!['q', 'w', 'o', 'r', 'd']);
    if lower_matches_exec(chars, from, to, &define) {
        TokenType::MacroDecl
    } else if lower_matches_exec(chars, from, to, &ifdef) {
        TokenType::IfdefMacro
    } else if lower_matches_exec(chars, from, to, &ifndef) {
        TokenType::IfNdefMacro
    } else if lower_matches_exec(chars, from, to, &else_) {
        TokenType::ElseMacro
    } else if lower_matches_exec(chars, from, to, &endif) {
        TokenType::EndifMacro
    } else if lower_matches_exec(chars, from, to, &include_kw) {
        TokenType::IncludeMacro
    } else if lower_matches_exec(chars, from, to, &tape) {
        TokenType::TapeDecl
    } else if lower_matches_exec(chars, from, to, &byte) || lower_matches_exec(chars, from, to, &word)
        || lower_matches_exec(chars, from, to, &dword) || lower_matches_exec(chars, from, to, &qword) {
        TokenType::CellSize
    } else {
        TokenType::Ident
    }
}

/// The end of the bare word that starts at `i`: the first white space at or after `i`.
pub open spec fn word_end(s: Seq<char>, i: int) -> int
    decreases s.len() - i,
{
    if 0 <= i < s.len() && !is_ws(s[i]) {
        word_end(s, i + 1)
    } else {
        i
    }
}

/// The first back-quote at or after `k`, or the end of the text.
pub open spec fn tick_end(s: Seq<char>, k: int) -> int
    decreases s.len() - k,
{
    if 0 <= k < s.len() && s[k] != '`' {
        tick_end(s, k + 1)
    } else {
        k
    }
}

pub proof fn lemma_word_end(s: Seq<char>, i: int)
    requires
        0 <= i <= s.len(),
    ensures
        i <= word_end(s, i) <= s.len(),
        forall|k: int| i <= k < word_end(s, i) ==> !is_ws(#[trigger] s[k]),
        word_end(s, i) < s.len() ==> is_ws(s[word_end(s, i)]),
    decreases s.len() - i,
{
    if i < s.len() && !is_ws(s[i]) {
        lemma_word_end(s, i + 1);
    }
}

pub proof fn lemma_tick_end(s: Seq<char>, k: int)
    requires
        0 <= k <= s.len(),
    ensures
        k <= tick_end(s, k) <= s.len(),
        forall|m: int| k <= m < tick_end(s, k) ==> #[trigger] s[m] != '`',
        tick_end(s, k) < s.len() ==> s[tick_end(s, k)] == '`',
    decreases s.len() - k,
{
    if k < s.len() && s[k] != '`' {
        lemma_tick_end(s, k + 1);
    }
}

/// The text between the first and the last character of `w`.
pub open spec fn inner(w: Seq<char>) -> Seq<char> {
    if w.len() >= 2 {
        w.subrange(1, w.len() - 1)
    } else {
        seq![]
    }
}

/// `s` with each two-character escape `\n` replaced by a line break, from left to right.
pub open spec fn replace_newline_escapes(s: Seq<char>) -> Seq<char>
    decreases s.len(),
{
    if s.len() == 0 {
        seq![]
    } else if s.len() >= 2 && s[0] == '\\' && s[1] == 'n' {
        seq!['\n'] + replace_newline_escapes(s.subrange(2, s.len() as int))
    } else {
        seq![s[0]] + replace_newline_escapes(s.drop_first())
    }
}

/// Whether every character is an ASCII digit.
pub open spec fn all_digits(w: Seq<char>) -> bool {
    forall|k: int| 0 <= k < w.len() ==> '0' <= #[trigger] w[k] <= '9'
}

/// The token of a back-quoted literal with text `w`.
pub open spec fn literal_token(w: Seq<char>) -> Result<TokenModel, LexError> {
    if w.len() > 0 && w[0] == '"' {
        if w.last() == '"' {
            Ok(TokenModel { token_type: TokenType::StringLit, value: replace_newline_escapes(inner(w)) })
        } else {
            Err(LexError::UnterminatedString)
        }
    } else if w.len() > 0 && w[0] == '(' {
        if w.last() == ')' {
            Ok(TokenModel { token_type: TokenType::IncludePath, value: inner(w) })
        } else {
            Err(LexError::UnterminatedIncludePath)
        }
    } else if w.len() > 0 && w[0] == '{' {
        if w.last() == '}' {
            Ok(TokenModel { token_type: TokenType::TapeName, value: inner(w) })
        } else {
            Err(LexError::UnterminatedTapeName)
        }
    } else if all_digits(w) {
        Ok(TokenModel { token_type: TokenType::IntLit, value: w })
    } else {
        Err(LexError::ExpectedIntLit)
    }
}

/// `r` with the token `t` put in front of it when it succeeds.
pub open spec fn prepend_token(t: TokenModel, r: Result<Seq<TokenModel>, LexError>) -> Result<
    Seq<TokenModel>,
    LexError,
> {
    match r {
        Ok(ts) => Ok(seq![t] + ts),
        Err(e) => Err(e),
    }
}

/// `r` with the tokens `pre` put in front of it when it succeeds.
pub open spec fn prepend_tokens(pre: Seq<TokenModel>, r: Result<Seq<TokenModel>, LexError>) -> Result<
    Seq<TokenModel>,
    LexError,
> {
    match r {
        Ok(ts) => Ok(pre + ts),
        Err(e) => Err(e),
    }
}

pub proof fn lemma_prepend_one(t: TokenModel, r: Result<Seq<TokenModel>, LexError>)
    ensures
        prepend_tokens(seq![t], r) == prepend_token(t, r),
        prepend_tokens(seq![], r) == r,
{
    match r {
        Ok(ts) => {
            assert(Seq::<TokenModel>::empty() + ts =~= ts);
        },
        Err(_) => {},
    }
}

/// The line break token that ends a comment.
pub open spec fn newline_token() -> TokenModel {
    TokenModel { token_type: TokenType::NewLine, value: seq!['\n'] }
}

/// The tokens of the text from position `i` on, in the given mode.
pub open spec fn lex_from(s: Seq<char>, i: int, mode: LexMode) -> Result<Seq<TokenModel>, LexError>
    decreases s.len() + 1 - i,
{
    if i < 0 || i >= s.len() {
        Ok(seq![])
    } else {
        let ch = s[i];
        let next = if i + 1 < s.len() {
            s[i + 1]
        } else {
            '\0'
        };
        match mode {
            LexMode::Code => match single_char_kind(ch) {
                Some(t) => prepend_token(TokenModel { token_type: t, value: seq![ch] }, lex_from(s, i + 1, mode)),
                None => if ch == '/' && next == '/' {
                    lex_from(s, i + 2, LexMode::LineComment)
                } else if ch == '/' && next == '*' {
                    lex_from(s, i + 2, LexMode::BlockComment)
                } else if is_ws(ch) {
                    lex_from(s, i + 1, mode)
                } else if ch != '`' {
                    let e = word_end(s, i + 1);
                    proof {
                        lemma_word_end(s, i + 1);
                    }
                    let w = s.subrange(i, e);
                    prepend_token(TokenModel { token_type: word_kind(w), value: w }, lex_from(s, e, mode))
                } else if i + 1 >= s.len() {
                    Err(LexError::OpenBacktickAtEnd)
                } else {
                    let e = tick_end(s, i + 1);
                    proof {
                        lemma_tick_end(s, i + 1);
                    }
                    match literal_token(s.subrange(i + 1, e)) {
                        Ok(t) => prepend_token(t, lex_from(s, e + 1, mode)),
                        Err(err) => Err(err),
                    }
                },
            },
            LexMode::BlockComment => if ch == '*' && next == '/' {
                prepend_token(newline_token(), lex_from(s, i + 2, LexMode::Code))
            } else {
                lex_from(s, i + 1, mode)
            },
            LexMode::LineComment => if ch == '\n' || ch == '\0' {
                prepend_token(newline_token(), lex_from(s, i + 1, LexMode::Code))
            } else {
                lex_from(s, i + 1, mode)
            },
        }
    }
}

/// The tokens of a source text.
pub open spec fn lex_spec(s: Seq<char>) -> Result<Seq<TokenModel>, LexError> {
    lex_from(s, 0, LexMode::Code)
}

/// The characters of a text, one by one.
fn chars_of(text: &str) -> (v: Vec<char>)
    ensures
        v@ == text@,
{
    let n = text.unicode_len();
    let mut v: Vec<char> = Vec::new();
    let mut k: usize = 0;
    while k < n
        invariant
            n == text@.len(),
            k <= n,
            v@ == text@.take(k as int),
        decreases n - k,
    {
        v.push(text.get_char(k));
        k += 1;
        assert(v@ =~= text@.take(k as int));
    }
    assert(text@.take(n as int) =~= text@);
    v
}

/// A token of kind `t` whose text is `text[from..to]`.
fn token_from(text: &str, t: TokenType, from: usize, to: usize) -> (tok: Token)
    requires
        from <= to <= text@.len(),
    ensures
        tok@ == (TokenModel { token_type: t, value: text@.subrange(from as int, to as int) }),
{
    Token { token_type: t, value: String::from_str(text.substring_char(from, to)) }
}

/// The text `text[from..to]` with its `\n` escapes replaced by line breaks.
fn replace_newline_escapes_exec(text: &str, from: usize, to: usize) -> (r: String)
    requires
        from <= to <= text@.len(),
    ensures
        r@ == replace_newline_escapes(text@.subrange(from as int, to as int)),
{
    let mut r = String::new();
    let mut k: usize = from;
    proof {
        reveal_strlit("\n");
    }
    while k < to
        invariant
            from <= k <= to <= text@.len(),
            replace_newline_escapes(text@.subrange(from as int, to as int)) == r@
                + replace_newline_escapes(text@.subrange(k as int, to as int)),
        decreases to - k,
    {
        let ghost rest = text@.subrange(k as int, to as int);
        let ghost old_r = r@;
        proof {
            reveal_strlit("\n");
        }
        if k + 1 < to && text.get_char(k) == '\\' && text.get_char(k + 1) == 'n' {
            r.append("\n");
            assert(rest.subrange(2, rest.len() as int) =~= text@.subrange(k + 2, to as int));
            assert(old_r + (seq!['\n'] + replace_newline_escapes(rest.subrange(2, rest.len() as int))) =~= r@
                + replace_newline_escapes(text@.subrange(k + 2, to as int)));
            k += 2;
        } else {
            r.append(text.substring_char(k, k + 1));
            assert(rest.drop_first() =~= text@.subrange(k + 1, to as int));
            assert(text@.subrange(k as int, k + 1) =~= seq![rest[0]]);
            assert(old_r + (seq![rest[0]] + replace_newline_escapes(rest.drop_first())) =~= r@
                + replace_newline_escapes(text@.subrange(k + 1, to as int)));
            k += 1;
        }
    }
    assert(r@ + replace_newline_escapes(text@.subrange(k as int, to as int)) =~= r@);
    r
}

/// The token of the back-quoted literal `text[from..to]`.
fn literal_token_exec(text: &str, chars: &Vec<char>, from: usize, to: usize) -> (res: Result<Token, LexError>)
    requires
        chars@ == text@,
        from <= to <= text@.len(),
    ensures
        match literal_token(text@.subrange(from as int, to as int)) {
            Ok(t) => res is Ok && res->Ok_0@ == t,
            Err(e) => res == Err::<Token, LexError>(e),
        },
{
    let ghost w = text@.subrange(from as int, to as int);
    if to > from && chars[from] == '"' {
        if chars[to - 1] == '"' {
            let value = if to - from >= 2 {
                replace_newline_escapes_exec(text, from + 1, to - 1)
            } else {
                assert(text@.subrange(from + 1, from + 1) =~= Seq::<char>::empty());
                replace_newline_escapes_exec(text, from + 1, from + 1)
            };
            proof {
                if w.len() >= 2 {
                    assert(inner(w) =~= text@.subrange(from + 1, to - 1));
                } else {
                    assert(inner(w) =~= text@.subrange(from + 1, from + 1));
                }
            }
            Ok(Token { token_type: TokenType::StringLit, value })
        } else {
            Err(LexError::UnterminatedString)
        }
    } else if to > from && chars[from] == '(' {
        if chars[to - 1] == ')' {
            let t = if to - from >= 2 {
                token_from(text, TokenType::IncludePath, from + 1, to - 1)
            } else {
                token_from(text, TokenType::IncludePath, from + 1, from + 1)
            };
            assert(t@.value =~= inner(w));
            Ok(t)
        } else {
            Err(LexError::UnterminatedIncludePath)
        }
    } else if to > from && chars[from] == '{' {
        if chars[to - 1] == '}' {
            let t = if to - from >= 2 {
                token_from(text, TokenType::TapeName, from + 1, to - 1)
            } else {
                token_from(text, TokenType::TapeName, from + 1, from + 1)
            };
            assert(t@.value =~= inner(w));
            Ok(t)
        } else {
            Err(LexError::UnterminatedTapeName)
        }
    } else {
        let mut k = from;
        while k < to
            invariant
                from <= k <= to <= chars.len(),
                chars@ == text@,
                w == text@.subrange(from as int, to as int),
                w.len() > 0 ==> w[0] != '"' && w[0] != '(' && w[0] != '{',
                forall|m: int| from <= m < k ==> '0' <= #[trigger] chars@[m] <= '9',
            decreases to - k,
        {
            if !('0' <= chars[k] && chars[k] <= '9') {
                assert(w[k - from] == chars@[k as int]);
                return Err(LexError::ExpectedIntLit);
            }
            k += 1;
        }
        assert forall|m: int| 0 <= m < w.len() implies '0' <= #[trigger] w[m] <= '9' by {
            assert(w[m] == chars@[from + m]);
        }
        Ok(token_from(text, TokenType::IntLit, from, to))
    }
}

/// Splits a bf+ source text into tokens. The one-character commands are tokens
/// of their own; `//` comments run to the end of the line and `/* */` comments
/// to their closing mark, and each ends in a line break token; a bare word is a
/// directive, a cell size or a name; back-quoted text is a string, include path,
/// tape name or number.
pub fn lex_file(contents: String) -> (res: Result<Vec<Token>, LexError>)
    requires
        vstd::utf8::is_ascii_chars(contents@),
    ensures
        match lex_spec(contents@) {
            Ok(ts) => res is Ok && tokens_view(res->Ok_0@) == ts,
            Err(e) => res == Err::<Vec<Token>, LexError>(e),
        },
{
    let text = contents.as_str();
    let chars = chars_of(text);
    let ghost s = contents@;
    let len = chars.len();
    let mut tokens: Vec<Token> = Vec::new();
    let mut mode = LexMode::Code;
    let mut i: usize = 0;
    proof {
        reveal_strlit("\n");
    }
    while i < len
        invariant
            "\n"@ == seq!['\n'],
            s == contents@,
            text@ == s,
            chars@ == s,
            len == s.len(),
            i <= len + 1,
            lex_spec(s) == prepend_tokens(tokens_view(tokens@), lex_from(s, i as int, mode)),
        decreases len + 1 - i,
    {
        let ghost before = tokens_view(tokens@);
        let ghost old_i = i as int;
        let ghost old_mode = mode;
        let ch = chars[i];
        let next = if i + 1 < len {
            chars[i + 1]
        } else {
            '\0'
        };
        let ghost step: Seq<TokenModel>;
        match mode {
            LexMode::Code => {
                match single_char_kind_exec(ch) {
                    Some(t) => {
                        let tok = token_from(text, t, i, i + 1);
                        assert(tok@.value =~= seq![ch]);
                        tokens.push(tok);
                        proof {
                            step = seq![tok@];
                        }
                        i += 1;
                        assert(lex_from(s, old_i, old_mode) == prepend_token(tok@, lex_from(s, i as int, mode)));
                    },
                    None => {
                        if ch == '/' && next == '/' {
                            mode = LexMode::LineComment;
                            i += 2;
                            proof {
                                step = seq![];
                            }
                        } else if ch == '/' && next == '*' {
                            mode = LexMode::BlockComment;
                            i += 2;
                            proof {
                                step = seq![];
                            }
                        } else if is_ws_exec(ch) {
                            i += 1;
                            proof {
                                step = seq![];
                            }
                        } else if ch != '`' {
                            proof {
                                lemma_word_end(s, i + 1);
                            }
                            let mut e = i + 1;
                            while e < len && !is_ws_exec(chars[e])
                                invariant
                                    i < e <= len,
                                    chars@ == s,
                                    len == s.len(),
                                    word_end(s, i + 1) == word_end(s, e as int),
                                decreases len - e,
                            {
                                e += 1;
                            }
                            let kind = word_kind_exec(&chars, i, e);
                            let tok = token_from(text, kind, i, e);
                            tokens.push(tok);
                            proof {
                                step = seq![tok@];
                            }
                            i = e;
                            assert(lex_from(s, old_i, old_mode) == prepend_token(tok@, lex_from(s, i as int, mode)));
                        } else if i + 1 >= len {
                            return Err(LexError::OpenBacktickAtEnd);
                        } else {
                            proof {
                                lemma_tick_end(s, i + 1);
                            }
                            let mut e = i + 1;
                            while e < len && chars[e] != '`'
                                invariant
                                    i < e <= len,
                                    chars@ == s,
                                    len == s.len(),
                                    tick_end(s, i + 1) == tick_end(s, e as int),
                                decreases len - e,
                            {
                                e += 1;
                            }
                            assert(e == tick_end(s, old_i + 1));
                            assert(lex_from(s, len as int, mode) == lex_from(s, len + 1, mode));
                            let ghost lit = literal_token(s.subrange(i + 1, e as int));
                            match literal_token_exec(text, &chars, i + 1, e) {
                                Ok(tok) => {
                                    assert(lit == Ok::<TokenModel, LexError>(tok@));
                                    tokens.push(tok);
                                    proof {
                                        step = seq![tok@];
                                    }
                                },
                                Err(err) => {
                                    return Err(err);
                                },
                            }
                            i = if e < len {
                                e + 1
                            } else {
                                len
                            };
                            assert(lex_from(s, old_i, old_mode) == prepend_token(step[0], lex_from(s, i as int, mode)));
                        }
                    },
                }
            },
            LexMode::BlockComment => {
                if ch == '*' && next == '/' {
                    let tok = Token { token_type: TokenType::NewLine, value: String::from_str("\n") };
                    assert(tok@ =~= newline_token());
                    tokens.push(tok);
                    proof {
                        step = seq![tok@];
                    }
                    mode = LexMode::Code;
                    i += 2;
                } else {
                    i += 1;
                    proof {
                        step = seq![];
                    }
                }
            },
            LexMode::LineComment => {
                if ch == '\n' || ch == '\0' {
                    let tok = Token { token_type: TokenType::NewLine, value: String::from_str("\n") };
                    assert(tok@ =~= newline_token());
                    tokens.push(tok);
                    proof {
                        step = seq![tok@];
                    }
                    mode = LexMode::Code;
                } else {
                    proof {
                        step = seq![];
                    }
                }
                i += 1;
            },
        }
        assert(tokens_view(tokens@) =~= before + step);
        proof {
            if step.len() == 1 {
                lemma_prepend_one(step[0], lex_from(s, i as int, mode));
                assert(step =~= seq![step[0]]);
            } else {
                lemma_prepend_one(newline_token(), lex_from(s, i as int, mode));
                assert(step =~= Seq::<TokenModel>::empty());
            }
        }
        assert(lex_from(s, old_i, old_mode) == prepend_tokens(step, lex_from(s, i as int, mode)));
        proof {
            match lex_from(s, i as int, mode) {
                Ok(rest) => {
                    assert(before + (step + rest) =~= (before + step) + rest);
                },
                Err(_) => {},
            }
        }
    }
    Ok(tokens)
}


/// A text that holds only command characters and white space.
pub open spec fn commands_only(s: Seq<char>) -> bool {
    forall|k: int| 0 <= k < s.len() ==> (#[trigger] single_char_kind(s[k]) is Some || is_ws(s[k]))
}

/// One token per command character, in order, white space left out.
pub open spec fn command_tokens(s: Seq<char>) -> Seq<TokenModel>
    decreases s.len(),
{
    if s.len() == 0 {
        seq![]
    } else {
        (match single_char_kind(s[0]) {
            Some(t) => seq![TokenModel { token_type: t, value: seq![s[0]] }],
            None => Seq::<TokenModel>::empty(),
        }) + command_tokens(s.drop_first())
    }
}

proof fn lemma_lex_commands_from(s: Seq<char>, i: int)
    requires
        0 <= i <= s.len(),
        commands_only(s),
    ensures
        lex_from(s, i, LexMode::Code) == Ok::<Seq<TokenModel>, LexError>(command_tokens(s.skip(i))),
    decreases s.len() - i,
{
    if i == s.len() {
        assert(s.skip(i) =~= Seq::<char>::empty());
    } else {
        lemma_lex_commands_from(s, i + 1);
        let rest = s.skip(i);
        assert(rest[0] == s[i]);
        assert(rest.drop_first() =~= s.skip(i + 1));
        assert(single_char_kind(s[i]) is Some || is_ws(s[i]));
        match single_char_kind(s[i]) {
            Some(t) => {},
            None => {
                assert(Seq::<TokenModel>::empty() + command_tokens(s.skip(i + 1)) =~= command_tokens(
                    s.skip(i + 1),
                ));
            },
        }
    }
}

/// A text made only of command characters and white space lexes without
/// error into one token per command character, in order, each carrying its
/// character: no comment, word or literal can start in it.
pub proof fn law_commands_lex_one_to_one(s: Seq<char>)
    requires
        commands_only(s),
    ensures
        lex_spec(s) == Ok::<Seq<TokenModel>, LexError>(command_tokens(s)),
{
    lemma_lex_commands_from(s, 0);
    assert(s.skip(0) =~= s);
}


/// No backslash in `s` is directly followed by `n`.
pub open spec fn no_newline_escape(s: Seq<char>) -> bool {
    forall|k: int| 0 <= k < s.len() - 1 ==> !(#[trigger] s[k] == '\\' && s[k + 1] == 'n')
}

proof fn lemma_escapes_first(s: Seq<char>)
    requires
        s.len() > 0,
    ensures
        replace_newline_escapes(s).len() > 0,
        replace_newline_escapes(s)[0] == if s.len() >= 2 && s[0] == '\\' && s[1] == 'n' {
            '\n'
        } else {
            s[0]
        },
{
}

proof fn lemma_escapes_gone(s: Seq<char>)
    ensures
        no_newline_escape(replace_newline_escapes(s)),
        replace_newline_escapes(s).len() <= s.len(),
    decreases s.len(),
{
    if s.len() > 0 {
        let r = replace_newline_escapes(s);
        if s.len() >= 2 && s[0] == '\\' && s[1] == 'n' {
            let rest = s.subrange(2, s.len() as int);
            lemma_escapes_gone(rest);
            let rr = replace_newline_escapes(rest);
            assert(r == seq!['\n'] + rr);
            assert forall|k: int| 0 <= k < r.len() - 1 implies !(#[trigger] r[k] == '\\' && r[k + 1] == 'n') by {
                if k > 0 {
                    assert(r[k] == rr[k - 1]);
                    assert(r[k + 1] == rr[k]);
                }
            }
        } else {
            let rest = s.drop_first();
            lemma_escapes_gone(rest);
            let rr = replace_newline_escapes(rest);
            assert(r == seq![s[0]] + rr);
            assert forall|k: int| 0 <= k < r.len() - 1 implies !(#[trigger] r[k] == '\\' && r[k + 1] == 'n') by {
                if k > 0 {
                    assert(r[k] == rr[k - 1]);
                    assert(r[k + 1] == rr[k]);
                } else if s[0] == '\\' {
                    lemma_escapes_first(rest);
                    assert(r[1] == rr[0]);
                }
            }
        }
    }
}

proof fn lemma_no_backslash_unchanged(s: Seq<char>)
    requires
        forall|k: int| 0 <= k < s.len() ==> #[trigger] s[k] != '\\',
    ensures
        replace_newline_escapes(s) == s,
    decreases s.len(),
{
    if s.len() > 0 {
        let rest = s.drop_first();
        assert forall|k: int| 0 <= k < rest.len() implies #[trigger] rest[k] != '\\' by {
            assert(rest[k] == s[k + 1]);
        }
        lemma_no_backslash_unchanged(rest);
        assert(seq![s[0]] + rest =~= s);
    } else {
        assert(s =~= Seq::<char>::empty());
    }
}

/// Every `\n` escape of a string literal becomes a line break: the value of
/// a string literal token never holds a backslash followed by `n`, it is no
/// longer than the text between its quotes, and a text without backslashes
/// is kept as it is.
pub proof fn law_string_escapes_replaced(w: Seq<char>)
    ensures
        literal_token(w) is Ok && literal_token(w)->Ok_0.token_type == TokenType::StringLit ==> {
            let t = literal_token(w)->Ok_0;
            &&& no_newline_escape(t.value)
            &&& t.value.len() <= inner(w).len()
            &&& (forall|k: int| 0 <= k < inner(w).len() ==> #[trigger] inner(w)[k] != '\\') ==> t.value == inner(w)
        },
{
    lemma_escapes_gone(inner(w));
    if forall|k: int| 0 <= k < inner(w).len() ==> #[trigger] inner(w)[k] != '\\' {
        lemma_no_backslash_unchanged(inner(w));
    }
}

} // verus!
