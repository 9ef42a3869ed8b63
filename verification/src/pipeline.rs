use vstd::prelude::*;

use crate::code_gen::{
    closes_follow_opens, generate_spec, kinds_of, law_accepted_programs_compile, op_accepted, open_before,
    tape_usable,
};
use crate::common::{MEM_SIZE, OperationModel, Size, Tape, TapeModel, Token, TokenModel, TokenType, tapes_view, tokens_view};
use crate::lexer::{LexError, command_tokens, commands_only, is_ws, law_commands_lex_one_to_one, lex_spec, single_char_kind};
use crate::parser::{is_merged, lemma_run_end_bounds, parse_from, parse_spec, prepend_ops, run_end, values_between};
use crate::preprocess::{PreprocessError, law_commands_need_no_preprocessing, preprocess_spec, preprocess_tapes};

verus! {

/// A command of classic brainfuck: `+ - < > . , [ ]`.
pub open spec fn is_classic(c: char) -> bool {
    c == '+' || c == '-' || c == '<' || c == '>' || c == '.' || c == ',' || c == '[' || c == ']'
}

/// A classic brainfuck program: its commands and white space.
pub open spec fn classic_text(s: Seq<char>) -> bool {
    forall|k: int| 0 <= k < s.len() ==> is_classic(#[trigger] s[k]) || is_ws(s[k])
}

/// Every `]` of a text comes after some `[`.
pub open spec fn closes_after_opens(s: Seq<char>) -> bool {
    forall|k: int| 0 <= k < s.len() && #[trigger] s[k] == ']' ==> exists|j: int| 0 <= j < k && s[j] == '['
}

/// The model of the tape every program starts on.
pub open spec fn main_tape_model() -> TapeModel {
    TapeModel { name: seq!['m', 'a', 'i', 'n'], size: Size::Byte, cell_count: MEM_SIZE as nat }
}

/// The token kinds of classic brainfuck programs.
pub open spec fn classic_kind(t: TokenType) -> bool {
    t == TokenType::Add || t == TokenType::Sub || t == TokenType::PointerLeft || t == TokenType::PointerRight
        || t == TokenType::WriteByte || t == TokenType::ReadByte || t == TokenType::ZeroJump
        || t == TokenType::NonZeroJump || t == TokenType::NewLine
}

/// Every `]` token comes after some `[` token.
pub open spec fn token_closes_after_opens(toks: Seq<TokenModel>) -> bool {
    forall|k: int|
        0 <= k < toks.len() && (#[trigger] toks[k]).token_type == TokenType::NonZeroJump ==> exists|j: int|
            0 <= j < k && toks[j].token_type == TokenType::ZeroJump
}

proof fn lemma_bracket_kinds(c: char)
    ensures
        single_char_kind(c) == Some(TokenType::NonZeroJump) <==> c == ']',
        single_char_kind(c) == Some(TokenType::ZeroJump) <==> c == '[',
        is_classic(c) || is_ws(c) ==> match single_char_kind(c) {
            Some(t) => classic_kind(t),
            None => true,
        },
{
}

/// The tokens that the first character of `s` gives.
spec fn head_tokens(s: Seq<char>) -> Seq<TokenModel> {
    match single_char_kind(s[0]) {
        Some(t) => seq![TokenModel { token_type: t, value: seq![s[0]] }],
        None => Seq::<TokenModel>::empty(),
    }
}

proof fn lemma_command_tokens_kinds(s: Seq<char>)
    requires
        classic_text(s),
    ensures
        command_tokens(s).len() <= s.len(),
        forall|k: int| 0 <= k < command_tokens(s).len() ==> classic_kind(#[trigger] command_tokens(s)[k].token_type),
    decreases s.len(),
{
    if s.len() > 0 {
        let rest = s.drop_first();
        assert forall|k: int| 0 <= k < rest.len() implies is_classic(#[trigger] rest[k]) || is_ws(rest[k]) by {
            assert(rest[k] == s[k + 1]);
        }
        lemma_command_tokens_kinds(rest);
        lemma_bracket_kinds(s[0]);
        let head = head_tokens(s);
        let tail = command_tokens(rest);
        let all = command_tokens(s);
        assert(all == head + tail);
        assert(is_classic(s[0]) || is_ws(s[0]));
        assert forall|k: int| 0 <= k < all.len() implies classic_kind(#[trigger] all[k].token_type) by {
            if k < head.len() {
                assert(all[k] == head[k]);
            } else {
                assert(all[k] == tail[k - head.len()]);
            }
        }
    }
}

/// Some `[` comes before position `k` of a text.
#[verifier::opaque]
spec fn open_char_before(s: Seq<char>, k: int) -> bool {
    exists|j: int| 0 <= j < k && s[j] == '['
}

/// Some `[` token comes before position `k`.
#[verifier::opaque]
spec fn open_token_before(toks: Seq<TokenModel>, k: int) -> bool {
    exists|j: int| 0 <= j < k && toks[j].token_type == TokenType::ZeroJump
}

proof fn lemma_command_tokens_brackets(s: Seq<char>, seen: bool)
    requires
        forall|k: int| 0 <= k < s.len() && #[trigger] s[k] == ']' ==> seen || open_char_before(s, k),
    ensures
        forall|k: int|
            0 <= k < command_tokens(s).len() && (#[trigger] command_tokens(s)[k]).token_type == TokenType::NonZeroJump
                ==> seen || open_token_before(command_tokens(s), k),
    decreases s.len(),
{
    if s.len() > 0 {
        let c = s[0];
        let rest = s.drop_first();
        let seen2 = seen || c == '[';
        assert forall|k: int| 0 <= k < rest.len() && #[trigger] rest[k] == ']' implies seen2 || open_char_before(
            rest,
            k,
        ) by {
            assert(rest[k] == s[k + 1]);
            if !seen {
                assert(open_char_before(s, k + 1));
                reveal(open_char_before);
                let j = choose|j: int| 0 <= j < k + 1 && s[j] == '[';
                if j > 0 {
                    assert(rest[j - 1] == s[j]);
                }
            }
        }
        lemma_command_tokens_brackets(rest, seen2);
        lemma_bracket_kinds(c);
        let head = head_tokens(s);
        let tail = command_tokens(rest);
        let all = command_tokens(s);
        assert(all == head + tail);
        assert forall|k: int| 0 <= k < all.len() && (#[trigger] all[k]).token_type == TokenType::NonZeroJump implies seen
            || open_token_before(all, k) by {
            if k < head.len() {
                assert(all[k] == head[k]);
                assert(s[0] == ']');
                reveal(open_char_before);
            } else {
                assert(all[k] == tail[k - head.len()]);
                assert(tail[k - head.len()].token_type == TokenType::NonZeroJump);
                if !seen2 {
                    assert(open_token_before(tail, k - head.len()));
                    reveal(open_token_before);
                    let j = choose|j: int| 0 <= j < k - head.len() && tail[j].token_type == TokenType::ZeroJump;
                    assert(all[j + head.len()] == tail[j]);
                } else if !seen {
                    reveal(open_token_before);
                    assert(all[0] == head[0]);
                    assert(all[0].token_type == TokenType::ZeroJump);
                }
            }
        }
    }
}

proof fn lemma_parse_classic(toks: Seq<TokenModel>, tapes: Seq<TapeModel>, i: int)
    requires
        0 <= i <= toks.len(),
        forall|k: int| 0 <= k < toks.len() ==> classic_kind(#[trigger] toks[k].token_type),
        token_closes_after_opens(toks),
    ensures
        parse_from(toks, tapes, i) matches Ok(ops) && (forall|k: int|
            0 <= k < ops.len() ==> op_accepted(#[trigger] ops[k], tapes)) && (forall|k: int|
            0 <= k < ops.len() && (#[trigger] ops[k]).token_type == TokenType::NonZeroJump ==> (exists|m: int|
                0 <= m < k && ops[m].token_type == TokenType::ZeroJump) || (exists|m: int|
                0 <= m < i && toks[m].token_type == TokenType::ZeroJump)) && (ops.len() > 0 ==> ops[0].token_type
            == toks[i].token_type),
    decreases toks.len() - i,
{
    if i == toks.len() {
        return;
    }
    let t = toks[i].token_type;
    assert(classic_kind(t));
    let j = if is_merged(t) {
        run_end(toks, i, t)
    } else {
        i + 1
    };
    if is_merged(t) {
        lemma_run_end_bounds(toks, i, t);
        lemma_run_end_bounds(toks, i + 1, t);
    }
    let op = if is_merged(t) {
        OperationModel { token_type: t, count: (j - i) as nat, values: values_between(toks, i, j), tape: None }
    } else {
        OperationModel { token_type: t, count: 1, values: seq![toks[i].value], tape: None }
    };
    assert(parse_from(toks, tapes, i) == prepend_ops(seq![op], parse_from(toks, tapes, j)));
    lemma_parse_classic(toks, tapes, j);
    let rest = parse_from(toks, tapes, j)->Ok_0;
    let ops = seq![op] + rest;
    assert(op_accepted(op, tapes));
    assert forall|k: int| 0 <= k < ops.len() implies op_accepted(#[trigger] ops[k], tapes) by {
        if k > 0 {
            assert(ops[k] == rest[k - 1]);
        }
    }
    assert forall|k: int| 0 <= k < ops.len() && (#[trigger] ops[k]).token_type == TokenType::NonZeroJump implies (
    exists|m: int| 0 <= m < k && ops[m].token_type == TokenType::ZeroJump) || (exists|m: int|
        0 <= m < i && toks[m].token_type == TokenType::ZeroJump) by {
        if k == 0 {
            assert(ops[0] == op);
            assert(toks[i].token_type == TokenType::NonZeroJump);
        } else {
            assert(ops[k] == rest[k - 1]);
            if exists|m: int| 0 <= m < k - 1 && rest[m].token_type == TokenType::ZeroJump {
                let m = choose|m: int| 0 <= m < k - 1 && rest[m].token_type == TokenType::ZeroJump;
                assert(ops[m + 1] == rest[m]);
            } else {
                let m = choose|m: int| 0 <= m < j && toks[m].token_type == TokenType::ZeroJump;
                if m >= i {
                    if is_merged(t) {
                        assert(toks[m].token_type == t);
                    }
                    assert(ops[0] == op);
                    assert(op.token_type == TokenType::ZeroJump);
                }
            }
        }
    }
    assert(ops[0] == op);
}

proof fn lemma_ops_close(ops: Seq<OperationModel>)
    requires
        forall|k: int|
            0 <= k < ops.len() && (#[trigger] ops[k]).token_type == TokenType::NonZeroJump ==> exists|m: int|
                0 <= m < k && ops[m].token_type == TokenType::ZeroJump,
    ensures
        closes_follow_opens(kinds_of(ops)),
{
    let kinds = kinds_of(ops);
    assert forall|k: int| 0 <= k < kinds.len() && #[trigger] kinds[k] == TokenType::NonZeroJump implies open_before(
        kinds,
        k,
    ) by {
        assert(kinds[k] == ops[k].token_type);
        let m = choose|m: int| 0 <= m < k && ops[m].token_type == TokenType::ZeroJump;
        assert(kinds[m] == ops[m].token_type);
    }
}

proof fn lemma_classic_token_facts(s: Seq<char>)
    requires
        classic_text(s),
        closes_after_opens(s),
    ensures
        command_tokens(s).len() <= s.len(),
        forall|k: int| 0 <= k < command_tokens(s).len() ==> classic_kind(#[trigger] command_tokens(s)[k].token_type),
        token_closes_after_opens(command_tokens(s)),
        commands_only(s),
{
    lemma_command_tokens_kinds(s);
    assert forall|k: int| 0 <= k < s.len() && #[trigger] s[k] == ']' implies false || open_char_before(s, k) by {
        reveal(open_char_before);
    }
    lemma_command_tokens_brackets(s, false);
    let ct = command_tokens(s);
    assert forall|k: int| 0 <= k < ct.len() && (#[trigger] ct[k]).token_type == TokenType::NonZeroJump implies exists|j: int|
        0 <= j < k && ct[j].token_type == TokenType::ZeroJump by {
        assert(open_token_before(ct, k));
        reveal(open_token_before);
    }
    assert forall|k: int| 0 <= k < s.len() implies (#[trigger] single_char_kind(s[k]) is Some || is_ws(s[k])) by {
        assert(is_classic(s[k]) || is_ws(s[k]));
    }
}

/// Every classic brainfuck program whose `]`s each come after some `[`
/// compiles: it lexes to one token per command, passes preprocessing
/// unchanged, parses without error on the main tape, and gets its assembly.
pub proof fn law_classic_programs_compile(s: Seq<char>, toks: Seq<Token>, tapes: Seq<Tape>)
    requires
        classic_text(s),
        closes_after_opens(s),
        tokens_view(toks) == command_tokens(s),
        tapes_view(tapes) == seq![main_tape_model()],
    ensures
        lex_spec(s) == Ok::<Seq<TokenModel>, LexError>(tokens_view(toks)),
        preprocess_spec(toks, tapes) == Ok::<Seq<Token>, PreprocessError>(toks),
        preprocess_tapes(toks, tapes) == tapes,
        parse_spec(tokens_view(toks), tapes_view(tapes)) matches Ok(ops) && generate_spec(ops, tapes_view(tapes)) is Ok,
{
    lemma_classic_token_facts(s);
    law_commands_lex_one_to_one(s);
    law_commands_need_no_preprocessing(s, toks, tapes);
    let tv = tokens_view(toks);
    let tapes_m = tapes_view(tapes);
    lemma_parse_classic(tv, tapes_m, 0);
    let ops = parse_from(tv, tapes_m, 0)->Ok_0;
    lemma_ops_close(ops);
    assert(tapes_m[0] == main_tape_model());
    assert(tape_usable(main_tape_model()));
    law_accepted_programs_compile(ops, tapes_m);
}

} // verus!
