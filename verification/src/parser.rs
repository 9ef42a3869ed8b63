use vstd::prelude::*;

use crate::common::{Token, TokenType, TokenModel, Tape, TapeModel, Operation, OperationModel, tokens_view, tapes_view, strings_view, operations_view};

verus! {

/// Why a token stream cannot be turned into operations.
#[derive(Debug, Clone, Copy, PartialEq, Eq, Structural)]
pub enum ParseError {
    /// the `@` at this index is the last token
    MissingTapeName { at: usize },
    /// the `@` at this index is not followed by a tape name
    ExpectedTapeName { at: usize },
    /// the `@` at this index names a tape that is not declared
    UndefinedTape { at: usize },
}

/// The kinds of token whose consecutive repetitions become one operation.
pub open spec fn is_merged(t: TokenType) -> bool {
    t == TokenType::Add || t == TokenType::Sub || t == TokenType::PointerLeft
        || t == TokenType::PointerRight || t == TokenType::Push || t == TokenType::Pop
}

/// The end of the run of tokens of kind `t` that starts at `i`.
pub open spec fn run_end(toks: Seq<TokenModel>, i: int, t: TokenType) -> int
    decreases toks.len() - i,
{
    if 0 <= i < toks.len() && toks[i].token_type == t {
        run_end(toks, i + 1, t)
    } else {
        i
    }
}

pub proof fn lemma_run_end_bounds(toks: Seq<TokenModel>, i: int, t: TokenType)
    requires
        0 <= i <= toks.len(),
    ensures
        i <= run_end(toks, i, t) <= toks.len(),
        forall|k: int| i <= k < run_end(toks, i, t) ==> #[trigger] toks[k].token_type == t,
        run_end(toks, i, t) < toks.len() ==> toks[run_end(toks, i, t)].token_type != t,
    decreases toks.len() - i,
{
    if i < toks.len() && toks[i].token_type == t {
        lemma_run_end_bounds(toks, i + 1, t);
    }
}

/// The texts of the tokens from `i` (inclusive) to `j` (exclusive).
pub open spec fn values_between(toks: Seq<TokenModel>, i: int, j: int) -> Seq<Seq<char>> {
    Seq::new((j - i) as nat, |k: int| toks[i + k].value)
}

/// Index of the first tape called `name`, searching from index `k`.
pub open spec fn find_tape_from(tapes: Seq<TapeModel>, name: Seq<char>, k: int) -> Option<int>
    decreases tapes.len() - k,
{
    if k < 0 || k >= tapes.len() {
        None
    } else if tapes[k].name == name {
        Some(k)
    } else {
        find_tape_from(tapes, name, k + 1)
    }
}

pub proof fn lemma_find_tape_from(tapes: Seq<TapeModel>, name: Seq<char>, k: int)
    requires
        0 <= k,
    ensures
        find_tape_from(tapes, name, k) matches Some(j) ==> k <= j < tapes.len() && tapes[j].name == name
            && forall|m: int| k <= m < j ==> tapes[m].name != name,
        find_tape_from(tapes, name, k) is None ==> forall|m: int| k <= m < tapes.len() ==> tapes[m].name != name,
    decreases tapes.len() - k,
{
    if k < tapes.len() && tapes[k].name != name {
        lemma_find_tape_from(tapes, name, k + 1);
    }
}

/// Index of the first tape called `name`.
pub open spec fn find_tape(tapes: Seq<TapeModel>, name: Seq<char>) -> Option<int> {
    find_tape_from(tapes, name, 0)
}

/// `r` with the operations `pre` put in front of it when it succeeds.
pub open spec fn prepend_ops(
    pre: Seq<OperationModel>,
    r: Result<Seq<OperationModel>, ParseError>,
) -> Result<Seq<OperationModel>, ParseError> {
    match r {
        Ok(ops) => Ok(pre + ops),
        Err(e) => Err(e),
    }
}

pub proof fn lemma_prepend_ops_assoc(
    a: Seq<OperationModel>,
    b: Seq<OperationModel>,
    r: Result<Seq<OperationModel>, ParseError>,
)
    ensures
        prepend_ops(a, prepend_ops(b, r)) == prepend_ops(a + b, r),
{
    match r {
        Ok(ops) => {
            assert(a + (b + ops) =~= (a + b) + ops);
        },
        Err(_) => {},
    }
}

/// The operations of the tokens from index `i` on.
pub open spec fn parse_from(toks: Seq<TokenModel>, tapes: Seq<TapeModel>, i: int) -> Result<
    Seq<OperationModel>,
    ParseError,
>
    decreases toks.len() - i,
{
    if i < 0 || i >= toks.len() {
        Ok(seq![])
    } else {
        let t = toks[i].token_type;
        if is_merged(t) {
            let e = run_end(toks, i, t);
            proof {
                lemma_run_end_bounds(toks, i + 1, t);
            }
            prepend_ops(
                seq![
                    OperationModel {
                        token_type: t,
                        count: (e - i) as nat,
                        values: values_between(toks, i, e),
                        tape: None,
                    },
                ],
                parse_from(toks, tapes, e),
            )
        } else if t == TokenType::CurrentTape {
            if i + 1 >= toks.len() {
                Err(ParseError::MissingTapeName { at: i as usize })
            } else if toks[i + 1].token_type != TokenType::TapeName {
                Err(ParseError::ExpectedTapeName { at: i as usize })
            } else {
                match find_tape(tapes, toks[i + 1].value) {
                    None => Err(ParseError::UndefinedTape { at: i as usize }),
                    Some(k) => prepend_ops(
                        seq![
                            OperationModel {
                                token_type: t,
                                count: 1,
                                values: seq![toks[i + 1].value],
                                tape: Some(tapes[k]),
                            },
                        ],
                        parse_from(toks, tapes, i + 2),
                    ),
                }
            }
        } else {
            prepend_ops(
                seq![OperationModel { token_type: t, count: 1, values: seq![toks[i].value], tape: None }],
                parse_from(toks, tapes, i + 1),
            )
        }
    }
}

/// The operations of a token stream, given the declared tapes.
pub open spec fn parse_spec(toks: Seq<TokenModel>, tapes: Seq<TapeModel>) -> Result<
    Seq<OperationModel>,
    ParseError,
> {
    parse_from(toks, tapes, 0)
}

/// The texts of the tokens, leaving out the `@` marks.
pub open spec fn kept_texts(toks: Seq<TokenModel>) -> Seq<Seq<char>>
    decreases toks.len(),
{
    if toks.len() == 0 {
        seq![]
    } else {
        (if toks[0].token_type == TokenType::CurrentTape {
            Seq::<Seq<char>>::empty()
        } else {
            seq![toks[0].value]
        }) + kept_texts(toks.drop_first())
    }
}

/// The texts of all operations, in order.
pub open spec fn all_values(ops: Seq<OperationModel>) -> Seq<Seq<char>>
    decreases ops.len(),
{
    if ops.len() == 0 {
        seq![]
    } else {
        ops[0].values + all_values(ops.drop_first())
    }
}

/// An operation counts what it stands for: a merged run counts its tokens,
/// any other operation counts one.
pub open spec fn count_ok(op: OperationModel) -> bool {
    &&& op.count >= 1
    &&& is_merged(op.token_type) ==> op.count == op.values.len()
    &&& !is_merged(op.token_type) ==> op.count == 1 && op.values.len() == 1
}

/// Runs are maximal: a merged operation is never followed by one of its own kind.
pub open spec fn runs_maximal(ops: Seq<OperationModel>) -> bool {
    forall|k: int|
        0 <= k < ops.len() - 1 && is_merged(#[trigger] ops[k].token_type) ==> ops[k + 1].token_type
            != ops[k].token_type
}

pub proof fn lemma_kept_run(toks: Seq<TokenModel>, i: int, e: int)
    requires
        0 <= i <= e <= toks.len(),
        forall|k: int| i <= k < e ==> #[trigger] toks[k].token_type != TokenType::CurrentTape,
    ensures
        kept_texts(toks.skip(i)) == values_between(toks, i, e) + kept_texts(toks.skip(e)),
    decreases e - i,
{
    if i == e {
        assert(values_between(toks, i, e) =~= Seq::<Seq<char>>::empty());
        assert(Seq::<Seq<char>>::empty() + kept_texts(toks.skip(e)) =~= kept_texts(toks.skip(e)));
    } else {
        lemma_kept_run(toks, i + 1, e);
        let s = toks.skip(i);
        assert(s[0] == toks[i]);
        assert(s.drop_first() =~= toks.skip(i + 1));
        assert(values_between(toks, i, e) =~= seq![toks[i].value] + values_between(toks, i + 1, e));
        assert(seq![toks[i].value] + (values_between(toks, i + 1, e) + kept_texts(toks.skip(e))) =~= (seq![
            toks[i].value,
        ] + values_between(toks, i + 1, e)) + kept_texts(toks.skip(e)));
    }
}

pub proof fn lemma_all_values_cons(op: OperationModel, ops: Seq<OperationModel>)
    ensures
        all_values(seq![op] + ops) == op.values + all_values(ops),
{
    assert((seq![op] + ops).drop_first() =~= ops);
}

/// The properties of what parsing from index `i` gives.
pub open spec fn parse_props(toks: Seq<TokenModel>, tapes: Seq<TapeModel>, i: int) -> bool {
    parse_from(toks, tapes, i) matches Ok(ops) ==> {
        &&& all_values(ops) == kept_texts(toks.skip(i))
        &&& forall|k: int| 0 <= k < ops.len() ==> count_ok(#[trigger] ops[k])
        &&& runs_maximal(ops)
        &&& i < toks.len() ==> ops.len() > 0 && ops[0].token_type == toks[i].token_type
    }
}

pub proof fn lemma_props_cons(op: OperationModel, rest: Seq<OperationModel>)
    requires
        count_ok(op),
        forall|k: int| 0 <= k < rest.len() ==> count_ok(#[trigger] rest[k]),
        runs_maximal(rest),
        is_merged(op.token_type) && rest.len() > 0 ==> rest[0].token_type != op.token_type,
    ensures
        forall|k: int| 0 <= k < (seq![op] + rest).len() ==> count_ok(#[trigger] (seq![op] + rest)[k]),
        runs_maximal(seq![op] + rest),
        all_values(seq![op] + rest) == op.values + all_values(rest),
{
    let ops = seq![op] + rest;
    lemma_all_values_cons(op, rest);
    assert forall|k: int| 0 <= k < ops.len() implies count_ok(#[trigger] ops[k]) by {
        if k > 0 {
            assert(ops[k] == rest[k - 1]);
        }
    }
    assert forall|k: int| 0 <= k < ops.len() - 1 && is_merged(#[trigger] ops[k].token_type) implies ops[k
        + 1].token_type != ops[k].token_type by {
        if k > 0 {
            assert(ops[k] == rest[k - 1]);
            assert(ops[k + 1] == rest[k]);
        } else {
            assert(ops[1] == rest[0]);
        }
    }
}

#[verifier::rlimit(40)]
pub proof fn lemma_props_merged(toks: Seq<TokenModel>, tapes: Seq<TapeModel>, i: int)
    requires
        0 <= i < toks.len(),
        is_merged(toks[i].token_type),
        parse_props(toks, tapes, run_end(toks, i, toks[i].token_type)),
    ensures
        parse_props(toks, tapes, i),
{
    let t = toks[i].token_type;
    let e = run_end(toks, i, t);
    lemma_run_end_bounds(toks, i, t);
    lemma_run_end_bounds(toks, i + 1, t);
    let op = OperationModel { token_type: t, count: (e - i) as nat, values: values_between(toks, i, e), tape: None };
    assert(parse_from(toks, tapes, i) == prepend_ops(seq![op], parse_from(toks, tapes, e)));
    if let Ok(rest) = parse_from(toks, tapes, e) {
        lemma_props_cons(op, rest);
        lemma_kept_run(toks, i, e);
        assert(parse_from(toks, tapes, i) == Ok::<Seq<OperationModel>, ParseError>(seq![op] + rest));
        assert(op.values == values_between(toks, i, e));
        assert((seq![op] + rest)[0] == op);
    }
}

#[verifier::rlimit(40)]
pub proof fn lemma_props_tape(toks: Seq<TokenModel>, tapes: Seq<TapeModel>, i: int)
    requires
        0 <= i < toks.len(),
        toks[i].token_type == TokenType::CurrentTape,
        i + 2 <= toks.len() ==> parse_props(toks, tapes, i + 2),
    ensures
        parse_props(toks, tapes, i),
{
    let t = toks[i].token_type;
    if i + 1 < toks.len() && toks[i + 1].token_type == TokenType::TapeName {
        if let Some(kk) = find_tape(tapes, toks[i + 1].value) {
            if let Ok(rest) = parse_from(toks, tapes, i + 2) {
                let op = OperationModel { token_type: t, count: 1, values: seq![toks[i + 1].value], tape: Some(tapes[kk]) };
                lemma_props_cons(op, rest);
                let s = toks.skip(i);
                assert(s[0] == toks[i]);
                assert(s.drop_first() =~= toks.skip(i + 1));
                let s1 = toks.skip(i + 1);
                assert(s1[0] == toks[i + 1]);
                assert(s1.drop_first() =~= toks.skip(i + 2));
                assert(kept_texts(s1) == seq![toks[i + 1].value] + kept_texts(toks.skip(i + 2)));
                assert(kept_texts(s) == Seq::<Seq<char>>::empty() + kept_texts(s1));
                assert(Seq::<Seq<char>>::empty() + kept_texts(s1) =~= kept_texts(s1));
            }
        }
    }
}

pub proof fn lemma_props_single(toks: Seq<TokenModel>, tapes: Seq<TapeModel>, i: int)
    requires
        0 <= i < toks.len(),
        !is_merged(toks[i].token_type),
        toks[i].token_type != TokenType::CurrentTape,
        parse_props(toks, tapes, i + 1),
    ensures
        parse_props(toks, tapes, i),
{
    let t = toks[i].token_type;
    if let Ok(rest) = parse_from(toks, tapes, i + 1) {
        let op = OperationModel { token_type: t, count: 1, values: seq![toks[i].value], tape: None };
        lemma_props_cons(op, rest);
        let s = toks.skip(i);
        assert(s[0] == toks[i]);
        assert(s.drop_first() =~= toks.skip(i + 1));
    }
}

pub proof fn lemma_parse_from_props(toks: Seq<TokenModel>, tapes: Seq<TapeModel>, i: int)
    requires
        0 <= i <= toks.len(),
    ensures
        parse_props(toks, tapes, i),
    decreases toks.len() - i,
{
    if i < toks.len() {
        let t = toks[i].token_type;
        if is_merged(t) {
            lemma_run_end_bounds(toks, i + 1, t);
            lemma_run_end_bounds(toks, i, t);
            lemma_parse_from_props(toks, tapes, run_end(toks, i, t));
            lemma_props_merged(toks, tapes, i);
        } else if t == TokenType::CurrentTape {
            if i + 2 <= toks.len() {
                lemma_parse_from_props(toks, tapes, i + 2);
            }
            lemma_props_tape(toks, tapes, i);
        } else {
            lemma_parse_from_props(toks, tapes, i + 1);
            lemma_props_single(toks, tapes, i);
        }
    } else {
        assert(toks.skip(i) =~= Seq::<TokenModel>::empty());
    }
}

/// What parsing keeps: every operation counts the tokens it stands for, runs
/// of `+ - < > ^ _` are merged as far as they go, and the texts of the tokens
/// come out in order, all but the `@` marks.
pub proof fn law_parse_keeps_tokens(toks: Seq<TokenModel>, tapes: Seq<TapeModel>)
    ensures
        parse_spec(toks, tapes) matches Ok(ops) ==> {
            &&& all_values(ops) == kept_texts(toks)
            &&& forall|k: int| 0 <= k < ops.len() ==> count_ok(#[trigger] ops[k])
            &&& runs_maximal(ops)
        },
{
    lemma_parse_from_props(toks, tapes, 0);
    assert(toks.skip(0) =~= toks);
}

/// Each operation's kind repeated as many times as it counts, in order.
pub open spec fn expanded_kinds(ops: Seq<OperationModel>) -> Seq<TokenType>
    decreases ops.len(),
{
    if ops.len() == 0 {
        seq![]
    } else {
        Seq::new(ops[0].count, |k: int| ops[0].token_type) + expanded_kinds(ops.drop_first())
    }
}

/// The kinds of the tokens, each `@` taking the token after it (its tape
/// name) along.
pub open spec fn kinds_with_tape_names_taken(toks: Seq<TokenModel>) -> Seq<TokenType>
    decreases toks.len(),
{
    if toks.len() == 0 {
        seq![]
    } else if toks[0].token_type == TokenType::CurrentTape && toks.len() >= 2 {
        seq![TokenType::CurrentTape] + kinds_with_tape_names_taken(toks.skip(2))
    } else {
        seq![toks[0].token_type] + kinds_with_tape_names_taken(toks.drop_first())
    }
}

proof fn lemma_expanded_cons(op: OperationModel, ops: Seq<OperationModel>)
    ensures
        expanded_kinds(seq![op] + ops) == Seq::new(op.count, |k: int| op.token_type) + expanded_kinds(ops),
{
    assert((seq![op] + ops).drop_first() =~= ops);
    assert((seq![op] + ops)[0] == op);
}

proof fn lemma_kinds_run(toks: Seq<TokenModel>, i: int, e: int, t: TokenType)
    requires
        0 <= i <= e <= toks.len(),
        t != TokenType::CurrentTape,
        forall|k: int| i <= k < e ==> #[trigger] toks[k].token_type == t,
    ensures
        kinds_with_tape_names_taken(toks.skip(i)) == Seq::new((e - i) as nat, |k: int| t)
            + kinds_with_tape_names_taken(toks.skip(e)),
    decreases e - i,
{
    if i == e {
        assert(Seq::new(0nat, |k: int| t) + kinds_with_tape_names_taken(toks.skip(e)) =~= kinds_with_tape_names_taken(
            toks.skip(e),
        ));
    } else {
        lemma_kinds_run(toks, i + 1, e, t);
        let s = toks.skip(i);
        assert(s[0] == toks[i]);
        assert(s.drop_first() =~= toks.skip(i + 1));
        assert(seq![t] + (Seq::new((e - i - 1) as nat, |k: int| t) + kinds_with_tape_names_taken(toks.skip(e)))
            =~= Seq::new((e - i) as nat, |k: int| t) + kinds_with_tape_names_taken(toks.skip(e)));
    }
}

/// What parsing from index `i` gives, expanded by counts, is the kinds of
/// the tokens from `i` on.
pub open spec fn kinds_kept_from(toks: Seq<TokenModel>, tapes: Seq<TapeModel>, i: int) -> bool {
    parse_from(toks, tapes, i) matches Ok(ops) ==> expanded_kinds(ops) == kinds_with_tape_names_taken(toks.skip(i))
}

#[verifier::rlimit(40)]
proof fn lemma_kinds_merged(toks: Seq<TokenModel>, tapes: Seq<TapeModel>, i: int)
    requires
        0 <= i < toks.len(),
        is_merged(toks[i].token_type),
        kinds_kept_from(toks, tapes, run_end(toks, i, toks[i].token_type)),
    ensures
        kinds_kept_from(toks, tapes, i),
{
    let t = toks[i].token_type;
    let e = run_end(toks, i, t);
    lemma_run_end_bounds(toks, i, t);
    lemma_run_end_bounds(toks, i + 1, t);
    let op = OperationModel { token_type: t, count: (e - i) as nat, values: values_between(toks, i, e), tape: None };
    assert(parse_from(toks, tapes, i) == prepend_ops(seq![op], parse_from(toks, tapes, e)));
    if let Ok(rest) = parse_from(toks, tapes, e) {
        lemma_expanded_cons(op, rest);
        lemma_kinds_run(toks, i, e, t);
    }
}

#[verifier::rlimit(40)]
proof fn lemma_kinds_tape(toks: Seq<TokenModel>, tapes: Seq<TapeModel>, i: int)
    requires
        0 <= i < toks.len(),
        toks[i].token_type == TokenType::CurrentTape,
        i + 2 <= toks.len() ==> kinds_kept_from(toks, tapes, i + 2),
    ensures
        kinds_kept_from(toks, tapes, i),
{
    let t = toks[i].token_type;
    if i + 1 < toks.len() && toks[i + 1].token_type == TokenType::TapeName {
        if let Some(kk) = find_tape(tapes, toks[i + 1].value) {
            let op = OperationModel { token_type: t, count: 1, values: seq![toks[i + 1].value], tape: Some(tapes[kk]) };
            assert(parse_from(toks, tapes, i) == prepend_ops(seq![op], parse_from(toks, tapes, i + 2)));
            if let Ok(rest) = parse_from(toks, tapes, i + 2) {
                lemma_expanded_cons(op, rest);
                let s = toks.skip(i);
                assert(s[0] == toks[i]);
                assert(s.skip(2) =~= toks.skip(i + 2));
                assert(Seq::new(1nat, |k: int| t) =~= seq![TokenType::CurrentTape]);
            }
        }
    }
}

#[verifier::rlimit(40)]
proof fn lemma_kinds_single(toks: Seq<TokenModel>, tapes: Seq<TapeModel>, i: int)
    requires
        0 <= i < toks.len(),
        !is_merged(toks[i].token_type),
        toks[i].token_type != TokenType::CurrentTape,
        kinds_kept_from(toks, tapes, i + 1),
    ensures
        kinds_kept_from(toks, tapes, i),
{
    let t = toks[i].token_type;
    let op = OperationModel { token_type: t, count: 1, values: seq![toks[i].value], tape: None };
    assert(parse_from(toks, tapes, i) == prepend_ops(seq![op], parse_from(toks, tapes, i + 1)));
    if let Ok(rest) = parse_from(toks, tapes, i + 1) {
        lemma_expanded_cons(op, rest);
        let s = toks.skip(i);
        assert(s[0] == toks[i]);
        assert(s.drop_first() =~= toks.skip(i + 1));
        assert(Seq::new(1nat, |k: int| t) =~= seq![t]);
    }
}

proof fn lemma_kinds_kept_from(toks: Seq<TokenModel>, tapes: Seq<TapeModel>, i: int)
    requires
        0 <= i <= toks.len(),
    ensures
        kinds_kept_from(toks, tapes, i),
    decreases toks.len() - i,
{
    if i < toks.len() {
        let t = toks[i].token_type;
        if is_merged(t) {
            lemma_run_end_bounds(toks, i + 1, t);
            lemma_run_end_bounds(toks, i, t);
            lemma_kinds_kept_from(toks, tapes, run_end(toks, i, t));
            lemma_kinds_merged(toks, tapes, i);
        } else if t == TokenType::CurrentTape {
            if i + 2 <= toks.len() {
                lemma_kinds_kept_from(toks, tapes, i + 2);
            }
            lemma_kinds_tape(toks, tapes, i);
        } else {
            lemma_kinds_kept_from(toks, tapes, i + 1);
            lemma_kinds_single(toks, tapes, i);
        }
    } else {
        assert(toks.skip(i) =~= Seq::<TokenModel>::empty());
    }
}

/// Parsing loses no token kind: repeating each operation's kind as many
/// times as it counts gives back the kinds of the tokens, in order, each `@`
/// standing together with the tape name after it.
pub proof fn law_parse_keeps_kinds(toks: Seq<TokenModel>, tapes: Seq<TapeModel>)
    ensures
        parse_spec(toks, tapes) matches Ok(ops) ==> expanded_kinds(ops) == kinds_with_tape_names_taken(toks),
{
    lemma_kinds_kept_from(toks, tapes, 0);
    assert(toks.skip(0) =~= toks);
}

/// Merges the run of tokens of kind `token_type` that starts at `*i` into one
/// operation and moves `*i` past it.
fn trim_tokens(i: &mut usize, tokens: &Vec<Token>, token_type: TokenType) -> (op: Operation)
    requires
        *old(i) < tokens.len(),
        tokens[*old(i) as int].token_type == token_type,
    ensures
        *final(i) == run_end(tokens_view(tokens@), *old(i) as int, token_type),
        *old(i) < *final(i) <= tokens.len(),
        op@ == (OperationModel {
            token_type,
            count: (*final(i) - *old(i)) as nat,
            values: values_between(tokens_view(tokens@), *old(i) as int, *final(i) as int),
            tape: None,
        }),
{
    let ghost toks = tokens_view(tokens@);
    let ghost start = *i as int;
    proof {
        lemma_run_end_bounds(toks, start, token_type);
    }
    let mut j: usize = *i;
    let mut values: Vec<String> = Vec::new();
    let len: usize = tokens.len();
    while j < len && tokens[j].token_type == token_type
        invariant
            toks == tokens_view(tokens@),
            len == tokens.len(),
            start <= j <= len,
            run_end(toks, start, token_type) == run_end(toks, j as int, token_type),
            strings_view(values@) =~= values_between(toks, start, j as int),
        decreases len - j,
    {
        let ghost prev = strings_view(values@);
        values.push(tokens[j].value.clone());
        assert(strings_view(values@) =~= prev.push(toks[j as int].value));
        j += 1;
    }
    proof {
        lemma_run_end_bounds(toks, j as int, token_type);
    }
    let count = j - *i;
    *i = j;
    Operation { token_type, count, values, tape: None }
}

/// Looks up the first tape called `name`.
pub(crate) fn find_tape_index(tapes: &Vec<Tape>, name: &String) -> (res: Option<usize>)
    ensures
        match find_tape(tapes_view(tapes@), name@) {
            Some(k) => res == Some(k as usize),
            None => res is None,
        },
        res matches Some(k) ==> k < tapes.len() && find_tape(tapes_view(tapes@), name@) == Some(k as int),
{
    proof {
        lemma_find_tape_from(tapes_view(tapes@), name@, 0);
    }
    let ghost tv = tapes_view(tapes@);
    let mut k: usize = 0;
    while k < tapes.len()
        invariant
            tv == tapes_view(tapes@),
            k <= tapes.len(),
            find_tape(tv, name@) == find_tape_from(tv, name@, k as int),
        decreases tapes.len() - k,
    {
        if tapes[k].name == *name {
            return Some(k);
        }
        k += 1;
    }
    None
}

/// Turns a token stream into operations: runs of `+`, `-`, `<`, `>`, `^`
/// and `_` become one operation with their count, `@` takes the tape named
/// by the token after it, and every other token is an operation of its own.
pub fn parse_file(tokens: Vec<Token>, tapes: &Vec<Tape>) -> (res: Result<Vec<Operation>, ParseError>)
    ensures
        match (res, parse_spec(tokens_view(tokens@), tapes_view(tapes@))) {
            (Ok(ops), Ok(spec_ops)) => operations_view(ops@) == spec_ops,
            (Err(e), Err(spec_e)) => e == spec_e,
            _ => false,
        },
{
    let ghost toks = tokens_view(tokens@);
    let ghost tv = tapes_view(tapes@);
    let mut operations: Vec<Operation> = Vec::new();
    let mut i: usize = 0;
    let len: usize = tokens.len();
    while i < len
        invariant
            toks == tokens_view(tokens@),
            tv == tapes_view(tapes@),
            len == tokens.len(),
            i <= len,
            parse_spec(toks, tv) == prepend_ops(operations_view(operations@), parse_from(toks, tv, i as int)),
        decreases len - i,
    {
        let t = tokens[i].token_type;
        let ghost before = operations_view(operations@);
        let ghost old_i = i as int;
        if t == TokenType::Add || t == TokenType::Sub || t == TokenType::PointerLeft
            || t == TokenType::PointerRight || t == TokenType::Push || t == TokenType::Pop {
            let op = trim_tokens(&mut i, &tokens, t);
            assert(parse_from(toks, tv, old_i) == prepend_ops(seq![op@], parse_from(toks, tv, i as int)));
            proof {
                lemma_prepend_ops_assoc(before, seq![op@], parse_from(toks, tv, i as int));
            }
            operations.push(op);
            assert(operations_view(operations@) =~= before + seq![op@]);
        } else if t == TokenType::CurrentTape {
            if i + 1 >= len {
                return Err(ParseError::MissingTapeName { at: i });
            }
            if tokens[i + 1].token_type != TokenType::TapeName {
                return Err(ParseError::ExpectedTapeName { at: i });
            }
            match find_tape_index(tapes, &tokens[i + 1].value) {
                None => {
                    return Err(ParseError::UndefinedTape { at: i });
                },
                Some(k) => {
                    let mut values: Vec<String> = Vec::new();
                    values.push(tokens[i + 1].value.clone());
                    let op = Operation { token_type: t, count: 1, values, tape: Some(tapes[k].clone()) };
                    assert(strings_view(op.values@) =~= seq![toks[old_i + 1].value]);
                    assert(op@.tape == Some(tv[k as int]));
                    assert(find_tape(tv, toks[old_i + 1].value) == Some(k as int));
                    assert(parse_from(toks, tv, old_i) == prepend_ops(seq![op@], parse_from(toks, tv, old_i + 2)));
                    proof {
                        lemma_prepend_ops_assoc(before, seq![op@], parse_from(toks, tv, old_i + 2));
                    }
                    operations.push(op);
                    assert(operations_view(operations@) =~= before + seq![op@]);
                    i += 2;
                },
            }
        } else {
            let mut values: Vec<String> = Vec::new();
            values.push(tokens[i].value.clone());
            let op = Operation { token_type: t, count: 1, values, tape: None };
            assert(strings_view(op.values@) =~= seq![toks[old_i].value]);
            assert(parse_from(toks, tv, old_i) == prepend_ops(seq![op@], parse_from(toks, tv, old_i + 1)));
            proof {
                lemma_prepend_ops_assoc(before, seq![op@], parse_from(toks, tv, old_i + 1));
            }
            operations.push(op);
            assert(operations_view(operations@) =~= before + seq![op@]);
            i += 1;
        }
    }
    Ok(operations)
}

} // verus!
