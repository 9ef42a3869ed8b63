use vstd::prelude::*;

use crate::common::{
    Condition, Forward, Jumps, Operation, OperationModel, Size, Tape, TapeModel, TokenType,
    operations_view, size_bytes, tapes_view,
};
use crate::parser::{find_tape, find_tape_index};
use crate::text::{decimal, push_decimal};

verus! {

/// The kinds of a sequence of operations.
pub open spec fn kinds_of(ops: Seq<OperationModel>) -> Seq<TokenType> {
    ops.map_values(|o: OperationModel| o.token_type)
}

/// An opening bracket that has not been matched yet.
pub open spec fn is_open(j: Jumps) -> bool {
    j == Jumps::Condition(Condition { addr: 0 })
}

/// The last unmatched opening bracket before index `k`, or 0 when there is none.
pub open spec fn last_open_before(js: Seq<Jumps>, k: int) -> int
    decreases k,
{
    if k <= 0 {
        0
    } else if is_open(js[k - 1]) {
        k - 1
    } else {
        last_open_before(js, k - 1)
    }
}

/// The cross references after one more operation of kind `t`.
pub open spec fn xref_step(js: Seq<Jumps>, t: TokenType) -> Seq<Jumps> {
    if t == TokenType::ZeroJump {
        js.push(Jumps::Condition(Condition { addr: 0 }))
    } else if t == TokenType::NonZeroJump {
        let lc = last_open_before(js, js.len() as int);
        let js2 = if 0 <= lc < js.len() && js[lc] is Condition {
            js.update(lc, Jumps::Condition(Condition { addr: js.len() as usize }))
        } else {
            js
        };
        js2.push(Jumps::Forward(Forward { back_addr: lc as usize }))
    } else {
        js
    }
}

/// The cross references of the brackets of a program: one entry per bracket, in order.
pub open spec fn xref(kinds: Seq<TokenType>) -> Seq<Jumps>
    decreases kinds.len(),
{
    if kinds.len() == 0 {
        seq![]
    } else {
        xref_step(xref(kinds.drop_last()), kinds.last())
    }
}

/// Whether a bracket kind.
pub open spec fn is_bracket(t: TokenType) -> bool {
    t == TokenType::ZeroJump || t == TokenType::NonZeroJump
}

/// Some `[` comes before index `k`.
pub open spec fn open_before(kinds: Seq<TokenType>, k: int) -> bool {
    exists|j: int| 0 <= j < k && kinds[j] == TokenType::ZeroJump
}

/// Every `]` comes after some `[`.
pub open spec fn closes_follow_opens(kinds: Seq<TokenType>) -> bool {
    forall|k: int|
        0 <= k < kinds.len() && #[trigger] kinds[k] == TokenType::NonZeroJump ==> open_before(kinds, k)
}

/// Number of brackets in a sequence of kinds.
pub open spec fn bracket_count(kinds: Seq<TokenType>) -> nat
    decreases kinds.len(),
{
    if kinds.len() == 0 {
        0
    } else {
        bracket_count(kinds.drop_last()) + if is_bracket(kinds.last()) {
            1nat
        } else {
            0nat
        }
    }
}

pub proof fn lemma_last_open_before(js: Seq<Jumps>, k: int)
    requires
        0 <= k <= js.len(),
    ensures
        0 <= last_open_before(js, k),
        k > 0 ==> last_open_before(js, k) < k,
        (exists|m: int| 0 <= m < k && is_open(js[m])) ==> {
            let lo = last_open_before(js, k);
            &&& is_open(js[lo])
            &&& forall|m: int| lo < m < k ==> !is_open(js[m])
        },
    decreases k,
{
    if k > 0 {
        lemma_last_open_before(js, k - 1);
        if !is_open(js[k - 1]) {
            if exists|m: int| 0 <= m < k && is_open(js[m]) {
                let m = choose|m: int| 0 <= m < k && is_open(js[m]);
                assert(m < k - 1);
            }
        }
    }
}

pub proof fn lemma_xref_len(kinds: Seq<TokenType>)
    ensures
        xref(kinds).len() == bracket_count(kinds),
    decreases kinds.len(),
{
    if kinds.len() > 0 {
        lemma_xref_len(kinds.drop_last());
    }
}

pub proof fn lemma_bracket_count_opens(kinds: Seq<TokenType>, j: int)
    requires
        0 <= j < kinds.len(),
        kinds[j] == TokenType::ZeroJump,
    ensures
        bracket_count(kinds) > 0,
    decreases kinds.len(),
{
    if j < kinds.len() - 1 {
        lemma_bracket_count_opens(kinds.drop_last(), j);
    }
}

/// Number of unmatched opening brackets among the cross references.
pub open spec fn open_count(js: Seq<Jumps>) -> nat
    decreases js.len(),
{
    if js.len() == 0 {
        0
    } else {
        open_count(js.drop_last()) + if is_open(js.last()) {
            1nat
        } else {
            0nat
        }
    }
}

/// Number of `[` minus number of `]`.
pub open spec fn depth(kinds: Seq<TokenType>) -> int
    decreases kinds.len(),
{
    if kinds.len() == 0 {
        0
    } else {
        depth(kinds.drop_last()) + if kinds.last() == TokenType::ZeroJump {
            1int
        } else if kinds.last() == TokenType::NonZeroJump {
            -1int
        } else {
            0int
        }
    }
}

/// Every prefix has at least as many `[` as `]`.
pub open spec fn never_overclosed(kinds: Seq<TokenType>) -> bool {
    forall|k: int| 0 <= k <= kinds.len() ==> depth(#[trigger] kinds.take(k)) >= 0
}

/// The cross references point at each other: every `]` names a `[` that names
/// it back, and every matched `[` names a `]` that names it back.
pub open spec fn mutually_linked(js: Seq<Jumps>) -> bool {
    &&& forall|f: int|
        0 <= f < js.len() && #[trigger] js[f] is Forward ==> {
            let c = js[f]->Forward_0.back_addr as int;
            &&& 0 <= c < f
            &&& js[c] == Jumps::Condition(Condition { addr: f as usize })
        }
    &&& forall|c: int|
        0 <= c < js.len() && #[trigger] js[c] is Condition && !is_open(js[c]) ==> {
            let f = js[c]->Condition_0.addr as int;
            &&& c < f < js.len()
            &&& js[f] == Jumps::Forward(Forward { back_addr: c as usize })
        }
}

pub proof fn lemma_bracket_count_bound(kinds: Seq<TokenType>)
    ensures
        bracket_count(kinds) <= kinds.len(),
    decreases kinds.len(),
{
    if kinds.len() > 0 {
        lemma_bracket_count_bound(kinds.drop_last());
    }
}

pub proof fn lemma_open_count_push(js: Seq<Jumps>, j: Jumps)
    ensures
        open_count(js.push(j)) == open_count(js) + if is_open(j) {
            1nat
        } else {
            0nat
        },
{
    assert(js.push(j).drop_last() =~= js);
}

pub proof fn lemma_open_count_update(js: Seq<Jumps>, i: int, j: Jumps)
    requires
        0 <= i < js.len(),
        is_open(js[i]),
        !is_open(j),
    ensures
        open_count(js.update(i, j)) + 1 == open_count(js),
    decreases js.len(),
{
    if i < js.len() - 1 {
        lemma_open_count_update(js.drop_last(), i, j);
        assert(js.update(i, j).drop_last() =~= js.drop_last().update(i, j));
    } else {
        assert(js.update(i, j).drop_last() =~= js.drop_last());
    }
}

pub proof fn lemma_open_count_positive(js: Seq<Jumps>)
    requires
        open_count(js) > 0,
    ensures
        exists|m: int| 0 <= m < js.len() && is_open(js[m]),
    decreases js.len(),
{
    if !is_open(js.last()) {
        lemma_open_count_positive(js.drop_last());
        let m = choose|m: int| 0 <= m < js.drop_last().len() && is_open(js.drop_last()[m]);
        assert(js[m] == js.drop_last()[m]);
    }
}

/// For a program never closed more than it was opened, the unmatched `[`
/// number its depth, and the cross references are mutually linked.
pub proof fn lemma_xref_linked(kinds: Seq<TokenType>)
    requires
        never_overclosed(kinds),
        kinds.len() <= usize::MAX,
    ensures
        open_count(xref(kinds)) == depth(kinds),
        mutually_linked(xref(kinds)),
    decreases kinds.len(),
{
    if kinds.len() > 0 {
        let pre = kinds.drop_last();
        assert forall|k: int| 0 <= k <= pre.len() implies depth(#[trigger] pre.take(k)) >= 0 by {
            assert(pre.take(k) =~= kinds.take(k));
        }
        lemma_xref_linked(pre);
        let js = xref(pre);
        lemma_xref_len(pre);
        lemma_bracket_count_bound(pre);
        let t = kinds.last();
        assert(kinds.take(kinds.len() as int) =~= kinds);
        if t == TokenType::ZeroJump {
            lemma_open_count_push(js, Jumps::Condition(Condition { addr: 0 }));
            let js2 = xref(kinds);
            assert(js2 == js.push(Jumps::Condition(Condition { addr: 0 })));
            assert forall|f: int| 0 <= f < js2.len() && #[trigger] js2[f] is Forward implies {
                let c = js2[f]->Forward_0.back_addr as int;
                &&& 0 <= c < f
                &&& js2[c] == Jumps::Condition(Condition { addr: f as usize })
            } by {
                assert(js2[f] == js[f]);
            }
            assert forall|c: int| 0 <= c < js2.len() && #[trigger] js2[c] is Condition && !is_open(js2[c]) implies {
                let f = js2[c]->Condition_0.addr as int;
                &&& c < f < js2.len()
                &&& js2[f] == Jumps::Forward(Forward { back_addr: c as usize })
            } by {
                assert(js2[c] == js[c]);
            }
        } else if t == TokenType::NonZeroJump {
            assert(depth(kinds) >= 0);
            assert(open_count(js) > 0);
            lemma_open_count_positive(js);
            lemma_last_open_before(js, js.len() as int);
            let lc = last_open_before(js, js.len() as int);
            let upd = Jumps::Condition(Condition { addr: js.len() as usize });
            let js1 = js.update(lc, upd);
            let fwd = Jumps::Forward(Forward { back_addr: lc as usize });
            let js2 = xref(kinds);
            assert(js2 == js1.push(fwd));
            lemma_open_count_update(js, lc, upd);
            lemma_open_count_push(js1, fwd);
            assert forall|f: int| 0 <= f < js2.len() && #[trigger] js2[f] is Forward implies {
                let c = js2[f]->Forward_0.back_addr as int;
                &&& 0 <= c < f
                &&& js2[c] == Jumps::Condition(Condition { addr: f as usize })
            } by {
                if f < js.len() {
                    assert(js2[f] == js[f]);
                    let c = js[f]->Forward_0.back_addr as int;
                    assert(js[c] == Jumps::Condition(Condition { addr: f as usize }));
                    assert(c != lc);
                    assert(js2[c] == js[c]);
                }
            }
            assert forall|c: int| 0 <= c < js2.len() && #[trigger] js2[c] is Condition && !is_open(js2[c]) implies {
                let f = js2[c]->Condition_0.addr as int;
                &&& c < f < js2.len()
                &&& js2[f] == Jumps::Forward(Forward { back_addr: c as usize })
            } by {
                if c != lc {
                    assert(js2[c] == js[c]);
                    let f = js[c]->Condition_0.addr as int;
                    assert(js2[f] == js[f]);
                }
            }
        } else {
            assert(xref(kinds) == js);
        }
    }
}

/// Bracket matching: in a program that never closes more brackets than it has
/// opened, each `]` jumps back to a `[` that jumps forward to that very `]`,
/// and each `[` that has a partner jumps forward to a `]` that jumps back to it.
pub proof fn law_brackets_match(kinds: Seq<TokenType>)
    requires
        never_overclosed(kinds),
        kinds.len() <= usize::MAX,
    ensures
        mutually_linked(xref(kinds)),
        closes_follow_opens(kinds),
{
    lemma_xref_linked(kinds);
    assert forall|k: int| 0 <= k < kinds.len() && #[trigger] kinds[k] == TokenType::NonZeroJump implies open_before(
        kinds,
        k,
    ) by {
        lemma_depth_open(kinds, k);
    }
}

pub proof fn lemma_depth_open(kinds: Seq<TokenType>, k: int)
    requires
        never_overclosed(kinds),
        0 <= k < kinds.len(),
        kinds[k] == TokenType::NonZeroJump,
    ensures
        open_before(kinds, k),
{
    let p = kinds.take(k + 1);
    assert(depth(p) >= 0);
    assert(p.drop_last() =~= kinds.take(k));
    assert(depth(kinds.take(k)) >= 1);
    lemma_depth_positive_open(kinds.take(k));
    let j = choose|j: int| 0 <= j < k && kinds.take(k)[j] == TokenType::ZeroJump;
    assert(kinds[j] == TokenType::ZeroJump);
}

pub proof fn lemma_depth_positive_open(kinds: Seq<TokenType>)
    requires
        depth(kinds) > 0,
    ensures
        exists|j: int| 0 <= j < kinds.len() && kinds[j] == TokenType::ZeroJump,
    decreases kinds.len(),
{
    if kinds.last() != TokenType::ZeroJump {
        lemma_depth_positive_open(kinds.drop_last());
        let j = choose|j: int| 0 <= j < kinds.drop_last().len() && kinds.drop_last()[j] == TokenType::ZeroJump;
        assert(kinds[j] == kinds.drop_last()[j]);
    }
}

/// Pairs each bracket of the program with its partner: `[` records the index
/// of the `]` that closes it, `]` records the index of the `[` it jumps back to.
fn cross_reference(operations: &[Operation]) -> (jumps: Vec<Jumps>)
    requires
        closes_follow_opens(kinds_of(operations_view(operations@))),
    ensures
        jumps@ == xref(kinds_of(operations_view(operations@))),
{
    let ghost kinds = kinds_of(operations_view(operations@));
    let mut jumps: Vec<Jumps> = Vec::new();
    let mut k: usize = 0;
    while k < operations.len()
        invariant
            kinds == kinds_of(operations_view(operations@)),
            closes_follow_opens(kinds),
            k <= operations.len(),
            jumps@ == xref(kinds.take(k as int)),
        decreases operations.len() - k,
    {
        let ghost prefix = kinds.take(k as int);
        assert(kinds.take(k + 1).drop_last() =~= prefix);
        let t = operations[k].token_type;
        let ghost before = jumps@;
        assert(t == kinds[k as int]);
        assert(xref(kinds.take(k + 1)) == xref_step(xref(prefix), t));
        if t == TokenType::ZeroJump {
            jumps.push(Jumps::Condition(Condition { addr: 0 }));
        } else if t == TokenType::NonZeroJump {
            let len = jumps.len();
            proof {
                assert(open_before(kinds, k as int));
                let j = choose|j: int| 0 <= j < k && kinds[j] == TokenType::ZeroJump;
                assert(prefix[j] == TokenType::ZeroJump);
                lemma_bracket_count_opens(prefix, j);
                lemma_xref_len(prefix);
                lemma_last_open_before(jumps@, len as int);
            }
            let mut last_condition: usize = 0;
            let mut found = false;
            let mut j: usize = len;
            while j > 0 && !found
                invariant
                    j <= len == jumps.len(),
                    jumps@ == before,
                    !found ==> last_open_before(jumps@, len as int) == last_open_before(jumps@, j as int),
                    found ==> last_open_before(jumps@, len as int) == last_condition,
                    !found ==> last_condition == 0,
                    last_condition < len,
                decreases j + if found {
                    0int
                } else {
                    1int
                },
            {
                if jumps[j - 1] == (Jumps::Condition(Condition { addr: 0 })) {
                    last_condition = j - 1;
                    found = true;
                } else {
                    j -= 1;
                }
            }
            assert(last_condition == last_open_before(before, len as int));
            assert(len > 0);
            if let Jumps::Condition(_) = jumps[last_condition] {
                jumps.set(last_condition, Jumps::Condition(Condition { addr: len }));
            }
            jumps.push(Jumps::Forward(Forward { back_addr: last_condition }));
            assert(jumps@ == xref_step(before, t));
        }
        k += 1;
    }
    assert(kinds.take(operations.len() as int) =~= kinds);
    jumps
}

/// Why no assembly can be generated for a sequence of operations.
#[derive(Debug, Clone, Copy, PartialEq, Eq, Structural)]
pub enum CodeGenError {
    /// a `]` comes before any `[`
    UnmatchedClose,
    /// the operation at this index has no tape to work on
    NoTape { op: usize },
    /// the size in bytes of the tape of this operation does not fit in a machine word
    TapeTooLarge { op: usize },
    /// the tape of this pointer move has no cells
    EmptyTape { op: usize },
    /// no `[` is left to pair with the bracket at this index
    ConditionNotFound { op: usize },
    /// no `]` is left to pair with the bracket at this index
    ForwardNotFound { op: usize },
    /// the `@` at this index carries no tape
    NoTapeSelected { op: usize },
    /// a preprocessor token reached code generation
    Unexpected { op: usize, token_type: TokenType },
    /// an identifier reached code generation
    IdentNotImplemented { op: usize },
    /// the tape named by this operation is not declared
    TapeNotDefined { op: usize },
}

/// The name of a token kind, as it appears in the comment before its code.
pub open spec fn kind_name(t: TokenType) -> Seq<char> {
    match t {
        TokenType::Ident => "Ident"@,
        TokenType::MacroDecl => "MacroDecl"@,
        TokenType::PointerLeft => "PointerLeft"@,
        TokenType::PointerRight => "PointerRight"@,
        TokenType::PointerReset => "PointerReset"@,
        TokenType::Add => "Add"@,
        TokenType::Sub => "Sub"@,
        TokenType::ReadByte => "ReadByte"@,
        TokenType::WriteByte => "WriteByte"@,
        TokenType::Clear => "Clear"@,
        TokenType::BaseMemAddr => "BaseMemAddr"@,
        TokenType::MemAddr => "MemAddr"@,
        TokenType::ZeroJump => "ZeroJump"@,
        TokenType::NonZeroJump => "NonZeroJump"@,
        TokenType::Syscall => "Syscall"@,
        TokenType::NewLine => "NewLine"@,
        TokenType::Push => "Push"@,
        TokenType::Pop => "Pop"@,
        TokenType::Discard => "Discard"@,
        TokenType::IntLit => "IntLit"@,
        TokenType::StringLit => "StringLit"@,
        TokenType::IfdefMacro => "IfdefMacro"@,
        TokenType::IfNdefMacro => "IfNdefMacro"@,
        TokenType::ElseMacro => "ElseMacro"@,
        TokenType::EndifMacro => "EndifMacro"@,
        TokenType::IncludeMacro => "IncludeMacro"@,
        TokenType::IncludePath => "IncludePath"@,
        TokenType::TapeDecl => "TapeDecl"@,
        TokenType::CellSize => "CellSize"@,
        TokenType::CurrentTape => "CurrentTape"@,
        TokenType::TapeName => "TapeName"@,
    }
}

/// The name of a token kind.
pub fn kind_name_str(t: TokenType) -> (s: &'static str)
    ensures
        s@ == kind_name(t),
{
    match t {
        TokenType::Ident => "Ident",
        TokenType::MacroDecl => "MacroDecl",
        TokenType::PointerLeft => "PointerLeft",
        TokenType::PointerRight => "PointerRight",
        TokenType::PointerReset => "PointerReset",
        TokenType::Add => "Add",
        TokenType::Sub => "Sub",
        TokenType::ReadByte => "ReadByte",
        TokenType::WriteByte => "WriteByte",
        TokenType::Clear => "Clear",
        TokenType::BaseMemAddr => "BaseMemAddr",
        TokenType::MemAddr => "MemAddr",
        TokenType::ZeroJump => "ZeroJump",
        TokenType::NonZeroJump => "NonZeroJump",
        TokenType::Syscall => "Syscall",
        TokenType::NewLine => "NewLine",
        TokenType::Push => "Push",
        TokenType::Pop => "Pop",
        TokenType::Discard => "Discard",
        TokenType::IntLit => "IntLit",
        TokenType::StringLit => "StringLit",
        TokenType::IfdefMacro => "IfdefMacro",
        TokenType::IfNdefMacro => "IfNdefMacro",
        TokenType::ElseMacro => "ElseMacro",
        TokenType::EndifMacro => "EndifMacro",
        TokenType::IncludeMacro => "IncludeMacro",
        TokenType::IncludePath => "IncludePath",
        TokenType::TapeDecl => "TapeDecl",
        TokenType::CellSize => "CellSize",
        TokenType::CurrentTape => "CurrentTape",
        TokenType::TapeName => "TapeName",
    }
}

/// The operand-size keyword of a cell width.
pub open spec fn cell_word(s: Size) -> Seq<char> {
    match s {
        Size::Byte => "BYTE"@,
        Size::Word => "WORD"@,
        Size::Dword => "DWORD"@,
        Size::Qword => "QWORD"@,
    }
}

fn cell_word_str(s: Size) -> (r: &'static str)
    ensures
        r@ == cell_word(s),
{
    match s {
        Size::Byte => "BYTE",
        Size::Word => "WORD",
        Size::Dword => "DWORD",
        Size::Qword => "QWORD",
    }
}

/// The part of `rbx` as wide as a cell.
pub open spec fn reg_b(s: Size) -> Seq<char> {
    match s {
        Size::Byte => "bl"@,
        Size::Word => "bx"@,
        Size::Dword => "ebx"@,
        Size::Qword => "rbx"@,
    }
}

fn reg_b_str(s: Size) -> (r: &'static str)
    ensures
        r@ == reg_b(s),
{
    match s {
        Size::Byte => "bl",
        Size::Word => "bx",
        Size::Dword => "ebx",
        Size::Qword => "rbx",
    }
}

/// The part of `rdx` as wide as a cell.
pub open spec fn reg_d(s: Size) -> Seq<char> {
    match s {
        Size::Byte => "dl"@,
        Size::Word => "dx"@,
        Size::Dword => "edx"@,
        Size::Qword => "rdx"@,
    }
}

fn reg_d_str(s: Size) -> (r: &'static str)
    ensures
        r@ == reg_d(s),
{
    match s {
        Size::Byte => "dl",
        Size::Word => "dx",
        Size::Dword => "edx",
        Size::Qword => "rdx",
    }
}

fn cell_bytes(s: Size) -> (n: usize)
    ensures
        n == size_bytes(s),
{
    match s {
        Size::Byte => 1,
        Size::Word => 2,
        Size::Dword => 4,
        Size::Qword => 8,
    }
}

/// `line` repeated `n` times.
pub open spec fn repeat(line: Seq<char>, n: nat) -> Seq<char>
    decreases n,
{
    if n == 0 {
        seq![]
    } else {
        repeat(line, (n - 1) as nat) + line
    }
}

/// Loads the address of the current cell of tape `name` into `rax`.
pub open spec fn cell_addr(name: Seq<char>) -> Seq<char> {
    "    mov rax, "@ + name + "\n"@ + "    add rax, QWORD["@ + name + "_pointer]\n"@
}

/// The comment that heads the code of an operation.
pub open spec fn header_text(t: TokenType, count: nat, name: Seq<char>) -> Seq<char> {
    "    ; ---------   "@ + kind_name(t) + " x "@ + decimal(count) + " ( "@ + name
        + " )  --------- ;\n"@
}

/// Moves the pointer of tape `name`, whose cells take `size` bytes in all,
/// right by `shift` bytes, wrapping past its end back to its start.
pub open spec fn pointer_right_text(name: Seq<char>, i: nat, size: nat, shift: nat) -> Seq<char> {
    "    mov rax, QWORD["@ + name + "_pointer]\n"@
        + "    add rax, "@ + decimal(shift) + "\n"@
        + "    cmp rax, "@ + decimal(size) + "\n"@
        + "    jb .skip_"@ + decimal(i) + "\n"@
        + "    sub rax, "@ + decimal(size) + "\n"@
        + "    .skip_"@ + decimal(i) + ":\n"@
        + "    mov QWORD["@ + name + "_pointer], rax\n"@
}

/// Moves the pointer of tape `name`, whose cells take `size` bytes in all,
/// left by `shift` bytes, wrapping past its start back to its end.
pub open spec fn pointer_left_text(name: Seq<char>, i: nat, size: nat, shift: nat) -> Seq<char> {
    "    mov rax, QWORD["@ + name + "_pointer]\n"@
        + "    sub rax, "@ + decimal(shift) + "\n"@
        + "    jae .skip_"@ + decimal(i) + "\n"@
        + "    add rax, "@ + decimal(size) + "\n"@
        + "    .skip_"@ + decimal(i) + ":\n"@
        + "    mov QWORD["@ + name + "_pointer], rax\n"@
}

/// The pointer, in bytes, that `pointer_right_text` leaves: `ptr + shift`,
/// less `size` when that reaches `size`.
pub open spec fn right_move_result(ptr: int, size: int, shift: int) -> int {
    if ptr + shift < size {
        ptr + shift
    } else {
        ptr + shift - size
    }
}

/// The pointer, in bytes, that `pointer_left_text` leaves: `ptr - shift`,
/// plus `size` when that falls below 0.
pub open spec fn left_move_result(ptr: int, size: int, shift: int) -> int {
    if ptr - shift >= 0 {
        ptr - shift
    } else {
        ptr - shift + size
    }
}

/// Stores the bytes of a string into consecutive cells.
pub open spec fn string_bytes_text(s: Seq<char>) -> Seq<char>
    decreases s.len(),
{
    if s.len() == 0 {
        seq![]
    } else {
        string_bytes_text(s.drop_last()) + "    mov BYTE [rax], "@ + decimal(s.last() as nat) + "\n"@
            + "    add rax, 1\n"@
    }
}

/// Stores the address of the current cell into it.
pub open spec fn mem_addr_text(name: Seq<char>) -> Seq<char> {
    cell_addr(name) + "    mov rbx, rax\n"@ + "    mov QWORD[rax], rbx\n"@
}

/// Stores the base address of the tape into the current cell.
pub open spec fn base_addr_text(name: Seq<char>) -> Seq<char> {
    cell_addr(name) + "    mov rbx, "@ + name + "\n"@ + "    mov QWORD[rax], rbx\n"@
}

/// Sets the pointer of the tape to its first cell.
pub open spec fn reset_text(name: Seq<char>) -> Seq<char> {
    "    mov QWORD["@ + name + "_pointer], 0\n"@
}

/// Performs the system call described by the four words at the current cell
/// and pushes its result onto the stack.
pub open spec fn syscall_text(name: Seq<char>) -> Seq<char> {
    "    mov rbp, "@ + name + "\n"@ + "    add rbp, QWORD["@ + name + "_pointer]\n"@
        + "    mov rax, QWORD[rbp]\n"@ + "    add rbp, 8\n"@ + "    mov rdi, QWORD[rbp]\n"@
        + "    add rbp, 8\n"@ + "    mov rsi, QWORD[rbp]\n"@ + "    add rbp, 8\n"@
        + "    mov rdx, QWORD[rbp]\n"@ + "    syscall\n"@ + "    push rax\n"@
}

/// Sets the current cell to 0.
pub open spec fn clear_text(name: Seq<char>, size: Size) -> Seq<char> {
    "   mov rax, "@ + name + "\n"@ + "   add rax, QWORD["@ + name + "_pointer]\n"@ + "   mov "@
        + cell_word(size) + "[rax], 0\n"@
}

/// Adds `n` to the current cell.
pub open spec fn add_text(name: Seq<char>, size: Size, n: nat) -> Seq<char> {
    cell_addr(name) + "    add "@ + cell_word(size) + " [rax], "@ + decimal(n) + "\n"@
}

/// Subtracts `n` from the current cell.
pub open spec fn sub_text(name: Seq<char>, size: Size, n: nat) -> Seq<char> {
    cell_addr(name) + "    sub "@ + cell_word(size) + "[rax], "@ + decimal(n) + "\n"@
}

/// Stores the literal `v` into the current cell.
pub open spec fn int_lit_text(name: Seq<char>, size: Size, v: Seq<char>) -> Seq<char> {
    cell_addr(name) + "    mov "@ + cell_word(size) + "[rax], "@ + v + "\n"@
}

/// Stores the bytes of `v` from the current cell on.
pub open spec fn string_lit_text(name: Seq<char>, v: Seq<char>) -> Seq<char> {
    cell_addr(name) + string_bytes_text(v)
}

/// Pushes the current cell `n` times onto the stack.
pub open spec fn push_text(name: Seq<char>, size: Size, n: nat) -> Seq<char> {
    cell_addr(name) + "    mov rbx, 0\n"@ + "    mov "@ + reg_b(size) + ", "@ + cell_word(size)
        + "[rax]\n"@ + repeat("    push rbx\n"@, n)
}

/// Pops `n` times from the stack and stores the last value into the current cell.
pub open spec fn pop_text(name: Seq<char>, size: Size, n: nat) -> Seq<char> {
    cell_addr(name) + "    mov rbx, 0\n"@ + repeat("    pop rbx\n"@, n) + "    mov "@ + cell_word(size)
        + "[rax], "@ + reg_b(size) + "\n"@
}

/// Drops the value on top of the stack.
pub open spec fn discard_text() -> Seq<char> {
    "    add rsp, 8\n"@
}

/// Writes the byte at the current cell to standard output.
pub open spec fn write_text(name: Seq<char>) -> Seq<char> {
    "    mov rax, 1\n"@ + "    mov rdi, 1\n"@ + "    mov rsi, "@ + name + "\n"@ + "    add rsi, QWORD["@
        + name + "_pointer]\n"@ + "    mov rdx, 1\n"@ + "    syscall\n"@
}

/// Reads a byte from standard input into the current cell.
pub open spec fn read_text(name: Seq<char>) -> Seq<char> {
    "    mov rax, 0\n"@ + "    mov rdi, 0\n"@ + "    mov rsi, "@ + name + "\n"@ + "    add rsi, QWORD["@
        + name + "_pointer]\n"@ + "    mov rdx, 1\n"@ + "    syscall\n"@
}

/// Loads the current cell into `rdx` and compares it with 0.
pub open spec fn test_cell_text(name: Seq<char>, size: Size) -> Seq<char> {
    cell_addr(name) + "    mov rdx, 0\n"@ + "    mov "@ + reg_d(size) + ", "@ + cell_word(size)
        + "[rax]\n"@ + "    cmp rdx, 0\n"@
}

/// `[`: jumps past the matching `]` when the current cell is 0.
pub open spec fn open_text(name: Seq<char>, size: Size, forward: nat, condition: nat) -> Seq<char> {
    test_cell_text(name, size) + "    je .forward_"@ + decimal(forward) + "\n"@ + "    .condition_"@
        + decimal(condition) + ":\n"@
}

/// `]`: jumps back to the matching `[` when the current cell is not 0.
pub open spec fn close_text(name: Seq<char>, size: Size, condition: nat, forward: nat) -> Seq<char> {
    test_cell_text(name, size) + "    jne .condition_"@ + decimal(condition) + "\n"@ + "    .forward_"@
        + decimal(forward) + ":\n"@
}

/// Stores the address of tape `v` into the current cell.
pub open spec fn tape_addr_text(name: Seq<char>, v: Seq<char>) -> Seq<char> {
    cell_addr(name) + "    mov rbx, "@ + v + "\n"@ + "    mov QWORD[rax], rbx\n"@
}

/// The first index from `k` on of a bracket entry of the given kind.
pub open spec fn find_jump_from(js: Seq<Jumps>, k: int, want_condition: bool) -> Option<int>
    decreases js.len() - k,
{
    if k < 0 || k >= js.len() {
        None
    } else if (js[k] is Condition) == want_condition {
        Some(k)
    } else {
        find_jump_from(js, k + 1, want_condition)
    }
}

/// Whether a tape called `name` is declared.
pub open spec fn tape_declared(tapes: Seq<TapeModel>, name: Seq<char>) -> bool {
    exists|k: int| 0 <= k < tapes.len() && tapes[k].name == name
}

#[verifier::opaque]
/// The code of operation `i` that works on `tape`, after its header, with the
/// new current tape and the new search start for brackets.
pub open spec fn body_text(
    op: OperationModel,
    i: int,
    tape: TapeModel,
    tapes: Seq<TapeModel>,
    jumps: Seq<Jumps>,
    cur: int,
    last: int,
) -> Result<(Seq<char>, int, int), CodeGenError> {
    let name = tape.name;
    let cs = size_bytes(tape.size);
    let mem = tape.cell_count * cs;
    let n = op.count;
    let at = i as usize;
    match op.token_type {
        TokenType::PointerRight => if tape.cell_count == 0 {
            Err(CodeGenError::EmptyTape { op: at })
        } else {
            Ok((pointer_right_text(name, i as nat, mem, (n % tape.cell_count) * cs), cur, last))
        },
        TokenType::PointerLeft => if tape.cell_count == 0 {
            Err(CodeGenError::EmptyTape { op: at })
        } else {
            Ok((pointer_left_text(name, i as nat, mem, (n % tape.cell_count) * cs), cur, last))
        },
        TokenType::MemAddr => Ok((mem_addr_text(name), cur, last)),
        TokenType::BaseMemAddr => Ok((base_addr_text(name), cur, last)),
        TokenType::PointerReset => Ok((reset_text(name), cur, last)),
        TokenType::Syscall => Ok((syscall_text(name), cur, last)),
        TokenType::Clear => Ok((clear_text(name, tape.size), cur, last)),
        TokenType::Add => Ok((add_text(name, tape.size, n), cur, last)),
        TokenType::Sub => Ok((sub_text(name, tape.size, n), cur, last)),
        TokenType::IntLit => Ok((int_lit_text(name, tape.size, op.values[0]), cur, last)),
        TokenType::StringLit => Ok((string_lit_text(name, op.values[0]), cur, last)),
        TokenType::Push => Ok((push_text(name, tape.size, n), cur, last)),
        TokenType::Pop => Ok((pop_text(name, tape.size, n), cur, last)),
        TokenType::Discard => Ok((discard_text(), cur, last)),
        TokenType::WriteByte => Ok((write_text(name), cur, last)),
        TokenType::ReadByte => Ok((read_text(name), cur, last)),
        TokenType::ZeroJump => {
            let cid = match find_jump_from(jumps, last, true) {
                Some(j) => j,
                None => 0,
            };
            if cid >= jumps.len() || !(jumps[cid] is Condition) {
                Err(CodeGenError::ConditionNotFound { op: at })
            } else {
                let fwd = match jumps[cid] {
                    Jumps::Condition(c) => c.addr,
                    Jumps::Forward(f) => f.back_addr,
                };
                Ok((open_text(name, tape.size, fwd as nat, cid as nat), cur, cid + 1))
            }
        },
        TokenType::NonZeroJump => {
            let fid = match find_jump_from(jumps, last, false) {
                Some(j) => j,
                None => 0,
            };
            if fid >= jumps.len() || !(jumps[fid] is Forward) {
                Err(CodeGenError::ForwardNotFound { op: at })
            } else {
                let back = match jumps[fid] {
                    Jumps::Condition(c) => c.addr,
                    Jumps::Forward(f) => f.back_addr,
                };
                Ok((close_text(name, tape.size, back as nat, fid as nat), cur, fid + 1))
            }
        },
        TokenType::CurrentTape => match op.tape {
            Some(t) => Ok((
                seq![],
                match find_tape(tapes, t.name) {
                    Some(k) => k,
                    None => cur,
                },
                last,
            )),
            None => Err(CodeGenError::NoTapeSelected { op: at }),
        },
        TokenType::NewLine => Ok((seq![], cur, last)),
        TokenType::TapeName => if tape_declared(tapes, op.values[0]) {
            Ok((tape_addr_text(name, op.values[0]), cur, last))
        } else {
            Err(CodeGenError::TapeNotDefined { op: at })
        },
        TokenType::Ident => Err(CodeGenError::IdentNotImplemented { op: at }),
        _ => Err(CodeGenError::Unexpected { op: at, token_type: op.token_type }),
    }
}

#[verifier::opaque]
/// The code of operation `i` with its header, the new current tape and the new
/// search start for brackets.
pub open spec fn op_text(
    op: OperationModel,
    i: int,
    tapes: Seq<TapeModel>,
    jumps: Seq<Jumps>,
    cur: int,
    last: int,
) -> Result<(Seq<char>, int, int), CodeGenError> {
    let chosen = match op.tape {
        Some(t) => Some(t),
        None => if 0 <= cur < tapes.len() {
            Some(tapes[cur])
        } else {
            None
        },
    };
    match chosen {
        None => Err(CodeGenError::NoTape { op: i as usize }),
        Some(tape) => if tape.cell_count * size_bytes(tape.size) > usize::MAX {
            Err(CodeGenError::TapeTooLarge { op: i as usize })
        } else {
            let header = if op.token_type != TokenType::NewLine {
                header_text(op.token_type, op.count, tape.name)
            } else {
                seq![]
            };
            match body_text(op, i, tape, tapes, jumps, cur, last) {
                Ok((body, c, l)) => Ok((header + body, c, l)),
                Err(e) => Err(e),
            }
        },
    }
}

/// The code of the operations from index `i` on.
pub open spec fn gen_from(
    ops: Seq<OperationModel>,
    tapes: Seq<TapeModel>,
    jumps: Seq<Jumps>,
    i: int,
    cur: int,
    last: int,
) -> Result<Seq<char>, CodeGenError>
    decreases ops.len() - i,
{
    if i < 0 || i >= ops.len() {
        Ok(seq![])
    } else {
        match op_text(ops[i], i, tapes, jumps, cur, last) {
            Ok((t, c, l)) => match gen_from(ops, tapes, jumps, i + 1, c, l) {
                Ok(rest) => Ok(t + rest),
                Err(e) => Err(e),
            },
            Err(e) => Err(e),
        }
    }
}

/// The assembly of a program: the code of each operation in order, starting on
/// the first tape.
pub open spec fn generate_spec(ops: Seq<OperationModel>, tapes: Seq<TapeModel>) -> Result<
    Seq<char>,
    CodeGenError,
> {
    let kinds = kinds_of(ops);
    if !closes_follow_opens(kinds) {
        Err(CodeGenError::UnmatchedClose)
    } else {
        gen_from(ops, tapes, xref(kinds), 0, 0, 0)
    }
}

/// Appends `cell_addr`.
fn emit_cell_addr(out: &mut String, name: &String)
    ensures
        final(out)@ == old(out)@ + cell_addr(name@),
{
    out.append("    mov rax, ");
    out.append(name.as_str());
    out.append("\n");
    out.append("    add rax, QWORD[");
    out.append(name.as_str());
    out.append("_pointer]\n");
}

/// Appends `header_text`.
fn emit_header(out: &mut String, t: TokenType, count: usize, name: &String)
    ensures
        final(out)@ == old(out)@ + header_text(t, count as nat, name@),
{
    out.append("    ; ---------   ");
    out.append(kind_name_str(t));
    out.append(" x ");
    push_decimal(out, count);
    out.append(" ( ");
    out.append(name.as_str());
    out.append(" )  --------- ;\n");
}

/// Appends `pointer_right_text`.
#[verifier::spinoff_prover]
#[verifier::rlimit(50)]
fn emit_pointer_right(out: &mut String, name: &String, i: usize, size: usize, shift: usize)
    ensures
        final(out)@ == old(out)@ + pointer_right_text(name@, i as nat, size as nat, shift as nat),
{
    let ghost start = out@;
    let ghost n = name@;
    out.append("    mov rax, QWORD[");
    out.append(name.as_str());
    out.append("_pointer]\n");
    let ghost a = "    mov rax, QWORD["@ + n + "_pointer]\n"@;
    assert(out@ =~= start + a);
    out.append("    add rax, ");
    push_decimal(out, shift);
    out.append("\n");
    let ghost b = a + "    add rax, "@ + decimal(shift as nat) + "\n"@;
    assert(out@ =~= start + b);
    out.append("    cmp rax, ");
    push_decimal(out, size);
    out.append("\n");
    let ghost c = b + "    cmp rax, "@ + decimal(size as nat) + "\n"@;
    assert(out@ =~= start + c);
    out.append("    jb .skip_");
    push_decimal(out, i);
    out.append("\n");
    let ghost d = c + "    jb .skip_"@ + decimal(i as nat) + "\n"@;
    assert(out@ =~= start + d);
    out.append("    sub rax, ");
    push_decimal(out, size);
    out.append("\n");
    let ghost e = d + "    sub rax, "@ + decimal(size as nat) + "\n"@;
    assert(out@ =~= start + e);
    out.append("    .skip_");
    push_decimal(out, i);
    out.append(":\n");
    let ghost f = e + "    .skip_"@ + decimal(i as nat) + ":\n"@;
    assert(out@ =~= start + f);
    out.append("    mov QWORD[");
    out.append(name.as_str());
    out.append("_pointer], rax\n");
    let ghost g = f + "    mov QWORD["@ + n + "_pointer], rax\n"@;
    assert(out@ =~= start + g);
    assert(g =~= pointer_right_text(n, i as nat, size as nat, shift as nat));
}

/// Appends `pointer_left_text`.
#[verifier::spinoff_prover]
#[verifier::rlimit(50)]
fn emit_pointer_left(out: &mut String, name: &String, i: usize, size: usize, shift: usize)
    ensures
        final(out)@ == old(out)@ + pointer_left_text(name@, i as nat, size as nat, shift as nat),
{
    let ghost start = out@;
    let ghost n = name@;
    out.append("    mov rax, QWORD[");
    out.append(name.as_str());
    out.append("_pointer]\n");
    let ghost a = "    mov rax, QWORD["@ + n + "_pointer]\n"@;
    assert(out@ =~= start + a);
    out.append("    sub rax, ");
    push_decimal(out, shift);
    out.append("\n");
    let ghost b = a + "    sub rax, "@ + decimal(shift as nat) + "\n"@;
    assert(out@ =~= start + b);
    out.append("    jae .skip_");
    push_decimal(out, i);
    out.append("\n");
    let ghost c = b + "    jae .skip_"@ + decimal(i as nat) + "\n"@;
    assert(out@ =~= start + c);
    out.append("    add rax, ");
    push_decimal(out, size);
    out.append("\n");
    let ghost d = c + "    add rax, "@ + decimal(size as nat) + "\n"@;
    assert(out@ =~= start + d);
    out.append("    .skip_");
    push_decimal(out, i);
    out.append(":\n");
    let ghost e = d + "    .skip_"@ + decimal(i as nat) + ":\n"@;
    assert(out@ =~= start + e);
    out.append("    mov QWORD[");
    out.append(name.as_str());
    out.append("_pointer], rax\n");
    let ghost f = e + "    mov QWORD["@ + n + "_pointer], rax\n"@;
    assert(out@ =~= start + f);
    assert(f =~= pointer_left_text(n, i as nat, size as nat, shift as nat));
}

/// Appends `mem_addr_text`.
fn emit_mem_addr(out: &mut String, name: &String)
    ensures
        final(out)@ == old(out)@ + mem_addr_text(name@),
{
    emit_cell_addr(out, name);
    out.append("    mov rbx, rax\n");
    out.append("    mov QWORD[rax], rbx\n");
}

/// Appends `base_addr_text`.
fn emit_base_addr(out: &mut String, name: &String)
    ensures
        final(out)@ == old(out)@ + base_addr_text(name@),
{
    emit_cell_addr(out, name);
    out.append("    mov rbx, ");
    out.append(name.as_str());
    out.append("\n");
    out.append("    mov QWORD[rax], rbx\n");
}

/// Appends `reset_text`.
fn emit_reset(out: &mut String, name: &String)
    ensures
        final(out)@ == old(out)@ + reset_text(name@),
{
    out.append("    mov QWORD[");
    out.append(name.as_str());
    out.append("_pointer], 0\n");
}

/// Appends `syscall_text`.
fn emit_syscall(out: &mut String, name: &String)
    ensures
        final(out)@ == old(out)@ + syscall_text(name@),
{
    out.append("    mov rbp, ");
    out.append(name.as_str());
    out.append("\n");
    out.append("    add rbp, QWORD[");
    out.append(name.as_str());
    out.append("_pointer]\n");
    out.append("    mov rax, QWORD[rbp]\n");
    out.append("    add rbp, 8\n");
    out.append("    mov rdi, QWORD[rbp]\n");
    out.append("    add rbp, 8\n");
    out.append("    mov rsi, QWORD[rbp]\n");
    out.append("    add rbp, 8\n");
    out.append("    mov rdx, QWORD[rbp]\n");
    out.append("    syscall\n");
    out.append("    push rax\n");
}

/// Appends `clear_text`.
fn emit_clear(out: &mut String, name: &String, size: Size)
    ensures
        final(out)@ == old(out)@ + clear_text(name@, size),
{
    out.append("   mov rax, ");
    out.append(name.as_str());
    out.append("\n");
    out.append("   add rax, QWORD[");
    out.append(name.as_str());
    out.append("_pointer]\n");
    out.append("   mov ");
    out.append(cell_word_str(size));
    out.append("[rax], 0\n");
}

/// Appends `add_text`.
fn emit_add(out: &mut String, name: &String, size: Size, n: usize)
    ensures
        final(out)@ == old(out)@ + add_text(name@, size, n as nat),
{
    emit_cell_addr(out, name);
    out.append("    add ");
    out.append(cell_word_str(size));
    out.append(" [rax], ");
    push_decimal(out, n);
    out.append("\n");
}

/// Appends `sub_text`.
fn emit_sub(out: &mut String, name: &String, size: Size, n: usize)
    ensures
        final(out)@ == old(out)@ + sub_text(name@, size, n as nat),
{
    emit_cell_addr(out, name);
    out.append("    sub ");
    out.append(cell_word_str(size));
    out.append("[rax], ");
    push_decimal(out, n);
    out.append("\n");
}

/// Appends `int_lit_text`.
fn emit_int_lit(out: &mut String, name: &String, size: Size, v: &String)
    ensures
        final(out)@ == old(out)@ + int_lit_text(name@, size, v@),
{
    emit_cell_addr(out, name);
    out.append("    mov ");
    out.append(cell_word_str(size));
    out.append("[rax], ");
    out.append(v.as_str());
    out.append("\n");
}

/// Appends `write_text`.
fn emit_write(out: &mut String, name: &String)
    ensures
        final(out)@ == old(out)@ + write_text(name@),
{
    out.append("    mov rax, 1\n");
    out.append("    mov rdi, 1\n");
    out.append("    mov rsi, ");
    out.append(name.as_str());
    out.append("\n");
    out.append("    add rsi, QWORD[");
    out.append(name.as_str());
    out.append("_pointer]\n");
    out.append("    mov rdx, 1\n");
    out.append("    syscall\n");
}

/// Appends `read_text`.
fn emit_read(out: &mut String, name: &String)
    ensures
        final(out)@ == old(out)@ + read_text(name@),
{
    out.append("    mov rax, 0\n");
    out.append("    mov rdi, 0\n");
    out.append("    mov rsi, ");
    out.append(name.as_str());
    out.append("\n");
    out.append("    add rsi, QWORD[");
    out.append(name.as_str());
    out.append("_pointer]\n");
    out.append("    mov rdx, 1\n");
    out.append("    syscall\n");
}

/// Appends `test_cell_text`.
fn emit_test_cell(out: &mut String, name: &String, size: Size)
    ensures
        final(out)@ == old(out)@ + test_cell_text(name@, size),
{
    emit_cell_addr(out, name);
    out.append("    mov rdx, 0\n");
    out.append("    mov ");
    out.append(reg_d_str(size));
    out.append(", ");
    out.append(cell_word_str(size));
    out.append("[rax]\n");
    out.append("    cmp rdx, 0\n");
}

/// Appends `open_text`.
fn emit_open(out: &mut String, name: &String, size: Size, forward: usize, condition: usize)
    ensures
        final(out)@ == old(out)@ + open_text(name@, size, forward as nat, condition as nat),
{
    emit_test_cell(out, name, size);
    out.append("    je .forward_");
    push_decimal(out, forward);
    out.append("\n");
    out.append("    .condition_");
    push_decimal(out, condition);
    out.append(":\n");
}

/// Appends `close_text`.
fn emit_close(out: &mut String, name: &String, size: Size, condition: usize, forward: usize)
    ensures
        final(out)@ == old(out)@ + close_text(name@, size, condition as nat, forward as nat),
{
    emit_test_cell(out, name, size);
    out.append("    jne .condition_");
    push_decimal(out, condition);
    out.append("\n");
    out.append("    .forward_");
    push_decimal(out, forward);
    out.append(":\n");
}

/// Appends `tape_addr_text`.
fn emit_tape_addr(out: &mut String, name: &String, v: &String)
    ensures
        final(out)@ == old(out)@ + tape_addr_text(name@, v@),
{
    emit_cell_addr(out, name);
    out.append("    mov rbx, ");
    out.append(v.as_str());
    out.append("\n");
    out.append("    mov QWORD[rax], rbx\n");
}

/// Appends `repeat(line, n)`.
fn emit_repeat(out: &mut String, line: &str, n: usize)
    ensures
        final(out)@ == old(out)@ + repeat(line@, n as nat),
{
    let ghost start = out@;
    let mut k: usize = 0;
    while k < n
        invariant
            k <= n,
            out@ == start + repeat(line@, k as nat),
        decreases n - k,
    {
        out.append(line);
        k += 1;
        assert(repeat(line@, k as nat) == repeat(line@, (k - 1) as nat) + line@);
    }
}

/// Appends `push_text`.
fn emit_push(out: &mut String, name: &String, size: Size, n: usize)
    ensures
        final(out)@ == old(out)@ + push_text(name@, size, n as nat),
{
    emit_cell_addr(out, name);
    out.append("    mov rbx, 0\n");
    out.append("    mov ");
    out.append(reg_b_str(size));
    out.append(", ");
    out.append(cell_word_str(size));
    out.append("[rax]\n");
    emit_repeat(out, "    push rbx\n", n);
}

/// Appends `pop_text`.
fn emit_pop(out: &mut String, name: &String, size: Size, n: usize)
    ensures
        final(out)@ == old(out)@ + pop_text(name@, size, n as nat),
{
    emit_cell_addr(out, name);
    out.append("    mov rbx, 0\n");
    emit_repeat(out, "    pop rbx\n", n);
    out.append("    mov ");
    out.append(cell_word_str(size));
    out.append("[rax], ");
    out.append(reg_b_str(size));
    out.append("\n");
}

/// Appends `string_lit_text`.
fn emit_string_lit(out: &mut String, name: &String, v: &String)
    requires
        vstd::utf8::is_ascii_chars(v@),
    ensures
        final(out)@ == old(out)@ + string_lit_text(name@, v@),
{
    emit_cell_addr(out, name);
    let ghost start = out@;
    let sv = v.as_str();
    let n = sv.unicode_len();
    let mut k: usize = 0;
    while k < n
        invariant
            k <= n == v@.len(),
            sv@ == v@,
            vstd::utf8::is_ascii_chars(v@),
            out@ == start + string_bytes_text(v@.take(k as int)),
        decreases n - k,
    {
        let c = sv.get_char(k);
        assert(v@.take(k + 1).drop_last() =~= v@.take(k as int));
        out.append("    mov BYTE [rax], ");
        push_decimal(out, c as u32 as usize);
        out.append("\n");
        out.append("    add rax, 1\n");
        k += 1;
    }
    assert(v@.take(n as int) =~= v@);
}

pub proof fn lemma_find_jump_from(js: Seq<Jumps>, k: int, want_condition: bool)
    requires
        0 <= k,
    ensures
        find_jump_from(js, k, want_condition) matches Some(j) ==> k <= j < js.len() && (js[j] is Condition)
            == want_condition,
    decreases js.len() - k,
{
    if k < js.len() && (js[k] is Condition) != want_condition {
        lemma_find_jump_from(js, k + 1, want_condition);
    }
}

/// The first index from `from` on of a bracket entry of the given kind.
fn find_jump(jumps: &Vec<Jumps>, from: usize, want_condition: bool) -> (res: Option<usize>)
    ensures
        match find_jump_from(jumps@, from as int, want_condition) {
            Some(j) => res == Some(j as usize),
            None => res is None,
        },
        res matches Some(j) ==> from <= j < jumps.len(),
        find_jump_from(jumps@, from as int, want_condition) matches Some(j) ==> from <= j < jumps.len(),
{
    proof {
        lemma_find_jump_from(jumps@, from as int, want_condition);
    }
    let mut k = from;
    while k < jumps.len()
        invariant
            from <= k,
            find_jump_from(jumps@, from as int, want_condition) == find_jump_from(jumps@, k as int, want_condition),
        decreases jumps.len() - k,
    {
        let is_cond = match jumps[k] {
            Jumps::Condition(_) => true,
            Jumps::Forward(_) => false,
        };
        if is_cond == want_condition {
            return Some(k);
        }
        k += 1;
    }
    None
}

/// Whether a tape called `name` is declared.
fn is_tape_declared(tapes: &Vec<Tape>, name: &String) -> (res: bool)
    ensures
        res == tape_declared(tapes_view(tapes@), name@),
{
    let ghost tv = tapes_view(tapes@);
    let mut k: usize = 0;
    while k < tapes.len()
        invariant
            tv == tapes_view(tapes@),
            k <= tapes.len(),
            forall|m: int| 0 <= m < k ==> tv[m].name != name@,
        decreases tapes.len() - k,
    {
        if tapes[k].name == *name {
            assert(tv[k as int].name == name@);
            return true;
        }
        k += 1;
    }
    false
}

/// Appends the code of operation `i` after its header.
fn emit_body(
    out: &mut String,
    op: &Operation,
    i: usize,
    tape: &Tape,
    tapes: &Vec<Tape>,
    jumps: &Vec<Jumps>,
    cur: &mut usize,
    last: &mut usize,
) -> (res: Result<(), CodeGenError>)
    requires
        operation_values_ok(op@),
        tape@.cell_count * size_bytes(tape@.size) <= usize::MAX,
        *old(cur) == 0 || *old(cur) < tapes.len(),
    ensures
        *final(cur) == 0 || *final(cur) < tapes.len(),
        match body_text(op@, i as int, tape@, tapes_view(tapes@), jumps@, *old(cur) as int, *old(last) as int) {
            Ok((text, c, l)) => res is Ok && final(out)@ == old(out)@ + text && *final(cur) == c && *final(last) == l,
            Err(e) => res == Err::<(), CodeGenError>(e),
        },
{
    reveal(body_text);
    let name = &tape.name;
    let size = tape.size;
    let cs = cell_bytes(size);
    let mem = tape.cell_count * cs;
    let n = op.count;
    proof {
        if op.values@.len() > 0 {
            assert(op@.values[0] == op.values@[0]@);
        }
    }
    match op.token_type {
        TokenType::PointerRight | TokenType::PointerLeft => {
            let cc = tape.cell_count;
            if cc == 0 {
                return Err(CodeGenError::EmptyTape { op: i });
            }
            let turns = n % cc;
            assert(turns * cs < cc * cs) by (nonlinear_arith)
                requires
                    turns < cc,
                    cs > 0,
            ;
            let shift = turns * cs;
            if op.token_type == TokenType::PointerRight {
                emit_pointer_right(out, name, i, mem, shift);
            } else {
                emit_pointer_left(out, name, i, mem, shift);
            }
            Ok(())
        },
        TokenType::MemAddr => {
            emit_mem_addr(out, name);
            Ok(())
        },
        TokenType::BaseMemAddr => {
            emit_base_addr(out, name);
            Ok(())
        },
        TokenType::PointerReset => {
            emit_reset(out, name);
            Ok(())
        },
        TokenType::Syscall => {
            emit_syscall(out, name);
            Ok(())
        },
        TokenType::Clear => {
            emit_clear(out, name, size);
            Ok(())
        },
        TokenType::Add => {
            emit_add(out, name, size, n);
            Ok(())
        },
        TokenType::Sub => {
            emit_sub(out, name, size, n);
            Ok(())
        },
        TokenType::IntLit => {
            emit_int_lit(out, name, size, &op.values[0]);
            Ok(())
        },
        TokenType::StringLit => {
            emit_string_lit(out, name, &op.values[0]);
            Ok(())
        },
        TokenType::Push => {
            emit_push(out, name, size, n);
            Ok(())
        },
        TokenType::Pop => {
            emit_pop(out, name, size, n);
            Ok(())
        },
        TokenType::Discard => {
            out.append("    add rsp, 8\n");
            Ok(())
        },
        TokenType::WriteByte => {
            emit_write(out, name);
            Ok(())
        },
        TokenType::ReadByte => {
            emit_read(out, name);
            Ok(())
        },
        TokenType::ZeroJump => {
            let cid = match find_jump(jumps, *last, true) {
                Some(j) => j,
                None => 0,
            };
            if cid >= jumps.len() {
                return Err(CodeGenError::ConditionNotFound { op: i });
            }
            match jumps[cid] {
                Jumps::Condition(c) => {
                    emit_open(out, name, size, c.addr, cid);
                    *last = cid + 1;
                    Ok(())
                },
                Jumps::Forward(_) => Err(CodeGenError::ConditionNotFound { op: i }),
            }
        },
        TokenType::NonZeroJump => {
            let fid = match find_jump(jumps, *last, false) {
                Some(j) => j,
                None => 0,
            };
            if fid >= jumps.len() {
                return Err(CodeGenError::ForwardNotFound { op: i });
            }
            match jumps[fid] {
                Jumps::Forward(f) => {
                    emit_close(out, name, size, f.back_addr, fid);
                    *last = fid + 1;
                    Ok(())
                },
                Jumps::Condition(_) => Err(CodeGenError::ForwardNotFound { op: i }),
            }
        },
        TokenType::CurrentTape => {
            match &op.tape {
                Some(t) => {
                    match find_tape_index(tapes, &t.name) {
                        Some(k) => {
                            *cur = k;
                        },
                        None => {},
                    }
                    assert(out@ =~= old(out)@ + Seq::<char>::empty());
                    Ok(())
                },
                None => Err(CodeGenError::NoTapeSelected { op: i }),
            }
        },
        TokenType::NewLine => {
            assert(out@ =~= old(out)@ + Seq::<char>::empty());
            Ok(())
        },
        TokenType::TapeName => {
            if is_tape_declared(tapes, &op.values[0]) {
                emit_tape_addr(out, name, &op.values[0]);
                Ok(())
            } else {
                Err(CodeGenError::TapeNotDefined { op: i })
            }
        },
        TokenType::Ident => Err(CodeGenError::IdentNotImplemented { op: i }),
        _ => Err(CodeGenError::Unexpected { op: i, token_type: op.token_type }),
    }
}

/// Appends the code of operation `i`, headed by its comment.
fn emit_operation(
    out: &mut String,
    op: &Operation,
    i: usize,
    tapes: &Vec<Tape>,
    jumps: &Vec<Jumps>,
    cur: &mut usize,
    last: &mut usize,
) -> (res: Result<(), CodeGenError>)
    requires
        operation_values_ok(op@),
        *old(cur) == 0 || *old(cur) < tapes.len(),
    ensures
        *final(cur) == 0 || *final(cur) < tapes.len(),
        match op_text(op@, i as int, tapes_view(tapes@), jumps@, *old(cur) as int, *old(last) as int) {
            Ok((text, c, l)) => res is Ok && final(out)@ == old(out)@ + text && *final(cur) == c && *final(last) == l,
            Err(e) => res == Err::<(), CodeGenError>(e),
        },
{
    reveal(op_text);
    let tape: &Tape = match &op.tape {
        Some(t) => t,
        None => {
            if *cur < tapes.len() {
                &tapes[*cur]
            } else {
                return Err(CodeGenError::NoTape { op: i });
            }
        },
    };
    let cs = cell_bytes(tape.size);
    if tape.cell_count > usize::MAX / cs {
        assert(tape.cell_count * cs > usize::MAX) by (nonlinear_arith)
            requires
                tape.cell_count > usize::MAX / cs,
                cs > 0,
        ;
        return Err(CodeGenError::TapeTooLarge { op: i });
    }
    assert(tape.cell_count * cs <= usize::MAX) by (nonlinear_arith)
        requires
            tape.cell_count <= usize::MAX / cs,
            cs > 0,
    ;
    let ghost mid = out@;
    if op.token_type != TokenType::NewLine {
        emit_header(out, op.token_type, op.count, &tape.name);
    } else {
        assert(out@ =~= mid + Seq::<char>::empty());
    }
    let ghost after_header = out@;
    let r = emit_body(out, op, i, tape, tapes, jumps, cur, last);
    proof {
        if r is Ok {
            assert(out@ =~= mid + (after_header.subrange(mid.len() as int, after_header.len() as int)
                + out@.subrange(after_header.len() as int, out@.len() as int)));
        }
    }
    r
}

/// `r` with the text `pre` put in front of it when it succeeds.
pub open spec fn prepend_text(pre: Seq<char>, r: Result<Seq<char>, CodeGenError>) -> Result<
    Seq<char>,
    CodeGenError,
> {
    match r {
        Ok(t) => Ok(pre + t),
        Err(e) => Err(e),
    }
}

/// Whether every `]` comes after some `[`.
fn closes_follow_opens_exec(operations: &Vec<Operation>) -> (res: bool)
    ensures
        res == closes_follow_opens(kinds_of(operations_view(operations@))),
{
    let ghost kinds = kinds_of(operations_view(operations@));
    let mut k: usize = 0;
    let mut seen_open = false;
    let ghost mut witness: int = 0;
    while k < operations.len()
        invariant
            kinds == kinds_of(operations_view(operations@)),
            k <= operations.len(),
            seen_open ==> 0 <= witness < k && kinds[witness] == TokenType::ZeroJump,
            !seen_open ==> forall|j: int| 0 <= j < k ==> kinds[j] != TokenType::ZeroJump,
            forall|m: int|
                0 <= m < k && #[trigger] kinds[m] == TokenType::NonZeroJump ==> open_before(kinds, m),
        decreases operations.len() - k,
    {
        let t = operations[k].token_type;
        assert(kinds[k as int] == t);
        if t == TokenType::NonZeroJump && !seen_open {
            return false;
        }
        if seen_open {
            assert(open_before(kinds, k as int));
        }
        if t == TokenType::ZeroJump && !seen_open {
            seen_open = true;
            proof {
                witness = k as int;
            }
        }
        k += 1;
    }
    true
}

/// Appends the assembly of a program to `file_content`: for each operation, a
/// comment naming it and then its code, on the tape it selects or the current one.
/// When the program is refused, `file_content` is left as it was.
pub fn generate_code(operations: Vec<Operation>, file_content: &mut String, tapes: &Vec<Tape>) -> (res:
    Result<(), CodeGenError>)
    requires
        forall|k: int| 0 <= k < operations.len() ==> operation_values_ok(#[trigger] operations[k]@),
    ensures
        match generate_spec(operations_view(operations@), tapes_view(tapes@)) {
            Ok(text) => res is Ok && final(file_content)@ == old(file_content)@ + text,
            Err(e) => res == Err::<(), CodeGenError>(e) && final(file_content)@ == old(file_content)@,
        },
{
    let ghost ops = operations_view(operations@);
    let ghost tv = tapes_view(tapes@);
    if !closes_follow_opens_exec(&operations) {
        return Err(CodeGenError::UnmatchedClose);
    }
    let jumps = cross_reference(operations.as_slice());
    let mut code = String::new();
    let mut cur: usize = 0;
    let mut last: usize = 0;
    let mut i: usize = 0;
    while i < operations.len()
        invariant
            ops == operations_view(operations@),
            tv == tapes_view(tapes@),
            forall|k: int| 0 <= k < operations.len() ==> operation_values_ok(#[trigger] operations[k]@),
            jumps@ == xref(kinds_of(ops)),
            closes_follow_opens(kinds_of(ops)),
            i <= operations.len(),
            cur == 0 || cur < tapes.len(),
            generate_spec(ops, tv) == prepend_text(code@, gen_from(ops, tv, jumps@, i as int, cur as int, last as int)),
        decreases operations.len() - i,
    {
        let ghost produced = code@;
        let ghost old_cur = cur as int;
        let ghost old_last = last as int;
        assert(ops[i as int] == operations[i as int]@);
        let r = emit_operation(&mut code, &operations[i], i, tapes, &jumps, &mut cur, &mut last);
        if r.is_err() {
            return r;
        }
        proof {
            match op_text(ops[i as int], i as int, tv, jumps@, old_cur, old_last) {
                Ok((text, c, l)) => {
                    assert(code@ == produced + text);
                    match gen_from(ops, tv, jumps@, i + 1, c, l) {
                        Ok(rest) => {
                            assert(produced + (text + rest) =~= (produced + text) + rest);
                        },
                        Err(_) => {},
                    }
                },
                Err(_) => {},
            }
        }
        i += 1;
    }
    assert(code@ + Seq::<char>::empty() =~= code@);
    file_content.append(code.as_str());
    Ok(())
}

/// The texts that code generation reads are present: literals and tape names
/// carry a value, and string literals are ASCII.
pub open spec fn operation_values_ok(op: OperationModel) -> bool {
    &&& (op.token_type == TokenType::IntLit || op.token_type == TokenType::StringLit
        || op.token_type == TokenType::TapeName) ==> op.values.len() > 0
    &&& op.token_type == TokenType::StringLit ==> vstd::utf8::is_ascii_chars(op.values[0])
}


/// The kinds of operation that have code: all but names and the tokens that
/// preprocessing consumes.
pub open spec fn has_code(t: TokenType) -> bool {
    !(t == TokenType::Ident || t == TokenType::MacroDecl || t == TokenType::IfdefMacro
        || t == TokenType::IfNdefMacro || t == TokenType::ElseMacro || t == TokenType::EndifMacro
        || t == TokenType::IncludeMacro || t == TokenType::IncludePath || t == TokenType::TapeDecl
        || t == TokenType::CellSize)
}

/// A tape that code can work on: it has a cell, and its size in bytes fits in
/// a machine word.
pub open spec fn tape_usable(t: TapeModel) -> bool {
    t.cell_count >= 1 && t.cell_count * size_bytes(t.size) <= usize::MAX
}

/// An operation that code generation accepts on the given tapes: it has
/// code, the tape it carries is usable, `@` carries a tape, and a tape
/// address names a declared tape.
pub open spec fn op_accepted(op: OperationModel, tapes: Seq<TapeModel>) -> bool {
    &&& has_code(op.token_type)
    &&& op.tape matches Some(t) ==> tape_usable(t)
    &&& op.token_type == TokenType::CurrentTape ==> op.tape is Some
    &&& op.token_type == TokenType::TapeName ==> op.values.len() > 0 && tape_declared(tapes, op.values[0])
}

proof fn lemma_xref_kinds(kinds: Seq<TokenType>)
    ensures
        forall|i: int|
            0 <= i < kinds.len() && is_bracket(#[trigger] kinds[i]) ==> {
                let b = bracket_count(kinds.take(i)) as int;
                &&& b < xref(kinds).len()
                &&& (xref(kinds)[b] is Condition <==> kinds[i] == TokenType::ZeroJump)
            },
    decreases kinds.len(),
{
    if kinds.len() > 0 {
        let pre = kinds.drop_last();
        let t = kinds.last();
        lemma_xref_kinds(pre);
        lemma_xref_len(pre);
        let js = xref(pre);
        let js2 = xref(kinds);
        assert(js2 == xref_step(js, t));
        assert(js.len() <= js2.len());
        assert forall|m: int| 0 <= m < js.len() implies (#[trigger] js2[m] is Condition) == (js[m] is Condition) by {
            if t == TokenType::NonZeroJump {
                let lc = last_open_before(js, js.len() as int);
                if 0 <= lc < js.len() && js[lc] is Condition {
                    let js1 = js.update(lc, Jumps::Condition(Condition { addr: js.len() as usize }));
                    assert(js2[m] == js1[m]);
                } else {
                    assert(js2[m] == js[m]);
                }
            } else if t == TokenType::ZeroJump {
                assert(js2[m] == js[m]);
            }
        }
        assert forall|i: int| 0 <= i < kinds.len() && is_bracket(#[trigger] kinds[i]) implies {
            let b = bracket_count(kinds.take(i)) as int;
            &&& b < js2.len()
            &&& (js2[b] is Condition <==> kinds[i] == TokenType::ZeroJump)
        } by {
            if i < pre.len() {
                assert(kinds.take(i) =~= pre.take(i));
                assert(pre[i] == kinds[i]);
            } else {
                assert(kinds.take(i) =~= pre);
                assert(js2.len() == js.len() + 1);
                assert(js2[js.len() as int] == (if t == TokenType::ZeroJump {
                    Jumps::Condition(Condition { addr: 0 })
                } else {
                    Jumps::Forward(Forward { back_addr: last_open_before(js, js.len() as int) as usize })
                }));
            }
        }
    }
}

proof fn lemma_bracket_count_step(kinds: Seq<TokenType>, i: int)
    requires
        0 <= i < kinds.len(),
    ensures
        bracket_count(kinds.take(i + 1)) == bracket_count(kinds.take(i)) + if is_bracket(kinds[i]) {
            1nat
        } else {
            0nat
        },
{
    assert(kinds.take(i + 1).drop_last() =~= kinds.take(i));
}

#[verifier::rlimit(60)]
proof fn lemma_op_text_ok(
    ops: Seq<OperationModel>,
    tapes: Seq<TapeModel>,
    i: int,
    cur: int,
    last: int,
)
    requires
        0 <= i < ops.len(),
        forall|k: int| 0 <= k < tapes.len() ==> tape_usable(#[trigger] tapes[k]),
        op_accepted(ops[i], tapes),
        0 <= cur < tapes.len(),
        last == bracket_count(kinds_of(ops).take(i)),
    ensures
        op_text(ops[i], i, tapes, xref(kinds_of(ops)), cur, last) matches Ok((t, c, l)) && 0 <= c
            < tapes.len() && l == bracket_count(kinds_of(ops).take(i + 1)),
{
    reveal(op_text);
    reveal(body_text);
    let kinds = kinds_of(ops);
    let jumps = xref(kinds);
    let op = ops[i];
    assert(kinds[i] == op.token_type);
    lemma_bracket_count_step(kinds, i);
    lemma_xref_kinds(kinds);
    let tape = match op.tape {
        Some(t) => t,
        None => tapes[cur],
    };
    assert(tape_usable(tape));
    let cs = size_bytes(tape.size);
    assert(cs <= 8);
    assert(tape.cell_count * cs >= cs) by (nonlinear_arith)
        requires
            tape.cell_count >= 1,
            cs >= 1,
    ;
    if op.token_type == TokenType::ZeroJump || op.token_type == TokenType::NonZeroJump {
        assert(is_bracket(kinds[i]));
        let want = op.token_type == TokenType::ZeroJump;
        assert(last < jumps.len());
        assert((jumps[last] is Condition) == want);
        assert(find_jump_from(jumps, last, want) == Some(last));
    }
    if op.token_type == TokenType::CurrentTape {
        let t = op.tape->Some_0;
        crate::parser::lemma_find_tape_from(tapes, t.name, 0);
    }
}

proof fn lemma_gen_from_ok(ops: Seq<OperationModel>, tapes: Seq<TapeModel>, i: int, cur: int, last: int)
    requires
        0 <= i <= ops.len(),
        forall|k: int| 0 <= k < tapes.len() ==> tape_usable(#[trigger] tapes[k]),
        forall|k: int| 0 <= k < ops.len() ==> op_accepted(#[trigger] ops[k], tapes),
        0 <= cur < tapes.len(),
        last == bracket_count(kinds_of(ops).take(i)),
    ensures
        gen_from(ops, tapes, xref(kinds_of(ops)), i, cur, last) is Ok,
    decreases ops.len() - i,
{
    if i < ops.len() {
        lemma_op_text_ok(ops, tapes, i, cur, last);
        if let Ok((t, c, l)) = op_text(ops[i], i, tapes, xref(kinds_of(ops)), cur, last) {
            lemma_gen_from_ok(ops, tapes, i + 1, c, l);
        }
    }
}

/// Code generation refuses a program only for a reason it names: every
/// program whose `]`s each come after some `[`, whose operations all have
/// code and are accepted on the declared tapes, and whose tapes are all
/// usable, gets its assembly.
pub proof fn law_accepted_programs_compile(ops: Seq<OperationModel>, tapes: Seq<TapeModel>)
    requires
        tapes.len() > 0,
        forall|k: int| 0 <= k < tapes.len() ==> tape_usable(#[trigger] tapes[k]),
        forall|k: int| 0 <= k < ops.len() ==> op_accepted(#[trigger] ops[k], tapes),
        closes_follow_opens(kinds_of(ops)),
    ensures
        generate_spec(ops, tapes) is Ok,
{
    assert(kinds_of(ops).take(0) =~= Seq::<TokenType>::empty());
    lemma_gen_from_ok(ops, tapes, 0, 0, 0);
}


/// Moving right wraps around the tape: from cell `p` of a tape of `n` cells
/// of `cs` bytes, the code of a run of `k` moves right leaves the pointer on
/// cell `(p + k) mod n`, and the code of a run of `k` moves left leaves it on
/// cell `(p - k) mod n`.
pub proof fn law_pointer_moves_wrap(p: int, k: int, n: int, cs: int)
    requires
        0 <= p < n,
        0 <= k,
        cs > 0,
    ensures
        right_move_result(p * cs, n * cs, (k % n) * cs) == ((p + k) % n) * cs,
        left_move_result(p * cs, n * cs, (k % n) * cs) == ((p - k) % n) * cs,
{
    let r = k % n;
    assert(0 <= r < n) by (nonlinear_arith)
        requires
            n > 0,
            r == k % n,
    ;
    assert(k == (k / n) * n + r) by (nonlinear_arith)
        requires
            n > 0,
            r == k % n,
    ;
    let q = k / n;
    if p + r < n {
        assert((p + k) % n == p + r) by (nonlinear_arith)
            requires
                k == q * n + r,
                0 <= p + r < n,
        {
            vstd::arithmetic::div_mod::lemma_mod_multiples_vanish(q, p + r, n);
            vstd::arithmetic::div_mod::lemma_small_mod((p + r) as nat, n as nat);
        }
        assert(p * cs + r * cs == (p + r) * cs) by (nonlinear_arith);
        assert((p + r) * cs < n * cs) by (nonlinear_arith)
            requires
                p + r < n,
                cs > 0,
        ;
        assert(right_move_result(p * cs, n * cs, r * cs) == (p + r) * cs);
    } else {
        assert((p + k) % n == p + r - n) by (nonlinear_arith)
            requires
                k == q * n + r,
                n <= p + r < 2 * n,
        {
            vstd::arithmetic::div_mod::lemma_mod_multiples_vanish(q + 1, p + r - n, n);
            vstd::arithmetic::div_mod::lemma_small_mod((p + r - n) as nat, n as nat);
            assert(p + k == (q + 1) * n + (p + r - n));
        }
        assert(p * cs + r * cs - n * cs == (p + r - n) * cs) by (nonlinear_arith);
        assert(p * cs + r * cs >= n * cs) by (nonlinear_arith)
            requires
                p + r >= n,
                cs > 0,
        ;
        assert(right_move_result(p * cs, n * cs, r * cs) == (p + r - n) * cs);
    }
    assert(p * cs + r * cs < n * cs ==> p + r < n) by (nonlinear_arith)
        requires
            cs > 0,
    ;
    if p - r >= 0 {
        assert((p - k) % n == p - r) by (nonlinear_arith)
            requires
                k == q * n + r,
                0 <= p - r < n,
        {
            vstd::arithmetic::div_mod::lemma_mod_multiples_vanish(-q, p - r, n);
            vstd::arithmetic::div_mod::lemma_small_mod((p - r) as nat, n as nat);
            assert(p - k == (-q) * n + (p - r));
        }
        assert(p * cs - r * cs == (p - r) * cs) by (nonlinear_arith);
    } else {
        assert((p - k) % n == p - r + n) by (nonlinear_arith)
            requires
                k == q * n + r,
                0 <= p - r + n < n,
        {
            vstd::arithmetic::div_mod::lemma_mod_multiples_vanish(-q - 1, p - r + n, n);
            vstd::arithmetic::div_mod::lemma_small_mod((p - r + n) as nat, n as nat);
            assert(p - k == (-q - 1) * n + (p - r + n));
        }
        assert(p * cs - r * cs + n * cs == (p - r + n) * cs) by (nonlinear_arith);
        assert(p * cs - r * cs < 0) by (nonlinear_arith)
            requires
                p - r < 0,
                cs > 0,
        ;
    }
    assert(p * cs - r * cs >= 0 ==> p - r >= 0) by (nonlinear_arith)
        requires
            cs > 0,
    ;
}


/// Whether `s` ends with `t`.
pub open spec fn ends_with(s: Seq<char>, t: Seq<char>) -> bool {
    t.len() <= s.len() && s.skip(s.len() - t.len()) == t
}

proof fn lemma_ends_with_concat(a: Seq<char>, t: Seq<char>)
    ensures
        ends_with(a + t, t),
{
    assert((a + t).skip((a + t).len() - t.len()) =~= t);
}

/// `'` clears the current cell: whatever the tape and its cell width, the
/// code of a Clear operation ends by storing the value 0 into the current
/// cell at the cell's width, and it changes neither the current tape nor
/// the bracket search.
pub proof fn law_clear_stores_zero(
    op: OperationModel,
    i: int,
    tapes: Seq<TapeModel>,
    jumps: Seq<Jumps>,
    cur: int,
    last: int,
)
    requires
        op.token_type == TokenType::Clear,
    ensures
        op_text(op, i, tapes, jumps, cur, last) matches Ok((t, c, l)) ==> {
            let tape = match op.tape {
                Some(tp) => tp,
                None => tapes[cur],
            };
            &&& ends_with(t, "   mov "@ + cell_word(tape.size) + "[rax], 0\n"@)
            &&& ends_with(t, "[rax], 0\n"@)
            &&& c == cur
            &&& l == last
        },
{
    reveal(op_text);
    reveal(body_text);
    if let Ok((t, c, l)) = op_text(op, i, tapes, jumps, cur, last) {
        let tape = match op.tape {
            Some(tp) => tp,
            None => tapes[cur],
        };
        let name = tape.name;
        let store = "   mov "@ + cell_word(tape.size) + "[rax], 0\n"@;
        let front = header_text(op.token_type, op.count, name) + ("   mov rax, "@ + name + "\n"@ + "   add rax, QWORD["@
            + name + "_pointer]\n"@);
        assert(body_text(op, i, tape, tapes, jumps, cur, last) == Ok::<(Seq<char>, int, int), CodeGenError>(
            (clear_text(name, tape.size), cur, last),
        ));
        assert(t =~= front + store);
        lemma_ends_with_concat(front, store);
        let front2 = front + "   mov "@ + cell_word(tape.size);
        assert(t =~= front2 + "[rax], 0\n"@);
        lemma_ends_with_concat(front2, "[rax], 0\n"@);
    }
}

/// Reading a byte is writing a byte turned around: the code of `,` and the
/// code of `.` on the same tape differ only in their first two lines, which
/// make the system call `read` (0) on standard input (0) instead of `write`
/// (1) on standard output (1); both then move exactly one byte at the
/// current cell of the tape.
pub proof fn law_read_mirrors_write(name: Seq<char>)
    ensures
        read_text(name).len() == write_text(name).len(),
        read_text(name).take(30) == "    mov rax, 0\n"@ + "    mov rdi, 0\n"@,
        write_text(name).take(30) == "    mov rax, 1\n"@ + "    mov rdi, 1\n"@,
        read_text(name).skip(30) == write_text(name).skip(30),
        ends_with(write_text(name), "    mov rdx, 1\n"@ + "    syscall\n"@),
        ends_with(read_text(name), "    mov rdx, 1\n"@ + "    syscall\n"@),
{
    reveal_strlit("    mov rax, 0\n");
    reveal_strlit("    mov rdi, 0\n");
    reveal_strlit("    mov rax, 1\n");
    reveal_strlit("    mov rdi, 1\n");
    let tail = "    mov rsi, "@ + name + "\n"@ + "    add rsi, QWORD["@ + name + "_pointer]\n"@;
    let end = "    mov rdx, 1\n"@ + "    syscall\n"@;
    let r0 = "    mov rax, 0\n"@ + "    mov rdi, 0\n"@;
    let w0 = "    mov rax, 1\n"@ + "    mov rdi, 1\n"@;
    assert(r0.len() == 30);
    assert(w0.len() == 30);
    assert(read_text(name) =~= r0 + (tail + end));
    assert(write_text(name) =~= w0 + (tail + end));
    assert((r0 + (tail + end)).take(30) =~= r0);
    assert((w0 + (tail + end)).take(30) =~= w0);
    assert((r0 + (tail + end)).skip(30) =~= tail + end);
    assert((w0 + (tail + end)).skip(30) =~= tail + end);
    assert(read_text(name) =~= (r0 + tail) + end);
    assert(write_text(name) =~= (w0 + tail) + end);
    lemma_ends_with_concat(r0 + tail, end);
    lemma_ends_with_concat(w0 + tail, end);
}


/// `+` and `-` change the current cell by exactly the number of commands in
/// their run: the code of an Add (Sub) operation ends by adding (subtracting)
/// the operation's count, written in decimal, to the current cell at its
/// width; neither changes the current tape nor the bracket search.
#[verifier::rlimit(60)]
pub proof fn law_add_sub_amount(
    op: OperationModel,
    i: int,
    tapes: Seq<TapeModel>,
    jumps: Seq<Jumps>,
    cur: int,
    last: int,
)
    requires
        op.token_type == TokenType::Add || op.token_type == TokenType::Sub,
    ensures
        op_text(op, i, tapes, jumps, cur, last) matches Ok((t, c, l)) ==> {
            let tape = match op.tape {
                Some(tp) => tp,
                None => tapes[cur],
            };
            &&& ends_with(t, "[rax], "@ + decimal(op.count) + "\n"@)
            &&& op.token_type == TokenType::Add ==> ends_with(
                t,
                "    add "@ + cell_word(tape.size) + " [rax], "@ + decimal(op.count) + "\n"@,
            )
            &&& op.token_type == TokenType::Sub ==> ends_with(
                t,
                "    sub "@ + cell_word(tape.size) + "[rax], "@ + decimal(op.count) + "\n"@,
            )
            &&& c == cur
            &&& l == last
        },
{
    reveal(op_text);
    reveal(body_text);
    reveal_strlit(" [rax], ");
    reveal_strlit("[rax], ");
    if let Ok((t, c, l)) = op_text(op, i, tapes, jumps, cur, last) {
        let tape = match op.tape {
            Some(tp) => tp,
            None => tapes[cur],
        };
        let name = tape.name;
        let header = header_text(op.token_type, op.count, name);
        let tail = "[rax], "@ + decimal(op.count) + "\n"@;
        if op.token_type == TokenType::Add {
            assert(body_text(op, i, tape, tapes, jumps, cur, last) == Ok::<(Seq<char>, int, int), CodeGenError>(
                (add_text(name, tape.size, op.count), cur, last),
            ));
            let line = "    add "@ + cell_word(tape.size) + " [rax], "@ + decimal(op.count) + "\n"@;
            assert(t =~= (header + cell_addr(name)) + line);
            lemma_ends_with_concat(header + cell_addr(name), line);
            assert(" [rax], "@ =~= seq![' '] + "[rax], "@);
            assert(t =~= (header + cell_addr(name) + "    add "@ + cell_word(tape.size) + seq![' ']) + tail);
            lemma_ends_with_concat(header + cell_addr(name) + "    add "@ + cell_word(tape.size) + seq![' '], tail);
        } else {
            assert(body_text(op, i, tape, tapes, jumps, cur, last) == Ok::<(Seq<char>, int, int), CodeGenError>(
                (sub_text(name, tape.size, op.count), cur, last),
            ));
            let line = "    sub "@ + cell_word(tape.size) + "[rax], "@ + decimal(op.count) + "\n"@;
            assert(t =~= (header + cell_addr(name)) + line);
            lemma_ends_with_concat(header + cell_addr(name), line);
            assert(t =~= (header + cell_addr(name) + "    sub "@ + cell_word(tape.size)) + tail);
            lemma_ends_with_concat(header + cell_addr(name) + "    sub "@ + cell_word(tape.size), tail);
        }
    }
}

} // verus!
