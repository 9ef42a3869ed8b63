use vstd::prelude::*;

use crate::code_gen::{CodeGenError, cell_word, generate_code, generate_spec, operation_values_ok};
use crate::preprocess::{PreState, cell_size_of, do_tape};
use crate::common::{Operation, Size, Tape, TapeModel, Token, operations_view, tapes_view};
use crate::text::{decimal, push_decimal};

verus! {

/// The lines that open every program: 64-bit code with its entry point.
pub open spec fn prologue() -> Seq<char> {
    "BITS 64\n"@ + "section .text\n"@ + "global _start\n"@ + "_start:\n"@
}

/// The lines that follow the code of a program: the exit system call, then
/// the start of the section that reserves the tapes.
pub open spec fn epilogue() -> Seq<char> {
    "    mov rax, 60\n"@ + "    mov rdi, 0\n"@ + "    syscall\n"@ + "section .bss\n"@
        + "; -------- tapes -------- ; \n"@
}

/// The directive that reserves cells of the given width.
pub open spec fn reserve_word(s: Size) -> Seq<char> {
    match s {
        Size::Byte => "resb"@,
        Size::Word => "resw"@,
        Size::Dword => "resd"@,
        Size::Qword => "resq"@,
    }
}

/// The reservation of one tape: its pointer, then its cells.
pub open spec fn tape_decl_text(t: TapeModel) -> Seq<char> {
    "    "@ + t.name + "_pointer: resq 1\n"@ + "    "@ + t.name + ": "@ + reserve_word(t.size) + " "@
        + decimal(t.cell_count) + "\n"@
}

/// The reservations of the tapes, in order.
pub open spec fn tape_decls_text(tapes: Seq<TapeModel>) -> Seq<char>
    decreases tapes.len(),
{
    if tapes.len() == 0 {
        seq![]
    } else {
        tape_decls_text(tapes.drop_last()) + tape_decl_text(tapes.last())
    }
}

/// The whole assembly file of a program, or the reason code generation refuses it.
pub open spec fn assembly_spec(ops: Seq<crate::common::OperationModel>, tapes: Seq<TapeModel>) -> Result<
    Seq<char>,
    CodeGenError,
> {
    match generate_spec(ops, tapes) {
        Ok(body) => Ok(prologue() + body + epilogue() + tape_decls_text(tapes)),
        Err(e) => Err(e),
    }
}

fn reserve_word_str(s: Size) -> (r: &'static str)
    ensures
        r@ == reserve_word(s),
{
    match s {
        Size::Byte => "resb",
        Size::Word => "resw",
        Size::Dword => "resd",
        Size::Qword => "resq",
    }
}

/// Appends `tape_decl_text`.
fn emit_tape_decl(out: &mut String, t: &Tape)
    ensures
        final(out)@ == old(out)@ + tape_decl_text(t@),
{
    out.append("    ");
    out.append(t.name.as_str());
    out.append("_pointer: resq 1\n");
    out.append("    ");
    out.append(t.name.as_str());
    out.append(": ");
    out.append(reserve_word_str(t.size));
    out.append(" ");
    push_decimal(out, t.cell_count);
    out.append("\n");
}

/// Appends `tape_decls_text`.
fn emit_tape_decls(out: &mut String, tapes: &Vec<Tape>)
    ensures
        final(out)@ == old(out)@ + tape_decls_text(tapes_view(tapes@)),
{
    let ghost start = out@;
    let mut k: usize = 0;
    while k < tapes.len()
        invariant
            k <= tapes.len(),
            out@ == start + tape_decls_text(tapes_view(tapes@).take(k as int)),
        decreases tapes.len() - k,
    {
        let ghost before = out@;
        emit_tape_decl(out, &tapes[k]);
        proof {
            let tv = tapes_view(tapes@);
            let next = tv.take(k + 1);
            assert(next.drop_last() =~= tv.take(k as int));
            assert(next.last() == tapes[k as int]@);
            assert(out@ =~= start + tape_decls_text(next));
        }
        k += 1;
    }
    assert(tapes_view(tapes@).take(tapes.len() as int) =~= tapes_view(tapes@));
}

/// Whether every operation carries the texts that code generation reads.
pub fn operations_ready(operations: &Vec<Operation>) -> (res: bool)
    ensures
        res == forall|k: int| 0 <= k < operations.len() ==> operation_values_ok(#[trigger] operations[k]@),
{
    let mut k: usize = 0;
    while k < operations.len()
        invariant
            k <= operations.len(),
            forall|j: int| 0 <= j < k ==> operation_values_ok(#[trigger] operations[j]@),
        decreases operations.len() - k,
    {
        let op = &operations[k];
        let t = op.token_type;
        let needs_value = t == crate::common::TokenType::IntLit || t == crate::common::TokenType::StringLit
            || t == crate::common::TokenType::TapeName;
        if needs_value && op.values.len() == 0 {
            assert(!operation_values_ok(operations[k as int]@));
            return false;
        }
        if t == crate::common::TokenType::StringLit {
            assert(op.values@.len() > 0);
            assert(operations[k as int]@.values[0] == op.values[0]@);
            if !op.values[0].as_str().is_ascii() {
                assert(!operation_values_ok(operations[k as int]@));
                return false;
            }
        }
        assert(operation_values_ok(operations[k as int]@));
        k += 1;
    }
    true
}

/// The assembly file of a program: the opening lines, the code of the
/// operations, the exit call and the reservation of every tape.
pub fn assemble(operations: Vec<Operation>, tapes: &Vec<Tape>) -> (res: Result<String, CodeGenError>)
    requires
        forall|k: int| 0 <= k < operations.len() ==> operation_values_ok(#[trigger] operations[k]@),
    ensures
        match assembly_spec(operations_view(operations@), tapes_view(tapes@)) {
            Ok(text) => res matches Ok(s) && s@ == text,
            Err(e) => res == Err::<String, CodeGenError>(e),
        },
{
    let ghost ops = operations_view(operations@);
    let mut out = String::new();
    out.append("BITS 64\n");
    out.append("section .text\n");
    out.append("global _start\n");
    out.append("_start:\n");
    assert(out@ =~= prologue());
    match generate_code(operations, &mut out, tapes) {
        Ok(()) => {},
        Err(e) => {
            return Err(e);
        },
    }
    out.append("    mov rax, 60\n");
    out.append("    mov rdi, 0\n");
    out.append("    syscall\n");
    out.append("section .bss\n");
    out.append("; -------- tapes -------- ; \n");
    emit_tape_decls(&mut out, tapes);
    proof {
        let body = generate_spec(ops, tapes_view(tapes@))->Ok_0;
        assert(out@ =~= prologue() + body + epilogue() + tape_decls_text(tapes_view(tapes@)));
    }
    Ok(out)
}


/// The text after the last `/` of a path: the whole path when it has none.
pub open spec fn base_name_of(path: Seq<char>) -> Seq<char>
    decreases path.len(),
{
    if path.len() == 0 || path.last() == '/' {
        seq![]
    } else {
        base_name_of(path.drop_last()).push(path.last())
    }
}

/// The name of a program file without its folders.
pub fn base_name(path: &str) -> (name: String)
    ensures
        name@ == base_name_of(path@),
{
    let n = path.unicode_len();
    let mut start = n;
    assert(path@.take(n as int) =~= path@);
    assert(path@ + path@.subrange(n as int, n as int) =~= path@);
    while start > 0 && path.get_char(start - 1) != '/'
        invariant
            start <= n == path@.len(),
            base_name_of(path@) == base_name_of(path@.take(start as int)) + path@.subrange(start as int, n as int),
        decreases start,
    {
        let ghost pre = path@.take(start as int);
        assert(pre.drop_last() =~= path@.take(start - 1));
        assert(pre.last() == path@[start - 1]);
        assert(path@.subrange(start - 1, n as int) =~= seq![path@[start - 1]] + path@.subrange(start as int, n as int));
        assert(base_name_of(pre) == base_name_of(path@.take(start - 1)).push(path@[start - 1]));
        assert(base_name_of(path@.take(start - 1)).push(path@[start - 1]) + path@.subrange(start as int, n as int)
            =~= base_name_of(path@.take(start - 1)) + path@.subrange(start - 1, n as int));
        start -= 1;
    }
    assert(base_name_of(path@.take(start as int)) =~= Seq::<char>::empty());
    assert(Seq::<char>::empty() + path@.subrange(start as int, n as int) =~= path@.subrange(start as int, n as int));
    String::from_str(path.substring_char(start, n))
}

/// `s` with every `.bf` in it replaced by `w`, from left to right.
pub open spec fn replace_dot_bf_of(s: Seq<char>, w: Seq<char>) -> Seq<char>
    decreases s.len(),
{
    if s.len() == 0 {
        seq![]
    } else if s.len() >= 3 && s[0] == '.' && s[1] == 'b' && s[2] == 'f' {
        w + replace_dot_bf_of(s.skip(3), w)
    } else {
        seq![s[0]] + replace_dot_bf_of(s.drop_first(), w)
    }
}

/// The name of a file made from a program file's name: every `.bf` in it
/// replaced by `with` (an empty `with` gives the executable's name, `.asm`
/// the assembly file's, `.o` the object file's).
pub fn replace_dot_bf(path: &str, with: &str) -> (name: String)
    ensures
        name@ == replace_dot_bf_of(path@, with@),
{
    let n = path.unicode_len();
    let mut out = String::new();
    let mut k: usize = 0;
    assert(path@.skip(0) =~= path@);
    assert(out@ + replace_dot_bf_of(path@, with@) =~= replace_dot_bf_of(path@, with@));
    while k < n
        invariant
            k <= n == path@.len(),
            replace_dot_bf_of(path@, with@) == out@ + replace_dot_bf_of(path@.skip(k as int), with@),
        decreases n - k,
    {
        let ghost rest = path@.skip(k as int);
        let ghost before = out@;
        if n - k >= 3 && path.get_char(k) == '.' && path.get_char(k + 1) == 'b' && path.get_char(k + 2) == 'f' {
            out.append(with);
            assert(rest.skip(3) =~= path@.skip(k + 3));
            assert(before + (with@ + replace_dot_bf_of(rest.skip(3), with@)) =~= out@ + replace_dot_bf_of(
                path@.skip(k + 3),
                with@,
            ));
            k += 3;
        } else {
            let c = path.get_char(k);
            out.append(path.substring_char(k, k + 1));
            assert(path@.subrange(k as int, k + 1) =~= seq![c]);
            assert(rest.drop_first() =~= path@.skip(k + 1));
            assert(before + (seq![c] + replace_dot_bf_of(rest.drop_first(), with@)) =~= out@ + replace_dot_bf_of(
                path@.skip(k + 1),
                with@,
            ));
            k += 1;
        }
    }
    assert(path@.skip(k as int) =~= Seq::<char>::empty());
    assert(out@ + Seq::<char>::empty() =~= out@);
    out
}


/// A character with ASCII letters put in upper case.
pub open spec fn upper_char(c: char) -> char {
    if 'a' <= c <= 'z' {
        ((c as u32) - 32) as char
    } else {
        c
    }
}

/// A character with ASCII letters put in lower case.
pub open spec fn lower_char(c: char) -> char {
    if 'A' <= c <= 'Z' {
        ((c as u32) + 32) as char
    } else {
        c
    }
}

/// A text with its ASCII letters put in upper case.
pub open spec fn upper_text(v: Seq<char>) -> Seq<char> {
    Seq::new(v.len(), |k: int| upper_char(v[k]))
}

/// The reservation of a tape matches the width its code works with: the
/// directive is `res` followed by the initial of the operand-size keyword of
/// the tape's cells, in lower case (`resb` for BYTE, `resw` for WORD, `resd`
/// for DWORD, `resq` for QWORD), so every cell the code reaches is reserved.
pub proof fn law_reservation_matches_width(size: Size)
    ensures
        cell_word(size).len() > 0,
        reserve_word(size) == "res"@ + seq![lower_char(cell_word(size)[0])],
{
    reveal_strlit("res");
    reveal_strlit("resb");
    reveal_strlit("resw");
    reveal_strlit("resd");
    reveal_strlit("resq");
    reveal_strlit("BYTE");
    reveal_strlit("WORD");
    reveal_strlit("DWORD");
    reveal_strlit("QWORD");
    assert(reserve_word(size) =~= "res"@ + seq![lower_char(cell_word(size)[0])]);
}

/// A cell size keyword gives the width it names: the operand-size keyword
/// of the width is the keyword in upper case, and its reservation directive
/// is `res` followed by the keyword's initial (`byte`, `word`, `dword` and
/// `qword` give BYTE/`resb`, WORD/`resw`, DWORD/`resd` and QWORD/`resq`).
pub proof fn law_size_keyword_names_width(v: Seq<char>)
    ensures
        cell_size_of(v) matches Some(s) ==> v.len() > 0 && cell_word(s) == upper_text(v) && reserve_word(s) == "res"@
            + seq![v[0]],
{
    reveal_strlit("res");
    reveal_strlit("resb");
    reveal_strlit("resw");
    reveal_strlit("resd");
    reveal_strlit("resq");
    reveal_strlit("BYTE");
    reveal_strlit("WORD");
    reveal_strlit("DWORD");
    reveal_strlit("QWORD");
    if let Some(s) = cell_size_of(v) {
        assert(cell_word(s) =~= upper_text(v));
        assert(reserve_word(s) =~= "res"@ + seq![v[0]]);
    }
}

/// A `#tape` declaration adds one tape, named by the word after `#tape`, of
/// the width its size keyword names (the width's operand-size keyword is the
/// size keyword in upper case) and of the cell count it gives, after the
/// tapes already declared.
pub proof fn law_tape_declaration_width(toks: Seq<Token>, i: int, st: PreState)
    ensures
        do_tape(toks, i, st) matches Ok((j, st2)) ==> {
            &&& st2.tapes.len() == st.tapes.len() + 1
            &&& st2.tapes.take(st.tapes.len() as int) == st.tapes
            &&& st2.tapes.last().name == toks[i + 1].value
            &&& cell_word(st2.tapes.last().size) == upper_text(toks[i + 2].value@)
            &&& reserve_word(st2.tapes.last().size) == "res"@ + seq![toks[i + 2].value@[0]]
        },
{
    if i + 2 < toks.len() {
        law_size_keyword_names_width(toks[i + 2].value@);
    }
    if let Ok((j, st2)) = do_tape(toks, i, st) {
        assert(st2.tapes.take(st.tapes.len() as int) =~= st.tapes);
    }
}

} // verus!
