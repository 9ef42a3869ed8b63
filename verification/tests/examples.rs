// Each example program is compiled by the library (lexing, include expansion,
// preprocessing, parsing and assembly), and the assembly text it produces is
// then run by a small x86-64 machine below that knows the instructions the
// compiler emits; its standard output and exit status must be the expected ones.

use std::collections::HashMap;

use lib::common::{main_tape, Token};
use lib::includes::{IncludeAction, IncludeEvent, IncludeExpander};
use lib::lexer::lex_file;
use lib::parser::parse_file;
use lib::preprocess::preprocess_tokens;
use lib::program::{assemble, operations_ready};

struct Cpu {
    regs: HashMap<&'static str, u64>,
    mem: Vec<u8>,
    symbols: HashMap<String, u64>,
    stack: Vec<u64>,
    carry: bool,
    zero: bool,
    out: Vec<u8>,
}

const BASE: u64 = 0x1000;

fn full_register(name: &str) -> Option<(&'static str, u32)> {
    let r = match name {
        "rax" => ("rax", 64),
        "rbx" => ("rbx", 64),
        "rdx" => ("rdx", 64),
        "rdi" => ("rdi", 64),
        "rsi" => ("rsi", 64),
        "rbp" => ("rbp", 64),
        "rsp" => ("rsp", 64),
        "bl" => ("rbx", 8),
        "bx" => ("rbx", 16),
        "ebx" => ("rbx", 32),
        "dl" => ("rdx", 8),
        "dx" => ("rdx", 16),
        "edx" => ("rdx", 32),
        _ => return None,
    };
    Some(r)
}

fn width_bytes(word: &str) -> u64 {
    match word {
        "BYTE" => 1,
        "WORD" => 2,
        "DWORD" => 4,
        "QWORD" => 8,
        other => panic!("unknown operand size {}", other),
    }
}

fn mask(bits: u32) -> u64 {
    if bits == 64 {
        u64::MAX
    } else {
        (1u64 << bits) - 1
    }
}

enum Operand {
    Reg(&'static str, u32),
    Imm(u64),
    Mem(u64, u64),
}

impl Cpu {
    fn reg(&self, r: &str) -> u64 {
        *self.regs.get(r).unwrap_or(&0)
    }

    fn load(&self, addr: u64, w: u64) -> u64 {
        let mut v = 0u64;
        for k in 0..w {
            let a = (addr + k - BASE) as usize;
            assert!(a < self.mem.len(), "read outside the reserved memory");
            v |= (self.mem[a] as u64) << (8 * k);
        }
        v
    }

    fn store(&mut self, addr: u64, w: u64, v: u64) {
        for k in 0..w {
            let a = (addr.wrapping_add(k)).wrapping_sub(BASE) as usize;
            assert!(a < self.mem.len(), "write outside the reserved memory");
            self.mem[a] = ((v >> (8 * k)) & 0xff) as u8;
        }
    }

    fn operand(&self, text: &str) -> Operand {
        let text = text.trim();
        if let Some((r, bits)) = full_register(text) {
            return Operand::Reg(r, bits);
        }
        if let Some(open) = text.find('[') {
            let w = width_bytes(text[..open].trim());
            let inner = &text[open + 1..text.len() - 1];
            let addr = match full_register(inner) {
                Some((r, _)) => self.reg(r),
                None => self.symbols[inner],
            };
            return Operand::Mem(addr, w);
        }
        if let Ok(v) = text.parse::<u64>() {
            return Operand::Imm(v);
        }
        Operand::Imm(*self.symbols.get(text).unwrap_or_else(|| panic!("unknown symbol {}", text)))
    }

    fn read(&self, o: &Operand) -> u64 {
        match o {
            Operand::Reg(r, bits) => self.reg(r) & mask(*bits),
            Operand::Imm(v) => *v,
            Operand::Mem(a, w) => self.load(*a, *w),
        }
    }

    fn bits(o: &Operand) -> u32 {
        match o {
            Operand::Reg(_, bits) => *bits,
            Operand::Imm(_) => 64,
            Operand::Mem(_, w) => (*w * 8) as u32,
        }
    }

    fn write(&mut self, o: &Operand, v: u64) {
        match o {
            Operand::Reg(r, bits) => {
                let old = self.reg(r);
                let new = if *bits == 32 { v & mask(32) } else { (old & !mask(*bits)) | (v & mask(*bits)) };
                self.regs.insert(*r, new);
            }
            Operand::Mem(a, w) => self.store(*a, *w, v),
            Operand::Imm(_) => panic!("cannot write to an immediate"),
        }
    }
}

/// Runs an assembly text; gives what it wrote to standard output and its exit status.
fn run_assembly(text: &str) -> (Vec<u8>, u64) {
    let lines: Vec<&str> = text.lines().map(|l| l.trim()).collect();
    let bss = lines.iter().position(|l| *l == "section .bss").expect("a bss section");
    let mut symbols = HashMap::new();
    let mut size = 0u64;
    for l in &lines[bss + 1..] {
        if l.starts_with(';') || l.is_empty() {
            continue;
        }
        let (name, rest) = l.split_once(':').expect("a reservation");
        let mut words = rest.split_whitespace();
        let w = match words.next().unwrap() {
            "resb" => 1,
            "resw" => 2,
            "resd" => 4,
            "resq" => 8,
            other => panic!("unknown reservation {}", other),
        };
        let count: u64 = words.next().unwrap().parse().unwrap();
        symbols.insert(name.to_string(), BASE + size);
        size += w * count;
    }
    let mut labels = HashMap::new();
    for (k, l) in lines[..bss].iter().enumerate() {
        if l.ends_with(':') {
            labels.insert(l.trim_end_matches(':').to_string(), k);
        }
    }
    let mut cpu = Cpu {
        regs: HashMap::new(),
        mem: vec![0u8; size as usize],
        symbols,
        stack: Vec::new(),
        carry: false,
        zero: false,
        out: Vec::new(),
    };
    let mut pc = labels["_start"];
    let mut steps = 0u64;
    loop {
        steps += 1;
        assert!(steps < 50_000_000, "program does not stop");
        assert!(pc < bss, "ran past the code");
        let line = lines[pc];
        pc += 1;
        if line.is_empty() || line.starts_with(';') || line.ends_with(':') || line.starts_with("BITS")
            || line.starts_with("section") || line.starts_with("global")
        {
            continue;
        }
        let (op, args) = match line.split_once(' ') {
            Some((op, args)) => (op, args),
            None => (line, ""),
        };
        let args: Vec<&str> = if args.is_empty() { Vec::new() } else { args.split(", ").collect() };
        match op {
            "mov" => {
                let dst = cpu.operand(args[0]);
                let v = cpu.read(&cpu.operand(args[1])) & mask(Cpu::bits(&dst));
                cpu.write(&dst, v);
            }
            "add" | "sub" | "cmp" => {
                if op == "add" && args[0] == "rsp" {
                    cpu.stack.pop().expect("a value on the stack");
                    continue;
                }
                let dst = cpu.operand(args[0]);
                let bits = Cpu::bits(&dst);
                let a = cpu.read(&dst);
                let b = cpu.read(&cpu.operand(args[1])) & mask(bits);
                let (r, carry) = if op == "add" {
                    let s = a as u128 + b as u128;
                    ((s as u64) & mask(bits), s > mask(bits) as u128)
                } else {
                    (a.wrapping_sub(b) & mask(bits), a < b)
                };
                cpu.carry = carry;
                cpu.zero = r == 0;
                if op != "cmp" {
                    cpu.write(&dst, r);
                }
            }
            "je" | "jne" | "jb" | "jae" | "jmp" => {
                let taken = match op {
                    "je" => cpu.zero,
                    "jne" => !cpu.zero,
                    "jb" => cpu.carry,
                    "jae" => !cpu.carry,
                    _ => true,
                };
                if taken {
                    pc = labels[args[0]];
                }
            }
            "push" => {
                let v = cpu.read(&cpu.operand(args[0]));
                cpu.stack.push(v);
            }
            "pop" => {
                let v = cpu.stack.pop().expect("a value on the stack");
                let dst = cpu.operand(args[0]);
                cpu.write(&dst, v);
            }
            "syscall" => {
                let (rax, rdi, rsi, rdx) = (cpu.reg("rax"), cpu.reg("rdi"), cpu.reg("rsi"), cpu.reg("rdx"));
                match rax {
                    1 => {
                        for k in 0..rdx {
                            let b = cpu.load(rsi + k, 1) as u8;
                            if rdi == 1 {
                                cpu.out.push(b);
                            }
                        }
                        cpu.regs.insert("rax", rdx);
                    }
                    60 => return (cpu.out, rdi),
                    _ => {
                        cpu.regs.insert("rax", 0);
                    }
                }
            }
            other => panic!("instruction {} is not known", other),
        }
    }
}

fn compile(source: &str) -> String {
    let tokens = lex_file(source.to_string()).expect("the program lexes");
    let mut expander = IncludeExpander::new(tokens, "example.bf".to_string(), String::new(), Vec::new());
    match expander.step(IncludeEvent::Start).expect("the include pass runs") {
        IncludeAction::Finished => {}
        other => panic!("unexpected request {:?}", other),
    }
    let tokens: Vec<Token> = expander.output.iter().cloned().collect();
    let mut tapes = vec![main_tape()];
    let tokens = preprocess_tokens(tokens, &mut tapes).expect("the program preprocesses");
    let ops = parse_file(tokens, &tapes).expect("the program parses");
    assert!(operations_ready(&ops));
    assemble(ops, &tapes).expect("assembly is generated")
}

fn check_example(source: &str, expected_output: &str) {
    let (output, status) = run_assembly(&compile(source));
    assert_eq!(status, 0);
    assert_eq!(output, expected_output.as_bytes());
}

#[test]
fn hello_world() {
    check_example(
        "++++++++[>++++[>++>+++>+++>+<<<<-]>+>+>->>+[<]<-]>>.>---.+++++++..+++.>>.<-.<.+++.------.--------.>>+.>++.\n",
        "Hello World!\n",
    );
}

#[test]
fn hello_world_tapes() {
    check_example(
        "#tape msg byte 14\n\
         @`{msg}` `\"Hello, World!\\n\"`\n\
         .>.>.>.>.>.>.>.>.>.>.>.>.>.\n\
         @`{main}` +\n",
        "Hello, World!\n",
    );
}

#[test]
fn hello_world_syscall() {
    check_example(
        "#tape msg byte `14`\n\
         #tape args qword `4`\n\
         @`{msg}` `\"Hello, World!\\n\"`\n\
         @`{args}` `1` > `1` > `{msg}` > `14` <<< ? *\n",
        "Hello, World!\n",
    );
}

#[test]
fn test_stack() {
    check_example("`48` ^ ' _ .\n", "0");
}

#[test]
fn ifdef() {
    check_example(
        "#define YES +\n\
         #ifdef YES\n\
         `\"Y\\n\"` .>.\n\
         #else\n\
         `\"N\\n\"` .>.\n\
         #endif\n\
         &\n\
         #ifndef NO\n\
         `\"L\\n\"` .>.\n\
         #endif\n",
        "Y\nL\n",
    );
}

#[test]
fn pointer_runs_wrap_at_both_ends() {
    // three cells "A", "B", "C"; runs of moves longer than the tape wrap around
    check_example(
        "#tape t byte 3\n@`{t}` `\"ABC\"` .>>>>.<<<<<.<<.\n",
        "ABCA",
    );
    check_example("#tape w word 2\n@`{w}` `65` >>> `66` < . > .\n", "AB");
}

#[test]
fn syscall_result_goes_onto_the_stack() {
    // write(1, msg, 2) returns 2, which `?` pushes; it is popped into a cell,
    // carried to the main tape and printed as the digit 2
    let source = format!(
        "#tape msg byte 2\n#tape args qword 4\n@`{{msg}}` `\"ok\"`\n@`{{args}}` `1` > `1` > `{{msg}}` > `2` <<< ? _ ^\n@`{{main}}` _ {} .\n",
        "+".repeat(48)
    );
    check_example(&source, "ok2");
}

#[test]
fn emitted_code_of_a_small_program() {
    let expected = [
        "BITS 64\nsection .text\nglobal _start\n_start:\n",
        "    ; ---------   Add x 1 ( main )  --------- ;\n",
        "    mov rax, main\n",
        "    add rax, QWORD[main_pointer]\n",
        "    add BYTE [rax], 1\n",
        "    ; ---------   PointerRight x 1 ( main )  --------- ;\n",
        "    mov rax, QWORD[main_pointer]\n",
        "    add rax, 1\n",
        "    cmp rax, 1048576\n",
        "    jb .skip_1\n",
        "    sub rax, 1048576\n",
        "    .skip_1:\n",
        "    mov QWORD[main_pointer], rax\n",
        "    ; ---------   Discard x 1 ( main )  --------- ;\n",
        "    add rsp, 8\n",
        "    mov rax, 60\n",
        "    mov rdi, 0\n",
        "    syscall\n",
        "section .bss\n",
        "; -------- tapes -------- ; \n",
        "    main_pointer: resq 1\n",
        "    main: resb 1048576\n",
    ]
    .concat();
    assert_eq!(compile("+>*"), expected);
}
