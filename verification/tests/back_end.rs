use grotsky::compiler::{
    binary_opcode_of, patch_loop, patch_to_end, Chunk, CompileErrorKind, Compiler, FnContext, InstSrc, UpvalueRef,
};
use grotsky::instruction::{split_operand, Instruction, OpCode, JMP_BREAK, JMP_CONTINUE};
use grotsky::pipeline::{compile_source, parse_source_code, program_instructions, SourceError};
use grotsky::stmt::{ClassStmt, Stmt};
use grotsky::token::{Literal, Token};

fn ins(opcode: OpCode, a: u8, b: u8, c: u8) -> Instruction {
    Instruction { opcode, a, b, c }
}

fn compiled(source: &str) -> Compiler {
    let mut compiler = Compiler::new();
    let stmts = parse_source_code(source.to_string()).expect("parses");
    compiler.compile(stmts).expect("compiles");
    compiler
}

fn insts(chunk: &Chunk) -> Vec<Instruction> {
    chunk.instructions.iter().map(|i| i.inst).collect()
}

#[test]
fn bx_combines_high_and_low_bytes() {
    assert_eq!(ins(OpCode::LoadK, 0, 1, 2).bx(), 258);
}

#[test]
fn sbx_reads_negative_offsets() {
    assert_eq!(ins(OpCode::Jmp, 0, 0xff, 0xfd).sbx(), -3);
    assert_eq!(ins(OpCode::Jmp, 0, 0, 7).sbx(), 7);
}

#[test]
fn split_operand_is_read_back_by_sbx() {
    for x in [-32768i64, -300, -1, 0, 1, 255, 256, 32767] {
        let (b, c) = split_operand(x);
        assert_eq!(ins(OpCode::Jmp, 0, b, c).sbx() as i64, x);
    }
    let (b, c) = split_operand(65535);
    assert_eq!(ins(OpCode::Jmp, 0, b, c).bx(), 65535);
}

#[test]
fn marked_jumps_are_recognised() {
    let mut cont = ins(OpCode::Jmp, JMP_CONTINUE, 0, 0);
    assert!(cont.is_continue());
    assert!(!cont.is_break());
    let brk = ins(OpCode::Jmp, JMP_BREAK, 0, 0);
    assert!(brk.is_break());
    let mut other = ins(OpCode::Move, JMP_CONTINUE, 0, 0);
    assert!(!other.is_continue());
}

#[test]
fn binary_opcodes() {
    assert_eq!(binary_opcode_of(Token::Plus), Some(OpCode::Add));
    assert_eq!(binary_opcode_of(Token::Power), Some(OpCode::Pow));
    assert_eq!(binary_opcode_of(Token::And), None);
}

#[test]
fn patch_loop_resolves_break_and_continue() {
    let mut v: Vec<InstSrc> = vec![
        InstSrc { inst: ins(OpCode::Jmp, JMP_CONTINUE, 0, 0), src: None },
        InstSrc { inst: ins(OpCode::Move, 1, 2, 0), src: None },
        InstSrc { inst: ins(OpCode::Jmp, JMP_BREAK, 0, 0), src: None },
        InstSrc { inst: ins(OpCode::Jmp, JMP_CONTINUE, 0, 0), src: None },
    ];
    patch_loop(&mut v);
    assert_eq!(v[0].inst, ins(OpCode::Jmp, 0, 0, 0));
    assert_eq!(v[1].inst, ins(OpCode::Move, 1, 2, 0));
    assert_eq!(v[2].inst, ins(OpCode::Jmp, 0, 0, 2));
    assert_eq!(v[3].inst, ins(OpCode::Jmp, 0, 0xff, 0xfd));
    assert_eq!(3 + v[3].inst.sbx() as i64, 0);
    assert_eq!(2 + v[2].inst.sbx() as i64, 4);
}

#[test]
fn patch_to_end_fills_blank_jumps() {
    let mut v: Vec<InstSrc> = vec![
        InstSrc { inst: ins(OpCode::Jmp, 0, 0, 0), src: None },
        InstSrc { inst: ins(OpCode::Jmp, 0, 0, 5), src: None },
        InstSrc { inst: ins(OpCode::Jmp, 0, 0, 0), src: None },
    ];
    patch_to_end(&mut v);
    assert_eq!(v[0].inst, ins(OpCode::Jmp, 0, 0, 3));
    assert_eq!(v[1].inst, ins(OpCode::Jmp, 0, 0, 5));
    assert_eq!(v[2].inst, ins(OpCode::Jmp, 0, 0, 1));
}

#[test]
fn add_upvalue_reuses_existing_captures() {
    let mut ctx = FnContext {
        name: "f".to_string(),
        loop_count: 0,
        register_count: 0,
        chunks: vec![],
        blocks: vec![],
        upvalues: vec![],
    };
    assert_eq!(ctx.add_upvalue(3, true), 0);
    assert_eq!(ctx.add_upvalue(4, false), 1);
    assert_eq!(ctx.add_upvalue(3, true), 0);
    assert_eq!(ctx.add_upvalue(3, false), 2);
    assert_eq!(ctx.upvalues.len(), 3);
    assert_eq!(ctx.upvalues[1], UpvalueRef { is_local: false, index: 4 });
}

#[test]
fn leave_function_appends_return() {
    let mut compiler = Compiler::new();
    compiler.enter_function("f".to_string());
    let ix = compiler.leave_function(2);
    assert_eq!(ix, 0);
    assert!(compiler.contexts.is_empty());
    let p = &compiler.prototypes[0];
    assert_eq!(p.instructions, vec![ins(OpCode::Return, 0, 0, 0)]);
    assert_eq!(p.param_count, 2);
    assert_eq!(p.name, "f");
}

#[test]
fn compile_global_let() {
    let compiler = compiled("let a = 1\n");
    assert_eq!(compiler.globals, vec!["a".to_string()]);
    assert_eq!(compiler.constants, vec![Literal::String("a".to_string()), Literal::Number("1".to_string())]);
    let chunk = &compiler.contexts[0].chunks[0];
    assert_eq!(insts(chunk), vec![ins(OpCode::LoadK, 0, 0, 1), ins(OpCode::SetGlobal, 0, 0, 0)]);
    assert_eq!(program_instructions(&compiler).len(), 2);
}

#[test]
fn compile_global_declared_twice_fails() {
    let mut compiler = Compiler::new();
    let stmts = parse_source_code("let a = 1\nlet a = 2\n".to_string()).unwrap();
    let err = compiler.compile(stmts).unwrap_err();
    assert_eq!(err.kind, CompileErrorKind::GlobalAlreadyDefined);
    assert_eq!(err.token.as_ref().unwrap().lexeme, "a");
    assert_eq!(err.message(), "Global already defined");
}

#[test]
fn compile_undefined_variable_fails() {
    let mut compiler = Compiler::new();
    let stmts = parse_source_code("b\n".to_string()).unwrap();
    let err = compiler.compile(stmts).unwrap_err();
    assert_eq!(err.kind, CompileErrorKind::UndefinedVariable);
    assert_eq!(err.message(), "Undefined variable");
}

#[test]
fn compile_builtin_variable() {
    let compiler = compiled("io\n");
    let chunk = &compiler.contexts[0].chunks[0];
    assert_eq!(insts(chunk), vec![ins(OpCode::GetBuiltin, 0, 0, 0)]);
    assert_eq!(compiler.constants, vec![Literal::String("io".to_string())]);
}

#[test]
fn compile_if_else_jumps_to_end() {
    let compiler = compiled("if true {\n 1\n} else {\n 2\n}\n");
    let chunk = &compiler.contexts[0].chunks[0];
    assert_eq!(
        insts(chunk),
        vec![
            ins(OpCode::LoadK, 0, 0, 0),
            ins(OpCode::Test, 0, 0, 0),
            ins(OpCode::Jmp, 0, 0, 3),
            ins(OpCode::LoadK, 1, 0, 1),
            ins(OpCode::Jmp, 0, 0, 2),
            ins(OpCode::LoadK, 2, 0, 2),
        ]
    );
}

#[test]
fn compile_while_leaves_no_marked_jumps() {
    let compiler = compiled("let i = 0\nwhile i < 3 {\n i = i + 1\n if i == 2 {\n break\n }\n continue\n}\n");
    let chunk = &compiler.contexts[0].chunks[1];
    let n = chunk.instructions.len() as i64;
    for (k, x) in chunk.instructions.iter().enumerate() {
        assert!(!(x.inst.opcode == OpCode::Jmp && (x.inst.a == JMP_BREAK || x.inst.a == JMP_CONTINUE)));
        if x.inst.opcode == OpCode::Jmp {
            let target = k as i64 + x.inst.sbx() as i64;
            assert!(0 <= target && target <= n);
        }
    }
    let last = chunk.instructions.last().unwrap().inst;
    assert_eq!(last.opcode, OpCode::Jmp);
    assert_eq!(n - 1 + last.sbx() as i64, 0);
}

#[test]
fn compile_closure_captures_enclosing_local() {
    let compiler = compiled("fn outer() {\n let x = 1\n fn inner() {\n x\n }\n}\n");
    assert_eq!(compiler.prototypes.len(), 2);
    let inner = &compiler.prototypes[0];
    assert_eq!(inner.name, "inner");
    assert_eq!(inner.upvalues, vec![UpvalueRef { is_local: true, index: 1 }]);
    assert_eq!(
        inner.instructions,
        vec![
            ins(OpCode::GetCurrentFunc, 0, 0, 0),
            ins(OpCode::GetUpval, 1, 0, 0),
            ins(OpCode::Return, 1, 3, 0),
            ins(OpCode::Return, 0, 0, 0),
        ]
    );
    let outer = &compiler.prototypes[1];
    assert_eq!(outer.name, "outer");
    assert_eq!(*outer.instructions.last().unwrap(), ins(OpCode::Return, 0, 0, 0));
}

#[test]
fn compile_source_reports_syntax_errors() {
    let mut compiler = Compiler::new();
    match compile_source(&mut compiler, "let = \n".to_string()) {
        Err(SourceError::Syntax(errors)) => assert!(!errors.is_empty()),
        other => panic!("unexpected {:?}", other),
    }
}

#[test]
fn compile_source_reports_compile_errors() {
    let mut compiler = Compiler::new();
    match compile_source(&mut compiler, "undefined_name\n".to_string()) {
        Err(SourceError::Compile(e)) => assert_eq!(e.kind, CompileErrorKind::UndefinedVariable),
        other => panic!("unexpected {:?}", other),
    }
}

#[test]
fn compile_source_then_flatten() {
    let mut compiler = Compiler::new();
    compile_source(&mut compiler, "let a = [1, 2]\nlet b = a[0]\n".to_string()).unwrap();
    let all = program_instructions(&compiler);
    let chunks = &compiler.contexts[0].chunks;
    assert_eq!(all.len(), chunks[0].instructions.len() + chunks[1].instructions.len());
    assert_eq!(all[0].inst.opcode, OpCode::List);
    assert!(all.iter().any(|i| i.inst.opcode == OpCode::Access));
}

fn targets_inside(program: &[Instruction]) -> bool {
    let len = program.len() as i64;
    program.iter().enumerate().all(|(k, x)| {
        let k = k as i64;
        match x.opcode {
            OpCode::Jmp => {
                let t = k + x.sbx() as i64;
                0 <= t && t <= len
            }
            OpCode::Test => k + 2 <= len,
            OpCode::RegisterTryCatch => k + (x.bx() as i64) <= len,
            _ => true,
        }
    })
}

fn targets_on_instructions(program: &[Instruction]) -> bool {
    let len = program.len() as i64;
    program.iter().enumerate().all(|(k, x)| {
        let k = k as i64;
        match x.opcode {
            OpCode::Jmp => {
                let t = k + x.sbx() as i64;
                0 <= t && t < len
            }
            OpCode::Test => k + 2 < len,
            OpCode::RegisterTryCatch => k + (x.bx() as i64) < len,
            _ => true,
        }
    })
}

const CONTROL_FLOW: &str = "let a = 1
let b = [1, 2, 3]
if a > 0 {
a = 2
} elif a < 0 {
a = 3
} elif a == 0 {
a = 4
} else {
a = 5
}
while a < 10 {
a = a + 1
if a == 7 {
break
}
if a == 3 {
continue
}
}
for let i = 0; i < 3; i = i + 1 {
if i == 1 {
continue
}
a = a + i
}
for x in b {
if x == 2 {
break
}
}
for k, v in b {
a = a or k
}
try {
a = a and b
}
catch err {
a = nil
}
fn f(n) {
if n < 2 {
return n
}
return f(n - 1) + f(n - 2)
}
let g = fn (m) {
while m > 0 {
m = m - 1
}
}
";

#[test]
fn compiled_jumps_stay_inside_the_program() {
    let compiler = compiled(CONTROL_FLOW);
    for ctx in &compiler.contexts {
        for chunk in &ctx.chunks {
            assert!(targets_inside(&insts(chunk)));
        }
    }
    let program: Vec<Instruction> = program_instructions(&compiler).iter().map(|i| i.inst).collect();
    assert!(program.iter().any(|x| x.opcode == OpCode::Jmp));
    assert!(program.iter().any(|x| x.opcode == OpCode::RegisterTryCatch));
    assert!(targets_inside(&program));
}

#[test]
fn compiled_functions_jump_onto_their_instructions() {
    let compiler = compiled(CONTROL_FLOW);
    assert!(compiler.prototypes.len() >= 2);
    for p in &compiler.prototypes {
        assert!(targets_on_instructions(&p.instructions));
        assert_eq!(p.instructions.last().map(|x| x.opcode), Some(OpCode::Return));
    }
}

#[test]
fn compile_runs_out_of_registers() {
    let terms: Vec<String> = (0..300).map(|i| format!("{}", i)).collect();
    let source = format!("fn f() {{\nreturn {}\n}}\n", terms.join(" + "));
    let stmts = parse_source_code(source).expect("parses");
    let mut compiler = Compiler::new();
    match compiler.compile(stmts) {
        Err(e) => {
            assert_eq!(e.kind, CompileErrorKind::OutOfRegisters);
            assert_eq!(e.message(), "Ran out of registers");
        }
        Ok(()) => panic!("more than 255 registers are needed"),
    }
}

/// A name of letters only (identifiers hold no digits).
fn letters(prefix: &str, mut i: usize) -> String {
    let mut s = String::from(prefix);
    loop {
        s.push((b'a' + (i % 26) as u8) as char);
        i /= 26;
        if i == 0 {
            return s;
        }
    }
}

#[test]
fn compile_has_too_many_upvalues() {
    let outer: Vec<String> = (0..150).map(|i| format!("let {} = {}\n", letters("vo", i), i)).collect();
    let middle: Vec<String> = (0..150).map(|i| format!("let {} = {}\n", letters("vm", i), i)).collect();
    let uses: Vec<String> = (0..150).map(|i| format!("{} + {}", letters("vo", i), letters("vm", i))).collect();
    let source = format!(
        "fn outer() {{\n{}fn middle() {{\n{}fn inner() {{\nreturn [{}]\n}}\nreturn inner\n}}\nreturn middle\n}}\n",
        outer.concat(),
        middle.concat(),
        uses.join(", ")
    );
    let stmts = parse_source_code(source).expect("parses");
    let mut compiler = Compiler::new();
    match compiler.compile(stmts) {
        Err(e) => {
            assert_eq!(e.kind, CompileErrorKind::TooManyUpvalues);
            assert_eq!(e.message(), "Too many upvalues");
        }
        Ok(()) => panic!("more than 255 upvalues are needed"),
    }
}

#[test]
fn compile_refuses_a_class_without_name() {
    let class = ClassStmt { name: None, methods: vec![], static_methods: vec![], superclass: None };
    let mut compiler = Compiler::new();
    match compiler.compile(vec![Stmt::Class(class)]) {
        Err(e) => {
            assert_eq!(e.kind, CompileErrorKind::MalformedTree);
            assert_eq!(e.message(), "Malformed syntax tree");
        }
        Ok(()) => panic!("a class needs a name"),
    }
}

#[test]
fn compile_unary_operators() {
    let compiler = compiled("not true\n");
    assert_eq!(insts(&compiler.contexts[0].chunks[0]), vec![ins(OpCode::LoadK, 0, 0, 0), ins(OpCode::Not, 0, 0, 0)]);
    let compiler = compiled("-2\n");
    assert_eq!(insts(&compiler.contexts[0].chunks[0]), vec![ins(OpCode::LoadK, 0, 0, 0), ins(OpCode::Neg, 0, 0, 0)]);
}

#[test]
fn compile_operand_on_the_next_line_continues_the_expression() {
    let compiler = compiled("not true\n-2\n");
    assert_eq!(compiler.contexts[0].chunks.len(), 1);
    assert_eq!(insts(&compiler.contexts[0].chunks[0]).last().map(|x| x.opcode), Some(OpCode::Sub));
}

#[test]
fn compile_property_read() {
    let compiler = compiled("let a = {}\na.size\n");
    let chunk = &compiler.contexts[0].chunks[1];
    let code = insts(chunk);
    let n = code.len();
    assert!(n >= 2);
    assert_eq!(code[n - 1].opcode, OpCode::GetObj);
    assert_eq!(code[n - 1].a, chunk.result_register);
    assert_eq!(code[n - 1].c, chunk.result_register);
    assert_eq!(code[n - 2].opcode, OpCode::LoadK);
    assert_eq!(compiler.constants.last(), Some(&Literal::String("size".to_string())));
}

#[test]
fn compile_this_and_super() {
    let compiler = compiled("class A {\nf() {\nreturn this\n}\n}\nclass B < A {\ng() {\nreturn super.f\n}\n}\n");
    let opcodes: Vec<OpCode> = compiler.prototypes.iter().flat_map(|p| p.instructions.iter().map(|x| x.opcode)).collect();
    assert!(opcodes.contains(&OpCode::This));
    assert!(opcodes.contains(&OpCode::Super));
}

#[test]
fn local_variable_names_the_register_of_its_value() {
    let compiler = compiled("fn f() {\nlet x = 5\nreturn x\n}\n");
    let code = &compiler.prototypes[0].instructions;
    let k = code.iter().position(|x| x.opcode == OpCode::LoadK).expect("the value is loaded");
    let x_register = code[k].a;
    assert_eq!(code[k + 1], ins(OpCode::Return, x_register, x_register + 2, 0));
    assert_eq!(code.last(), Some(&ins(OpCode::Return, 0, 0, 0)));
}

#[test]
fn top_level_functions_and_classes_are_globals() {
    let compiler = compiled("fn f() {\nreturn 1\n}\nclass C {\n}\nlet v = 2\n");
    assert_eq!(compiler.globals, vec!["f".to_string(), "C".to_string(), "v".to_string()]);
}

#[test]
fn assigning_an_undeclared_name_fails() {
    let stmts = parse_source_code("x = 1\n".to_string()).unwrap();
    let mut compiler = Compiler::new();
    match compiler.compile(stmts) {
        Err(e) => {
            assert_eq!(e.kind, CompileErrorKind::UndefinedVariable);
            assert_eq!(e.token.map(|t| t.lexeme), Some("x".to_string()));
        }
        Ok(()) => panic!("x is not declared"),
    }
}

#[test]
fn reading_a_name_of_an_enclosing_function_captures_it() {
    let compiler = compiled("fn outer() {\nlet a = 1\nfn inner() {\nreturn a\n}\nreturn inner\n}\n");
    let inner = compiler.prototypes.iter().find(|p| p.name == "inner").expect("inner is compiled");
    assert_eq!(inner.upvalues.len(), 1);
    assert!(inner.upvalues[0].is_local);
    assert!(inner.instructions.iter().any(|x| x.opcode == OpCode::GetUpval));
}

#[test]
fn add_upvalue_returns_the_first_matching_capture() {
    let mut ctx = FnContext {
        name: "f".to_string(),
        loop_count: 0,
        register_count: 0,
        chunks: vec![],
        blocks: vec![],
        upvalues: vec![
            UpvalueRef { is_local: true, index: 7 },
            UpvalueRef { is_local: true, index: 7 },
        ],
    };
    assert_eq!(ctx.add_upvalue(7, true), 0);
    assert_eq!(ctx.upvalues.len(), 2);
    assert_eq!(ctx.add_upvalue(7, false), 2);
    assert_eq!(ctx.upvalues[2], UpvalueRef { is_local: false, index: 7 });
}

#[test]
fn compile_binary_reads_its_operands_in_order() {
    let compiler = compiled("1 - 2\n");
    let chunk = &compiler.contexts[0].chunks[0];
    assert_eq!(
        insts(chunk),
        vec![ins(OpCode::LoadK, 0, 0, 0), ins(OpCode::LoadK, 1, 0, 1), ins(OpCode::Sub, 2, 0, 1)]
    );
    assert_eq!(chunk.result_register, 2);
}

#[test]
fn compile_index_reads_the_collection_at_the_index() {
    let compiler = compiled("[5, 6][1]\n");
    let chunk = &compiler.contexts[0].chunks[0];
    let code = insts(chunk);
    let list = code[0];
    assert_eq!(list.opcode, OpCode::List);
    let last = *code.last().unwrap();
    let index_load = code[code.len() - 2];
    assert_eq!(index_load.opcode, OpCode::LoadK);
    assert_eq!(last, ins(OpCode::Access, chunk.result_register, list.a, index_load.a));
}

#[test]
fn compile_slice_pushes_start_stop_and_step() {
    let compiler = compiled("[5, 6, 7][1:]\n");
    let chunk = &compiler.contexts[0].chunks[0];
    let code = insts(chunk);
    let n = code.len();
    let last = code[n - 1];
    let slice = code[n - 2];
    assert_eq!(last.opcode, OpCode::Access);
    assert_eq!(last.a, chunk.result_register);
    assert_eq!(slice, ins(OpCode::Slice, last.c, last.c, 0));
    let start = code.iter().position(|x| *x == ins(OpCode::List, last.c, 0, 0)).unwrap();
    let nil = code[start + 1];
    let one = code[start + 2];
    assert_eq!(nil.opcode, OpCode::LoadNil);
    assert_eq!(one.opcode, OpCode::LoadK);
    // start 1, stop omitted (nil), step omitted without a second colon (1)
    assert_eq!(code[start + 3].opcode, OpCode::LoadK);
    assert_eq!(code[start + 4], ins(OpCode::PushList, last.c, code[start + 3].a, 0));
    assert_eq!(code[start + 5], ins(OpCode::PushList, last.c, nil.a, 0));
    assert_eq!(code[start + 6], ins(OpCode::PushList, last.c, one.a, 0));
    assert_eq!(start + 7, n - 2);
}

#[test]
fn compile_if_elif_branches_skip_to_the_next_and_leave_at_the_end() {
    let compiler = compiled("if false {\n 1\n} elif true {\n 2\n} else {\n 3\n}\n");
    let chunk = &compiler.contexts[0].chunks[0];
    let code = insts(chunk);
    let n = code.len() as i64;
    let tests: Vec<usize> = (0..code.len()).filter(|k| code[*k].opcode == OpCode::Test).collect();
    assert_eq!(tests.len(), 2);
    for t in tests {
        assert_eq!(code[t].c, 0);
        assert_eq!(code[t].a, code[t].b);
        let exit = code[t + 1];
        assert_eq!(exit.opcode, OpCode::Jmp);
        let end_jump = (t as i64 + 1 + exit.sbx() as i64 - 1) as usize;
        assert_eq!(code[end_jump].opcode, OpCode::Jmp);
        assert_eq!(end_jump as i64 + code[end_jump].sbx() as i64, n);
    }
    assert!(!code.iter().any(|x| *x == ins(OpCode::Jmp, 0, 0, 0)));
}

#[test]
fn compile_source_of_an_empty_program_succeeds() {
    let mut compiler = Compiler::new();
    assert!(compile_source(&mut compiler, "".to_string()).is_ok());
    assert_eq!(compiler.contexts.len(), 1);
    assert!(compiler.contexts[0].chunks.is_empty());
}

#[test]
fn compile_plain_statements_take_their_registers() {
    let compiler = compiled("1 + 2\n3\n");
    assert_eq!(compiler.contexts[0].chunks.len(), 2);
    assert_eq!(compiler.contexts[0].register_count, 4);
}
