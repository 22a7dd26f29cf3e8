//! The compiler: turns statements into instructions for the register machine.
//!
//! Each function being compiled has a context holding its register count, the
//! blocks of local variables in scope and the variables it captures from
//! enclosing functions (its upvalues). Compiling a statement or an expression
//! gives a chunk: instructions, and the register holding the result.

use vstd::prelude::*;
use vstd::string::*;
use crate::expr::{AccessExpr, AssignExpr, BinaryExpr, CallExpr, DictionaryExpr, Expr, FnExpr, GetExpr, ListExpr, LiteralExpr, LogicalExpr, SetExpr, SuperExpr, ThisExpr, UnaryExpr, VarExpr};
use crate::instruction::{hi_byte, lo_byte, spec_bx, spec_sbx, split_operand, Instruction, OpCode, JMP_BREAK, JMP_CONTINUE};
use crate::stmt::{BlockStmt, BreakStmt, ClassStmt, ClassicForStmt, ContinueStmt, ElifBranch, EnhancedForStmt, ExprStmt, FnStmt, IfStmt, LetStmt, ReturnStmt, Stmt, TryCatchStmt, WhileStmt};
use crate::syntax::{lemma_wf_elifs_at, lemma_wf_exprs_at, lemma_wf_fn_stmts_at, lemma_wf_stmts_at, wf_access, wf_elifs, wf_expr, wf_exprs, wf_fn_stmt, wf_fn_stmts, wf_stmt, wf_stmts};
use crate::token::{Literal, Token, TokenData};

verus! {

/// Where a captured variable lives: a register of the enclosing function
/// (`is_local`), or an upvalue of the enclosing function.
#[derive(Debug, Clone, Copy, PartialEq, Eq, Structural)]
pub struct UpvalueRef {
    pub is_local: bool,
    pub index: u8,
}

/// A compiled function.
#[derive(Debug)]
pub struct FnPrototype {
    pub instructions: Vec<Instruction>,
    pub register_count: u8,
    pub upvalues: Vec<UpvalueRef>,
    pub instruction_data: Vec<Option<TokenData>>,
    pub param_count: usize,
    pub name: String,
}

/// A function being compiled.
#[derive(Debug)]
pub struct FnContext {
    pub name: String,
    pub loop_count: u8,
    pub register_count: u8,
    pub chunks: Vec<Chunk>,
    pub blocks: Vec<Block>,
    pub upvalues: Vec<UpvalueRef>,
}

/// The local variables declared in a block.
#[derive(Debug)]
pub struct Block {
    pub locals: Vec<Local>,
}

/// A local variable and its register.
#[derive(Debug, Clone)]
pub struct Local {
    pub var_name: String,
    pub reg: u8,
}

/// An instruction and the token it was compiled from, if any.
#[derive(Debug, Clone)]
pub struct InstSrc {
    pub inst: Instruction,
    pub src: Option<TokenData>,
}

/// Instructions, and the register that holds their result.
#[derive(Debug)]
pub struct Chunk {
    pub instructions: Vec<InstSrc>,
    pub result_register: u8,
}

/// Constants, functions and globals of a program, and the functions being compiled.
#[derive(Debug)]
pub struct Compiler {
    pub constants: Vec<Literal>,
    pub contexts: Vec<FnContext>,
    pub prototypes: Vec<FnPrototype>,
    pub globals: Vec<String>,
}

/// Why a program cannot be compiled.
#[derive(Debug, Clone, Copy, PartialEq, Eq, Structural)]
pub enum CompileErrorKind {
    /// A variable that is neither local, captured, built in nor global.
    UndefinedVariable,
    /// A global declared twice.
    GlobalAlreadyDefined,
    /// A function needs more than 255 registers.
    OutOfRegisters,
    /// A function captures more than 255 variables.
    TooManyUpvalues,
    /// A syntax tree the parser does not build (a nameless variable or
    /// class, an unknown operator, a `for` without variables).
    MalformedTree,
}

/// A compilation error and the token it was found at, if any.
#[derive(Debug, Clone)]
pub struct CompileError {
    pub kind: CompileErrorKind,
    pub token: Option<TokenData>,
}

/// The message of an error kind.
pub open spec fn kind_message(k: CompileErrorKind) -> Seq<char> {
    match k {
        CompileErrorKind::UndefinedVariable => "Undefined variable"@,
        CompileErrorKind::GlobalAlreadyDefined => "Global already defined"@,
        CompileErrorKind::OutOfRegisters => "Ran out of registers"@,
        CompileErrorKind::TooManyUpvalues => "Too many upvalues"@,
        CompileErrorKind::MalformedTree => "Malformed syntax tree"@,
    }
}

impl CompileError {
    /// The message of this error.
    pub fn message(&self) -> (s: String)
        ensures
            s@ == kind_message(self.kind),
    {
        match self.kind {
            CompileErrorKind::UndefinedVariable => String::from_str("Undefined variable"),
            CompileErrorKind::GlobalAlreadyDefined => String::from_str("Global already defined"),
            CompileErrorKind::OutOfRegisters => String::from_str("Ran out of registers"),
            CompileErrorKind::TooManyUpvalues => String::from_str("Too many upvalues"),
            CompileErrorKind::MalformedTree => String::from_str("Malformed syntax tree"),
        }
    }
}

/// The result is no error of a syntax tree the parser does not build.
pub open spec fn no_malformed<T>(r: Result<T, CompileError>) -> bool {
    r matches Err(e) ==> e.kind != CompileErrorKind::MalformedTree
}

/// An error of kind `kind` at `token`.
fn error<T>(kind: CompileErrorKind, token: Option<TokenData>) -> (r: Result<T, CompileError>)
    ensures
        r matches Err(e) && e.kind == kind && e.token == token,
{
    Err(CompileError { kind: kind, token: token })
}

/// An instruction.
pub open spec fn inst(opcode: OpCode, a: u8, b: u8, c: u8) -> Instruction {
    Instruction { opcode: opcode, a: a, b: b, c: c }
}

/// Builds an instruction.
fn mk(opcode: OpCode, a: u8, b: u8, c: u8) -> (i: Instruction)
    ensures
        i == inst(opcode, a, b, c),
{
    Instruction { opcode: opcode, a: a, b: b, c: c }
}

/// The register of the last local named `name` among `locals`.
pub open spec fn lookup_in_block(locals: Seq<Local>, name: Seq<char>) -> Option<u8>
    decreases locals.len(),
{
    if locals.len() == 0 {
        None
    } else if locals.last().var_name@ == name {
        Some(locals.last().reg)
    } else {
        lookup_in_block(locals.drop_last(), name)
    }
}

/// The register of the innermost local named `name` in `blocks`, the
/// innermost block last.
pub open spec fn lookup_local(blocks: Seq<Block>, name: Seq<char>) -> Option<u8>
    decreases blocks.len(),
{
    if blocks.len() == 0 {
        None
    } else {
        match lookup_in_block(blocks.last().locals@, name) {
            Some(r) => Some(r),
            None => lookup_local(blocks.drop_last(), name),
        }
    }
}

/// The blocks of the function enclosing the one being compiled (none at the
/// top level).
pub open spec fn enclosing_blocks(contexts: Seq<FnContext>) -> Seq<Block> {
    if contexts.len() >= 2 {
        contexts[contexts.len() - 2].blocks@
    } else {
        Seq::empty()
    }
}

/// `name` is a local of one of the functions `contexts` (looked for from the
/// innermost out), none of them being the top level of the program, whose
/// variables are globals.
pub open spec fn capturable(contexts: Seq<FnContext>, name: Seq<char>) -> bool
    decreases contexts.len(),
{
    if contexts.len() == 0 || (contexts.len() == 1 && contexts.last().blocks@.len() == 1) {
        false
    } else {
        lookup_local(contexts.last().blocks@, name) is Some || capturable(contexts.drop_last(), name)
    }
}

/// No two upvalues are the same.
pub open spec fn distinct_upvalues(u: Seq<UpvalueRef>) -> bool {
    forall|i: int, j: int| 0 <= i < j < u.len() ==> u[i] != u[j]
}

/// No two of `names` are the same string.
pub open spec fn distinct_names(names: Seq<String>) -> bool {
    forall|i: int, j: int| 0 <= i < j < names.len() ==> (#[trigger] names[i])@ != (#[trigger] names[j])@
}

/// The names that denote the native modules.
pub open spec fn spec_is_builtin(name: Seq<char>) -> bool {
    ||| name == "io"@
    ||| name == "strings"@
    ||| name == "type"@
    ||| name == "env"@
    ||| name == "import"@
    ||| name == "net"@
    ||| name == "re"@
}

impl Block {
    /// The register of the last local named `name` in this block.
    fn lookup(&self, name: &String) -> (r: Option<u8>)
        ensures
            r == lookup_in_block(self.locals@, name@),
    {
        let mut i: usize = self.locals.len();
        assert(self.locals@.subrange(0, i as int) =~= self.locals@);
        while i > 0
            invariant
                0 <= i <= self.locals@.len(),
                lookup_in_block(self.locals@, name@) == lookup_in_block(self.locals@.subrange(0, i as int), name@),
            decreases i,
        {
            let ghost prefix = self.locals@.subrange(0, i as int);
            assert(prefix.drop_last() =~= self.locals@.subrange(0, i - 1));
            if self.locals[i - 1].var_name == *name {
                return Some(self.locals[i - 1].reg);
            }
            i = i - 1;
        }
        None
    }
}

impl FnContext {
    /// Records that the function captures `index` (a register of the enclosing
    /// function when `is_local`, one of its upvalues otherwise), unless it
    /// already does; returns the position of the capture (the first one that
    /// matches, where the list holds it).
    pub fn add_upvalue(&mut self, index: u8, is_local: bool) -> (r: u8)
        requires
            old(self).upvalues@.len() <= 255,
            old(self).upvalues@.len() < 255 || old(self).upvalues@.contains(UpvalueRef { is_local: is_local, index: index }),
        ensures
            distinct_upvalues(old(self).upvalues@) ==> distinct_upvalues(final(self).upvalues@),
            final(self).upvalues@.len() <= 255,
            r < final(self).upvalues@.len(),
            final(self).upvalues@[r as int] == (UpvalueRef { is_local: is_local, index: index }),
            forall|k: int| 0 <= k < r ==> final(self).upvalues@[k] != (UpvalueRef { is_local: is_local, index: index }),
            !old(self).upvalues@.contains(UpvalueRef { is_local: is_local, index: index }) ==> r == old(self).upvalues@.len(),
            old(self).upvalues@.contains(UpvalueRef { is_local: is_local, index: index }) ==> final(self).upvalues@ == old(self).upvalues@,
            !old(self).upvalues@.contains(UpvalueRef { is_local: is_local, index: index }) ==> final(self).upvalues@ == old(self).upvalues@.push(UpvalueRef { is_local: is_local, index: index }),
            final(self).name == old(self).name,
            final(self).loop_count == old(self).loop_count,
            final(self).register_count == old(self).register_count,
            final(self).chunks == old(self).chunks,
            final(self).blocks == old(self).blocks,
    {
        let ghost target = UpvalueRef { is_local: is_local, index: index };
        let mut i: usize = 0;
        while i < self.upvalues.len()
            invariant
                0 <= i <= self.upvalues@.len(),
                self.upvalues@.len() <= 255,
                target == (UpvalueRef { is_local: is_local, index: index }),
                self.upvalues == old(self).upvalues,
                self.name == old(self).name,
                self.loop_count == old(self).loop_count,
                self.register_count == old(self).register_count,
                self.chunks == old(self).chunks,
                self.blocks == old(self).blocks,
                forall|k: int| 0 <= k < i ==> self.upvalues@[k] != target,
            decreases self.upvalues@.len() - i,
        {
            let up = self.upvalues[i];
            if up.is_local == is_local && up.index == index {
                assert(up == self.upvalues@[i as int]);
                assert(self.upvalues@[i as int] == target);
                return i as u8;
            }
            i = i + 1;
        }
        assert(!self.upvalues@.contains(target));
        self.upvalues.push(UpvalueRef { is_local: is_local, index: index });
        (self.upvalues.len() - 1) as u8
    }
}

/// A context whose blocks and upvalues can be worked with: at least one block,
/// at most 255 distinct upvalues; and chunks that send control only inside
/// themselves.
pub open spec fn ctx_ok(c: FnContext) -> bool {
    &&& c.blocks@.len() > 0
    &&& c.upvalues@.len() <= 255
    &&& distinct_upvalues(c.upvalues@)
    &&& forall|j: int| 0 <= j < c.chunks@.len() ==> jumps_stay_inside(#[trigger] c.chunks@[j].instructions@)
}

/// Every context of `s` can be worked with.
pub open spec fn ctxs_ok(s: Seq<FnContext>) -> bool {
    forall|i: int| 0 <= i < s.len() ==> ctx_ok(#[trigger] s[i])
}

/// `a` is a prefix of `b`.
pub open spec fn extends<T>(a: Seq<T>, b: Seq<T>) -> bool {
    a.len() <= b.len() && forall|i: int| 0 <= i < a.len() ==> b[i] == a[i]
}

/// The instructions of `chunks`, one chunk after the other.
pub open spec fn flatten_chunks(chunks: Seq<Chunk>) -> Seq<InstSrc>
    decreases chunks.len(),
{
    if chunks.len() == 0 {
        Seq::empty()
    } else {
        flatten_chunks(chunks.drop_last()) + chunks.last().instructions@
    }
}

/// Where instruction `k` of `s` may send control stays inside `s`, its end
/// included: the target of a jump, both instructions after a test (the next
/// one may be skipped), the handler a `RegisterTryCatch` registers.
pub open spec fn lands_inside(s: Seq<InstSrc>, k: int) -> bool {
    let x = s[k].inst;
    &&& x.opcode == OpCode::Jmp ==> 0 <= k + spec_sbx(x.b, x.c) <= s.len()
    &&& x.opcode == OpCode::Test ==> k + 2 <= s.len()
    &&& x.opcode == OpCode::RegisterTryCatch ==> k + spec_bx(x.b, x.c) <= s.len()
}

/// Every instruction of `s` sends control only inside `s`.
pub open spec fn jumps_inside(s: Seq<InstSrc>) -> bool {
    forall|k: int| 0 <= k < s.len() ==> #[trigger] lands_inside(s, k)
}

/// When `s` is short enough for its offsets (fewer than 32768 instructions),
/// it sends control only inside itself.
pub open spec fn jumps_stay_inside(s: Seq<InstSrc>) -> bool {
    s.len() < 32768 ==> jumps_inside(s)
}

/// An instruction after which control goes on to the next one.
pub open spec fn is_plain(x: Instruction) -> bool {
    x.opcode != OpCode::Jmp && x.opcode != OpCode::Test && x.opcode != OpCode::RegisterTryCatch
}

/// Instructions that stay inside themselves, one after the other, stay
/// inside the whole.
pub(crate) proof fn lemma_inside_concat(a: Seq<InstSrc>, b: Seq<InstSrc>)
    requires
        jumps_stay_inside(a),
        jumps_stay_inside(b),
    ensures
        jumps_stay_inside(a + b),
{
    if (a + b).len() < 32768 {
        assert forall|k: int| 0 <= k < (a + b).len() implies #[trigger] lands_inside(a + b, k) by {
            if k < a.len() {
                assert((a + b)[k] == a[k]);
                assert(lands_inside(a, k));
            } else {
                assert((a + b)[k] == b[k - a.len()]);
                assert(lands_inside(b, k - a.len()));
            }
        }
    }
}

/// A plain instruction after instructions that stay inside themselves keeps
/// them so.
proof fn lemma_inside_push(a: Seq<InstSrc>, x: InstSrc)
    requires
        jumps_stay_inside(a),
        is_plain(x.inst),
    ensures
        jumps_stay_inside(a.push(x)),
{
    if a.push(x).len() < 32768 {
        assert forall|k: int| 0 <= k < a.push(x).len() implies #[trigger] lands_inside(a.push(x), k) by {
            if k < a.len() {
                assert(a.push(x)[k] == a[k]);
                assert(lands_inside(a, k));
            }
        }
    }
}

/// An instruction of `s` at `k` that is instruction `k - off` of a block laid
/// out at `off` sends control inside `s` when the block stays inside itself.
proof fn lemma_inside_block(s: Seq<InstSrc>, off: int, block: Seq<InstSrc>, k: int)
    requires
        0 <= off,
        off + block.len() <= s.len(),
        off <= k < off + block.len(),
        s[k] == block[k - off],
        s.len() < 32768,
        jumps_stay_inside(block),
    ensures
        lands_inside(s, k),
{
    assert(lands_inside(block, k - off));
}

/// A loop laid out as its condition, a test, a jump past the loop, its body
/// and a jump back to the start sends control only inside itself.
proof fn lemma_loop_inside(cond: Seq<InstSrc>, test: InstSrc, exit: InstSrc, body: Seq<InstSrc>, back: InstSrc)
    requires
        jumps_stay_inside(cond),
        jumps_stay_inside(body),
        test.inst.opcode == OpCode::Test,
        cond.len() + body.len() + 3 < 32768 ==> exit.inst == inst(
            OpCode::Jmp,
            0,
            hi_byte(body.len() + 2 as int),
            lo_byte(body.len() + 2 as int),
        ),
        cond.len() + body.len() + 3 < 32768 ==> back.inst == inst(
            OpCode::Jmp,
            0,
            hi_byte(-(body.len() + cond.len() + 2 as int)),
            lo_byte(-(body.len() + cond.len() + 2 as int)),
        ),
    ensures
        jumps_stay_inside(cond + seq![test, exit] + body + seq![back]),
{
    let s = cond + seq![test, exit] + body + seq![back];
    let n = cond.len() as int;
    let m = body.len() as int;
    if s.len() < 32768 {
        assert forall|k: int| 0 <= k < s.len() implies #[trigger] lands_inside(s, k) by {
            if k < n {
                assert(s[k] == cond[k]);
                lemma_inside_block(s, 0, cond, k);
            } else if k == n {
                assert(s[k] == test);
            } else if k == n + 1 {
                assert(s[k] == exit);
                crate::instruction::lemma_sbx_roundtrip(m + 2);
            } else if k < n + 2 + m {
                assert(s[k] == body[k - n - 2]);
                lemma_inside_block(s, n + 2, body, k);
            } else {
                assert(s[k] == back);
                crate::instruction::lemma_sbx_roundtrip(-(m + n + 2));
            }
        }
    }
}

/// A try-catch laid out as the registration of its handler, the try body, the
/// end of the registration, a blank jump, the handler (which takes the
/// exception and ends the registration) and the catch body sends control only
/// inside itself when the handler is registered at its position.
proof fn lemma_try_inside(
    head: InstSrc,
    try_body: Seq<InstSrc>,
    dereg: InstSrc,
    blank: InstSrc,
    get_except: InstSrc,
    dereg2: InstSrc,
    catch_body: Seq<InstSrc>,
)
    requires
        jumps_stay_inside(try_body),
        jumps_stay_inside(catch_body),
        try_body.len() + catch_body.len() + 5 < 32768 ==> head.inst == inst(
            OpCode::RegisterTryCatch,
            0,
            hi_byte(try_body.len() + 3 as int),
            lo_byte(try_body.len() + 3 as int),
        ),
        is_plain(dereg.inst),
        is_blank_jump(blank.inst),
        is_plain(get_except.inst),
        is_plain(dereg2.inst),
    ensures
        jumps_stay_inside(seq![head] + try_body + seq![dereg, blank, get_except, dereg2] + catch_body),
{
    let s = seq![head] + try_body + seq![dereg, blank, get_except, dereg2] + catch_body;
    let t = try_body.len() as int;
    if s.len() < 32768 {
        assert forall|k: int| 0 <= k < s.len() implies #[trigger] lands_inside(s, k) by {
            if k == 0 {
                assert(s[k] == head);
                crate::instruction::lemma_bx_roundtrip(t + 3);
            } else if k < t + 1 {
                assert(s[k] == try_body[k - 1]);
                lemma_inside_block(s, 1, try_body, k);
            } else if k == t + 1 {
                assert(s[k] == dereg);
            } else if k == t + 2 {
                assert(s[k] == blank);
            } else if k == t + 3 {
                assert(s[k] == get_except);
            } else if k == t + 4 {
                assert(s[k] == dereg2);
            } else {
                assert(s[k] == catch_body[k - t - 5]);
                lemma_inside_block(s, t + 5, catch_body, k);
            }
        }
    }
}

/// Whether `x` is a jump whose offset is still to be filled in.
fn is_blank(x: Instruction) -> (r: bool)
    ensures
        r == is_blank_jump(x),
{
    x.opcode == OpCode::Jmp && x.a == 0 && x.b == 0 && x.c == 0
}

/// A branch laid out as its condition, a test, a jump past the branch, the
/// branch and a blank jump sends control only inside itself.
proof fn lemma_branch_inside(cond: Seq<InstSrc>, test: InstSrc, exit: InstSrc, body: Seq<InstSrc>, blank: InstSrc)
    requires
        jumps_stay_inside(cond),
        jumps_stay_inside(body),
        test.inst.opcode == OpCode::Test,
        cond.len() + body.len() + 3 < 32768 ==> exit.inst == inst(
            OpCode::Jmp,
            0,
            hi_byte(body.len() + 2 as int),
            lo_byte(body.len() + 2 as int),
        ),
        is_blank_jump(blank.inst),
    ensures
        jumps_stay_inside(cond + seq![test, exit] + body + seq![blank]),
{
    let s = cond + seq![test, exit] + body + seq![blank];
    let n = cond.len() as int;
    let m = body.len() as int;
    if s.len() < 32768 {
        assert forall|k: int| 0 <= k < s.len() implies #[trigger] lands_inside(s, k) by {
            if k < n {
                assert(s[k] == cond[k]);
                lemma_inside_block(s, 0, cond, k);
            } else if k == n {
                assert(s[k] == test);
            } else if k == n + 1 {
                assert(s[k] == exit);
                crate::instruction::lemma_sbx_roundtrip(m + 2);
            } else if k < n + 2 + m {
                assert(s[k] == body[k - n - 2]);
                lemma_inside_block(s, n + 2, body, k);
            } else {
                assert(s[k] == blank);
            }
        }
    }
}

/// A branch of an `if` laid out in `s` before its end jump is resolved: at `t`
/// the test of the condition's register (skipping the next instruction when
/// it holds), at `t + 1` a jump to `e + 1`, then the branch, which ends at `e`
/// with a jump still to be resolved.
pub open spec fn branch_laid(s: Seq<InstSrc>, t: int, e: int) -> bool {
    &&& 0 <= t && t + 1 < e < s.len()
    &&& s[t].inst.opcode == OpCode::Test && s[t].inst.a == s[t].inst.b && s[t].inst.c == 0
    &&& s[t + 1].inst.opcode == OpCode::Jmp && s[t + 1].inst.a == 0
    &&& s.len() < 32768 ==> s[t + 1].inst == inst(OpCode::Jmp, 0, hi_byte(e - t), lo_byte(e - t))
    &&& is_blank_jump(s[e].inst)
}

/// A branch of an `if` in its final code `s`: at `t` the test of the
/// condition's register, at `t + 1` a jump taken when the condition is false,
/// which lands just after the branch's end jump at `e`; that end jump lands
/// just after the whole statement (when the offsets fit, below 32768
/// instructions).
pub open spec fn guarded_branch(s: Seq<InstSrc>, t: int, e: int) -> bool {
    &&& 0 <= t && t + 1 < e < s.len()
    &&& s[t].inst.opcode == OpCode::Test && s[t].inst.a == s[t].inst.b && s[t].inst.c == 0
    &&& s[t + 1].inst.opcode == OpCode::Jmp && s[t + 1].inst.a == 0
    &&& s[e].inst.opcode == OpCode::Jmp && s[e].inst.a == 0
    &&& s.len() < 32768 ==> t + 1 + spec_sbx(s[t + 1].inst.b, s[t + 1].inst.c) == e + 1
    &&& s.len() < 32768 ==> e + spec_sbx(s[e].inst.b, s[e].inst.c) == s.len()
}

/// The guarded branches of an `if` in its code `s`, one after the other: the
/// tests at `tests` and the end jumps at `ends`.
pub open spec fn if_branches(s: Seq<InstSrc>, tests: Seq<int>, ends: Seq<int>) -> bool {
    &&& tests.len() == ends.len()
    &&& forall|j: int| 0 <= j < tests.len() ==> guarded_branch(s, #[trigger] tests[j], ends[j])
    &&& forall|j: int| 0 <= j && j + 1 < tests.len() ==> ends[j] < #[trigger] tests[j + 1]
}

/// The code `s` of an `if` holds `n` guarded branches, one after the other.
pub open spec fn if_laid_out(s: Seq<InstSrc>, n: int) -> bool {
    exists|tests: Seq<int>, ends: Seq<int>| tests.len() == n && #[trigger] if_branches(s, tests, ends)
}

/// No jump of `s` is left to be resolved.
pub open spec fn no_blank_jump(s: Seq<InstSrc>) -> bool {
    forall|k: int| 0 <= k < s.len() ==> !is_blank_jump(#[trigger] s[k].inst)
}

/// Laid-out branches stay laid out when instructions are added after them.
proof fn lemma_branch_laid_grows(s: Seq<InstSrc>, s2: Seq<InstSrc>, t: int, e: int)
    requires
        branch_laid(s, t, e),
        s.len() <= s2.len(),
        forall|k: int| 0 <= k < s.len() ==> s2[k] == s[k],
    ensures
        branch_laid(s2, t, e),
{
    assert(s2[t] == s[t]);
    assert(s2[t + 1] == s[t + 1]);
    assert(s2[e] == s[e]);
}

/// Once the end jumps are resolved, a laid-out branch is a guarded branch.
proof fn lemma_branch_resolved(pre: Seq<InstSrc>, s: Seq<InstSrc>, t: int, e: int)
    requires
        branch_laid(pre, t, e),
        s.len() == pre.len(),
        forall|k: int| 0 <= k < s.len() ==> (#[trigger] s[k]).inst == end_patched(pre[k].inst, k, pre.len() as int),
    ensures
        guarded_branch(s, t, e),
{
    assert(s[t].inst == end_patched(pre[t].inst, t, pre.len() as int));
    assert(s[t + 1].inst == end_patched(pre[t + 1].inst, t + 1, pre.len() as int));
    assert(s[e].inst == end_patched(pre[e].inst, e, pre.len() as int));
    if s.len() < 32768 {
        crate::instruction::lemma_sbx_roundtrip(e - t);
        crate::instruction::lemma_sbx_roundtrip(s.len() - e);
        assert(!is_blank_jump(pre[t + 1].inst));
    }
}

/// Once the end jumps of fewer than 32768 instructions are resolved, none is
/// left blank.
proof fn lemma_no_blank_left(pre: Seq<InstSrc>, s: Seq<InstSrc>)
    requires
        s.len() == pre.len(),
        s.len() < 32768,
        forall|k: int| 0 <= k < s.len() ==> (#[trigger] s[k]).inst == end_patched(pre[k].inst, k, pre.len() as int),
    ensures
        no_blank_jump(s),
{
    assert forall|k: int| 0 <= k < s.len() implies !is_blank_jump(#[trigger] s[k].inst) by {
        assert(s[k].inst == end_patched(pre[k].inst, k, pre.len() as int));
        if is_blank_jump(pre[k].inst) {
            crate::instruction::lemma_sbx_roundtrip(s.len() - k);
        }
    }
}

/// Chunks that each send control only inside themselves, laid one after the
/// other, send control only inside the whole.
pub(crate) proof fn lemma_flatten_inside(chunks: Seq<Chunk>)
    requires
        forall|j: int| 0 <= j < chunks.len() ==> jumps_stay_inside(#[trigger] chunks[j].instructions@),
    ensures
        jumps_stay_inside(flatten_chunks(chunks)),
    decreases chunks.len(),
{
    if chunks.len() > 0 {
        assert forall|j: int| 0 <= j < chunks.drop_last().len() implies jumps_stay_inside(
            #[trigger] chunks.drop_last()[j].instructions@,
        ) by {
            assert(chunks.drop_last()[j] == chunks[j]);
        }
        lemma_flatten_inside(chunks.drop_last());
        assert(jumps_stay_inside(chunks[chunks.len() - 1].instructions@));
        lemma_inside_concat(flatten_chunks(chunks.drop_last()), chunks.last().instructions@);
    }
}

/// Every jump, test and handler registration of the instructions `s` of a
/// function sends control to one of them.
pub open spec fn lands_on_instructions(s: Seq<Instruction>) -> bool {
    forall|k: int| 0 <= k < s.len() ==> {
        &&& (#[trigger] s[k]).opcode == OpCode::Jmp ==> 0 <= k + spec_sbx(s[k].b, s[k].c) < s.len()
        &&& s[k].opcode == OpCode::Test ==> k + 2 < s.len()
        &&& s[k].opcode == OpCode::RegisterTryCatch ==> k + spec_bx(s[k].b, s[k].c) < s.len()
    }
}

/// A loop's instructions: they end with a jump back to `start`, and hold a
/// test whose following jump leaves the loop, landing at its end.
pub open spec fn loops_back(s: Seq<InstSrc>, start: int) -> bool {
    &&& s.len() >= 3
    &&& s.last().inst.opcode == OpCode::Jmp
    &&& s.len() < 32768 ==> s.len() - 1 + spec_sbx(s.last().inst.b, s.last().inst.c) == start
    &&& exists|n: int| 0 <= n && n + 2 < s.len() && #[trigger] s[n].inst.opcode == OpCode::Test && tests_then_leaves(s, n)
}

/// The test at `n` of `s` is followed by a jump to the end of `s`.
pub open spec fn tests_then_leaves(s: Seq<InstSrc>, n: int) -> bool {
    &&& s[n + 1].inst.opcode == OpCode::Jmp
    &&& s.len() < 32768 ==> n + 1 + spec_sbx(s[n + 1].inst.b, s[n + 1].inst.c) == s.len()
}

/// What the chunk `c` compiled from the expression `e` shows of it.
pub open spec fn expr_code(e: Expr, c: Chunk) -> bool {
    expr_insts(e, c.instructions@, c.result_register)
}

/// What the instructions `s` compiled from the expression `e`, with its result
/// in register `r`, show of it: the instructions that end (or begin) them, and
/// for an operation on operands, the code of each operand laid out in order
/// and the registers the operation reads.
pub open spec fn expr_insts(e: Expr, s: Seq<InstSrc>, r: u8) -> bool
    decreases e, 2int,
{
    match e {
        Expr::Literal(_) => s.len() == 1 && s[0].inst.opcode == OpCode::LoadK && s[0].inst.a == r,
        Expr::Binary(b) => {
            &&& s.len() > 0
            &&& binary_opcode(b.operator.token) is Some
            &&& s.last().inst == inst(binary_opcode(b.operator.token)->0, r, s.last().inst.b, s.last().inst.c)
            &&& exists|k: int|
                0 <= k < s.len() && expr_insts(*b.left, #[trigger] s.subrange(0, k), s.last().inst.b) && expr_insts(
                    *b.right,
                    s.subrange(k, s.len() - 1),
                    s.last().inst.c,
                )
        },
        Expr::Logical(l) => {
            &&& s.len() > 0
            &&& s.last().inst.opcode == OpCode::Move
            &&& s.last().inst.a == r
            &&& exists|n: int| 0 <= n && n + 1 < s.len() && (#[trigger] s[n]).inst == inst(
                OpCode::Test,
                r,
                r,
                if l.operator.token == Token::Or { 1 } else { 0 },
            ) && tests_then_leaves(s, n) && expr_insts(*l.left, s.subrange(0, n), r) && expr_insts(
                *l.right,
                s.subrange(n + 2, s.len() - 1),
                s.last().inst.b,
            )
        },
        Expr::Unary(u) => s.len() > 0 && s.last().inst == inst(
            if u.operator.token == Token::Not { OpCode::Not } else { OpCode::Neg },
            r,
            r,
            0,
        ),
        Expr::Call(_) => s.len() > 0 && s.last().inst.opcode == OpCode::Call,
        Expr::Get(_) => s.len() >= 2 && s.last().inst.opcode == OpCode::GetObj && s.last().inst.a == r,
        Expr::SetProp(st) => s.len() > 0 && s.last().inst.opcode == (if st.access is Some {
            OpCode::SetElem
        } else {
            OpCode::SetObj
        }),
        Expr::Access(a) => access_insts(a, OpCode::Access, s, r),
        Expr::List(l) => {
            &&& s.len() > 0
            &&& s[0].inst == inst(OpCode::List, r, 0, 0)
            &&& l.elements@.len() == 0 ==> s.len() == 1
            &&& l.elements@.len() > 0 ==> s.last().inst.opcode == OpCode::PushList && s.last().inst.a == r
        },
        Expr::Dictionary(d) => {
            &&& s.len() > 0
            &&& s[0].inst == inst(OpCode::Dict, r, 0, 0)
            &&& d.elements@.len() < 2 ==> s.len() == 1
            &&& d.elements@.len() >= 2 ==> s.last().inst.opcode == OpCode::PushDict && s.last().inst.a == r
        },
        Expr::This(_) => s.len() == 1 && s[0].inst == inst(OpCode::This, r, 0, 0),
        Expr::Super(_) => s.len() == 2 && s[0].inst.opcode == OpCode::LoadK && s[1].inst == inst(OpCode::Super, r, r, 0),
        Expr::Fn(_) => s.len() == 1 && s[0].inst.opcode == OpCode::Closure && s[0].inst.a == r,
        Expr::Var(_) => s.len() <= 1 && (s.len() == 1 ==> s[0].inst.a == r && (s[0].inst.opcode == OpCode::GetUpval
            || s[0].inst.opcode == OpCode::GetBuiltin || s[0].inst.opcode == OpCode::GetGlobal)),
        Expr::Grouping(g) => expr_insts(*g.expression, s, r),
        Expr::Empty => s.len() == 0,
        Expr::Assign(_) => true,
    }
}

/// An expression made of literals, operators, variables that are locals of
/// `blocks`, assignments of such expressions to such locals, element or slice
/// reads of such expressions, and functions whose bodies read no variable and
/// fit in their registers (no call or collection literal), each operator one
/// that compiles.
pub open spec fn plain_expr(e: Expr, blocks: Seq<Block>) -> bool
    decreases e, 2int,
{
    match e {
        Expr::Literal(_) => true,
        Expr::Var(v) => v.name matches Some(n) && lookup_local(blocks, n.lexeme@) is Some,
        Expr::Binary(b) => binary_opcode(b.operator.token) is Some && plain_expr(*b.left, blocks) && plain_expr(
            *b.right,
            blocks,
        ),
        Expr::Unary(u) => (u.operator.token == Token::Not || u.operator.token == Token::Minus) && plain_expr(
            *u.right,
            blocks,
        ),
        Expr::Logical(l) => plain_expr(*l.left, blocks) && plain_expr(*l.right, blocks),
        Expr::Grouping(g) => plain_expr(*g.expression, blocks),
        Expr::Assign(a) => a.access is None && lookup_local(blocks, a.name.lexeme@) is Some && plain_expr(*a.value, blocks),
        Expr::Fn(f) => plain_stmts(f.body@, Seq::empty()) && 1 + f.params@.len() + stmts_reg_need(f.body@) <= 255,
        Expr::Access(a) => {
            &&& plain_expr(*a.object, blocks)
            &&& (*a.first is Empty || plain_expr(*a.first, blocks))
            &&& (*a.second is Empty || plain_expr(*a.second, blocks))
            &&& (*a.third is Empty || plain_expr(*a.third, blocks))
        },
        _ => false,
    }
}

/// How many registers compiling the plain expression `e` takes: one for each
/// literal and each binary operation (a local is read in its own register; a
/// unary operation and a logical one reuse the register of an operand, an
/// assignment to a local that of the local; an element read takes one for its
/// result, a slice three more for the list of its bounds, the nil and the 1;
/// a function takes one for its closure).
pub open spec fn reg_need(e: Expr) -> nat
    decreases e, 2int,
{
    match e {
        Expr::Literal(_) => 1,
        Expr::Binary(b) => reg_need(*b.left) + reg_need(*b.right) + 1,
        Expr::Unary(u) => reg_need(*u.right),
        Expr::Logical(l) => reg_need(*l.left) + reg_need(*l.right),
        Expr::Grouping(g) => reg_need(*g.expression),
        Expr::Assign(a) => reg_need(*a.value),
        Expr::Fn(_) => 1,
        Expr::Access(a) => 1 + reg_need(*a.object) + if is_plain_index(a) {
            reg_need(*a.first)
        } else {
            3 + reg_need(*a.first) + reg_need(*a.second) + reg_need(*a.third)
        },
        _ => 0,
    }
}

/// Compiling `e` in `old` succeeds, taking `reg_need(e)` registers and
/// keeping the blocks, when `e` is plain there and the registers are there.
pub open spec fn plain_compiles(e: Expr, old: Compiler, new: Compiler, ok: bool) -> bool {
    plain_expr(e, old.ctx().blocks@) && old.ctx().register_count + reg_need(e) <= 255 ==> {
        &&& ok
        &&& new.ctx().register_count == old.ctx().register_count + reg_need(e)
        &&& new.ctx().blocks@ == old.ctx().blocks@
        &&& new.globals@ == old.globals@
        &&& new.contexts@.drop_last() == old.contexts@.drop_last()
    }
}

/// Every name that is a local of `b1` is a local of `b2` too (maybe in
/// another register).
pub open spec fn covers(b1: Seq<Block>, b2: Seq<Block>) -> bool {
    forall|n: Seq<char>| #[trigger] lookup_local(b1, n) is Some ==> lookup_local(b2, n) is Some
}

/// Declaring one more local in the innermost block keeps every local there.
proof fn lemma_covers_add(b1: Seq<Block>, b2: Seq<Block>, x: Local)
    requires
        b1.len() > 0,
        b2.len() == b1.len(),
        b2.drop_last() == b1.drop_last(),
        b2.last().locals@ == b1.last().locals@.push(x),
    ensures
        covers(b1, b2),
{
    assert forall|n: Seq<char>| #[trigger] lookup_local(b1, n) is Some implies lookup_local(b2, n) is Some by {
        let l1 = b1.last().locals@;
        let l2 = b2.last().locals@;
        assert(l2.drop_last() =~= l1);
        if x.var_name@ != n {
            assert(lookup_in_block(l2, n) == lookup_in_block(l1, n));
        }
    }
}

/// `covers` goes through one list of blocks to the next.
proof fn lemma_covers_trans(b1: Seq<Block>, b2: Seq<Block>, b3: Seq<Block>)
    requires
        covers(b1, b2),
        covers(b2, b3),
    ensures
        covers(b1, b3),
{
    assert forall|n: Seq<char>| #[trigger] lookup_local(b1, n) is Some implies lookup_local(b3, n) is Some by {
        assert(lookup_local(b2, n) is Some);
    }
}

/// An expression plain in some blocks is plain in blocks that cover them.
proof fn lemma_plain_expr_moves(e: Expr, b1: Seq<Block>, b2: Seq<Block>)
    requires
        plain_expr(e, b1),
        covers(b1, b2),
    ensures
        plain_expr(e, b2),
    decreases e, 2int,
{
    match e {
        Expr::Var(v) => {
            assert(lookup_local(b1, v.name->0.lexeme@) is Some);
        },
        Expr::Binary(b) => {
            lemma_plain_expr_moves(*b.left, b1, b2);
            lemma_plain_expr_moves(*b.right, b1, b2);
        },
        Expr::Unary(u) => lemma_plain_expr_moves(*u.right, b1, b2),
        Expr::Logical(l) => {
            lemma_plain_expr_moves(*l.left, b1, b2);
            lemma_plain_expr_moves(*l.right, b1, b2);
        },
        Expr::Grouping(g) => lemma_plain_expr_moves(*g.expression, b1, b2),
        Expr::Assign(a) => {
            assert(lookup_local(b1, a.name.lexeme@) is Some);
            lemma_plain_expr_moves(*a.value, b1, b2);
        },
        Expr::Access(a) => {
            lemma_plain_expr_moves(*a.object, b1, b2);
            if *a.first !is Empty {
                lemma_plain_expr_moves(*a.first, b1, b2);
            }
            if *a.second !is Empty {
                lemma_plain_expr_moves(*a.second, b1, b2);
            }
            if *a.third !is Empty {
                lemma_plain_expr_moves(*a.third, b1, b2);
            }
        },
        _ => {},
    }
}

/// A statement plain in some blocks is plain in blocks that cover them.
proof fn lemma_plain_stmt_moves(st: Stmt, b1: Seq<Block>, b2: Seq<Block>)
    requires
        plain_stmt(st, b1),
        covers(b1, b2),
    ensures
        plain_stmt(st, b2),
    decreases st, 1int,
{
    match st {
        Stmt::Expr(e) => lemma_plain_expr_moves(e.expression, b1, b2),
        Stmt::While(w) => {
            lemma_plain_expr_moves(w.condition, b1, b2);
            lemma_plain_stmt_moves(*w.body, b1, b2);
        },
        Stmt::If(i) => {
            lemma_plain_expr_moves(i.condition, b1, b2);
            lemma_plain_stmts_moves(i.then_branch@, b1, b2);
            lemma_plain_elifs_moves(i.elifs@, b1, b2);
            lemma_plain_stmts_moves(i.else_branch@, b1, b2);
        },
        Stmt::Block(b) => lemma_plain_stmts_moves(b.stmts@, b1, b2),
        _ => {},
    }
}

/// Statements plain in some blocks are plain in blocks that cover them.
proof fn lemma_plain_stmts_moves(ss: Seq<Stmt>, b1: Seq<Block>, b2: Seq<Block>)
    requires
        plain_stmts(ss, b1),
        covers(b1, b2),
    ensures
        plain_stmts(ss, b2),
    decreases ss, 0int,
{
    if ss.len() > 0 {
        lemma_plain_stmt_moves(ss[0], b1, b2);
        lemma_plain_stmts_moves(ss.subrange(1, ss.len() as int), b1, b2);
    }
}

/// `elif` branches plain in some blocks are plain in blocks that cover them.
proof fn lemma_plain_elifs_moves(es: Seq<ElifBranch>, b1: Seq<Block>, b2: Seq<Block>)
    requires
        plain_elifs(es, b1),
        covers(b1, b2),
    ensures
        plain_elifs(es, b2),
    decreases es, 0int,
{
    if es.len() > 0 {
        lemma_plain_expr_moves(es[0].condition, b1, b2);
        lemma_plain_stmts_moves(es[0].then_branch@, b1, b2);
        lemma_plain_elifs_moves(es.subrange(1, es.len() as int), b1, b2);
    }
}

/// A statement that compiles whenever the registers are there: an expression
/// statement with a plain expression, a `break`, a `continue`, a `while` with
/// a plain condition and body, an `if` with plain conditions and branches
/// (`elif` ones included), or a block of such statements.
pub open spec fn plain_stmt(st: Stmt, blocks: Seq<Block>) -> bool
    decreases st, 1int,
{
    match st {
        Stmt::Expr(e) => plain_expr(e.expression, blocks),
        Stmt::Break(_) => true,
        Stmt::Continue(_) => true,
        Stmt::While(w) => plain_expr(w.condition, blocks) && plain_stmt(*w.body, blocks),
        Stmt::If(i) => {
            &&& plain_expr(i.condition, blocks)
            &&& plain_stmts(i.then_branch@, blocks)
            &&& plain_elifs(i.elifs@, blocks)
            &&& plain_stmts(i.else_branch@, blocks)
        },
        Stmt::Block(b) => plain_stmts(b.stmts@, blocks),
        _ => false,
    }
}

/// Each of the statements `ss` is plain.
pub open spec fn plain_stmts(ss: Seq<Stmt>, blocks: Seq<Block>) -> bool
    decreases ss, 0int,
{
    if ss.len() == 0 {
        true
    } else {
        plain_stmt(ss[0], blocks) && plain_stmts(ss.subrange(1, ss.len() as int), blocks)
    }
}

/// Each of the `elif` branches `es` has a plain condition and plain statements.
pub open spec fn plain_elifs(es: Seq<ElifBranch>, blocks: Seq<Block>) -> bool
    decreases es, 0int,
{
    if es.len() == 0 {
        true
    } else {
        &&& plain_expr(es[0].condition, blocks)
        &&& plain_stmts(es[0].then_branch@, blocks)
        &&& plain_elifs(es.subrange(1, es.len() as int), blocks)
    }
}

/// How many registers compiling the plain `elif` branches `es`, one after the
/// other, takes.
pub open spec fn elifs_reg_need(es: Seq<ElifBranch>) -> nat
    decreases es, 0int,
{
    if es.len() == 0 {
        0
    } else {
        reg_need(es[0].condition) + stmts_reg_need(es[0].then_branch@) + elifs_reg_need(es.subrange(1, es.len() as int))
    }
}

/// How many registers compiling the plain statement `st` takes.
pub open spec fn stmt_reg_need(st: Stmt) -> nat
    decreases st, 1int,
{
    match st {
        Stmt::Expr(e) => reg_need(e.expression),
        Stmt::While(w) => reg_need(w.condition) + stmt_reg_need(*w.body),
        Stmt::If(i) => reg_need(i.condition) + stmts_reg_need(i.then_branch@) + elifs_reg_need(i.elifs@) + stmts_reg_need(
            i.else_branch@,
        ),
        Stmt::Block(b) => stmts_reg_need(b.stmts@),
        Stmt::Let(l) => match l.initializer {
            Some(e) => reg_need(e),
            None => 1,
        },
        _ => 0,
    }
}

/// How many registers compiling the plain statements `ss`, one after the
/// other, takes.
pub open spec fn stmts_reg_need(ss: Seq<Stmt>) -> nat
    decreases ss, 0int,
{
    if ss.len() == 0 {
        0
    } else {
        stmt_reg_need(ss[0]) + stmts_reg_need(ss.subrange(1, ss.len() as int))
    }
}

/// Compiling `st` in `old` succeeds, taking `stmt_reg_need(st)` registers and
/// keeping the blocks, when `st` is plain there and the registers are there.
pub open spec fn plain_stmt_compiles(st: Stmt, old: Compiler, new: Compiler, ok: bool) -> bool {
    plain_stmt(st, old.ctx().blocks@) && old.ctx().register_count + stmt_reg_need(st) <= 255 ==> {
        &&& ok
        &&& new.ctx().register_count == old.ctx().register_count + stmt_reg_need(st)
        &&& new.ctx().blocks@ == old.ctx().blocks@
        &&& new.globals@ == old.globals@
        &&& new.contexts@.drop_last() == old.contexts@.drop_last()
    }
}

/// The statements `ss` each compile, one after the other, where the locals are
/// `blocks` and the globals declared are `declared`: each is plain, or (at the
/// top level, `global`) a `let` of a plain value, or of none, of a name not
/// declared yet, which it declares.
pub open spec fn compile_ok_stmts(ss: Seq<Stmt>, blocks: Seq<Block>, global: bool, declared: Set<Seq<char>>) -> bool
    decreases ss.len(),
{
    if ss.len() == 0 {
        true
    } else if plain_stmt(ss[0], blocks) {
        compile_ok_stmts(ss.subrange(1, ss.len() as int), blocks, global, declared)
    } else {
        &&& global
        &&& ss[0] matches Stmt::Let(l)
        &&& !declared.contains(l.name.lexeme@)
        &&& match l.initializer {
            Some(e) => plain_expr(e, blocks),
            None => true,
        }
        &&& compile_ok_stmts(ss.subrange(1, ss.len() as int), blocks, global, declared.insert(l.name.lexeme@))
    }
}

/// Statements that compile in some blocks compile in blocks that cover them.
proof fn lemma_compile_ok_moves(ss: Seq<Stmt>, b1: Seq<Block>, b2: Seq<Block>, global: bool, declared: Set<Seq<char>>)
    requires
        compile_ok_stmts(ss, b1, global, declared),
        covers(b1, b2),
    ensures
        compile_ok_stmts(ss, b2, global, declared),
    decreases ss.len(),
{
    if ss.len() > 0 {
        if plain_stmt(ss[0], b1) {
            lemma_plain_stmt_moves(ss[0], b1, b2);
            lemma_compile_ok_moves(ss.subrange(1, ss.len() as int), b1, b2, global, declared);
        } else {
            if let Stmt::Let(l) = ss[0] {
                if let Some(e) = l.initializer {
                    lemma_plain_expr_moves(e, b1, b2);
                }
                lemma_compile_ok_moves(ss.subrange(1, ss.len() as int), b1, b2, global, declared.insert(l.name.lexeme@));
            }
        }
    }
}

/// The names of the globals declared in `c`.
pub open spec fn declared_globals(c: Compiler) -> Set<Seq<char>> {
    Set::new(|x: Seq<char>| c.declares_global(x))
}

/// Compiling the program `ss` at the top level of `c` is owed to succeed:
/// each statement compiles where it stands (see `compile_ok_stmts`; with no
/// local known when `c` has no function yet, which makes the top level) and
/// the registers for all of them are there.
pub open spec fn compile_owed(c: Compiler, ss: Seq<Stmt>) -> bool {
    let blocks = if c.contexts@.len() == 0 { Seq::empty() } else { c.ctx().blocks@ };
    let regs = if c.contexts@.len() == 0 { 0 } else { c.ctx().register_count as int };
    let global = c.contexts@.len() == 0 || c.is_global_context_spec();
    &&& compile_ok_stmts(ss, blocks, global, declared_globals(c))
    &&& regs + stmts_reg_need(ss) <= 255
}

/// `a[i]` with a single index, no colon.
pub open spec fn is_plain_index(a: AccessExpr) -> bool {
    &&& *a.first !is Empty
    &&& a.first_colon.token == Token::Nil
    &&& *a.second is Empty
    &&& a.second_colon.token == Token::Nil
    &&& *a.third is Empty
}

/// The register of the collection that the element access `x` reads from
/// (`Access`) or writes into (`SetElem`).
pub open spec fn object_reg(op: OpCode, x: Instruction) -> u8 {
    if op == OpCode::Access {
        x.b
    } else {
        x.a
    }
}

/// The register of the index of the element access `x`.
pub open spec fn index_reg(op: OpCode, x: Instruction) -> u8 {
    if op == OpCode::Access {
        x.c
    } else {
        x.b
    }
}

/// The register that stands for an omitted end of a slice: `one` (holding 1)
/// for the step when there is no second colon, `nil` otherwise.
pub open spec fn slice_default(a: AccessExpr, nil: u8, one: u8) -> u8 {
    if a.second_colon.token == Token::Nil {
        one
    } else {
        nil
    }
}

/// The instructions `c` that push one bound of a slice onto the list in
/// register `l`: the bound's code and a push of its register, or, for an
/// omitted bound, a push of `dflt`.
pub open spec fn part_insts(e: Expr, c: Seq<InstSrc>, l: u8, dflt: u8) -> bool
    decreases e, 3int,
{
    if e is Empty {
        c.len() == 1 && c[0].inst == inst(OpCode::PushList, l, dflt, 0)
    } else {
        &&& c.len() > 0
        &&& c.last().inst == inst(OpCode::PushList, l, c.last().inst.b, 0)
        &&& expr_insts(e, c.drop_last(), c.last().inst.b)
    }
}

/// The instructions `s` that read (`op` is `Access`, result in `r`) or write
/// (`op` is `SetElem`) an element or a slice of a collection. For `a[i]`: the
/// collection's code, the index's code, and `op` on their registers. For a
/// slice: the collection's code; a new list `l`, a nil and a 1 loaded; the
/// start, stop and step pushed onto `l` (each omitted one as nil, except the
/// step without a second colon, as 1); `l` made a slice; and `op` on the
/// collection's register and `l`.
pub open spec fn access_insts(a: AccessExpr, op: OpCode, s: Seq<InstSrc>, r: u8) -> bool
    decreases a, 1int,
{
    let last = s.last().inst;
    if is_plain_index(a) {
        &&& s.len() > 0
        &&& op == OpCode::Access ==> last == inst(op, r, last.b, last.c)
        &&& op != OpCode::Access ==> last == inst(op, last.a, last.b, 0)
        &&& exists|k: int|
            0 <= k < s.len() && expr_insts(*a.object, #[trigger] s.subrange(0, k), object_reg(op, last)) && expr_insts(
                *a.first,
                s.subrange(k, s.len() - 1),
                index_reg(op, last),
            )
    } else {
        &&& s.len() >= 2
        &&& last == inst(op, r, last.b, last.c)
        &&& s[s.len() - 2].inst == inst(OpCode::Slice, last.c, last.c, 0)
        &&& exists|k: int, p1: int, p2: int|
            #![trigger s.subrange(0, k), s.subrange(p1, p2)]
            slice_layout_at(a, s, k, p1, p2)
    }
}

/// The slice `s` (ending with its `Slice` and the access) has the
/// collection's code up to `k`, then the new list, the nil and the 1 loaded
/// at `k`, `k + 1` and `k + 2`, and the pushes of the start up to `p1`, of
/// the stop up to `p2` and of the step up to the `Slice`.
pub open spec fn slice_layout_at(a: AccessExpr, s: Seq<InstSrc>, k: int, p1: int, p2: int) -> bool
    decreases a, 0int,
{
    let last = s.last().inst;
    let nil = s[k + 1].inst.a;
    let one = s[k + 2].inst.a;
    &&& 0 <= k && k + 3 <= p1 <= p2 <= s.len() - 2
    &&& expr_insts(*a.object, s.subrange(0, k), last.b)
    &&& s[k].inst == inst(OpCode::List, last.c, 0, 0)
    &&& s[k + 1].inst == inst(OpCode::LoadNil, nil, 0, 0)
    &&& s[k + 2].inst.opcode == OpCode::LoadK
    &&& part_insts(*a.first, s.subrange(k + 3, p1), last.c, nil)
    &&& part_insts(*a.second, s.subrange(p1, p2), last.c, nil)
    &&& part_insts(*a.third, s.subrange(p2, s.len() - 2), last.c, slice_default(a, nil, one))
}

/// The number literal 1.
pub open spec fn is_number_one(l: Literal) -> bool {
    l matches Literal::Number(t) && t@ == "1"@
}

/// `x` loads the number 1 of the constants `consts`.
pub open spec fn loads_one(x: Instruction, consts: Seq<Literal>) -> bool {
    exists|ix: int|
        0 <= ix < consts.len() && x.b == hi_byte(ix) && x.c == lo_byte(ix) && is_number_one(#[trigger] consts[ix])
}

/// In the slice `s`, the register that stands for an omitted step (and
/// holds 1) is loaded with the number 1 of the constants `consts`.
pub open spec fn slice_loads_one(a: AccessExpr, s: Seq<InstSrc>, consts: Seq<Literal>) -> bool {
    !is_plain_index(a) ==> exists|k: int, p1: int, p2: int|
        #![trigger s.subrange(0, k), s.subrange(p1, p2)]
        slice_layout_at(a, s, k, p1, p2) && loads_one(s[k + 2].inst, consts)
}

/// What the chunk `c` compiled from the statement `st` shows of it.
pub open spec fn stmt_code(st: Stmt, c: Chunk) -> bool {
    let s = c.instructions@;
    match st {
        Stmt::Expr(e) => expr_code(e.expression, c),
        Stmt::While(_) => loops_back(s, 0),
        Stmt::ClassicFor(_) => exists|start: int| 0 <= start && #[trigger] loops_back(s, start),
        Stmt::EnhancedFor(_) => s.len() > 0 && s[0].inst.opcode == OpCode::LoadK && exists|start: int| 0 < start
            && #[trigger] loops_back(s, start),
        Stmt::If(i) => if_laid_out(s, i.elifs@.len() + 1int) && (s.len() < 32768 ==> no_blank_jump(s)),
        Stmt::TryCatch(_) => {
            &&& s.len() > 0
            &&& s[0].inst.opcode == OpCode::RegisterTryCatch
            &&& s.len() < 32768 ==> spec_bx(s[0].inst.b, s[0].inst.c) < s.len() && s[spec_bx(
                s[0].inst.b,
                s[0].inst.c,
            )].inst.opcode == OpCode::GetExcept
        },
        Stmt::Return(_) => s.len() > 0 && s.last().inst.opcode == OpCode::Return,
        Stmt::Break(b) => s == seq![InstSrc { inst: inst(OpCode::Jmp, JMP_BREAK, 0, 0), src: Some(b.keyword) }],
        Stmt::Continue(k) => s == seq![InstSrc { inst: inst(OpCode::Jmp, JMP_CONTINUE, 0, 0), src: Some(k.keyword) }],
        Stmt::Fn(_) => s.len() > 0 && s[0].inst.opcode == OpCode::Closure,
        Stmt::Class(_) => s.len() > 0 && s[0].inst.opcode == OpCode::LoadK,
        Stmt::Block(b) => b.stmts@.len() == 0 ==> s.len() == 0,
        Stmt::Let(_) => true,
    }
}

/// The chunks `cs` are those of the statements `ss`, one for each.
pub open spec fn stmts_code(ss: Seq<Stmt>, cs: Seq<Chunk>) -> bool {
    cs.len() == ss.len() && forall|i: int| 0 <= i < ss.len() ==> stmt_code(#[trigger] ss[i], cs[i])
}

/// `s` is `laid` once its `break` and `continue` jumps are resolved: each
/// `continue` goes back to the first instruction and each `break` to the
/// first one after them (when the offsets fit, below 32768 instructions);
/// every other instruction is kept.
pub open spec fn loop_resolved(laid: Seq<InstSrc>, s: Seq<InstSrc>) -> bool {
    &&& s.len() == laid.len()
    &&& forall|k: int| 0 <= k < s.len() ==> (#[trigger] s[k]).inst == loop_patched(laid[k].inst, k, s.len() as int)
    &&& s.len() < 32768 ==> forall|k: int| 0 <= k < s.len() && is_marked_jump(#[trigger] laid[k].inst, JMP_CONTINUE) ==> k
        + spec_sbx(s[k].inst.b, s[k].inst.c) == 0
    &&& s.len() < 32768 ==> forall|k: int| 0 <= k < s.len() && is_marked_jump(#[trigger] laid[k].inst, JMP_BREAK) ==> k
        + spec_sbx(s[k].inst.b, s[k].inst.c) == s.len()
}

/// `laid` is a `while` loop before its jumps are resolved: the condition's
/// code `cond`, a test of its register, a jump past the loop, the body's code
/// `body`, and a jump back to the condition.
pub open spec fn while_laid(laid: Seq<InstSrc>, cond: Chunk, body: Chunk) -> bool {
    let n = cond.instructions@.len() as int;
    let m = body.instructions@.len() as int;
    &&& laid.len() == n + m + 3
    &&& laid.subrange(0, n) == cond.instructions@
    &&& laid[n].inst == inst(OpCode::Test, cond.result_register, cond.result_register, 0)
    &&& laid[n + 1].inst.opcode == OpCode::Jmp && laid[n + 1].inst.a == 0
    &&& laid.subrange(n + 2, n + 2 + m) == body.instructions@
    &&& laid.last().inst.opcode == OpCode::Jmp && laid.last().inst.a == 0
}

/// Resolving a loop's jumps, instruction by instruction, sends each of them
/// where `loop_resolved` says.
proof fn lemma_resolved(laid: Seq<InstSrc>, s: Seq<InstSrc>)
    requires
        s.len() == laid.len(),
        forall|k: int| 0 <= k < s.len() ==> (#[trigger] s[k]).inst == loop_patched(laid[k].inst, k, s.len() as int),
    ensures
        loop_resolved(laid, s),
{
    if s.len() < 32768 {
        assert forall|k: int| 0 <= k < s.len() && is_marked_jump(#[trigger] laid[k].inst, JMP_CONTINUE) implies k
            + spec_sbx(s[k].inst.b, s[k].inst.c) == 0 by {
            crate::instruction::lemma_sbx_roundtrip(-k);
        }
        assert forall|k: int| 0 <= k < s.len() && is_marked_jump(#[trigger] laid[k].inst, JMP_BREAK) implies k
            + spec_sbx(s[k].inst.b, s[k].inst.c) == s.len() by {
            crate::instruction::lemma_sbx_roundtrip(s.len() - k);
        }
    }
}

/// Compiling `let` statement `st` in `c` is owed to succeed: its value, if
/// any, is plain, the registers are there (one when there is no value), and
/// at the top level the name is not a global yet.
pub open spec fn let_owed(st: LetStmt, c: Compiler) -> bool {
    &&& match st.initializer {
        Some(e) => plain_expr(e, c.ctx().blocks@) && c.ctx().register_count + reg_need(e) <= 255,
        None => c.ctx().register_count + 1 <= 255,
    }
    &&& c.is_global_context_spec() ==> !c.declares_global(st.name.lexeme@)
}

/// The function `f` compiles whenever its enclosing function has a register
/// for it: its body reads no variable (plain where no local is known) and its
/// own registers (one for itself, one per parameter, and those of the body)
/// are there.
pub open spec fn fn_body_owed(f: FnStmt) -> bool {
    &&& plain_stmts(f.body@, Seq::empty())
    &&& 1 + f.params@.len() + stmts_reg_need(f.body@) <= 255
}

/// Compiling the function declaration `f` in `c` is owed to succeed.
pub open spec fn fn_owed(f: FnStmt, c: Compiler) -> bool {
    &&& c.ctx().register_count + 1 <= 255
    &&& fn_body_owed(f)
}

/// The top-level `let` statement `st` compiled from `old` to `new` took the
/// registers of its value, kept the locals, and declared its name.
pub open spec fn let_declares(st: LetStmt, old: Compiler, new: Compiler) -> bool {
    &&& new.ctx().register_count == old.ctx().register_count + stmt_reg_need(Stmt::Let(st))
    &&& new.ctx().blocks@ == old.ctx().blocks@
    &&& declared_globals(new) == declared_globals(old).insert(st.name.lexeme@)
}

/// Compiling class declaration `st` in `c` is owed to succeed: it has a name,
/// no superclass or one that is a local, methods whose functions compile
/// (see `fn_body_owed`), and registers for the class, its name, the nil and
/// one per method.
pub open spec fn class_owed(st: ClassStmt, c: Compiler) -> bool {
    &&& st.name is Some
    &&& match st.superclass {
        None => true,
        Some(v) => v.name matches Some(n) && lookup_local(c.ctx().blocks@, n.lexeme@) is Some,
    }
    &&& forall|i: int| 0 <= i < st.methods@.len() ==> fn_body_owed(#[trigger] st.methods@[i])
    &&& forall|i: int| 0 <= i < st.static_methods@.len() ==> fn_body_owed(#[trigger] st.static_methods@[i])
    &&& c.ctx().register_count + 3 + st.methods@.len() + st.static_methods@.len() <= 255
}

/// Compiling the assignment `a` in `c` is owed to succeed: it assigns a plain
/// value to a declared global (no local, no captured variable of that name),
/// and the registers are there.
pub open spec fn global_assign_owed(a: AssignExpr, c: Compiler) -> bool {
    &&& a.access is None
    &&& lookup_local(c.ctx().blocks@, a.name.lexeme@) is None
    &&& !capturable(c.contexts@.drop_last(), a.name.lexeme@)
    &&& c.declares_global(a.name.lexeme@)
    &&& plain_expr(*a.value, c.ctx().blocks@)
    &&& c.ctx().register_count + 1 + reg_need(*a.value) <= 255
}

/// Compiling the `for` loop over a collection `st` in `c` is owed to succeed:
/// it has loop variables, its collection and body are plain, and the
/// registers are there (four for the loop, one per variable when there are
/// several, and those of the collection and the body).
pub open spec fn enhanced_for_owed(st: EnhancedForStmt, c: Compiler) -> bool {
    let n = st.identifiers@.len() as int;
    &&& n >= 1
    &&& plain_expr(st.collection, c.ctx().blocks@)
    &&& plain_stmt(*st.body, c.ctx().blocks@)
    &&& c.ctx().register_count + 4 + (if n > 1 { n } else { 0 }) + reg_need(st.collection) + stmt_reg_need(*st.body) <= 255
}

/// `laid` is a `for` loop over a collection, with `n` loop variables, before
/// its jumps are resolved: the counter loaded (with 0), the collection's code
/// `coll`, its length compared with the counter, a test of that and a jump
/// past the loop; the element at the counter fetched (for several variables,
/// the element and then each of its items in turn); the body's code `body`;
/// the counter increased by one and a jump back to the comparison.
pub open spec fn for_in_laid(laid: Seq<InstSrc>, coll: Chunk, body: Chunk, n: int) -> bool {
    let m = coll.instructions@.len() as int;
    let counter = laid[0].inst.a;
    let coll_reg = coll.result_register;
    let len_reg = laid[m + 1].inst.a;
    let cond_reg = laid[m + 2].inst.a;
    let elem_reg = laid[m + 5].inst.a;
    let b0 = if n == 1 { m + 6 } else { m + 6 + n };
    let bl = body.instructions@.len() as int;
    &&& n >= 1
    &&& laid.len() == b0 + bl + 2
    &&& laid[0].inst.opcode == OpCode::LoadK
    &&& laid.subrange(1, m + 1) == coll.instructions@
    &&& laid[m + 1].inst == inst(OpCode::Length, len_reg, coll_reg, 0)
    &&& laid[m + 2].inst == inst(OpCode::Lt, cond_reg, counter, len_reg)
    &&& laid[m + 3].inst == inst(OpCode::Test, cond_reg, cond_reg, 0)
    &&& laid[m + 4].inst.opcode == OpCode::Jmp && laid[m + 4].inst.a == 0
    &&& n == 1 ==> laid[m + 5].inst == inst(OpCode::GetIterk, elem_reg, coll_reg, counter)
    &&& n > 1 ==> laid[m + 5].inst == inst(OpCode::GetIter, elem_reg, coll_reg, counter)
    &&& n > 1 ==> forall|i: int| 0 <= i < n ==> (#[trigger] laid[m + 6 + i]).inst == inst(
        OpCode::GetIteri,
        laid[m + 6 + i].inst.a,
        elem_reg,
        (i % 256) as u8,
    )
    &&& laid.subrange(b0, b0 + bl) == body.instructions@
    &&& laid[b0 + bl].inst == inst(OpCode::Addi, counter, counter, 1)
    &&& laid.last().inst.opcode == OpCode::Jmp && laid.last().inst.a == 0
}

/// A loop laid out after `p` instructions as a condition of `n`, a test, a
/// jump past the loop, a body of `m` and a jump back, once its `break` and
/// `continue` jumps are resolved, jumps back to `p` and leaves at its end.
proof fn lemma_loops_back(before: Seq<InstSrc>, after: Seq<InstSrc>, p: int, n: int, m: int)
    requires
        0 <= p,
        0 <= n,
        0 <= m,
        before.len() == p + n + m + 3,
        after.len() == before.len(),
        forall|k: int| 0 <= k < before.len() ==> (#[trigger] after[k]).inst == loop_patched(
            before[k].inst,
            k,
            before.len() as int,
        ),
        before[p + n].inst.opcode == OpCode::Test,
        before[p + n + 1].inst.opcode == OpCode::Jmp,
        before[p + n + 1].inst.a == 0,
        before.len() < 32768 ==> before[p + n + 1].inst == inst(OpCode::Jmp, 0, hi_byte(m + 2), lo_byte(m + 2)),
        before.last().inst.opcode == OpCode::Jmp,
        before.last().inst.a == 0,
        before.len() < 32768 ==> before.last().inst == inst(
            OpCode::Jmp,
            0,
            hi_byte(-(m + n + 2)),
            lo_byte(-(m + n + 2)),
        ),
    ensures
        loops_back(after, p),
{
    let len = before.len() as int;
    assert(after[len - 1].inst == before[len - 1].inst);
    assert(after[p + n].inst == before[p + n].inst);
    assert(after[p + n + 1].inst == before[p + n + 1].inst);
    if len < 32768 {
        crate::instruction::lemma_sbx_roundtrip(m + 2);
        crate::instruction::lemma_sbx_roundtrip(-(m + n + 2));
    }
    assert(tests_then_leaves(after, p + n));
    assert(after[p + n].inst.opcode == OpCode::Test);
}

/// Whether `s` equals the text `lit`.
fn eq_str(s: &String, lit: &str) -> (r: bool)
    ensures
        r == (s@ == lit@),
{
    let t = String::from_str(lit);
    *s == t
}

impl Compiler {
    /// There is a function being compiled, every context can be worked with,
    /// and no global is declared twice.
    pub open spec fn wf(&self) -> bool {
        &&& self.contexts@.len() > 0
        &&& ctxs_ok(self.contexts@)
        &&& distinct_names(self.globals@)
    }

    /// The context of the function being compiled.
    pub open spec fn ctx(&self) -> FnContext {
        self.contexts@.last()
    }

    /// What compiling keeps from `self` to `new`: as many functions being
    /// compiled, each with as many blocks and the same chunks; constants,
    /// prototypes and globals only added to.
    pub open spec fn keeps(&self, new: &Compiler) -> bool {
        &&& new.wf()
        &&& new.contexts@.len() == self.contexts@.len()
        &&& forall|i: int| 0 <= i < self.contexts@.len() ==> (#[trigger] new.contexts@[i]).blocks@.len() == self.contexts@[i].blocks@.len()
        &&& forall|i: int| 0 <= i < self.contexts@.len() ==> (#[trigger] new.contexts@[i]).chunks == self.contexts@[i].chunks
        &&& extends(self.constants@, new.constants@)
        &&& extends(self.prototypes@, new.prototypes@)
        &&& extends(self.globals@, new.globals@)
    }

    /// A compiler with nothing compiled yet.
    pub fn new() -> (c: Compiler)
        ensures
            c.constants@.len() == 0,
            c.contexts@.len() == 0,
            c.prototypes@.len() == 0,
            c.globals@.len() == 0,
    {
        Compiler { constants: vec![], contexts: vec![], prototypes: vec![], globals: vec![] }
    }

    fn add_chunk(&mut self, chunk: Chunk)
        requires
            old(self).wf(),
            jumps_stay_inside(chunk.instructions@),
        ensures
            final(self).wf(),
            final(self).contexts@.len() == old(self).contexts@.len(),
            final(self).ctx().name == old(self).ctx().name,
            final(self).ctx().chunks@ == old(self).ctx().chunks@.push(chunk),
            final(self).ctx().blocks == old(self).ctx().blocks,
            final(self).ctx().register_count == old(self).ctx().register_count,
            final(self).ctx().upvalues == old(self).ctx().upvalues,
            final(self).contexts@.drop_last() == old(self).contexts@.drop_last(),
            forall|i: int| 0 <= i < old(self).contexts@.len() - 1 ==> (#[trigger] final(self).contexts@[i]) == old(self).contexts@[i],
            final(self).contexts@[old(self).contexts@.len() - 1].blocks == old(self).contexts@[old(self).contexts@.len() - 1].blocks,
            final(self).constants == old(self).constants,
            final(self).prototypes == old(self).prototypes,
            final(self).globals == old(self).globals,
    {
        let mut ctx = self.contexts.pop().unwrap();
        ctx.chunks.push(chunk);
        self.contexts.push(ctx);
        assert(self.contexts@.drop_last() =~= old(self).contexts@.drop_last());
    }

    /// Declares the local `var_name` in register `reg`, in the innermost block.
    fn allocate_register(&mut self, var_name: String, reg: u8)
        requires
            old(self).wf(),
        ensures
            final(self).contexts@.drop_last() == old(self).contexts@.drop_last(),
            old(self).keeps(final(self)),
            final(self).ctx().blocks@.len() == old(self).ctx().blocks@.len(),
            final(self).ctx().blocks@.last().locals@ == old(self).ctx().blocks@.last().locals@.push(
                Local { var_name: var_name, reg: reg },
            ),
            lookup_local(final(self).ctx().blocks@, var_name@) == Some(reg),
            final(self).ctx().blocks@.drop_last() == old(self).ctx().blocks@.drop_last(),
            final(self).ctx().register_count == old(self).ctx().register_count,
            final(self).constants == old(self).constants,
            final(self).prototypes == old(self).prototypes,
            final(self).globals == old(self).globals,
    {
        let mut ctx = self.contexts.pop().unwrap();
        let mut block = ctx.blocks.pop().unwrap();
        block.locals.push(Local { var_name: var_name, reg: reg });
        ctx.blocks.push(block);
        self.contexts.push(ctx);
    }

    /// A fresh register of the function being compiled; at most 255 of them.
    fn next_register(&mut self) -> (r: Result<u8, CompileError>)
        requires
            old(self).wf(),
        ensures
            r is Ok ==> final(self).contexts@.drop_last() == old(self).contexts@.drop_last() && final(self).contexts@.len() == old(self).contexts@.len(),
            r is Ok <==> old(self).ctx().register_count < 255,
            r matches Ok(reg) ==> {
                &&& reg == old(self).ctx().register_count
                &&& final(self).ctx().register_count == reg + 1
                &&& old(self).keeps(final(self))
                &&& final(self).ctx().blocks == old(self).ctx().blocks
                &&& final(self).ctx().chunks == old(self).ctx().chunks
                &&& final(self).ctx().upvalues == old(self).ctx().upvalues
                &&& final(self).constants == old(self).constants
                &&& final(self).prototypes == old(self).prototypes
                &&& final(self).globals == old(self).globals
            },
            r matches Err(e) ==> e.kind == CompileErrorKind::OutOfRegisters,
    {
        let len = self.contexts.len();
        if self.contexts[len - 1].register_count == 255 {
            return error(CompileErrorKind::OutOfRegisters, None);
        }
        let mut ctx = self.contexts.pop().unwrap();
        let reg = ctx.register_count;
        ctx.register_count = reg + 1;
        self.contexts.push(ctx);
        Ok(reg)
    }

    fn reg_count(&self) -> (r: u8)
        requires
            self.wf(),
        ensures
            r == self.ctx().register_count,
    {
        self.contexts[self.contexts.len() - 1].register_count
    }

    fn set_reg_count(&mut self, reg_count: u8)
        requires
            old(self).wf(),
        ensures
            old(self).keeps(final(self)),
            final(self).ctx().register_count == reg_count,
            final(self).constants == old(self).constants,
            final(self).prototypes == old(self).prototypes,
            final(self).globals == old(self).globals,
    {
        let mut ctx = self.contexts.pop().unwrap();
        ctx.register_count = reg_count;
        self.contexts.push(ctx);
    }

    fn enter_block(&mut self)
        requires
            old(self).wf(),
        ensures
            final(self).contexts@.drop_last() == old(self).contexts@.drop_last(),
            final(self).wf(),
            final(self).contexts@.len() == old(self).contexts@.len(),
            final(self).ctx().blocks@.len() == old(self).ctx().blocks@.len() + 1,
            final(self).ctx().blocks@.last().locals@.len() == 0,
            final(self).ctx().blocks@.drop_last() == old(self).ctx().blocks@,
            final(self).ctx().register_count == old(self).ctx().register_count,
            final(self).ctx().chunks == old(self).ctx().chunks,
            forall|i: int| 0 <= i < old(self).contexts@.len() - 1 ==> (#[trigger] final(self).contexts@[i]) == old(self).contexts@[i],
            final(self).constants == old(self).constants,
            final(self).prototypes == old(self).prototypes,
            final(self).globals == old(self).globals,
    {
        let mut ctx = self.contexts.pop().unwrap();
        ctx.blocks.push(Block { locals: vec![] });
        self.contexts.push(ctx);
    }

    fn leave_block(&mut self)
        requires
            old(self).wf(),
            old(self).ctx().blocks@.len() > 1,
        ensures
            final(self).contexts@.drop_last() == old(self).contexts@.drop_last(),
            final(self).wf(),
            final(self).contexts@.len() == old(self).contexts@.len(),
            final(self).ctx().blocks@ == old(self).ctx().blocks@.drop_last(),
            final(self).ctx().register_count == old(self).ctx().register_count,
            final(self).ctx().chunks == old(self).ctx().chunks,
            forall|i: int| 0 <= i < old(self).contexts@.len() - 1 ==> (#[trigger] final(self).contexts@[i]) == old(self).contexts@[i],
            final(self).constants == old(self).constants,
            final(self).prototypes == old(self).prototypes,
            final(self).globals == old(self).globals,
    {
        let mut ctx = self.contexts.pop().unwrap();
        ctx.blocks.pop();
        self.contexts.push(ctx);
    }

    /// Starts compiling the function `name`: a new context with one empty block.
    pub fn enter_function(&mut self, name: String)
        requires
            ctxs_ok(old(self).contexts@),
            distinct_names(old(self).globals@),
        ensures
            final(self).wf(),
            final(self).contexts@.drop_last() == old(self).contexts@,
            final(self).contexts@.len() == old(self).contexts@.len() + 1,
            forall|i: int| 0 <= i < old(self).contexts@.len() ==> (#[trigger] final(self).contexts@[i]) == old(self).contexts@[i],
            final(self).ctx().name@ == name@,
            final(self).ctx().register_count == 0,
            final(self).ctx().chunks@.len() == 0,
            final(self).ctx().blocks@.len() == 1,
            final(self).ctx().blocks@[0].locals@.len() == 0,
            final(self).ctx().upvalues@.len() == 0,
            final(self).constants == old(self).constants,
            final(self).prototypes == old(self).prototypes,
            final(self).globals == old(self).globals,
    {
        self.contexts.push(
            FnContext {
                name: name,
                loop_count: 0,
                register_count: 0,
                chunks: vec![],
                blocks: vec![Block { locals: vec![] }],
                upvalues: vec![],
            },
        );
        assert(self.contexts@.drop_last() =~= old(self).contexts@);
    }

    /// Ends the function being compiled: its chunks, followed by a return,
    /// become a new prototype, whose position is returned (on 16 bits).
    pub fn leave_function(&mut self, param_count: usize) -> (ix: u16)
        requires
            old(self).contexts@.len() > 0,
        ensures
            final(self).contexts@ == old(self).contexts@.drop_last(),
            forall|i: int| 0 <= i < old(self).contexts@.len() - 1 ==> (#[trigger] final(self).contexts@[i]) == old(self).contexts@[i],
            final(self).constants == old(self).constants,
            final(self).globals == old(self).globals,
            final(self).prototypes@.len() == old(self).prototypes@.len() + 1,
            extends(old(self).prototypes@, final(self).prototypes@),
            ix == old(self).prototypes@.len() as u16,
            ({
                let p = final(self).prototypes@.last();
                let flat = flatten_chunks(old(self).ctx().chunks@);
                &&& p.instructions@.len() == flat.len() + 1
                &&& p.instruction_data@.len() == flat.len() + 1
                &&& forall|k: int| 0 <= k < flat.len() ==> p.instructions@[k] == (#[trigger] flat[k]).inst
                &&& forall|k: int| 0 <= k < flat.len() ==> p.instruction_data@[k] == (#[trigger] flat[k]).src
                &&& p.instructions@[flat.len() as int] == inst(OpCode::Return, 0, 0, 0)
                &&& p.instruction_data@[flat.len() as int] is None
                &&& p.register_count == old(self).ctx().register_count
                &&& p.upvalues == old(self).ctx().upvalues
                &&& p.param_count == param_count
                &&& p.name == old(self).ctx().name
            }),
            ctx_ok(old(self).ctx()) && flatten_chunks(old(self).ctx().chunks@).len() < 32768 ==> lands_on_instructions(
                final(self).prototypes@.last().instructions@,
            ),
    {
        let current_context = self.contexts.pop().unwrap();
        let prototype_ix = self.prototypes.len();
        let ghost chunks = current_context.chunks@;
        let mut instructions: Vec<Instruction> = vec![];
        let mut instruction_data: Vec<Option<TokenData>> = vec![];
        let mut i: usize = 0;
        while i < current_context.chunks.len()
            invariant
                0 <= i <= chunks.len(),
                chunks == current_context.chunks@,
                instructions@.len() == flatten_chunks(chunks.subrange(0, i as int)).len(),
                instruction_data@.len() == instructions@.len(),
                forall|k: int| 0 <= k < instructions@.len() ==> instructions@[k] == (#[trigger] flatten_chunks(chunks.subrange(0, i as int))[k]).inst,
                forall|k: int| 0 <= k < instructions@.len() ==> instruction_data@[k] == (#[trigger] flatten_chunks(chunks.subrange(0, i as int))[k]).src,
            decreases chunks.len() - i,
        {
            let ghost before = flatten_chunks(chunks.subrange(0, i as int));
            assert(chunks.subrange(0, i + 1).drop_last() =~= chunks.subrange(0, i as int));
            let chunk = &current_context.chunks[i];
            let mut j: usize = 0;
            while j < chunk.instructions.len()
                invariant
                    0 <= j <= chunk.instructions@.len(),
                    instructions@.len() == before.len() + j,
                    instruction_data@.len() == instructions@.len(),
                    forall|k: int| 0 <= k < before.len() ==> instructions@[k] == (#[trigger] before[k]).inst,
                    forall|k: int| 0 <= k < before.len() ==> instruction_data@[k] == (#[trigger] before[k]).src,
                    forall|k: int| 0 <= k < j ==> instructions@[before.len() + k] == (#[trigger] chunk.instructions@[k]).inst,
                    forall|k: int| 0 <= k < j ==> instruction_data@[before.len() + k] == (#[trigger] chunk.instructions@[k]).src,
                decreases chunk.instructions@.len() - j,
            {
                instructions.push(chunk.instructions[j].inst);
                instruction_data.push(crate::expr::copy_opt_token(&chunk.instructions[j].src));
                j = j + 1;
            }
            let ghost after = flatten_chunks(chunks.subrange(0, i + 1));
            assert(after == before + chunk.instructions@);
            assert forall|k: int| 0 <= k < instructions@.len() implies instructions@[k] == (#[trigger] after[k]).inst
                && instruction_data@[k] == after[k].src by {
                if k >= before.len() {
                    assert(after[k] == chunk.instructions@[k - before.len()]);
                }
            }
            i = i + 1;
        }
        assert(chunks.subrange(0, chunks.len() as int) =~= chunks);
        let ghost flat = flatten_chunks(chunks);
        instructions.push(Instruction { opcode: OpCode::Return, a: 0, b: 0, c: 0 });
        proof {
            if ctx_ok(old(self).ctx()) && flat.len() < 32768 {
                lemma_flatten_inside(chunks);
                let p = instructions@;
                assert forall|k: int| 0 <= k < p.len() implies {
                    &&& (#[trigger] p[k]).opcode == OpCode::Jmp ==> 0 <= k + spec_sbx(p[k].b, p[k].c) < p.len()
                    &&& p[k].opcode == OpCode::Test ==> k + 2 < p.len()
                    &&& p[k].opcode == OpCode::RegisterTryCatch ==> k + spec_bx(p[k].b, p[k].c) < p.len()
                } by {
                    if k < flat.len() {
                        assert(p[k] == flat[k].inst);
                        assert(lands_inside(flat, k));
                    }
                }
            }
        }
        instruction_data.push(None);
        self.prototypes.push(
            FnPrototype {
                instructions: instructions,
                register_count: current_context.register_count,
                upvalues: current_context.upvalues,
                instruction_data: instruction_data,
                param_count: param_count,
                name: current_context.name,
            },
        );
        prototype_ix as u16
    }

    /// The register of the result of the last chunk of the function being
    /// compiled; 0 when it has none.
    fn result_register(&self) -> (r: u8)
        requires
            self.wf(),
        ensures
            r == (if self.ctx().chunks@.len() == 0 { 0 } else { self.ctx().chunks@.last().result_register }),
    {
        let ctx = &self.contexts[self.contexts.len() - 1];
        if ctx.chunks.len() == 0 {
            return 0;
        }
        ctx.chunks[ctx.chunks.len() - 1].result_register
    }

    /// The register of the innermost local named `var_name` in `context`.
    fn get_var_register_by_context(context: &FnContext, var_name: &String) -> (r: Option<u8>)
        ensures
            r == lookup_local(context.blocks@, var_name@),
    {
        let mut i: usize = context.blocks.len();
        assert(context.blocks@.subrange(0, i as int) =~= context.blocks@);
        while i > 0
            invariant
                0 <= i <= context.blocks@.len(),
                lookup_local(context.blocks@, var_name@) == lookup_local(context.blocks@.subrange(0, i as int), var_name@),
            decreases i,
        {
            let ghost prefix = context.blocks@.subrange(0, i as int);
            assert(prefix.drop_last() =~= context.blocks@.subrange(0, i - 1));
            if let Some(reg) = context.blocks[i - 1].lookup(var_name) {
                return Some(reg);
            }
            i = i - 1;
        }
        None
    }

    /// The register of the innermost local named `var_name` of the function being compiled.
    fn get_var_register(&self, var_name: &String) -> (r: Option<u8>)
        requires
            self.wf(),
        ensures
            r == lookup_local(self.ctx().blocks@, var_name@),
    {
        Self::get_var_register_by_context(&self.contexts[self.contexts.len() - 1], var_name)
    }

    /// Whether `var_name` names a native module.
    pub fn is_builtin_var(&self, var_name: &String) -> (r: bool)
        ensures
            r == spec_is_builtin(var_name@),
    {
        eq_str(var_name, "io") || eq_str(var_name, "strings") || eq_str(var_name, "type") || eq_str(var_name, "env")
            || eq_str(var_name, "import") || eq_str(var_name, "net") || eq_str(var_name, "re")
    }

    /// Whether `var_name` is a declared global.
    pub fn is_global_var(&self, var_name: &String) -> (r: bool)
        ensures
            r == exists|i: int| 0 <= i < self.globals@.len() && (#[trigger] self.globals@[i])@ == var_name@,
    {
        let mut i: usize = 0;
        while i < self.globals.len()
            invariant
                0 <= i <= self.globals@.len(),
                forall|k: int| 0 <= k < i ==> (#[trigger] self.globals@[k])@ != var_name@,
            decreases self.globals@.len() - i,
        {
            if self.globals[i] == *var_name {
                return true;
            }
            i = i + 1;
        }
        false
    }

    /// Declares the global `var_name`, unless it is declared already.
    fn insert_global(&mut self, var_name: &String)
        requires
            distinct_names(old(self).globals@),
        ensures
            distinct_names(final(self).globals@),
            extends(old(self).globals@, final(self).globals@),
            forall|x: Seq<char>| #[trigger] final(self).declares_global(x) <==> (old(self).declares_global(x) || x == var_name@),
            exists|i: int| 0 <= i < final(self).globals@.len() && (#[trigger] final(self).globals@[i])@ == var_name@,
            final(self).constants == old(self).constants,
            final(self).contexts == old(self).contexts,
            final(self).prototypes == old(self).prototypes,
    {
        if !self.is_global_var(var_name) {
            let ghost before = self.globals@;
            self.globals.push(var_name.clone());
            assert(self.globals@[self.globals@.len() - 1]@ == var_name@);
            assert forall|i: int, j: int| 0 <= i < j < self.globals@.len() implies (#[trigger] self.globals@[i])@ != (#[trigger] self.globals@[j])@ by {
                if j == before.len() {
                    assert(self.globals@[i] == before[i]);
                } else {
                    assert(self.globals@[i] == before[i]);
                    assert(self.globals@[j] == before[j]);
                }
            }
        }
    }

    /// The statement being compiled is at the top level of the program.
    pub open spec fn is_global_context_spec(&self) -> bool {
        self.contexts@.len() == 1 && self.contexts@.last().blocks@.len() == 1
    }

    /// `name` is a declared global.
    pub open spec fn declares_global(&self, name: Seq<char>) -> bool {
        exists|i: int| 0 <= i < self.globals@.len() && (#[trigger] self.globals@[i])@ == name
    }

    /// Whether the statement being compiled is at the top level of the program.
    pub fn is_global_context(&self) -> (r: bool)
        ensures
            r == self.is_global_context_spec(),
    {
        self.contexts.len() == 1 && self.contexts[0].blocks.len() == 1
    }

    /// Adds `value` to the constants and returns its position.
    fn add_constant(&mut self, value: Literal) -> (ix: usize)
        ensures
            ix == old(self).constants@.len(),
            final(self).constants@ == old(self).constants@.push(value),
            final(self).contexts == old(self).contexts,
            final(self).prototypes == old(self).prototypes,
            final(self).globals == old(self).globals,
    {
        let ix = self.constants.len();
        self.constants.push(value);
        ix
    }
}

impl Compiler {
    fn has_upvalue(ctx: &FnContext, index: u8, is_local: bool) -> (r: bool)
        ensures
            r == ctx.upvalues@.contains(UpvalueRef { is_local: is_local, index: index }),
    {
        let ghost target = UpvalueRef { is_local: is_local, index: index };
        let mut i: usize = 0;
        while i < ctx.upvalues.len()
            invariant
                0 <= i <= ctx.upvalues@.len(),
                target == (UpvalueRef { is_local: is_local, index: index }),
                forall|k: int| 0 <= k < i ==> ctx.upvalues@[k] != target,
            decreases ctx.upvalues@.len() - i,
        {
            let up = ctx.upvalues[i];
            if up.is_local == is_local && up.index == index {
                assert(ctx.upvalues@[i as int] == target);
                return true;
            }
            i = i + 1;
        }
        false
    }

    /// Makes `previous` capture `index`; fails when it would capture more than 255 variables.
    fn capture(previous: &mut FnContext, index: u8, is_local: bool) -> (r: Result<u8, CompileError>)
        requires
            ctx_ok(*old(previous)),
        ensures
            ctx_ok(*final(previous)),
            final(previous).blocks == old(previous).blocks,
            final(previous).chunks == old(previous).chunks,
            final(previous).register_count == old(previous).register_count,
            final(previous).name == old(previous).name,
            r matches Ok(ix) ==> ix < final(previous).upvalues@.len() && final(previous).upvalues@[ix as int] == (UpvalueRef { is_local: is_local, index: index }),
            r matches Err(e) ==> e.kind == CompileErrorKind::TooManyUpvalues,
    {
        if !Self::has_upvalue(previous, index, is_local) && previous.upvalues.len() >= 255 {
            return error(CompileErrorKind::TooManyUpvalues, None);
        }
        Ok(previous.add_upvalue(index, is_local))
    }

    /// Finds `var_name` in the functions enclosing `previous` (those of
    /// `self.contexts`, innermost last, down to the top level) and makes each
    /// function on the way capture it; returns the upvalue of `previous` that
    /// holds it.
    fn get_upvalue_in(&mut self, previous: &mut FnContext, var_name: &String) -> (r: Result<Option<u8>, CompileError>)
        requires
            ctxs_ok(old(self).contexts@),
            ctx_ok(*old(previous)),
        ensures
            ctxs_ok(final(self).contexts@),
            final(self).contexts@.len() == old(self).contexts@.len(),
            forall|i: int| 0 <= i < old(self).contexts@.len() ==> (#[trigger] final(self).contexts@[i]).blocks == old(self).contexts@[i].blocks,
            forall|i: int| 0 <= i < old(self).contexts@.len() ==> (#[trigger] final(self).contexts@[i]).chunks == old(self).contexts@[i].chunks,
            ctx_ok(*final(previous)),
            final(previous).blocks == old(previous).blocks,
            final(previous).chunks == old(previous).chunks,
            final(previous).register_count == old(previous).register_count,
            final(previous).name == old(previous).name,
            r matches Ok(Some(ix)) ==> ix < final(previous).upvalues@.len(),
            old(self).contexts@.len() == 0 ==> (r matches Ok(None)),
            !capturable(old(self).contexts@, var_name@) ==> (r matches Ok(None)),
            capturable(old(self).contexts@, var_name@) ==> (r matches Ok(o) ==> (o is Some)),
            r matches Ok(Some(ix)) ==> (lookup_local(old(self).ctx().blocks@, var_name@) matches Some(reg)
                ==> final(previous).upvalues@[ix as int] == (UpvalueRef { is_local: true, index: reg })),
            r matches Ok(Some(ix)) ==> (lookup_local(old(self).ctx().blocks@, var_name@) is None
                ==> !final(previous).upvalues@[ix as int].is_local),
            old(self).contexts@.len() > 0 && !old(self).is_global_context_spec() && (lookup_local(
                old(self).ctx().blocks@,
                var_name@,
            ) is Some) ==> (r matches Ok(o) ==> (o is Some)),
            r matches Err(e) ==> e.kind == CompileErrorKind::TooManyUpvalues,
            final(self).constants == old(self).constants,
            final(self).prototypes == old(self).prototypes,
            final(self).globals == old(self).globals,
        decreases old(self).contexts@.len(),
    {
        if self.contexts.len() == 0 || self.is_global_context() {
            return Ok(None);
        }
        let mut context = self.contexts.pop().unwrap();
        let ghost popped = self.contexts@;
        assert(popped =~= old(self).contexts@.drop_last());
        let r = if let Some(reg) = Self::get_var_register_by_context(&context, var_name) {
            match Self::capture(previous, reg, true) {
                Ok(ix) => Ok(Some(ix)),
                Err(e) => Err(e),
            }
        } else {
            match self.get_upvalue_in(&mut context, var_name) {
                Ok(Some(up)) => match Self::capture(previous, up, false) {
                    Ok(ix) => Ok(Some(ix)),
                    Err(e) => Err(e),
                },
                Ok(None) => Ok(None),
                Err(e) => Err(e),
            }
        };
        self.contexts.push(context);
        r
    }

    /// The upvalue of the function being compiled that holds `var_name`, a
    /// local of an enclosing function, capturing it on the way if needed.
    fn get_upvalue(&mut self, var_name: &String) -> (r: Result<Option<u8>, CompileError>)
        requires
            old(self).wf(),
        ensures
            r is Ok ==> old(self).keeps(final(self)),
            r is Ok ==> final(self).ctx().blocks == old(self).ctx().blocks,
            r is Ok ==> final(self).ctx().register_count == old(self).ctx().register_count,
            r is Ok ==> final(self).ctx().chunks == old(self).ctx().chunks,
            r matches Ok(Some(ix)) ==> ix < final(self).ctx().upvalues@.len(),
            r matches Ok(Some(ix)) ==> (lookup_local(enclosing_blocks(old(self).contexts@), var_name@) matches Some(reg)
                ==> final(self).ctx().upvalues@[ix as int] == (UpvalueRef { is_local: true, index: reg })),
            r matches Ok(Some(ix)) ==> (lookup_local(enclosing_blocks(old(self).contexts@), var_name@) is None
                ==> !final(self).ctx().upvalues@[ix as int].is_local),
            !capturable(old(self).contexts@.drop_last(), var_name@) ==> (r matches Ok(None)),
            capturable(old(self).contexts@.drop_last(), var_name@) ==> (r matches Ok(o) ==> (o is Some)),
            r matches Err(e) ==> e.kind == CompileErrorKind::TooManyUpvalues,
            final(self).constants == old(self).constants,
            final(self).prototypes == old(self).prototypes,
            final(self).globals == old(self).globals,
    {
        if self.is_global_context() {
            return Ok(None);
        }
        let mut saved = self.contexts.pop().unwrap();
        proof {
            if self.contexts@.len() > 0 {
                assert(self.ctx().blocks@ == enclosing_blocks(old(self).contexts@));
            }
        }
        let up = self.get_upvalue_in(&mut saved, var_name);
        self.contexts.push(saved);
        up
    }
}

/// The operands of a jump `x` instructions ahead (16 bits, truncated).
fn forward_operands(x: usize) -> (r: (u8, u8))
    ensures
        r.0 == hi_byte(x as int),
        r.1 == lo_byte(x as int),
{
    let m: usize = x % 65536;
    assert(m % 65536 == x % 65536);
    assert(m % 256 == x % 256) by (nonlinear_arith)
        requires
            m == x % 65536,
    ;
    split_operand(m as i64)
}

/// The operands of a jump `k` instructions back (16 bits, truncated).
fn backward_operands(k: usize) -> (r: (u8, u8))
    ensures
        r.0 == hi_byte(-(k as int)),
        r.1 == lo_byte(-(k as int)),
{
    let m: usize = k % 65536;
    let v: i64 = -(m as i64);
    assert(v % 65536 == (-(k as int)) % 65536) by (nonlinear_arith)
        requires
            m == k % 65536,
            v == -(m as int),
    ;
    assert(v % 256 == (-(k as int)) % 256) by (nonlinear_arith)
        requires
            m == k % 65536,
            v == -(m as int),
    ;
    split_operand(v)
}

/// Whether `x` is a jump marked with `a` (a `break` or `continue` not yet resolved).
pub open spec fn is_marked_jump(x: Instruction, a: u8) -> bool {
    x.opcode == OpCode::Jmp && x.a == a
}

/// Instruction `x` at position `k` of a loop of `len` instructions, once its
/// `continue` jumps go back to the start and its `break` jumps to the end.
pub open spec fn loop_patched(x: Instruction, k: int, len: int) -> Instruction {
    if is_marked_jump(x, JMP_CONTINUE) {
        inst(OpCode::Jmp, 0, hi_byte(-k), lo_byte(-k))
    } else if is_marked_jump(x, JMP_BREAK) {
        inst(OpCode::Jmp, 0, hi_byte(len - k), lo_byte(len - k))
    } else {
        x
    }
}

/// A jump whose offset is still to be filled in.
pub open spec fn is_blank_jump(x: Instruction) -> bool {
    x == inst(OpCode::Jmp, 0, 0, 0)
}

/// Instruction `x` at position `k` of `len` instructions, once a blank jump
/// goes to the end.
pub open spec fn end_patched(x: Instruction, k: int, len: int) -> Instruction {
    if is_blank_jump(x) {
        inst(OpCode::Jmp, 0, hi_byte(len - k), lo_byte(len - k))
    } else {
        x
    }
}

/// Resolves the `break` and `continue` jumps of a loop's instructions.
pub fn patch_loop(instructions: &mut Vec<InstSrc>)
    ensures
        final(instructions)@.len() == old(instructions)@.len(),
        forall|k: int| 0 <= k < old(instructions)@.len() ==> (#[trigger] final(instructions)@[k]).inst == loop_patched(
            old(instructions)@[k].inst,
            k,
            old(instructions)@.len() as int,
        ),
        forall|k: int| 0 <= k < old(instructions)@.len() ==> (#[trigger] final(instructions)@[k]).src == old(instructions)@[k].src,
        jumps_stay_inside(old(instructions)@) ==> jumps_stay_inside(final(instructions)@),
{
    let len = instructions.len();
    let mut i: usize = 0;
    while i < len
        invariant
            len == old(instructions)@.len(),
            instructions@.len() == len,
            0 <= i <= len,
            forall|k: int| 0 <= k < i ==> (#[trigger] instructions@[k]).inst == loop_patched(old(instructions)@[k].inst, k, len as int),
            forall|k: int| i <= k < len ==> (#[trigger] instructions@[k]).inst == old(instructions)@[k].inst,
            forall|k: int| 0 <= k < len ==> (#[trigger] instructions@[k]).src == old(instructions)@[k].src,
        decreases len - i,
    {
        let x = instructions[i].inst;
        if x.opcode == OpCode::Jmp && x.a == JMP_CONTINUE {
            let (b, c) = backward_operands(i);
            instructions[i].inst = mk(OpCode::Jmp, 0, b, c);
        } else if x.opcode == OpCode::Jmp && x.a == JMP_BREAK {
            let (b, c) = forward_operands(len - i);
            instructions[i].inst = mk(OpCode::Jmp, 0, b, c);
        }
        i = i + 1;
    }
    proof {
        let before = old(instructions)@;
        let after = instructions@;
        if jumps_stay_inside(before) && after.len() < 32768 {
            assert forall|k: int| 0 <= k < after.len() implies #[trigger] lands_inside(after, k) by {
                assert(lands_inside(before, k));
                assert(after[k].inst == loop_patched(before[k].inst, k, len as int));
                if is_marked_jump(before[k].inst, JMP_CONTINUE) {
                    crate::instruction::lemma_sbx_roundtrip(-k);
                } else if is_marked_jump(before[k].inst, JMP_BREAK) {
                    crate::instruction::lemma_sbx_roundtrip(len - k);
                }
            }
        }
    }
}

/// Makes every blank jump of `instructions` go to the end.
pub fn patch_to_end(instructions: &mut Vec<InstSrc>)
    ensures
        final(instructions)@.len() == old(instructions)@.len(),
        forall|k: int| 0 <= k < old(instructions)@.len() ==> (#[trigger] final(instructions)@[k]).inst == end_patched(
            old(instructions)@[k].inst,
            k,
            old(instructions)@.len() as int,
        ),
        forall|k: int| 0 <= k < old(instructions)@.len() ==> (#[trigger] final(instructions)@[k]).src == old(instructions)@[k].src,
        jumps_stay_inside(old(instructions)@) ==> jumps_stay_inside(final(instructions)@),
{
    let len = instructions.len();
    let mut i: usize = 0;
    while i < len
        invariant
            len == old(instructions)@.len(),
            instructions@.len() == len,
            0 <= i <= len,
            forall|k: int| 0 <= k < i ==> (#[trigger] instructions@[k]).inst == end_patched(old(instructions)@[k].inst, k, len as int),
            forall|k: int| i <= k < len ==> (#[trigger] instructions@[k]).inst == old(instructions)@[k].inst,
            forall|k: int| 0 <= k < len ==> (#[trigger] instructions@[k]).src == old(instructions)@[k].src,
        decreases len - i,
    {
        let x = instructions[i].inst;
        if x.opcode == OpCode::Jmp && x.a == 0 && x.b == 0 && x.c == 0 {
            let (b, c) = forward_operands(len - i);
            instructions[i].inst = mk(OpCode::Jmp, 0, b, c);
        }
        i = i + 1;
    }
    proof {
        let before = old(instructions)@;
        let after = instructions@;
        if jumps_stay_inside(before) && after.len() < 32768 {
            assert forall|k: int| 0 <= k < after.len() implies #[trigger] lands_inside(after, k) by {
                assert(lands_inside(before, k));
                assert(after[k].inst == end_patched(before[k].inst, k, len as int));
                if is_blank_jump(before[k].inst) {
                    crate::instruction::lemma_sbx_roundtrip(len - k);
                }
            }
        }
    }
}

/// After `patch_loop` on a loop of at most 32767 instructions, every
/// `continue` jump lands on the loop's first instruction, every `break` jump
/// on the first instruction after the loop, and no marked jump is left.
pub proof fn lemma_loop_jump_targets(before: Seq<Instruction>, after: Seq<Instruction>)
    requires
        before.len() == after.len(),
        before.len() <= 32767,
        forall|k: int| 0 <= k < before.len() ==> after[k] == loop_patched(before[k], k, before.len() as int),
    ensures
        forall|k: int| 0 <= k < before.len() && is_marked_jump(before[k], JMP_CONTINUE) ==> k + crate::instruction::spec_sbx(
            after[k].b,
            after[k].c,
        ) == 0,
        forall|k: int| 0 <= k < before.len() && is_marked_jump(before[k], JMP_BREAK) ==> k + crate::instruction::spec_sbx(
            after[k].b,
            after[k].c,
        ) == before.len(),
        forall|k: int| 0 <= k < before.len() ==> !is_marked_jump(#[trigger] after[k], JMP_CONTINUE) && !is_marked_jump(after[k], JMP_BREAK),
{
    assert forall|k: int| 0 <= k < before.len() && is_marked_jump(before[k], JMP_CONTINUE) implies k + crate::instruction::spec_sbx(
        after[k].b,
        after[k].c,
    ) == 0 by {
        crate::instruction::lemma_sbx_roundtrip(-k);
    }
    assert forall|k: int| 0 <= k < before.len() && is_marked_jump(before[k], JMP_BREAK) implies k + crate::instruction::spec_sbx(
        after[k].b,
        after[k].c,
    ) == before.len() by {
        crate::instruction::lemma_sbx_roundtrip(before.len() - k);
    }
}

/// After `patch_to_end` on at most 32767 instructions, every blank jump lands
/// on the first instruction after them.
pub proof fn lemma_end_jump_targets(before: Seq<Instruction>, after: Seq<Instruction>)
    requires
        before.len() == after.len(),
        before.len() <= 32767,
        forall|k: int| 0 <= k < before.len() ==> after[k] == end_patched(before[k], k, before.len() as int),
    ensures
        forall|k: int| 0 <= k < before.len() && is_blank_jump(before[k]) ==> k + crate::instruction::spec_sbx(
            after[k].b,
            after[k].c,
        ) == before.len(),
{
    assert forall|k: int| 0 <= k < before.len() && is_blank_jump(before[k]) implies k + crate::instruction::spec_sbx(
        after[k].b,
        after[k].c,
    ) == before.len() by {
        crate::instruction::lemma_sbx_roundtrip(before.len() - k);
    }
}

impl Chunk {
    /// A chunk with no instructions and result register `result_register`.
    pub fn empty(result_register: u8) -> (c: Chunk)
        ensures
            c.instructions@.len() == 0,
            c.result_register == result_register,
            jumps_stay_inside(c.instructions@),
    {
        Chunk { instructions: vec![], result_register: result_register }
    }

    /// Appends `inst`, compiled from `src`.
    pub fn push(&mut self, inst: Instruction, src: Option<TokenData>)
        ensures
            final(self).instructions@ == old(self).instructions@.push(InstSrc { inst: inst, src: src }),
            final(self).result_register == old(self).result_register,
            jumps_stay_inside(old(self).instructions@) && is_plain(inst) ==> jumps_stay_inside(final(self).instructions@),
    {
        proof {
            if jumps_stay_inside(self.instructions@) && is_plain(inst) {
                lemma_inside_push(self.instructions@, InstSrc { inst: inst, src: src });
            }
        }
        self.instructions.push(InstSrc { inst: inst, src: src });
    }

    /// Moves `instructions` to the end of this chunk.
    pub fn append(&mut self, instructions: &mut Vec<InstSrc>)
        ensures
            final(self).instructions@ == old(self).instructions@ + old(instructions)@,
            final(instructions)@.len() == 0,
            final(self).result_register == old(self).result_register,
            jumps_stay_inside(old(self).instructions@) && jumps_stay_inside(old(instructions)@) ==> jumps_stay_inside(
                final(self).instructions@,
            ),
    {
        proof {
            if jumps_stay_inside(self.instructions@) && jumps_stay_inside(instructions@) {
                lemma_inside_concat(self.instructions@, instructions@);
            }
        }
        self.instructions.append(instructions);
    }
}

/// The token as the source of an instruction.
fn src_of(t: &TokenData) -> (r: Option<TokenData>)
    ensures
        r == Some(*t),
{
    Some(t.copied())
}

impl Compiler {
    /// Compiles the statements of a program at the top level: each becomes a
    /// chunk of the top-level function, which is created first if there is none.
    pub fn compile(&mut self, stmts: Vec<Stmt>) -> (r: Result<(), CompileError>)
        requires
            ctxs_ok(old(self).contexts@),
            distinct_names(old(self).globals@),
        ensures
            r is Ok ==> final(self).wf(),
            r is Ok ==> final(self).contexts@.len() == if old(self).contexts@.len() == 0 {
                1
            } else {
                old(self).contexts@.len()
            },
            r is Ok && old(self).contexts@.len() > 0 ==> final(self).ctx().chunks@.len() == old(self).ctx().chunks@.len() + stmts@.len(),
            r is Ok && old(self).contexts@.len() == 0 ==> final(self).ctx().chunks@.len() == stmts@.len(),
            r is Ok ==> stmts_code(
                stmts@,
                final(self).ctx().chunks@.subrange(
                    final(self).ctx().chunks@.len() - stmts@.len(),
                    final(self).ctx().chunks@.len() as int,
                ),
            ),
            r is Ok && old(self).contexts@.len() > 0 ==> final(self).ctx().chunks@.subrange(
                0,
                old(self).ctx().chunks@.len() as int,
            ) == old(self).ctx().chunks@,
            r is Ok ==> extends(old(self).constants@, final(self).constants@),
            r is Ok ==> extends(old(self).prototypes@, final(self).prototypes@),
            r is Ok ==> extends(old(self).globals@, final(self).globals@),
            wf_stmts(stmts@) ==> no_malformed(r),
            compile_owed(*old(self), stmts@) ==> r is Ok,
    {
        if self.contexts.len() == 0 {
            self.contexts.push(
                FnContext {
                    name: String::new(),
                    loop_count: 0,
                    register_count: 0,
                    chunks: vec![],
                    blocks: vec![Block { locals: vec![] }],
                    upvalues: vec![],
                },
            );
        }
        let ghost start = *self;
        let ghost global = old(self).contexts@.len() == 0 || old(self).is_global_context_spec();
        proof {
            assert(self.globals == old(self).globals);
            assert(declared_globals(*self) =~= declared_globals(*old(self)));
            if compile_owed(*old(self), stmts@) {
                assert(stmts@.subrange(0, stmts@.len() as int) =~= stmts@);
                if old(self).contexts@.len() == 0 {
                    let blocks = self.ctx().blocks@;
                    assert forall|n: Seq<char>| #[trigger] lookup_local(Seq::empty(), n) == lookup_local(blocks, n) by {
                        assert(blocks.drop_last() =~= Seq::<Block>::empty());
                        assert(lookup_in_block(blocks.last().locals@, n) is None);
                    }
                    lemma_compile_ok_moves(stmts@, Seq::empty(), blocks, global, declared_globals(*old(self)));
                }
            }
        }
        let mut i: usize = 0;
        while i < stmts.len()
            invariant
                0 <= i <= stmts@.len(),
                self.wf(),
                global == (old(self).contexts@.len() == 0 || old(self).is_global_context_spec()),
                global ==> self.is_global_context_spec(),
                compile_owed(*old(self), stmts@) ==> {
                    &&& compile_ok_stmts(
                        stmts@.subrange(i as int, stmts@.len() as int),
                        self.ctx().blocks@,
                        global,
                        declared_globals(*self),
                    )
                    &&& self.ctx().register_count + stmts_reg_need(stmts@.subrange(i as int, stmts@.len() as int)) <= 255
                },
                self.contexts@.len() == start.contexts@.len(),
                extends(start.constants@, self.constants@),
                extends(start.prototypes@, self.prototypes@),
                extends(start.globals@, self.globals@),
                start.contexts@.len() == if old(self).contexts@.len() == 0 {
                    1
                } else {
                    old(self).contexts@.len()
                },
                old(self).contexts@.len() > 0 ==> start.ctx().chunks@.len() == old(self).ctx().chunks@.len(),
                old(self).contexts@.len() == 0 ==> start.ctx().chunks@.len() == 0,
                self.ctx().chunks@.len() == start.ctx().chunks@.len() + i,
                stmts_code(
                    stmts@.subrange(0, i as int),
                    self.ctx().chunks@.subrange(start.ctx().chunks@.len() as int, self.ctx().chunks@.len() as int),
                ),
                self.ctx().chunks@.subrange(0, start.ctx().chunks@.len() as int) == start.ctx().chunks@,
                old(self).contexts@.len() > 0 ==> start.ctx().chunks == old(self).ctx().chunks,
                extends(old(self).constants@, start.constants@),
                extends(old(self).prototypes@, start.prototypes@),
                extends(old(self).globals@, start.globals@),
            decreases stmts@.len() - i,
        {
            proof {
                if wf_stmts(stmts@) {
                    lemma_wf_stmts_at(stmts@, i as int);
                }
            }
            proof {
                let rest = stmts@.subrange(i as int, stmts@.len() as int);
                assert(rest[0] == stmts@[i as int]);
                assert(rest.subrange(1, rest.len() as int) =~= stmts@.subrange(i + 1, stmts@.len() as int));
            }
            let ghost pre = *self;
            proof {
                if compile_owed(*old(self), stmts@) {
                    let rest = stmts@.subrange(i as int, stmts@.len() as int);
                    let next = stmts@.subrange(i + 1, stmts@.len() as int);
                    assert(rest.subrange(1, rest.len() as int) == next);
                    assert(stmts_reg_need(rest) == stmt_reg_need(rest[0]) + stmts_reg_need(next));
                    if !plain_stmt(rest[0], pre.ctx().blocks@) {
                        if let Stmt::Let(l) = rest[0] {
                            assert(declared_globals(pre).contains(l.name.lexeme@) == pre.declares_global(l.name.lexeme@));
                            assert(let_owed(l, pre));
                        }
                    }
                }
            }
            let chunk = self.compile_stmt(&stmts[i])?;
            proof {
                if compile_owed(*old(self), stmts@) && plain_stmt(stmts@[i as int], pre.ctx().blocks@) {
                    assert(declared_globals(*self) =~= declared_globals(pre));
                }
            }
            let ghost mid = *self;
            let ghost before = self.ctx().chunks@;
            let ghost made = chunk;
            self.add_chunk(chunk);
            proof {
                assert(declared_globals(*self) =~= declared_globals(mid));
                if compile_owed(*old(self), stmts@) {
                    let rest = stmts@.subrange(i as int, stmts@.len() as int);
                    let next = stmts@.subrange(i + 1, stmts@.len() as int);
                    assert(rest.subrange(1, rest.len() as int) == next);
                    if plain_stmt(rest[0], pre.ctx().blocks@) {
                        assert(compile_ok_stmts(next, self.ctx().blocks@, global, declared_globals(*self)));
                    } else {
                        assert(rest[0] is Let);
                        assert(compile_ok_stmts(next, self.ctx().blocks@, global, declared_globals(*self)));
                    }
                }
            }
            proof {
                let b = start.ctx().chunks@.len() as int;
                let now = self.ctx().chunks@;
                assert(now.subrange(b, now.len() as int) =~= before.subrange(b, before.len() as int).push(made));
                assert(now.subrange(0, b) =~= before.subrange(0, b));
                assert(stmts@.subrange(0, i + 1) =~= stmts@.subrange(0, i as int).push(stmts@[i as int]));
            }
            i = i + 1;
        }
        assert(stmts@.subrange(0, stmts@.len() as int) =~= stmts@);
        Ok(())
    }
}

impl Compiler {
    /// Compiles a statement.
    pub fn compile_stmt(&mut self, stmt: &Stmt) -> (r: Result<Chunk, CompileError>)
        requires
            old(self).wf(),
        ensures
            r matches Ok(c) ==> stmt_code(*stmt, c),
            plain_stmt_compiles(*stmt, *old(self), *final(self), r is Ok),
            *stmt matches Stmt::Let(l) && let_owed(l, *old(self)) ==> r is Ok,
            *stmt matches Stmt::Let(l) ==> (old(self).is_global_context_spec() && let_owed(l, *old(self)) ==> let_declares(
                l,
                *old(self),
                *final(self),
            )),
            *stmt matches Stmt::Class(k) && class_owed(k, *old(self)) ==> r is Ok,
            *stmt matches Stmt::Fn(f) && fn_owed(f, *old(self)) ==> r is Ok,
            *stmt matches Stmt::EnhancedFor(f) && enhanced_for_owed(f, *old(self)) ==> r is Ok,
            *stmt matches Stmt::Expr(e) && e.expression matches Expr::Assign(a) && global_assign_owed(a, *old(self)) ==> r is Ok,
            wf_stmt(*stmt) ==> no_malformed(r),
            r is Ok ==> old(self).keeps(final(self)),
            r matches Ok(c) ==> jumps_stay_inside(c.instructions@),
        decreases stmt,
    {
        match stmt {
            Stmt::Fn(s) => self.visit_fn_stmt(s),
            Stmt::Let(s) => self.visit_let_stmt(s),
            Stmt::Block(s) => self.visit_block_stmt(s),
            Stmt::Class(s) => self.visit_class_stmt(s),
            Stmt::ClassicFor(s) => self.visit_classic_for_stmt(s),
            Stmt::EnhancedFor(s) => self.visit_enhanced_for_stmt(s),
            Stmt::While(s) => self.visit_while_stmt(s),
            Stmt::If(s) => self.visit_if_stmt(s),
            Stmt::Continue(s) => Ok(self.visit_continue_stmt(s)),
            Stmt::Return(s) => self.visit_return_stmt(s),
            Stmt::Break(s) => Ok(self.visit_break_stmt(s)),
            Stmt::TryCatch(s) => self.visit_try_catch_stmt(s),
            Stmt::Expr(s) => self.compile_expr(&s.expression),
        }
    }

    /// Compiles an expression.
    pub fn compile_expr(&mut self, expr: &Expr) -> (r: Result<Chunk, CompileError>)
        requires
            old(self).wf(),
        ensures
            r matches Ok(c) ==> expr_code(*expr, c),
            plain_compiles(*expr, *old(self), *final(self), r is Ok),
            *expr matches Expr::Assign(a) && global_assign_owed(a, *old(self)) ==> r is Ok,
            wf_expr(*expr) ==> no_malformed(r),
            r is Ok ==> old(self).keeps(final(self)),
            r matches Ok(c) ==> jumps_stay_inside(c.instructions@),
        decreases expr,
    {
        match expr {
            Expr::Fn(e) => self.visit_function_expr(e),
            Expr::Var(e) => self.visit_variable_expr(e),
            Expr::List(e) => self.visit_list_expr(e),
            Expr::Dictionary(e) => self.visit_dictionary_expr(e),
            Expr::Assign(e) => self.visit_assign_expr(e),
            Expr::Access(e) => self.access_collection(e, OpCode::Access),
            Expr::Binary(e) => self.visit_binary_expr(e),
            Expr::Call(e) => self.visit_call_expr(e),
            Expr::Get(e) => self.visit_get_expr(e),
            Expr::SetProp(e) => self.visit_set_expr(e),
            Expr::Super(e) => self.visit_super_expr(e),
            Expr::Grouping(e) => self.compile_expr(&e.expression),
            Expr::Literal(e) => self.visit_literal_expr(e),
            Expr::Logical(e) => self.visit_logical_expr(e),
            Expr::This(e) => self.visit_this_expr(e),
            Expr::Unary(e) => self.visit_unary_expr(e),
            Expr::Empty => Ok(Chunk::empty(0)),
        }
    }

    /// The instructions of `stmts`, compiled one after the other.
    fn compile_stmts(&mut self, stmts: &Vec<Stmt>) -> (r: Result<Vec<InstSrc>, CompileError>)
        requires
            old(self).wf(),
        ensures
            wf_stmts(stmts@) ==> no_malformed(r),
            r is Ok ==> old(self).keeps(final(self)),
            r matches Ok(v) ==> jumps_stay_inside(v@),
            r matches Ok(v) ==> exists|cs: Seq<Chunk>| stmts_code(stmts@, cs) && v@ == flatten_chunks(cs),
            plain_stmts(stmts@, old(self).ctx().blocks@) && old(self).ctx().register_count + stmts_reg_need(stmts@) <= 255 ==> {
                &&& r is Ok
                &&& final(self).ctx().register_count == old(self).ctx().register_count + stmts_reg_need(stmts@)
                &&& final(self).ctx().blocks@ == old(self).ctx().blocks@
                &&& final(self).globals@ == old(self).globals@
                &&& final(self).contexts@.drop_last() == old(self).contexts@.drop_last()
            },
        decreases stmts,
    {
        let mut instructions: Vec<InstSrc> = vec![];
        let ghost mut cs: Seq<Chunk> = Seq::empty();
        let ghost start = *self;
        assert(stmts@.subrange(0, stmts@.len() as int) =~= stmts@);
        let mut i: usize = 0;
        while i < stmts.len()
            invariant
                0 <= i <= stmts@.len(),
                start == *old(self),
                start.wf(),
                start.keeps(self),
                jumps_stay_inside(instructions@),
                stmts_code(stmts@.subrange(0, i as int), cs),
                instructions@ == flatten_chunks(cs),
                plain_stmts(stmts@, start.ctx().blocks@) && start.ctx().register_count + stmts_reg_need(stmts@) <= 255 ==> {
                    &&& self.ctx().blocks@ == start.ctx().blocks@
                    &&& self.globals@ == start.globals@
                    &&& self.contexts@.drop_last() == start.contexts@.drop_last()
                    &&& plain_stmts(stmts@.subrange(i as int, stmts@.len() as int), self.ctx().blocks@)
                    &&& self.ctx().register_count + stmts_reg_need(stmts@.subrange(i as int, stmts@.len() as int))
                        == start.ctx().register_count + stmts_reg_need(stmts@)
                },
            decreases stmts@.len() - i,
        {
            proof {
                let rest = stmts@.subrange(i as int, stmts@.len() as int);
                assert(rest[0] == stmts@[i as int]);
                assert(rest.subrange(1, rest.len() as int) =~= stmts@.subrange(i + 1, stmts@.len() as int));
                assert(decreases_to!(stmts => stmts@[i as int]));
                if wf_stmts(stmts@) {
                    lemma_wf_stmts_at(stmts@, i as int);
                }
            }
            let mut chunk = self.compile_stmt(&stmts[i])?;
            proof {
                lemma_inside_concat(instructions@, chunk.instructions@);
                let ghost old_cs = cs;
                cs = cs.push(chunk);
                assert(cs.drop_last() =~= old_cs);
                assert forall|k: int| 0 <= k < i + 1 implies stmt_code(#[trigger] stmts@.subrange(0, i + 1)[k], cs[k]) by {
                    if k < i {
                        assert(stmts@.subrange(0, i + 1)[k] == stmts@.subrange(0, i as int)[k]);
                    }
                }
            }
            instructions.append(&mut chunk.instructions);
            i = i + 1;
        }
        assert(stmts@.subrange(0, stmts@.len() as int) =~= stmts@);
        assert(stmts@.subrange(0, 0) =~= Seq::<Stmt>::empty());
        Ok(instructions)
    }

    #[verifier::spinoff_prover]
    #[verifier::rlimit(80)]
    fn visit_try_catch_stmt(&mut self, stmt: &TryCatchStmt) -> (r: Result<Chunk, CompileError>)
        requires
            old(self).wf(),
        ensures
            wf_stmt(Stmt::TryCatch(*stmt)) ==> no_malformed(r),
            r is Ok ==> old(self).keeps(final(self)),
            r matches Ok(c) ==> jumps_stay_inside(c.instructions@),
            r matches Ok(c) ==> stmt_code(Stmt::TryCatch(*stmt), c),
        decreases stmt,
    {
        let mut chunk = Chunk::empty(0);
        // Jump to the catch section, patched below.
        chunk.push(mk(OpCode::RegisterTryCatch, 0, 0, 0), None);
        let mut try_body_chunk = self.compile_stmt(&stmt.try_body)?;
        let ghost try_body = try_body_chunk.instructions@;
        chunk.append(&mut try_body_chunk.instructions);
        chunk.push(mk(OpCode::DeregisterTryCatch, 0, 0, 0), None);
        // Jump to the end, patched below.
        chunk.push(mk(OpCode::Jmp, 0, 0, 0), None);
        let catch_offset = chunk.instructions.len();
        let (b, c) = forward_operands(catch_offset);
        chunk.instructions[0].inst = mk(OpCode::RegisterTryCatch, 0, b, c);
        let ghost head = chunk.instructions@[0];
        let ghost dereg = chunk.instructions@[try_body.len() + 1 as int];
        let ghost blank = chunk.instructions@[try_body.len() + 2 as int];
        assert(chunk.instructions@ =~= seq![head] + try_body + seq![dereg, blank]);

        let ghost mid = *self;
        self.enter_block();
        let catch_var_name_reg = self.next_register()?;
        self.allocate_register(stmt.name.lexeme.clone(), catch_var_name_reg);
        chunk.push(mk(OpCode::GetExcept, catch_var_name_reg, 0, 0), src_of(&stmt.name));
        chunk.push(mk(OpCode::DeregisterTryCatch, 0, 0, 0), None);
        let mut catch_body_chunk = self.compile_stmt(&stmt.catch_body)?;
        self.leave_block();
        let ghost catch_body = catch_body_chunk.instructions@;
        let ghost get_except = chunk.instructions@[try_body.len() + 3 as int];
        let ghost dereg2 = chunk.instructions@[try_body.len() + 4 as int];
        chunk.append(&mut catch_body_chunk.instructions);
        let ghost laid = chunk.instructions@;
        assert(laid =~= seq![head] + try_body + seq![dereg, blank, get_except, dereg2] + catch_body);
        proof {
            lemma_try_inside(head, try_body, dereg, blank, get_except, dereg2, catch_body);
        }

        let jmp_offset = chunk.instructions.len() - catch_offset + 1;
        let (b, c) = forward_operands(jmp_offset);
        // The first blank jump goes to the end.
        let mut k: usize = 0;
        while k < chunk.instructions.len() && !is_blank(chunk.instructions[k].inst)
            invariant
                0 <= k <= laid.len(),
                chunk.instructions@ == laid,
                forall|j: int| 0 <= j < k ==> !is_blank_jump(#[trigger] laid[j].inst),
            decreases laid.len() - k,
        {
            k = k + 1;
        }
        if k < chunk.instructions.len() {
            chunk.instructions[k].inst = mk(OpCode::Jmp, 0, b, c);
            proof {
                assert(laid[try_body.len() + 2 as int] == blank);
                assert(k <= try_body.len() + 2);
                let after = chunk.instructions@;
                if after.len() < 32768 {
                    assert forall|j: int| 0 <= j < after.len() implies #[trigger] lands_inside(after, j) by {
                        if j == k {
                            crate::instruction::lemma_sbx_roundtrip(jmp_offset as int);
                        } else {
                            assert(after[j] == laid[j]);
                            assert(lands_inside(laid, j));
                        }
                    }
                }
            }
        }
        Ok(chunk)
    }

    /// `for init; condition; increment body`: the condition, a test, a jump
    /// past the loop, the body and increment, and a jump back to the condition.
    /// A `continue` in the body goes back to the first instruction of the
    /// chunk, so it runs the initializer again.
    #[verifier::rlimit(40)]
    fn visit_classic_for_stmt(&mut self, stmt: &ClassicForStmt) -> (r: Result<Chunk, CompileError>)
        requires
            old(self).wf(),
        ensures
            wf_stmt(Stmt::ClassicFor(*stmt)) ==> no_malformed(r),
            r is Ok ==> old(self).keeps(final(self)),
            r matches Ok(c) ==> jumps_stay_inside(c.instructions@),
            r matches Ok(c) ==> forall|k: int| 0 <= k < c.instructions@.len() ==> {
                &&& !is_marked_jump(#[trigger] c.instructions@[k].inst, JMP_CONTINUE)
                &&& !is_marked_jump(c.instructions@[k].inst, JMP_BREAK)
            },
            r matches Ok(c) ==> stmt_code(Stmt::ClassicFor(*stmt), c),
        decreases stmt,
    {
        let mut chunk = Chunk::empty(0);
        if let Some(init) = &stmt.initializer {
            let mut init_chunk = self.compile_stmt(init)?;
            chunk.append(&mut init_chunk.instructions);
        }
        let mut cond_chunk = self.compile_expr(&stmt.condition)?;
        let mut body_chunk = self.compile_stmt(&stmt.body)?;
        let mut inc_chunk = self.compile_expr(&stmt.increment)?;
        body_chunk.append(&mut inc_chunk.instructions);
        let cond_reg = cond_chunk.result_register;
        let cond_len = cond_chunk.instructions.len();
        let body_len = body_chunk.instructions.len();
        let ghost prefix = chunk.instructions@;
        let ghost cond = cond_chunk.instructions@;
        let ghost body = body_chunk.instructions@;
        chunk.append(&mut cond_chunk.instructions);
        chunk.push(mk(OpCode::Test, cond_reg, cond_reg, 0), src_of(&stmt.keyword));
        let (b, c) = forward_operands(body_len.wrapping_add(2));
        chunk.push(mk(OpCode::Jmp, 0, b, c), src_of(&stmt.keyword));
        let ghost test = chunk.instructions@[prefix.len() + cond.len() as int];
        let ghost exit = chunk.instructions@[prefix.len() + cond.len() + 1 as int];
        assert(chunk.instructions@ =~= prefix + (cond + seq![test, exit]));
        chunk.append(&mut body_chunk.instructions);
        let (b, c) = backward_operands(body_len.wrapping_add(cond_len).wrapping_add(2));
        chunk.push(mk(OpCode::Jmp, 0, b, c), src_of(&stmt.keyword));
        let ghost back = chunk.instructions@.last();
        assert(chunk.instructions@ =~= prefix + (cond + seq![test, exit] + body + seq![back]));
        proof {
            lemma_loop_inside(cond, test, exit, body, back);
            lemma_inside_concat(prefix, cond + seq![test, exit] + body + seq![back]);
        }
        let ghost laid = chunk.instructions@;
        patch_loop(&mut chunk.instructions);
        proof {
            lemma_loops_back(laid, chunk.instructions@, prefix.len() as int, cond.len() as int, body.len() as int);
            assert(loops_back(chunk.instructions@, prefix.len() as int));
        }
        Ok(chunk)
    }

    /// `for a, b in collection body`: a counter runs over the collection; one
    /// variable takes each element, several take the parts of each element.
    #[verifier::spinoff_prover]
    #[verifier::rlimit(100)]
    fn visit_enhanced_for_stmt(&mut self, stmt: &EnhancedForStmt) -> (r: Result<Chunk, CompileError>)
        requires
            old(self).wf(),
        ensures
            wf_stmt(Stmt::EnhancedFor(*stmt)) ==> no_malformed(r),
            r is Ok ==> old(self).keeps(final(self)),
            r matches Ok(c) ==> jumps_stay_inside(c.instructions@),
            r matches Ok(c) ==> forall|k: int| 0 <= k < c.instructions@.len() ==> {
                &&& !is_marked_jump(#[trigger] c.instructions@[k].inst, JMP_CONTINUE)
                &&& !is_marked_jump(c.instructions@[k].inst, JMP_BREAK)
            },
            r matches Ok(c) ==> stmt_code(Stmt::EnhancedFor(*stmt), c),
            r matches Ok(c) ==> exists|laid: Seq<InstSrc>, cc: Chunk, bc: Chunk|
                #[trigger] expr_code(stmt.collection, cc) && #[trigger] stmt_code(*stmt.body, bc) && #[trigger] for_in_laid(
                    laid,
                    cc,
                    bc,
                    stmt.identifiers@.len() as int,
                ) && loop_resolved(laid, c.instructions@),
            enhanced_for_owed(*stmt, *old(self)) ==> r is Ok,
        decreases stmt,
    {
        let ghost blocks0 = self.ctx().blocks@;
        let ghost count0 = self.ctx().register_count as int;
        let ghost owed = enhanced_for_owed(*stmt, *self);
        let counter_reg = self.next_register()?;
        let length_reg = self.next_register()?;
        let cond_reg = self.next_register()?;
        let element_reg = self.next_register()?;
        let constant_ix = self.add_constant(Literal::Number(String::from_str("0")));
        let (b, c) = forward_operands(constant_ix);
        let mut chunk = Chunk::empty(0);
        chunk.push(mk(OpCode::LoadK, counter_reg, b, c), src_of(&stmt.keyword));
        let mut collection_chunk = self.compile_expr(&stmt.collection)?;
        let ghost cc = collection_chunk;
        assert(owed ==> self.ctx().register_count == count0 + 4 + reg_need(stmt.collection) && self.ctx().blocks@ == blocks0);
        let coll_reg = collection_chunk.result_register;
        let mut cond_chunk = Chunk::empty(cond_reg);
        cond_chunk.push(mk(OpCode::Length, length_reg, coll_reg, 0), src_of(&stmt.keyword));
        cond_chunk.push(mk(OpCode::Lt, cond_reg, counter_reg, length_reg), src_of(&stmt.keyword));
        let mut body_chunk = Chunk::empty(0);
        let n = stmt.identifiers.len();
        if n > 1 {
            body_chunk.push(mk(OpCode::GetIter, element_reg, coll_reg, counter_reg), src_of(&stmt.keyword));
            let ghost start = *self;
            let mut i: usize = 0;
            while i < n
                invariant
                    0 <= i <= n,
                    n == stmt.identifiers@.len(),
                    start.wf(),
                    start.keeps(self),
                    jumps_stay_inside(body_chunk.instructions@),
                    body_chunk.instructions@.len() == 1 + i,
                    body_chunk.instructions@[0].inst == inst(OpCode::GetIter, element_reg, coll_reg, counter_reg),
                    n > 1,
                    owed == enhanced_for_owed(*stmt, *old(self)),
                    blocks0 == old(self).ctx().blocks@,
                    count0 == old(self).ctx().register_count,
                    owed ==> self.ctx().register_count == count0 + 4 + reg_need(stmt.collection) + i && covers(
                        blocks0,
                        self.ctx().blocks@,
                    ),
                    forall|j: int| 0 <= j < i ==> (#[trigger] body_chunk.instructions@[1 + j]).inst == inst(
                        OpCode::GetIteri,
                        body_chunk.instructions@[1 + j].inst.a,
                        element_reg,
                        (j % 256) as u8,
                    ),
                decreases n - i,
            {
                let var_reg = self.next_register()?;
                let ghost before = self.ctx().blocks@;
                self.allocate_register(stmt.identifiers[i].lexeme.clone(), var_reg);
                proof {
                    if owed {
                        lemma_covers_add(before, self.ctx().blocks@, Local { var_name: stmt.identifiers@[i as int].lexeme, reg: var_reg });
                        lemma_covers_trans(blocks0, before, self.ctx().blocks@);
                    }
                }
                body_chunk.push(mk(OpCode::GetIteri, var_reg, element_reg, (i % 256) as u8), src_of(&stmt.keyword));
                i = i + 1;
            }
        } else if n == 1 {
            let ghost before = self.ctx().blocks@;
            self.allocate_register(stmt.identifiers[0].lexeme.clone(), element_reg);
            proof {
                if owed {
                    lemma_covers_add(before, self.ctx().blocks@, Local { var_name: stmt.identifiers@[0].lexeme, reg: element_reg });
                }
            }
            body_chunk.push(mk(OpCode::GetIterk, element_reg, coll_reg, counter_reg), src_of(&stmt.keyword));
        } else {
            return error(CompileErrorKind::MalformedTree, src_of(&stmt.keyword));
        }
        let ghost fetch = body_chunk.instructions@;
        proof {
            if owed {
                lemma_plain_stmt_moves(*stmt.body, blocks0, self.ctx().blocks@);
            }
        }
        let mut loop_chunk = self.compile_stmt(&stmt.body)?;
        let ghost bc = loop_chunk;
        body_chunk.result_register = loop_chunk.result_register;
        body_chunk.append(&mut loop_chunk.instructions);
        body_chunk.push(mk(OpCode::Addi, counter_reg, counter_reg, 1), src_of(&stmt.keyword));

        let body_len = body_chunk.instructions.len();
        let cond_len = cond_chunk.instructions.len();
        chunk.append(&mut collection_chunk.instructions);
        let ghost prefix = chunk.instructions@;
        let ghost cond = cond_chunk.instructions@;
        let ghost body = body_chunk.instructions@;
        chunk.append(&mut cond_chunk.instructions);
        chunk.push(mk(OpCode::Test, cond_reg, cond_reg, 0), src_of(&stmt.keyword));
        let (b, c) = forward_operands(body_len.wrapping_add(2));
        chunk.push(mk(OpCode::Jmp, 0, b, c), src_of(&stmt.keyword));
        let ghost test = chunk.instructions@[prefix.len() + cond.len() as int];
        let ghost exit = chunk.instructions@[prefix.len() + cond.len() + 1 as int];
        assert(chunk.instructions@ =~= prefix + (cond + seq![test, exit]));
        chunk.append(&mut body_chunk.instructions);
        let (b, c) = backward_operands(body_len.wrapping_add(cond_len).wrapping_add(2));
        chunk.push(mk(OpCode::Jmp, 0, b, c), src_of(&stmt.keyword));
        let ghost back = chunk.instructions@.last();
        assert(chunk.instructions@ =~= prefix + (cond + seq![test, exit] + body + seq![back]));
        proof {
            lemma_loop_inside(cond, test, exit, body, back);
            lemma_inside_concat(prefix, cond + seq![test, exit] + body + seq![back]);
        }
        let ghost laid = chunk.instructions@;
        patch_loop(&mut chunk.instructions);
        proof {
            lemma_loops_back(laid, chunk.instructions@, prefix.len() as int, cond.len() as int, body.len() as int);
            assert(loops_back(chunk.instructions@, prefix.len() as int));
            let m = cc.instructions@.len() as int;
            let f = fetch.len() as int;
            assert(prefix.subrange(1, m + 1) =~= cc.instructions@);
            assert(laid.subrange(1, m + 1) =~= cc.instructions@);
            assert(body =~= fetch + bc.instructions@ + seq![body.last()]);
            assert(laid.subrange(m + 5 + f, m + 5 + f + bc.instructions@.len()) =~= bc.instructions@);
            assert(laid[m + 5] == fetch[0]);
            if n > 1 {
                assert forall|i: int| 0 <= i < n implies (#[trigger] laid[m + 6 + i]).inst == inst(
                    OpCode::GetIteri,
                    laid[m + 6 + i].inst.a,
                    laid[m + 5].inst.a,
                    (i % 256) as u8,
                ) by {
                    assert(laid[m + 6 + i] == fetch[1 + i]);
                }
            }
            assert(for_in_laid(laid, cc, bc, n as int));
            lemma_resolved(laid, chunk.instructions@);
        }
        Ok(chunk)
    }

    /// `let name = value`: a global at the top level, a local elsewhere.
    fn visit_let_stmt(&mut self, stmt: &LetStmt) -> (r: Result<Chunk, CompileError>)
        requires
            old(self).wf(),
        ensures
            wf_stmt(Stmt::Let(*stmt)) ==> no_malformed(r),
            r is Ok ==> old(self).keeps(final(self)),
            r matches Ok(c) ==> jumps_stay_inside(c.instructions@),
            old(self).is_global_context_spec() && old(self).declares_global(stmt.name.lexeme@) ==> (r matches Err(e)
                && e.kind == CompileErrorKind::GlobalAlreadyDefined),
            r is Ok && old(self).is_global_context_spec() ==> final(self).declares_global(stmt.name.lexeme@),
            r matches Ok(c) ==> (!old(self).is_global_context_spec() ==> lookup_local(
                final(self).ctx().blocks@,
                stmt.name.lexeme@,
            ) == Some(c.result_register)),
            let_owed(*stmt, *old(self)) ==> r is Ok,
            old(self).is_global_context_spec() && let_owed(*stmt, *old(self)) ==> let_declares(*stmt, *old(self), *final(self)),
        decreases stmt,
    {
        if self.is_global_context() {
            if self.is_global_var(&stmt.name.lexeme) {
                return error(CompileErrorKind::GlobalAlreadyDefined, src_of(&stmt.name));
            }
            let mut chunk = Chunk::empty(0);
            let ghost pre = *self;
            self.insert_global(&stmt.name.lexeme);
            assert(declared_globals(*self) =~= declared_globals(pre).insert(stmt.name.lexeme@));
            let ghost inserted = *self;
            let constant_ix = self.add_constant(Literal::String(stmt.name.lexeme.clone()));
            let (b, c) = forward_operands(constant_ix);
            if let Some(init) = &stmt.initializer {
                let ghost before = *self;
                let mut init_chunk = self.compile_expr(init)?;
                chunk.result_register = init_chunk.result_register;
                chunk.append(&mut init_chunk.instructions);
                chunk.push(mk(OpCode::SetGlobal, chunk.result_register, b, c), src_of(&stmt.name));
                proof {
                    assert(before.declares_global(stmt.name.lexeme@));
                    let w = choose|w: int| 0 <= w < before.globals@.len() && (#[trigger] before.globals@[w])@ == stmt.name.lexeme@;
                    assert(self.globals@[w] == before.globals@[w]);
                }
            } else {
                let reg = self.next_register()?;
                chunk.push(mk(OpCode::LoadNil, reg, 0, 0), src_of(&stmt.name));
                chunk.push(mk(OpCode::SetGlobal, reg, b, c), src_of(&stmt.name));
            }
            proof {
                if let_owed(*stmt, pre) {
                    assert(self.globals@ == inserted.globals@);
                    assert(declared_globals(*self) =~= declared_globals(inserted));
                }
            }
            Ok(chunk)
        } else {
            if let Some(init) = &stmt.initializer {
                let chunk = self.compile_expr(init)?;
                self.allocate_register(stmt.name.lexeme.clone(), chunk.result_register);
                Ok(chunk)
            } else {
                let reg = self.next_register()?;
                self.allocate_register(stmt.name.lexeme.clone(), reg);
                Ok(Chunk::empty(reg))
            }
        }
    }

    fn visit_block_stmt(&mut self, stmt: &BlockStmt) -> (r: Result<Chunk, CompileError>)
        requires
            old(self).wf(),
        ensures
            wf_stmt(Stmt::Block(*stmt)) ==> no_malformed(r),
            r is Ok ==> old(self).keeps(final(self)),
            r matches Ok(c) ==> jumps_stay_inside(c.instructions@),
            r matches Ok(c) ==> stmt_code(Stmt::Block(*stmt), c),
            r matches Ok(c) ==> exists|cs: Seq<Chunk>| stmts_code(stmt.stmts@, cs) && c.instructions@ == flatten_chunks(cs),
            r matches Ok(c) ==> c.result_register == (if old(self).ctx().chunks@.len() == 0 {
                0
            } else {
                old(self).ctx().chunks@.last().result_register
            }),
            plain_stmt_compiles(Stmt::Block(*stmt), *old(self), *final(self), r is Ok),
        decreases stmt,
    {
        let ghost outer = self.ctx().blocks@;
        self.enter_block();
        proof {
            let inner = self.ctx().blocks@;
            if plain_stmts(stmt.stmts@, outer) {
                assert forall|n: Seq<char>| #[trigger] lookup_local(outer, n) == lookup_local(inner, n) by {
                    assert(inner.drop_last() == outer);
                    assert(lookup_in_block(inner.last().locals@, n) is None);
                }
                lemma_plain_stmts_moves(stmt.stmts@, outer, inner);
            }
        }
        let ghost entered = *self;
        let instructions = self.compile_stmts(&stmt.stmts)?;
        let result_register = self.result_register();
        self.leave_block();
        proof {
            if plain_stmts(stmt.stmts@, outer) && old(self).ctx().register_count + stmts_reg_need(stmt.stmts@) <= 255 {
                assert(entered.ctx().register_count == old(self).ctx().register_count);
                assert(self.ctx().blocks@ == outer);
            }
        }
        Ok(Chunk { instructions: instructions, result_register: result_register })
    }

    /// `while condition body`: the condition, a test, a jump past the loop, the
    /// body, and a jump back to the condition.
    fn visit_while_stmt(&mut self, stmt: &WhileStmt) -> (r: Result<Chunk, CompileError>)
        requires
            old(self).wf(),
        ensures
            wf_stmt(Stmt::While(*stmt)) ==> no_malformed(r),
            r is Ok ==> old(self).keeps(final(self)),
            r matches Ok(c) ==> jumps_stay_inside(c.instructions@),
            r matches Ok(c) ==> forall|k: int| 0 <= k < c.instructions@.len() ==> {
                &&& !is_marked_jump(#[trigger] c.instructions@[k].inst, JMP_CONTINUE)
                &&& !is_marked_jump(c.instructions@[k].inst, JMP_BREAK)
            },
            r matches Ok(c) ==> stmt_code(Stmt::While(*stmt), c),
            r matches Ok(c) ==> exists|laid: Seq<InstSrc>, cc: Chunk, bc: Chunk|
                #[trigger] expr_code(stmt.condition, cc) && #[trigger] stmt_code(*stmt.body, bc) && #[trigger] while_laid(laid, cc, bc)
                && loop_resolved(laid, c.instructions@),
            plain_stmt_compiles(Stmt::While(*stmt), *old(self), *final(self), r is Ok),
        decreases stmt,
    {
        let mut cond_chunk = self.compile_expr(&stmt.condition)?;
        let mut body_chunk = self.compile_stmt(&stmt.body)?;
        let ghost cc = cond_chunk;
        let ghost bc = body_chunk;
        let cond_reg = cond_chunk.result_register;
        let cond_len = cond_chunk.instructions.len();
        let body_len = body_chunk.instructions.len();
        let ghost cond = cond_chunk.instructions@;
        let ghost body = body_chunk.instructions@;
        let mut chunk = Chunk::empty(cond_reg);
        chunk.append(&mut cond_chunk.instructions);
        assert(chunk.instructions@ =~= cond);
        chunk.push(mk(OpCode::Test, cond_reg, cond_reg, 0), src_of(&stmt.keyword));
        let (b, c) = forward_operands(body_len.wrapping_add(2));
        chunk.push(mk(OpCode::Jmp, 0, b, c), src_of(&stmt.keyword));
        let ghost test = chunk.instructions@[cond.len() as int];
        let ghost exit = chunk.instructions@[cond.len() + 1 as int];
        assert(chunk.instructions@ =~= cond + seq![test, exit]);
        chunk.append(&mut body_chunk.instructions);
        let (b, c) = backward_operands(body_len.wrapping_add(cond_len).wrapping_add(2));
        chunk.push(mk(OpCode::Jmp, 0, b, c), src_of(&stmt.keyword));
        let ghost back = chunk.instructions@.last();
        assert(chunk.instructions@ =~= cond + seq![test, exit] + body + seq![back]);
        proof {
            lemma_loop_inside(cond, test, exit, body, back);
        }
        let ghost laid = chunk.instructions@;
        patch_loop(&mut chunk.instructions);
        proof {
            lemma_loops_back(laid, chunk.instructions@, 0, cond.len() as int, body.len() as int);
            let n = cond.len() as int;
            assert(laid.subrange(0, n) =~= cond);
            assert(laid.subrange(n + 2, n + 2 + body.len()) =~= body);
            assert(laid[n] == test);
            assert(while_laid(laid, cc, bc));
            lemma_resolved(laid, chunk.instructions@);
        }
        Ok(chunk)
    }

    fn visit_return_stmt(&mut self, stmt: &ReturnStmt) -> (r: Result<Chunk, CompileError>)
        requires
            old(self).wf(),
        ensures
            wf_stmt(Stmt::Return(*stmt)) ==> no_malformed(r),
            r is Ok ==> old(self).keeps(final(self)),
            r matches Ok(c) ==> jumps_stay_inside(c.instructions@),
            r matches Ok(c) ==> c.instructions@.len() > 0 && c.instructions@.last().inst.opcode == OpCode::Return,
            r matches Ok(c) ==> stmt_code(Stmt::Return(*stmt), c),
        decreases stmt,
    {
        let mut chunk = Chunk::empty(0);
        if let Some(val) = &stmt.value {
            let mut val_chunk = self.compile_expr(val)?;
            let reg = val_chunk.result_register;
            chunk.append(&mut val_chunk.instructions);
            chunk.push(mk(OpCode::Return, reg, reg.wrapping_add(2), 0), src_of(&stmt.keyword));
        } else {
            chunk.push(mk(OpCode::Return, 0, 0, 0), src_of(&stmt.keyword));
        }
        Ok(chunk)
    }

    /// A jump marked as a `break`, resolved by the enclosing loop.
    fn visit_break_stmt(&self, stmt: &BreakStmt) -> (c: Chunk)
        ensures
            c.instructions@ == seq![InstSrc { inst: inst(OpCode::Jmp, JMP_BREAK, 0, 0), src: Some(stmt.keyword) }],
            c.result_register == 0,
    {
        let mut chunk = Chunk::empty(0);
        chunk.push(mk(OpCode::Jmp, JMP_BREAK, 0, 0), src_of(&stmt.keyword));
        chunk
    }

    /// A jump marked as a `continue`, resolved by the enclosing loop.
    fn visit_continue_stmt(&self, stmt: &ContinueStmt) -> (c: Chunk)
        ensures
            c.instructions@ == seq![InstSrc { inst: inst(OpCode::Jmp, JMP_CONTINUE, 0, 0), src: Some(stmt.keyword) }],
            c.result_register == 0,
    {
        let mut chunk = Chunk::empty(0);
        chunk.push(mk(OpCode::Jmp, JMP_CONTINUE, 0, 0), src_of(&stmt.keyword));
        chunk
    }

    /// `if`/`elif`/`else`: each condition is tested and jumps over its branch
    /// when false; each branch ends with a jump to the end.
    #[verifier::spinoff_prover]
    #[verifier::rlimit(100)]
    fn visit_if_stmt(&mut self, stmt: &IfStmt) -> (r: Result<Chunk, CompileError>)
        requires
            old(self).wf(),
        ensures
            wf_stmt(Stmt::If(*stmt)) ==> no_malformed(r),
            r is Ok ==> old(self).keeps(final(self)),
            r matches Ok(c) ==> jumps_stay_inside(c.instructions@),
            r matches Ok(c) ==> stmt_code(Stmt::If(*stmt), c),
            r matches Ok(c) ==> if_laid_out(c.instructions@, stmt.elifs@.len() + 1int),
            r matches Ok(c) ==> c.instructions@.len() < 32768 ==> no_blank_jump(c.instructions@),
            plain_stmt_compiles(Stmt::If(*stmt), *old(self), *final(self), r is Ok),
        decreases stmt,
    {
        let ghost blocks = self.ctx().blocks@;
        let ghost count0 = self.ctx().register_count as int;
        let ghost owed = plain_stmt(Stmt::If(*stmt), blocks) && count0 + stmt_reg_need(Stmt::If(*stmt)) <= 255;
        let mut if_cond_chunk = self.compile_expr(&stmt.condition)?;
        let mut if_body = self.compile_stmts(&stmt.then_branch)?;
        assert(stmt.elifs@.subrange(0, stmt.elifs@.len() as int) =~= stmt.elifs@);
        let mut elif_regs: Vec<u8> = vec![];
        let mut elif_conds: Vec<Vec<InstSrc>> = vec![];
        let mut elif_bodies: Vec<Vec<InstSrc>> = vec![];
        let ghost start = *self;
        let mut i: usize = 0;
        while i < stmt.elifs.len()
            invariant
                0 <= i <= stmt.elifs@.len(),
                start.wf(),
                start.keeps(self),
                elif_regs@.len() == i,
                elif_conds@.len() == i,
                elif_bodies@.len() == i,
                forall|j: int| 0 <= j < i ==> jumps_stay_inside(#[trigger] elif_conds@[j]@),
                forall|j: int| 0 <= j < i ==> jumps_stay_inside(#[trigger] elif_bodies@[j]@),
                owed == (plain_stmt(Stmt::If(*stmt), blocks) && count0 + stmt_reg_need(Stmt::If(*stmt)) <= 255),
                blocks == old(self).ctx().blocks@,
                count0 == old(self).ctx().register_count,
                owed ==> {
                    &&& self.ctx().blocks@ == blocks
                    &&& self.globals@ == old(self).globals@
                    &&& self.contexts@.drop_last() == old(self).contexts@.drop_last()
                    &&& plain_elifs(stmt.elifs@.subrange(i as int, stmt.elifs@.len() as int), blocks)
                    &&& plain_stmts(stmt.else_branch@, blocks)
                    &&& self.ctx().register_count + elifs_reg_need(stmt.elifs@.subrange(i as int, stmt.elifs@.len() as int))
                        + stmts_reg_need(stmt.else_branch@) == count0 + stmt_reg_need(Stmt::If(*stmt))
                },
            decreases stmt.elifs@.len() - i,
        {
            let e = &stmt.elifs[i];
            proof {
                let rest = stmt.elifs@.subrange(i as int, stmt.elifs@.len() as int);
                assert(rest[0] == stmt.elifs@[i as int]);
                assert(rest.subrange(1, rest.len() as int) =~= stmt.elifs@.subrange(i + 1, stmt.elifs@.len() as int));
                if owed {
                    assert(plain_elifs(rest, blocks));
                    assert(plain_expr(stmt.elifs@[i as int].condition, blocks));
                    assert(plain_stmts(stmt.elifs@[i as int].then_branch@, blocks));
                    assert(elifs_reg_need(rest) == reg_need(stmt.elifs@[i as int].condition) + stmts_reg_need(
                        stmt.elifs@[i as int].then_branch@,
                    ) + elifs_reg_need(stmt.elifs@.subrange(i + 1, stmt.elifs@.len() as int)));
                }
                assert(decreases_to!(stmt => stmt.elifs@[i as int].then_branch));
                if wf_elifs(stmt.elifs@) {
                    lemma_wf_elifs_at(stmt.elifs@, i as int);
                }
            }
            let elif_cond_chunk = self.compile_expr(&e.condition)?;
            let elif_body = self.compile_stmts(&e.then_branch)?;
            elif_regs.push(elif_cond_chunk.result_register);
            elif_conds.push(elif_cond_chunk.instructions);
            elif_bodies.push(elif_body);
            i = i + 1;
        }
        let mut else_body = self.compile_stmts(&stmt.else_branch)?;

        let mut chunk = Chunk::empty(0);
        let cond_reg = if_cond_chunk.result_register;
        let ghost cond0 = if_cond_chunk.instructions@;
        let ghost body0 = if_body@;
        chunk.append(&mut if_cond_chunk.instructions);
        chunk.push(mk(OpCode::Test, cond_reg, cond_reg, 0), src_of(&stmt.keyword));
        let (b, c) = forward_operands(if_body.len().wrapping_add(2));
        chunk.push(mk(OpCode::Jmp, 0, b, c), src_of(&stmt.keyword));
        let ghost test0 = chunk.instructions@[cond0.len() as int];
        let ghost exit0 = chunk.instructions@[cond0.len() + 1 as int];
        assert(chunk.instructions@ =~= cond0 + seq![test0, exit0]);
        chunk.append(&mut if_body);
        // Jump to the end, patched below.
        chunk.push(mk(OpCode::Jmp, 0, 0, 0), src_of(&stmt.keyword));
        let ghost blank0 = chunk.instructions@.last();
        assert(chunk.instructions@ =~= cond0 + seq![test0, exit0] + body0 + seq![blank0]);
        proof {
            lemma_branch_inside(cond0, test0, exit0, body0, blank0);
        }
        let ghost mut tests: Seq<int> = seq![cond0.len() as int];
        let ghost mut ends: Seq<int> = seq![cond0.len() + 2 + body0.len() as int];
        assert(chunk.instructions@[ends[0]] == blank0);
        assert(branch_laid(chunk.instructions@, tests[0], ends[0]));
        let mut i: usize = 0;
        let n = elif_regs.len();
        while i < n
            invariant
                0 <= i <= n,
                n == elif_regs@.len(),
                n == elif_conds@.len(),
                n == elif_bodies@.len(),
                jumps_stay_inside(chunk.instructions@),
                forall|j: int| i <= j < n ==> jumps_stay_inside(#[trigger] elif_conds@[j]@),
                forall|j: int| i <= j < n ==> jumps_stay_inside(#[trigger] elif_bodies@[j]@),
                chunk.instructions@.len() >= cond0.len() + body0.len() + 3,
                chunk.instructions@[cond0.len() as int] == test0,
                chunk.instructions@[cond0.len() + 1 as int] == exit0,
                tests.len() == i + 1,
                ends.len() == i + 1,
                forall|j: int| 0 <= j < tests.len() ==> branch_laid(chunk.instructions@, #[trigger] tests[j], ends[j]),
                forall|j: int| 0 <= j && j + 1 < tests.len() ==> ends[j] < #[trigger] tests[j + 1],
            decreases n - i,
        {
            let reg = elif_regs[i];
            let mut cond: Vec<InstSrc> = Vec::new();
            std::mem::swap(&mut cond, &mut elif_conds[i]);
            let mut body: Vec<InstSrc> = Vec::new();
            std::mem::swap(&mut body, &mut elif_bodies[i]);
            let ghost pre = chunk.instructions@;
            let ghost cond_i = cond@;
            let ghost body_i = body@;
            chunk.append(&mut cond);
            chunk.push(mk(OpCode::Test, reg, reg, 0), None);
            let (b, c) = forward_operands(body.len().wrapping_add(2));
            chunk.push(mk(OpCode::Jmp, 0, b, c), None);
            let ghost test_i = chunk.instructions@[pre.len() + cond_i.len() as int];
            let ghost exit_i = chunk.instructions@[pre.len() + cond_i.len() + 1 as int];
            assert(chunk.instructions@ =~= pre + (cond_i + seq![test_i, exit_i]));
            chunk.append(&mut body);
            // Jump to the end, patched below.
            chunk.push(mk(OpCode::Jmp, 0, 0, 0), None);
            let ghost blank_i = chunk.instructions@.last();
            assert(chunk.instructions@ =~= pre + (cond_i + seq![test_i, exit_i] + body_i + seq![blank_i]));
            proof {
                lemma_branch_inside(cond_i, test_i, exit_i, body_i, blank_i);
                lemma_inside_concat(pre, cond_i + seq![test_i, exit_i] + body_i + seq![blank_i]);
                let now = chunk.instructions@;
                let t = pre.len() + cond_i.len() as int;
                let e = t + 2 + body_i.len() as int;
                assert(now[e] == blank_i);
                assert(now[t] == test_i);
                assert(now[t + 1] == exit_i);
                assert(branch_laid(now, t, e));
                assert forall|j: int| 0 <= j < tests.len() implies branch_laid(now, #[trigger] tests[j], ends[j]) by {
                    assert forall|k: int| 0 <= k < pre.len() implies now[k] == pre[k] by {}
                    lemma_branch_laid_grows(pre, now, tests[j], ends[j]);
                }
                assert(branch_laid(pre, tests[tests.len() - 1], ends[tests.len() - 1]));
                assert(ends.last() < pre.len());
                tests = tests.push(t);
                ends = ends.push(e);
            }
            i = i + 1;
        }
        let ghost before_else = chunk.instructions@;
        chunk.append(&mut else_body);
        let ghost pre = chunk.instructions@;
        patch_to_end(&mut chunk.instructions);
        proof {
            let s = chunk.instructions@;
            assert forall|j: int| 0 <= j < tests.len() implies guarded_branch(s, #[trigger] tests[j], ends[j]) by {
                assert forall|k: int| 0 <= k < before_else.len() implies pre[k] == before_else[k] by {}
                lemma_branch_laid_grows(before_else, pre, tests[j], ends[j]);
                lemma_branch_resolved(pre, s, tests[j], ends[j]);
            }
            assert(if_branches(s, tests, ends));
            assert(tests.len() == stmt.elifs@.len() + 1);
            assert(if_laid_out(s, stmt.elifs@.len() + 1int));
            if s.len() < 32768 {
                lemma_no_blank_left(pre, s);
            }
        }
        Ok(chunk)
    }
}

impl Compiler {
    /// The body of a function: each statement becomes a chunk of the function;
    /// a body of one statement returns its value.
    fn compile_fn_body(&mut self, body: &Vec<Stmt>) -> (r: Result<(), CompileError>)
        requires
            old(self).wf(),
        ensures
            wf_stmts(body@) ==> no_malformed(r),
            r is Ok ==> final(self).wf(),
            r is Ok ==> final(self).contexts@.len() == old(self).contexts@.len(),
            r is Ok ==> forall|i: int| 0 <= i < old(self).contexts@.len() ==> (#[trigger] final(self).contexts@[i]).blocks@.len()
                == old(self).contexts@[i].blocks@.len(),
            r is Ok ==> forall|i: int| 0 <= i < old(self).contexts@.len() - 1 ==> (#[trigger] final(self).contexts@[i]).chunks
                == old(self).contexts@[i].chunks,
            r is Ok ==> extends(old(self).constants@, final(self).constants@),
            r is Ok ==> extends(old(self).prototypes@, final(self).prototypes@),
            r is Ok ==> extends(old(self).globals@, final(self).globals@),
            r is Ok ==> final(self).ctx().chunks@.len() == old(self).ctx().chunks@.len() + body@.len(),
            r is Ok ==> final(self).ctx().chunks@.subrange(0, old(self).ctx().chunks@.len() as int) == old(self).ctx().chunks@,
            r is Ok && body@.len() != 1 ==> stmts_code(
                body@,
                final(self).ctx().chunks@.subrange(old(self).ctx().chunks@.len() as int, final(self).ctx().chunks@.len() as int),
            ),
            r is Ok && body@.len() == 1 ==> final(self).ctx().chunks@.last().instructions@.len() > 0
                && final(self).ctx().chunks@.last().instructions@.last().inst.opcode == OpCode::Return,
            plain_stmts(body@, old(self).ctx().blocks@) && old(self).ctx().register_count + stmts_reg_need(body@) <= 255
                ==> r is Ok && final(self).contexts@.drop_last() == old(self).contexts@.drop_last() && final(self).globals@
                == old(self).globals@,
        decreases body,
    {
        let ghost start = *self;
        let single = body.len() == 1;
        assert(body@.subrange(0, body@.len() as int) =~= body@);
        let mut i: usize = 0;
        while i < body.len()
            invariant
                0 <= i <= body@.len(),
                single == (body@.len() == 1),
                start == *old(self),
                start.wf(),
                self.wf(),
                self.contexts@.len() == start.contexts@.len(),
                forall|k: int| 0 <= k < start.contexts@.len() ==> (#[trigger] self.contexts@[k]).blocks@.len()
                    == start.contexts@[k].blocks@.len(),
                forall|k: int| 0 <= k < start.contexts@.len() - 1 ==> (#[trigger] self.contexts@[k]).chunks
                    == start.contexts@[k].chunks,
                extends(start.constants@, self.constants@),
                extends(start.prototypes@, self.prototypes@),
                extends(start.globals@, self.globals@),
                self.ctx().chunks@.len() == start.ctx().chunks@.len() + i,
                self.ctx().chunks@.subrange(0, start.ctx().chunks@.len() as int) == start.ctx().chunks@,
                !single ==> stmts_code(
                    body@.subrange(0, i as int),
                    self.ctx().chunks@.subrange(start.ctx().chunks@.len() as int, self.ctx().chunks@.len() as int),
                ),
                single && i > 0 ==> self.ctx().chunks@.last().instructions@.len() > 0
                    && self.ctx().chunks@.last().instructions@.last().inst.opcode == OpCode::Return,
                plain_stmts(body@, start.ctx().blocks@) && start.ctx().register_count + stmts_reg_need(body@) <= 255 ==> {
                    &&& self.contexts@.drop_last() == start.contexts@.drop_last()
                    &&& self.globals@ == start.globals@
                    &&& plain_stmts(body@.subrange(i as int, body@.len() as int), self.ctx().blocks@)
                    &&& self.ctx().register_count + stmts_reg_need(body@.subrange(i as int, body@.len() as int)) <= 255
                },
            decreases body@.len() - i,
        {
            let ghost before = self.ctx().chunks@;
            proof {
                let rest = body@.subrange(i as int, body@.len() as int);
                assert(rest[0] == body@[i as int]);
                assert(rest.subrange(1, rest.len() as int) =~= body@.subrange(i + 1, body@.len() as int));
                assert(decreases_to!(body => body@[i as int]));
                if wf_stmts(body@) {
                    lemma_wf_stmts_at(body@, i as int);
                }
            }
            let mut chunk = self.compile_stmt(&body[i])?;
            if single {
                let n = chunk.instructions.len();
                let src = if n > 0 {
                    crate::expr::copy_opt_token(&chunk.instructions[n - 1].src)
                } else {
                    None
                };
                let reg = chunk.result_register;
                chunk.push(mk(OpCode::Return, reg, reg.wrapping_add(2), 0), src);
            }
            self.add_chunk(chunk);
            proof {
                let n0 = start.ctx().chunks@.len() as int;
                let now = self.ctx().chunks@;
                assert(now == before.push(chunk));
                assert(now.subrange(0, n0) =~= before.subrange(0, n0));
                if !single {
                    let added = now.subrange(n0, now.len() as int);
                    let prev = before.subrange(n0, before.len() as int);
                    assert(added =~= prev.push(chunk));
                    assert forall|k: int| 0 <= k < i + 1 implies stmt_code(#[trigger] body@.subrange(0, i + 1)[k], added[k]) by {
                        if k < i {
                            assert(body@.subrange(0, i + 1)[k] == body@.subrange(0, i as int)[k]);
                            assert(added[k] == prev[k]);
                        }
                    }
                }
            }
            i = i + 1;
        }
        assert(body@.subrange(0, body@.len() as int) =~= body@);
        Ok(())
    }

    /// A named function: compiled into a prototype, then a closure of it is
    /// stored in a global (at the top level) or a local.
    fn visit_fn_stmt(&mut self, stmt: &FnStmt) -> (r: Result<Chunk, CompileError>)
        requires
            old(self).wf(),
        ensures
            wf_fn_stmt(*stmt) ==> no_malformed(r),
            r is Ok ==> old(self).keeps(final(self)),
            r matches Ok(c) ==> jumps_stay_inside(c.instructions@),
            r is Ok ==> final(self).prototypes@.len() > old(self).prototypes@.len(),
            r matches Ok(c) ==> c.instructions@.len() > 0 && c.instructions@[0].inst.opcode == OpCode::Closure,
            r is Ok && old(self).is_global_context_spec() ==> final(self).declares_global(stmt.name.lexeme@),
            r matches Ok(c) ==> (!old(self).is_global_context_spec() ==> lookup_local(
                final(self).ctx().blocks@,
                stmt.name.lexeme@,
            ) == Some(c.result_register)),
            r matches Ok(c) ==> stmt_code(Stmt::Fn(*stmt), c),
            fn_owed(*stmt, *old(self)) ==> {
                &&& r is Ok
                &&& final(self).ctx().register_count == old(self).ctx().register_count + 1
                &&& final(self).contexts@.drop_last() == old(self).contexts@.drop_last()
            },
        decreases stmt,
    {
        let ghost owed = fn_owed(*stmt, *self);
        let result_register = self.next_register()?;
        if self.is_global_context() {
            self.insert_global(&stmt.name.lexeme);
        }
        let ghost outer = *self;
        self.enter_function(stmt.name.lexeme.clone());
        let self_fn_name_reg = self.next_register()?;
        self.allocate_register(stmt.name.lexeme.clone(), self_fn_name_reg);
        let mut first = Chunk::empty(self_fn_name_reg);
        first.push(mk(OpCode::GetCurrentFunc, self_fn_name_reg, 0, 0), src_of(&stmt.name));
        self.add_chunk(first);
        let mut p: usize = 0;
        while p < stmt.params.len()
            invariant
                0 <= p <= stmt.params@.len(),
                self.wf(),
                self.contexts@.len() == outer.contexts@.len() + 1,
                forall|k: int| 0 <= k < outer.contexts@.len() ==> (#[trigger] self.contexts@[k]).blocks@.len()
                    == outer.contexts@[k].blocks@.len(),
                forall|k: int| 0 <= k < outer.contexts@.len() ==> (#[trigger] self.contexts@[k]).chunks
                    == outer.contexts@[k].chunks,
                extends(outer.constants@, self.constants@),
                extends(outer.prototypes@, self.prototypes@),
                extends(outer.globals@, self.globals@),
                owed == fn_owed(*stmt, *old(self)),
                owed ==> self.ctx().register_count == 1 + p,
                owed ==> self.contexts@.drop_last() == outer.contexts@,
            decreases stmt.params@.len() - p,
        {
            let reg = self.next_register()?;
            self.allocate_register(stmt.params[p].lexeme.clone(), reg);
            p = p + 1;
        }
        self.enter_block();
        proof {
            if owed {
                let blocks = self.ctx().blocks@;
                assert(covers(Seq::empty(), blocks));
                lemma_plain_stmts_moves(stmt.body@, Seq::empty(), blocks);
            }
        }
        self.compile_fn_body(&stmt.body)?;
        self.leave_block();
        let prototype_ix = self.leave_function(stmt.params.len());
        let (b, c) = forward_operands(prototype_ix as usize);
        let mut chunk = Chunk::empty(result_register);
        chunk.push(mk(OpCode::Closure, result_register, b, c), src_of(&stmt.name));
        if self.is_global_context() {
            let constant_ix = self.add_constant(Literal::String(stmt.name.lexeme.clone()));
            let (b, c) = forward_operands(constant_ix);
            chunk.push(mk(OpCode::SetGlobal, result_register, b, c), src_of(&stmt.name));
            proof {
                if old(self).is_global_context_spec() {
                    assert(outer.declares_global(stmt.name.lexeme@));
                    let w = choose|w: int| 0 <= w < outer.globals@.len() && (#[trigger] outer.globals@[w])@ == stmt.name.lexeme@;
                    assert(self.globals@[w] == outer.globals@[w]);
                }
            }
        } else {
            self.allocate_register(stmt.name.lexeme.clone(), result_register);
        }
        Ok(chunk)
    }

    /// An anonymous function, compiled into a prototype; the result is a closure of it.
    fn visit_function_expr(&mut self, expr: &FnExpr) -> (r: Result<Chunk, CompileError>)
        requires
            old(self).wf(),
        ensures
            wf_expr(Expr::Fn(*expr)) ==> no_malformed(r),
            r is Ok ==> old(self).keeps(final(self)),
            r matches Ok(c) ==> jumps_stay_inside(c.instructions@),
            r is Ok ==> final(self).prototypes@.len() > old(self).prototypes@.len(),
            r matches Ok(c) ==> expr_code(Expr::Fn(*expr), c),
            plain_compiles(Expr::Fn(*expr), *old(self), *final(self), r is Ok),
        decreases expr,
    {
        let ghost owed = plain_expr(Expr::Fn(*expr), self.ctx().blocks@) && self.ctx().register_count + 1 <= 255;
        let result_register = self.next_register()?;
        let ghost outer = *self;
        self.enter_function(String::new());
        // The first register holds the function itself, as in named functions.
        let _ = self.next_register()?;
        let mut p: usize = 0;
        while p < expr.params.len()
            invariant
                0 <= p <= expr.params@.len(),
                self.wf(),
                self.contexts@.len() == outer.contexts@.len() + 1,
                forall|k: int| 0 <= k < outer.contexts@.len() ==> (#[trigger] self.contexts@[k]).blocks@.len()
                    == outer.contexts@[k].blocks@.len(),
                forall|k: int| 0 <= k < outer.contexts@.len() ==> (#[trigger] self.contexts@[k]).chunks
                    == outer.contexts@[k].chunks,
                extends(outer.constants@, self.constants@),
                extends(outer.prototypes@, self.prototypes@),
                extends(outer.globals@, self.globals@),
                owed == (plain_expr(Expr::Fn(*expr), old(self).ctx().blocks@) && old(self).ctx().register_count + 1 <= 255),
                owed ==> self.ctx().register_count == 1 + p,
                owed ==> self.contexts@.drop_last() == outer.contexts@,
                owed ==> self.globals@ == outer.globals@,
            decreases expr.params@.len() - p,
        {
            let reg = self.next_register()?;
            self.allocate_register(expr.params[p].lexeme.clone(), reg);
            p = p + 1;
        }
        self.enter_block();
        proof {
            if owed {
                let blocks = self.ctx().blocks@;
                assert(covers(Seq::empty(), blocks));
                lemma_plain_stmts_moves(expr.body@, Seq::empty(), blocks);
            }
        }
        self.compile_fn_body(&expr.body)?;
        self.leave_block();
        let prototype_ix = self.leave_function(expr.params.len());
        let (b, c) = forward_operands(prototype_ix as usize);
        let src = if expr.params.len() > 0 {
            src_of(&expr.params[0])
        } else {
            None
        };
        let mut chunk = Chunk::empty(result_register);
        chunk.push(mk(OpCode::Closure, result_register, b, c), src);
        Ok(chunk)
    }

    /// A class: its name, its superclass (or nil), then each method and static
    /// method compiled and attached; stored in a global or a local.
    fn visit_class_stmt(&mut self, stmt: &ClassStmt) -> (r: Result<Chunk, CompileError>)
        requires
            old(self).wf(),
        ensures
            wf_stmt(Stmt::Class(*stmt)) ==> no_malformed(r),
            r is Ok ==> old(self).keeps(final(self)),
            r matches Ok(c) ==> jumps_stay_inside(c.instructions@),
            old(self).ctx().register_count < 255 && stmt.name is None ==> (r matches Err(e) && e.kind == CompileErrorKind::MalformedTree),
            r is Ok && old(self).is_global_context_spec() ==> (stmt.name matches Some(n) && final(self).declares_global(n.lexeme@)),
            r matches Ok(c) ==> (!old(self).is_global_context_spec() ==> (stmt.name matches Some(n) && lookup_local(
                final(self).ctx().blocks@,
                n.lexeme@,
            ) == Some(c.result_register))),
            r matches Ok(c) ==> stmt_code(Stmt::Class(*stmt), c),
            r matches Ok(c) ==> c.instructions@.len() >= 2 && c.instructions@[0].inst.a == c.result_register + 1,
            r matches Ok(c) ==> stmt.superclass is None ==> {
                &&& c.instructions@.len() >= 3
                &&& c.instructions@[1].inst == inst(OpCode::LoadNil, c.instructions@[1].inst.a, 0, 0)
                &&& c.instructions@[2].inst == inst(
                    OpCode::Class,
                    c.result_register,
                    c.instructions@[0].inst.a,
                    c.instructions@[1].inst.a,
                )
            },
            r matches Ok(c) ==> old(self).is_global_context_spec() ==> c.instructions@.last().inst.opcode == OpCode::SetGlobal
                && c.instructions@.last().inst.a == c.result_register,
            r matches Ok(c) ==> stmt.superclass is None && stmt.methods@.len() == 0 && stmt.static_methods@.len() == 0
                ==> c.instructions@.len() == if old(self).is_global_context_spec() { 4int } else { 3int },
            class_owed(*stmt, *old(self)) ==> r is Ok,
        decreases stmt,
    {
        let ghost owed = class_owed(*stmt, *self);
        let ghost count0 = self.ctx().register_count as int;
        let result_register = self.next_register()?;
        let name = match &stmt.name {
            Some(n) => n,
            None => return error(CompileErrorKind::MalformedTree, None),
        };
        if self.is_global_context() {
            self.insert_global(&name.lexeme);
        }
        let ghost declared = *self;
        let mut chunk = Chunk::empty(result_register);
        let tmp_reg = self.next_register()?;
        let constant_ix = self.add_constant(Literal::String(name.lexeme.clone()));
        let (b, c) = forward_operands(constant_ix);
        chunk.push(mk(OpCode::LoadK, tmp_reg, b, c), src_of(name));
        let superclass_reg = if let Some(superclass) = &stmt.superclass {
            let mut var_chunk = self.visit_variable_expr(superclass)?;
            chunk.append(&mut var_chunk.instructions);
            var_chunk.result_register
        } else {
            let nil_reg = self.next_register()?;
            chunk.push(mk(OpCode::LoadNil, nil_reg, 0, 0), src_of(name));
            nil_reg
        };
        chunk.push(mk(OpCode::Class, result_register, tmp_reg, superclass_reg), src_of(name));
        let ghost head = chunk.instructions@;
        assert(head[0].inst.a == result_register + 1);
        self.enter_block();
        let ghost inner = *self;
        let mut i: usize = 0;
        while i < stmt.methods.len()
            invariant
                0 <= i <= stmt.methods@.len(),
                inner.wf(),
                inner.keeps(self),
                stmt.name is Some,
                chunk.result_register == result_register,
                jumps_stay_inside(chunk.instructions@),
                chunk.instructions@.len() > 0,
                chunk.instructions@[0].inst.opcode == OpCode::LoadK,
                chunk.instructions@.len() >= head.len(),
                chunk.instructions@.subrange(0, head.len() as int) == head,
                stmt.methods@.len() == 0 ==> chunk.instructions@ == head,
                owed == class_owed(*stmt, *old(self)),
                count0 == old(self).ctx().register_count,
                owed ==> self.ctx().register_count <= count0 + 3 + i,
            decreases stmt.methods@.len() - i,
        {
            proof {
                assert(decreases_to!(stmt => stmt.methods@[i as int]));
                if wf_fn_stmts(stmt.methods@) {
                    lemma_wf_fn_stmts_at(stmt.methods@, i as int);
                }
            }
            let met = &stmt.methods[i];
            let mut met_chunk = self.visit_fn_stmt(met)?;
            let met_reg = met_chunk.result_register;
            chunk.append(&mut met_chunk.instructions);
            let constant_ix = self.add_constant(Literal::String(met.name.lexeme.clone()));
            let (b, c) = forward_operands(constant_ix);
            chunk.push(mk(OpCode::LoadK, tmp_reg, b, c), src_of(name));
            chunk.push(mk(OpCode::ClassMeth, result_register, tmp_reg, met_reg), src_of(name));
            assert(chunk.instructions@.subrange(0, head.len() as int) =~= head);
            i = i + 1;
        }
        let mut i: usize = 0;
        while i < stmt.static_methods.len()
            invariant
                0 <= i <= stmt.static_methods@.len(),
                inner.wf(),
                inner.keeps(self),
                stmt.name is Some,
                chunk.result_register == result_register,
                jumps_stay_inside(chunk.instructions@),
                chunk.instructions@.len() > 0,
                chunk.instructions@[0].inst.opcode == OpCode::LoadK,
                chunk.instructions@.len() >= head.len(),
                chunk.instructions@.subrange(0, head.len() as int) == head,
                stmt.methods@.len() == 0 && stmt.static_methods@.len() == 0 ==> chunk.instructions@ == head,
                owed == class_owed(*stmt, *old(self)),
                count0 == old(self).ctx().register_count,
                owed ==> self.ctx().register_count <= count0 + 3 + stmt.methods@.len() + i,
            decreases stmt.static_methods@.len() - i,
        {
            proof {
                assert(decreases_to!(stmt => stmt.static_methods@[i as int]));
                if wf_fn_stmts(stmt.static_methods@) {
                    lemma_wf_fn_stmts_at(stmt.static_methods@, i as int);
                }
            }
            let met = &stmt.static_methods[i];
            let mut met_chunk = self.visit_fn_stmt(met)?;
            let met_reg = met_chunk.result_register;
            chunk.append(&mut met_chunk.instructions);
            let constant_ix = self.add_constant(Literal::String(met.name.lexeme.clone()));
            let (b, c) = forward_operands(constant_ix);
            chunk.push(mk(OpCode::LoadK, tmp_reg, b, c), src_of(name));
            chunk.push(mk(OpCode::ClassStMeth, result_register, tmp_reg, met_reg), src_of(name));
            assert(chunk.instructions@.subrange(0, head.len() as int) =~= head);
            i = i + 1;
        }
        self.leave_block();
        if self.is_global_context() {
            let constant_ix = self.add_constant(Literal::String(name.lexeme.clone()));
            let (b, c) = forward_operands(constant_ix);
            chunk.push(mk(OpCode::SetGlobal, result_register, b, c), src_of(name));
            proof {
                if old(self).is_global_context_spec() {
                    assert(declared.declares_global(name.lexeme@));
                    let w = choose|w: int| 0 <= w < declared.globals@.len() && (#[trigger] declared.globals@[w])@ == name.lexeme@;
                    assert(self.globals@[w] == declared.globals@[w]);
                }
            }
        } else {
            self.allocate_register(name.lexeme.clone(), result_register);
        }
        proof {
            assert(chunk.instructions@[0] == head[0]);
            assert(chunk.instructions@[1] == head[1]);
            if stmt.superclass is None {
                assert(chunk.instructions@[2] == head[2]);
            }
        }
        Ok(chunk)
    }

    /// A variable: its register when local; otherwise loaded from an upvalue,
    /// a native module or a global, in that order of preference.
    fn visit_variable_expr(&mut self, expr: &VarExpr) -> (r: Result<Chunk, CompileError>)
        requires
            old(self).wf(),
        ensures
            expr.name is Some ==> no_malformed(r),
            r is Ok ==> old(self).keeps(final(self)),
            r matches Ok(c) ==> jumps_stay_inside(c.instructions@),
            expr.name is None ==> (r matches Err(e) && e.kind == CompileErrorKind::MalformedTree),
            expr.name matches Some(n) ==> (lookup_local(old(self).ctx().blocks@, n.lexeme@) matches Some(reg) ==> (r matches Ok(c)
                && c.result_register == reg && c.instructions@.len() == 0)),
            expr.name matches Some(n) ==> ((r matches Err(e) && e.kind == CompileErrorKind::UndefinedVariable) <==> (
            lookup_local(old(self).ctx().blocks@, n.lexeme@) is None && !capturable(old(self).contexts@.drop_last(), n.lexeme@)
                && !spec_is_builtin(n.lexeme@) && !old(self).declares_global(n.lexeme@))),
            r matches Ok(c) ==> expr_code(Expr::Var(*expr), c),
            plain_compiles(Expr::Var(*expr), *old(self), *final(self), r is Ok),
        decreases expr,
    {
        let name = match &expr.name {
            Some(n) => n,
            None => return error(CompileErrorKind::MalformedTree, None),
        };
        let var_name = &name.lexeme;
        if let Some(reg) = self.get_var_register(var_name) {
            return Ok(Chunk::empty(reg));
        }
        if let Some(upvalue_ix) = self.get_upvalue(var_name)? {
            let reg = self.next_register()?;
            let mut chunk = Chunk::empty(reg);
            chunk.push(mk(OpCode::GetUpval, reg, upvalue_ix, 0), src_of(name));
            return Ok(chunk);
        }
        if self.is_builtin_var(var_name) {
            let reg = self.next_register()?;
            let constant_ix = self.add_constant(Literal::String(var_name.clone()));
            let (b, c) = forward_operands(constant_ix);
            let mut chunk = Chunk::empty(reg);
            chunk.push(mk(OpCode::GetBuiltin, reg, b, c), src_of(name));
            return Ok(chunk);
        }
        if self.is_global_var(var_name) {
            let reg = self.next_register()?;
            let constant_ix = self.add_constant(Literal::String(var_name.clone()));
            let (b, c) = forward_operands(constant_ix);
            let mut chunk = Chunk::empty(reg);
            chunk.push(mk(OpCode::GetGlobal, reg, b, c), src_of(name));
            return Ok(chunk);
        }
        error(CompileErrorKind::UndefinedVariable, src_of(name))
    }

    /// A list: created empty, then each element pushed; registers used by one
    /// element are reused by the next.
    fn visit_list_expr(&mut self, expr: &ListExpr) -> (r: Result<Chunk, CompileError>)
        requires
            old(self).wf(),
        ensures
            wf_expr(Expr::List(*expr)) ==> no_malformed(r),
            r is Ok ==> old(self).keeps(final(self)),
            r matches Ok(c) ==> jumps_stay_inside(c.instructions@),
            r matches Ok(c) ==> expr_code(Expr::List(*expr), c),
        decreases expr,
    {
        let reg = self.next_register()?;
        let mut chunk = Chunk::empty(reg);
        chunk.push(mk(OpCode::List, reg, 0, 0), src_of(&expr.brace));
        let beginning_reg_count = self.reg_count();
        let mut max_reg_count = self.reg_count();
        let ghost start = *self;
        let mut i: usize = 0;
        while i < expr.elements.len()
            invariant
                0 <= i <= expr.elements@.len(),
                start.wf(),
                start.keeps(self),
                jumps_stay_inside(chunk.instructions@),
                chunk.result_register == reg,
                chunk.instructions@.len() > 0,
                chunk.instructions@[0].inst == inst(OpCode::List, reg, 0, 0),
                i == 0 ==> chunk.instructions@.len() == 1,
                i > 0 ==> chunk.instructions@.last().inst.opcode == OpCode::PushList && chunk.instructions@.last().inst.a == reg,
            decreases expr.elements@.len() - i,
        {
            proof {
                assert(decreases_to!(expr => expr.elements@[i as int]));
                if wf_exprs(expr.elements@) {
                    lemma_wf_exprs_at(expr.elements@, i as int);
                }
            }
            let mut el_chunk = self.compile_expr(&expr.elements[i])?;
            if self.reg_count() > max_reg_count {
                max_reg_count = self.reg_count();
            }
            self.set_reg_count(beginning_reg_count);
            let el_reg = el_chunk.result_register;
            chunk.append(&mut el_chunk.instructions);
            chunk.push(mk(OpCode::PushList, reg, el_reg, 0), src_of(&expr.brace));
            i = i + 1;
        }
        self.set_reg_count(max_reg_count);
        Ok(chunk)
    }

    /// A dictionary: created empty, then each key and value pushed.
    fn visit_dictionary_expr(&mut self, expr: &DictionaryExpr) -> (r: Result<Chunk, CompileError>)
        requires
            old(self).wf(),
        ensures
            wf_expr(Expr::Dictionary(*expr)) ==> no_malformed(r),
            r is Ok ==> old(self).keeps(final(self)),
            r matches Ok(c) ==> jumps_stay_inside(c.instructions@),
            r matches Ok(c) ==> expr_code(Expr::Dictionary(*expr), c),
        decreases expr,
    {
        let reg = self.next_register()?;
        let mut chunk = Chunk::empty(reg);
        chunk.push(mk(OpCode::Dict, reg, 0, 0), src_of(&expr.curly_brace));
        let ghost start = *self;
        let pairs = expr.elements.len() / 2;
        let mut i: usize = 0;
        while i < pairs
            invariant
                0 <= i <= pairs,
                pairs == expr.elements@.len() / 2,
                expr.elements@.len() <= usize::MAX,
                start.wf(),
                start.keeps(self),
                jumps_stay_inside(chunk.instructions@),
                chunk.result_register == reg,
                chunk.instructions@.len() > 0,
                chunk.instructions@[0].inst == inst(OpCode::Dict, reg, 0, 0),
                i == 0 ==> chunk.instructions@.len() == 1,
                i > 0 ==> chunk.instructions@.last().inst.opcode == OpCode::PushDict && chunk.instructions@.last().inst.a == reg,
            decreases pairs - i,
        {
            assert(2 * i + 1 < expr.elements@.len()) by (nonlinear_arith)
                requires
                    i < pairs,
                    pairs == expr.elements@.len() / 2,
            ;
            proof {
                assert(decreases_to!(expr => expr.elements@[2 * i]));
                assert(decreases_to!(expr => expr.elements@[2 * i + 1]));
                if wf_exprs(expr.elements@) {
                    lemma_wf_exprs_at(expr.elements@, 2 * i);
                    lemma_wf_exprs_at(expr.elements@, 2 * i + 1);
                }
            }
            let mut k_chunk = self.compile_expr(&expr.elements[i * 2])?;
            let mut val_chunk = self.compile_expr(&expr.elements[i * 2 + 1])?;
            let k_reg = k_chunk.result_register;
            let val_reg = val_chunk.result_register;
            chunk.append(&mut k_chunk.instructions);
            chunk.append(&mut val_chunk.instructions);
            chunk.push(mk(OpCode::PushDict, reg, k_reg, val_reg), src_of(&expr.curly_brace));
            i = i + 1;
        }
        Ok(chunk)
    }

    /// The instructions storing the value in `chunk` into `access.object[access.first]`.
    fn assign_element(&mut self, chunk: &mut Chunk, access: &AccessExpr, token: &TokenData) -> (r: Result<(), CompileError>)
        requires
            old(self).wf(),
        ensures
            wf_access(*access) ==> no_malformed(r),
            r is Ok ==> old(self).keeps(final(self)),
            final(chunk).result_register == old(chunk).result_register,
            r is Ok && jumps_stay_inside(old(chunk).instructions@) ==> jumps_stay_inside(final(chunk).instructions@),
            r is Ok ==> final(chunk).instructions@.len() > old(chunk).instructions@.len(),
            r is Ok ==> final(chunk).instructions@.subrange(0, old(chunk).instructions@.len() as int)
                == old(chunk).instructions@,
            r is Ok ==> final(chunk).instructions@.last().inst.opcode == OpCode::SetElem,
            r is Ok ==> final(chunk).instructions@.last().inst.c == old(chunk).result_register,
        decreases access,
    {
        let mut obj_chunk = self.compile_expr(&access.object)?;
        let mut access_chunk = self.compile_expr(&access.first)?;
        let obj_reg = obj_chunk.result_register;
        let access_reg = access_chunk.result_register;
        chunk.append(&mut obj_chunk.instructions);
        chunk.append(&mut access_chunk.instructions);
        let value_reg = chunk.result_register;
        chunk.push(mk(OpCode::SetElem, obj_reg, access_reg, value_reg), src_of(token));
        Ok(())
    }

    /// Makes the last instruction of `chunk` write into `reg` (for a call, the
    /// register after it), and `reg` the chunk's result.
    fn redirect_result(chunk: &mut Chunk, reg: u8)
        ensures
            final(chunk).instructions@.len() == old(chunk).instructions@.len(),
            final(chunk).result_register == reg,
            forall|k: int| 0 <= k < old(chunk).instructions@.len() - 1 ==> #[trigger] final(chunk).instructions@[k]
                == old(chunk).instructions@[k],
            old(chunk).instructions@.len() > 0 && old(chunk).instructions@.last().inst.opcode != OpCode::Call
                ==> final(chunk).instructions@.last().inst == inst(
                old(chunk).instructions@.last().inst.opcode,
                reg,
                old(chunk).instructions@.last().inst.b,
                old(chunk).instructions@.last().inst.c,
            ),
            old(chunk).instructions@.len() > 0 && old(chunk).instructions@.last().inst.opcode == OpCode::Call ==> {
                let x = old(chunk).instructions@.last().inst;
                let y = final(chunk).instructions@.last().inst;
                y.opcode == OpCode::Call && y.a == x.a && y.b == x.b
            },
            jumps_stay_inside(old(chunk).instructions@) ==> jumps_stay_inside(final(chunk).instructions@),
    {
        let ghost before = chunk.instructions@;
        let n = chunk.instructions.len();
        if n > 0 {
            let x = chunk.instructions[n - 1].inst;
            if x.opcode == OpCode::Call {
                chunk.instructions[n - 1].inst = mk(x.opcode, x.a, x.b, reg.wrapping_add(1));
            } else {
                chunk.instructions[n - 1].inst = mk(x.opcode, reg, x.b, x.c);
            }
            proof {
                let after = chunk.instructions@;
                if jumps_stay_inside(before) && after.len() < 32768 {
                    assert forall|k: int| 0 <= k < after.len() implies #[trigger] lands_inside(after, k) by {
                        assert(lands_inside(before, k));
                        if k < n - 1 {
                            assert(after[k] == before[k]);
                        }
                    }
                }
            }
        }
        chunk.result_register = reg;
    }

    /// `name = value` or `name[..] = value`, for a local, a captured variable
    /// or a global.
    fn visit_assign_expr(&mut self, expr: &AssignExpr) -> (r: Result<Chunk, CompileError>)
        requires
            old(self).wf(),
        ensures
            wf_expr(Expr::Assign(*expr)) ==> no_malformed(r),
            r is Ok ==> old(self).keeps(final(self)),
            r matches Ok(c) ==> jumps_stay_inside(c.instructions@),
            lookup_local(old(self).ctx().blocks@, expr.name.lexeme@) is None && !capturable(
                old(self).contexts@.drop_last(),
                expr.name.lexeme@,
            ) && !old(self).declares_global(expr.name.lexeme@) ==> (r matches Err(e) && e.kind
                == CompileErrorKind::UndefinedVariable),
            expr.access is None ==> (lookup_local(old(self).ctx().blocks@, expr.name.lexeme@) matches Some(reg) ==> (
            r matches Ok(c) ==> c.result_register == reg && (c.instructions@.len() > 0 && c.instructions@.last().inst.opcode
                != OpCode::Call ==> c.instructions@.last().inst.a == reg))),
            expr.access is None && lookup_local(old(self).ctx().blocks@, expr.name.lexeme@) is Some && plain_expr(
                *expr.value,
                old(self).ctx().blocks@,
            ) && old(self).ctx().register_count + reg_need(*expr.value) <= 255 ==> r is Ok,
            plain_compiles(Expr::Assign(*expr), *old(self), *final(self), r is Ok),
            global_assign_owed(*expr, *old(self)) ==> r is Ok,
            expr.access is None && lookup_local(old(self).ctx().blocks@, expr.name.lexeme@) is None && !capturable(
                old(self).contexts@.drop_last(),
                expr.name.lexeme@,
            ) ==> (r matches Ok(c) ==> c.instructions@.len() > 0 && c.instructions@.last().inst.opcode == OpCode::SetGlobal
                && c.instructions@.last().inst.a == c.result_register),
        decreases expr,
    {
        let var_name = &expr.name.lexeme;
        if let Some(reg) = self.get_var_register(var_name) {
            let mut chunk = self.compile_expr(&expr.value)?;
            if let Some(access) = &expr.access {
                self.assign_element(&mut chunk, access, &expr.name)?;
            } else {
                Self::redirect_result(&mut chunk, reg);
            }
            return Ok(chunk);
        }
        if let Some(upvalue_ix) = self.get_upvalue(var_name)? {
            let reg = self.next_register()?;
            let mut chunk = self.compile_expr(&expr.value)?;
            if let Some(access) = &expr.access {
                self.assign_element(&mut chunk, access, &expr.name)?;
            } else {
                Self::redirect_result(&mut chunk, reg);
                chunk.push(mk(OpCode::SetUpval, reg, upvalue_ix, 0), src_of(&expr.name));
            }
            return Ok(chunk);
        }
        if self.is_global_var(var_name) {
            let reg = self.next_register()?;
            let mut chunk = self.compile_expr(&expr.value)?;
            let constant_ix = self.add_constant(Literal::String(var_name.clone()));
            if let Some(access) = &expr.access {
                self.assign_element(&mut chunk, access, &expr.name)?;
            } else {
                Self::redirect_result(&mut chunk, reg);
                let (b, c) = forward_operands(constant_ix);
                chunk.push(mk(OpCode::SetGlobal, reg, b, c), src_of(&expr.name));
            }
            return Ok(chunk);
        }
        error(CompileErrorKind::UndefinedVariable, src_of(&expr.name))
    }

    /// Pushes one bound of a slice onto the list in `list_register`: the
    /// bound's compiled code and its register, or `dflt` for an omitted bound.
    fn push_part(
        chunk: &mut Chunk,
        compiled: Option<Chunk>,
        list_register: u8,
        dflt: u8,
        token_data: &TokenData,
        Ghost(part): Ghost<Expr>,
    )
        requires
            compiled is None <==> part is Empty,
            compiled matches Some(pc) ==> expr_insts(part, pc.instructions@, pc.result_register) && jumps_stay_inside(
                pc.instructions@,
            ),
            jumps_stay_inside(old(chunk).instructions@),
        ensures
            final(chunk).result_register == old(chunk).result_register,
            final(chunk).instructions@.len() > old(chunk).instructions@.len(),
            final(chunk).instructions@.subrange(0, old(chunk).instructions@.len() as int) == old(chunk).instructions@,
            part_insts(
                part,
                final(chunk).instructions@.subrange(
                    old(chunk).instructions@.len() as int,
                    final(chunk).instructions@.len() as int,
                ),
                list_register,
                dflt,
            ),
            jumps_stay_inside(final(chunk).instructions@),
    {
        let ghost before = chunk.instructions@;
        match compiled {
            Some(mut pc) => {
                let reg = pc.result_register;
                let ghost code = pc.instructions@;
                chunk.append(&mut pc.instructions);
                chunk.push(mk(OpCode::PushList, list_register, reg, 0), Some(token_data.copied()));
                let ghost after = chunk.instructions@;
                assert(after.subrange(before.len() as int, after.len() as int).drop_last() =~= code);
            },
            None => {
                chunk.push(mk(OpCode::PushList, list_register, dflt, 0), Some(token_data.copied()));
            },
        }
        assert(chunk.instructions@.subrange(0, before.len() as int) =~= before);
    }

    /// `object[first]`, or a slice `object[first:second:third]` built as a
    /// list of its three parts (nil when absent; the step is 1 when there is no
    /// second colon); `access_op` reads or writes the element.
    #[verifier::spinoff_prover]
    #[verifier::rlimit(100)]
    fn access_collection(&mut self, expr: &AccessExpr, access_op: OpCode) -> (r: Result<Chunk, CompileError>)
        requires
            old(self).wf(),
            access_op == OpCode::Access || access_op == OpCode::SetElem,
        ensures
            wf_access(*expr) ==> no_malformed(r),
            r is Ok ==> old(self).keeps(final(self)),
            r matches Ok(c) ==> jumps_stay_inside(c.instructions@),
            r matches Ok(c) ==> c.instructions@.len() > 0 && c.instructions@.last().inst.opcode == access_op,
            r matches Ok(c) ==> access_insts(*expr, access_op, c.instructions@, c.result_register),
            r matches Ok(c) ==> slice_loads_one(*expr, c.instructions@, final(self).constants@),
            plain_compiles(Expr::Access(*expr), *old(self), *final(self), r is Ok),
        decreases expr,
    {
        let ghost blocks = self.ctx().blocks@;
        let ghost count0 = self.ctx().register_count as int;
        let ghost owed = plain_expr(Expr::Access(*expr), blocks) && count0 + reg_need(Expr::Access(*expr)) <= 255;
        let result_register = self.next_register()?;
        let mut chunk = Chunk::empty(result_register);
        let mut obj_chunk = self.compile_expr(&expr.object)?;
        assert(owed ==> self.ctx().register_count == count0 + 1 + reg_need(*expr.object) && self.ctx().blocks@ == blocks);
        let obj_reg = obj_chunk.result_register;
        let ghost oc = obj_chunk.instructions@;
        let token_data = if expr.second_colon.token != Token::Nil {
            expr.second_colon.copied()
        } else {
            expr.brace.copied()
        };
        chunk.append(&mut obj_chunk.instructions);
        if !expr.first.is_empty() && expr.first_colon.token == Token::Nil && expr.second.is_empty()
            && expr.second_colon.token == Token::Nil && expr.third.is_empty() {
            let mut first_chunk = self.compile_expr(&expr.first)?;
            assert(owed ==> self.ctx().register_count == count0 + reg_need(Expr::Access(*expr)) && self.ctx().blocks@ == blocks);
            let first_reg = first_chunk.result_register;
            let ghost fc = first_chunk.instructions@;
            chunk.append(&mut first_chunk.instructions);
            if access_op == OpCode::Access {
                chunk.push(mk(access_op, result_register, obj_reg, first_reg), Some(token_data));
            } else {
                chunk.push(mk(access_op, obj_reg, first_reg, 0), Some(token_data));
            }
            proof {
                let s = chunk.instructions@;
                assert(s.subrange(0, oc.len() as int) =~= oc);
                assert(s.subrange(oc.len() as int, s.len() - 1) =~= fc);
            }
        } else {
            let list_register = self.next_register()?;
            chunk.push(mk(OpCode::List, list_register, 0, 0), Some(token_data.copied()));
            let nil_register = self.next_register()?;
            chunk.push(mk(OpCode::LoadNil, nil_register, 0, 0), Some(token_data.copied()));
            let one_register = self.next_register()?;
            let one_text = String::from_str("1");
            let constant_ix = self.add_constant(Literal::Number(one_text));
            let ghost consts_one = self.constants@;
            let (b, c) = forward_operands(constant_ix);
            chunk.push(mk(OpCode::LoadK, one_register, b, c), Some(token_data.copied()));
            let ghost head = chunk.instructions@;
            assert(owed ==> self.ctx().register_count == count0 + 4 + reg_need(*expr.object) && self.ctx().blocks@ == blocks);
            let first = if expr.first.is_empty() {
                None
            } else {
                Some(self.compile_expr(&expr.first)?)
            };
            assert(owed ==> self.ctx().register_count == count0 + 4 + reg_need(*expr.object) + reg_need(*expr.first)
                && self.ctx().blocks@ == blocks);
            Self::push_part(&mut chunk, first, list_register, nil_register, &token_data, Ghost(*expr.first));
            let ghost s1 = chunk.instructions@;
            let second = if expr.second.is_empty() {
                None
            } else {
                Some(self.compile_expr(&expr.second)?)
            };
            assert(owed ==> self.ctx().register_count == count0 + 4 + reg_need(*expr.object) + reg_need(*expr.first)
                + reg_need(*expr.second) && self.ctx().blocks@ == blocks);
            Self::push_part(&mut chunk, second, list_register, nil_register, &token_data, Ghost(*expr.second));
            let ghost s2 = chunk.instructions@;
            let third = if expr.third.is_empty() {
                None
            } else {
                Some(self.compile_expr(&expr.third)?)
            };
            assert(owed ==> self.ctx().register_count == count0 + reg_need(Expr::Access(*expr)) && self.ctx().blocks@ == blocks);
            let step_default = if expr.second_colon.token == Token::Nil {
                one_register
            } else {
                nil_register
            };
            Self::push_part(&mut chunk, third, list_register, step_default, &token_data, Ghost(*expr.third));
            let ghost s3 = chunk.instructions@;
            chunk.push(mk(OpCode::Slice, list_register, list_register, 0), Some(token_data.copied()));
            chunk.push(mk(access_op, result_register, obj_reg, list_register), Some(token_data));
            proof {
                let s = chunk.instructions@;
                let n = oc.len() as int;
                let p1 = s1.len() as int;
                let p2 = s2.len() as int;
                assert(head.subrange(0, n) =~= oc);
                assert(s.subrange(0, n) =~= oc) by {
                    assert(s1.subrange(0, head.len() as int) == head);
                    assert(s2.subrange(0, p1) == s1);
                    assert(s3.subrange(0, p2) == s2);
                }
                assert(s.subrange(n + 3, p1) =~= s1.subrange(head.len() as int, p1)) by {
                    assert(s2.subrange(0, p1) == s1);
                    assert(s3.subrange(0, p2) == s2);
                }
                assert(s.subrange(p1, p2) =~= s2.subrange(p1, p2)) by {
                    assert(s3.subrange(0, p2) == s2);
                }
                assert(s.subrange(p2, s.len() - 2) =~= s3.subrange(p2, s3.len() as int));
                assert(s[n] == head[n]) by {
                    assert(s1.subrange(0, head.len() as int) == head);
                    assert(s2.subrange(0, p1) == s1);
                    assert(s3.subrange(0, p2) == s2);
                    assert(s1[n] == head[n]);
                    assert(s2[n] == s1[n]);
                    assert(s3[n] == s2[n]);
                }
                assert(s[n + 1] == head[n + 1]) by {
                    assert(s1.subrange(0, head.len() as int) == head);
                    assert(s2.subrange(0, p1) == s1);
                    assert(s3.subrange(0, p2) == s2);
                    assert(s1[n + 1] == head[n + 1]);
                    assert(s2[n + 1] == s1[n + 1]);
                    assert(s3[n + 1] == s2[n + 1]);
                }
                assert(s[n + 2] == head[n + 2]) by {
                    assert(s1.subrange(0, head.len() as int) == head);
                    assert(s2.subrange(0, p1) == s1);
                    assert(s3.subrange(0, p2) == s2);
                    assert(s1[n + 2] == head[n + 2]);
                    assert(s2[n + 2] == s1[n + 2]);
                    assert(s3[n + 2] == s2[n + 2]);
                }
                assert(slice_default(*expr, nil_register, one_register) == step_default);
                assert(slice_layout_at(*expr, s, n, p1, p2));
                assert(self.constants@[constant_ix as int] == consts_one[constant_ix as int]);
                assert(loads_one(s[n + 2].inst, self.constants@));
            }
        }
        Ok(chunk)
    }

    fn visit_binary_expr(&mut self, expr: &BinaryExpr) -> (r: Result<Chunk, CompileError>)
        requires
            old(self).wf(),
        ensures
            wf_expr(Expr::Binary(*expr)) ==> no_malformed(r),
            r is Ok ==> old(self).keeps(final(self)),
            r matches Ok(c) ==> jumps_stay_inside(c.instructions@),
            r matches Ok(c) ==> c.instructions@.len() > 0 && c.instructions@.last().inst.opcode == binary_opcode(
                expr.operator.token,
            )->0 && c.instructions@.last().inst.a == c.result_register,
            r matches Ok(c) ==> expr_code(Expr::Binary(*expr), c),
            plain_compiles(Expr::Binary(*expr), *old(self), *final(self), r is Ok),
        decreases expr,
    {
        let mut left_chunk = self.compile_expr(&expr.left)?;
        let mut right_chunk = self.compile_expr(&expr.right)?;
        let opcode = match binary_opcode_of(expr.operator.token) {
            Some(op) => op,
            None => return error(CompileErrorKind::MalformedTree, src_of(&expr.operator)),
        };
        let result_register = self.next_register()?;
        let left_reg = left_chunk.result_register;
        let right_reg = right_chunk.result_register;
        let ghost lc = left_chunk.instructions@;
        let ghost rc = right_chunk.instructions@;
        let mut chunk = Chunk::empty(result_register);
        chunk.append(&mut left_chunk.instructions);
        chunk.append(&mut right_chunk.instructions);
        chunk.push(mk(opcode, result_register, left_reg, right_reg), src_of(&expr.operator));
        proof {
            let s = chunk.instructions@;
            assert(s.subrange(0, lc.len() as int) =~= lc);
            assert(s.subrange(lc.len() as int, s.len() - 1) =~= rc);
            assert(expr_insts(Expr::Binary(*expr), s, result_register));
        }
        Ok(chunk)
    }

    /// A call: the callee and each argument moved into consecutive registers,
    /// then `Call` with the argument count plus one.
    fn visit_call_expr(&mut self, expr: &CallExpr) -> (r: Result<Chunk, CompileError>)
        requires
            old(self).wf(),
        ensures
            wf_expr(Expr::Call(*expr)) ==> no_malformed(r),
            r is Ok ==> old(self).keeps(final(self)),
            r matches Ok(c) ==> jumps_stay_inside(c.instructions@),
            r matches Ok(c) ==> c.instructions@.len() > 0 && c.instructions@.last().inst.opcode == OpCode::Call,
            r matches Ok(c) ==> expr_code(Expr::Call(*expr), c),
        decreases expr,
    {
        let mut chunk = self.compile_expr(&expr.callee)?;
        let fn_register = self.next_register()?;
        let callee_reg = chunk.result_register;
        chunk.push(mk(OpCode::Move, fn_register, callee_reg, 0), src_of(&expr.paren));
        let start_reg = self.next_register()?;
        let n = expr.arguments.len();
        let ghost start = *self;
        let mut k: usize = 1;
        while k < n
            invariant
                1 <= k,
                n == expr.arguments@.len(),
                start.wf(),
                start.keeps(self),
                jumps_stay_inside(chunk.instructions@),
            decreases n - k,
        {
            let _ = self.next_register()?;
            k = k + 1;
        }
        let mut i: usize = 0;
        while i < n
            invariant
                0 <= i <= n,
                n == expr.arguments@.len(),
                start.wf(),
                start.keeps(self),
                jumps_stay_inside(chunk.instructions@),
            decreases n - i,
        {
            proof {
                assert(decreases_to!(expr => expr.arguments@[i as int]));
                if wf_exprs(expr.arguments@) {
                    lemma_wf_exprs_at(expr.arguments@, i as int);
                }
            }
            let mut arg_chunk = self.compile_expr(&expr.arguments[i])?;
            let arg_reg = arg_chunk.result_register;
            chunk.append(&mut arg_chunk.instructions);
            chunk.push(mk(OpCode::Move, start_reg.wrapping_add((i % 256) as u8), arg_reg, 0), None);
            i = i + 1;
        }
        let result_register = self.next_register()?;
        chunk.result_register = result_register;
        chunk.push(
            mk(OpCode::Call, fn_register, ((n % 256) as u8).wrapping_add(1), result_register.wrapping_add(1)),
            src_of(&expr.paren),
        );
        Ok(chunk)
    }

    /// `object.name`: the name loaded as a constant, then the property read.
    fn visit_get_expr(&mut self, expr: &GetExpr) -> (r: Result<Chunk, CompileError>)
        requires
            old(self).wf(),
        ensures
            wf_expr(Expr::Get(*expr)) ==> no_malformed(r),
            r is Ok ==> old(self).keeps(final(self)),
            r matches Ok(c) ==> jumps_stay_inside(c.instructions@),
            r matches Ok(c) ==> c.instructions@.len() >= 2,
            r matches Ok(c) ==> c.instructions@.last().inst.opcode == OpCode::GetObj,
            r matches Ok(c) ==> c.instructions@.last().inst.a == c.result_register,
            r matches Ok(c) ==> c.instructions@.last().inst.c == c.result_register,
            r matches Ok(c) ==> c.instructions@[c.instructions@.len() - 2].inst.opcode == OpCode::LoadK,
            r matches Ok(c) ==> c.instructions@[c.instructions@.len() - 2].inst.a == c.result_register,
            r is Ok ==> final(self).constants@.last() == Literal::String(expr.name.lexeme),
            r matches Ok(c) ==> expr_code(Expr::Get(*expr), c),
        decreases expr,
    {
        let mut chunk = self.compile_expr(&expr.object)?;
        let result_register = self.next_register()?;
        let constant_ix = self.add_constant(Literal::String(expr.name.lexeme.clone()));
        let (b, c) = forward_operands(constant_ix);
        let obj_reg = chunk.result_register;
        chunk.push(mk(OpCode::LoadK, result_register, b, c), src_of(&expr.name));
        chunk.push(mk(OpCode::GetObj, result_register, obj_reg, result_register), src_of(&expr.name));
        chunk.result_register = result_register;
        Ok(chunk)
    }

    /// `object.name = value`, or `object.name[..] = value`.
    fn visit_set_expr(&mut self, expr: &SetExpr) -> (r: Result<Chunk, CompileError>)
        requires
            old(self).wf(),
        ensures
            wf_expr(Expr::SetProp(*expr)) ==> no_malformed(r),
            r is Ok ==> old(self).keeps(final(self)),
            r matches Ok(c) ==> jumps_stay_inside(c.instructions@),
            r matches Ok(c) ==> expr_code(Expr::SetProp(*expr), c),
        decreases expr,
    {
        let mut chunk = Chunk::empty(0);
        let mut value_chunk = self.compile_expr(&expr.value)?;
        let value_reg = value_chunk.result_register;
        chunk.append(&mut value_chunk.instructions);
        if let Some(access) = &expr.access {
            let mut access_chunk = self.access_collection(access, OpCode::SetElem)?;
            let n = access_chunk.instructions.len();
            let x = access_chunk.instructions[n - 1].inst;
            let ghost before = access_chunk.instructions@;
            access_chunk.instructions[n - 1].inst = mk(x.opcode, x.a, x.b, value_reg);
            proof {
                let after = access_chunk.instructions@;
                if after.len() < 32768 {
                    assert forall|k: int| 0 <= k < after.len() implies #[trigger] lands_inside(after, k) by {
                        if k < n - 1 {
                            assert(after[k] == before[k]);
                            assert(lands_inside(before, k));
                        }
                    }
                }
            }
            chunk.result_register = access_chunk.result_register;
            chunk.append(&mut access_chunk.instructions);
        } else {
            let mut obj_chunk = self.compile_expr(&expr.object)?;
            chunk.result_register = obj_chunk.result_register;
            chunk.append(&mut obj_chunk.instructions);
            let tmp_register = self.next_register()?;
            let constant_ix = self.add_constant(Literal::String(expr.name.lexeme.clone()));
            let (b, c) = forward_operands(constant_ix);
            chunk.push(mk(OpCode::LoadK, tmp_register, b, c), src_of(&expr.name));
            let obj_reg = chunk.result_register;
            chunk.push(mk(OpCode::SetObj, obj_reg, tmp_register, value_reg), src_of(&expr.name));
        }
        Ok(chunk)
    }

    /// `super.method`: the method's name loaded, then looked up in the superclass.
    fn visit_super_expr(&mut self, expr: &SuperExpr) -> (r: Result<Chunk, CompileError>)
        requires
            old(self).wf(),
        ensures
            no_malformed(r),
            r is Ok ==> old(self).keeps(final(self)),
            r matches Ok(c) ==> jumps_stay_inside(c.instructions@),
            r is Ok <==> old(self).ctx().register_count < 255,
            r is Ok ==> final(self).constants@ == old(self).constants@.push(Literal::String(expr.method.lexeme)),
            r matches Ok(c) ==> c.result_register == old(self).ctx().register_count && c.instructions@ == seq![
                InstSrc {
                    inst: inst(
                        OpCode::LoadK,
                        c.result_register,
                        hi_byte(old(self).constants@.len() as int),
                        lo_byte(old(self).constants@.len() as int),
                    ),
                    src: Some(expr.method),
                },
                InstSrc { inst: inst(OpCode::Super, c.result_register, c.result_register, 0), src: Some(expr.method) },
            ],
            r matches Ok(c) ==> expr_code(Expr::Super(*expr), c),
        decreases expr,
    {
        let reg = self.next_register()?;
        let mut chunk = Chunk::empty(reg);
        let constant_ix = self.add_constant(Literal::String(expr.method.lexeme.clone()));
        let (b, c) = forward_operands(constant_ix);
        chunk.push(mk(OpCode::LoadK, reg, b, c), src_of(&expr.method));
        chunk.push(mk(OpCode::Super, reg, reg, 0), src_of(&expr.method));
        Ok(chunk)
    }

    /// A literal: added to the constants and loaded into a fresh register.
    fn visit_literal_expr(&mut self, expr: &LiteralExpr) -> (r: Result<Chunk, CompileError>)
        requires
            old(self).wf(),
        ensures
            no_malformed(r),
            r is Ok ==> old(self).keeps(final(self)),
            r matches Ok(c) ==> jumps_stay_inside(c.instructions@),
            r is Ok <==> old(self).ctx().register_count < 255,
            r is Ok ==> final(self).constants@ == old(self).constants@.push(expr.value),
            r matches Ok(c) ==> c.result_register == old(self).ctx().register_count && c.instructions@ == seq![
                InstSrc {
                    inst: inst(
                        OpCode::LoadK,
                        c.result_register,
                        hi_byte(old(self).constants@.len() as int),
                        lo_byte(old(self).constants@.len() as int),
                    ),
                    src: None,
                },
            ],
            r matches Ok(c) ==> expr_code(Expr::Literal(*expr), c),
            plain_compiles(Expr::Literal(*expr), *old(self), *final(self), r is Ok),
        decreases expr,
    {
        let result_register = self.next_register()?;
        let constant_ix = self.add_constant(expr.value.copied());
        let (b, c) = forward_operands(constant_ix);
        let mut chunk = Chunk::empty(result_register);
        chunk.push(mk(OpCode::LoadK, result_register, b, c), None);
        Ok(chunk)
    }

    /// `left or right`, `left and right`: the right operand is skipped when the
    /// left one decides.
    fn visit_logical_expr(&mut self, expr: &LogicalExpr) -> (r: Result<Chunk, CompileError>)
        requires
            old(self).wf(),
        ensures
            wf_expr(Expr::Logical(*expr)) ==> no_malformed(r),
            r is Ok ==> old(self).keeps(final(self)),
            r matches Ok(c) ==> jumps_stay_inside(c.instructions@),
            r matches Ok(c) ==> expr_code(Expr::Logical(*expr), c),
            plain_compiles(Expr::Logical(*expr), *old(self), *final(self), r is Ok),
        decreases expr,
    {
        let mut left_chunk = self.compile_expr(&expr.left)?;
        let mut right_chunk = self.compile_expr(&expr.right)?;
        let left_reg = left_chunk.result_register;
        let right_reg = right_chunk.result_register;
        let right_len = right_chunk.instructions.len();
        let ghost left = left_chunk.instructions@;
        let ghost right = right_chunk.instructions@;
        let mut chunk = Chunk::empty(left_reg);
        chunk.append(&mut left_chunk.instructions);
        let test_c: u8 = if expr.operator.token == Token::Or { 1 } else { 0 };
        chunk.push(mk(OpCode::Test, left_reg, left_reg, test_c), src_of(&expr.operator));
        let (b, c) = forward_operands(right_len.wrapping_add(2));
        chunk.push(mk(OpCode::Jmp, 0, b, c), src_of(&expr.operator));
        chunk.append(&mut right_chunk.instructions);
        chunk.push(mk(OpCode::Move, left_reg, right_reg, 0), src_of(&expr.operator));
        proof {
            let s = chunk.instructions@;
            assert(s[left.len() as int].inst == inst(OpCode::Test, left_reg, left_reg, test_c));
            let n = left.len() as int;
            let m = right.len() as int;
            assert(s.subrange(0, n) =~= left);
            assert(s.subrange(n + 2, s.len() - 1) =~= right);
            if s.len() < 32768 {
                crate::instruction::lemma_sbx_roundtrip(m + 2);
                assert(tests_then_leaves(s, n));
                assert forall|k: int| 0 <= k < s.len() implies #[trigger] lands_inside(s, k) by {
                    if k < n {
                        lemma_inside_block(s, 0, left, k);
                    } else if k == n + 1 {
                        crate::instruction::lemma_sbx_roundtrip(m + 2);
                    } else if n + 2 <= k < n + 2 + m {
                        lemma_inside_block(s, n + 2, right, k);
                    }
                }
            }
        }
        Ok(chunk)
    }

    fn visit_this_expr(&mut self, expr: &ThisExpr) -> (r: Result<Chunk, CompileError>)
        requires
            old(self).wf(),
        ensures
            no_malformed(r),
            r is Ok ==> old(self).keeps(final(self)),
            r matches Ok(c) ==> jumps_stay_inside(c.instructions@),
            r is Ok <==> old(self).ctx().register_count < 255,
            r matches Ok(c) ==> c.result_register == old(self).ctx().register_count && c.instructions@ == seq![
                InstSrc { inst: inst(OpCode::This, c.result_register, 0, 0), src: Some(expr.keyword) },
            ],
            r matches Ok(c) ==> expr_code(Expr::This(*expr), c),
        decreases expr,
    {
        let reg = self.next_register()?;
        let mut chunk = Chunk::empty(reg);
        chunk.push(mk(OpCode::This, reg, 0, 0), src_of(&expr.keyword));
        Ok(chunk)
    }

    /// `not right` or `-right`, computed in place.
    fn visit_unary_expr(&mut self, expr: &UnaryExpr) -> (r: Result<Chunk, CompileError>)
        requires
            old(self).wf(),
        ensures
            wf_expr(Expr::Unary(*expr)) ==> no_malformed(r),
            r is Ok ==> old(self).keeps(final(self)),
            r matches Ok(c) ==> jumps_stay_inside(c.instructions@),
            expr.operator.token != Token::Not && expr.operator.token != Token::Minus ==> (r is Err),
            r matches Ok(c) ==> c.instructions@.len() > 0 && c.instructions@.last() == (InstSrc {
                inst: inst(
                    if expr.operator.token == Token::Not { OpCode::Not } else { OpCode::Neg },
                    c.result_register,
                    c.result_register,
                    0,
                ),
                src: Some(expr.operator),
            }),
            r matches Ok(c) ==> expr_code(Expr::Unary(*expr), c),
            plain_compiles(Expr::Unary(*expr), *old(self), *final(self), r is Ok),
        decreases expr,
    {
        let mut chunk = self.compile_expr(&expr.right)?;
        let reg = chunk.result_register;
        let opcode = if expr.operator.token == Token::Not {
            OpCode::Not
        } else if expr.operator.token == Token::Minus {
            OpCode::Neg
        } else {
            return error(CompileErrorKind::MalformedTree, src_of(&expr.operator));
        };
        chunk.push(mk(opcode, reg, reg, 0), src_of(&expr.operator));
        Ok(chunk)
    }
}

/// In the code of `left or right` and `left and right`, the test of the left
/// operand's value is followed by a jump that lands just past the code's last
/// instruction, the move of the right operand's value: when the left operand
/// decides, neither the right operand's code, which stands between that jump
/// and the move, nor the move runs.
pub proof fn lemma_logical_jump_skips_right(e: Expr, s: Seq<InstSrc>, r: u8)
    requires
        e is Logical,
        expr_insts(e, s, r),
        s.len() < 32768,
    ensures
        s.last().inst.opcode == OpCode::Move,
        exists|n: int|
            0 <= n && n + 2 < s.len() && (#[trigger] s[n]).inst.opcode == OpCode::Test
                && s[n + 1].inst.opcode == OpCode::Jmp
                && n + 1 + spec_sbx(s[n + 1].inst.b, s[n + 1].inst.c) == s.len()
                && n + 1 + spec_sbx(s[n + 1].inst.b, s[n + 1].inst.c) > s.len() - 1
                && expr_insts(*e->Logical_0.left, s.subrange(0, n), r)
                && expr_insts(*e->Logical_0.right, s.subrange(n + 2, s.len() - 1), s.last().inst.b),
{
    let n = choose|n: int| 0 <= n && n + 1 < s.len() && (#[trigger] s[n]).inst == inst(
        OpCode::Test,
        r,
        r,
        if e->Logical_0.operator.token == Token::Or { 1 } else { 0 },
    ) && tests_then_leaves(s, n) && expr_insts(*e->Logical_0.left, s.subrange(0, n), r) && expr_insts(
        *e->Logical_0.right,
        s.subrange(n + 2, s.len() - 1),
        s.last().inst.b,
    );
    assert(s[n].inst.opcode == OpCode::Test);
    assert(s[n + 1].inst.opcode == OpCode::Jmp);
    assert(n + 2 < s.len()) by {
        if n + 2 == s.len() {
            assert(s.last() == s[n + 1]);
        }
    }
}

/// The opcode of a binary operator.
pub open spec fn binary_opcode(t: Token) -> Option<OpCode> {
    match t {
        Token::Plus => Some(OpCode::Add),
        Token::Less => Some(OpCode::Lt),
        Token::EqualEqual => Some(OpCode::Eq),
        Token::BangEqual => Some(OpCode::Neq),
        Token::Greater => Some(OpCode::Gt),
        Token::GreaterEqual => Some(OpCode::Gte),
        Token::LessEqual => Some(OpCode::Lte),
        Token::Minus => Some(OpCode::Sub),
        Token::Slash => Some(OpCode::Div),
        Token::Mod => Some(OpCode::Mod),
        Token::Star => Some(OpCode::Mul),
        Token::Power => Some(OpCode::Pow),
        _ => None,
    }
}

/// Each binary operator compiles to the instruction of the same operation: `+` to
/// Add, `-` to Sub, `*` to Mul, `/` to Div, `%` to Mod, `**` to Pow, `==` to Eq,
/// `!=` to Neq, `<` to Lt, `<=` to Lte, `>` to Gt and `>=` to Gte; two distinct
/// operators never share an opcode, and a token that is no binary operator has none.
pub proof fn lemma_binary_opcodes(t: Token, u: Token)
    ensures
        t == Token::Plus ==> binary_opcode(t) == Some(OpCode::Add),
        t == Token::Minus ==> binary_opcode(t) == Some(OpCode::Sub),
        t == Token::Star ==> binary_opcode(t) == Some(OpCode::Mul),
        t == Token::Slash ==> binary_opcode(t) == Some(OpCode::Div),
        t == Token::Mod ==> binary_opcode(t) == Some(OpCode::Mod),
        t == Token::Power ==> binary_opcode(t) == Some(OpCode::Pow),
        t == Token::EqualEqual ==> binary_opcode(t) == Some(OpCode::Eq),
        t == Token::BangEqual ==> binary_opcode(t) == Some(OpCode::Neq),
        t == Token::Less ==> binary_opcode(t) == Some(OpCode::Lt),
        t == Token::LessEqual ==> binary_opcode(t) == Some(OpCode::Lte),
        t == Token::Greater ==> binary_opcode(t) == Some(OpCode::Gt),
        t == Token::GreaterEqual ==> binary_opcode(t) == Some(OpCode::Gte),
        binary_opcode(t) is Some && binary_opcode(t) == binary_opcode(u) ==> t == u,
        !(t is Plus || t is Minus || t is Star || t is Slash || t is Mod || t is Power
            || t is EqualEqual || t is BangEqual || t is Less || t is LessEqual || t is Greater
            || t is GreaterEqual) ==> binary_opcode(t) is None,
{
}

/// The opcode of a binary operator, if `t` is one.
pub fn binary_opcode_of(t: Token) -> (r: Option<OpCode>)
    ensures
        r == binary_opcode(t),
        t == Token::Plus ==> r == Some(OpCode::Add),
        t == Token::Minus ==> r == Some(OpCode::Sub),
        t == Token::Star ==> r == Some(OpCode::Mul),
        t == Token::Slash ==> r == Some(OpCode::Div),
        t == Token::Mod ==> r == Some(OpCode::Mod),
        t == Token::Power ==> r == Some(OpCode::Pow),
        t == Token::EqualEqual ==> r == Some(OpCode::Eq),
        t == Token::BangEqual ==> r == Some(OpCode::Neq),
        t == Token::Less ==> r == Some(OpCode::Lt),
        t == Token::LessEqual ==> r == Some(OpCode::Lte),
        t == Token::Greater ==> r == Some(OpCode::Gt),
        t == Token::GreaterEqual ==> r == Some(OpCode::Gte),
{
    match t {
        Token::Plus => Some(OpCode::Add),
        Token::Less => Some(OpCode::Lt),
        Token::EqualEqual => Some(OpCode::Eq),
        Token::BangEqual => Some(OpCode::Neq),
        Token::Greater => Some(OpCode::Gt),
        Token::GreaterEqual => Some(OpCode::Gte),
        Token::LessEqual => Some(OpCode::Lte),
        Token::Minus => Some(OpCode::Sub),
        Token::Slash => Some(OpCode::Div),
        Token::Mod => Some(OpCode::Mod),
        Token::Star => Some(OpCode::Mul),
        Token::Power => Some(OpCode::Pow),
        _ => None,
    }
}

} // verus!
