//! From source text to statements, and from statements to the instructions the
//! virtual machine runs.

use vstd::prelude::*;
use crate::compiler::{
    compile_owed, ctxs_ok, distinct_names, extends, stmts_code, flatten_chunks, jumps_stay_inside, lemma_flatten_inside, lemma_inside_concat, CompileError, Compiler,
    FnContext, InstSrc,
};
use crate::lexer::{end_token, error_matches, lex_from, needs_final_newline, token_matches, Lexer, SpecToken};
use crate::token::{Token, TokenData};
use crate::parser::{simple_program, simple_stmts, Parser};
use crate::state::{InterpreterError, InterpreterState};
use crate::stmt::Stmt;
use crate::syntax::wf_stmts;
use crate::compiler::CompileErrorKind;

verus! {

/// Why a source cannot be made into a program.
#[derive(Debug)]
pub enum SourceError {
    /// Errors found while reading the source; empty when reading could not
    /// go on at all.
    Syntax(Vec<InterpreterError>),
    /// An error found while compiling the statements.
    Compile(CompileError),
}

/// `toks` are the tokens read from a source whose reading gave the tokens
/// `run` and ended on line `line`: each of them, then a newline when the last
/// of them is not one, then the end of input.
pub open spec fn lexed_tokens(run: Seq<SpecToken>, line: int, toks: Seq<TokenData>) -> bool {
    let k = run.len() as int;
    let nl = needs_final_newline(Seq::empty(), run);
    &&& toks.len() == k + (if nl { 2int } else { 1int })
    &&& forall|i: int| 0 <= i < k ==> token_matches(#[trigger] toks[i], run[i])
    &&& nl ==> token_matches(toks[k], end_token(Token::Newline, line))
    &&& token_matches(toks.last(), end_token(Token::EOF, line))
}

/// Reads `source` into statements. Fails with the errors found: those of
/// the lexer when there are any (the parser does not run then), else those of
/// the parser.
pub fn parse_source_code(source: String) -> (r: Result<Vec<Stmt>, Vec<InterpreterError>>)
    requires
        vstd::utf8::encode_utf8(source@).len() < i32::MAX,
    ensures
        ({
            let run = lex_from(vstd::utf8::encode_utf8(source@), 0, 0);
            &&& run.stuck ==> r is Err
            &&& !run.stuck && run.errors.len() > 0 ==> (r matches Err(e) && e@.len() == run.errors.len()
                && forall|i: int| 0 <= i < run.errors.len() ==> error_matches(#[trigger] e@[i], run.errors[i]))
            &&& r is Ok ==> !run.stuck && run.errors.len() == 0
            &&& r matches Err(e) ==> (!run.stuck && run.errors.len() == 0 ==> e@.len() > 0)
            &&& !run.stuck && run.errors.len() == 0 && run.tokens.len() == 0 ==> (r matches Ok(v) && v@.len() == 0)
            &&& run.tokens.len() > 0 && run.tokens[0].token != Token::EOF ==> (r matches Ok(v) ==> v@.len() > 0)
            &&& r matches Ok(v) ==> v@.len() <= run.tokens.len() + 1
            &&& !run.stuck && run.errors.len() == 0 ==> exists|toks: Seq<TokenData>|
                #[trigger] lexed_tokens(run.tokens, run.line, toks) && (simple_program(toks, 0) ==> (r matches Ok(v)
                    && v@ == simple_stmts(toks, 0)))
        }),
        r matches Ok(v) ==> wf_stmts(v@),
{
    let ghost run = lex_from(vstd::utf8::encode_utf8(source@), 0, 0);
    let state = InterpreterState::new(source);
    let mut lexer = Lexer::new(state);
    let ok = lexer.scan();
    if !ok || lexer.state.errors.len() > 0 {
        proof {
            if ok {
                assert forall|i: int| 0 <= i < run.errors.len() implies error_matches(
                    #[trigger] lexer.state.errors@[i],
                    run.errors[i],
                ) by {
                    assert(lexer.state.errors@[0 + i] == lexer.state.errors@[i]);
                }
            }
        }
        return Err(lexer.state.errors);
    }
    let mut parser = Parser::new(lexer.state);
    proof {
        let toks = parser.state.tokens@;
        if run.tokens.len() > 0 {
            assert(token_matches(toks[0int], run.tokens[0]));
        } else {
            assert(toks.len() == 1);
            assert(toks[0].token == Token::EOF);
        }
        assert(parser.state.stmts@.len() == 0);
        assert(parser.state.errors@.len() == 0);
    }
    let ghost toks = parser.state.tokens@;
    proof {
        assert forall|i: int| 0 <= i < run.tokens.len() implies token_matches(#[trigger] toks[i], run.tokens[i]) by {
            assert(toks[0 + i] == toks[i]);
        }
        assert(lexed_tokens(run.tokens, run.line, toks));
    }
    let parsed = parser.parse();
    proof {
        if simple_program(toks, 0) {
            assert(Seq::<Stmt>::empty() + simple_stmts(toks, 0) =~= simple_stmts(toks, 0));
        }
    }
    if parsed.is_err() || parser.state.errors.len() > 0 {
        return Err(parser.state.errors);
    }
    assert(parser.state.stmts@.subrange(0, parser.state.stmts@.len() as int) =~= parser.state.stmts@);
    Ok(parser.state.stmts)
}

/// Reads and compiles `source` at the top level of `compiler`.
pub fn compile_source(compiler: &mut Compiler, source: String) -> (r: Result<(), SourceError>)
    requires
        vstd::utf8::encode_utf8(source@).len() < i32::MAX,
        ctxs_ok(old(compiler).contexts@),
        distinct_names(old(compiler).globals@),
    ensures
        ({
            let run = lex_from(vstd::utf8::encode_utf8(source@), 0, 0);
            &&& !run.stuck && run.errors.len() == 0 && run.tokens.len() == 0 ==> r is Ok
            &&& !run.stuck && run.errors.len() == 0 ==> exists|toks: Seq<TokenData>|
                #[trigger] lexed_tokens(run.tokens, run.line, toks) && (simple_program(toks, 0) ==> {
                    let ss = simple_stmts(toks, 0);
                    &&& compile_owed(*old(compiler), ss) ==> r is Ok
                    &&& r is Ok ==> stmts_code(
                        ss,
                        final(compiler).ctx().chunks@.subrange(
                            final(compiler).ctx().chunks@.len() - ss.len(),
                            final(compiler).ctx().chunks@.len() as int,
                        ),
                    )
                })
            &&& run.errors.len() > 0 || run.stuck ==> r matches Err(SourceError::Syntax(_))
        }),
        r is Ok ==> final(compiler).wf(),
        r is Ok ==> extends(old(compiler).constants@, final(compiler).constants@),
        r is Ok ==> extends(old(compiler).prototypes@, final(compiler).prototypes@),
        r is Ok ==> extends(old(compiler).globals@, final(compiler).globals@),
        r matches Err(SourceError::Compile(e)) ==> e.kind != CompileErrorKind::MalformedTree,
{
    let ghost run = lex_from(vstd::utf8::encode_utf8(source@), 0, 0);
    let stmts = match parse_source_code(source) {
        Ok(s) => s,
        Err(e) => return Err(SourceError::Syntax(e)),
    };
    let ghost toks = choose|toks: Seq<TokenData>|
        #[trigger] lexed_tokens(run.tokens, run.line, toks) && (simple_program(toks, 0) ==> (Ok::<Vec<Stmt>, Vec<
            InterpreterError,
        >>(stmts) matches Ok(v) && v@ == simple_stmts(toks, 0)));
    let ghost ss = stmts@;
    let r = match compiler.compile(stmts) {
        Ok(()) => Ok(()),
        Err(e) => Err(SourceError::Compile(e)),
    };
    proof {
        assert(lexed_tokens(run.tokens, run.line, toks));
        if simple_program(toks, 0) {
            assert(ss == simple_stmts(toks, 0));
        }
    }
    r
}

/// The instructions of the chunks of `contexts`, context after context.
pub open spec fn flatten_contexts(contexts: Seq<FnContext>) -> Seq<InstSrc>
    decreases contexts.len(),
{
    if contexts.len() == 0 {
        Seq::empty()
    } else {
        flatten_contexts(contexts.drop_last()) + flatten_chunks(contexts.last().chunks@)
    }
}

/// The instructions of contexts whose chunks send control only inside
/// themselves send control only inside the whole.
proof fn lemma_contexts_inside(contexts: Seq<FnContext>)
    requires
        ctxs_ok(contexts),
    ensures
        jumps_stay_inside(flatten_contexts(contexts)),
    decreases contexts.len(),
{
    if contexts.len() > 0 {
        assert(ctxs_ok(contexts.drop_last())) by {
            assert forall|i: int| 0 <= i < contexts.drop_last().len() implies crate::compiler::ctx_ok(
                #[trigger] contexts.drop_last()[i],
            ) by {
                assert(contexts.drop_last()[i] == contexts[i]);
            }
        }
        lemma_contexts_inside(contexts.drop_last());
        assert(crate::compiler::ctx_ok(contexts[contexts.len() - 1]));
        lemma_flatten_inside(contexts.last().chunks@);
        lemma_inside_concat(flatten_contexts(contexts.drop_last()), flatten_chunks(contexts.last().chunks@));
    }
}

/// The instructions the virtual machine starts with: those of the chunks of
/// every function being compiled, outermost first. When the compiler made
/// them, and there are fewer than 32768, every jump, test and handler
/// registration among them sends control inside them.
pub fn program_instructions(compiler: &Compiler) -> (r: Vec<InstSrc>)
    ensures
        r@ == flatten_contexts(compiler.contexts@),
        ctxs_ok(compiler.contexts@) ==> jumps_stay_inside(r@),
{
    proof {
        if ctxs_ok(compiler.contexts@) {
            lemma_contexts_inside(compiler.contexts@);
        }
    }
    let mut r: Vec<InstSrc> = vec![];
    let mut i: usize = 0;
    while i < compiler.contexts.len()
        invariant
            0 <= i <= compiler.contexts@.len(),
            r@ == flatten_contexts(compiler.contexts@.subrange(0, i as int)),
        decreases compiler.contexts@.len() - i,
    {
        let ghost before = r@;
        let ctx = &compiler.contexts[i];
        let mut j: usize = 0;
        while j < ctx.chunks.len()
            invariant
                0 <= j <= ctx.chunks@.len(),
                r@ == before + flatten_chunks(ctx.chunks@.subrange(0, j as int)),
            decreases ctx.chunks@.len() - j,
        {
            let ghost mid = r@;
            let chunk = &ctx.chunks[j];
            let mut k: usize = 0;
            while k < chunk.instructions.len()
                invariant
                    0 <= k <= chunk.instructions@.len(),
                    r@ == mid + chunk.instructions@.subrange(0, k as int),
                decreases chunk.instructions@.len() - k,
            {
                let x = &chunk.instructions[k];
                r.push(InstSrc { inst: x.inst, src: crate::expr::copy_opt_token(&x.src) });
                assert(chunk.instructions@.subrange(0, k + 1) =~= chunk.instructions@.subrange(0, k as int).push(
                    chunk.instructions@[k as int],
                ));
                k = k + 1;
            }
            assert(chunk.instructions@.subrange(0, chunk.instructions@.len() as int) =~= chunk.instructions@);
            assert(ctx.chunks@.subrange(0, j + 1).drop_last() =~= ctx.chunks@.subrange(0, j as int));
            assert(r@ =~= before + flatten_chunks(ctx.chunks@.subrange(0, j + 1)));
            j = j + 1;
        }
        assert(ctx.chunks@.subrange(0, ctx.chunks@.len() as int) =~= ctx.chunks@);
        assert(compiler.contexts@.subrange(0, i + 1).drop_last() =~= compiler.contexts@.subrange(0, i as int));
        i = i + 1;
    }
    assert(compiler.contexts@.subrange(0, compiler.contexts@.len() as int) =~= compiler.contexts@);
    r
}

} // verus!
