//! The instruction vocabulary and the structural parser.

use vstd::prelude::*;
use vstd::string::StringExecFns;
use crate::tokenizer::Token;
use crate::tokenizer::TokenV;
use crate::tokenizer::Tokens;
use crate::tokenizer::tok_view;
use crate::tokenizer::toks_view;
use crate::tokenizer::clone_token;

verus! {

broadcast use vstd::std_specs::vec::group_vec_axioms;

/// A code block is an ordered sequence of instructions; order is execution
/// order.
pub type CodeBlock = Vec<AST>;

/// One unit of program behavior.
///
/// The count carried by `Add`, `Sub`, `Next` and `Prev` is sign-overloaded:
/// a non-negative count means "apply the literal count", while the
/// sentinel `-1` means "use the current memory cell's value as the
/// operand". Counts are carried at the multiplier's own width, so a
/// literal count from the source reaches code generation as written.
#[derive(Debug, PartialEq)]
pub enum AST {
    Add(i32),
    Sub(i32),
    Next(i32),
    Prev(i32),
    LoopStart,
    LoopEnd,
    PrintChar,
    ReadChar,
    PrintInt,
    ReadInt,
    StorePointer,
    Jump,
    JumpToZero,
    FunctionDef(String, CodeBlock),
    NamespaceDef(String),
    ModuleInclude(String),
    FunctionCall(String),
}

/// The mathematical shape of an instruction: counts become `int`, names
/// become `Seq<char>`, and nested blocks become sequences.
#[verifier::ext_equal]
pub enum AstV {
    Add(int),
    Sub(int),
    Next(int),
    Prev(int),
    LoopStart,
    LoopEnd,
    PrintChar,
    ReadChar,
    PrintInt,
    ReadInt,
    StorePointer,
    Jump,
    JumpToZero,
    FunctionDef(Seq<char>, Seq<AstV>),
    NamespaceDef(Seq<char>),
    ModuleInclude(Seq<char>),
    FunctionCall(Seq<char>),
}

/// The error the parser can report: a macro sigil without the identifier it
/// requires, or a function-definition block without its closing sigil.
#[derive(Debug, Clone, Copy, PartialEq, Eq, Structural)]
pub enum ParseError {
    ExpectedIdentifier,
    ExpectedEndOfFunction,
}

/// The mathematical value of one instruction.
pub open spec fn ast_view(a: AST) -> AstV
    decreases a,
{
    match a {
        AST::Add(n) => AstV::Add(n as int),
        AST::Sub(n) => AstV::Sub(n as int),
        AST::Next(n) => AstV::Next(n as int),
        AST::Prev(n) => AstV::Prev(n as int),
        AST::LoopStart => AstV::LoopStart,
        AST::LoopEnd => AstV::LoopEnd,
        AST::PrintChar => AstV::PrintChar,
        AST::ReadChar => AstV::ReadChar,
        AST::PrintInt => AstV::PrintInt,
        AST::ReadInt => AstV::ReadInt,
        AST::StorePointer => AstV::StorePointer,
        AST::Jump => AstV::Jump,
        AST::JumpToZero => AstV::JumpToZero,
        AST::FunctionDef(name, body) => AstV::FunctionDef(name@, vec_block_view(body)),
        AST::NamespaceDef(name) => AstV::NamespaceDef(name@),
        AST::ModuleInclude(name) => AstV::ModuleInclude(name@),
        AST::FunctionCall(name) => AstV::FunctionCall(name@),
    }
}

/// The mathematical value of a nested code block, taken apart from
/// `ast_view` only so that the recursion visibly descends through the
/// owning `Vec`.
pub open spec fn vec_block_view(b: Vec<AST>) -> Seq<AstV>
    decreases b,
{
    block_view(b@)
}

/// The mathematical value of a code block.
pub open spec fn block_view(s: Seq<AST>) -> Seq<AstV>
    decreases s,
{
    if s.len() == 0 {
        Seq::empty()
    } else {
        seq![ast_view(s[0])] + block_view(s.subrange(1, s.len() as int))
    }
}

/// `block_view` is the element-wise image of `ast_view`.
pub proof fn lemma_block_view(s: Seq<AST>)
    ensures
        block_view(s).len() == s.len(),
        forall|i: int| 0 <= i < s.len() ==> block_view(s)[i] == ast_view(s[i]),
    decreases s.len(),
{
    if s.len() > 0 {
        lemma_block_view(s.subrange(1, s.len() as int));
    }
}

pub proof fn lemma_block_view_push(s: Seq<AST>, a: AST)
    ensures
        block_view(s.push(a)) == block_view(s) + seq![ast_view(a)],
{
    lemma_block_view(s.push(a));
    lemma_block_view(s);
    assert(block_view(s.push(a)) =~= block_view(s) + seq![ast_view(a)]);
}

pub proof fn lemma_toks_view_subrange(ts: Seq<Token>, a: int, b: int)
    requires
        0 <= a <= b <= ts.len(),
    ensures
        toks_view(ts.subrange(a, b)) == toks_view(ts).subrange(a, b),
{
    assert(toks_view(ts.subrange(a, b)) =~= toks_view(ts).subrange(a, b));
}

/// The position of the first function-definition sigil at or after `k`, or
/// the sequence length when there is none.
pub open spec fn find_def_close(ts: Seq<TokenV>, k: int) -> int
    decreases ts.len() - k,
{
    if k < 0 || k >= ts.len() {
        ts.len() as int
    } else if ts[k] is FunctionDefSymbol {
        k
    } else {
        find_def_close(ts, k + 1)
    }
}

pub proof fn lemma_find_def_close_bounds(ts: Seq<TokenV>, k: int)
    requires
        0 <= k <= ts.len(),
    ensures
        k <= find_def_close(ts, k) <= ts.len(),
    decreases ts.len() - k,
{
    if k < ts.len() && !(ts[k] is FunctionDefSymbol) {
        lemma_find_def_close_bounds(ts, k + 1);
    }
}

/// Prefix one instruction onto the result of parsing the rest of the
/// tokens.
pub open spec fn prepend_ast(a: AstV, r: Result<Seq<AstV>, ParseError>) -> Result<
    Seq<AstV>,
    ParseError,
> {
    match r {
        Ok(rest) => Ok(seq![a] + rest),
        Err(e) => Err(e),
    }
}

/// The structural parse from position `i`, with `repeat` the pending
/// multiplier.
///
/// Arithmetic and motion tokens consume the pending multiplier as their
/// count, unchanged, and reset it to 1; `Repeat(n)` and
/// `RepeatCell` set it to `n` or to the cell-indirection sentinel `-1`.
/// A function definition requires an identifier and a later closing sigil,
/// with the enclosed tokens parsed recursively as the body; a call takes a
/// bare or `::`-qualified name; the namespace and include sigils take one
/// identifier. A call or namespace sigil not followed by an identifier
/// consumes the following token silently; stray identifiers and `::`
/// tokens are dropped.
pub open spec fn spec_parse_at(ts: Seq<TokenV>, i: int, repeat: int) -> Result<
    Seq<AstV>,
    ParseError,
>
    decreases ts.len(), ts.len() - i + 2,
    via spec_parse_at_decreases
{
    if i < 0 || i >= ts.len() {
        Ok(Seq::empty())
    } else {
        match ts[i] {
            TokenV::Add => prepend_ast(AstV::Add(repeat), spec_parse_at(ts, i + 1, 1)),
            TokenV::Sub => prepend_ast(AstV::Sub(repeat), spec_parse_at(ts, i + 1, 1)),
            TokenV::Next => prepend_ast(AstV::Next(repeat), spec_parse_at(ts, i + 1, 1)),
            TokenV::Prev => prepend_ast(AstV::Prev(repeat), spec_parse_at(ts, i + 1, 1)),
            TokenV::LBracket => prepend_ast(AstV::LoopStart, spec_parse_at(ts, i + 1, repeat)),
            TokenV::RBracket => prepend_ast(AstV::LoopEnd, spec_parse_at(ts, i + 1, repeat)),
            TokenV::PrintChar => prepend_ast(AstV::PrintChar, spec_parse_at(ts, i + 1, repeat)),
            TokenV::ReadChar => prepend_ast(AstV::ReadChar, spec_parse_at(ts, i + 1, repeat)),
            TokenV::PrintInt => prepend_ast(AstV::PrintInt, spec_parse_at(ts, i + 1, repeat)),
            TokenV::ReadInt => prepend_ast(AstV::ReadInt, spec_parse_at(ts, i + 1, repeat)),
            TokenV::StorePointer => prepend_ast(
                AstV::StorePointer,
                spec_parse_at(ts, i + 1, repeat),
            ),
            TokenV::Jump => prepend_ast(AstV::Jump, spec_parse_at(ts, i + 1, repeat)),
            TokenV::JumpToZero => prepend_ast(AstV::JumpToZero, spec_parse_at(ts, i + 1, repeat)),
            TokenV::Repeat(n) => spec_parse_at(ts, i + 1, n),
            TokenV::RepeatCell => spec_parse_at(ts, i + 1, -1),
            TokenV::IncludeSymbol => if i + 1 < ts.len() && ts[i + 1] is Identifier {
                prepend_ast(
                    AstV::ModuleInclude(ts[i + 1]->Identifier_0),
                    spec_parse_at(ts, i + 2, repeat),
                )
            } else {
                Err(ParseError::ExpectedIdentifier)
            },
            TokenV::FunctionDefSymbol => if i + 1 < ts.len() && ts[i + 1] is Identifier {
                let start = i + 2;
                let close = find_def_close(ts, start);
                if close == ts.len() || close == start {
                    Err(ParseError::ExpectedEndOfFunction)
                } else {
                    match spec_parse_at(ts.subrange(start, close), 0, 1) {
                        Ok(body) => prepend_ast(
                            AstV::FunctionDef(ts[i + 1]->Identifier_0, body),
                            spec_parse_at(ts, close + 1, repeat),
                        ),
                        Err(e) => Err(e),
                    }
                }
            } else {
                Err(ParseError::ExpectedIdentifier)
            },
            TokenV::FunctionCallSymbol => if i + 1 < ts.len() && ts[i + 1] is Identifier {
                if i + 2 < ts.len() && ts[i + 2] is DoubleColon {
                    if i + 3 < ts.len() && ts[i + 3] is Identifier {
                        prepend_ast(
                            AstV::FunctionCall(
                                ts[i + 1]->Identifier_0 + "::"@ + ts[i + 3]->Identifier_0,
                            ),
                            spec_parse_at(ts, i + 4, repeat),
                        )
                    } else {
                        Err(ParseError::ExpectedIdentifier)
                    }
                } else {
                    prepend_ast(
                        AstV::FunctionCall(ts[i + 1]->Identifier_0),
                        spec_parse_at(ts, i + 2, repeat),
                    )
                }
            } else {
                spec_parse_at(ts, i + 2, repeat)
            },
            TokenV::NamespaceSymbol => if i + 1 < ts.len() && ts[i + 1] is Identifier {
                prepend_ast(
                    AstV::NamespaceDef(ts[i + 1]->Identifier_0),
                    spec_parse_at(ts, i + 2, repeat),
                )
            } else {
                spec_parse_at(ts, i + 2, repeat)
            },
            TokenV::DoubleColon => spec_parse_at(ts, i + 1, repeat),
            TokenV::Identifier(_) => spec_parse_at(ts, i + 1, repeat),
        }
    }
}

#[via_fn]
proof fn spec_parse_at_decreases(ts: Seq<TokenV>, i: int, repeat: int) {
    if 0 <= i && i + 1 < ts.len() {
        lemma_find_def_close_bounds(ts, i + 2);
    }
}

/// The structural parse of a whole token sequence, with the multiplier at
/// its initial value 1.
pub open spec fn spec_parse(ts: Seq<TokenV>) -> Result<Seq<AstV>, ParseError> {
    spec_parse_at(ts, 0, 1)
}

/// Whether a token drives only arithmetic, pointer motion, loops, I/O,
/// pointer control or repeat counts — none of the macro layer.
pub open spec fn arith_token(t: TokenV) -> bool {
    match t {
        TokenV::FunctionDefSymbol => false,
        TokenV::FunctionCallSymbol => false,
        TokenV::NamespaceSymbol => false,
        TokenV::IncludeSymbol => false,
        TokenV::DoubleColon => false,
        TokenV::Identifier(_) => false,
        _ => true,
    }
}

/// Parsing never fails on a token sequence of arithmetic, motion, loop,
/// I/O, pointer-control and repeat tokens alone: every parse error comes
/// from the macro layer, so the arithmetic-only pipeline always reaches
/// code generation.
pub proof fn lemma_arith_tokens_parse_ok(ts: Seq<TokenV>, i: int, repeat: int)
    requires
        forall|j: int| 0 <= j < ts.len() ==> arith_token(#[trigger] ts[j]),
    ensures
        spec_parse_at(ts, i, repeat) is Ok,
    decreases ts.len() - i + 2,
{
    if 0 <= i < ts.len() {
        match ts[i] {
            TokenV::Add => lemma_arith_tokens_parse_ok(ts, i + 1, 1),
            TokenV::Sub => lemma_arith_tokens_parse_ok(ts, i + 1, 1),
            TokenV::Next => lemma_arith_tokens_parse_ok(ts, i + 1, 1),
            TokenV::Prev => lemma_arith_tokens_parse_ok(ts, i + 1, 1),
            TokenV::Repeat(n) => lemma_arith_tokens_parse_ok(ts, i + 1, n),
            TokenV::RepeatCell => lemma_arith_tokens_parse_ok(ts, i + 1, -1),
            _ => lemma_arith_tokens_parse_ok(ts, i + 1, repeat),
        }
    }
}

/// The verifiable half of round-trip preservation for arithmetic-only
/// programs: a source of arithmetic symbols alone lexes and parses without
/// error, so every such program reaches code generation (which is total).
/// What the emitted C does when compiled and run lies outside this
/// library.
pub proof fn lemma_arith_pipeline_ok(s: Seq<char>)
    requires
        forall|j: int| 0 <= j < s.len() ==> crate::tokenizer::arith_char(#[trigger] s[j]),
    ensures
        crate::tokenizer::spec_tokenize(s) is Ok,
        spec_parse(crate::tokenizer::spec_tokenize(s)->Ok_0) is Ok,
{
    crate::tokenizer::lemma_arith_chars_tokenize_ok(s, 0);
    lemma_arith_tokens_parse_ok(crate::tokenizer::spec_tokenize(s)->Ok_0, 0, 1);
}

/// Whether one instruction keeps the count invariant: every arithmetic or
/// motion count is a non-negative literal or the cell-indirection
/// sentinel `-1`, at every nesting depth.
pub open spec fn counts_ok_inst(a: AstV) -> bool
    decreases a,
{
    match a {
        AstV::Add(n) => n >= -1,
        AstV::Sub(n) => n >= -1,
        AstV::Next(n) => n >= -1,
        AstV::Prev(n) => n >= -1,
        AstV::FunctionDef(_, body) => counts_ok_block(body),
        _ => true,
    }
}

/// Whether every instruction of the block keeps the count invariant.
pub open spec fn counts_ok_block(s: Seq<AstV>) -> bool
    decreases s,
{
    if s.len() == 0 {
        true
    } else {
        counts_ok_inst(s[0]) && counts_ok_block(s.subrange(1, s.len() as int))
    }
}

proof fn lemma_counts_ok_cons(a: AstV, s: Seq<AstV>)
    requires
        counts_ok_inst(a),
        counts_ok_block(s),
    ensures
        counts_ok_block(seq![a] + s),
{
    assert((seq![a] + s).subrange(1, (seq![a] + s).len() as int) =~= s);
    assert((seq![a] + s)[0] == a);
}

/// The data-model invariant on counts, machine-checked: parsing a token
/// sequence whose repeat counts are non-negative — as the lexer always
/// produces — yields, at every nesting depth, counts that are
/// non-negative literals or the sentinel `-1` set by `RepeatCell`.
pub proof fn lemma_parse_counts_invariant(ts: Seq<TokenV>, i: int, repeat: int)
    requires
        crate::tokenizer::repeats_nonneg(ts),
        repeat >= -1,
    ensures
        spec_parse_at(ts, i, repeat) matches Ok(r) ==> counts_ok_block(r),
    decreases ts.len(), ts.len() - i + 2,
{
    if 0 <= i < ts.len() {
        match ts[i] {
            TokenV::Add => {
                lemma_parse_counts_invariant(ts, i + 1, 1);
                match spec_parse_at(ts, i + 1, 1) {
                    Ok(rest) => lemma_counts_ok_cons(AstV::Add(repeat), rest),
                    Err(_) => {},
                }
            },
            TokenV::Sub => {
                lemma_parse_counts_invariant(ts, i + 1, 1);
                match spec_parse_at(ts, i + 1, 1) {
                    Ok(rest) => lemma_counts_ok_cons(AstV::Sub(repeat), rest),
                    Err(_) => {},
                }
            },
            TokenV::Next => {
                lemma_parse_counts_invariant(ts, i + 1, 1);
                match spec_parse_at(ts, i + 1, 1) {
                    Ok(rest) => lemma_counts_ok_cons(AstV::Next(repeat), rest),
                    Err(_) => {},
                }
            },
            TokenV::Prev => {
                lemma_parse_counts_invariant(ts, i + 1, 1);
                match spec_parse_at(ts, i + 1, 1) {
                    Ok(rest) => lemma_counts_ok_cons(AstV::Prev(repeat), rest),
                    Err(_) => {},
                }
            },
            TokenV::Repeat(n) => {
                lemma_parse_counts_invariant(ts, i + 1, n);
            },
            TokenV::RepeatCell => {
                lemma_parse_counts_invariant(ts, i + 1, -1);
            },
            TokenV::FunctionDefSymbol => {
                if i + 1 < ts.len() && ts[i + 1] is Identifier {
                    let start = i + 2;
                    let close = find_def_close(ts, start);
                    lemma_find_def_close_bounds(ts, start);
                    if close != ts.len() && close != start {
                        let sub = ts.subrange(start, close);
                        assert(crate::tokenizer::repeats_nonneg(sub)) by {
                            assert forall|j: int|
                                0 <= j < sub.len() implies (#[trigger] sub[j] matches
                                TokenV::Repeat(n) ==> n >= 0) by {
                                assert(sub[j] == ts[start + j]);
                            }
                        }
                        lemma_parse_counts_invariant(sub, 0, 1);
                        lemma_parse_counts_invariant(ts, close + 1, repeat);
                        match spec_parse_at(sub, 0, 1) {
                            Ok(body) => {
                                match spec_parse_at(ts, close + 1, repeat) {
                                    Ok(rest) => lemma_counts_ok_cons(
                                        AstV::FunctionDef(ts[i + 1]->Identifier_0, body),
                                        rest,
                                    ),
                                    Err(_) => {},
                                }
                            },
                            Err(_) => {},
                        }
                    }
                }
            },
            TokenV::FunctionCallSymbol => {
                lemma_parse_counts_invariant(ts, i + 2, repeat);
                if i + 1 < ts.len() && ts[i + 1] is Identifier && i + 2 < ts.len() && ts[i + 2]
                    is DoubleColon {
                    lemma_parse_counts_invariant(ts, i + 4, repeat);
                    match spec_parse_at(ts, i + 4, repeat) {
                        Ok(rest) => lemma_counts_ok_cons(
                            AstV::FunctionCall(
                                ts[i + 1]->Identifier_0 + "::"@ + ts[i + 3]->Identifier_0,
                            ),
                            rest,
                        ),
                        Err(_) => {},
                    }
                } else {
                    match spec_parse_at(ts, i + 2, repeat) {
                        Ok(rest) => {
                            if i + 1 < ts.len() && ts[i + 1] is Identifier {
                                lemma_counts_ok_cons(
                                    AstV::FunctionCall(ts[i + 1]->Identifier_0),
                                    rest,
                                );
                            }
                        },
                        Err(_) => {},
                    }
                }
            },
            TokenV::NamespaceSymbol => {
                lemma_parse_counts_invariant(ts, i + 2, repeat);
                match spec_parse_at(ts, i + 2, repeat) {
                    Ok(rest) => {
                        if i + 1 < ts.len() && ts[i + 1] is Identifier {
                            lemma_counts_ok_cons(AstV::NamespaceDef(ts[i + 1]->Identifier_0), rest);
                        }
                    },
                    Err(_) => {},
                }
            },
            TokenV::IncludeSymbol => {
                lemma_parse_counts_invariant(ts, i + 2, repeat);
                match spec_parse_at(ts, i + 2, repeat) {
                    Ok(rest) => {
                        if i + 1 < ts.len() && ts[i + 1] is Identifier {
                            lemma_counts_ok_cons(AstV::ModuleInclude(ts[i + 1]->Identifier_0), rest);
                        }
                    },
                    Err(_) => {},
                }
            },
            _ => {
                lemma_parse_counts_invariant(ts, i + 1, repeat);
                match spec_parse_at(ts, i + 1, repeat) {
                    Ok(rest) => {
                        match ts[i] {
                            TokenV::LBracket => lemma_counts_ok_cons(AstV::LoopStart, rest),
                            TokenV::RBracket => lemma_counts_ok_cons(AstV::LoopEnd, rest),
                            TokenV::PrintChar => lemma_counts_ok_cons(AstV::PrintChar, rest),
                            TokenV::ReadChar => lemma_counts_ok_cons(AstV::ReadChar, rest),
                            TokenV::PrintInt => lemma_counts_ok_cons(AstV::PrintInt, rest),
                            TokenV::ReadInt => lemma_counts_ok_cons(AstV::ReadInt, rest),
                            TokenV::StorePointer => lemma_counts_ok_cons(AstV::StorePointer, rest),
                            TokenV::Jump => lemma_counts_ok_cons(AstV::Jump, rest),
                            TokenV::JumpToZero => lemma_counts_ok_cons(AstV::JumpToZero, rest),
                            _ => {},
                        }
                    },
                    Err(_) => {},
                }
            },
        }
    }
}

/// The count invariant from raw source: whatever the input text, a
/// successful lex and parse yields arithmetic and motion counts that are
/// non-negative literals or the cell-indirection sentinel, at every
/// nesting depth.
pub proof fn lemma_pipeline_counts_invariant(s: Seq<char>)
    ensures
        crate::tokenizer::spec_tokenize(s) matches Ok(ts) ==> (spec_parse(ts) matches Ok(r)
            ==> counts_ok_block(r)),
{
    crate::tokenizer::lemma_tokenize_repeats_nonneg(s, 0);
    match crate::tokenizer::spec_tokenize(s) {
        Ok(ts) => {
            lemma_parse_counts_invariant(ts, 0, 1);
        },
        Err(_) => {},
    }
}

/// The invariant tying the instructions emitted so far, at token position
/// `i` with pending multiplier `repeat`, to the parse of the whole
/// sequence.
pub open spec fn parse_inv(ts: Seq<TokenV>, out: Seq<AST>, i: int, repeat: int) -> bool {
    match spec_parse_at(ts, i, repeat) {
        Ok(rest) => spec_parse(ts) == Ok::<Seq<AstV>, ParseError>(block_view(out) + rest),
        Err(e) => spec_parse(ts) == Err::<Seq<AstV>, ParseError>(e),
    }
}

proof fn lemma_parse_emit(ts: Seq<TokenV>, out: Seq<AST>, i: int, rep: int, j: int, rep2: int, a: AST)
    requires
        parse_inv(ts, out, i, rep),
        spec_parse_at(ts, i, rep) == prepend_ast(ast_view(a), spec_parse_at(ts, j, rep2)),
    ensures
        parse_inv(ts, out.push(a), j, rep2),
{
    lemma_block_view_push(out, a);
    match spec_parse_at(ts, j, rep2) {
        Ok(rest) => {
            assert(block_view(out) + (seq![ast_view(a)] + rest) =~= block_view(out.push(a))
                + rest);
        },
        Err(_) => {},
    }
}

proof fn lemma_parse_move(ts: Seq<TokenV>, out: Seq<AST>, i: int, rep: int, j: int, rep2: int)
    requires
        parse_inv(ts, out, i, rep),
        spec_parse_at(ts, i, rep) == spec_parse_at(ts, j, rep2),
    ensures
        parse_inv(ts, out, j, rep2),
{
}

/// Copy the token range `[a, b)` out of a token sequence.
fn subvec_tokens(v: &Tokens, a: usize, b: usize) -> (r: Tokens)
    requires
        a <= b <= v@.len(),
    ensures
        r@ == v@.subrange(a as int, b as int),
{
    let mut r: Tokens = Vec::new();
    let mut m: usize = a;
    while m < b
        invariant
            a <= m <= b <= v@.len(),
            r@ == v@.subrange(a as int, m as int),
        decreases b - m,
    {
        let t = clone_token(&v[m]);
        r.push(t);
        proof {
            assert(v@.subrange(a as int, m + 1 as int) =~= v@.subrange(a as int, m as int).push(
                v@[m as int],
            ));
        }
        m = m + 1;
    }
    r
}

/// Parses a token sequence into a code block.
///
/// A pending repeat multiplier, initially 1, is set by `Repeat` and
/// `RepeatCell` tokens and consumed (then reset) by the next arithmetic or
/// motion token. Function-definition blocks are parsed recursively; the
/// errors are a def or include sigil without its identifier, a qualified
/// call without its final identifier, and an unterminated or empty
/// function-definition block.
pub fn parse(tokens: &Tokens) -> (r: Result<CodeBlock, ParseError>)
    ensures
        match r {
            Ok(cb) => spec_parse(toks_view(tokens@)) == Ok::<Seq<AstV>, ParseError>(
                block_view(cb@),
            ),
            Err(e) => spec_parse(toks_view(tokens@)) == Err::<Seq<AstV>, ParseError>(e),
        },
    decreases tokens@.len(),
{
    let ghost ts = toks_view(tokens@);
    let n: usize = tokens.len();
    let mut out: CodeBlock = Vec::new();
    let mut index: usize = 0;
    let mut repeat: i32 = 1;
    proof {
        lemma_block_view(out@);
        match spec_parse_at(ts, 0, 1) {
            Ok(rest) => {
                assert(block_view(out@) + rest =~= rest);
            },
            Err(_) => {},
        }
    }
    while index < n
        invariant
            ts == toks_view(tokens@),
            n == tokens@.len(),
            ts.len() == n,
            parse_inv(ts, out@, index as int, repeat as int),
        decreases n - index,
    {
        let ghost i0 = index as int;
        let ghost rep0 = repeat as int;
        let ghost out0 = out@;
        match &tokens[index] {
            Token::Add => {
                let a = AST::Add(repeat);
                proof {
                    lemma_parse_emit(ts, out0, i0, rep0, i0 + 1, 1, a);
                }
                out.push(a);
                repeat = 1;
                index = index + 1;
            },
            Token::Sub => {
                let a = AST::Sub(repeat);
                proof {
                    lemma_parse_emit(ts, out0, i0, rep0, i0 + 1, 1, a);
                }
                out.push(a);
                repeat = 1;
                index = index + 1;
            },
            Token::Next => {
                let a = AST::Next(repeat);
                proof {
                    lemma_parse_emit(ts, out0, i0, rep0, i0 + 1, 1, a);
                }
                out.push(a);
                repeat = 1;
                index = index + 1;
            },
            Token::Prev => {
                let a = AST::Prev(repeat);
                proof {
                    lemma_parse_emit(ts, out0, i0, rep0, i0 + 1, 1, a);
                }
                out.push(a);
                repeat = 1;
                index = index + 1;
            },
            Token::LBracket => {
                let a = AST::LoopStart;
                proof {
                    lemma_parse_emit(ts, out0, i0, rep0, i0 + 1, rep0, a);
                }
                out.push(a);
                index = index + 1;
            },
            Token::RBracket => {
                let a = AST::LoopEnd;
                proof {
                    lemma_parse_emit(ts, out0, i0, rep0, i0 + 1, rep0, a);
                }
                out.push(a);
                index = index + 1;
            },
            Token::PrintChar => {
                let a = AST::PrintChar;
                proof {
                    lemma_parse_emit(ts, out0, i0, rep0, i0 + 1, rep0, a);
                }
                out.push(a);
                index = index + 1;
            },
            Token::ReadChar => {
                let a = AST::ReadChar;
                proof {
                    lemma_parse_emit(ts, out0, i0, rep0, i0 + 1, rep0, a);
                }
                out.push(a);
                index = index + 1;
            },
            Token::PrintInt => {
                let a = AST::PrintInt;
                proof {
                    lemma_parse_emit(ts, out0, i0, rep0, i0 + 1, rep0, a);
                }
                out.push(a);
                index = index + 1;
            },
            Token::ReadInt => {
                let a = AST::ReadInt;
                proof {
                    lemma_parse_emit(ts, out0, i0, rep0, i0 + 1, rep0, a);
                }
                out.push(a);
                index = index + 1;
            },
            Token::StorePointer => {
                let a = AST::StorePointer;
                proof {
                    lemma_parse_emit(ts, out0, i0, rep0, i0 + 1, rep0, a);
                }
                out.push(a);
                index = index + 1;
            },
            Token::Jump => {
                let a = AST::Jump;
                proof {
                    lemma_parse_emit(ts, out0, i0, rep0, i0 + 1, rep0, a);
                }
                out.push(a);
                index = index + 1;
            },
            Token::JumpToZero => {
                let a = AST::JumpToZero;
                proof {
                    lemma_parse_emit(ts, out0, i0, rep0, i0 + 1, rep0, a);
                }
                out.push(a);
                index = index + 1;
            },
            Token::Repeat(nval) => {
                let nv: i32 = *nval;
                proof {
                    lemma_parse_move(ts, out0, i0, rep0, i0 + 1, nv as int);
                }
                repeat = nv;
                index = index + 1;
            },
            Token::RepeatCell => {
                proof {
                    lemma_parse_move(ts, out0, i0, rep0, i0 + 1, -1);
                }
                repeat = -1;
                index = index + 1;
            },
            Token::DoubleColon => {
                proof {
                    lemma_parse_move(ts, out0, i0, rep0, i0 + 1, rep0);
                }
                index = index + 1;
            },
            Token::Identifier(_) => {
                proof {
                    lemma_parse_move(ts, out0, i0, rep0, i0 + 1, rep0);
                }
                index = index + 1;
            },
            Token::IncludeSymbol => {
                if index + 1 < n {
                    match &tokens[index + 1] {
                        Token::Identifier(name) => {
                            let a = AST::ModuleInclude(name.clone());
                            proof {
                                lemma_parse_emit(ts, out0, i0, rep0, i0 + 2, rep0, a);
                            }
                            out.push(a);
                            index = index + 2;
                        },
                        _ => {
                            proof {
                                assert(spec_parse(ts) == Err::<Seq<AstV>, ParseError>(
                                    ParseError::ExpectedIdentifier,
                                ));
                            }
                            return Err(ParseError::ExpectedIdentifier);
                        },
                    }
                } else {
                    proof {
                        assert(spec_parse(ts) == Err::<Seq<AstV>, ParseError>(
                            ParseError::ExpectedIdentifier,
                        ));
                    }
                    return Err(ParseError::ExpectedIdentifier);
                }
            },
            Token::NamespaceSymbol => {
                if index + 1 < n {
                    match &tokens[index + 1] {
                        Token::Identifier(name) => {
                            let a = AST::NamespaceDef(name.clone());
                            proof {
                                lemma_parse_emit(ts, out0, i0, rep0, i0 + 2, rep0, a);
                            }
                            out.push(a);
                            index = index + 2;
                        },
                        _ => {
                            proof {
                                lemma_parse_move(ts, out0, i0, rep0, i0 + 2, rep0);
                            }
                            index = index + 2;
                        },
                    }
                } else {
                    proof {
                        lemma_parse_move(ts, out0, i0, rep0, i0 + 1, rep0);
                    }
                    index = index + 1;
                }
            },
            Token::FunctionCallSymbol => {
                if index + 1 < n {
                    match &tokens[index + 1] {
                        Token::Identifier(first) => {
                            let mut qualified: bool = false;
                            if index + 2 < n {
                                match &tokens[index + 2] {
                                    Token::DoubleColon => {
                                        qualified = true;
                                    },
                                    _ => {},
                                }
                            }
                            if qualified {
                                if index + 3 < n {
                                    match &tokens[index + 3] {
                                        Token::Identifier(second) => {
                                            let mut name: String = first.clone();
                                            name.append("::");
                                            name.append(second.as_str());
                                            let a = AST::FunctionCall(name);
                                            proof {
                                                lemma_parse_emit(ts, out0, i0, rep0, i0 + 4, rep0, a);
                                            }
                                            out.push(a);
                                            index = index + 4;
                                        },
                                        _ => {
                                            proof {
                                                assert(spec_parse(ts) == Err::<
                                                    Seq<AstV>,
                                                    ParseError,
                                                >(ParseError::ExpectedIdentifier));
                                            }
                                            return Err(ParseError::ExpectedIdentifier);
                                        },
                                    }
                                } else {
                                    proof {
                                        assert(spec_parse(ts) == Err::<Seq<AstV>, ParseError>(
                                            ParseError::ExpectedIdentifier,
                                        ));
                                    }
                                    return Err(ParseError::ExpectedIdentifier);
                                }
                            } else {
                                let a = AST::FunctionCall(first.clone());
                                proof {
                                    lemma_parse_emit(ts, out0, i0, rep0, i0 + 2, rep0, a);
                                }
                                out.push(a);
                                index = index + 2;
                            }
                        },
                        _ => {
                            proof {
                                lemma_parse_move(ts, out0, i0, rep0, i0 + 2, rep0);
                            }
                            index = index + 2;
                        },
                    }
                } else {
                    proof {
                        lemma_parse_move(ts, out0, i0, rep0, i0 + 1, rep0);
                    }
                    index = index + 1;
                }
            },
            Token::FunctionDefSymbol => {
                if index + 1 >= n {
                    proof {
                        assert(spec_parse(ts) == Err::<Seq<AstV>, ParseError>(
                            ParseError::ExpectedIdentifier,
                        ));
                    }
                    return Err(ParseError::ExpectedIdentifier);
                }
                match &tokens[index + 1] {
                    Token::Identifier(name) => {
                        let start: usize = index + 2;
                        let mut k: usize = start;
                        let mut found: bool = false;
                        proof {
                            lemma_find_def_close_bounds(ts, start as int);
                        }
                        loop
                            invariant_except_break
                                !found,
                            invariant
                                ts == toks_view(tokens@),
                                n == tokens@.len(),
                                ts.len() == n,
                                start <= k <= n,
                                find_def_close(ts, start as int) == find_def_close(ts, k as int),
                            ensures
                                start <= k <= n,
                                found ==> k as int == find_def_close(ts, start as int) && k < n,
                                !found ==> find_def_close(ts, start as int) == n as int,
                            decreases n - k,
                        {
                            if k >= n {
                                proof {
                                    assert(find_def_close(ts, k as int) == n as int);
                                }
                                break ;
                            }
                            match &tokens[k] {
                                Token::FunctionDefSymbol => {
                                    found = true;
                                    proof {
                                        assert(find_def_close(ts, k as int) == k as int);
                                    }
                                    break ;
                                },
                                _ => {
                                    k = k + 1;
                                },
                            }
                        }
                        let closing: usize = if found {
                            k
                        } else {
                            start
                        };
                        if closing == start {
                            proof {
                                assert(spec_parse_at(ts, i0, rep0) == Err::<Seq<AstV>, ParseError>(
                                    ParseError::ExpectedEndOfFunction,
                                ));
                            }
                            return Err(ParseError::ExpectedEndOfFunction);
                        }
                        let sub: Tokens = subvec_tokens(tokens, start, closing);
                        proof {
                            lemma_toks_view_subrange(tokens@, start as int, closing as int);
                        }
                        match parse(&sub) {
                            Ok(body) => {
                                let a = AST::FunctionDef(name.clone(), body);
                                proof {
                                    lemma_parse_emit(
                                        ts,
                                        out0,
                                        i0,
                                        rep0,
                                        closing as int + 1,
                                        rep0,
                                        a,
                                    );
                                }
                                out.push(a);
                                index = closing + 1;
                            },
                            Err(e) => {
                                proof {
                                    assert(spec_parse_at(ts, i0, rep0) == Err::<
                                        Seq<AstV>,
                                        ParseError,
                                    >(e));
                                }
                                return Err(e);
                            },
                        }
                    },
                    _ => {
                        proof {
                            assert(spec_parse(ts) == Err::<Seq<AstV>, ParseError>(
                                ParseError::ExpectedIdentifier,
                            ));
                        }
                        return Err(ParseError::ExpectedIdentifier);
                    },
                }
            },
        }
    }
    proof {
        assert(spec_parse_at(ts, index as int, repeat as int) == Ok::<Seq<AstV>, ParseError>(
            Seq::<AstV>::empty(),
        ));
        assert(block_view(out@) + Seq::<AstV>::empty() =~= block_view(out@));
    }
    Ok(out)
}

} // verus!

