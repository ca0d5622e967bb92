//! Lexical analysis: raw source text to a flat ordered token sequence.

use vstd::prelude::*;
use vstd::string::StrSliceExecFns;

verus! {

/// A token sequence.
pub type Tokens = Vec<Token>;

/// One lexical unit of the source language.
#[derive(Debug, Clone, PartialEq)]
pub enum Token {
    Add,
    Sub,
    Next,
    Prev,
    LBracket,
    RBracket,
    PrintChar,
    ReadChar,
    PrintInt,
    ReadInt,
    Jump,
    JumpToZero,
    StorePointer,
    RepeatCell,
    FunctionDefSymbol,
    FunctionCallSymbol,
    NamespaceSymbol,
    DoubleColon,
    IncludeSymbol,
    Repeat(i32),
    Identifier(String),
}

/// The mathematical shape of a token: counts become `int`, identifier text
/// becomes `Seq<char>`.
#[verifier::ext_equal]
pub enum TokenV {
    Add,
    Sub,
    Next,
    Prev,
    LBracket,
    RBracket,
    PrintChar,
    ReadChar,
    PrintInt,
    ReadInt,
    Jump,
    JumpToZero,
    StorePointer,
    RepeatCell,
    FunctionDefSymbol,
    FunctionCallSymbol,
    NamespaceSymbol,
    DoubleColon,
    IncludeSymbol,
    Repeat(int),
    Identifier(Seq<char>),
}

/// The error the lexer can report: a run of digits that does not fit in a
/// 32-bit signed integer.
#[derive(Debug, Clone, Copy, PartialEq, Eq, Structural)]
pub enum LexError {
    NumberFormat,
}

/// The mathematical value of one token.
pub open spec fn tok_view(t: Token) -> TokenV {
    match t {
        Token::Add => TokenV::Add,
        Token::Sub => TokenV::Sub,
        Token::Next => TokenV::Next,
        Token::Prev => TokenV::Prev,
        Token::LBracket => TokenV::LBracket,
        Token::RBracket => TokenV::RBracket,
        Token::PrintChar => TokenV::PrintChar,
        Token::ReadChar => TokenV::ReadChar,
        Token::PrintInt => TokenV::PrintInt,
        Token::ReadInt => TokenV::ReadInt,
        Token::Jump => TokenV::Jump,
        Token::JumpToZero => TokenV::JumpToZero,
        Token::StorePointer => TokenV::StorePointer,
        Token::RepeatCell => TokenV::RepeatCell,
        Token::FunctionDefSymbol => TokenV::FunctionDefSymbol,
        Token::FunctionCallSymbol => TokenV::FunctionCallSymbol,
        Token::NamespaceSymbol => TokenV::NamespaceSymbol,
        Token::DoubleColon => TokenV::DoubleColon,
        Token::IncludeSymbol => TokenV::IncludeSymbol,
        Token::Repeat(n) => TokenV::Repeat(n as int),
        Token::Identifier(s) => TokenV::Identifier(s@),
    }
}

/// The mathematical value of a token sequence.
pub open spec fn toks_view(ts: Seq<Token>) -> Seq<TokenV> {
    Seq::new(ts.len(), |i: int| tok_view(ts[i]))
}

pub proof fn lemma_toks_view_push(ts: Seq<Token>, t: Token)
    ensures
        toks_view(ts.push(t)) == toks_view(ts) + seq![tok_view(t)],
{
    assert(toks_view(ts.push(t)) =~= toks_view(ts) + seq![tok_view(t)]);
}

/// Whether the character counts as alphabetic for identifier scanning.
///
/// This is the Unicode alphabetic property; its table is not restated here,
/// so the value is pinned only by [`char_is_alphabetic`].
pub uninterp spec fn is_alphabetic_char(c: char) -> bool;

/// Relies on `char::is_alphabetic` of std: whether the character is in one
/// of the Unicode alphabetic categories. The result depends on the character
/// alone.
#[verifier::external_body]
fn char_is_alphabetic(c: char) -> (r: bool)
    ensures
        r == is_alphabetic_char(c),
{
    c.is_alphabetic()
}

/// Whether the character is a decimal digit.
pub open spec fn is_digit_char(c: char) -> bool {
    48 <= c as u32 && c as u32 <= 57
}

/// Whether the character can continue an identifier run.
pub open spec fn is_ident_char(c: char) -> bool {
    is_alphabetic_char(c) || c == '_'
}

/// The numeric value of a decimal digit character.
pub open spec fn dval(c: char) -> int {
    c as u32 - 48
}

/// The value of a run of decimal digit characters, most significant first.
pub open spec fn digits_val(ds: Seq<char>) -> int
    decreases ds.len(),
{
    if ds.len() == 0 {
        0
    } else {
        digits_val(ds.drop_last()) * 10 + dval(ds.last())
    }
}

/// The first position at or after `k` that cannot continue an identifier
/// run.
pub open spec fn ident_end(s: Seq<char>, k: int) -> int
    decreases s.len() - k,
{
    if k < s.len() && is_ident_char(s[k]) {
        ident_end(s, k + 1)
    } else {
        k
    }
}

/// The first position at or after `k` that is not a decimal digit.
pub open spec fn digit_end(s: Seq<char>, k: int) -> int
    decreases s.len() - k,
{
    if k < s.len() && is_digit_char(s[k]) {
        digit_end(s, k + 1)
    } else {
        k
    }
}

/// Prefix one token onto the result of scanning the rest of the input.
pub open spec fn prepend_tok(t: TokenV, r: Result<Seq<TokenV>, LexError>) -> Result<
    Seq<TokenV>,
    LexError,
> {
    match r {
        Ok(rest) => Ok(seq![t] + rest),
        Err(e) => Err(e),
    }
}

/// The lexical scan, from position `i` to the end of the input.
///
/// Each position either starts a token (the single-symbol table, the `::`
/// pairing, an identifier run, a digit run) or contributes nothing.
/// Whitespace and every other unrecognized character are silently ignored;
/// no whitespace character is alphabetic, so both fall to the final case.
/// The only error is a digit run whose value exceeds `i32::MAX`.
pub open spec fn spec_scan(s: Seq<char>, i: int) -> Result<Seq<TokenV>, LexError>
    decreases s.len() - i,
    via spec_scan_decreases
{
    if i < 0 || i >= s.len() {
        Ok(Seq::empty())
    } else {
        let c = s[i];
        if c == '+' {
            prepend_tok(TokenV::Add, spec_scan(s, i + 1))
        } else if c == '-' {
            prepend_tok(TokenV::Sub, spec_scan(s, i + 1))
        } else if c == '>' {
            prepend_tok(TokenV::Next, spec_scan(s, i + 1))
        } else if c == '<' {
            prepend_tok(TokenV::Prev, spec_scan(s, i + 1))
        } else if c == '[' {
            prepend_tok(TokenV::LBracket, spec_scan(s, i + 1))
        } else if c == ']' {
            prepend_tok(TokenV::RBracket, spec_scan(s, i + 1))
        } else if c == '.' {
            prepend_tok(TokenV::PrintChar, spec_scan(s, i + 1))
        } else if c == ',' {
            prepend_tok(TokenV::ReadChar, spec_scan(s, i + 1))
        } else if c == ';' {
            prepend_tok(TokenV::ReadInt, spec_scan(s, i + 1))
        } else if c == '$' {
            prepend_tok(TokenV::FunctionDefSymbol, spec_scan(s, i + 1))
        } else if c == '@' {
            prepend_tok(TokenV::FunctionCallSymbol, spec_scan(s, i + 1))
        } else if c == '*' {
            prepend_tok(TokenV::RepeatCell, spec_scan(s, i + 1))
        } else if c == '^' {
            prepend_tok(TokenV::Jump, spec_scan(s, i + 1))
        } else if c == '%' {
            prepend_tok(TokenV::StorePointer, spec_scan(s, i + 1))
        } else if c == '!' {
            prepend_tok(TokenV::JumpToZero, spec_scan(s, i + 1))
        } else if c == '#' {
            prepend_tok(TokenV::NamespaceSymbol, spec_scan(s, i + 1))
        } else if c == '&' {
            prepend_tok(TokenV::IncludeSymbol, spec_scan(s, i + 1))
        } else if c == ':' {
            if i + 1 < s.len() && s[i + 1] == ':' {
                prepend_tok(TokenV::DoubleColon, spec_scan(s, i + 2))
            } else {
                prepend_tok(TokenV::PrintInt, spec_scan(s, i + 1))
            }
        } else if is_ident_char(c) {
            let j = ident_end(s, i + 1);
            prepend_tok(TokenV::Identifier(s.subrange(i, j)), spec_scan(s, j))
        } else if is_digit_char(c) {
            let j = digit_end(s, i + 1);
            let v = digits_val(s.subrange(i, j));
            if v <= 0x7fff_ffff {
                prepend_tok(TokenV::Repeat(v), spec_scan(s, j))
            } else {
                Err(LexError::NumberFormat)
            }
        } else {
            spec_scan(s, i + 1)
        }
    }
}

#[via_fn]
proof fn spec_scan_decreases(s: Seq<char>, i: int) {
    if 0 <= i < s.len() {
        lemma_ident_end_bounds(s, i + 1);
        lemma_digit_end_bounds(s, i + 1);
    }
}

/// The scan of the whole input.
pub open spec fn spec_tokenize(s: Seq<char>) -> Result<Seq<TokenV>, LexError> {
    spec_scan(s, 0)
}

proof fn lemma_ident_end_bounds(s: Seq<char>, k: int)
    requires
        0 <= k <= s.len(),
    ensures
        k <= ident_end(s, k) <= s.len(),
    decreases s.len() - k,
{
    if k < s.len() && is_ident_char(s[k]) {
        lemma_ident_end_bounds(s, k + 1);
    }
}

proof fn lemma_digit_end_bounds(s: Seq<char>, k: int)
    requires
        0 <= k <= s.len(),
    ensures
        k <= digit_end(s, k) <= s.len(),
        forall|m: int| k <= m < digit_end(s, k) ==> is_digit_char(s[m]),
    decreases s.len() - k,
{
    if k < s.len() && is_digit_char(s[k]) {
        lemma_digit_end_bounds(s, k + 1);
    }
}

/// A digit run's value only grows as the run extends to the right.
proof fn lemma_digits_val_le(s: Seq<char>, i: int, j1: int, j2: int)
    requires
        0 <= i <= j1 <= j2 <= s.len(),
        forall|m: int| i <= m < j2 ==> is_digit_char(s[m]),
    ensures
        0 <= digits_val(s.subrange(i, j1)) <= digits_val(s.subrange(i, j2)),
    decreases j2 - j1,
{
    if j1 == j2 {
        lemma_digits_val_nonneg(s.subrange(i, j1));
    } else {
        lemma_digits_val_le(s, i, j1, j2 - 1);
        assert(s.subrange(i, j2).drop_last() =~= s.subrange(i, j2 - 1));
        assert(digits_val(s.subrange(i, j2)) == digits_val(s.subrange(i, j2 - 1)) * 10 + dval(
            s[j2 - 1],
        ));
    }
}

proof fn lemma_digits_val_nonneg(ds: Seq<char>)
    requires
        forall|m: int| 0 <= m < ds.len() ==> is_digit_char(ds[m]),
    ensures
        digits_val(ds) >= 0,
    decreases ds.len(),
{
    if ds.len() > 0 {
        assert(forall|m: int|
            0 <= m < ds.drop_last().len() ==> is_digit_char(ds.drop_last()[m]));
        lemma_digits_val_nonneg(ds.drop_last());
    }
}

/// Whether every repeat-count token of the sequence carries a
/// non-negative count, as the lexer always produces.
pub open spec fn repeats_nonneg(ts: Seq<TokenV>) -> bool {
    forall|j: int|
        0 <= j < ts.len() ==> (#[trigger] ts[j] matches TokenV::Repeat(n) ==> n >= 0)
}

/// The lexer only ever emits non-negative repeat counts: a count token
/// comes from a run of decimal digits.
pub proof fn lemma_tokenize_repeats_nonneg(s: Seq<char>, i: int)
    ensures
        spec_scan(s, i) matches Ok(toks) ==> repeats_nonneg(toks),
    decreases s.len() - i,
{
    if 0 <= i < s.len() {
        lemma_ident_end_bounds(s, i + 1);
        lemma_digit_end_bounds(s, i + 1);
        lemma_tokenize_repeats_nonneg(s, i + 1);
        if i + 2 <= s.len() {
            lemma_tokenize_repeats_nonneg(s, i + 2);
        }
        lemma_tokenize_repeats_nonneg(s, ident_end(s, i + 1));
        lemma_tokenize_repeats_nonneg(s, digit_end(s, i + 1));
        if is_digit_char(s[i]) {
            let j = digit_end(s, i + 1);
            assert(forall|m: int|
                0 <= m < s.subrange(i, j).len() ==> is_digit_char(#[trigger] s.subrange(i, j)[m]));
            lemma_digits_val_nonneg(s.subrange(i, j));
        }
        match spec_scan(s, i) {
            Ok(toks) => {
                assert forall|j2: int|
                    0 <= j2 < toks.len() implies (#[trigger] toks[j2] matches TokenV::Repeat(n)
                    ==> n >= 0) by {}
            },
            Err(_) => {},
        }
    }
}

/// Whether the character is one of the arithmetic, motion, loop, I/O or
/// pointer-control symbols — no macro syntax, counts, identifiers, or the
/// colon that can pair into a `::`.
pub open spec fn arith_char(c: char) -> bool {
    c == '+' || c == '-' || c == '>' || c == '<' || c == '[' || c == ']' || c == '.' || c == ','
        || c == ';' || c == '*' || c == '^' || c == '%' || c == '!'
}

/// Lexing a source of arithmetic symbols alone always succeeds, and every
/// token it yields is outside the macro layer.
pub proof fn lemma_arith_chars_tokenize_ok(s: Seq<char>, i: int)
    requires
        forall|j: int| 0 <= j < s.len() ==> arith_char(#[trigger] s[j]),
    ensures
        spec_scan(s, i) is Ok,
        forall|j: int|
            0 <= j < spec_scan(s, i)->Ok_0.len() ==> crate::parser::arith_token(
                #[trigger] spec_scan(s, i)->Ok_0[j],
            ),
    decreases s.len() - i,
{
    if 0 <= i < s.len() {
        lemma_arith_chars_tokenize_ok(s, i + 1);
        let rest = spec_scan(s, i + 1)->Ok_0;
        match spec_scan(s, i) {
            Ok(toks) => {
                assert forall|j: int| 0 <= j < toks.len() implies crate::parser::arith_token(
                    #[trigger] toks[j],
                ) by {
                    if j > 0 {
                        assert(toks[j] == rest[j - 1]);
                    }
                }
            },
            Err(_) => {},
        }
    }
}

/// An equal copy of a token; identifier text is copied character for
/// character.
pub fn clone_token(t: &Token) -> (r: Token)
    ensures
        r == *t,
{
    match t {
        Token::Add => Token::Add,
        Token::Sub => Token::Sub,
        Token::Next => Token::Next,
        Token::Prev => Token::Prev,
        Token::LBracket => Token::LBracket,
        Token::RBracket => Token::RBracket,
        Token::PrintChar => Token::PrintChar,
        Token::ReadChar => Token::ReadChar,
        Token::PrintInt => Token::PrintInt,
        Token::ReadInt => Token::ReadInt,
        Token::Jump => Token::Jump,
        Token::JumpToZero => Token::JumpToZero,
        Token::StorePointer => Token::StorePointer,
        Token::RepeatCell => Token::RepeatCell,
        Token::FunctionDefSymbol => Token::FunctionDefSymbol,
        Token::FunctionCallSymbol => Token::FunctionCallSymbol,
        Token::NamespaceSymbol => Token::NamespaceSymbol,
        Token::DoubleColon => Token::DoubleColon,
        Token::IncludeSymbol => Token::IncludeSymbol,
        Token::Repeat(n) => Token::Repeat(*n),
        Token::Identifier(s) => Token::Identifier(s.clone()),
    }
}

/// The character at a given position of the string, counted in characters,
/// or the null character when the position is past the end.
pub fn get_char_in_string(string: &String, index: usize) -> (c: char)
    ensures
        c == if index < string@.len() {
            string@[index as int]
        } else {
            '\0'
        },
{
    let s: &str = string.as_str();
    if index < s.unicode_len() {
        s.get_char(index)
    } else {
        '\0'
    }
}

/// The invariant tying the tokens emitted so far, at input position `i`, to
/// the scan of the whole input.
pub open spec fn scan_inv(s: Seq<char>, toks: Seq<Token>, i: int) -> bool {
    match spec_scan(s, i) {
        Ok(rest) => spec_tokenize(s) == Ok::<Seq<TokenV>, LexError>(toks_view(toks) + rest),
        Err(e) => spec_tokenize(s) == Err::<Seq<TokenV>, LexError>(e),
    }
}

proof fn lemma_scan_emit(s: Seq<char>, toks: Seq<Token>, i: int, j: int, t: Token)
    requires
        scan_inv(s, toks, i),
        spec_scan(s, i) == prepend_tok(tok_view(t), spec_scan(s, j)),
    ensures
        scan_inv(s, toks.push(t), j),
{
    lemma_toks_view_push(toks, t);
    match spec_scan(s, j) {
        Ok(rest) => {
            assert(toks_view(toks) + (seq![tok_view(t)] + rest) =~= toks_view(toks.push(t))
                + rest);
        },
        Err(_) => {},
    }
}

proof fn lemma_scan_skip(s: Seq<char>, toks: Seq<Token>, i: int, j: int)
    requires
        scan_inv(s, toks, i),
        spec_scan(s, i) == spec_scan(s, j),
    ensures
        scan_inv(s, toks, j),
{
}

/// Scans the source text left to right and produces its token sequence.
///
/// Single characters map to their tokens per the symbol table; `::` lexes
/// as one token while a lone `:` is the print-int operator; maximal
/// alphabetic/underscore runs become identifiers and maximal digit runs
/// become repeat counts. Whitespace and all other characters are ignored.
/// The one failure is a repeat count that does not fit in `i32`.
pub fn tokenize(code: String) -> (r: Result<Tokens, LexError>)
    ensures
        match r {
            Ok(toks) => spec_tokenize(code@) == Ok::<Seq<TokenV>, LexError>(toks_view(toks@)),
            Err(e) => spec_tokenize(code@) == Err::<Seq<TokenV>, LexError>(e),
        },
{
    let ghost s = code@;
    let text: &str = code.as_str();
    let n: usize = text.unicode_len();
    let mut toks: Tokens = Vec::new();
    let mut i: usize = 0;
    proof {
        assert(toks_view(toks@) + spec_scan(s, 0)->Ok_0 =~= spec_scan(s, 0)->Ok_0) by {
            assert(toks_view(toks@) =~= Seq::<TokenV>::empty());
        }
    }
    while i < n
        invariant
            s == code@,
            text@ == s,
            n == s.len(),
            i <= n,
            scan_inv(s, toks@, i as int),
        decreases n - i,
    {
        let c: char = text.get_char(i);
        let ghost i0 = i as int;
        let ghost toks0 = toks@;
        match c {
            '+' => {
                toks.push(Token::Add);
                proof {
                    lemma_scan_emit(s, toks0, i0, i0 + 1, Token::Add);
                }
                i = i + 1;
            },
            '-' => {
                toks.push(Token::Sub);
                proof {
                    lemma_scan_emit(s, toks0, i0, i0 + 1, Token::Sub);
                }
                i = i + 1;
            },
            '>' => {
                toks.push(Token::Next);
                proof {
                    lemma_scan_emit(s, toks0, i0, i0 + 1, Token::Next);
                }
                i = i + 1;
            },
            '<' => {
                toks.push(Token::Prev);
                proof {
                    lemma_scan_emit(s, toks0, i0, i0 + 1, Token::Prev);
                }
                i = i + 1;
            },
            '[' => {
                toks.push(Token::LBracket);
                proof {
                    lemma_scan_emit(s, toks0, i0, i0 + 1, Token::LBracket);
                }
                i = i + 1;
            },
            ']' => {
                toks.push(Token::RBracket);
                proof {
                    lemma_scan_emit(s, toks0, i0, i0 + 1, Token::RBracket);
                }
                i = i + 1;
            },
            '.' => {
                toks.push(Token::PrintChar);
                proof {
                    lemma_scan_emit(s, toks0, i0, i0 + 1, Token::PrintChar);
                }
                i = i + 1;
            },
            ',' => {
                toks.push(Token::ReadChar);
                proof {
                    lemma_scan_emit(s, toks0, i0, i0 + 1, Token::ReadChar);
                }
                i = i + 1;
            },
            ';' => {
                toks.push(Token::ReadInt);
                proof {
                    lemma_scan_emit(s, toks0, i0, i0 + 1, Token::ReadInt);
                }
                i = i + 1;
            },
            '$' => {
                toks.push(Token::FunctionDefSymbol);
                proof {
                    lemma_scan_emit(s, toks0, i0, i0 + 1, Token::FunctionDefSymbol);
                }
                i = i + 1;
            },
            '@' => {
                toks.push(Token::FunctionCallSymbol);
                proof {
                    lemma_scan_emit(s, toks0, i0, i0 + 1, Token::FunctionCallSymbol);
                }
                i = i + 1;
            },
            '*' => {
                toks.push(Token::RepeatCell);
                proof {
                    lemma_scan_emit(s, toks0, i0, i0 + 1, Token::RepeatCell);
                }
                i = i + 1;
            },
            '^' => {
                toks.push(Token::Jump);
                proof {
                    lemma_scan_emit(s, toks0, i0, i0 + 1, Token::Jump);
                }
                i = i + 1;
            },
            '%' => {
                toks.push(Token::StorePointer);
                proof {
                    lemma_scan_emit(s, toks0, i0, i0 + 1, Token::StorePointer);
                }
                i = i + 1;
            },
            '!' => {
                toks.push(Token::JumpToZero);
                proof {
                    lemma_scan_emit(s, toks0, i0, i0 + 1, Token::JumpToZero);
                }
                i = i + 1;
            },
            '#' => {
                toks.push(Token::NamespaceSymbol);
                proof {
                    lemma_scan_emit(s, toks0, i0, i0 + 1, Token::NamespaceSymbol);
                }
                i = i + 1;
            },
            '&' => {
                toks.push(Token::IncludeSymbol);
                proof {
                    lemma_scan_emit(s, toks0, i0, i0 + 1, Token::IncludeSymbol);
                }
                i = i + 1;
            },
            ':' => {
                if i + 1 < n && text.get_char(i + 1) == ':' {
                    toks.push(Token::DoubleColon);
                    proof {
                        lemma_scan_emit(s, toks0, i0, i0 + 2, Token::DoubleColon);
                    }
                    i = i + 2;
                } else {
                    toks.push(Token::PrintInt);
                    proof {
                        lemma_scan_emit(s, toks0, i0, i0 + 1, Token::PrintInt);
                    }
                    i = i + 1;
                }
            },
            other => {
                if char_is_alphabetic(other) || other == '_' {
                    let mut k: usize = i + 1;
                    proof {
                        lemma_ident_end_bounds(s, i0 + 1);
                    }
                    loop
                        invariant
                            text@ == s,
                            n == s.len(),
                            i0 + 1 <= k <= n,
                            ident_end(s, i0 + 1) == ident_end(s, k as int),
                        ensures
                            i0 + 1 <= k <= n,
                            ident_end(s, i0 + 1) == k as int,
                        decreases n - k,
                    {
                        if k >= n {
                            break ;
                        }
                        let kc = text.get_char(k);
                        if !(char_is_alphabetic(kc) || kc == '_') {
                            break ;
                        }
                        k = k + 1;
                    }
                    proof {
                        lemma_ident_end_bounds(s, i0 + 1);
                    }
                    let name: String = text.substring_char(i, k).to_owned();
                    let tok = Token::Identifier(name);
                    proof {
                        assert(spec_scan(s, i0) == prepend_tok(
                            TokenV::Identifier(s.subrange(i0, k as int)),
                            spec_scan(s, k as int),
                        ));
                        lemma_scan_emit(s, toks0, i0, k as int, tok);
                    }
                    toks.push(tok);
                    i = k;
                } else if other as u32 >= 48 && other as u32 <= 57 {
                    let ghost j = digit_end(s, i0 + 1);
                    proof {
                        lemma_digit_end_bounds(s, i0 + 1);
                    }
                    let mut acc: u64 = (other as u32 - 48) as u64;
                    let mut k: usize = i + 1;
                    proof {
                        assert(digits_val(Seq::<char>::empty()) == 0);
                        assert(s.subrange(i0, i0 + 1).drop_last() =~= Seq::<char>::empty());
                        assert(s.subrange(i0, i0 + 1).last() == s[i0]);
                        assert(acc as int == digits_val(s.subrange(i0, k as int)));
                    }
                    let mut overflowed: bool = false;
                    loop
                        invariant_except_break
                            !overflowed,
                            digit_end(s, i0 + 1) == digit_end(s, k as int),
                            acc as int == digits_val(s.subrange(i0, k as int)),
                            acc <= 0x7fff_ffff,
                        invariant
                            text@ == s,
                            n == s.len(),
                            i0 + 1 <= k <= n,
                            0 <= i0 < s.len(),
                            is_digit_char(s[i0]),
                            j == digit_end(s, i0 + 1),
                            forall|m: int| i0 <= m < k ==> is_digit_char(s[m]),
                        ensures
                            i0 + 1 <= k <= n,
                            !overflowed ==> j == k as int && acc as int == digits_val(
                                s.subrange(i0, k as int),
                            ) && acc <= 0x7fff_ffff,
                            overflowed ==> digits_val(s.subrange(i0, j)) > 0x7fff_ffff,
                        decreases n - k,
                    {
                        if k >= n {
                            proof {
                                assert(digit_end(s, k as int) == k as int);
                            }
                            break ;
                        }
                        let kc = text.get_char(k);
                        if !(kc as u32 >= 48 && kc as u32 <= 57) {
                            proof {
                                assert(digit_end(s, k as int) == k as int);
                            }
                            break ;
                        }
                        let d: u64 = (kc as u32 - 48) as u64;
                        let next: u64 = acc * 10 + d;
                        proof {
                            assert(s.subrange(i0, k + 1).drop_last() =~= s.subrange(i0, k as int));
                            assert(s.subrange(i0, k + 1).last() == s[k as int]);
                            assert(digits_val(s.subrange(i0, k + 1)) == acc * 10 + d);
                        }
                        if next > 0x7fff_ffff {
                            overflowed = true;
                            proof {
                                lemma_digit_end_bounds(s, k as int + 1);
                                assert(digit_end(s, k as int) == digit_end(s, k as int + 1));
                                assert(k + 1 <= j);
                                lemma_digits_val_le(s, i0, k + 1, j);
                            }
                            break ;
                        }
                        acc = next;
                        k = k + 1;
                    }
                    if overflowed {
                        proof {
                            assert(spec_scan(s, i0) == Err::<Seq<TokenV>, LexError>(
                                LexError::NumberFormat,
                            ));
                        }
                        return Err(LexError::NumberFormat);
                    }
                    proof {
                        assert(spec_scan(s, i0) == prepend_tok(
                            TokenV::Repeat(acc as int),
                            spec_scan(s, k as int),
                        ));
                    }
                    let value: i32 = acc as i32;
                    let tok = Token::Repeat(value);
                    proof {
                        lemma_scan_emit(s, toks0, i0, k as int, tok);
                    }
                    toks.push(tok);
                    i = k;
                } else {
                    proof {
                        lemma_scan_skip(s, toks0, i0, i0 + 1);
                    }
                    i = i + 1;
                }
            },
        }
    }
    proof {
        assert(spec_scan(s, i as int) == Ok::<Seq<TokenV>, LexError>(Seq::<TokenV>::empty()));
        assert(toks_view(toks@) + Seq::<TokenV>::empty() =~= toks_view(toks@));
    }
    Ok(toks)
}

} // verus!
