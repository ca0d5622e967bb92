//! Preprocessing: the pure parts of include resolution (locating and
//! splicing module inclusions, choosing among directory read results) and
//! the symbol-resolution pass that registers namespaced function
//! definitions and inlines their bodies at call sites.

use vstd::prelude::*;
use vstd::string::StringExecFns;
use crate::parser::AST;
use crate::parser::AstV;
use crate::parser::CodeBlock;
use crate::parser::ast_view;
use crate::parser::block_view;
use crate::parser::vec_block_view;
use crate::parser::lemma_block_view;
use crate::parser::lemma_block_view_push;

verus! {

broadcast use vstd::std_specs::vec::group_vec_axioms;

/// Configuration of the preprocessor: the ordered list of directories
/// searched for included modules.
pub struct PreprocessorConfig {
    pub include_dirs: Vec<String>,
}

/// An equal-view deep copy of one instruction.
pub fn clone_ast(a: &AST) -> (r: AST)
    ensures
        ast_view(r) == ast_view(*a),
    decreases a,
{
    match a {
        AST::Add(n) => AST::Add(*n),
        AST::Sub(n) => AST::Sub(*n),
        AST::Next(n) => AST::Next(*n),
        AST::Prev(n) => AST::Prev(*n),
        AST::LoopStart => AST::LoopStart,
        AST::LoopEnd => AST::LoopEnd,
        AST::PrintChar => AST::PrintChar,
        AST::ReadChar => AST::ReadChar,
        AST::PrintInt => AST::PrintInt,
        AST::ReadInt => AST::ReadInt,
        AST::StorePointer => AST::StorePointer,
        AST::Jump => AST::Jump,
        AST::JumpToZero => AST::JumpToZero,
        AST::FunctionDef(name, body) => AST::FunctionDef(name.clone(), clone_block(body)),
        AST::NamespaceDef(name) => AST::NamespaceDef(name.clone()),
        AST::ModuleInclude(name) => AST::ModuleInclude(name.clone()),
        AST::FunctionCall(name) => AST::FunctionCall(name.clone()),
    }
}

/// An equal-view deep copy of a code block.
pub fn clone_block(b: &CodeBlock) -> (r: CodeBlock)
    ensures
        block_view(r@) == block_view(b@),
    decreases b,
{
    let mut r: CodeBlock = Vec::new();
    let mut m: usize = 0;
    while m < b.len()
        invariant
            m <= b@.len(),
            r@.len() == m,
            forall|j: int| 0 <= j < m ==> ast_view(r@[j]) == ast_view(b@[j]),
        decreases b@.len() - m,
    {
        let a = clone_ast(&b[m]);
        r.push(a);
        m = m + 1;
    }
    proof {
        lemma_block_view(r@);
        lemma_block_view(b@);
        assert(block_view(r@) =~= block_view(b@));
    }
    r
}

/// Clone the instruction range `[a, b)` of `src` onto the end of `dst`.
fn append_block_clone(dst: &mut CodeBlock, src: &CodeBlock, a: usize, b: usize)
    requires
        a <= b <= src@.len(),
    ensures
        block_view(final(dst)@) == block_view(old(dst)@) + block_view(
            src@.subrange(a as int, b as int),
        ),
{
    let ghost dst0 = dst@;
    let mut m: usize = a;
    proof {
        lemma_block_view(dst0);
        lemma_block_view(dst0 + Seq::<AST>::empty());
        assert(dst@ =~= dst0 + Seq::<AST>::empty());
    }
    while m < b
        invariant
            a <= m <= b <= src@.len(),
            dst@.len() == dst0.len() + (m - a),
            dst@.subrange(0, dst0.len() as int) =~= dst0,
            forall|j: int|
                dst0.len() <= j < dst@.len() ==> ast_view(#[trigger] dst@[j]) == ast_view(
                    src@[a + (j - dst0.len())],
                ),
        decreases b - m,
    {
        let x = clone_ast(&src[m]);
        dst.push(x);
        m = m + 1;
    }
    proof {
        lemma_block_view(dst@);
        lemma_block_view(dst0);
        lemma_block_view(src@.subrange(a as int, b as int));
        assert(block_view(dst@) =~= block_view(dst0) + block_view(
            src@.subrange(a as int, b as int),
        ));
    }
}

/// The position and name of the first module-inclusion instruction, if
/// any.
pub fn first_include(code: &CodeBlock) -> (r: Option<(usize, String)>)
    ensures
        match r {
            Some(pair) => {
                let (i, name) = pair;
                &&& i < code@.len()
                &&& code@[i as int] is ModuleInclude
                &&& name@ == code@[i as int]->ModuleInclude_0@
                &&& forall|j: int| 0 <= j < i ==> !(code@[j] is ModuleInclude)
            },
            None => forall|j: int| 0 <= j < code@.len() ==> !(code@[j] is ModuleInclude),
        },
{
    let mut i: usize = 0;
    while i < code.len()
        invariant
            i <= code@.len(),
            forall|j: int| 0 <= j < i ==> !(code@[j] is ModuleInclude),
        decreases code@.len() - i,
    {
        match &code[i] {
            AST::ModuleInclude(name) => {
                return Some((i, name.clone()));
            },
            _ => {},
        }
        i = i + 1;
    }
    None
}

/// Replace the instruction at position `i` with the instructions of a
/// module, deep-copying both surroundings and module.
pub fn splice_include(code: &CodeBlock, i: usize, module: &CodeBlock) -> (r: CodeBlock)
    requires
        i < code@.len(),
    ensures
        block_view(r@) == block_view(code@.subrange(0, i as int)) + block_view(module@)
            + block_view(code@.subrange(i + 1, code@.len() as int)),
{
    let mut r: CodeBlock = Vec::new();
    let n: usize = code.len();
    proof {
        lemma_block_view(Seq::<AST>::empty());
    }
    append_block_clone(&mut r, code, 0, i);
    append_block_clone(&mut r, module, 0, module.len());
    append_block_clone(&mut r, code, i + 1, n);
    proof {
        assert(module@.subrange(0, module@.len() as int) =~= module@);
        assert(block_view(Seq::<AST>::empty()) + block_view(code@.subrange(0, i as int))
            =~= block_view(code@.subrange(0, i as int)));
    }
    r
}

/// The paths at which a module of the given name is sought: each
/// configured directory text followed by the module name and the `.bf`
/// suffix.
pub fn module_candidate_paths(config: &PreprocessorConfig, name: &str) -> (r: Vec<String>)
    ensures
        r@.len() == config.include_dirs@.len(),
        forall|i: int|
            0 <= i < r@.len() ==> r@[i]@ == config.include_dirs@[i]@ + name@ + ".bf"@,
{
    let mut r: Vec<String> = Vec::new();
    let mut i: usize = 0;
    while i < config.include_dirs.len()
        invariant
            i <= config.include_dirs@.len(),
            r@.len() == i,
            forall|j: int|
                0 <= j < i ==> r@[j]@ == config.include_dirs@[j]@ + name@ + ".bf"@,
        decreases config.include_dirs@.len() - i,
    {
        let mut p: String = config.include_dirs[i].clone();
        p.append(name);
        p.append(".bf");
        r.push(p);
        i = i + 1;
    }
    r
}

/// The views of a sequence of read results.
pub open spec fn reads_view(rs: Seq<Option<String>>) -> Seq<Option<Seq<char>>> {
    Seq::new(
        rs.len(),
        |i: int|
            match rs[i] {
                Some(s) => Some(s@),
                None => None,
            },
    )
}

/// The last successful read among the per-directory results.
pub open spec fn last_some(rs: Seq<Option<Seq<char>>>) -> Option<Seq<char>>
    decreases rs.len(),
{
    if rs.len() == 0 {
        None
    } else if rs.last() is Some {
        rs.last()
    } else {
        last_some(rs.drop_last())
    }
}

/// The module text kept after trying every directory in order: the last
/// successful read wins, and empty content counts the same as no module
/// found.
pub open spec fn chosen_text(rs: Seq<Option<Seq<char>>>) -> Option<Seq<char>> {
    match last_some(rs) {
        Some(s) => if s.len() == 0 {
            None
        } else {
            Some(s)
        },
        None => None,
    }
}

/// Pick the module text from the per-directory read results: directories
/// are tried in order and the last readable file wins, so a later
/// directory silently shadows an earlier one; an empty file counts as not
/// found.
pub fn choose_module_text(reads: &Vec<Option<String>>) -> (r: Option<String>)
    ensures
        match r {
            Some(s) => chosen_text(reads_view(reads@)) == Some(s@),
            None => chosen_text(reads_view(reads@)) is None,
        },
{
    let ghost rv = reads_view(reads@);
    let mut j: usize = reads.len();
    proof {
        assert(rv.subrange(0, j as int) =~= rv);
    }
    while j > 0
        invariant
            j <= reads@.len(),
            rv == reads_view(reads@),
            last_some(rv) == last_some(rv.subrange(0, j as int)),
        decreases j,
    {
        match &reads[j - 1] {
            Some(s) => {
                proof {
                    assert(rv.subrange(0, j as int).last() == rv[j - 1]);
                    assert(last_some(rv.subrange(0, j as int)) == Some(s@));
                }
                if s.as_str().is_empty() {
                    return None;
                }
                return Some(s.clone());
            },
            None => {
                proof {
                    assert(rv.subrange(0, j as int).last() == rv[j - 1]);
                    assert(rv.subrange(0, j as int).drop_last() =~= rv.subrange(0, j - 1));
                }
                j = j - 1;
            },
        }
    }
    proof {
        assert(rv.subrange(0, 0) =~= Seq::<Option<Seq<char>>>::empty());
    }
    None
}

/// The function table as a mathematical map from qualified names to
/// bodies; a later registration of the same name replaces the earlier one.
pub open spec fn table_model(es: Seq<(String, CodeBlock)>) -> Map<Seq<char>, Seq<AstV>>
    decreases es.len(),
{
    if es.len() == 0 {
        Map::empty()
    } else {
        table_model(es.drop_last()).insert(es.last().0@, block_view(es.last().1@))
    }
}

/// Look the name up among the first `m` table entries, most recent first.
fn table_get_prefix<'a>(table: &'a Vec<(String, CodeBlock)>, m: usize, name: &String) -> (r:
    Option<&'a CodeBlock>)
    requires
        m <= table@.len(),
    ensures
        match r {
            Some(b) => table_model(table@.subrange(0, m as int)).contains_key(name@)
                && table_model(table@.subrange(0, m as int))[name@] == block_view(b@),
            None => !table_model(table@.subrange(0, m as int)).contains_key(name@),
        },
    decreases m,
{
    if m == 0 {
        proof {
            assert(table@.subrange(0, 0) =~= Seq::<(String, CodeBlock)>::empty());
        }
        None
    } else {
        proof {
            assert(table@.subrange(0, m as int).last() == table@[m - 1]);
            assert(table@.subrange(0, m as int).drop_last() =~= table@.subrange(0, m - 1));
        }
        let hit: bool = table[m - 1].0 == *name;
        if hit {
            Some(&table[m - 1].1)
        } else {
            table_get_prefix(table, m - 1, name)
        }
    }
}

/// The fully resolved output from position `i`, with `fns` the table built
/// so far and `ns` the current namespace.
pub open spec fn resolve_from(
    code: Seq<AstV>,
    i: int,
    fns: Map<Seq<char>, Seq<AstV>>,
    ns: Seq<char>,
) -> Seq<AstV>
    decreases code.len() - i,
{
    if i < 0 || i >= code.len() {
        Seq::empty()
    } else {
        match code[i] {
            AstV::FunctionDef(name, body) => resolve_from(
                code,
                i + 1,
                fns.insert(ns + "::"@ + name, body),
                ns,
            ),
            AstV::NamespaceDef(name) => resolve_from(code, i + 1, fns, name),
            AstV::FunctionCall(name) => (if fns.contains_key(name) {
                fns[name]
            } else {
                Seq::empty()
            }) + resolve_from(code, i + 1, fns, ns),
            other => seq![other] + resolve_from(code, i + 1, fns, ns),
        }
    }
}

/// Symbol resolution of a whole block: the table starts empty and the
/// namespace at the reserved default.
pub open spec fn spec_resolve(code: Seq<AstV>) -> Seq<AstV> {
    resolve_from(code, 0, Map::empty(), "_main"@)
}

/// A definition followed by a call under the matching qualified name
/// expands, after preprocessing, to exactly the body inlined at the call
/// site: defining `f` in the default namespace and calling `_main::f`
/// yields the body and nothing else.
pub proof fn lemma_function_roundtrip(fname: Seq<char>, body: Seq<AstV>)
    ensures
        spec_resolve(
            seq![
                AstV::FunctionDef(fname, body),
                AstV::FunctionCall("_main"@ + "::"@ + fname),
            ],
        ) == body,
{
    let q = "_main"@ + "::"@ + fname;
    let code = seq![AstV::FunctionDef(fname, body), AstV::FunctionCall(q)];
    let fns1 = Map::<Seq<char>, Seq<AstV>>::empty().insert(q, body);
    assert(resolve_from(code, 2, fns1, "_main"@) == Seq::<AstV>::empty());
    assert(resolve_from(code, 1, fns1, "_main"@) == fns1[q] + resolve_from(code, 2, fns1, "_main"@));
    assert(body + Seq::<AstV>::empty() =~= body);
    assert(resolve_from(code, 0, Map::empty(), "_main"@) == resolve_from(code, 1, fns1, "_main"@));
}

/// Whether an instruction passes through symbol resolution unchanged:
/// neither a definition, a namespace declaration, nor a call.
pub open spec fn passthrough_inst(a: AstV) -> bool {
    !(a is FunctionDef) && !(a is NamespaceDef) && !(a is FunctionCall)
}

proof fn lemma_resolve_passthrough_then_call(
    code: Seq<AstV>,
    i: int,
    fns: Map<Seq<char>, Seq<AstV>>,
    ns: Seq<char>,
)
    requires
        0 <= i < code.len(),
        forall|j: int| i <= j < code.len() - 1 ==> passthrough_inst(#[trigger] code[j]),
        code.last() is FunctionCall,
        fns.contains_key(code.last()->FunctionCall_0),
    ensures
        resolve_from(code, i, fns, ns) == code.subrange(i, code.len() - 1)
            + fns[code.last()->FunctionCall_0],
    decreases code.len() - i,
{
    let q = code.last()->FunctionCall_0;
    if i == code.len() - 1 {
        assert(resolve_from(code, i + 1, fns, ns) == Seq::<AstV>::empty());
        assert(code.subrange(i, code.len() - 1) =~= Seq::<AstV>::empty());
        assert(fns[q] + Seq::<AstV>::empty() =~= fns[q]);
        assert(Seq::<AstV>::empty() + fns[q] =~= fns[q]);
    } else {
        lemma_resolve_passthrough_then_call(code, i + 1, fns, ns);
        assert(seq![code[i]] + (code.subrange(i + 1, code.len() - 1) + fns[q]) =~= code.subrange(
            i,
            code.len() - 1,
        ) + fns[q]);
    }
}

/// The round-trip holds with anything in between: a definition, any
/// pass-through instructions, then a call to the qualified name yield
/// exactly those instructions with the body inlined at the call site.
pub proof fn lemma_function_roundtrip_general(fname: Seq<char>, body: Seq<AstV>, mid: Seq<AstV>)
    requires
        forall|j: int| 0 <= j < mid.len() ==> passthrough_inst(#[trigger] mid[j]),
    ensures
        spec_resolve(
            seq![AstV::FunctionDef(fname, body)] + mid + seq![
                AstV::FunctionCall("_main"@ + "::"@ + fname),
            ],
        ) == mid + body,
{
    let q = "_main"@ + "::"@ + fname;
    let code = seq![AstV::FunctionDef(fname, body)] + mid + seq![AstV::FunctionCall(q)];
    let fns1 = Map::<Seq<char>, Seq<AstV>>::empty().insert(q, body);
    assert(code[0] == AstV::FunctionDef(fname, body));
    assert(code.last() == AstV::FunctionCall(q));
    assert forall|j: int| 1 <= j < code.len() - 1 implies passthrough_inst(#[trigger] code[j]) by {
        assert(code[j] == mid[j - 1]);
    }
    assert(resolve_from(code, 0, Map::empty(), "_main"@) == resolve_from(code, 1, fns1, "_main"@));
    lemma_resolve_passthrough_then_call(code, 1, fns1, "_main"@);
    assert(code.subrange(1, code.len() - 1) =~= mid);
}

/// Namespace scoping: a definition after a namespace declaration resolves
/// under the declared namespace and its qualified name, while the bare
/// name, looked up directly, matches no table key and expands to nothing.
pub proof fn lemma_namespace_scoping(ns: Seq<char>, fname: Seq<char>, body: Seq<AstV>)
    ensures
        spec_resolve(
            seq![
                AstV::NamespaceDef(ns),
                AstV::FunctionDef(fname, body),
                AstV::FunctionCall(ns + "::"@ + fname),
            ],
        ) == body,
        spec_resolve(
            seq![
                AstV::NamespaceDef(ns),
                AstV::FunctionDef(fname, body),
                AstV::FunctionCall(fname),
            ],
        ) == Seq::<AstV>::empty(),
{
    let q = ns + "::"@ + fname;
    let fns1 = Map::<Seq<char>, Seq<AstV>>::empty().insert(q, body);
    reveal_strlit("::");
    let hit = seq![
        AstV::NamespaceDef(ns),
        AstV::FunctionDef(fname, body),
        AstV::FunctionCall(q),
    ];
    assert(resolve_from(hit, 3, fns1, ns) == Seq::<AstV>::empty());
    assert(resolve_from(hit, 2, fns1, ns) == fns1[q] + resolve_from(hit, 3, fns1, ns));
    assert(body + Seq::<AstV>::empty() =~= body);
    assert(resolve_from(hit, 1, Map::empty(), ns) == resolve_from(hit, 2, fns1, ns));
    assert(resolve_from(hit, 0, Map::empty(), "_main"@) == resolve_from(hit, 1, Map::empty(), ns));
    let miss = seq![
        AstV::NamespaceDef(ns),
        AstV::FunctionDef(fname, body),
        AstV::FunctionCall(fname),
    ];
    assert(q.len() == ns.len() + 2 + fname.len());
    assert(q != fname);
    assert(!fns1.contains_key(fname));
    assert(resolve_from(miss, 2, fns1, ns) == Seq::<AstV>::empty() + resolve_from(
        miss,
        3,
        fns1,
        ns,
    ));
    assert(Seq::<AstV>::empty() + Seq::<AstV>::empty() =~= Seq::<AstV>::empty());
    assert(resolve_from(miss, 1, Map::empty(), ns) == resolve_from(miss, 2, fns1, ns));
    assert(resolve_from(miss, 0, Map::empty(), "_main"@) == resolve_from(
        miss,
        1,
        Map::empty(),
        ns,
    ));
}

/// Whether a name carries the namespace separator character.
pub open spec fn has_colon(k: Seq<char>) -> bool {
    exists|i: int| 0 <= i < k.len() && k[i] == ':'
}

/// Every name symbol resolution registers is `<namespace>::<name>`, so it
/// carries a colon.
pub proof fn lemma_registered_names_have_colon(ns: Seq<char>, name: Seq<char>)
    ensures
        has_colon(ns + "::"@ + name),
{
    reveal_strlit("::");
    let q = ns + "::"@ + name;
    assert(q[ns.len() as int] == ':');
}

/// A call written without the separator, looked up directly, misses every
/// table whose keys all came from namespaced registrations — whatever was
/// defined before it, the call expands to no instructions.
pub proof fn lemma_unqualified_call_expands_empty(
    code: Seq<AstV>,
    i: int,
    fns: Map<Seq<char>, Seq<AstV>>,
    ns: Seq<char>,
)
    requires
        forall|k: Seq<char>| fns.contains_key(k) ==> has_colon(k),
        0 <= i < code.len(),
        code[i] is FunctionCall,
        !has_colon(code[i]->FunctionCall_0),
    ensures
        resolve_from(code, i, fns, ns) == resolve_from(code, i + 1, fns, ns),
{
    let nm = code[i]->FunctionCall_0;
    assert(!fns.contains_key(nm));
    assert(Seq::<AstV>::empty() + resolve_from(code, i + 1, fns, ns) =~= resolve_from(
        code,
        i + 1,
        fns,
        ns,
    ));
}

/// A call whose name no definition registered expands to no emitted
/// instructions rather than an error.
pub proof fn lemma_unresolved_call(name: Seq<char>)
    ensures
        spec_resolve(seq![AstV::FunctionCall(name)]) == Seq::<AstV>::empty(),
{
    let code = seq![AstV::FunctionCall(name)];
    assert(!Map::<Seq<char>, Seq<AstV>>::empty().contains_key(name));
    assert(resolve_from(code, 1, Map::empty(), "_main"@) == Seq::<AstV>::empty());
    assert(Seq::<AstV>::empty() + Seq::<AstV>::empty() =~= Seq::<AstV>::empty());
}

/// The symbol-resolution pass.
///
/// A walk left to right keeps a current namespace, starting at the
/// reserved default `_main` and updated by every namespace declaration. A
/// function definition registers its body under `namespace::name` and is
/// dropped from the output; a call whose name is found in the table (by
/// direct lookup of the written name) splices in a copy of the stored
/// body, and an unresolved call is dropped silently. Everything else
/// passes through unchanged.
pub fn resolve_symbols(code: &CodeBlock) -> (r: CodeBlock)
    ensures
        block_view(r@) == spec_resolve(block_view(code@)),
{
    let ghost cv = block_view(code@);
    let mut out: CodeBlock = Vec::new();
    let mut table: Vec<(String, CodeBlock)> = Vec::new();
    let mut namespace: String = "_main".to_owned();
    let mut index: usize = 0;
    proof {
        lemma_block_view(code@);
        lemma_block_view(out@);
        assert(block_view(out@) + resolve_from(cv, 0, Map::empty(), "_main"@) =~= resolve_from(
            cv,
            0,
            Map::empty(),
            "_main"@,
        ));
    }
    while index < code.len()
        invariant
            cv == block_view(code@),
            cv.len() == code@.len(),
            index <= code@.len(),
            forall|j: int| 0 <= j < cv.len() ==> cv[j] == ast_view(code@[j]),
            spec_resolve(cv) == block_view(out@) + resolve_from(
                cv,
                index as int,
                table_model(table@),
                namespace@,
            ),
        decreases code@.len() - index,
    {
        let ghost i0 = index as int;
        let ghost fns0 = table_model(table@);
        let ghost ns0 = namespace@;
        let ghost out0 = out@;
        match &code[index] {
            AST::FunctionDef(name, body) => {
                let mut key: String = namespace.clone();
                key.append("::");
                key.append(name.as_str());
                let copy: CodeBlock = clone_block(body);
                proof {
                    let ghost entry = (key, copy);
                    assert(table@.push(entry).drop_last() =~= table@);
                    assert(table@.push(entry).last() == entry);
                }
                table.push((key, copy));
            },
            AST::NamespaceDef(name) => {
                namespace = name.clone();
            },
            AST::FunctionCall(name) => {
                let hit = table_get_prefix(&table, table.len(), name);
                proof {
                    assert(table@.subrange(0, table@.len() as int) =~= table@);
                }
                match hit {
                    Some(body) => {
                        let ghost bodyv = block_view(body@);
                        let ghost dst0 = out@;
                        append_block_clone(&mut out, body, 0, body.len());
                        proof {
                            assert(body@.subrange(0, body@.len() as int) =~= body@);
                            assert(block_view(out@) =~= block_view(dst0) + bodyv);
                        }
                    },
                    None => {
                        proof {
                            assert(block_view(out0) + (Seq::<AstV>::empty() + resolve_from(
                                cv,
                                i0 + 1,
                                fns0,
                                ns0,
                            )) =~= block_view(out0) + resolve_from(cv, i0 + 1, fns0, ns0));
                        }
                    },
                }
            },
            _ => {
                let a = clone_ast(&code[index]);
                proof {
                    lemma_block_view_push(out0, a);
                }
                out.push(a);
            },
        }
        proof {
            let ghost rest = resolve_from(cv, i0 + 1, table_model(table@), namespace@);
            assert(block_view(out0) + (seq![cv[i0]] + rest) =~= block_view(out0).push(cv[i0])
                + rest);
        }
        index = index + 1;
        proof {
            assert(spec_resolve(cv) == block_view(out@) + resolve_from(
                cv,
                index as int,
                table_model(table@),
                namespace@,
            ));
        }
    }
    proof {
        assert(block_view(out@) + Seq::<AstV>::empty() =~= block_view(out@));
    }
    out
}

} // verus!
