//! Code generation: lowering a resolved instruction sequence to C source
//! text.

use vstd::prelude::*;
use vstd::string::StringExecFns;
use crate::parser::AST;
use crate::parser::AstV;
use crate::parser::CodeBlock;
use crate::parser::ast_view;
use crate::parser::block_view;
use crate::parser::lemma_block_view;

verus! {

broadcast use vstd::std_specs::vec::group_vec_axioms;

/// The character of one decimal digit.
pub open spec fn dchar(d: int) -> char {
    if d == 0 {
        '0'
    } else if d == 1 {
        '1'
    } else if d == 2 {
        '2'
    } else if d == 3 {
        '3'
    } else if d == 4 {
        '4'
    } else if d == 5 {
        '5'
    } else if d == 6 {
        '6'
    } else if d == 7 {
        '7'
    } else if d == 8 {
        '8'
    } else {
        '9'
    }
}

/// The decimal text of a non-negative count, most significant digit
/// first.
pub open spec fn dec_seq(n: int) -> Seq<char>
    decreases n,
{
    if n < 10 {
        seq![dchar(n)]
    } else {
        dec_seq(n / 10) + seq![dchar(n % 10)]
    }
}

/// The C statement text of one instruction.
///
/// A negative count on an arithmetic or motion instruction is the
/// cell-indirection sentinel and emits the statement shape that reads
/// `*ptr` as the operand; macro-layer instructions surviving to code
/// generation emit nothing.
pub open spec fn gen_inst(a: AstV) -> Seq<char> {
    match a {
        AstV::Add(n) => if n >= 0 {
            "*ptr+="@ + dec_seq(n) + ";"@
        } else {
            "*ptr*=2;"@
        },
        AstV::Sub(n) => if n >= 0 {
            "*ptr-="@ + dec_seq(n) + ";"@
        } else {
            "*ptr=0;"@
        },
        AstV::Next(n) => if n >= 0 {
            "ptr=(ptr-memory+"@ + dec_seq(n) + ")%MEMORY_SIZE+memory;"@
        } else {
            "ptr=(ptr-memory+*ptr)%MEMORY_SIZE+memory;"@
        },
        AstV::Prev(n) => if n >= 0 {
            "ptr=(ptr-memory-"@ + dec_seq(n) + "+MEMORY_SIZE)%MEMORY_SIZE+memory;"@
        } else {
            "ptr=(ptr-memory-*ptr+MEMORY_SIZE)%MEMORY_SIZE+memory;"@
        },
        AstV::LoopStart => "while(*ptr){"@,
        AstV::LoopEnd => "}"@,
        AstV::PrintChar => "putchar(*ptr);"@,
        AstV::ReadChar => "*ptr=getchar();"@,
        AstV::PrintInt => "printf(\"%d\\n\",*ptr);"@,
        AstV::ReadInt => "scanf(\"%d\",ptr);"@,
        AstV::StorePointer => "*ptr=ptr-memory;"@,
        AstV::Jump => "ptr=*ptr%MEMORY_SIZE+memory;"@,
        AstV::JumpToZero => "ptr=memory;"@,
        _ => Seq::empty(),
    }
}

/// The statement text of the instructions from position `i` on.
pub open spec fn gen_from(s: Seq<AstV>, i: int) -> Seq<char>
    decreases s.len() - i,
{
    if i < 0 || i >= s.len() {
        Seq::empty()
    } else {
        gen_inst(s[i]) + gen_from(s, i + 1)
    }
}

/// The statement text of a whole instruction sequence.
pub open spec fn gen_block(s: Seq<AstV>) -> Seq<char> {
    gen_from(s, 0)
}

/// The text of one decimal digit.
fn digit_str(d: u32) -> (r: &'static str)
    requires
        d < 10,
    ensures
        r@ == seq![dchar(d as int)],
{
    match d {
        0 => {
            proof {
                reveal_strlit("0");
                assert("0"@ =~= seq![dchar(0)]);
            }
            "0"
        },
        1 => {
            proof {
                reveal_strlit("1");
                assert("1"@ =~= seq![dchar(1)]);
            }
            "1"
        },
        2 => {
            proof {
                reveal_strlit("2");
                assert("2"@ =~= seq![dchar(2)]);
            }
            "2"
        },
        3 => {
            proof {
                reveal_strlit("3");
                assert("3"@ =~= seq![dchar(3)]);
            }
            "3"
        },
        4 => {
            proof {
                reveal_strlit("4");
                assert("4"@ =~= seq![dchar(4)]);
            }
            "4"
        },
        5 => {
            proof {
                reveal_strlit("5");
                assert("5"@ =~= seq![dchar(5)]);
            }
            "5"
        },
        6 => {
            proof {
                reveal_strlit("6");
                assert("6"@ =~= seq![dchar(6)]);
            }
            "6"
        },
        7 => {
            proof {
                reveal_strlit("7");
                assert("7"@ =~= seq![dchar(7)]);
            }
            "7"
        },
        8 => {
            proof {
                reveal_strlit("8");
                assert("8"@ =~= seq![dchar(8)]);
            }
            "8"
        },
        _ => {
            proof {
                reveal_strlit("9");
                assert("9"@ =~= seq![dchar(9)]);
            }
            "9"
        },
    }
}

/// Append the decimal text of a count to the output.
fn append_dec(out: &mut String, n: u32)
    ensures
        final(out)@ == old(out)@ + dec_seq(n as int),
    decreases n,
{
    if n < 10 {
        out.append(digit_str(n));
    } else {
        append_dec(out, n / 10);
        out.append(digit_str(n % 10));
        proof {
            assert(old(out)@ + (dec_seq(n as int / 10) + seq![dchar(n as int % 10)]) =~= (old(
                out,
            )@ + dec_seq(n as int / 10)) + seq![dchar(n as int % 10)]);
        }
    }
}

/// Lowers a fully resolved instruction sequence into C source text: the
/// given boilerplate prologue, then one or more statements per
/// instruction per the fixed mapping, then the closing brace of the
/// generated `main` function.
pub fn generate_c(code: &CodeBlock, boilerplate: &str) -> (r: String)
    ensures
        r@ == boilerplate@ + gen_block(block_view(code@)) + "}"@,
{
    let ghost cv = block_view(code@);
    let mut out: String = boilerplate.to_owned();
    let mut index: usize = 0;
    proof {
        lemma_block_view(code@);
    }
    while index < code.len()
        invariant
            cv == block_view(code@),
            cv.len() == code@.len(),
            forall|j: int| 0 <= j < cv.len() ==> cv[j] == ast_view(code@[j]),
            index <= code@.len(),
            out@ + gen_from(cv, index as int) == boilerplate@ + gen_from(cv, 0),
        decreases code@.len() - index,
    {
        let ghost i0 = index as int;
        let ghost out0 = out@;
        proof {
            assert(gen_from(cv, i0) == gen_inst(cv[i0]) + gen_from(cv, i0 + 1));
        }
        match &code[index] {
            AST::Add(n) => {
                if *n >= 0 {
                    out.append("*ptr+=");
                    append_dec(&mut out, *n as u32);
                    out.append(";");
                    proof {
                        assert(out@ =~= out0 + gen_inst(cv[i0]));
                    }
                } else {
                    out.append("*ptr*=2;");
                }
            },
            AST::Sub(n) => {
                if *n >= 0 {
                    out.append("*ptr-=");
                    append_dec(&mut out, *n as u32);
                    out.append(";");
                    proof {
                        assert(out@ =~= out0 + gen_inst(cv[i0]));
                    }
                } else {
                    out.append("*ptr=0;");
                }
            },
            AST::Next(n) => {
                if *n >= 0 {
                    out.append("ptr=(ptr-memory+");
                    append_dec(&mut out, *n as u32);
                    out.append(")%MEMORY_SIZE+memory;");
                    proof {
                        assert(out@ =~= out0 + gen_inst(cv[i0]));
                    }
                } else {
                    out.append("ptr=(ptr-memory+*ptr)%MEMORY_SIZE+memory;");
                }
            },
            AST::Prev(n) => {
                if *n >= 0 {
                    out.append("ptr=(ptr-memory-");
                    append_dec(&mut out, *n as u32);
                    out.append("+MEMORY_SIZE)%MEMORY_SIZE+memory;");
                    proof {
                        assert(out@ =~= out0 + gen_inst(cv[i0]));
                    }
                } else {
                    out.append("ptr=(ptr-memory-*ptr+MEMORY_SIZE)%MEMORY_SIZE+memory;");
                }
            },
            AST::LoopStart => {
                out.append("while(*ptr){");
            },
            AST::LoopEnd => {
                out.append("}");
            },
            AST::PrintChar => {
                out.append("putchar(*ptr);");
            },
            AST::ReadChar => {
                out.append("*ptr=getchar();");
            },
            AST::PrintInt => {
                out.append("printf(\"%d\\n\",*ptr);");
            },
            AST::ReadInt => {
                out.append("scanf(\"%d\",ptr);");
            },
            AST::StorePointer => {
                out.append("*ptr=ptr-memory;");
            },
            AST::Jump => {
                out.append("ptr=*ptr%MEMORY_SIZE+memory;");
            },
            AST::JumpToZero => {
                out.append("ptr=memory;");
            },
            _ => {},
        }
        proof {
            assert(out@ + gen_from(cv, i0 + 1) =~= boilerplate@ + gen_from(cv, 0)) by {
                assert(out@ =~= out0 + gen_inst(cv[i0]));
                assert((out0 + gen_inst(cv[i0])) + gen_from(cv, i0 + 1) =~= out0 + (gen_inst(
                    cv[i0],
                ) + gen_from(cv, i0 + 1)));
            }
        }
        index = index + 1;
    }
    let ghost out_pre = out@;
    proof {
        assert(gen_from(cv, index as int) =~= Seq::<char>::empty());
        assert(out_pre + gen_from(cv, index as int) =~= out_pre);
        assert(out_pre =~= boilerplate@ + gen_from(cv, 0));
    }
    out.append("}");
    proof {
        assert(out@ =~= boilerplate@ + gen_block(block_view(code@)) + "}"@);
    }
    out
}

} // verus!
