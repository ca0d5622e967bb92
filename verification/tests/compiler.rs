use funcbf::generator::generate_c;
use funcbf::parser::parse;
use funcbf::parser::ParseError;
use funcbf::parser::AST;
use funcbf::preprocessor::choose_module_text;
use funcbf::preprocessor::first_include;
use funcbf::preprocessor::module_candidate_paths;
use funcbf::preprocessor::resolve_symbols;
use funcbf::preprocessor::splice_include;
use funcbf::preprocessor::PreprocessorConfig;
use funcbf::tokenizer::get_char_in_string;
use funcbf::tokenizer::tokenize;
use funcbf::tokenizer::LexError;
use funcbf::tokenizer::Token;

fn parsed(src: &str) -> Vec<AST> {
    parse(&tokenize(src.to_string()).unwrap()).unwrap()
}

fn pipeline(src: &str) -> Vec<AST> {
    resolve_symbols(&parsed(src))
}

#[test]
fn tokenize_symbol_table() {
    let toks = tokenize("+-><[].,;:".to_string()).unwrap();
    assert_eq!(
        toks,
        vec![
            Token::Add,
            Token::Sub,
            Token::Next,
            Token::Prev,
            Token::LBracket,
            Token::RBracket,
            Token::PrintChar,
            Token::ReadChar,
            Token::ReadInt,
            Token::PrintInt,
        ]
    );
    let toks2 = tokenize("$@*^%!#&".to_string()).unwrap();
    assert_eq!(
        toks2,
        vec![
            Token::FunctionDefSymbol,
            Token::FunctionCallSymbol,
            Token::RepeatCell,
            Token::Jump,
            Token::StorePointer,
            Token::JumpToZero,
            Token::NamespaceSymbol,
            Token::IncludeSymbol,
        ]
    );
}

#[test]
fn tokenize_double_colon() {
    assert_eq!(
        tokenize("a::b".to_string()).unwrap(),
        vec![
            Token::Identifier("a".to_string()),
            Token::DoubleColon,
            Token::Identifier("b".to_string()),
        ]
    );
    assert_eq!(tokenize(":".to_string()).unwrap(), vec![Token::PrintInt]);
    assert_eq!(
        tokenize(":::".to_string()).unwrap(),
        vec![Token::DoubleColon, Token::PrintInt]
    );
}

#[test]
fn tokenize_identifier_and_digit_runs() {
    assert_eq!(
        tokenize("ab_c1 23x".to_string()).unwrap(),
        vec![
            Token::Identifier("ab_c".to_string()),
            Token::Repeat(1),
            Token::Repeat(23),
            Token::Identifier("x".to_string()),
        ]
    );
}

#[test]
fn tokenize_whitespace_and_unknown_ignored() {
    assert_eq!(
        tokenize(" + \n\t+ ".to_string()).unwrap(),
        vec![Token::Add, Token::Add]
    );
    assert_eq!(tokenize("+?=)".to_string()).unwrap(), vec![Token::Add]);
    assert_eq!(tokenize("".to_string()).unwrap(), vec![]);
}

#[test]
fn tokenize_number_limits() {
    assert_eq!(
        tokenize("2147483647".to_string()).unwrap(),
        vec![Token::Repeat(2147483647)]
    );
    assert_eq!(
        tokenize("2147483648".to_string()),
        Err(LexError::NumberFormat)
    );
    assert_eq!(
        tokenize("99999999999999999999".to_string()),
        Err(LexError::NumberFormat)
    );
}

#[test]
fn get_char_in_string_in_and_out_of_bounds() {
    let s = "abc".to_string();
    assert_eq!(get_char_in_string(&s, 0), 'a');
    assert_eq!(get_char_in_string(&s, 2), 'c');
    assert_eq!(get_char_in_string(&s, 3), '\0');
    assert_eq!(get_char_in_string(&s, 100), '\0');
}

#[test]
fn parse_repeat_counts() {
    assert_eq!(parsed("5+"), vec![AST::Add(5)]);
    assert_eq!(parsed("*+"), vec![AST::Add(-1)]);
    assert_eq!(parsed("+"), vec![AST::Add(1)]);
    assert_eq!(parsed("5>"), vec![AST::Next(5)]);
    assert_eq!(parsed("*<"), vec![AST::Prev(-1)]);
    assert_eq!(parsed("3-"), vec![AST::Sub(3)]);
}

#[test]
fn parse_repeat_keeps_full_width() {
    assert_eq!(parsed("300+"), vec![AST::Add(300)]);
    assert_eq!(parsed("200-"), vec![AST::Sub(200)]);
    assert_eq!(parsed("2147483647+"), vec![AST::Add(2147483647)]);
}

#[test]
fn generate_full_width_counts() {
    assert_eq!(generate_c(&pipeline("300+"), ""), "*ptr+=300;}");
    assert_eq!(generate_c(&pipeline("200-"), ""), "*ptr-=200;}");
}

#[test]
fn parse_repeat_survives_loop_tokens() {
    assert_eq!(
        parsed("5[+]"),
        vec![AST::LoopStart, AST::Add(5), AST::LoopEnd]
    );
}

#[test]
fn parse_function_definition() {
    assert_eq!(
        parsed("$f+-$"),
        vec![AST::FunctionDef(
            "f".to_string(),
            vec![AST::Add(1), AST::Sub(1)]
        )]
    );
}

#[test]
fn parse_function_definition_errors() {
    let toks = tokenize("$".to_string()).unwrap();
    assert_eq!(parse(&toks), Err(ParseError::ExpectedIdentifier));
    let toks = tokenize("$5$".to_string()).unwrap();
    assert_eq!(parse(&toks), Err(ParseError::ExpectedIdentifier));
    let toks = tokenize("$f+".to_string()).unwrap();
    assert_eq!(parse(&toks), Err(ParseError::ExpectedEndOfFunction));
    let toks = tokenize("$f$".to_string()).unwrap();
    assert_eq!(parse(&toks), Err(ParseError::ExpectedEndOfFunction));
}

#[test]
fn parse_function_calls() {
    assert_eq!(parsed("@f"), vec![AST::FunctionCall("f".to_string())]);
    assert_eq!(
        parsed("@ns::f"),
        vec![AST::FunctionCall("ns::f".to_string())]
    );
    let toks = tokenize("@a::+".to_string()).unwrap();
    assert_eq!(parse(&toks), Err(ParseError::ExpectedIdentifier));
    // a call sigil without an identifier silently consumes the next token
    assert_eq!(parsed("@+"), vec![]);
}

#[test]
fn parse_namespace_and_inclusion() {
    assert_eq!(parsed("#ns"), vec![AST::NamespaceDef("ns".to_string())]);
    assert_eq!(parsed("&m"), vec![AST::ModuleInclude("m".to_string())]);
    let toks = tokenize("&".to_string()).unwrap();
    assert_eq!(parse(&toks), Err(ParseError::ExpectedIdentifier));
    let toks = tokenize("&+".to_string()).unwrap();
    assert_eq!(parse(&toks), Err(ParseError::ExpectedIdentifier));
    // a namespace sigil without an identifier silently consumes the next token
    assert_eq!(parsed("#+"), vec![]);
}

#[test]
fn resolve_function_roundtrip() {
    assert_eq!(pipeline("$f+->$@_main::f"), pipeline("+->"));
    assert_eq!(
        pipeline("$f+$@_main::f"),
        vec![AST::Add(1)]
    );
}

#[test]
fn resolve_roundtrip_with_surrounding_instructions() {
    assert_eq!(
        pipeline("$f+$>@_main::f<"),
        vec![AST::Next(1), AST::Add(1), AST::Prev(1)]
    );
}

#[test]
fn resolve_namespace_scoping() {
    assert_eq!(pipeline("#ns$f+$@ns::f"), vec![AST::Add(1)]);
    assert_eq!(pipeline("#ns$f+$@f"), vec![]);
}

#[test]
fn resolve_unresolved_call_is_silent() {
    assert_eq!(pipeline("@missing"), vec![]);
}

#[test]
fn resolve_later_definition_wins() {
    assert_eq!(pipeline("$f+$$f-$@_main::f"), vec![AST::Sub(1)]);
}

#[test]
fn resolve_call_before_definition_is_silent() {
    assert_eq!(pipeline("@_main::f$f+$"), vec![]);
}

#[test]
fn resolve_drops_definitions_and_keeps_the_rest() {
    assert_eq!(
        pipeline("+$f-$>"),
        vec![AST::Add(1), AST::Next(1)]
    );
}

#[test]
fn choose_module_last_directory_wins() {
    let reads = vec![Some("+".to_string()), Some("-".to_string())];
    assert_eq!(choose_module_text(&reads), Some("-".to_string()));
    let reads = vec![Some("+".to_string()), None];
    assert_eq!(choose_module_text(&reads), Some("+".to_string()));
    let reads: Vec<Option<String>> = vec![None, None];
    assert_eq!(choose_module_text(&reads), None);
    let reads: Vec<Option<String>> = vec![];
    assert_eq!(choose_module_text(&reads), None);
    // an empty file in the last readable directory counts as not found
    let reads = vec![Some("+".to_string()), Some("".to_string())];
    assert_eq!(choose_module_text(&reads), None);
}

#[test]
fn include_is_found_and_spliced() {
    let code = parsed("&m+");
    let (at, name) = first_include(&code).unwrap();
    assert_eq!(at, 0);
    assert_eq!(name, "m".to_string());
    let module = parsed("-");
    let spliced = splice_include(&code, at, &module);
    assert_eq!(spliced, vec![AST::Sub(1), AST::Add(1)]);
    assert_eq!(first_include(&module), None);
}

#[test]
fn module_candidate_paths_append_name_and_suffix() {
    let config = PreprocessorConfig {
        include_dirs: vec!["a/".to_string(), "b/".to_string()],
    };
    let paths = module_candidate_paths(&config, "m");
    assert_eq!(paths, vec!["a/m.bf".to_string(), "b/m.bf".to_string()]);
}

#[test]
fn generate_end_to_end() {
    let code = pipeline("3+.");
    let out = generate_c(&code, "BASE{");
    assert_eq!(out, "BASE{*ptr+=3;putchar(*ptr);}");
    let code = pipeline("+++.");
    let out = generate_c(&code, "BASE{");
    assert_eq!(out, "BASE{*ptr+=1;*ptr+=1;*ptr+=1;putchar(*ptr);}");
}

#[test]
fn generate_cell_indirection_sentinels() {
    assert_eq!(generate_c(&pipeline("*+"), ""), "*ptr*=2;}");
    assert_eq!(generate_c(&pipeline("*-"), ""), "*ptr=0;}");
    assert_eq!(
        generate_c(&pipeline("*>"), ""),
        "ptr=(ptr-memory+*ptr)%MEMORY_SIZE+memory;}"
    );
    assert_eq!(
        generate_c(&pipeline("*<"), ""),
        "ptr=(ptr-memory-*ptr+MEMORY_SIZE)%MEMORY_SIZE+memory;}"
    );
}

#[test]
fn generate_statement_mapping() {
    assert_eq!(
        generate_c(&pipeline("2>"), ""),
        "ptr=(ptr-memory+2)%MEMORY_SIZE+memory;}"
    );
    assert_eq!(
        generate_c(&pipeline("13<"), ""),
        "ptr=(ptr-memory-13+MEMORY_SIZE)%MEMORY_SIZE+memory;}"
    );
    assert_eq!(generate_c(&pipeline("[]"), ""), "while(*ptr){}}");
    assert_eq!(generate_c(&pipeline(","), ""), "*ptr=getchar();}");
    assert_eq!(generate_c(&pipeline(":"), ""), "printf(\"%d\\n\",*ptr);}");
    assert_eq!(generate_c(&pipeline(";"), ""), "scanf(\"%d\",ptr);}");
    assert_eq!(generate_c(&pipeline("%"), ""), "*ptr=ptr-memory;}");
    assert_eq!(
        generate_c(&pipeline("^"), ""),
        "ptr=*ptr%MEMORY_SIZE+memory;}"
    );
    assert_eq!(generate_c(&pipeline("!"), ""), "ptr=memory;}");
}

#[test]
fn generate_skips_macro_layer_leftovers() {
    // an unresolved inclusion or namespace marker surviving to the
    // generator emits nothing
    let code = parsed("&m#ns+");
    assert_eq!(generate_c(&code, ""), "*ptr+=1;}");
}

#[test]
fn arithmetic_program_compiles_whole() {
    let code = pipeline("[->+<]");
    let out = generate_c(&code, "B{");
    assert_eq!(
        out,
        "B{while(*ptr){*ptr-=1;ptr=(ptr-memory+1)%MEMORY_SIZE+memory;*ptr+=1;ptr=(ptr-memory-1+MEMORY_SIZE)%MEMORY_SIZE+memory;}}"
    );
}

#[test]
fn identifiers_use_real_alphabetic_classification() {
    // would fail if the alphabetic test behind identifier scanning were
    // wrong: '1' must not extend the run, 'h' must start one
    assert_eq!(
        tokenize("hello".to_string()).unwrap(),
        vec![Token::Identifier("hello".to_string())]
    );
    assert_eq!(
        tokenize("1h".to_string()).unwrap(),
        vec![Token::Repeat(1), Token::Identifier("h".to_string())]
    );
}
