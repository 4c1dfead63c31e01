use robber::tokens::{expand_includes, trim_quotes_of, Delimiter, TokenTree};

fn ident(s: &str) -> TokenTree {
    TokenTree::Ident(s.to_string())
}

fn lit(s: &str) -> TokenTree {
    TokenTree::Literal(s.to_string())
}

fn invocation(path: &str) -> Vec<TokenTree> {
    vec![
        ident("include_str"),
        TokenTree::Punct('!', false),
        TokenTree::Group(Delimiter::Parenthesis, vec![lit(&format!("\"{}\"", path))]),
    ]
}

fn files() -> Vec<(String, String)> {
    vec![("a.txt".to_string(), "hello".to_string())]
}

#[test]
fn inclusion_replaced_by_contents() {
    let mut toks = vec![ident("let"), ident("s"), TokenTree::Punct('=', false)];
    toks.extend(invocation("a.txt"));
    toks.push(TokenTree::Punct(';', false));
    let out = expand_includes(&toks, &files()).unwrap();
    assert_eq!(
        out,
        vec![ident("let"), ident("s"), TokenTree::Punct('=', false), lit("\"hello\""), TokenTree::Punct(';', false)]
    );
    assert!(!out.contains(&ident("include_str")));
}

#[test]
fn inclusion_inside_nested_groups() {
    let inner = TokenTree::Group(Delimiter::Bracket, invocation("a.txt"));
    let toks = vec![ident("f"), TokenTree::Group(Delimiter::Brace, vec![inner])];
    let out = expand_includes(&toks, &files()).unwrap();
    let expected = vec![
        ident("f"),
        TokenTree::Group(
            Delimiter::Brace,
            vec![TokenTree::Group(Delimiter::Bracket, vec![lit("\"hello\"")])],
        ),
    ];
    assert_eq!(out, expected);
}

#[test]
fn contents_are_escaped_as_a_string_literal() {
    let toks = invocation("q.txt");
    let table = vec![("q.txt".to_string(), "say \"hi\"\n".to_string())];
    let out = expand_includes(&toks, &table).unwrap();
    assert_eq!(out, vec![lit("\"say \\\"hi\\\"\\n\"")]);
}

#[test]
fn missing_file_is_reported() {
    let toks = invocation("missing.txt");
    assert_eq!(expand_includes(&toks, &files()), Err("missing.txt".to_string()));
}

#[test]
fn name_without_bang_passes_through() {
    let toks = vec![
        ident("include_str"),
        TokenTree::Punct('.', false),
        TokenTree::Group(Delimiter::Parenthesis, vec![lit("\"a.txt\"")]),
    ];
    let out = expand_includes(&toks, &files()).unwrap();
    assert_eq!(out, toks);
}

#[test]
fn stream_without_inclusion_is_unchanged() {
    let toks = vec![
        ident("fn"),
        ident("main"),
        TokenTree::Group(Delimiter::Parenthesis, vec![]),
        TokenTree::Group(Delimiter::Brace, vec![ident("x"), TokenTree::Punct('!', false), lit("1")]),
    ];
    assert_eq!(expand_includes(&toks, &vec![]).unwrap(), toks);
}

#[test]
fn group_without_string_literal_is_no_invocation() {
    let toks = vec![
        ident("include_str"),
        TokenTree::Punct('!', false),
        TokenTree::Group(Delimiter::Parenthesis, vec![ident("path")]),
    ];
    assert_eq!(expand_includes(&toks, &files()).unwrap(), toks);
}

#[test]
fn quotes_trimmed_on_both_ends() {
    assert_eq!(trim_quotes_of("\"a.txt\""), "a.txt");
    assert_eq!(trim_quotes_of("\"\"x\"\""), "x");
    assert_eq!(trim_quotes_of("\"\"\""), "");
    assert_eq!(trim_quotes_of("plain"), "plain");
}
