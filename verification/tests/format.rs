use expansion_view::format::{generate_ranges, NeedsSpace, Ranges, TokenVisitor};
use expansion_view::range::{Position, Range};
use expansion_view::token::{Delimiter, Spacing, Span, TokenTree};

fn synthetic() -> Span {
    Span { file: None, start: Position { line: 0, column: 0 }, end: Position { line: 0, column: 0 } }
}

fn at(file: &str, l1: usize, c1: usize, l2: usize, c2: usize) -> Span {
    Span {
        file: Some(file.to_string()),
        start: Position { line: l1, column: c1 },
        end: Position { line: l2, column: c2 },
    }
}

fn ident(text: &str) -> TokenTree {
    TokenTree::Ident { text: text.to_string(), span: synthetic() }
}

fn literal(text: &str) -> TokenTree {
    TokenTree::Literal { text: text.to_string(), span: synthetic() }
}

fn punct(text: &str, spacing: Spacing) -> TokenTree {
    TokenTree::Punct { text: text.to_string(), span: synthetic(), spacing }
}

fn group(delimiter: Delimiter, stream: Vec<TokenTree>) -> TokenTree {
    TokenTree::Group { delimiter, stream, open: synthetic(), close: synthetic() }
}

fn function_tokens(with_semicolon: bool) -> Vec<TokenTree> {
    let mut body = vec![literal("42")];
    if with_semicolon {
        body.push(punct(";", Spacing::Alone));
    }
    vec![
        ident("fn"),
        ident("foo"),
        group(Delimiter::Parenthesis, vec![]),
        punct("-", Spacing::Joint),
        punct(">", Spacing::Alone),
        ident("i32"),
        group(Delimiter::Brace, body),
    ]
}

fn convert_span(span: proc_macro2::Span) -> Span {
    Span {
        file: span.local_file().map(|p| p.display().to_string()),
        start: Position { line: span.start().line, column: span.start().column },
        end: Position { line: span.end().line, column: span.end().column },
    }
}

fn convert(stream: proc_macro2::TokenStream) -> Vec<TokenTree> {
    let mut out = Vec::new();
    for tree in stream {
        out.push(match tree {
            proc_macro2::TokenTree::Group(g) => TokenTree::Group {
                delimiter: match g.delimiter() {
                    proc_macro2::Delimiter::Parenthesis => Delimiter::Parenthesis,
                    proc_macro2::Delimiter::Brace => Delimiter::Brace,
                    proc_macro2::Delimiter::Bracket => Delimiter::Bracket,
                    proc_macro2::Delimiter::None => Delimiter::Invisible,
                },
                stream: convert(g.stream()),
                open: convert_span(g.span_open()),
                close: convert_span(g.span_close()),
            },
            proc_macro2::TokenTree::Ident(i) => {
                TokenTree::Ident { text: i.to_string(), span: convert_span(i.span()) }
            }
            proc_macro2::TokenTree::Punct(p) => TokenTree::Punct {
                text: p.to_string(),
                span: convert_span(p.span()),
                spacing: match p.spacing() {
                    proc_macro2::Spacing::Alone => Spacing::Alone,
                    proc_macro2::Spacing::Joint => Spacing::Joint,
                },
            },
            proc_macro2::TokenTree::Literal(l) => {
                TokenTree::Literal { text: l.to_string(), span: convert_span(l.span()) }
            }
        });
    }
    out
}

#[test]
fn it_works() {
    let x: proc_macro2::TokenStream = "fn foo() -> i32 {\n42\n}\n".parse().unwrap();
    let ranges = generate_ranges(&convert(x));
    assert_eq!(ranges.formatted_text(), "fn foo()-> i32{\n    42\n}\n");
}

#[test]
fn parsed_tokens_match_hand_built_ones() {
    let x: proc_macro2::TokenStream = "fn foo() -> i32 { 42; }".parse().unwrap();
    let parsed = generate_ranges(&convert(x));
    let built = generate_ranges(&function_tokens(true));
    assert_eq!(parsed.formatted_text(), built.formatted_text());
}

#[test]
fn function_layout() {
    let ranges = generate_ranges(&function_tokens(true));
    let text = ranges.formatted_text();
    assert_eq!(text, "fn foo()-> i32{\n    42;\n}\n");
    assert!(text.contains("foo("));
    assert!(text.contains("\n    42;\n"));
    assert!(text.ends_with("\n}\n"));
    assert!(text.contains("->"));
}

#[test]
fn function_chunks() {
    let ranges = generate_ranges(&function_tokens(true));
    let texts: Vec<&str> = ranges.generated.iter().map(|c| c.0.as_str()).collect();
    assert_eq!(
        texts,
        vec![
            "fn", " ", "foo", "(", ")", "-", ">", " ", "i32", "{", "\n", "    ", "42", ";", "\n",
            "}", "\n"
        ]
    );
    assert!(ranges.generated.iter().all(|c| c.1.is_none()));
    assert!(ranges.sources.is_empty());
    assert!(ranges.ranges.is_empty());
}

#[test]
fn formatting_is_repeatable() {
    let a = generate_ranges(&function_tokens(true));
    let b = generate_ranges(&function_tokens(true));
    assert_eq!(a.generated, b.generated);
    assert_eq!(a.formatted_text(), b.formatted_text());
    let joined: String = a.generated.iter().map(|c| c.0.clone()).collect();
    assert_eq!(a.formatted_text(), joined);
}

#[test]
fn nested_braces_indent_by_four_per_level() {
    let inner = group(Delimiter::Brace, vec![ident("x")]);
    let outer = group(Delimiter::Brace, vec![inner]);
    let ranges = generate_ranges(&vec![outer]);
    assert_eq!(ranges.formatted_text(), "{\n    {\n        x\n    }\n}\n");
    let pads: Vec<&str> = ranges
        .generated
        .iter()
        .map(|c| c.0.as_str())
        .filter(|t| !t.is_empty() && t.chars().all(|c| c == ' '))
        .collect();
    assert_eq!(pads, vec!["    ", "        ", "    "]);
}

#[test]
fn invisible_group_shows_no_bracket() {
    let g = group(Delimiter::Invisible, vec![ident("a"), ident("b")]);
    let ranges = generate_ranges(&vec![g, group(Delimiter::Bracket, vec![literal("1")])]);
    assert_eq!(ranges.formatted_text(), "a b[ 1]");
}

#[test]
fn punctuation_spacing() {
    let tokens = vec![
        ident("a"),
        punct("+", Spacing::Alone),
        ident("b"),
        punct("=", Spacing::Joint),
        punct("=", Spacing::Alone),
        punct("!", Spacing::Alone),
        ident("c"),
    ];
    assert_eq!(generate_ranges(&tokens).formatted_text(), "a+ b== ! c");
}

#[test]
fn equal_ranges_share_an_id() {
    let tokens = vec![
        TokenTree::Ident { text: "a".to_string(), span: at("m.rs", 1, 0, 1, 1) },
        TokenTree::Ident { text: "b".to_string(), span: at("m.rs", 1, 2, 1, 3) },
        TokenTree::Ident { text: "c".to_string(), span: at("m.rs", 1, 0, 1, 1) },
        TokenTree::Ident { text: "d".to_string(), span: at("n.rs", 1, 0, 1, 1) },
        TokenTree::Ident { text: "e".to_string(), span: synthetic() },
    ];
    let ranges = generate_ranges(&tokens);
    let ids: Vec<Option<usize>> =
        ranges.generated.iter().filter(|c| c.0 != " ").map(|c| c.1).collect();
    assert_eq!(ids, vec![Some(0), Some(1), Some(0), Some(2), None]);
    assert_eq!(ranges.sources, vec!["m.rs".to_string(), "n.rs".to_string()]);
    assert_eq!(ranges.ranges.len(), 3);
    assert_eq!(
        ranges.ranges[2],
        Range {
            source: 1,
            start: Position { line: 1, column: 0 },
            end: Position { line: 1, column: 1 }
        }
    );
}

#[test]
fn intern_hands_out_ids_in_order() {
    let mut table = Ranges::new();
    let r = |c: usize| Range {
        source: 0,
        start: Position { line: 1, column: c },
        end: Position { line: 1, column: c + 1 },
    };
    assert_eq!(table.intern_source(&"a.rs".to_string()), 0);
    assert_eq!(table.intern_source(&"b.rs".to_string()), 1);
    assert_eq!(table.intern_source(&"a.rs".to_string()), 0);
    assert_eq!(table.intern(r(4)), 0);
    assert_eq!(table.intern(r(9)), 1);
    assert_eq!(table.intern(r(4)), 0);
    assert_eq!(table.intern(r(2)), 2);
    assert_eq!(table.ranges.len(), 3);
    assert_eq!(table.sources.len(), 2);
}

#[test]
fn visitor_steps() {
    let mut v = TokenVisitor::new();
    assert!(v.newline);
    assert_eq!(v.indent, 0);
    assert_eq!(v.needs_space, NeedsSpace::Never);
    v.add_str("x", Some(7));
    assert_eq!(v.ranges.generated, vec![("x".to_string(), Some(7))]);
    v.visit_str("", &at("a.rs", 1, 0, 1, 1));
    assert_eq!(v.ranges.generated.len(), 1);
    assert!(v.ranges.ranges.is_empty());
    v.visit_str("{", &synthetic());
    assert_eq!(v.indent, 1);
    assert!(v.newline);
    v.visit_str("}", &synthetic());
    assert_eq!(v.indent, 0);
    v.visit_str("}", &synthetic());
    assert_eq!(v.indent, 0);
    assert_eq!(v.add_span(&synthetic()), None);
    assert_eq!(v.add_span(&at("a.rs", 1, 0, 1, 1)), Some(0));
    assert_eq!(v.add_span(&at("a.rs", 1, 0, 1, 1)), Some(0));
    assert_eq!(v.add_span(&at("a.rs", 1, 0, 1, 2)), Some(1));
}

#[test]
fn word_after_semicolon_starts_the_line() {
    let tokens = vec![ident("a"), punct(";", Spacing::Alone), ident("b")];
    let ranges = generate_ranges(&tokens);
    assert_eq!(ranges.formatted_text(), "a;\nb");
    let texts: Vec<&str> = ranges.generated.iter().map(|c| c.0.as_str()).collect();
    assert_eq!(texts, vec!["a", ";", "\n", "b"]);
}

#[test]
fn word_after_semicolon_in_a_block_is_indented_only() {
    let body = vec![
        ident("a"),
        punct(";", Spacing::Alone),
        ident("b"),
        punct(";", Spacing::Alone),
        punct("!", Spacing::Alone),
        ident("c"),
    ];
    let ranges = generate_ranges(&vec![group(Delimiter::Brace, body)]);
    assert_eq!(ranges.formatted_text(), "{\n    a;\n    b;\n    ! c\n}\n");
    let texts: Vec<&str> = ranges.generated.iter().map(|c| c.0.as_str()).collect();
    assert_eq!(
        texts,
        vec![
            "{", "\n", "    ", "a", ";", "\n", "    ", "b", ";", "\n", "    ", "!", " ", "c",
            "\n", "}", "\n"
        ]
    );
}

#[test]
fn parsed_statements_start_their_lines() {
    let x: proc_macro2::TokenStream = "a; b".parse().unwrap();
    assert_eq!(generate_ranges(&convert(x)).formatted_text(), "a;\nb");
}
