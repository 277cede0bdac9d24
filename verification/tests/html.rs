use expansion_view::format::generate_ranges;
use expansion_view::html::{
    assemble, class_list_string, generate_html, generate_html_parts, generated_parts,
};
use expansion_view::range::Position;
use expansion_view::source::SourceFile;
use expansion_view::token::{Span, TokenTree};

fn part(text: &str, ids: Vec<usize>) -> (String, Vec<usize>) {
    (text.to_string(), ids)
}

fn ident_at(text: &str, file: &str, c1: usize, c2: usize) -> TokenTree {
    TokenTree::Ident {
        text: text.to_string(),
        span: Span {
            file: Some(file.to_string()),
            start: Position { line: 1, column: c1 },
            end: Position { line: 1, column: c2 },
        },
    }
}

#[test]
fn angle_bracket_is_escaped() {
    let html = generate_html_parts(&vec![part("<", vec![])]);
    assert_eq!(html, "<div><span class=\"\">&lt;</span></div>");
    let inner = &html["<div><span class=\"\">".len()..html.len() - "</span></div>".len()];
    assert!(!inner.contains('<'));
}

#[test]
fn ampersand_and_greater_than_are_escaped() {
    let html = generate_html_parts(&vec![part("a > b && c", vec![12])]);
    assert_eq!(html, "<div><span class=\"c12\">a &gt; b &amp;&amp; c</span></div>");
}

#[test]
fn quotes_are_escaped() {
    let html = generate_html_parts(&vec![part("\"a\" 'b'", vec![])]);
    assert_eq!(html, "<div><span class=\"\">&quot;a&quot; &#x27;b&#x27;</span></div>");
}

#[test]
fn newline_starts_a_new_block() {
    let html = generate_html_parts(&vec![part("a", vec![0]), part("\n", vec![3]), part("b", vec![])]);
    assert_eq!(
        html,
        "<div><span class=\"c0\">a</span></div><div><span class=\"\">b</span></div>"
    );
    assert_eq!(generate_html_parts(&Vec::new()), "<div></div>");
}

#[test]
fn classes_are_joined_by_spaces() {
    assert_eq!(class_list_string(&vec![]), "");
    assert_eq!(class_list_string(&vec![0]), "c0");
    assert_eq!(class_list_string(&vec![10, 7, 305]), "c10 c7 c305");
}

#[test]
fn template_markers_are_replaced() {
    assert_eq!(assemble("[{LEFT}|{RIGHT}|{LEFT}]", "l", "r"), "[l|r|l]");
    assert_eq!(assemble("{LEFT}", "{RIGHT}", "r"), "r");
    assert_eq!(assemble("none", "l", "r"), "none");
}

#[test]
fn generated_chunks_carry_their_id_as_a_list() {
    let ranges = generate_ranges(&vec![ident_at("a", "m.rs", 0, 1), ident_at("b", "m.rs", 2, 3)]);
    assert_eq!(
        generated_parts(&ranges),
        vec![part("a", vec![0]), part(" ", vec![]), part("b", vec![1])]
    );
}

#[test]
fn document_links_both_sides() {
    let tokens = vec![ident_at("a", "m.rs", 0, 1), ident_at("b", "m.rs", 2, 3)];
    let files = vec![SourceFile { path: "m.rs".to_string(), text: "x <y\nrest\n".to_string() }];
    let html = generate_html(&tokens, &files, "L={LEFT};R={RIGHT}");
    let left = "<div><span class=\"c0\">a</span><span class=\"\"> </span><span class=\"c1\">b</span></div>";
    let right = "<div></div><div><span class=\"\">//======================================</span>\
</div><div><span class=\"\">// </span><span class=\"\">m.rs</span>\
</div><div><span class=\"\">//======================================</span>\
</div><div><span class=\"c0\">x</span><span class=\"\"> </span><span class=\"c1\">&lt;</span>\
<span class=\"\">y</span></div><div></div>";
    assert_eq!(html, format!("L={};R={}", left, right));
}

#[test]
fn document_without_readable_files_keeps_the_generated_side() {
    let tokens = vec![ident_at("a", "m.rs", 0, 1), ident_at("b", "m.rs", 2, 3)];
    let html = generate_html(&tokens, &Vec::new(), "L={LEFT};R={RIGHT}");
    let left = "<div><span class=\"c0\">a</span><span class=\"\"> </span><span class=\"c1\">b</span></div>";
    assert_eq!(html, format!("L={};R=<div></div>", left));
}
