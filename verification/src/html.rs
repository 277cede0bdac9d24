//! Rendering of chunk sequences into markup, and the whole document.

use vstd::prelude::*;
use vstd::string::StringExecFns;
use crate::format::{chunks, generate_ranges, same_text, spec_generate, Ranges};
use crate::source::{load_original_source, parts_view, spec_load, SourceFile};
use crate::token::TokenTree;

verus! {

/// What one character becomes in markup text: `&`, `<`, `>` and the two
/// quotes become their entities, any other character stays.
pub open spec fn escape_char(c: char) -> Seq<char> {
    if c == '&' {
        seq!['&', 'a', 'm', 'p', ';']
    } else if c == '<' {
        seq!['&', 'l', 't', ';']
    } else if c == '>' {
        seq!['&', 'g', 't', ';']
    } else if c == '"' {
        seq!['&', 'q', 'u', 'o', 't', ';']
    } else if c == '\'' {
        seq!['&', '#', 'x', '2', '7', ';']
    } else {
        seq![c]
    }
}

/// A text with each character escaped.
pub open spec fn escape_text(s: Seq<char>) -> Seq<char>
    decreases s.len(),
{
    if s.len() == 0 {
        Seq::empty()
    } else {
        escape_text(s.drop_last()) + escape_char(s.last())
    }
}

/// Escaped text holds no angle bracket and no quote.
pub proof fn lemma_escaped_text_is_inert(s: Seq<char>)
    ensures
        forall|i: int|
            0 <= i < escape_text(s).len() ==> escape_text(s)[i] != '<' && escape_text(s)[i] != '>'
                && escape_text(s)[i] != '"' && escape_text(s)[i] != '\'',
    decreases s.len(),
{
    if s.len() > 0 {
        lemma_escaped_text_is_inert(s.drop_last());
        let head = escape_text(s.drop_last());
        let tail = escape_char(s.last());
        assert forall|i: int| 0 <= i < escape_text(s).len() implies escape_text(s)[i] != '<'
            && escape_text(s)[i] != '>' && escape_text(s)[i] != '"' && escape_text(s)[i] != '\'' by {
            if i < head.len() {
                assert(escape_text(s)[i] == head[i]);
            } else {
                assert(escape_text(s)[i] == tail[i - head.len()]);
            }
        }
    }
}

/// The character of a decimal digit.
pub open spec fn digit_char(d: nat) -> char {
    if d == 0 {
        '0'
    } else if d == 1 {
        '1'
    } else if d == 2 {
        '2'
    } else if d == 3 {
        '3'
    } else if d == 4 {
        '4'
    } else if d == 5 {
        '5'
    } else if d == 6 {
        '6'
    } else if d == 7 {
        '7'
    } else if d == 8 {
        '8'
    } else {
        '9'
    }
}

/// A number in decimal, without leading zeros.
pub open spec fn decimal_digits(n: nat) -> Seq<char>
    decreases n,
{
    if n < 10 {
        seq![digit_char(n)]
    } else {
        decimal_digits(n / 10).push(digit_char(n % 10))
    }
}

/// `text` with every occurrence of the non-empty `from`, found from left to
/// right and without overlap, replaced by `to`.
pub open spec fn replace_all(text: Seq<char>, from: Seq<char>, to: Seq<char>) -> Seq<char>
    decreases text.len(),
{
    if from.len() == 0 || text.len() < from.len() {
        text
    } else if text.subrange(0, from.len() as int) == from {
        to + replace_all(text.skip(from.len() as int), from, to)
    } else {
        seq![text[0]] + replace_all(text.skip(1), from, to)
    }
}

/// Calls `html_escape::encode_quoted_attribute`. Believed, not proved: the
/// result is the text with `&`, `<`, `>`, `"` and `'` replaced by `&amp;`,
/// `&lt;`, `&gt;`, `&quot;` and `&#x27;`, and every other character kept.
#[verifier::external_body]
fn escape(text: &str) -> (r: String)
    ensures
        r@ == escape_text(text@),
{
    html_escape::encode_quoted_attribute(text).into_owned()
}

/// Calls `to_string` of the standard library on an unsigned integer.
/// Believed, not proved: the result is the number in decimal, without
/// leading zeros.
#[verifier::external_body]
fn decimal_string(n: usize) -> (r: String)
    ensures
        r@ == decimal_digits(n as nat),
{
    n.to_string()
}

/// Calls `str::replace` of the standard library with a non-empty pattern.
/// Believed, not proved: every occurrence of the pattern, found from left
/// to right and without overlap, is replaced.
#[verifier::external_body]
fn replace_marker(text: &str, from: &str, to: &str) -> (r: String)
    requires
        from@.len() > 0,
    ensures
        r@ == replace_all(text@, from@, to@),
{
    text.replace(from, to)
}

/// Whether a character is none of those that markup is made of.
pub open spec fn inert_char(c: char) -> bool {
    c != '<' && c != '>' && c != '&' && c != '"' && c != '\''
}

/// Whether a text holds no character that markup is made of.
pub open spec fn inert(s: Seq<char>) -> bool {
    forall|i: int| 0 <= i < s.len() ==> inert_char(#[trigger] s[i])
}

/// A number in decimal holds no character that markup is made of.
pub proof fn lemma_decimal_is_inert(n: nat)
    ensures
        inert(decimal_digits(n)),
    decreases n,
{
    if n >= 10 {
        lemma_decimal_is_inert(n / 10);
        let head = decimal_digits(n / 10);
        assert forall|i: int| 0 <= i < decimal_digits(n).len() implies inert_char(
            #[trigger] decimal_digits(n)[i],
        ) by {
            if i < head.len() {
                assert(decimal_digits(n)[i] == head[i]);
            }
        }
    }
}

/// The classes of a unit hold no character that markup is made of, so
/// that the class attribute ends where its closing quote stands.
pub proof fn lemma_class_list_is_inert(ids: Seq<usize>)
    ensures
        inert(class_list(ids)),
    decreases ids.len(),
{
    reveal_strlit("c");
    reveal_strlit(" ");
    if ids.len() > 0 {
        let name = class_name(ids.last());
        lemma_decimal_is_inert(ids.last() as nat);
        let digits = decimal_digits(ids.last() as nat);
        assert forall|i: int| 0 <= i < name.len() implies inert_char(#[trigger] name[i]) by {
            if i > 0 {
                assert(name[i] == digits[i - 1]);
            }
        }
        if ids.len() > 1 {
            lemma_class_list_is_inert(ids.drop_last());
            let head = class_list(ids.drop_last());
            let all = class_list(ids);
            assert forall|i: int| 0 <= i < all.len() implies inert_char(#[trigger] all[i]) by {
                if i < head.len() {
                    assert(all[i] == head[i]);
                } else if i > head.len() {
                    assert(all[i] == name[i - head.len() - 1]);
                }
            }
        } else {
            assert(ids[0] == ids.last());
        }
    }
}

/// The class of one identifier: the letter `c` and the number.
pub open spec fn class_name(id: usize) -> Seq<char> {
    "c"@ + decimal_digits(id as nat)
}

/// The classes of a list of identifiers, with a space between neighbours.
pub open spec fn class_list(ids: Seq<usize>) -> Seq<char>
    decreases ids.len(),
{
    if ids.len() == 0 {
        Seq::empty()
    } else if ids.len() == 1 {
        class_name(ids[0])
    } else {
        class_list(ids.drop_last()) + " "@ + class_name(ids.last())
    }
}

/// The markup of one chunk: a line break closes the line's block and opens
/// the next; any other text is a unit with its classes and its escaped
/// text.
pub open spec fn render_part(text: Seq<char>, ids: Seq<usize>) -> Seq<char> {
    if text == "\n"@ {
        "</div><div>"@
    } else {
        "<span class=\""@ + class_list(ids) + "\">"@ + escape_text(text) + "</span>"@
    }
}

/// The markup of a chunk sequence, without the outermost block.
pub open spec fn render_parts(parts: Seq<(Seq<char>, Seq<usize>)>) -> Seq<char>
    decreases parts.len(),
{
    if parts.len() == 0 {
        Seq::empty()
    } else {
        render_parts(parts.drop_last()) + render_part(parts.last().0, parts.last().1)
    }
}

/// The markup of a chunk sequence.
pub open spec fn render_html(parts: Seq<(Seq<char>, Seq<usize>)>) -> Seq<char> {
    "<div>"@ + render_parts(parts) + "</div>"@
}

/// The identifiers of a generated chunk as a list: one or none.
pub open spec fn option_ids(id: Option<usize>) -> Seq<usize> {
    match id {
        Some(i) => seq![i],
        None => Seq::empty(),
    }
}

/// Generated chunks as chunks with identifier lists.
pub open spec fn tagged(c: Seq<(Seq<char>, Option<usize>)>) -> Seq<(Seq<char>, Seq<usize>)> {
    Seq::new(c.len(), |i: int| (c[i].0, option_ids(c[i].1)))
}

/// A template with the markup `left` in place of `{LEFT}` and then `right`
/// in place of `{RIGHT}`.
pub open spec fn fill_template(template: Seq<char>, left: Seq<char>, right: Seq<char>) -> Seq<
    char,
> {
    replace_all(replace_all(template, "{LEFT}"@, left), "{RIGHT}"@, right)
}

/// The document for a token stream: the template filled with the markup of
/// the generated chunks and of the source side.
pub open spec fn spec_document(
    stream: Seq<TokenTree>,
    files: Seq<SourceFile>,
    template: Seq<char>,
) -> Seq<char> {
    let p = spec_generate(stream);
    fill_template(
        template,
        render_html(tagged(p.generated)),
        render_html(spec_load(p.sources, p.ranges, files, p.sources.len() as int)),
    )
}

/// The classes of `ids` as a string.
pub fn class_list_string(ids: &Vec<usize>) -> (r: String)
    ensures
        r@ == class_list(ids@),
{
    let mut r = String::new();
    let mut i: usize = 0;
    while i < ids.len()
        invariant
            i <= ids@.len(),
            r@ == class_list(ids@.take(i as int)),
        decreases ids@.len() - i,
    {
        let ghost before = r@;
        if i > 0 {
            r.append(" ");
        }
        r.append("c");
        r.append(decimal_string(ids[i]).as_str());
        proof {
            let head = ids@.take(i + 1);
            assert(head.drop_last() =~= ids@.take(i as int));
            assert(head.last() == ids@[i as int]);
            if i == 0 {
                assert(before =~= Seq::<char>::empty());
                assert(r@ =~= class_name(ids@[0]));
            } else {
                assert(r@ =~= before + " "@ + class_name(ids@[i as int]));
            }
        }
        i += 1;
    }
    assert(ids@.take(i as int) =~= ids@);
    r
}

/// Renders a chunk sequence: one block per line, and in it one unit per
/// chunk, with the chunk's classes and its escaped text.
pub fn generate_html_parts(parts: &Vec<(String, Vec<usize>)>) -> (res: String)
    ensures
        res@ == render_html(parts_view(parts@)),
{
    let ghost all = parts_view(parts@);
    let mut res = String::new();
    res.append("<div>");
    assert(res@ =~= "<div>"@ + render_parts(all.take(0)));
    let mut i: usize = 0;
    while i < parts.len()
        invariant
            i <= parts@.len(),
            all == parts_view(parts@),
            res@ == "<div>"@ + render_parts(all.take(i as int)),
        decreases parts@.len() - i,
    {
        let ghost before = res@;
        let text = parts[i].0.as_str();
        if same_text(text, "\n") {
            res.append("</div><div>");
        } else {
            res.append("<span class=\"");
            res.append(class_list_string(&parts[i].1).as_str());
            res.append("\">");
            res.append(escape(text).as_str());
            res.append("</span>");
        }
        proof {
            let head = all.take(i + 1);
            assert(head.drop_last() =~= all.take(i as int));
            assert(head.last() == all[i as int]);
            assert(res@ =~= before + render_part(all[i as int].0, all[i as int].1));
            assert(res@ =~= "<div>"@ + render_parts(head));
        }
        i += 1;
    }
    assert(all.take(i as int) =~= all);
    res.append("</div>");
    res
}

/// The generated chunks with their identifiers as lists, ready to render.
pub fn generated_parts(ranges: &Ranges) -> (r: Vec<(String, Vec<usize>)>)
    ensures
        parts_view(r@) == tagged(chunks(ranges.generated@)),
{
    let mut r: Vec<(String, Vec<usize>)> = Vec::new();
    let mut i: usize = 0;
    assert(parts_view(r@) =~= tagged(chunks(ranges.generated@)).take(0));
    while i < ranges.generated.len()
        invariant
            i <= ranges.generated@.len(),
            parts_view(r@) == tagged(chunks(ranges.generated@)).take(i as int),
        decreases ranges.generated@.len() - i,
    {
        let mut ids: Vec<usize> = Vec::new();
        match ranges.generated[i].1 {
            Some(id) => {
                ids.push(id);
            },
            None => {},
        }
        assert(ids@ =~= option_ids(ranges.generated@[i as int].1));
        let text = ranges.generated[i].0.clone();
        let ghost before = parts_view(r@);
        let ghost all = tagged(chunks(ranges.generated@));
        r.push((text, ids));
        proof {
            assert(text@ == ranges.generated@[i as int].0@);
            assert(parts_view(r@) =~= before.push((text@, ids@)));
            assert(all.take(i + 1) =~= all.take(i as int).push(all[i as int]));
        }
        i += 1;
    }
    assert(tagged(chunks(ranges.generated@)).take(i as int) =~= tagged(chunks(ranges.generated@)));
    r
}

/// Fills `template`: the markup `left` in place of `{LEFT}`, then `right`
/// in place of `{RIGHT}`.
pub fn assemble(template: &str, left: &str, right: &str) -> (r: String)
    ensures
        r@ == fill_template(template@, left@, right@),
{
    proof {
        reveal_strlit("{LEFT}");
        reveal_strlit("{RIGHT}");
    }
    let first = replace_marker(template, "{LEFT}", left);
    replace_marker(first.as_str(), "{RIGHT}", right)
}

/// Renders the document for `token_stream`: pretty-prints the tokens,
/// sweeps the files among `files` that the tokens came from, renders both
/// sides, and fills `template` with them. A file that the tokens name and
/// `files` lacks is left out of the source side.
pub fn generate_html(token_stream: &Vec<TokenTree>, files: &Vec<SourceFile>, template: &str) -> (res:
    String)
    ensures
        res@ == spec_document(token_stream@, files@, template@),
{
    let ranges = generate_ranges(token_stream);
    let source_parts = load_original_source(&ranges, files);
    let lhs = generate_html_parts(&generated_parts(&ranges));
    let rhs = generate_html_parts(&source_parts.parts);
    assemble(template, lhs.as_str(), rhs.as_str())
}

} // verus!
