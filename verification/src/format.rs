//! The range table and the pretty-printer that fills it.

use vstd::prelude::*;
use vstd::string::StringExecFns;
use crate::range::Range;
use crate::token::{Delimiter, Spacing, Span, TokenTree};

verus! {

/// The first index at which `x` stands in `s`, or the length of `s` where it
/// stands nowhere.
pub open spec fn position_in<T>(s: Seq<T>, x: T) -> int
    decreases s.len(),
{
    if s.len() == 0 {
        0
    } else if s[0] == x {
        0
    } else {
        1 + position_in(s.skip(1), x)
    }
}

/// A table after `x` was looked up in it: unchanged where it held `x`,
/// else longer by `x`.
pub open spec fn intern<T>(table: Seq<T>, x: T) -> Seq<T> {
    if position_in(table, x) < table.len() {
        table
    } else {
        table.push(x)
    }
}

/// What `position_in` finds: an index within bounds that holds `x`, with no
/// `x` before it, or the length where there is no `x` at all.
pub proof fn lemma_position_in<T>(s: Seq<T>, x: T)
    ensures
        0 <= position_in(s, x) <= s.len(),
        position_in(s, x) < s.len() ==> s[position_in(s, x)] == x,
        forall|j: int| 0 <= j < position_in(s, x) ==> s[j] != x,
    decreases s.len(),
{
    if s.len() > 0 && s[0] != x {
        let t = s.skip(1);
        lemma_position_in(t, x);
        assert forall|j: int| 0 <= j < position_in(s, x) implies s[j] != x by {
            if j > 0 {
                assert(t[j - 1] == s[j]);
            }
        }
    }
}

/// The texts that a vector of strings holds.
pub open spec fn texts(v: Seq<String>) -> Seq<Seq<char>> {
    Seq::new(v.len(), |i: int| v[i]@)
}

/// The chunks that a vector of tagged strings holds.
pub open spec fn chunks(v: Seq<(String, Option<usize>)>) -> Seq<(Seq<char>, Option<usize>)> {
    Seq::new(v.len(), |i: int| (v[i].0@, v[i].1))
}

/// `n` space characters.
pub open spec fn spaces(n: nat) -> Seq<char> {
    Seq::new(n, |i: int| ' ')
}

/// The texts of a chunk sequence, one after the other.
pub open spec fn concat_texts(c: Seq<(Seq<char>, Option<usize>)>) -> Seq<char>
    decreases c.len(),
{
    if c.len() == 0 {
        Seq::empty()
    } else {
        concat_texts(c.drop_last()) + c.last().0
    }
}

/// The interned files and ranges of one run, with the generated chunks in
/// the order of their emission. A file's identifier is its index in
/// `sources`, a range's identifier its index in `ranges`.
#[derive(Debug)]
pub struct Ranges {
    pub sources: Vec<String>,
    pub ranges: Vec<Range>,
    pub generated: Vec<(String, Option<usize>)>,
}

/// Whether the next token has to be set off by a space.
#[derive(Copy, Clone, Debug, PartialEq, Eq, Structural)]
pub enum NeedsSpace {
    Never,
    Always,
    IfNotPunct,
}

/// The pretty-printer: the range table and chunks so far, the indentation
/// depth, whether a line break is pending, and the spacing state.
#[derive(Debug)]
pub struct TokenVisitor {
    pub ranges: Ranges,
    pub indent: usize,
    pub newline: bool,
    pub needs_space: NeedsSpace,
}

/// The pretty-printer as a mathematical value.
pub struct Printer {
    pub sources: Seq<Seq<char>>,
    pub ranges: Seq<Range>,
    pub generated: Seq<(Seq<char>, Option<usize>)>,
    pub indent: usize,
    pub newline: bool,
    pub needs_space: NeedsSpace,
}

impl View for TokenVisitor {
    type V = Printer;

    open spec fn view(&self) -> Printer {
        Printer {
            sources: texts(self.ranges.sources@),
            ranges: self.ranges.ranges@,
            generated: chunks(self.ranges.generated@),
            indent: self.indent,
            newline: self.newline,
            needs_space: self.needs_space,
        }
    }
}

/// The printer before anything was visited.
pub open spec fn initial_printer() -> Printer {
    Printer {
        sources: Seq::empty(),
        ranges: Seq::empty(),
        generated: Seq::empty(),
        indent: 0,
        newline: true,
        needs_space: NeedsSpace::Never,
    }
}

/// The printer after one more chunk.
pub open spec fn emit(p: Printer, text: Seq<char>, id: Option<usize>) -> Printer {
    Printer { generated: p.generated.push((text, id)), ..p }
}

/// The printer after a forced line break.
pub open spec fn break_line(p: Printer) -> Printer {
    emit(Printer { newline: true, ..p }, "\n"@, None)
}

/// The printer after the range of `span` was interned, and the identifier
/// of that range: none for a span that no file backs.
pub open spec fn spec_add_span(p: Printer, span: Span) -> (Printer, Option<usize>) {
    match span.file {
        Some(path) => {
            let range = Range {
                source: position_in(p.sources, path@) as usize,
                start: span.start,
                end: span.end,
            };
            (
                Printer {
                    sources: intern(p.sources, path@),
                    ranges: intern(p.ranges, range),
                    ..p
                },
                Some(position_in(p.ranges, range) as usize),
            )
        },
        None => (p, None),
    }
}

/// What happens before a token's text goes out: a closing brace steps the
/// depth back, though not below 0, and asks for a line break, and a pending
/// line break becomes the indentation of the new line: four spaces for each
/// level, in one chunk, and no chunk at depth 0.
pub open spec fn before_text(p: Printer, s: Seq<char>) -> Printer {
    let mid = if s == "}"@ {
        let q = Printer { indent: if p.indent > 0 { (p.indent - 1) as usize } else { 0 }, ..p };
        if q.newline {
            q
        } else {
            break_line(q)
        }
    } else {
        p
    };
    if mid.newline {
        let q = Printer { newline: false, ..mid };
        if q.indent > 0 {
            emit(q, spaces(4 * q.indent as nat), None)
        } else {
            q
        }
    } else {
        mid
    }
}

/// What happens after a token's text went out: an opening brace deepens the
/// indentation, up to the largest depth that the counter can hold, and it,
/// a semicolon and a closing brace end the line; a line break clears the
/// spacing state.
pub open spec fn after_text(p: Printer, s: Seq<char>) -> Printer {
    let mid = if s == "{"@ {
        break_line(
            Printer { indent: if p.indent < usize::MAX { (p.indent + 1) as usize } else { p.indent }, ..p },
        )
    } else if s == ";"@ || s == "}"@ {
        break_line(p)
    } else {
        p
    };
    if mid.newline {
        Printer { needs_space: NeedsSpace::Never, ..mid }
    } else {
        mid
    }
}

/// The printer after a token's text `s` with span `span`. An empty text
/// leaves it as it is.
pub open spec fn spec_visit_str(p: Printer, s: Seq<char>, span: Span) -> Printer {
    if s.len() == 0 {
        p
    } else {
        let (mid, id) = spec_add_span(p, span);
        after_text(emit(before_text(mid, s), s, id), s)
    }
}

/// The opening bracket of a delimiter.
pub open spec fn open_text(d: Delimiter) -> Seq<char> {
    match d {
        Delimiter::Parenthesis => "("@,
        Delimiter::Brace => "{"@,
        Delimiter::Bracket => "["@,
        Delimiter::Invisible => ""@,
    }
}

/// The closing bracket of a delimiter.
pub open spec fn close_text(d: Delimiter) -> Seq<char> {
    match d {
        Delimiter::Parenthesis => ")"@,
        Delimiter::Brace => "}"@,
        Delimiter::Bracket => "]"@,
        Delimiter::Invisible => ""@,
    }
}

/// The printer after a word (an identifier or a literal): a space unless
/// the state forbids it, the text, and the state `IfNotPunct`. Where the
/// text ended the line, the state stays as the line break left it.
pub open spec fn spec_visit_word(p: Printer, text: Seq<char>, span: Span) -> Printer {
    let mid = if p.needs_space != NeedsSpace::Never {
        emit(p, " "@, None)
    } else {
        p
    };
    let done = spec_visit_str(mid, text, span);
    if done.newline {
        done
    } else {
        Printer { needs_space: NeedsSpace::IfNotPunct, ..done }
    }
}

/// The printer after a punctuation token: a space only in the state
/// `Always`, the text, and the state `Always` where the token stands alone
/// and did not end the line. After a semicolon the state stays `Never`, as
/// the line break left it.
pub open spec fn spec_visit_punct(p: Printer, text: Seq<char>, span: Span, spacing: Spacing) -> Printer {
    let mid = if p.needs_space == NeedsSpace::Always {
        emit(p, " "@, None)
    } else {
        p
    };
    let done = spec_visit_str(mid, text, span);
    if spacing == Spacing::Alone && !done.newline {
        Printer { needs_space: NeedsSpace::Always, ..done }
    } else {
        done
    }
}

/// The printer after one tree.
pub open spec fn spec_visit_tree(p: Printer, t: TokenTree) -> Printer
    decreases t,
{
    match t {
        TokenTree::Group { delimiter, stream, open, close } => spec_visit_str(
            spec_visit_stream(
                spec_visit_str(p, open_text(delimiter), open),
                stream@,
                stream@.len() as int,
            ),
            close_text(delimiter),
            close,
        ),
        TokenTree::Ident { text, span } => spec_visit_word(p, text@, span),
        TokenTree::Punct { text, span, spacing } => spec_visit_punct(p, text@, span, spacing),
        TokenTree::Literal { text, span } => spec_visit_word(p, text@, span),
    }
}

/// The printer after the first `n` trees of `s`, in order.
pub open spec fn spec_visit_stream(p: Printer, s: Seq<TokenTree>, n: int) -> Printer
    decreases s, n,
{
    if n <= 0 || n > s.len() {
        p
    } else {
        spec_visit_tree(spec_visit_stream(p, s, n - 1), s[n - 1])
    }
}

/// Whether two string slices hold the same text.
pub fn same_text(a: &str, b: &str) -> (r: bool)
    ensures
        r == (a@ == b@),
{
    String::from_str(a) == String::from_str(b)
}

/// The indentation of a line at depth `depth`: four spaces for each level.
fn indentation(depth: usize) -> (r: String)
    ensures
        r@ == spaces(4 * depth as nat),
{
    let mut r = String::new();
    let mut i: usize = 0;
    while i < depth
        invariant
            i <= depth,
            r@ == spaces(4 * i as nat),
        decreases depth - i,
    {
        proof {
            reveal_strlit("    ");
        }
        r.append("    ");
        i += 1;
        assert(r@ =~= spaces(4 * i as nat));
    }
    r
}

impl Ranges {
    /// A table that holds nothing.
    pub fn new() -> (r: Ranges)
        ensures
            r.sources@.len() == 0,
            r.ranges@.len() == 0,
            r.generated@.len() == 0,
    {
        Ranges { sources: Vec::new(), ranges: Vec::new(), generated: Vec::new() }
    }

    /// No path and no range stands twice, and every range lies in a file of
    /// the table.
    pub open spec fn wf(&self) -> bool {
        &&& texts(self.sources@).no_duplicates()
        &&& self.ranges@.no_duplicates()
        &&& forall|i: int|
            0 <= i < self.ranges@.len() ==> (#[trigger] self.ranges@[i]).source
                < self.sources@.len()
    }

    /// The identifier of the file `path`: the one it has, or the next free
    /// one, under which it is then entered.
    pub fn intern_source(&mut self, path: &String) -> (id: usize)
        ensures
            id == position_in(texts(old(self).sources@), path@),
            texts(final(self).sources@) == intern(texts(old(self).sources@), path@),
            id < final(self).sources@.len(),
            final(self).ranges == old(self).ranges,
            final(self).generated == old(self).generated,
            texts(old(self).sources@).no_duplicates() ==> texts(
                final(self).sources@,
            ).no_duplicates(),
            final(self).sources@.len() >= old(self).sources@.len(),
    {
        let ghost table = texts(self.sources@);
        let mut i: usize = 0;
        while i < self.sources.len()
            invariant
                i <= self.sources@.len(),
                *self == *old(self),
                table == texts(self.sources@),
                forall|j: int| 0 <= j < i ==> table[j] != path@,
            decreases self.sources@.len() - i,
        {
            if self.sources[i] == *path {
                proof {
                    assert(table[i as int] == path@);
                    lemma_position_in(table, path@);
                }
                return i;
            }
            i += 1;
        }
        proof {
            lemma_position_in(table, path@);
        }
        self.sources.push(path.clone());
        assert(texts(self.sources@) =~= table.push(path@));
        i
    }

    /// The identifier of `range`: the one it has, or the next free one,
    /// under which it is then entered. Identifiers are handed out in the
    /// order of first encounter, from 0.
    pub fn intern(&mut self, range: Range) -> (id: usize)
        ensures
            id == position_in(old(self).ranges@, range),
            final(self).ranges@ == intern(old(self).ranges@, range),
            id < final(self).ranges@.len(),
            final(self).sources == old(self).sources,
            final(self).generated == old(self).generated,
            old(self).ranges@.no_duplicates() ==> final(self).ranges@.no_duplicates(),
    {
        let ghost table = self.ranges@;
        let mut i: usize = 0;
        while i < self.ranges.len()
            invariant
                i <= self.ranges@.len(),
                *self == *old(self),
                table == self.ranges@,
                forall|j: int| 0 <= j < i ==> table[j] != range,
            decreases self.ranges@.len() - i,
        {
            if self.ranges[i] == range {
                proof {
                    lemma_position_in(table, range);
                }
                return i;
            }
            i += 1;
        }
        proof {
            lemma_position_in(table, range);
        }
        self.ranges.push(range);
        i
    }

    /// The generated text: the texts of all chunks, one after the other.
    pub fn formatted_text(&self) -> (r: String)
        ensures
            r@ == concat_texts(chunks(self.generated@)),
    {
        let mut r = String::new();
        let mut i: usize = 0;
        while i < self.generated.len()
            invariant
                i <= self.generated@.len(),
                r@ == concat_texts(chunks(self.generated@).take(i as int)),
            decreases self.generated@.len() - i,
        {
            assert(chunks(self.generated@).take(i + 1).drop_last() =~= chunks(
                self.generated@,
            ).take(i as int));
            r.append(self.generated[i].0.as_str());
            i += 1;
        }
        assert(chunks(self.generated@).take(i as int) =~= chunks(self.generated@));
        r
    }
}

impl TokenVisitor {
    /// A printer at the start of a text: nothing interned or emitted, depth
    /// 0, at the start of a line.
    pub fn new() -> (r: TokenVisitor)
        ensures
            r@ == initial_printer(),
            r.ranges.wf(),
    {
        let r = TokenVisitor {
            ranges: Ranges::new(),
            indent: 0,
            newline: true,
            needs_space: NeedsSpace::Never,
        };
        assert(r@.sources =~= Seq::empty());
        assert(r@.generated =~= Seq::empty());
        assert(r@.ranges =~= Seq::empty());
        r
    }

    /// Interns the range of `span`, and its file before it, and returns the
    /// range's identifier; a span that no file backs changes nothing and has
    /// no identifier.
    pub fn add_span(&mut self, span: &Span) -> (id: Option<usize>)
        ensures
            final(self)@ == spec_add_span(old(self)@, *span).0,
            id == spec_add_span(old(self)@, *span).1,
            old(self).ranges.wf() ==> final(self).ranges.wf(),
    {
        match &span.file {
            Some(path) => {
                let source = self.ranges.intern_source(path);
                let range = Range { source, start: span.start, end: span.end };
                let range_idx = self.ranges.intern(range);
                Some(range_idx)
            },
            None => None,
        }
    }

    /// Appends the chunk `s`, tagged with `range_idx`, to the generated
    /// chunks.
    pub fn add_str(&mut self, s: &str, range_idx: Option<usize>)
        ensures
            final(self)@ == emit(old(self)@, s@, range_idx),
            final(self).ranges.sources == old(self).ranges.sources,
            final(self).ranges.ranges == old(self).ranges.ranges,
    {
        self.ranges.generated.push((String::from_str(s), range_idx));
        assert(chunks(self.ranges.generated@) =~= chunks(old(self).ranges.generated@).push(
            (s@, range_idx),
        ));
    }

    /// Emits a line break and marks it as pending.
    fn end_line(&mut self)
        ensures
            final(self)@ == break_line(old(self)@),
            final(self).ranges.sources == old(self).ranges.sources,
            final(self).ranges.ranges == old(self).ranges.ranges,
    {
        self.newline = true;
        self.add_str("\n", None);
    }

    /// Emits the token text `s` with what the layout asks for around it:
    /// the line break before a closing brace, the indentation of a new line,
    /// and the line break after a brace or a semicolon.
    pub fn visit_str(&mut self, s: &str, span: &Span)
        ensures
            final(self)@ == spec_visit_str(old(self)@, s@, *span),
            old(self).ranges.wf() ==> final(self).ranges.wf(),
    {
        if s.is_empty() {
            return ;
        }
        let range_idx = self.add_span(span);
        let closing = same_text(s, "}");
        if closing {
            if self.indent > 0 {
                self.indent -= 1;
            }
            if !self.newline {
                self.end_line();
            }
        }
        if self.newline {
            self.newline = false;
            if self.indent > 0 {
                let pad = indentation(self.indent);
                self.add_str(pad.as_str(), None);
            }
        }
        self.add_str(s, range_idx);
        if same_text(s, "{") {
            if self.indent < usize::MAX {
                self.indent += 1;
            }
            self.end_line();
        } else if closing || same_text(s, ";") {
            self.end_line();
        }
        if self.newline {
            self.needs_space = NeedsSpace::Never;
        }
    }

    /// Visits the trees of `token_stream` in order.
    pub fn visit_token_stream(&mut self, token_stream: &Vec<TokenTree>)
        ensures
            final(self)@ == spec_visit_stream(
                old(self)@,
                token_stream@,
                token_stream@.len() as int,
            ),
            old(self).ranges.wf() ==> final(self).ranges.wf(),
        decreases token_stream@, 1int,
    {
        let mut i: usize = 0;
        while i < token_stream.len()
            invariant
                i <= token_stream@.len(),
                self@ == spec_visit_stream(old(self)@, token_stream@, i as int),
                old(self).ranges.wf() ==> self.ranges.wf(),
            decreases token_stream@.len() - i,
        {
            self.visit_token_tree(&token_stream[i]);
            i += 1;
        }
    }

    /// Visits one tree: a group as its opening bracket, its trees and its
    /// closing bracket; any other token as its text, spaced by the rules of
    /// its kind.
    pub fn visit_token_tree(&mut self, token_tree: &TokenTree)
        ensures
            final(self)@ == spec_visit_tree(old(self)@, *token_tree),
            old(self).ranges.wf() ==> final(self).ranges.wf(),
        decreases *token_tree, 0int,
    {
        match token_tree {
            TokenTree::Group { delimiter, stream, open, close } => {
                let open_str = match delimiter {
                    Delimiter::Parenthesis => "(",
                    Delimiter::Brace => "{",
                    Delimiter::Bracket => "[",
                    Delimiter::Invisible => "",
                };
                self.visit_str(open_str, open);
                self.visit_token_stream(stream);
                let close_str = match delimiter {
                    Delimiter::Parenthesis => ")",
                    Delimiter::Brace => "}",
                    Delimiter::Bracket => "]",
                    Delimiter::Invisible => "",
                };
                self.visit_str(close_str, close);
            },
            TokenTree::Ident { text, span } => {
                self.visit_word(text.as_str(), span);
            },
            TokenTree::Punct { text, span, spacing } => {
                if self.needs_space == NeedsSpace::Always {
                    self.add_str(" ", None);
                }
                self.visit_str(text.as_str(), span);
                if *spacing == Spacing::Alone && !self.newline {
                    self.needs_space = NeedsSpace::Always;
                }
            },
            TokenTree::Literal { text, span } => {
                self.visit_word(text.as_str(), span);
            },
        }
    }

    /// Visits an identifier or a literal.
    fn visit_word(&mut self, text: &str, span: &Span)
        ensures
            final(self)@ == spec_visit_word(old(self)@, text@, *span),
            old(self).ranges.wf() ==> final(self).ranges.wf(),
    {
        if self.needs_space != NeedsSpace::Never {
            self.add_str(" ", None);
        }
        self.visit_str(text, span);
        if !self.newline {
            self.needs_space = NeedsSpace::IfNotPunct;
        }
    }
}

/// Pretty-prints `token_stream` from a fresh printer and returns the range
/// table with the generated chunks.
pub fn generate_ranges(token_stream: &Vec<TokenTree>) -> (res: Ranges)
    ensures
        res.wf(),
        ids_count_up(res.ranges@.len(), chunks(res.generated@)),
        texts(res.sources@) == spec_generate(token_stream@).sources,
        res.ranges@ == spec_generate(token_stream@).ranges,
        chunks(res.generated@) == spec_generate(token_stream@).generated,
{
    let mut res = TokenVisitor::new();
    res.visit_token_stream(token_stream);
    let count = res.ranges.ranges.len();
    proof {
        assert(spec_generate(token_stream@).ranges.len() == count);
        lemma_generated_ids_count_up(token_stream@);
    }
    res.ranges
}

/// The printer after a whole stream, from the start.
pub open spec fn spec_generate(s: Seq<TokenTree>) -> Printer {
    spec_visit_stream(initial_printer(), s, s.len() as int)
}

/// A table after each of `xs` was looked up in it, in order.
pub open spec fn intern_all<T>(table: Seq<T>, xs: Seq<T>) -> Seq<T>
    decreases xs.len(),
{
    if xs.len() == 0 {
        table
    } else {
        intern(intern_all(table, xs.drop_last()), xs.last())
    }
}

/// `b` starts with all of `a`.
pub open spec fn extends<T>(a: Seq<T>, b: Seq<T>) -> bool {
    a.len() <= b.len() && forall|i: int| 0 <= i < a.len() ==> a[i] == b[i]
}

/// Looking things up never moves or removes an entry: the table before is
/// the start of the table after, and a table without duplicates stays so.
pub proof fn lemma_intern_all_extends<T>(table: Seq<T>, xs: Seq<T>)
    ensures
        extends(table, intern_all(table, xs)),
        table.no_duplicates() ==> intern_all(table, xs).no_duplicates(),
    decreases xs.len(),
{
    if xs.len() > 0 {
        lemma_intern_all_extends(table, xs.drop_last());
        lemma_position_in(intern_all(table, xs.drop_last()), xs.last());
    }
}

/// Identifiers are stable: when `a` is looked up, then any `between`, then
/// `b`, the two get the same identifier if and only if they are equal.
/// The identifier of an entry that is new is the number of entries before
/// it, so identifiers count up from 0 in the order of first encounter.
/// Looking `a` up once more changes nothing, however often it is done.
pub proof fn lemma_id_stability<T>(table: Seq<T>, a: T, between: Seq<T>, b: T)
    ensures
        (position_in(table, a) == position_in(intern_all(intern(table, a), between), b)) <==> a
            == b,
        !table.contains(a) ==> position_in(table, a) == table.len(),
        intern(intern_all(intern(table, a), between), a) == intern_all(
            intern(table, a),
            between,
        ),
{
    let t1 = intern(table, a);
    let t2 = intern_all(t1, between);
    lemma_position_in(table, a);
    lemma_intern_all_extends(t1, between);
    lemma_position_in(t2, a);
    lemma_position_in(t2, b);
    let ia = position_in(table, a);
    assert(t1[ia] == a);
    assert(t2[ia] == a);
    assert forall|j: int| 0 <= j < ia implies t2[j] != a by {
        assert(t2[j] == t1[j]);
    }
    if !table.contains(a) && ia < table.len() {
        assert(table[ia] == a);
    }
}

/// A later state of the printer: both tables and the chunks of `p` are the
/// start of those of `q`.
pub open spec fn grows(p: Printer, q: Printer) -> bool {
    &&& extends(p.sources, q.sources)
    &&& extends(p.ranges, q.ranges)
    &&& extends(p.generated, q.generated)
}

/// At the start of a line no space is asked for.
pub open spec fn line_start_unspaced(p: Printer) -> bool {
    p.newline ==> p.needs_space == NeedsSpace::Never
}

/// An entry keeps its identifier in every later table: where `a` was
/// looked up in `table` and `later` starts with the table after that, `a`
/// has the same identifier in `later`, looking it up again changes nothing,
/// and `b` has that identifier if and only if it is `a`.
pub proof fn lemma_position_stable<T>(table: Seq<T>, later: Seq<T>, a: T, b: T)
    requires
        extends(intern(table, a), later),
    ensures
        position_in(table, a) < later.len(),
        position_in(later, a) == position_in(table, a),
        (position_in(later, b) == position_in(table, a)) <==> a == b,
        intern(later, a) == later,
{
    let first = intern(table, a);
    lemma_position_in(table, a);
    lemma_position_in(later, a);
    lemma_position_in(later, b);
    let ia = position_in(table, a);
    assert(first[ia] == a);
    assert(later[ia] == a);
    assert forall|j: int| 0 <= j < ia implies later[j] != a by {
        assert(later[j] == first[j]);
    }
}

/// Whether two spans name the same place: the same file, start and end.
pub open spec fn same_place(a: Span, b: Span) -> bool {
    match (a.file, b.file) {
        (Some(pa), Some(pb)) => pa@ == pb@ && a.start == b.start && a.end == b.end,
        _ => false,
    }
}

/// Interning a span never moves or removes an entry of either table.
pub proof fn lemma_add_span_grows(p: Printer, span: Span)
    ensures
        grows(p, spec_add_span(p, span).0),
        spec_add_span(p, span).0.generated == p.generated,
        spec_add_span(p, span).0.newline == p.newline,
        spec_add_span(p, span).0.needs_space == p.needs_space,
{
    match span.file {
        Some(path) => {
            lemma_position_in(p.sources, path@);
            let range = Range {
                source: position_in(p.sources, path@) as usize,
                start: span.start,
                end: span.end,
            };
            lemma_position_in(p.ranges, range);
        },
        None => {},
    }
}

/// Identifiers are stable over the whole run: where the span `a` was
/// interned, and `b` is interned in any later state `q` of the printer, the
/// two get the same identifier if and only if they name the same file,
/// start and end; and where they do, interning `b` changes neither table.
pub proof fn lemma_span_ids_stable(p: Printer, a: Span, q: Printer, b: Span)
    requires
        a.file is Some,
        b.file is Some,
        grows(spec_add_span(p, a).0, q),
        q.sources.len() <= usize::MAX,
        q.ranges.len() <= usize::MAX,
    ensures
        (spec_add_span(p, a).1 == spec_add_span(q, b).1) <==> same_place(a, b),
        same_place(a, b) ==> spec_add_span(q, b).0 == q,
{
    let pa = a.file->0@;
    let pb = b.file->0@;
    lemma_position_in(p.sources, pa);
    lemma_position_in(q.sources, pb);
    lemma_position_stable(p.sources, q.sources, pa, pb);
    let ra = Range { source: position_in(p.sources, pa) as usize, start: a.start, end: a.end };
    let rb = Range { source: position_in(q.sources, pb) as usize, start: b.start, end: b.end };
    lemma_position_in(p.ranges, ra);
    lemma_position_in(q.ranges, rb);
    lemma_position_stable(p.ranges, q.ranges, ra, rb);
    assert(ra == rb <==> same_place(a, b));
    if same_place(a, b) {
        lemma_position_stable(p.sources, q.sources, pa, pa);
        lemma_position_stable(p.ranges, q.ranges, ra, ra);
    }
}

/// A token's text never takes back a chunk or a table entry, and leaves a
/// line start unspaced.
pub proof fn lemma_visit_str_grows(p: Printer, s: Seq<char>, span: Span)
    ensures
        grows(p, spec_visit_str(p, s, span)),
        line_start_unspaced(p) ==> line_start_unspaced(spec_visit_str(p, s, span)),
{
    lemma_add_span_grows(p, span);
}

/// A word never takes back a chunk or a table entry. From a state in which
/// a line start is unspaced it leaves a line start unspaced.
pub proof fn lemma_visit_word_grows(p: Printer, text: Seq<char>, span: Span)
    ensures
        grows(p, spec_visit_word(p, text, span)),
        line_start_unspaced(p) ==> line_start_unspaced(spec_visit_word(p, text, span)),
{
    let mid = if p.needs_space != NeedsSpace::Never {
        emit(p, " "@, None)
    } else {
        p
    };
    lemma_visit_str_grows(mid, text, span);
}

/// A punctuation token never takes back a chunk or a table entry, and
/// leaves a line start unspaced where it found it so.
pub proof fn lemma_visit_punct_grows(p: Printer, text: Seq<char>, span: Span, spacing: Spacing)
    ensures
        grows(p, spec_visit_punct(p, text, span, spacing)),
        line_start_unspaced(p) ==> line_start_unspaced(spec_visit_punct(p, text, span, spacing)),
{
    let mid = if p.needs_space == NeedsSpace::Always {
        emit(p, " "@, None)
    } else {
        p
    };
    lemma_visit_str_grows(mid, text, span);
}

/// A tree never takes back a chunk or a table entry, and after it a line
/// start is unspaced where it was before: no space goes out between a line
/// break and the indentation that follows it.
pub proof fn lemma_visit_tree_grows(p: Printer, t: TokenTree)
    ensures
        grows(p, spec_visit_tree(p, t)),
        line_start_unspaced(p) ==> line_start_unspaced(spec_visit_tree(p, t)),
    decreases t,
{
    match t {
        TokenTree::Group { delimiter, stream, open, close } => {
            let mid = spec_visit_str(p, open_text(delimiter), open);
            lemma_visit_str_grows(p, open_text(delimiter), open);
            lemma_visit_stream_grows(mid, stream@, stream@.len() as int);
            let done = spec_visit_stream(mid, stream@, stream@.len() as int);
            lemma_visit_str_grows(done, close_text(delimiter), close);
        },
        TokenTree::Ident { text, span } => {
            lemma_visit_word_grows(p, text@, span);
        },
        TokenTree::Punct { text, span, spacing } => {
            lemma_visit_punct_grows(p, text@, span, spacing);
        },
        TokenTree::Literal { text, span } => {
            lemma_visit_word_grows(p, text@, span);
        },
    }
}

/// A stream never takes back a chunk or a table entry: the generated text
/// only ever grows at its end, and identifiers once given stay. After it a
/// line start is unspaced where it was before.
pub proof fn lemma_visit_stream_grows(p: Printer, s: Seq<TokenTree>, n: int)
    ensures
        grows(p, spec_visit_stream(p, s, n)),
        line_start_unspaced(p) ==> line_start_unspaced(spec_visit_stream(p, s, n)),
    decreases s, n,
{
    if 0 < n <= s.len() {
        lemma_visit_stream_grows(p, s, n - 1);
        lemma_visit_tree_grows(spec_visit_stream(p, s, n - 1), s[n - 1]);
    }
}

/// The text of a chunk sequence that starts with another starts with the
/// other's text.
pub proof fn lemma_concat_texts_extends(
    a: Seq<(Seq<char>, Option<usize>)>,
    b: Seq<(Seq<char>, Option<usize>)>,
)
    requires
        extends(a, b),
    ensures
        extends(concat_texts(a), concat_texts(b)),
    decreases b.len(),
{
    if a.len() == b.len() {
        assert(a =~= b);
    } else {
        lemma_concat_texts_extends(a, b.drop_last());
    }
}

/// Whether a character is one that the layout adds: a space or a line
/// feed.
pub open spec fn is_layout(c: char) -> bool {
    c == ' ' || c == '\n'
}

/// Whether a text holds nothing but spaces and line feeds.
pub open spec fn layout_only(s: Seq<char>) -> bool {
    forall|j: int| 0 <= j < s.len() ==> is_layout(#[trigger] s[j])
}

/// A text without its spaces and line feeds.
pub open spec fn unspaced(s: Seq<char>) -> Seq<char>
    decreases s.len(),
{
    if s.len() == 0 {
        Seq::empty()
    } else if is_layout(s.last()) {
        unspaced(s.drop_last())
    } else {
        unspaced(s.drop_last()).push(s.last())
    }
}

/// The texts of the tokens of a tree, in the order of the tree: a group is
/// its opening bracket, its trees and its closing bracket.
pub open spec fn tree_text(t: TokenTree) -> Seq<char>
    decreases t,
{
    match t {
        TokenTree::Group { delimiter, stream, open, close } => open_text(delimiter) + stream_text(
            stream@,
            stream@.len() as int,
        ) + close_text(delimiter),
        TokenTree::Ident { text, span } => text@,
        TokenTree::Punct { text, span, spacing } => text@,
        TokenTree::Literal { text, span } => text@,
    }
}

/// The texts of the tokens of the first `n` trees of a stream, in order.
pub open spec fn stream_text(s: Seq<TokenTree>, n: int) -> Seq<char>
    decreases s, n,
{
    if n <= 0 || n > s.len() {
        Seq::empty()
    } else {
        stream_text(s, n - 1) + tree_text(s[n - 1])
    }
}

/// The generated text of a printer without its spaces and line feeds.
pub open spec fn unspaced_output(p: Printer) -> Seq<char> {
    unspaced(concat_texts(p.generated))
}

/// Taking the spaces and line feeds out of two texts in a row is taking
/// them out of each.
pub proof fn lemma_unspaced_concat(a: Seq<char>, b: Seq<char>)
    ensures
        unspaced(a + b) == unspaced(a) + unspaced(b),
    decreases b.len(),
{
    if b.len() == 0 {
        assert(a + b =~= a);
        assert(unspaced(a) + unspaced(b) =~= unspaced(a));
    } else {
        lemma_unspaced_concat(a, b.drop_last());
        assert((a + b).drop_last() =~= a + b.drop_last());
        assert((a + b).last() == b.last());
        if !is_layout(b.last()) {
            assert(unspaced(a + b) =~= unspaced(a) + unspaced(b));
        }
    }
}

/// Nothing is left of a text of spaces and line feeds.
proof fn lemma_unspaced_layout(s: Seq<char>)
    requires
        layout_only(s),
    ensures
        unspaced(s) == Seq::<char>::empty(),
    decreases s.len(),
{
    if s.len() > 0 {
        assert(is_layout(s[s.len() - 1]));
        lemma_unspaced_layout(s.drop_last());
    }
}

/// One more chunk adds its text, without spaces and line feeds, to the
/// output without them; a chunk of layout adds nothing.
proof fn lemma_unspaced_push(
    c: Seq<(Seq<char>, Option<usize>)>,
    text: Seq<char>,
    id: Option<usize>,
)
    ensures
        unspaced(concat_texts(c.push((text, id)))) == unspaced(concat_texts(c)) + unspaced(text),
        layout_only(text) ==> unspaced(concat_texts(c.push((text, id)))) == unspaced(
            concat_texts(c),
        ),
{
    assert(c.push((text, id)).drop_last() =~= c);
    lemma_unspaced_concat(concat_texts(c), text);
    if layout_only(text) {
        lemma_unspaced_layout(text);
        assert(unspaced(concat_texts(c)) + unspaced(text) =~= unspaced(concat_texts(c)));
    }
}

/// A line break adds nothing but layout.
proof fn lemma_unspaced_break_line(p: Printer)
    ensures
        unspaced_output(break_line(p)) == unspaced_output(p),
{
    reveal_strlit("\n");
    assert(layout_only("\n"@));
    lemma_unspaced_push(p.generated, "\n"@, None);
}

/// A token's text adds itself, and besides it only layout.
proof fn lemma_unspaced_visit_str(p: Printer, s: Seq<char>, span: Span)
    ensures
        unspaced_output(spec_visit_str(p, s, span)) == unspaced_output(p) + unspaced(s),
{
    if s.len() == 0 {
        assert(unspaced_output(p) + unspaced(s) =~= unspaced_output(p));
    } else {
        let (interned, id) = spec_add_span(p, span);
        lemma_add_span_grows(p, span);
        let stepped = if s == "}"@ {
            let q = Printer {
                indent: if interned.indent > 0 {
                    (interned.indent - 1) as usize
                } else {
                    0
                },
                ..interned
            };
            if q.newline {
                q
            } else {
                lemma_unspaced_break_line(q);
                break_line(q)
            }
        } else {
            interned
        };
        assert(unspaced_output(stepped) == unspaced_output(p));
        if stepped.newline && stepped.indent > 0 {
            let q = Printer { newline: false, ..stepped };
            assert(layout_only(spaces(4 * q.indent as nat)));
            lemma_unspaced_push(q.generated, spaces(4 * q.indent as nat), None);
        }
        let before = before_text(interned, s);
        assert(unspaced_output(before) == unspaced_output(p));
        lemma_unspaced_push(before.generated, s, id);
        let shown = emit(before, s, id);
        if s == "{"@ {
            lemma_unspaced_break_line(
                Printer {
                    indent: if shown.indent < usize::MAX {
                        (shown.indent + 1) as usize
                    } else {
                        shown.indent
                    },
                    ..shown
                },
            );
        } else if s == ";"@ || s == "}"@ {
            lemma_unspaced_break_line(shown);
        }
    }
}

/// A space, where one goes out before a token, adds nothing but layout.
proof fn lemma_unspaced_space(p: Printer)
    ensures
        unspaced_output(emit(p, " "@, None)) == unspaced_output(p),
{
    reveal_strlit(" ");
    assert(layout_only(" "@));
    lemma_unspaced_push(p.generated, " "@, None);
}

/// A tree adds the texts of its tokens, in order, and besides them only
/// layout.
pub proof fn lemma_unspaced_visit_tree(p: Printer, t: TokenTree)
    ensures
        unspaced_output(spec_visit_tree(p, t)) == unspaced_output(p) + unspaced(tree_text(t)),
    decreases t,
{
    match t {
        TokenTree::Group { delimiter, stream, open, close } => {
            let opened = spec_visit_str(p, open_text(delimiter), open);
            lemma_unspaced_visit_str(p, open_text(delimiter), open);
            lemma_unspaced_visit_stream(opened, stream@, stream@.len() as int);
            let inside = spec_visit_stream(opened, stream@, stream@.len() as int);
            lemma_unspaced_visit_str(inside, close_text(delimiter), close);
            let body = stream_text(stream@, stream@.len() as int);
            lemma_unspaced_concat(open_text(delimiter), body);
            lemma_unspaced_concat(open_text(delimiter) + body, close_text(delimiter));
            assert(unspaced_output(spec_visit_tree(p, t)) =~= unspaced_output(p) + unspaced(
                tree_text(t),
            ));
        },
        TokenTree::Ident { text, span } => {
            lemma_unspaced_space(p);
            let spaced = if p.needs_space != NeedsSpace::Never {
                emit(p, " "@, None)
            } else {
                p
            };
            lemma_unspaced_visit_str(spaced, text@, span);
        },
        TokenTree::Punct { text, span, spacing } => {
            lemma_unspaced_space(p);
            let spaced = if p.needs_space == NeedsSpace::Always {
                emit(p, " "@, None)
            } else {
                p
            };
            lemma_unspaced_visit_str(spaced, text@, span);
        },
        TokenTree::Literal { text, span } => {
            lemma_unspaced_space(p);
            let spaced = if p.needs_space != NeedsSpace::Never {
                emit(p, " "@, None)
            } else {
                p
            };
            lemma_unspaced_visit_str(spaced, text@, span);
        },
    }
}

/// A stream adds the texts of its tokens, in order, and besides them only
/// layout.
pub proof fn lemma_unspaced_visit_stream(p: Printer, s: Seq<TokenTree>, n: int)
    ensures
        unspaced_output(spec_visit_stream(p, s, n)) == unspaced_output(p) + unspaced(
            stream_text(s, n),
        ),
    decreases s, n,
{
    if 0 < n <= s.len() {
        lemma_unspaced_visit_stream(p, s, n - 1);
        lemma_unspaced_visit_tree(spec_visit_stream(p, s, n - 1), s[n - 1]);
        lemma_unspaced_concat(stream_text(s, n - 1), tree_text(s[n - 1]));
        assert(unspaced_output(spec_visit_stream(p, s, n)) =~= unspaced_output(p) + unspaced(
            stream_text(s, n),
        ));
    } else {
        assert(unspaced_output(p) + unspaced(stream_text(s, n)) =~= unspaced_output(p));
    }
}

/// The generated text holds the tokens' texts, all of them, each once and
/// in the order of the tree: without its spaces and line feeds it is the
/// texts of the tokens, one after the other, without theirs. What the
/// layout adds is spaces and line feeds only.
pub proof fn lemma_generated_text_is_the_tokens(s: Seq<TokenTree>)
    ensures
        unspaced_output(spec_generate(s)) == unspaced(stream_text(s, s.len() as int)),
{
    lemma_unspaced_visit_stream(initial_printer(), s, s.len() as int);
    assert(concat_texts(initial_printer().generated) =~= Seq::<char>::empty());
    assert(unspaced_output(initial_printer()) + unspaced(stream_text(s, s.len() as int))
        =~= unspaced(stream_text(s, s.len() as int)));
}

/// Whether some chunk of `g` carries the identifier `k`.
pub open spec fn carries(g: Seq<(Seq<char>, Option<usize>)>, k: int) -> bool {
    exists|i: int| 0 <= i < g.len() && (#[trigger] g[i]).1 == Some(k as usize)
}

/// Whether some chunk of `g` before index `i` carries the identifier `k`.
pub open spec fn carried_before(g: Seq<(Seq<char>, Option<usize>)>, i: int, k: int) -> bool {
    exists|j: int| 0 <= j < i && j < g.len() && (#[trigger] g[j]).1 == Some(k as usize)
}

/// The identifiers on the chunks count up: each of the `n` identifiers
/// given so far stands on some chunk, none above them on any, and an
/// identifier other than 0 stands only behind a chunk with the identifier
/// one below it. So the first occurrences read 0, 1, 2 and so on.
pub open spec fn ids_count_up(n: nat, g: Seq<(Seq<char>, Option<usize>)>) -> bool {
    &&& forall|i: int|
        0 <= i < g.len() && (#[trigger] g[i]).1 is Some ==> g[i].1->0 < n && (g[i].1->0 == 0
            || carried_before(g, i, g[i].1->0 - 1))
    &&& forall|k: int| 0 <= k < n ==> #[trigger] carries(g, k)
}

/// One more chunk keeps the identifiers counting up, where it carries no
/// identifier, one given before, or the next free one.
proof fn lemma_ids_push(n: nat, g: Seq<(Seq<char>, Option<usize>)>, text: Seq<char>, id: Option<usize>)
    requires
        ids_count_up(n, g),
        id is Some ==> id->0 <= n,
    ensures
        ids_count_up(
            if id is Some && id->0 == n {
                n + 1
            } else {
                n
            },
            g.push((text, id)),
        ),
{
    let after = g.push((text, id));
    let m: nat = if id is Some && id->0 == n {
        n + 1
    } else {
        n
    };
    assert forall|i: int| 0 <= i < after.len() && (#[trigger] after[i]).1 is Some implies after[i].1->0
        < m && (after[i].1->0 == 0 || carried_before(after, i, after[i].1->0 - 1)) by {
        let k = after[i].1->0;
        if i < g.len() {
            assert(after[i] == g[i]);
            if k != 0 {
                let j = choose|j: int| 0 <= j < i && j < g.len() && (#[trigger] g[j]).1 == Some((k - 1) as usize);
                assert(after[j] == g[j]);
            }
        } else if k != 0 {
            assert(carries(g, k - 1));
            let j = choose|j: int| 0 <= j < g.len() && (#[trigger] g[j]).1 == Some((k - 1) as usize);
            assert(after[j] == g[j]);
        }
    }
    assert forall|k: int| 0 <= k < m implies #[trigger] carries(after, k) by {
        if k < n {
            assert(carries(g, k));
            let i = choose|i: int| 0 <= i < g.len() && (#[trigger] g[i]).1 == Some(k as usize);
            assert(after[i] == g[i]);
        } else {
            assert(after[g.len() as int].1 == Some(k as usize));
        }
    }
}

/// A token's text keeps the identifiers counting up.
proof fn lemma_ids_visit_str(p: Printer, s: Seq<char>, span: Span)
    requires
        ids_count_up(p.ranges.len(), p.generated),
        p.ranges.len() <= usize::MAX,
    ensures
        ids_count_up(spec_visit_str(p, s, span).ranges.len(), spec_visit_str(p, s, span).generated),
{
    if s.len() > 0 {
        let (interned, id) = spec_add_span(p, span);
        lemma_add_span_grows(p, span);
        match span.file {
            Some(path) => {
                let range = Range {
                    source: position_in(p.sources, path@) as usize,
                    start: span.start,
                    end: span.end,
                };
                lemma_position_in(p.ranges, range);
            },
            None => {},
        }
        let n = p.ranges.len();
        let stepped = if s == "}"@ {
            let q = Printer {
                indent: if interned.indent > 0 {
                    (interned.indent - 1) as usize
                } else {
                    0
                },
                ..interned
            };
            if q.newline {
                q
            } else {
                lemma_ids_push(n, q.generated, "\n"@, None);
                break_line(q)
            }
        } else {
            interned
        };
        if stepped.newline && stepped.indent > 0 {
            lemma_ids_push(n, stepped.generated, spaces(4 * stepped.indent as nat), None);
        }
        let before = before_text(interned, s);
        assert(ids_count_up(n, before.generated));
        lemma_ids_push(n, before.generated, s, id);
        let shown = emit(before, s, id);
        let m = interned.ranges.len();
        assert(ids_count_up(m, shown.generated));
        lemma_ids_push(m, shown.generated, "\n"@, None);
    }
}

/// A tree keeps the identifiers counting up.
proof fn lemma_ids_visit_tree(p: Printer, t: TokenTree)
    requires
        ids_count_up(p.ranges.len(), p.generated),
        spec_visit_tree(p, t).ranges.len() <= usize::MAX,
    ensures
        ids_count_up(spec_visit_tree(p, t).ranges.len(), spec_visit_tree(p, t).generated),
    decreases t,
{
    lemma_visit_tree_grows(p, t);
    match t {
        TokenTree::Group { delimiter, stream, open, close } => {
            let opened = spec_visit_str(p, open_text(delimiter), open);
            let inside = spec_visit_stream(opened, stream@, stream@.len() as int);
            lemma_visit_str_grows(p, open_text(delimiter), open);
            lemma_visit_stream_grows(opened, stream@, stream@.len() as int);
            lemma_visit_str_grows(inside, close_text(delimiter), close);
            lemma_ids_visit_str(p, open_text(delimiter), open);
            lemma_ids_visit_stream(opened, stream@, stream@.len() as int);
            lemma_ids_visit_str(inside, close_text(delimiter), close);
        },
        TokenTree::Ident { text, span } => {
            lemma_ids_visit_spaced(p, p.needs_space != NeedsSpace::Never, text@, span);
        },
        TokenTree::Punct { text, span, spacing } => {
            lemma_ids_visit_spaced(p, p.needs_space == NeedsSpace::Always, text@, span);
        },
        TokenTree::Literal { text, span } => {
            lemma_ids_visit_spaced(p, p.needs_space != NeedsSpace::Never, text@, span);
        },
    }
}

/// A token with or without a space before it keeps the identifiers
/// counting up.
proof fn lemma_ids_visit_spaced(p: Printer, space: bool, text: Seq<char>, span: Span)
    requires
        ids_count_up(p.ranges.len(), p.generated),
        p.ranges.len() <= usize::MAX,
    ensures
        ({
            let spaced = if space {
                emit(p, " "@, None)
            } else {
                p
            };
            ids_count_up(
                spec_visit_str(spaced, text, span).ranges.len(),
                spec_visit_str(spaced, text, span).generated,
            )
        }),
{
    lemma_ids_push(p.ranges.len(), p.generated, " "@, None);
    let spaced = if space {
        emit(p, " "@, None)
    } else {
        p
    };
    lemma_ids_visit_str(spaced, text, span);
}

/// A stream keeps the identifiers counting up.
proof fn lemma_ids_visit_stream(p: Printer, s: Seq<TokenTree>, n: int)
    requires
        ids_count_up(p.ranges.len(), p.generated),
        spec_visit_stream(p, s, n).ranges.len() <= usize::MAX,
    ensures
        ids_count_up(spec_visit_stream(p, s, n).ranges.len(), spec_visit_stream(p, s, n).generated),
    decreases s, n,
{
    if 0 < n <= s.len() {
        let before = spec_visit_stream(p, s, n - 1);
        lemma_visit_tree_grows(before, s[n - 1]);
        lemma_ids_visit_stream(p, s, n - 1);
        lemma_ids_visit_tree(before, s[n - 1]);
    }
}

/// In the chunks of a whole stream the identifiers count up from 0 in the
/// order of first encounter: every range of the table stands on a chunk,
/// and a chunk with an identifier other than 0 stands behind one with the
/// identifier one below it.
pub proof fn lemma_generated_ids_count_up(s: Seq<TokenTree>)
    requires
        spec_generate(s).ranges.len() <= usize::MAX,
    ensures
        ids_count_up(spec_generate(s).ranges.len(), spec_generate(s).generated),
{
    lemma_ids_visit_stream(initial_printer(), s, s.len() as int);
}

} // verus!
