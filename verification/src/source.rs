//! The source side: the boundary events of each file, in order, and the
//! sweep that cuts the file's text into chunks tagged with the ranges that
//! are active on them.

use vstd::prelude::*;
use vstd::string::StringExecFns;
use vstd::string::StrSliceExecFns;
use crate::format::{intern, lemma_position_in, position_in, texts, Ranges};
use crate::range::{sep_le, seps_sorted, Range, RangeSeparator, SeparatorType};

verus! {

/// A source file as far as it was loaded: its path, its lines, and the
/// boundary events of the ranges that lie in it.
#[derive(Debug)]
pub struct LoadedSource {
    pub path: String,
    pub text: Vec<String>,
    pub range_seps: Vec<RangeSeparator>,
}

/// A source file that could be read: its path and its whole text.
#[derive(Debug)]
pub struct SourceFile {
    pub path: String,
    pub text: String,
}

/// The chunks of the source side, in order: each a text with the
/// identifiers of the ranges active on it.
#[derive(Debug)]
pub struct SourceParts {
    pub parts: Vec<(String, Vec<usize>)>,
}

/// The chunks that a vector of tagged strings holds.
pub open spec fn parts_view(v: Seq<(String, Vec<usize>)>) -> Seq<(Seq<char>, Seq<usize>)> {
    Seq::new(v.len(), |i: int| (v[i].0@, v[i].1@))
}

impl View for SourceParts {
    type V = Seq<(Seq<char>, Seq<usize>)>;

    open spec fn view(&self) -> Seq<(Seq<char>, Seq<usize>)> {
        parts_view(self.parts@)
    }
}

/// The state of a sweep: the chunks so far, the cursor, and the active
/// identifiers in the order in which they became active.
pub struct Sweep {
    pub parts: Seq<(Seq<char>, Seq<usize>)>,
    pub line: usize,
    pub column: usize,
    pub active: Seq<usize>,
}

/// The sweep with the given chunks, cursor and active identifiers.
pub open spec fn sweep_at(
    parts: Seq<(Seq<char>, Seq<usize>)>,
    line: usize,
    column: usize,
    active: Seq<usize>,
) -> Sweep {
    Sweep { parts, line, column, active }
}

/// `s` with `e` put in behind the last event that sorts at or before it.
pub open spec fn spec_insert_event(s: Seq<RangeSeparator>, e: RangeSeparator) -> Seq<
    RangeSeparator,
>
    decreases s.len(),
{
    if s.len() == 0 {
        seq![e]
    } else if sep_le(s.last(), e) {
        s.push(e)
    } else {
        spec_insert_event(s.drop_last(), e).push(s.last())
    }
}

/// The opening event of the range with identifier `idx`.
pub open spec fn start_event(r: Range, idx: usize) -> RangeSeparator {
    RangeSeparator { pos: r.start, sep: SeparatorType::Start, idx }
}

/// The closing event of the range with identifier `idx`.
pub open spec fn end_event(r: Range, idx: usize) -> RangeSeparator {
    RangeSeparator { pos: r.end, sep: SeparatorType::End, idx }
}

/// The events of the first `n` ranges that lie in file `source`, in order:
/// an opening and a closing one for each such range.
pub open spec fn file_events(ranges: Seq<Range>, source: usize, n: int) -> Seq<RangeSeparator>
    decreases n,
{
    if n <= 0 || n > ranges.len() {
        Seq::empty()
    } else {
        let rest = file_events(ranges, source, n - 1);
        let r = ranges[n - 1];
        if r.source == source {
            spec_insert_event(
                spec_insert_event(rest, start_event(r, (n - 1) as usize)),
                end_event(r, (n - 1) as usize),
            )
        } else {
            rest
        }
    }
}

/// The active identifiers after `id` became active.
pub open spec fn activate(active: Seq<usize>, id: usize) -> Seq<usize> {
    intern(active, id)
}

/// The active identifiers after `id` ceased to be active.
pub open spec fn deactivate(active: Seq<usize>, id: usize) -> Seq<usize> {
    if position_in(active, id) < active.len() {
        active.remove(position_in(active, id))
    } else {
        active
    }
}

/// The characters of `text` from column `from` up to column `to`, as far as
/// the text reaches.
pub open spec fn clip(text: Seq<char>, from: int, to: int) -> Seq<char> {
    let a = if from < text.len() { from } else { text.len() as int };
    let b = if to < text.len() { to } else { text.len() as int };
    if a <= b {
        text.subrange(a, b)
    } else {
        Seq::empty()
    }
}

/// The chunks after the text of line `line` between two columns went out
/// under the identifiers `active`. A line that the file does not have
/// gives no chunk.
pub open spec fn emit_columns(
    parts: Seq<(Seq<char>, Seq<usize>)>,
    lines: Seq<Seq<char>>,
    line: usize,
    from: int,
    to: int,
    active: Seq<usize>,
) -> Seq<(Seq<char>, Seq<usize>)> {
    if 1 <= line <= lines.len() {
        parts.push((clip(lines[line - 1], from, to), active))
    } else {
        parts
    }
}

/// The text of line `line`, or no text where the file has no such line.
pub open spec fn line_or_empty(lines: Seq<Seq<char>>, line: int) -> Seq<char> {
    if 1 <= line <= lines.len() {
        lines[line - 1]
    } else {
        Seq::empty()
    }
}

/// The chunks after the rest of the cursor's line and a line break.
pub open spec fn finish_line(sw: Sweep, lines: Seq<Seq<char>>) -> Seq<(Seq<char>, Seq<usize>)> {
    emit_columns(
        sw.parts,
        lines,
        sw.line,
        sw.column as int,
        line_or_empty(lines, sw.line as int).len() as int,
        sw.active,
    ).push(("\n"@, Seq::empty()))
}

/// The sweep after the cursor went down to line `target`, line by line.
pub open spec fn advance_to_line(sw: Sweep, lines: Seq<Seq<char>>, target: usize) -> Sweep
    decreases target - sw.line,
{
    if sw.line >= target {
        sw
    } else {
        advance_to_line(
            Sweep {
                parts: finish_line(sw, lines),
                line: (sw.line + 1) as usize,
                column: 0,
                ..sw
            },
            lines,
            target,
        )
    }
}

/// The sweep after the cursor went right to column `column` on its line.
pub open spec fn advance_to_column(sw: Sweep, lines: Seq<Seq<char>>, column: usize) -> Sweep {
    if sw.column < column {
        Sweep {
            parts: emit_columns(
                sw.parts,
                lines,
                sw.line,
                sw.column as int,
                column as int,
                sw.active,
            ),
            column,
            ..sw
        }
    } else {
        sw
    }
}

/// The sweep after one event: the text up to the event goes out under the
/// identifiers active so far, then the event's range becomes active or
/// ceases to be.
pub open spec fn sweep_step(sw: Sweep, lines: Seq<Seq<char>>, e: RangeSeparator) -> Sweep {
    let at = advance_to_column(advance_to_line(sw, lines, e.pos.line), lines, e.pos.column);
    Sweep {
        active: match e.sep {
            SeparatorType::Start => activate(at.active, e.idx),
            SeparatorType::End => deactivate(at.active, e.idx),
        },
        ..at
    }
}

/// The sweep after the first `n` events.
pub open spec fn sweep_events(
    sw: Sweep,
    lines: Seq<Seq<char>>,
    events: Seq<RangeSeparator>,
    n: int,
) -> Sweep
    decreases n,
{
    if n <= 0 || n > events.len() {
        sw
    } else {
        sweep_step(sweep_events(sw, lines, events, n - 1), lines, events[n - 1])
    }
}

/// The chunks after the heading of the file `path`.
pub open spec fn file_header(parts: Seq<(Seq<char>, Seq<usize>)>, path: Seq<char>) -> Seq<
    (Seq<char>, Seq<usize>),
> {
    parts.push(("\n"@, Seq::empty())).push(
        ("//======================================"@, Seq::empty()),
    ).push(("\n"@, Seq::empty())).push(("// "@, Seq::empty())).push((path, Seq::empty())).push(
        ("\n"@, Seq::empty()),
    ).push(("//======================================"@, Seq::empty())).push(
        ("\n"@, Seq::empty()),
    )
}

/// The sweep of one file as it starts: at column 0 of the first event's
/// line, with nothing active.
pub open spec fn sweep_start(parts: Seq<(Seq<char>, Seq<usize>)>, first: RangeSeparator) -> Sweep {
    Sweep { parts, line: first.pos.line, column: 0, active: Seq::empty() }
}

/// The chunks after one file: its heading, then its text from the line of
/// the first event to the end of the line of the last, cut at every event.
/// A file without events adds nothing.
pub open spec fn file_section(
    parts: Seq<(Seq<char>, Seq<usize>)>,
    path: Seq<char>,
    lines: Seq<Seq<char>>,
    events: Seq<RangeSeparator>,
) -> Seq<(Seq<char>, Seq<usize>)> {
    if events.len() == 0 {
        parts
    } else {
        finish_line(
            sweep_events(
                sweep_start(file_header(parts, path), events[0]),
                lines,
                events,
                events.len() as int,
            ),
            lines,
        )
    }
}

/// Puts `e` into `v` behind the last event that sorts at or before it.
pub fn insert_event(v: &mut Vec<RangeSeparator>, e: RangeSeparator)
    ensures
        final(v)@ == spec_insert_event(old(v)@, e),
{
    let mut i: usize = v.len();
    proof {
        assert(v@.take(i as int) =~= v@);
        assert(spec_insert_event(v@, e) + v@.skip(i as int) =~= spec_insert_event(v@, e));
    }
    while i > 0 && !v[i - 1].le(&e)
        invariant
            i <= v@.len(),
            *v == *old(v),
            spec_insert_event(v@, e) == spec_insert_event(v@.take(i as int), e) + v@.skip(
                i as int,
            ),
        decreases i,
    {
        proof {
            let head = v@.take(i as int);
            assert(head.drop_last() =~= v@.take(i - 1));
            assert(head.last() == v@[i - 1]);
            assert(spec_insert_event(head.drop_last(), e).push(head.last()) + v@.skip(i as int)
                =~= spec_insert_event(head.drop_last(), e) + v@.skip(i - 1));
        }
        i -= 1;
    }
    proof {
        let head = v@.take(i as int);
        assert(spec_insert_event(head, e) =~= head.push(e));
        assert(v@.insert(i as int, e) =~= head.push(e) + v@.skip(i as int));
    }
    v.insert(i, e);
}

/// Marks `id` as active, behind those that are.
pub fn activate_id(active: &mut Vec<usize>, id: usize)
    ensures
        final(active)@ == activate(old(active)@, id),
{
    let mut i: usize = 0;
    while i < active.len()
        invariant
            i <= active@.len(),
            *active == *old(active),
            forall|j: int| 0 <= j < i ==> active@[j] != id,
        decreases active@.len() - i,
    {
        if active[i] == id {
            proof {
                lemma_position_in(active@, id);
            }
            return ;
        }
        i += 1;
    }
    proof {
        lemma_position_in(active@, id);
    }
    active.push(id);
}

/// Marks `id` as no longer active.
pub fn deactivate_id(active: &mut Vec<usize>, id: usize)
    ensures
        final(active)@ == deactivate(old(active)@, id),
{
    let mut i: usize = 0;
    while i < active.len()
        invariant
            i <= active@.len(),
            *active == *old(active),
            forall|j: int| 0 <= j < i ==> active@[j] != id,
        decreases active@.len() - i,
    {
        if active[i] == id {
            proof {
                lemma_position_in(active@, id);
            }
            active.remove(i);
            return ;
        }
        i += 1;
    }
    proof {
        lemma_position_in(active@, id);
    }
}

impl SourceParts {
    /// Appends the chunk `s` with no identifier.
    pub fn add_unspanned(&mut self, s: &str)
        ensures
            final(self)@ == old(self)@.push((s@, Seq::empty())),
    {
        self.parts.push((String::from_str(s), Vec::new()));
        assert(self@ =~= old(self)@.push((s@, Seq::empty())));
    }

    /// Appends the chunk `s` with the identifiers `indexes`.
    pub fn add(&mut self, s: String, indexes: &Vec<usize>)
        ensures
            final(self)@ == old(self)@.push((s@, indexes@)),
    {
        let mut ids: Vec<usize> = Vec::new();
        let mut i: usize = 0;
        while i < indexes.len()
            invariant
                i <= indexes@.len(),
                ids@ == indexes@.take(i as int),
            decreases indexes@.len() - i,
        {
            ids.push(indexes[i]);
            assert(ids@ =~= indexes@.take(i + 1));
            i += 1;
        }
        assert(ids@ =~= indexes@);
        self.parts.push((s, ids));
        assert(self@ =~= old(self)@.push((s@, indexes@)));
    }

    /// Appends the heading of the file `path`.
    pub fn add_header(&mut self, path: &str)
        ensures
            final(self)@ == file_header(old(self)@, path@),
    {
        self.add_unspanned("\n");
        self.add_unspanned("//======================================");
        self.add_unspanned("\n");
        self.add_unspanned("// ");
        self.add_unspanned(path);
        self.add_unspanned("\n");
        self.add_unspanned("//======================================");
        self.add_unspanned("\n");
    }

    /// Appends the text of line `line` from column `from` up to column
    /// `to`, or to the end of the line where `to` is absent, under the
    /// identifiers `active`, if the file has that line.
    fn add_columns(
        &mut self,
        text: &Vec<String>,
        line: usize,
        from: usize,
        to: Option<usize>,
        active: &Vec<usize>,
    )
        ensures
            final(self)@ == emit_columns(
                old(self)@,
                texts(text@),
                line,
                from as int,
                match to {
                    Some(t) => t as int,
                    None => line_or_empty(texts(text@), line as int).len() as int,
                },
                active@,
            ),
    {
        if 1 <= line && line <= text.len() {
            let line_text = text[line - 1].as_str();
            let len = line_text.unicode_len();
            let a = if from < len { from } else { len };
            let b = match to {
                Some(t) => if t < len { t } else { len },
                None => len,
            };
            if a <= b {
                self.add(String::from_str(line_text.substring_char(a, b)), active);
            } else {
                self.add(String::new(), active);
            }
        }
    }
}

/// Sweeps one file: appends to `parts` its heading and its text from the
/// line of the first event to the end of the line of the last, cut at every
/// event, each chunk under the identifiers then active. A file without
/// events adds nothing; text that the file does not have is left out.
pub fn sweep_source(parts: &mut SourceParts, loaded: &LoadedSource)
    ensures
        final(parts)@ == file_section(
            old(parts)@,
            loaded.path@,
            texts(loaded.text@),
            loaded.range_seps@,
        ),
{
    if loaded.range_seps.len() == 0 {
        return ;
    }
    parts.add_header(loaded.path.as_str());
    let ghost lines = texts(loaded.text@);
    let ghost events = loaded.range_seps@;
    let ghost start = sweep_start(parts@, events[0]);
    let mut active: Vec<usize> = Vec::new();
    let mut line: usize = loaded.range_seps[0].pos.line;
    let mut column: usize = 0;
    let mut k: usize = 0;
    assert(active@ =~= Seq::empty());
    while k < loaded.range_seps.len()
        invariant
            k <= events.len(),
            events == loaded.range_seps@,
            lines == texts(loaded.text@),
            sweep_at(parts@, line, column, active@) == sweep_events(
                start,
                lines,
                events,
                k as int,
            ),
        decreases events.len() - k,
    {
        let e = loaded.range_seps[k];
        let ghost before = sweep_at(parts@, line, column, active@);
        while line < e.pos.line
            invariant
                lines == texts(loaded.text@),
                advance_to_line(sweep_at(parts@, line, column, active@), lines, e.pos.line)
                    == advance_to_line(before, lines, e.pos.line),
            decreases e.pos.line - line,
        {
            parts.add_columns(&loaded.text, line, column, None, &active);
            parts.add_unspanned("\n");
            line += 1;
            column = 0;
        }
        if column < e.pos.column {
            parts.add_columns(&loaded.text, line, column, Some(e.pos.column), &active);
            column = e.pos.column;
        }
        match e.sep {
            SeparatorType::Start => activate_id(&mut active, e.idx),
            SeparatorType::End => deactivate_id(&mut active, e.idx),
        }
        k += 1;
    }
    parts.add_columns(&loaded.text, line, column, None, &active);
    parts.add_unspanned("\n");
}

/// The boundary events of the ranges of `ranges` that lie in file
/// `source`, in order.
pub fn collect_events(ranges: &Ranges, source: usize) -> (seps: Vec<RangeSeparator>)
    ensures
        seps@ == file_events(ranges.ranges@, source, ranges.ranges@.len() as int),
        seps_sorted(seps@),
{
    proof {
        lemma_file_events_sorted(ranges.ranges@, source, ranges.ranges@.len() as int);
    }
    let mut seps: Vec<RangeSeparator> = Vec::new();
    let mut i: usize = 0;
    assert(seps@ =~= Seq::empty());
    while i < ranges.ranges.len()
        invariant
            i <= ranges.ranges@.len(),
            seps@ == file_events(ranges.ranges@, source, i as int),
        decreases ranges.ranges@.len() - i,
    {
        let r = ranges.ranges[i];
        if r.source == source {
            insert_event(&mut seps, RangeSeparator { pos: r.start, sep: SeparatorType::Start, idx: i });
            insert_event(&mut seps, RangeSeparator { pos: r.end, sep: SeparatorType::End, idx: i });
        }
        i += 1;
    }
    seps
}

/// The paths of a list of files.
pub open spec fn paths_of(files: Seq<SourceFile>) -> Seq<Seq<char>> {
    Seq::new(files.len(), |i: int| files[i].path@)
}

/// A line without the carriage return that stood before its line feed.
pub open spec fn without_carriage_return(line: Seq<char>) -> Seq<char> {
    if line.len() > 0 && line.last() == '\r' {
        line.drop_last()
    } else {
        line
    }
}

/// The lines of a text: it is cut at every line feed, the line feed and one
/// carriage return before it are left out, and what follows the last line
/// feed is a line of its own unless it is empty.
pub open spec fn line_texts(text: Seq<char>) -> Seq<Seq<char>>
    decreases text.len(),
{
    let k = position_in(text, '\n');
    if text.len() == 0 {
        Seq::empty()
    } else if 0 <= k < text.len() {
        seq![without_carriage_return(text.take(k))] + line_texts(text.skip(k + 1))
    } else {
        seq![text]
    }
}

/// Whether a text holds no line feed.
pub open spec fn no_line_feed(s: Seq<char>) -> bool {
    forall|j: int| 0 <= j < s.len() ==> s[j] != '\n'
}

/// No line of a text holds a line feed.
pub proof fn lemma_lines_hold_no_line_feed(text: Seq<char>)
    ensures
        forall|i: int| 0 <= i < line_texts(text).len() ==> no_line_feed(#[trigger] line_texts(text)[i]),
    decreases text.len(),
{
    lemma_position_in(text, '\n');
    let k = position_in(text, '\n');
    if text.len() > 0 && k < text.len() {
        let head = without_carriage_return(text.take(k));
        let rest = line_texts(text.skip(k + 1));
        lemma_lines_hold_no_line_feed(text.skip(k + 1));
        assert forall|j: int| 0 <= j < head.len() implies head[j] != '\n' by {
            assert(head[j] == text[j]);
        }
        assert forall|i: int| 0 <= i < line_texts(text).len() implies no_line_feed(
            #[trigger] line_texts(text)[i],
        ) by {
            if i > 0 {
                assert(line_texts(text)[i] == rest[i - 1]);
            } else {
                assert(line_texts(text)[0] == head);
            }
        }
    }
}

/// Calls `str::lines` of the standard library and collects the lines as
/// owned strings. Believed, not proved: the text is cut at every line feed,
/// a carriage return before a line feed goes with it, and a last line
/// without a line feed is kept as it is.
#[verifier::external_body]
fn split_lines(text: &str) -> (r: Vec<String>)
    ensures
        texts(r@) == line_texts(text@),
{
    text.lines().map(String::from).collect()
}

/// The index of the first file of `files` with the path `path`, if there
/// is one.
pub fn find_file(files: &Vec<SourceFile>, path: &String) -> (r: Option<usize>)
    ensures
        match r {
            Some(i) => i < files@.len() && i == position_in(paths_of(files@), path@),
            None => position_in(paths_of(files@), path@) == files@.len(),
        },
{
    let ghost paths = paths_of(files@);
    let mut i: usize = 0;
    while i < files.len()
        invariant
            i <= files@.len(),
            paths == paths_of(files@),
            forall|j: int| 0 <= j < i ==> paths[j] != path@,
        decreases files@.len() - i,
    {
        if files[i].path == *path {
            proof {
                assert(paths[i as int] == path@);
                lemma_position_in(paths, path@);
            }
            return Some(i);
        }
        i += 1;
    }
    proof {
        lemma_position_in(paths, path@);
    }
    None
}

/// The chunks of the source side after the first `n` files of the table:
/// for each file whose path is among `files`, in the order of the files'
/// identifiers, the section of that file. A file that is not among `files`
/// adds nothing.
pub open spec fn spec_load(
    sources: Seq<Seq<char>>,
    ranges: Seq<Range>,
    files: Seq<SourceFile>,
    n: int,
) -> Seq<(Seq<char>, Seq<usize>)>
    decreases n,
{
    if n <= 0 || n > sources.len() {
        Seq::empty()
    } else {
        let rest = spec_load(sources, ranges, files, n - 1);
        let p = position_in(paths_of(files), sources[n - 1]);
        if p < files.len() {
            file_section(
                rest,
                sources[n - 1],
                line_texts(files[p].text@),
                file_events(ranges, (n - 1) as usize, ranges.len() as int),
            )
        } else {
            rest
        }
    }
}

/// Builds the source side: for every file of the table that is among
/// `files`, its section; the files in the order of their identifiers. A
/// file that is not among `files` could not be read and is left out.
pub fn load_original_source(ranges: &Ranges, files: &Vec<SourceFile>) -> (res: SourceParts)
    ensures
        res@ == spec_load(
            texts(ranges.sources@),
            ranges.ranges@,
            files@,
            ranges.sources@.len() as int,
        ),
{
    let mut source_parts = SourceParts { parts: Vec::new() };
    assert(source_parts@ =~= Seq::empty());
    let mut i: usize = 0;
    while i < ranges.sources.len()
        invariant
            i <= ranges.sources@.len(),
            source_parts@ == spec_load(texts(ranges.sources@), ranges.ranges@, files@, i as int),
        decreases ranges.sources@.len() - i,
    {
        match find_file(files, &ranges.sources[i]) {
            Some(p) => {
                let loaded = LoadedSource {
                    path: ranges.sources[i].clone(),
                    text: split_lines(files[p].text.as_str()),
                    range_seps: collect_events(ranges, i),
                };
                sweep_source(&mut source_parts, &loaded);
            },
            None => {},
        }
        i += 1;
    }
    source_parts
}

/// A file of the table that is not among the files read leaves the source
/// side as it was.
pub proof fn lemma_missing_file_adds_nothing(
    sources: Seq<Seq<char>>,
    ranges: Seq<Range>,
    files: Seq<SourceFile>,
    n: int,
)
    requires
        0 < n <= sources.len(),
        !paths_of(files).contains(sources[n - 1]),
    ensures
        spec_load(sources, ranges, files, n) == spec_load(sources, ranges, files, n - 1),
{
    lemma_position_in(paths_of(files), sources[n - 1]);
}

/// The active identifiers behave as a set: none stands twice, an
/// identifier is active after it became so, not active after it ceased to
/// be, and no other identifier is touched.
pub proof fn lemma_active_ids_form_a_set(active: Seq<usize>, id: usize)
    requires
        active.no_duplicates(),
    ensures
        activate(active, id).no_duplicates(),
        forall|x: usize| #[trigger]
            activate(active, id).contains(x) <==> (x == id || active.contains(x)),
        deactivate(active, id).no_duplicates(),
        forall|x: usize| #[trigger]
            deactivate(active, id).contains(x) <==> (x != id && active.contains(x)),
{
    lemma_position_in(active, id);
    let p = position_in(active, id);
    let on = activate(active, id);
    let off = deactivate(active, id);
    assert forall|x: usize| #[trigger] on.contains(x) <==> (x == id || active.contains(x)) by {
        if on.contains(x) {
            let i = choose|i: int| 0 <= i < on.len() && on[i] == x;
            if i < active.len() {
                assert(active[i] == x);
            }
        }
        if active.contains(x) {
            let i = choose|i: int| 0 <= i < active.len() && active[i] == x;
            assert(on[i] == x);
        }
        if x == id {
            assert(on[p] == x);
        }
    }
    assert forall|x: usize| #[trigger] off.contains(x) <==> (x != id && active.contains(x)) by {
        if off.contains(x) {
            let i = choose|i: int| 0 <= i < off.len() && off[i] == x;
            if p < active.len() {
                if i < p {
                    assert(active[i] == x);
                } else {
                    assert(active[i + 1] == x);
                }
            } else {
                assert(active[i] == x);
            }
        }
        if x != id && active.contains(x) {
            let i = choose|i: int| 0 <= i < active.len() && active[i] == x;
            if p < active.len() {
                if i < p {
                    assert(off[i] == x);
                } else {
                    assert(off[i - 1] == x);
                }
            } else {
                assert(off[i] == x);
            }
        }
    }
}

/// What `spec_insert_event` does to a list in order: the list stays in
/// order, grows by one, and holds `e` and what it held.
pub proof fn lemma_insert_event_sorted(s: Seq<RangeSeparator>, e: RangeSeparator)
    requires
        seps_sorted(s),
    ensures
        seps_sorted(spec_insert_event(s, e)),
        spec_insert_event(s, e).len() == s.len() + 1,
        forall|x: RangeSeparator|
            #[trigger] spec_insert_event(s, e).contains(x) <==> (x == e || s.contains(x)),
        spec_insert_event(s, e).to_multiset() == s.to_multiset().insert(e),
    decreases s.len(),
{
    broadcast use vstd::seq_lib::group_to_multiset_ensures;

    let r = spec_insert_event(s, e);
    if s.len() == 0 {
        assert(r[0] == e);
        assert(s =~= Seq::empty());
        assert(r =~= s.push(e));
    } else if sep_le(s.last(), e) {
        assert(r[s.len() as int] == e);
        assert forall|x: RangeSeparator| s.contains(x) implies r.contains(x) by {
            let i = choose|i: int| 0 <= i < s.len() && s[i] == x;
            assert(r[i] == x);
        }
    } else {
        let head = s.drop_last();
        let t = spec_insert_event(head, e);
        lemma_insert_event_sorted(head, e);
        assert(s =~= head.push(s.last()));
        assert(r[t.len() as int] == s.last());
        assert forall|x: RangeSeparator| r.contains(x) <==> (x == e || s.contains(x)) by {
            if r.contains(x) {
                let i = choose|i: int| 0 <= i < r.len() && r[i] == x;
                if i < t.len() {
                    assert(t[i] == x);
                    assert(t.contains(x));
                    if x != e {
                        assert(head.contains(x));
                        let j = choose|j: int| 0 <= j < head.len() && head[j] == x;
                        assert(s[j] == x);
                    }
                } else {
                    assert(s[s.len() - 1] == x);
                }
            }
            if x == e || s.contains(x) {
                if x == s.last() {
                    assert(r[t.len() as int] == x);
                } else {
                    if x != e {
                        let j = choose|j: int| 0 <= j < s.len() && s[j] == x;
                        assert(head[j] == x);
                        assert(head.contains(x));
                    }
                    assert(t.contains(x));
                    let i = choose|i: int| 0 <= i < t.len() && t[i] == x;
                    assert(r[i] == x);
                }
            }
        }
        assert forall|i: int, j: int| 0 <= i < j < r.len() implies sep_le(r[i], r[j]) by {
            if j == t.len() {
                let x = t[i];
                assert(t.contains(x));
                if x != e {
                    assert(head.contains(x));
                    let k = choose|k: int| 0 <= k < head.len() && head[k] == x;
                    assert(sep_le(s[k], s[s.len() - 1]));
                }
            } else {
                assert(sep_le(t[i], t[j]));
            }
        }
        assert(r.to_multiset() =~= s.to_multiset().insert(e));
    }
}

/// The events of a file are in order.
pub proof fn lemma_file_events_sorted(ranges: Seq<Range>, source: usize, n: int)
    ensures
        seps_sorted(file_events(ranges, source, n)),
    decreases n,
{
    if 0 < n <= ranges.len() {
        lemma_file_events_sorted(ranges, source, n - 1);
        let rest = file_events(ranges, source, n - 1);
        let r = ranges[n - 1];
        if r.source == source {
            lemma_insert_event_sorted(rest, start_event(r, (n - 1) as usize));
            lemma_insert_event_sorted(
                spec_insert_event(rest, start_event(r, (n - 1) as usize)),
                end_event(r, (n - 1) as usize),
            );
        }
    }
}

/// The events of a file are the two ends of each range that lies in it,
/// and nothing else: an event is among them if and only if it is the
/// opening or the closing event of such a range, under the range's
/// identifier.
pub proof fn lemma_file_events_are_range_ends(ranges: Seq<Range>, source: usize, n: int)
    requires
        0 <= n <= ranges.len() <= usize::MAX,
    ensures
        forall|e: RangeSeparator| #[trigger]
            file_events(ranges, source, n).contains(e) <==> (e.idx < n && ranges[e.idx as int].source
                == source && (e == start_event(ranges[e.idx as int], e.idx) || e == end_event(
                ranges[e.idx as int],
                e.idx,
            ))),
    decreases n,
{
    if n > 0 {
        lemma_file_events_are_range_ends(ranges, source, n - 1);
        lemma_file_events_sorted(ranges, source, n - 1);
        let rest = file_events(ranges, source, n - 1);
        let r = ranges[n - 1];
        if r.source == source {
            let opening = start_event(r, (n - 1) as usize);
            let with_start = spec_insert_event(rest, opening);
            lemma_insert_event_sorted(rest, opening);
            lemma_insert_event_sorted(with_start, end_event(r, (n - 1) as usize));
            assert forall|e: RangeSeparator| #[trigger]
                file_events(ranges, source, n).contains(e) <==> (e.idx < n
                    && ranges[e.idx as int].source == source && (e == start_event(
                    ranges[e.idx as int],
                    e.idx,
                ) || e == end_event(ranges[e.idx as int], e.idx))) by {
                assert(with_start.contains(e) <==> (e == opening || rest.contains(e)));
            }
        }
    } else {
        assert(file_events(ranges, source, n) =~= Seq::empty());
    }
}

/// The texts of a chunk sequence, one after the other.
pub open spec fn parts_text(parts: Seq<(Seq<char>, Seq<usize>)>) -> Seq<char>
    decreases parts.len(),
{
    if parts.len() == 0 {
        Seq::empty()
    } else {
        parts_text(parts.drop_last()) + parts.last().0
    }
}

/// The lines from `from` up to, not including, `to`, each with a line
/// break behind it; a line that the file does not have counts as empty.
pub open spec fn lines_text(lines: Seq<Seq<char>>, from: int, to: int) -> Seq<char>
    decreases to - from,
{
    if to <= from {
        Seq::empty()
    } else {
        lines_text(lines, from, to - 1) + line_or_empty(lines, to - 1) + "\n"@
    }
}

/// The chunks of a sweep hold, without gap or overlap, the text `base`
/// that was there before, the lines from `first` to the cursor's line, and
/// the cursor's line up to the cursor's column.
pub open spec fn covered(sw: Sweep, lines: Seq<Seq<char>>, base: Seq<char>, first: int) -> bool {
    &&& first <= sw.line
    &&& parts_text(sw.parts) == base + lines_text(lines, first, sw.line as int) + clip(
        line_or_empty(lines, sw.line as int),
        0,
        sw.column as int,
    )
}

/// The text of a chunk sequence with one more chunk.
pub proof fn lemma_parts_text_push(parts: Seq<(Seq<char>, Seq<usize>)>, c: (Seq<char>, Seq<usize>))
    ensures
        parts_text(parts.push(c)) == parts_text(parts) + c.0,
{
    assert(parts.push(c).drop_last() =~= parts);
}

/// Finishing a line adds what is left of it and a line break.
proof fn lemma_finish_line(sw: Sweep, lines: Seq<Seq<char>>, base: Seq<char>, first: int)
    requires
        covered(sw, lines, base, first),
    ensures
        parts_text(finish_line(sw, lines)) == base + lines_text(lines, first, sw.line + 1),
{
    let text = line_or_empty(lines, sw.line as int);
    let rest = clip(text, sw.column as int, text.len() as int);
    let emitted = emit_columns(
        sw.parts,
        lines,
        sw.line,
        sw.column as int,
        text.len() as int,
        sw.active,
    );
    if 1 <= sw.line <= lines.len() {
        lemma_parts_text_push(sw.parts, (rest, sw.active));
    } else {
        assert(rest =~= Seq::empty());
    }
    assert(parts_text(emitted) =~= parts_text(sw.parts) + rest);
    lemma_parts_text_push(emitted, ("\n"@, Seq::empty()));
    assert(clip(text, 0, sw.column as int) + rest =~= text);
    assert(parts_text(finish_line(sw, lines)) =~= base + lines_text(lines, first, sw.line as int)
        + text + "\n"@);
    assert(lines_text(lines, first, sw.line + 1) =~= lines_text(lines, first, sw.line as int)
        + text + "\n"@);
}

/// Going down to a line that is not above the cursor keeps the cover and
/// ends on that line.
proof fn lemma_advance_to_line(
    sw: Sweep,
    lines: Seq<Seq<char>>,
    target: usize,
    base: Seq<char>,
    first: int,
)
    requires
        covered(sw, lines, base, first),
        sw.line <= target,
    ensures
        covered(advance_to_line(sw, lines, target), lines, base, first),
        advance_to_line(sw, lines, target).line == target,
    decreases target - sw.line,
{
    if sw.line < target {
        lemma_finish_line(sw, lines, base, first);
        let next = Sweep {
            parts: finish_line(sw, lines),
            line: (sw.line + 1) as usize,
            column: 0,
            ..sw
        };
        assert(clip(line_or_empty(lines, next.line as int), 0, 0) =~= Seq::empty());
        assert(parts_text(next.parts) =~= base + lines_text(lines, first, next.line as int) + clip(
            line_or_empty(lines, next.line as int),
            0,
            0,
        ));
        lemma_advance_to_line(next, lines, target, base, first);
    }
}

/// One event at or below the cursor's line keeps the cover and ends on the
/// event's line.
proof fn lemma_sweep_step(
    sw: Sweep,
    lines: Seq<Seq<char>>,
    e: RangeSeparator,
    base: Seq<char>,
    first: int,
)
    requires
        covered(sw, lines, base, first),
        sw.line <= e.pos.line,
    ensures
        covered(sweep_step(sw, lines, e), lines, base, first),
        sweep_step(sw, lines, e).line == e.pos.line,
{
    lemma_advance_to_line(sw, lines, e.pos.line, base, first);
    let at = advance_to_line(sw, lines, e.pos.line);
    let text = line_or_empty(lines, at.line as int);
    if at.column < e.pos.column {
        let piece = clip(text, at.column as int, e.pos.column as int);
        if 1 <= at.line <= lines.len() {
            lemma_parts_text_push(at.parts, (piece, at.active));
        } else {
            assert(piece =~= Seq::empty());
        }
        let moved = advance_to_column(at, lines, e.pos.column);
        assert(parts_text(moved.parts) =~= parts_text(at.parts) + piece);
        assert(clip(text, 0, at.column as int) + piece =~= clip(text, 0, e.pos.column as int));
        assert(parts_text(moved.parts) =~= base + lines_text(lines, first, moved.line as int)
            + clip(text, 0, moved.column as int));
    }
}

/// The first `n` events of a list in order keep the cover, and the cursor
/// ends on the line of the last of them.
proof fn lemma_sweep_events(
    sw: Sweep,
    lines: Seq<Seq<char>>,
    events: Seq<RangeSeparator>,
    n: int,
    base: Seq<char>,
    first: int,
)
    requires
        seps_sorted(events),
        0 <= n <= events.len(),
        events.len() > 0,
        covered(sw, lines, base, first),
        sw.line == events[0].pos.line,
    ensures
        covered(sweep_events(sw, lines, events, n), lines, base, first),
        sweep_events(sw, lines, events, n).line == (if n == 0 {
            events[0].pos.line
        } else {
            events[n - 1].pos.line
        }),
    decreases n,
{
    if n > 0 {
        lemma_sweep_events(sw, lines, events, n - 1, base, first);
        if n > 1 {
            assert(sep_le(events[n - 2], events[n - 1]));
        }
        lemma_sweep_step(sweep_events(sw, lines, events, n - 1), lines, events[n - 1], base, first);
    }
}

/// The section of a file covers its text without gap or overlap: behind
/// the heading, the texts of its chunks, one after the other, are the lines
/// of the file from the line of the first event to the line of the last,
/// whole and each once, with a line break behind each. Nothing of a line
/// above the first event's is among them. A line that the file does not
/// have counts as empty.
pub proof fn lemma_section_covers_lines(
    parts: Seq<(Seq<char>, Seq<usize>)>,
    path: Seq<char>,
    lines: Seq<Seq<char>>,
    events: Seq<RangeSeparator>,
)
    requires
        events.len() > 0,
        seps_sorted(events),
    ensures
        parts_text(file_section(parts, path, lines, events)) == parts_text(
            file_header(parts, path),
        ) + lines_text(lines, events[0].pos.line as int, events.last().pos.line + 1),
{
    let base = parts_text(file_header(parts, path));
    let first = events[0].pos.line as int;
    let start = sweep_start(file_header(parts, path), events[0]);
    assert(clip(line_or_empty(lines, first), 0, 0) =~= Seq::empty());
    assert(parts_text(start.parts) =~= base + lines_text(lines, first, first) + clip(
        line_or_empty(lines, first),
        0,
        0,
    ));
    lemma_sweep_events(start, lines, events, events.len() as int, base, first);
    lemma_finish_line(sweep_events(start, lines, events, events.len() as int), lines, base, first);
}

/// Whether a chunk lies within one line: it is a line break with no
/// identifier, or its text holds no line feed.
pub open spec fn chunk_in_line(c: (Seq<char>, Seq<usize>)) -> bool {
    (c.0 == "\n"@ && c.1.len() == 0) || no_line_feed(c.0)
}

/// Whether every chunk from index `from` on lies within one line.
pub open spec fn chunks_in_lines(parts: Seq<(Seq<char>, Seq<usize>)>, from: int) -> bool {
    0 <= from <= parts.len() && forall|i: int|
        from <= i < parts.len() ==> chunk_in_line(#[trigger] parts[i])
}

/// Whether no line holds a line feed.
pub open spec fn lines_unbroken(lines: Seq<Seq<char>>) -> bool {
    forall|i: int| 0 <= i < lines.len() ==> no_line_feed(#[trigger] lines[i])
}

/// A piece of a line lies within that line.
proof fn lemma_emit_columns_in_lines(
    parts: Seq<(Seq<char>, Seq<usize>)>,
    lines: Seq<Seq<char>>,
    line: usize,
    a: int,
    b: int,
    active: Seq<usize>,
    from: int,
)
    requires
        chunks_in_lines(parts, from),
        lines_unbroken(lines),
        0 <= a,
    ensures
        chunks_in_lines(emit_columns(parts, lines, line, a, b, active), from),
        chunks_in_lines(
            emit_columns(parts, lines, line, a, b, active).push(("\n"@, Seq::empty())),
            from,
        ),
{
    let out = emit_columns(parts, lines, line, a, b, active);
    if 1 <= line <= lines.len() {
        let text = lines[line - 1];
        assert(no_line_feed(text));
        let piece = clip(text, a, b);
        let lo = if a < text.len() { a } else { text.len() as int };
        assert forall|j: int| 0 <= j < piece.len() implies piece[j] != '\n' by {
            assert(piece[j] == text[lo + j]);
        }
        assert(no_line_feed(piece));
        assert forall|i: int| from <= i < out.len() implies chunk_in_line(#[trigger] out[i]) by {
            if i < parts.len() {
                assert(out[i] == parts[i]);
            }
        }
    }
    let broken = out.push(("\n"@, Seq::empty()));
    assert forall|i: int| from <= i < broken.len() implies chunk_in_line(#[trigger] broken[i]) by {
        if i < out.len() {
            assert(broken[i] == out[i]);
        }
    }
}

/// Going down to a line keeps every chunk within one line.
proof fn lemma_advance_in_lines(sw: Sweep, lines: Seq<Seq<char>>, target: usize, from: int)
    requires
        chunks_in_lines(sw.parts, from),
        lines_unbroken(lines),
    ensures
        chunks_in_lines(advance_to_line(sw, lines, target).parts, from),
    decreases target - sw.line,
{
    if sw.line < target {
        lemma_emit_columns_in_lines(
            sw.parts,
            lines,
            sw.line,
            sw.column as int,
            line_or_empty(lines, sw.line as int).len() as int,
            sw.active,
            from,
        );
        let next = Sweep {
            parts: finish_line(sw, lines),
            line: (sw.line + 1) as usize,
            column: 0,
            ..sw
        };
        lemma_advance_in_lines(next, lines, target, from);
    }
}

/// The first `n` events keep every chunk within one line.
proof fn lemma_events_in_lines(
    sw: Sweep,
    lines: Seq<Seq<char>>,
    events: Seq<RangeSeparator>,
    n: int,
    from: int,
)
    requires
        chunks_in_lines(sw.parts, from),
        lines_unbroken(lines),
    ensures
        chunks_in_lines(sweep_events(sw, lines, events, n).parts, from),
    decreases n,
{
    if 0 < n <= events.len() {
        lemma_events_in_lines(sw, lines, events, n - 1, from);
        let before = sweep_events(sw, lines, events, n - 1);
        let e = events[n - 1];
        lemma_advance_in_lines(before, lines, e.pos.line, from);
        let at = advance_to_line(before, lines, e.pos.line);
        lemma_emit_columns_in_lines(
            at.parts,
            lines,
            at.line,
            at.column as int,
            e.pos.column as int,
            at.active,
            from,
        );
    }
}

/// Behind its heading, every chunk of a file's section lies within one
/// line: where no line of the file holds a line feed, a chunk is a line
/// break with no identifier, or its text holds no line feed.
pub proof fn lemma_section_chunks_stay_in_lines(
    parts: Seq<(Seq<char>, Seq<usize>)>,
    path: Seq<char>,
    lines: Seq<Seq<char>>,
    events: Seq<RangeSeparator>,
)
    requires
        events.len() > 0,
        lines_unbroken(lines),
    ensures
        chunks_in_lines(
            file_section(parts, path, lines, events),
            file_header(parts, path).len() as int,
        ),
{
    let from = file_header(parts, path).len() as int;
    let start = sweep_start(file_header(parts, path), events[0]);
    lemma_events_in_lines(start, lines, events, events.len() as int, from);
    let end = sweep_events(start, lines, events, events.len() as int);
    lemma_emit_columns_in_lines(
        end.parts,
        lines,
        end.line,
        end.column as int,
        line_or_empty(lines, end.line as int).len() as int,
        end.active,
        from,
    );
}

/// The same of a file given by its text: behind the heading, every chunk
/// of its section is a line break with no identifier, or holds no line
/// feed.
pub proof fn lemma_file_chunks_stay_in_lines(
    parts: Seq<(Seq<char>, Seq<usize>)>,
    path: Seq<char>,
    text: Seq<char>,
    events: Seq<RangeSeparator>,
)
    requires
        events.len() > 0,
    ensures
        chunks_in_lines(
            file_section(parts, path, line_texts(text), events),
            file_header(parts, path).len() as int,
        ),
{
    lemma_lines_hold_no_line_feed(text);
    lemma_section_chunks_stay_in_lines(parts, path, line_texts(text), events);
}

/// Two sweeps in step: the same cursor and active identifiers, and the
/// chunks of `a` are `prefix` and then the chunks of `b`.
pub open spec fn in_step(a: Sweep, b: Sweep, prefix: Seq<(Seq<char>, Seq<usize>)>) -> bool {
    &&& a.parts == prefix + b.parts
    &&& a.line == b.line
    &&& a.column == b.column
    &&& a.active == b.active
}

/// Sweeps in step stay in step when the rest of a line goes out.
proof fn lemma_finish_line_in_step(
    a: Sweep,
    b: Sweep,
    prefix: Seq<(Seq<char>, Seq<usize>)>,
    lines: Seq<Seq<char>>,
)
    requires
        in_step(a, b, prefix),
    ensures
        finish_line(a, lines) == prefix + finish_line(b, lines),
{
    assert(finish_line(a, lines) =~= prefix + finish_line(b, lines));
}

/// Sweeps in step stay in step on the way down to a line.
proof fn lemma_advance_in_step(
    a: Sweep,
    b: Sweep,
    prefix: Seq<(Seq<char>, Seq<usize>)>,
    lines: Seq<Seq<char>>,
    target: usize,
)
    requires
        in_step(a, b, prefix),
    ensures
        in_step(advance_to_line(a, lines, target), advance_to_line(b, lines, target), prefix),
    decreases target - a.line,
{
    if a.line < target {
        lemma_finish_line_in_step(a, b, prefix, lines);
        let na = Sweep { parts: finish_line(a, lines), line: (a.line + 1) as usize, column: 0, ..a };
        let nb = Sweep { parts: finish_line(b, lines), line: (b.line + 1) as usize, column: 0, ..b };
        lemma_advance_in_step(na, nb, prefix, lines, target);
    }
}

/// Sweeps in step stay in step over the first `n` events.
proof fn lemma_events_in_step(
    a: Sweep,
    b: Sweep,
    prefix: Seq<(Seq<char>, Seq<usize>)>,
    lines: Seq<Seq<char>>,
    events: Seq<RangeSeparator>,
    n: int,
)
    requires
        in_step(a, b, prefix),
    ensures
        in_step(sweep_events(a, lines, events, n), sweep_events(b, lines, events, n), prefix),
    decreases n,
{
    if 0 < n <= events.len() {
        lemma_events_in_step(a, b, prefix, lines, events, n - 1);
        let ea = sweep_events(a, lines, events, n - 1);
        let eb = sweep_events(b, lines, events, n - 1);
        let e = events[n - 1];
        lemma_advance_in_step(ea, eb, prefix, lines, e.pos.line);
        let aa = advance_to_line(ea, lines, e.pos.line);
        let ab = advance_to_line(eb, lines, e.pos.line);
        assert(advance_to_column(aa, lines, e.pos.column).parts =~= prefix + advance_to_column(
            ab,
            lines,
            e.pos.column,
        ).parts);
    }
}

/// The section of a file does not depend on what stands before it: it is
/// appended to the chunks so far, and is the same whatever they are. So
/// the chunks of one file are the same whether or not another file of the
/// table could be read.
pub proof fn lemma_section_is_appended(
    parts: Seq<(Seq<char>, Seq<usize>)>,
    path: Seq<char>,
    lines: Seq<Seq<char>>,
    events: Seq<RangeSeparator>,
)
    ensures
        file_section(parts, path, lines, events) == parts + file_section(
            Seq::empty(),
            path,
            lines,
            events,
        ),
{
    let none = Seq::<(Seq<char>, Seq<usize>)>::empty();
    if events.len() == 0 {
        assert(parts =~= parts + none);
    } else {
        let a = sweep_start(file_header(parts, path), events[0]);
        let b = sweep_start(file_header(none, path), events[0]);
        assert(a.parts =~= parts + b.parts);
        lemma_events_in_step(a, b, parts, lines, events, events.len() as int);
        lemma_finish_line_in_step(
            sweep_events(a, lines, events, events.len() as int),
            sweep_events(b, lines, events, events.len() as int),
            parts,
            lines,
        );
    }
}

/// The events of a file depend only on the ranges that lie in it: two
/// tables that agree on which ranges lie in the file, and on those ranges,
/// give the same events, whatever the ranges in other files are.
pub proof fn lemma_file_events_ignore_other_files(
    first: Seq<Range>,
    second: Seq<Range>,
    source: usize,
    n: int,
)
    requires
        0 <= n <= first.len(),
        first.len() == second.len(),
        forall|i: int|
            0 <= i < n ==> ((#[trigger] first[i]).source == source <==> (#[trigger] second[i]).source
                == source),
        forall|i: int| 0 <= i < n && (#[trigger] first[i]).source == source ==> first[i] == second[i],
    ensures
        file_events(first, source, n) == file_events(second, source, n),
    decreases n,
{
    if n > 0 {
        lemma_file_events_ignore_other_files(first, second, source, n - 1);
        assert(first[n - 1].source == source <==> second[n - 1].source == source);
    }
}

} // verus!
