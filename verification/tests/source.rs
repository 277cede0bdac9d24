use expansion_view::format::Ranges;
use expansion_view::range::{Position, Range, RangeSeparator, SeparatorType};
use expansion_view::source::{
    activate_id, collect_events, deactivate_id, find_file, insert_event, load_original_source,
    sweep_source, LoadedSource, SourceFile, SourceParts,
};

fn pos(line: usize, column: usize) -> Position {
    Position { line, column }
}

fn table(path: &str, ranges: Vec<Range>) -> Ranges {
    Ranges { sources: vec![path.to_string()], ranges, generated: Vec::new() }
}

fn file(path: &str, text: &str) -> SourceFile {
    SourceFile { path: path.to_string(), text: text.to_string() }
}

fn part(text: &str, ids: Vec<usize>) -> (String, Vec<usize>) {
    (text.to_string(), ids)
}

fn header(path: &str) -> Vec<(String, Vec<usize>)> {
    vec![
        part("\n", vec![]),
        part("//======================================", vec![]),
        part("\n", vec![]),
        part("// ", vec![]),
        part(path, vec![]),
        part("\n", vec![]),
        part("//======================================", vec![]),
        part("\n", vec![]),
    ]
}

#[test]
fn nested_ranges_are_both_active() {
    let ranges = table(
        "a.rs",
        vec![
            Range { source: 0, start: pos(1, 0), end: pos(3, 0) },
            Range { source: 0, start: pos(2, 0), end: pos(2, 5) },
        ],
    );
    let files = vec![file("a.rs", "first line\nsecond line\nthird\nfourth\n")];
    let got = load_original_source(&ranges, &files);
    let mut want = header("a.rs");
    want.extend(vec![
        part("first line", vec![0]),
        part("\n", vec![]),
        part("secon", vec![0, 1]),
        part("d line", vec![0]),
        part("\n", vec![]),
        part("third", vec![]),
        part("\n", vec![]),
    ]);
    assert_eq!(got.parts, want);
}

#[test]
fn chunks_cover_the_lines_between_first_and_last_event() {
    let ranges = table(
        "a.rs",
        vec![
            Range { source: 0, start: pos(2, 3), end: pos(2, 6) },
            Range { source: 0, start: pos(3, 1), end: pos(4, 2) },
        ],
    );
    let files = vec![file("a.rs", "zero\nabcdefgh\r\nijkl\nmnop\nlast\n")];
    let got = load_original_source(&ranges, &files);
    let text: String = got.parts[8..].iter().map(|p| p.0.clone()).collect();
    assert_eq!(text, "abcdefgh\nijkl\nmnop\n");
    assert_eq!(got.parts[8], part("abc", vec![]));
    assert_eq!(got.parts[9], part("def", vec![0]));
    assert_eq!(got.parts[10], part("gh", vec![]));
}

#[test]
fn missing_file_contributes_nothing() {
    let ranges = table("gone.rs", vec![Range { source: 0, start: pos(1, 0), end: pos(1, 4) }]);
    assert!(load_original_source(&ranges, &Vec::new()).parts.is_empty());
    let other = vec![file("other.rs", "text\n")];
    assert!(load_original_source(&ranges, &other).parts.is_empty());
}

#[test]
fn file_without_ranges_contributes_nothing() {
    let ranges = table("a.rs", Vec::new());
    let files = vec![file("a.rs", "text\n")];
    assert!(load_original_source(&ranges, &files).parts.is_empty());
}

#[test]
fn text_that_the_file_lacks_is_left_out() {
    let ranges = table("a.rs", vec![Range { source: 0, start: pos(1, 2), end: pos(3, 9) }]);
    let files = vec![file("a.rs", "abcd")];
    let got = load_original_source(&ranges, &files);
    let mut want = header("a.rs");
    want.extend(vec![
        part("ab", vec![]),
        part("cd", vec![0]),
        part("\n", vec![]),
        part("\n", vec![]),
        part("\n", vec![]),
    ]);
    assert_eq!(got.parts, want);
}

#[test]
fn zero_length_range_opens_before_it_closes() {
    let ranges = table("a.rs", vec![Range { source: 0, start: pos(1, 2), end: pos(1, 2) }]);
    let seps = collect_events(&ranges, 0);
    assert_eq!(
        seps,
        vec![
            RangeSeparator { pos: pos(1, 2), sep: SeparatorType::Start, idx: 0 },
            RangeSeparator { pos: pos(1, 2), sep: SeparatorType::End, idx: 0 },
        ]
    );
    let got = load_original_source(&ranges, &vec![file("a.rs", "abcd\n")]);
    assert_eq!(got.parts[8..], vec![part("ab", vec![]), part("cd", vec![]), part("\n", vec![])]);
}

#[test]
fn events_sort_by_position_kind_and_id() {
    let ranges = Ranges {
        sources: vec!["a.rs".to_string(), "b.rs".to_string()],
        ranges: vec![
            Range { source: 0, start: pos(2, 0), end: pos(2, 4) },
            Range { source: 1, start: pos(1, 0), end: pos(1, 1) },
            Range { source: 0, start: pos(1, 3), end: pos(2, 0) },
            Range { source: 0, start: pos(2, 0), end: pos(2, 4) },
        ],
        generated: Vec::new(),
    };
    let seps = collect_events(&ranges, 0);
    let want = vec![
        RangeSeparator { pos: pos(1, 3), sep: SeparatorType::Start, idx: 2 },
        RangeSeparator { pos: pos(2, 0), sep: SeparatorType::Start, idx: 0 },
        RangeSeparator { pos: pos(2, 0), sep: SeparatorType::Start, idx: 3 },
        RangeSeparator { pos: pos(2, 0), sep: SeparatorType::End, idx: 2 },
        RangeSeparator { pos: pos(2, 4), sep: SeparatorType::End, idx: 0 },
        RangeSeparator { pos: pos(2, 4), sep: SeparatorType::End, idx: 3 },
    ];
    assert_eq!(seps, want);
    for i in 0..seps.len() {
        for j in i..seps.len() {
            assert!(seps[i].le(&seps[j]));
        }
    }
    assert!(pos(1, 9).before(&pos(2, 0)));
    assert!(!pos(2, 0).before(&pos(2, 0)));
}

#[test]
fn insert_event_keeps_the_order() {
    let mut v = Vec::new();
    let e = |l: usize, s: SeparatorType, i: usize| RangeSeparator { pos: pos(l, 0), sep: s, idx: i };
    insert_event(&mut v, e(3, SeparatorType::Start, 0));
    insert_event(&mut v, e(1, SeparatorType::End, 1));
    insert_event(&mut v, e(3, SeparatorType::Start, 0));
    insert_event(&mut v, e(1, SeparatorType::Start, 2));
    assert_eq!(
        v,
        vec![
            e(1, SeparatorType::Start, 2),
            e(1, SeparatorType::End, 1),
            e(3, SeparatorType::Start, 0),
            e(3, SeparatorType::Start, 0),
        ]
    );
}

#[test]
fn active_ids_keep_their_order() {
    let mut active = Vec::new();
    activate_id(&mut active, 5);
    activate_id(&mut active, 2);
    activate_id(&mut active, 5);
    assert_eq!(active, vec![5, 2]);
    deactivate_id(&mut active, 7);
    assert_eq!(active, vec![5, 2]);
    deactivate_id(&mut active, 5);
    assert_eq!(active, vec![2]);
}

#[test]
fn parts_are_appended() {
    let mut parts = SourceParts { parts: Vec::new() };
    parts.add_unspanned("a");
    parts.add("b".to_string(), &vec![3, 1]);
    assert_eq!(parts.parts, vec![part("a", vec![]), part("b", vec![3, 1])]);
    parts.add_header("p.rs");
    assert_eq!(parts.parts[2..], header("p.rs"));
}

#[test]
fn sweep_starts_at_the_first_event_line() {
    let loaded = LoadedSource {
        path: "a.rs".to_string(),
        text: vec!["one".to_string(), "two".to_string(), "three".to_string()],
        range_seps: vec![
            RangeSeparator { pos: pos(2, 1), sep: SeparatorType::Start, idx: 4 },
            RangeSeparator { pos: pos(2, 2), sep: SeparatorType::End, idx: 4 },
        ],
    };
    let mut parts = SourceParts { parts: Vec::new() };
    sweep_source(&mut parts, &loaded);
    assert_eq!(
        parts.parts[8..],
        vec![part("t", vec![]), part("w", vec![4]), part("o", vec![]), part("\n", vec![])]
    );
    let empty = LoadedSource { path: "b.rs".to_string(), text: Vec::new(), range_seps: Vec::new() };
    let mut none = SourceParts { parts: Vec::new() };
    sweep_source(&mut none, &empty);
    assert!(none.parts.is_empty());
}

#[test]
fn first_file_of_a_path_is_found() {
    let files = vec![file("a.rs", "1"), file("b.rs", "2"), file("a.rs", "3")];
    assert_eq!(find_file(&files, &"a.rs".to_string()), Some(0));
    assert_eq!(find_file(&files, &"b.rs".to_string()), Some(1));
    assert_eq!(find_file(&files, &"c.rs".to_string()), None);
}

#[test]
fn carriage_return_goes_only_with_a_line_feed() {
    let ranges = table("a.rs", vec![Range { source: 0, start: pos(1, 0), end: pos(3, 0) }]);
    let files = vec![file("a.rs", "a\r\nb\rc\nd\r")];
    let got = load_original_source(&ranges, &files);
    assert_eq!(
        got.parts[8..],
        vec![
            part("a", vec![0]),
            part("\n", vec![]),
            part("b\rc", vec![0]),
            part("\n", vec![]),
            part("d\r", vec![]),
            part("\n", vec![]),
        ]
    );
}

#[test]
fn final_line_feed_adds_no_line() {
    let ranges = table("a.rs", vec![Range { source: 0, start: pos(1, 0), end: pos(4, 0) }]);
    let with = load_original_source(&ranges, &vec![file("a.rs", "x\n\ny\n")]);
    let without = load_original_source(&ranges, &vec![file("a.rs", "x\n\ny")]);
    assert_eq!(with.parts, without.parts);
    assert_eq!(
        with.parts[8..],
        vec![
            part("x", vec![0]),
            part("\n", vec![]),
            part("", vec![0]),
            part("\n", vec![]),
            part("y", vec![0]),
            part("\n", vec![]),
            part("\n", vec![]),
        ]
    );
}
