use editsync::buffer::{append_chars, chars_of, join_buffer, split_text};
use editsync::edits::{
    apply_TextEdits, apply_splice, insert_splice, offset_in, resolve_sorted, OffsetError, Position,
    Range, Splice, TextEdit,
};

fn lines_of(text: &str) -> Vec<String> {
    text.split('\n').map(|l| l.to_owned()).collect()
}

fn edit(sl: u64, sc: u64, el: u64, ec: u64, text: &str) -> TextEdit {
    TextEdit {
        range: Range {
            start: Position { line: sl, character: sc },
            end: Position { line: el, character: ec },
        },
        new_text: text.to_owned(),
    }
}

#[test]
#[allow(non_snake_case)]
fn test_apply_TextEdit() {
    let lines: Vec<String> = "fn main() {\n0;\n}\n"
        .to_owned()
        .split('\n')
        .map(|l| l.to_owned())
        .collect();

    let expect: Vec<String> = "fn main() {\n    0;\n}\n"
        .to_owned()
        .split('\n')
        .map(|l| l.to_owned())
        .collect();

    let edit = TextEdit {
        range: Range {
            start: Position { line: 0, character: 0 },
            end: Position { line: 3, character: 0 },
        },
        new_text: "fn main() {\n    0;\n}\n".to_owned(),
    };

    assert_eq!(apply_TextEdits(&lines, &[edit]).unwrap(), expect);
}

#[test]
fn whole_buffer_edit_gives_the_listed_lines() {
    let lines = vec![
        "fn main() {".to_owned(),
        "0;".to_owned(),
        "}".to_owned(),
        "".to_owned(),
    ];
    let out = apply_TextEdits(&lines, &[edit(0, 0, 3, 0, "fn main() {\n    0;\n}\n")]).unwrap();
    assert_eq!(out, vec!["fn main() {", "    0;", "}", ""]);
}

#[test]
fn no_edits_return_the_buffer() {
    let lines = lines_of("alpha\nbeta\n\ngamma");
    assert_eq!(apply_TextEdits(&lines, &[]).unwrap(), lines);
    let one = vec!["".to_owned()];
    assert_eq!(apply_TextEdits(&one, &[]).unwrap(), one);
}

#[test]
fn empty_buffer_becomes_one_empty_line() {
    let lines: Vec<String> = Vec::new();
    assert_eq!(apply_TextEdits(&lines, &[]).unwrap(), vec!["".to_owned()]);
}

#[test]
fn embedded_newline_is_normalised() {
    let lines = vec!["a\nb".to_owned()];
    assert_eq!(apply_TextEdits(&lines, &[]).unwrap(), vec!["a", "b"]);
}

#[test]
fn whole_span_with_joined_text_reproduces_buffer() {
    let lines = lines_of("one\ntwo\nthree");
    let joined = lines.join("\n");
    let out = apply_TextEdits(&lines, &[edit(0, 0, 2, 5, &joined)]).unwrap();
    assert_eq!(out, lines);
}

#[test]
fn pure_insertion_keeps_surroundings() {
    let lines = lines_of("hello world");
    let out = apply_TextEdits(&lines, &[edit(0, 5, 0, 5, ",")]).unwrap();
    assert_eq!(out, vec!["hello, world"]);
}

#[test]
fn insertion_of_newline_splits_a_line() {
    let lines = lines_of("ab\ncd");
    let out = apply_TextEdits(&lines, &[edit(1, 1, 1, 1, "\n")]).unwrap();
    assert_eq!(out, vec!["ab", "c", "d"]);
}

#[test]
fn deletion_across_lines_joins_them() {
    let lines = lines_of("ab\ncd\nef");
    let out = apply_TextEdits(&lines, &[edit(0, 1, 2, 1, "")]).unwrap();
    assert_eq!(out, vec!["af"]);
}

#[test]
fn edits_in_any_order_give_the_same_result() {
    let lines = lines_of("abc\ndef\nghi");
    let top = edit(0, 0, 0, 1, "XX");
    let mid = edit(1, 1, 1, 2, "");
    let low = edit(2, 3, 2, 3, "!\n");
    let expect = vec!["XXbc", "df", "ghi!", ""];
    let a = apply_TextEdits(&lines, &[low.clone(), mid.clone(), top.clone()]).unwrap();
    let b = apply_TextEdits(&lines, &[top.clone(), mid.clone(), low.clone()]).unwrap();
    let c = apply_TextEdits(&lines, &[mid, top, low]).unwrap();
    assert_eq!(a, expect);
    assert_eq!(b, expect);
    assert_eq!(c, expect);
}

#[test]
fn insertions_at_one_offset_are_made_in_the_given_order() {
    let lines = lines_of("ab");
    let out = apply_TextEdits(&lines, &[edit(0, 1, 0, 1, "1"), edit(0, 1, 0, 1, "2")]).unwrap();
    assert_eq!(out, vec!["a21b"]);
}

#[test]
fn offsets_count_characters() {
    let lines = vec!["héllo".to_owned(), "wörld".to_owned()];
    let out = apply_TextEdits(&lines, &[edit(1, 1, 1, 2, "o"), edit(0, 1, 0, 2, "e")]).unwrap();
    assert_eq!(out, vec!["hello", "world"]);
}

#[test]
fn line_past_the_end_is_rejected() {
    let lines = lines_of("ab\ncd");
    let r = apply_TextEdits(&lines, &[edit(0, 0, 2, 0, "x")]);
    assert_eq!(r, Err(OffsetError::PositionOutOfBounds));
    let r = apply_TextEdits(&lines, &[edit(5, 0, 5, 0, "x")]);
    assert_eq!(r, Err(OffsetError::PositionOutOfBounds));
    let r = apply_TextEdits(&lines, &[edit(u64::MAX, 0, u64::MAX, u64::MAX, "x")]);
    assert_eq!(r, Err(OffsetError::PositionOutOfBounds));
}

#[test]
fn character_past_the_line_is_rejected() {
    let lines = lines_of("ab\ncd");
    let r = apply_TextEdits(&lines, &[edit(0, 3, 0, 3, "x")]);
    assert_eq!(r, Err(OffsetError::PositionOutOfBounds));
    let ok = apply_TextEdits(&lines, &[edit(0, 2, 0, 2, "x")]).unwrap();
    assert_eq!(ok, vec!["abx", "cd"]);
}

#[test]
fn one_bad_edit_rejects_the_whole_set() {
    let lines = lines_of("ab\ncd");
    let r = apply_TextEdits(&lines, &[edit(0, 0, 0, 1, "x"), edit(1, 9, 1, 9, "y")]);
    assert_eq!(r, Err(OffsetError::PositionOutOfBounds));
    assert_eq!(lines, lines_of("ab\ncd"));
}

#[test]
fn overlap_that_outruns_the_text_is_rejected() {
    let lines = lines_of("abcdefgh");
    let r = apply_TextEdits(&lines, &[edit(0, 2, 0, 8, ""), edit(0, 1, 0, 8, "")]);
    assert_eq!(r, Err(OffsetError::SpliceOutOfBounds));
}

#[test]
fn join_notes_line_starts_and_lengths() {
    let lines = lines_of("ab\n\ncde");
    let joined = join_buffer(&lines);
    assert_eq!(joined.text, vec!['a', 'b', '\n', '\n', 'c', 'd', 'e']);
    assert_eq!(joined.starts, vec![0, 3, 4]);
    assert_eq!(joined.lens, vec![2, 0, 3]);
    assert_eq!(offset_in(&joined, &Position { line: 2, character: 3 }), Some(7));
    assert_eq!(offset_in(&joined, &Position { line: 2, character: 4 }), None);
    assert_eq!(offset_in(&joined, &Position { line: 3, character: 0 }), None);
}

#[test]
fn split_cuts_at_every_newline() {
    assert_eq!(split_text(&chars_of("")), vec![""]);
    assert_eq!(split_text(&chars_of("\n")), vec!["", ""]);
    assert_eq!(split_text(&chars_of("a\n\nb\n")), vec!["a", "", "b", ""]);
}

#[test]
fn append_takes_the_given_span() {
    let mut dst = vec!['x'];
    append_chars(&mut dst, &vec!['a', 'b', 'c', 'd'], 1, 3);
    assert_eq!(dst, vec!['x', 'b', 'c']);
}

#[test]
fn splices_sort_by_descending_start_and_stay_stable() {
    let mut sorted: Vec<Splice> = Vec::new();
    for (start, tag) in [(3usize, 'a'), (7, 'b'), (3, 'c'), (0, 'd'), (7, 'e')] {
        insert_splice(&mut sorted, Splice { start, end: start, text: vec![tag] });
    }
    let order: Vec<(usize, char)> = sorted.iter().map(|s| (s.start, s.text[0])).collect();
    assert_eq!(order, vec![(7, 'b'), (7, 'e'), (3, 'a'), (3, 'c'), (0, 'd')]);
}

#[test]
fn resolved_edits_come_highest_first() {
    let lines = lines_of("abc\ndef");
    let joined = join_buffer(&lines);
    let sorted = resolve_sorted(&joined, &[edit(0, 1, 0, 2, "x"), edit(1, 0, 1, 3, "yz")]).unwrap();
    assert_eq!(sorted.len(), 2);
    assert_eq!((sorted[0].start, sorted[0].end), (4, 7));
    assert_eq!(sorted[0].text, vec!['y', 'z']);
    assert_eq!((sorted[1].start, sorted[1].end), (1, 2));
}

#[test]
fn splice_replaces_the_span() {
    let text = chars_of("abcdef");
    let out = apply_splice(&text, &Splice { start: 1, end: 4, text: vec!['X'] });
    assert_eq!(out, chars_of("aXef"));
}
