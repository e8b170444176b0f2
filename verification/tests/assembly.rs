use codemd::codechunk::{CodeAppend, CodeChunk, CodeDiff, CodeInsert, CodeMeta, CodeRemove};
use codemd::codefile::CodeFile;
use codemd::codegrab::find_codeblocks;
use codemd::error::MdError;

fn append_chunk(file: Option<&str>, code: &[&str]) -> CodeChunk {
    let mut c = CodeChunk::new(
        "rust",
        CodeMeta::Append(CodeAppend { file: file.map(str::to_string), removals: vec![] }),
    );
    for l in code {
        c.code.push(l.to_string());
    }
    c
}

fn lines_of(cf: &CodeFile) -> Vec<String> {
    cf.lines().clone()
}

#[test]
fn append_codefile() {
    let mut cb0 = CodeChunk::new(
        "rust",
        CodeMeta::Append(CodeAppend { file: None, removals: vec![] }),
    );
    cb0.code.push("line 0".to_string());
    cb0.code.push("line 1".to_string());

    let mut cb1 = CodeChunk::new(
        "rust",
        CodeMeta::Append(CodeAppend { file: None, removals: vec![] }),
    );
    cb1.code.push("line 2".to_string());
    cb1.code.push("line 3".to_string());

    let mut cf = CodeFile::new(&cb0).unwrap();
    cf.add(&cb1).unwrap();

    println!("{:#?}", cf);

    assert!(cf.lines().len() == 4);
}

#[test]
fn appends_concatenate_lines() {
    let blocks = vec![
        append_chunk(None, &["a", "b"]),
        append_chunk(None, &["c"]),
        append_chunk(None, &["d", "e"]),
    ];
    let files = CodeFile::from_blocks(&blocks).unwrap();
    assert_eq!(files.len(), 1);
    assert_eq!(lines_of(&files[0]), vec!["a", "b", "c", "d", "e"]);
}

#[test]
fn insert_shifts_lines() {
    let mut ins = CodeChunk::new(
        "rust",
        CodeMeta::Insert(CodeInsert { file: None, line: 1, removals: vec![] }),
    );
    ins.code.push("x".to_string());
    ins.code.push("y".to_string());
    let blocks = vec![append_chunk(None, &["a", "b", "c", "d"]), ins];
    let files = CodeFile::from_blocks(&blocks).unwrap();
    assert_eq!(lines_of(&files[0]), vec!["a", "x", "y", "b", "c", "d"]);
}

#[test]
fn diff_replaces_range() {
    // The end-to-end shape: seed four lines, then replace lines 1..=2 with
    // one line; a single-line diff then keeps the length unchanged.
    let mut diff = CodeChunk::new(
        "rust",
        CodeMeta::Diff(CodeDiff { file: None, first: 1, last: 2, removals: vec![] }),
    );
    diff.code.push("x".to_string());
    let blocks = vec![append_chunk(None, &["a", "b", "c", "d"]), diff];
    let files = CodeFile::from_blocks(&blocks).unwrap();
    assert_eq!(lines_of(&files[0]), vec!["a", "x", "d"]);

    let mut single = CodeChunk::new(
        "rust",
        CodeMeta::Diff(CodeDiff { file: None, first: 1, last: 1, removals: vec![] }),
    );
    single.code.push("y".to_string());
    let blocks = vec![append_chunk(None, &["a", "x", "d"]), single];
    let files = CodeFile::from_blocks(&blocks).unwrap();
    assert_eq!(lines_of(&files[0]), vec!["a", "y", "d"]);
    assert_eq!(files[0].lines().len(), 3);
}

#[test]
fn removals_compound() {
    // Two removals [2,2] then [2,2] on five lines delete two different
    // original lines: index 2, then what was originally index 3.
    let mut c = CodeChunk::new(
        "rust",
        CodeMeta::Append(CodeAppend {
            file: None,
            removals: vec![CodeRemove { first: 2, last: 2 }, CodeRemove { first: 2, last: 2 }],
        }),
    );
    for l in ["l0", "l1", "l2", "l3", "l4"] {
        c.code.push(l.to_string());
    }
    let files = CodeFile::from_blocks(&vec![c]).unwrap();
    assert_eq!(lines_of(&files[0]), vec!["l0", "l1", "l4"]);
}

#[test]
fn targets_do_not_interact() {
    let full = vec![
        append_chunk(Some("a.rs"), &["a1"]),
        append_chunk(None, &["d1"]),
        append_chunk(Some("a.rs"), &["a2"]),
        append_chunk(Some("b.rs"), &["b1"]),
        append_chunk(None, &["d2"]),
    ];
    let only_a = vec![append_chunk(Some("a.rs"), &["a1"]), append_chunk(Some("a.rs"), &["a2"])];

    let files = CodeFile::from_blocks(&full).unwrap();
    assert_eq!(files.len(), 3);
    let a_full = files
        .iter()
        .find(|f| f.name().as_deref() == Some("a.rs"))
        .unwrap();
    let files_a = CodeFile::from_blocks(&only_a).unwrap();
    assert_eq!(files_a.len(), 1);
    assert_eq!(lines_of(a_full), lines_of(&files_a[0]));
}

#[test]
fn out_of_range_insert_fails() {
    // The first sighting seeds an empty file, so inserting at line 1 is out
    // of range and no files come back.
    let mut ins = CodeChunk::new(
        "rust",
        CodeMeta::Insert(CodeInsert { file: None, line: 1, removals: vec![] }),
    );
    ins.code.push("x".to_string());
    let r = CodeFile::from_blocks(&vec![ins]);
    assert!(matches!(r.unwrap_err(), MdError::IndexOutOfRange));
}

#[test]
fn out_of_range_diff_fails() {
    // A diff over [1,2] against an empty first sighting is out of range.
    let mut diff = CodeChunk::new(
        "rust",
        CodeMeta::Diff(CodeDiff { file: None, first: 1, last: 2, removals: vec![] }),
    );
    diff.code.push("x".to_string());
    diff.code.push("y".to_string());
    let r = CodeFile::from_blocks(&vec![diff]);
    assert!(matches!(r.unwrap_err(), MdError::IndexOutOfRange));
}

#[test]
fn out_of_range_removal_fails() {
    let mut c = CodeChunk::new(
        "rust",
        CodeMeta::Append(CodeAppend {
            file: None,
            removals: vec![CodeRemove { first: 0, last: 2 }],
        }),
    );
    c.code.push("only".to_string());
    let r = CodeFile::from_blocks(&vec![c]);
    assert!(matches!(r.unwrap_err(), MdError::IndexOutOfRange));
}

#[test]
fn backwards_removal_fails() {
    let mut c = CodeChunk::new(
        "rust",
        CodeMeta::Append(CodeAppend {
            file: None,
            removals: vec![CodeRemove { first: 1, last: 0 }],
        }),
    );
    c.code.push("a".to_string());
    c.code.push("b".to_string());
    let r = CodeFile::from_blocks(&vec![c]);
    assert!(matches!(r.unwrap_err(), MdError::IndexOutOfRange));
}

#[test]
fn target_mismatch_is_guarded() {
    let seed = append_chunk(Some("a.rs"), &["a"]);
    let mut cf = CodeFile::new(&seed).unwrap();
    let other = append_chunk(None, &["d"]);
    assert!(matches!(cf.add(&other).unwrap_err(), MdError::TargetMismatch));
    // The guarded file is unchanged.
    assert_eq!(lines_of(&cf), vec!["a"]);
}

#[test]
fn first_sighting_applies_the_operation() {
    // A first-sighted file starts empty, so a diff chunk cannot seed it: its
    // range is out of bounds and the constructor reports the error.
    let mut diff = CodeChunk::new(
        "rust",
        CodeMeta::Diff(CodeDiff { file: None, first: 1, last: 2, removals: vec![] }),
    );
    diff.code.push("x".to_string());
    assert!(matches!(CodeFile::new(&diff).unwrap_err(), MdError::IndexOutOfRange));

    // An append with removals applies them even on the first chunk.
    let mut app = CodeChunk::new(
        "rust",
        CodeMeta::Append(CodeAppend {
            file: None,
            removals: vec![CodeRemove { first: 0, last: 0 }],
        }),
    );
    app.code.push("a".to_string());
    app.code.push("b".to_string());
    let cf = CodeFile::new(&app).unwrap();
    assert_eq!(lines_of(&cf), vec!["b"]);
}

#[test]
fn empty_document_yields_no_blocks_error() {
    let doc = "just prose\nno fences here\n";
    let lines = doc.lines().map(str::to_string).collect::<Vec<String>>();
    let blocks = find_codeblocks(&lines).unwrap();
    assert!(blocks.is_empty());
    let r = CodeFile::from_blocks(&blocks);
    assert!(matches!(r.unwrap_err(), MdError::NoBlocks));

    let r = CodeFile::from_blocks(&vec![]);
    assert!(matches!(r.unwrap_err(), MdError::NoBlocks));
}

#[test]
fn end_to_end_diff_document() {
    let doc = "# doc\n\
               ```rust {\"file\": \"t.rs\"}\n\
               a\n\
               b\n\
               c\n\
               d\n\
               ```\n\
               prose between\n\
               ```rust {\"file\": \"t.rs\", \"first\": 1, \"last\": 2}\n\
               x\n\
               ```\n";
    let lines = doc.lines().map(str::to_string).collect::<Vec<String>>();
    let blocks = find_codeblocks(&lines).unwrap();
    assert_eq!(blocks.len(), 2);
    let files = CodeFile::from_blocks(&blocks).unwrap();
    assert_eq!(files.len(), 1);
    assert_eq!(files[0].name().as_deref(), Some("t.rs"));
    assert_eq!(lines_of(&files[0]), vec!["a", "x", "d"]);
    assert_eq!(files[0].to_text(), "a\nx\nd\n");
}

#[test]
fn to_text_terminates_every_line() {
    let c = append_chunk(None, &["one", "two"]);
    let files = CodeFile::from_blocks(&vec![c]).unwrap();
    assert_eq!(files[0].to_text(), "one\ntwo\n");
    assert!(files[0].name().is_none());
}
