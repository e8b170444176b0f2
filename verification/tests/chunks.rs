use codemd::codechunk::{BlockMeta, CodeAppend, CodeChunk, CodeMeta, CodeRemove};
use codemd::codegrab::find_codeblocks;
use codemd::error::MdError;

#[test]
fn deser_remove() {
    let rem_str = "{ \"first\": 10, \"last\": 20 }";
    let rem = CodeMeta::from_json(rem_str).unwrap();

    assert!(match rem {
        CodeMeta::Diff(d) => d.first == 10 && d.last == 20,
        _ => false,
    });
}

#[test]
fn deser_diff() {
    let diff_meta = "{ \"first\": 10, \"last\": 20, \"removals\": [{ \"first\": 24, \"last\": 27 }, { \"first\": 30, \"last\": 31 }] }";
    let d = match CodeMeta::from_json(diff_meta).unwrap() {
        CodeMeta::Diff(d) => d,
        _ => panic!("expected a diff"),
    };
    assert!(d.first == 10 && d.removals[0].first == 24 && d.removals[1].last == 31);

    let cm: CodeMeta = CodeMeta::from_json(diff_meta).unwrap();
    assert!(match cm {
        CodeMeta::Diff(d) => d.first == 10 && d.removals[0].first == 24 && d.removals[1].last == 31,
        _ => false,
    });
}

#[test]
fn deser_insert() {
    let cm = CodeMeta::from_json("{ \"file\": \"lib.rs\", \"line\": 3 }").unwrap();
    assert!(match cm {
        CodeMeta::Insert(i) => i.line == 3 && i.file.as_deref() == Some("lib.rs"),
        _ => false,
    });
}

#[test]
fn deser_append_fallback() {
    let cm = CodeMeta::from_json("{}").unwrap();
    assert!(match cm {
        CodeMeta::Append(a) => a.file.is_none() && a.removals.is_empty(),
        _ => false,
    });

    // A lone `first` is not enough for a diff; the append fallback matches.
    let cm = CodeMeta::from_json("{ \"first\": 4 }").unwrap();
    assert!(matches!(cm, CodeMeta::Append(_)));
}

#[test]
fn deser_bad_shapes() {
    // Malformed JSON.
    assert!(match CodeMeta::from_json("{ not json").unwrap_err() {
        MdError::MetadataDecode(t) => t == "{ not json",
        _ => false,
    });
    // Not an object.
    assert!(matches!(
        CodeMeta::from_json("7").unwrap_err(),
        MdError::MetadataDecode(_)
    ));
    // A `file` of the wrong type fails every shape.
    assert!(matches!(
        CodeMeta::from_json("{ \"file\": 9 }").unwrap_err(),
        MdError::MetadataDecode(_)
    ));
    // A malformed removals list fails every shape.
    assert!(matches!(
        CodeMeta::from_json("{ \"removals\": [ { \"first\": 1 } ] }").unwrap_err(),
        MdError::MetadataDecode(_)
    ));
}

#[test]
fn deser_batch_list() {
    let bm = BlockMeta::from_json("[{ \"line\": 1 }, {}]").unwrap();
    match bm {
        BlockMeta::List(l) => {
            assert_eq!(l.len(), 2);
            assert!(matches!(&l[0], CodeMeta::Insert(i) if i.line == 1));
            assert!(matches!(&l[1], CodeMeta::Append(_)));
        },
        BlockMeta::Single(_) => panic!("expected a list"),
    }

    let bm = BlockMeta::from_json("{ \"line\": 1 }").unwrap();
    assert!(matches!(bm, BlockMeta::Single(CodeMeta::Insert(_))));

    // One bad element fails the whole batch.
    assert!(matches!(
        BlockMeta::from_json("[{}, { \"file\": 9 }]").unwrap_err(),
        MdError::MetadataDecode(_)
    ));
}

#[test]
fn chunk_new_copies_target() {
    let meta = CodeMeta::Append(CodeAppend {
        file: Some("out.rs".to_string()),
        removals: vec![],
    });
    let chunk = CodeChunk::new("rust", meta);
    assert_eq!(chunk.lang, "rust");
    assert_eq!(chunk.file.as_deref(), Some("out.rs"));
    assert!(chunk.code.is_empty());
}

#[test]
fn get_one_cb() {
    let code = "```rust { \"diff\": { \"first\": 10, \"last\": 20 } }\n\
                some code\n\
                some more code\n\
                ```";
    let lines = code.lines().map(str::to_string).collect::<Vec<String>>();
    let blocks_r = find_codeblocks(&lines);
    assert!(blocks_r.is_ok());
    let blocks = blocks_r.unwrap();
    assert!(blocks.len() == 1);
    assert!(blocks[0].lang == "rust");
    // The metadata names neither `first`/`last` nor `line` at the top level,
    // so the decoder's append fallback matches.
    assert!(matches!(&blocks[0].meta, CodeMeta::Append(_)));
    assert_eq!(blocks[0].code, vec!["some code", "some more code"]);
}

#[test]
fn scan_finds_indented_blocks() {
    let doc = "text\n  ```rust {\"file\": \"a.rs\"}\nlet x = 1;\n  ```\nmore text\n";
    let lines = doc.lines().map(str::to_string).collect::<Vec<String>>();
    let blocks = find_codeblocks(&lines).unwrap();
    assert_eq!(blocks.len(), 1);
    assert_eq!(blocks[0].file.as_deref(), Some("a.rs"));
    assert_eq!(blocks[0].code, vec!["let x = 1;"]);
}

#[test]
fn scan_ignores_plain_fences() {
    // A fence without brace-delimited metadata opens no block.
    let doc = "```rust\nnot collected\n```\n";
    let lines = doc.lines().map(str::to_string).collect::<Vec<String>>();
    let blocks = find_codeblocks(&lines).unwrap();
    assert!(blocks.is_empty());
}

#[test]
fn scan_reports_bad_metadata() {
    let doc = "```rust {bad}\nx\n```\n";
    let lines = doc.lines().map(str::to_string).collect::<Vec<String>>();
    match find_codeblocks(&lines).unwrap_err() {
        MdError::MetadataDecode(t) => assert_eq!(t, "{bad}"),
        e => panic!("unexpected error: {:?}", e),
    }
}

#[test]
fn scan_accepts_removals_metadata() {
    let doc = "```rust {\"removals\": [{\"first\": 0, \"last\": 1}]}\na\n```\n";
    let lines = doc.lines().map(str::to_string).collect::<Vec<String>>();
    let blocks = find_codeblocks(&lines).unwrap();
    assert_eq!(blocks.len(), 1);
    match &blocks[0].meta {
        CodeMeta::Append(a) => {
            assert_eq!(a.removals, vec![CodeRemove { first: 0, last: 1 }]);
        },
        m => panic!("unexpected meta: {:?}", m),
    }
    assert_eq!(blocks[0].code, vec!["a"]);
}

#[test]
fn scan_accepts_batch_metadata() {
    // A top-level array attaches several descriptors to one block; each
    // becomes a chunk of its own, sharing the block's code lines.
    let doc = "```rust [{\"file\": \"a.rs\"}, {\"file\": \"b.rs\", \"line\": 0}]\nshared\n```\n";
    let lines = doc.lines().map(str::to_string).collect::<Vec<String>>();
    let blocks = find_codeblocks(&lines).unwrap();
    assert_eq!(blocks.len(), 2);
    assert_eq!(blocks[0].file.as_deref(), Some("a.rs"));
    assert!(matches!(&blocks[0].meta, CodeMeta::Append(_)));
    assert_eq!(blocks[1].file.as_deref(), Some("b.rs"));
    assert!(matches!(&blocks[1].meta, CodeMeta::Insert(i) if i.line == 0));
    assert_eq!(blocks[0].code, vec!["shared"]);
    assert_eq!(blocks[1].code, vec!["shared"]);
    assert_eq!(blocks[0].lang, "rust");
    assert_eq!(blocks[1].lang, "rust");
}

#[test]
fn removals_decode_from_json() {
    let cm = CodeMeta::from_json("{\"removals\": [{\"first\": 0, \"last\": 1}]}").unwrap();
    match cm {
        CodeMeta::Append(a) => {
            assert_eq!(a.removals, vec![CodeRemove { first: 0, last: 1 }]);
        },
        m => panic!("unexpected meta: {:?}", m),
    }
}
