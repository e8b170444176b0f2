//! Finding code blocks in the document: a fence opens with optional leading
//! spaces, three backticks, a word-character language tag and delimited
//! metadata text — a JSON object in braces, or a JSON array of objects that
//! attaches several descriptors to the one block — and closes on the next
//! line that starts with optional spaces and three backticks.

use vstd::prelude::*;
use vstd::string::StrSliceExecFns;

use crate::codechunk::{
    meta_view, metas_view, spec_decode, spec_decode_many, BlockMeta, CodeChunk, CodeMeta, MetaView,
};
use crate::codefile::clone_lines;
use crate::error::MdError;
use crate::json::{json_of, JsonValue};

verus! {

/// The character classes the fence grammar reads.
#[derive(Debug, Clone, Copy, PartialEq, Eq, Structural)]
pub enum CharKind {
    /// A space.
    Space,
    /// A space or a tab.
    Blank,
    /// A word character: an ASCII letter, a digit, or an underscore.
    Word,
    /// A character the metadata text may hold: a word character, a space, a
    /// tab, or one of `= ' " : , . - { } [ ]`.
    Meta,
}

/// Whether a word character: an ASCII letter, a digit, or an underscore.
pub open spec fn is_word_char(c: char) -> bool {
    ('a' as u32 <= c as u32 && c as u32 <= 'z' as u32) || ('A' as u32 <= c as u32 && c as u32
        <= 'Z' as u32) || ('0' as u32 <= c as u32 && c as u32 <= '9' as u32) || c == '_'
}

/// Whether the character belongs to the class.
pub open spec fn in_class(k: CharKind, c: char) -> bool {
    match k {
        CharKind::Space => c == ' ',
        CharKind::Blank => c == ' ' || c == '\t',
        CharKind::Word => is_word_char(c),
        CharKind::Meta => is_word_char(c) || c == ' ' || c == '\t' || c == '=' || c == '\'' || c
            == '"' || c == ':' || c == ',' || c == '.' || c == '-' || c == '{' || c == '}' || c
            == '[' || c == ']',
    }
}

/// The position of the first character at or after `i` that is not of the
/// class: the end of the run that starts at `i`.
pub open spec fn run_end(l: Seq<char>, i: int, k: CharKind) -> int
    decreases l.len() - i,
{
    if 0 <= i < l.len() && in_class(k, l[i]) {
        run_end(l, i + 1, k)
    } else {
        i
    }
}

/// The position of the last occurrence of `c` in `[lo, hi)`, if any.
pub open spec fn last_close(l: Seq<char>, lo: int, hi: int, c: char) -> Option<int>
    decreases hi - lo,
{
    if lo < hi {
        if l[hi - 1] == c {
            Some(hi - 1)
        } else {
            last_close(l, lo, hi - 1, c)
        }
    } else {
        None
    }
}

/// Whether the line closes a block: optional spaces, then three backticks.
pub open spec fn closer_line(l: Seq<char>) -> bool {
    let i = run_end(l, 0, CharKind::Space);
    i + 3 <= l.len() && l[i] == '`' && l[i + 1] == '`' && l[i + 2] == '`'
}

/// What the line yields when read as an opening fence: the language tag and
/// the metadata text, which runs from its opening `{` or `[` to the last
/// matching `}` or `]` that closes a run of metadata characters; `None` when
/// the line is no opener.
pub open spec fn opener_line(l: Seq<char>) -> Option<(Seq<char>, Seq<char>)> {
    let i0 = run_end(l, 0, CharKind::Space);
    if !(i0 + 3 <= l.len() && l[i0] == '`' && l[i0 + 1] == '`' && l[i0 + 2] == '`') {
        None
    } else {
        let i2 = run_end(l, i0 + 3, CharKind::Blank);
        let i3 = run_end(l, i2, CharKind::Word);
        if i3 == i2 {
            None
        } else {
            let i4 = run_end(l, i3, CharKind::Blank);
            if !(i4 < l.len() && (l[i4] == '{' || l[i4] == '[')) {
                None
            } else {
                let close = if l[i4] == '{' {
                    '}'
                } else {
                    ']'
                };
                let i5 = run_end(l, i4 + 1, CharKind::Meta);
                match last_close(l, i4 + 1, i5, close) {
                    Some(j) => Some((l.subrange(i2, i3), l.subrange(i4, j + 1))),
                    None => None,
                }
            }
        }
    }
}

/// Whether the character belongs to the class.
fn char_in_class(k: CharKind, c: char) -> (r: bool)
    ensures
        r == in_class(k, c),
{
    match k {
        CharKind::Space => c == ' ',
        CharKind::Blank => c == ' ' || c == '\t',
        CharKind::Word => ('a' as u32 <= c as u32 && c as u32 <= 'z' as u32) || ('A' as u32
            <= c as u32 && c as u32 <= 'Z' as u32) || ('0' as u32 <= c as u32 && c as u32
            <= '9' as u32) || c == '_',
        CharKind::Meta => {
            let w = ('a' as u32 <= c as u32 && c as u32 <= 'z' as u32) || ('A' as u32 <= c as u32
                && c as u32 <= 'Z' as u32) || ('0' as u32 <= c as u32 && c as u32 <= '9' as u32)
                || c == '_';
            w || c == ' ' || c == '\t' || c == '=' || c == '\'' || c == '"' || c == ':' || c == ','
                || c == '.' || c == '-' || c == '{' || c == '}' || c == '[' || c == ']'
        },
    }
}

/// Walks to the end of the class run that starts at `from`.
fn skip_class(line: &str, from: usize, k: CharKind) -> (r: usize)
    requires
        from <= line@.len(),
    ensures
        from <= r <= line@.len(),
        r == run_end(line@, from as int, k),
    decreases line@.len() - from,
{
    let n = line.unicode_len();
    if from < n {
        let c = line.get_char(from);
        if char_in_class(k, c) {
            return skip_class(line, from + 1, k);
        }
    }
    from
}

/// Searches `[lo, hi)` backwards for the last occurrence of `c`.
fn find_last_close(line: &str, lo: usize, hi: usize, c: char) -> (r: Option<usize>)
    requires
        lo <= hi <= line@.len(),
    ensures
        match last_close(line@, lo as int, hi as int, c) {
            Some(j) => r matches Some(u) && u == j && lo <= j < hi,
            None => r is None,
        },
    decreases hi,
{
    if lo < hi {
        let d = line.get_char(hi - 1);
        if d == c {
            Some(hi - 1)
        } else {
            find_last_close(line, lo, hi - 1, c)
        }
    } else {
        None
    }
}

/// Whether the line closes a block.
fn is_closer(line: &str) -> (r: bool)
    ensures
        r == closer_line(line@),
{
    let n = line.unicode_len();
    let i = skip_class(line, 0, CharKind::Space);
    if n >= 3 && i <= n - 3 {
        line.get_char(i) == '`' && line.get_char(i + 1) == '`' && line.get_char(i + 2) == '`'
    } else {
        false
    }
}

/// Reads the line as an opening fence, yielding the language tag and the
/// metadata text.
fn match_opener(line: &str) -> (r: Option<(String, String)>)
    ensures
        match opener_line(line@) {
            Some(p) => r matches Some(q) && q.0@ == p.0 && q.1@ == p.1,
            None => r is None,
        },
{
    let n = line.unicode_len();
    let i0 = skip_class(line, 0, CharKind::Space);
    if !(n >= 3 && i0 <= n - 3) {
        return None;
    }
    if !(line.get_char(i0) == '`' && line.get_char(i0 + 1) == '`' && line.get_char(i0 + 2) == '`') {
        return None;
    }
    let i2 = skip_class(line, i0 + 3, CharKind::Blank);
    let i3 = skip_class(line, i2, CharKind::Word);
    if i3 == i2 {
        return None;
    }
    let i4 = skip_class(line, i3, CharKind::Blank);
    if i4 >= n {
        return None;
    }
    let open = line.get_char(i4);
    if open != '{' && open != '[' {
        return None;
    }
    let close: char = if open == '{' {
        '}'
    } else {
        ']'
    };
    let i5 = skip_class(line, i4 + 1, CharKind::Meta);
    match find_last_close(line, i4 + 1, i5, close) {
        Some(j) => {
            let lang = line.substring_char(i2, i3).to_owned();
            let meta = line.substring_char(i4, j + 1).to_owned();
            Some((lang, meta))
        },
        None => None,
    }
}

/// The abstract value of one scanned chunk.
pub ghost struct ChunkView {
    /// The target the chunk's metadata names.
    pub file: Option<Seq<char>>,
    /// The language tag.
    pub lang: Seq<char>,
    /// The decoded metadata.
    pub meta: MetaView,
    /// The chunk's literal code lines.
    pub code: Seq<Seq<char>>,
}

/// The abstract value of a scanned chunk.
pub open spec fn chunk_view(c: CodeChunk) -> ChunkView {
    ChunkView {
        file: c.file.deep_view(),
        lang: c.lang@,
        meta: meta_view(c.meta),
        code: c.code.deep_view(),
    }
}

/// The abstract values of a sequence of chunks.
pub open spec fn chunk_views(cs: Seq<CodeChunk>) -> Seq<ChunkView> {
    Seq::new(cs.len(), |i: int| chunk_view(cs[i]))
}

/// The descriptors a block's metadata text decodes to: a top-level JSON
/// array yields one descriptor per element, anything else is decoded as a
/// single descriptor; `None` when the parse fails or some element matches no
/// shape.
pub open spec fn decode_block(t: Seq<char>) -> Option<Seq<MetaView>> {
    match json_of(t) {
        Some(v) => match v {
            JsonValue::Arr(items) => spec_decode_many(items@),
            _ => match spec_decode(v) {
                Some(m) => Some(seq![m]),
                None => None,
            },
        },
        None => None,
    }
}

/// The abstract value of a block being accumulated: its language tag, the
/// descriptors its metadata carries, and the code lines gathered so far.
pub ghost struct BlockView {
    /// The language tag.
    pub lang: Seq<char>,
    /// The decoded descriptors, one chunk each.
    pub metas: Seq<MetaView>,
    /// The code lines gathered so far, shared by all the descriptors.
    pub code: Seq<Seq<char>>,
}

/// The chunks a finished block yields: one per descriptor, in metadata
/// order, all sharing the block's code lines.
pub open spec fn chunks_of_block(b: BlockView) -> Seq<ChunkView> {
    Seq::new(
        b.metas.len(),
        |i: int| ChunkView { file: b.metas[i].file, lang: b.lang, meta: b.metas[i], code: b.code },
    )
}

/// A block being accumulated while scanning.
struct PendingBlock {
    /// The language tag from the opening fence.
    lang: String,
    /// The decoded descriptors the metadata carries.
    metas: Vec<CodeMeta>,
    /// The code lines gathered so far.
    code: Vec<String>,
}

/// The abstract value of a block being accumulated.
spec fn pending_view(p: PendingBlock) -> BlockView {
    BlockView { lang: p.lang@, metas: metas_view(p.metas@), code: p.code.deep_view() }
}

/// The abstract value of the block being accumulated, if one is open.
spec fn opt_pending_view(b: Option<PendingBlock>) -> Option<BlockView> {
    match b {
        Some(p) => Some(pending_view(p)),
        None => None,
    }
}

/// One scanning state machine step per line: inside a block, a closer ends
/// it, emitting one chunk per descriptor, and any other line joins its code;
/// outside, an opener whose metadata decodes starts a block, an opener whose
/// metadata does not decode stops the scan with the offending text, and any
/// other line is skipped. A block still open at the end of the document is
/// dropped.
pub open spec fn scan_from(
    lines: Seq<Seq<char>>,
    i: int,
    cur: Option<BlockView>,
    done: Seq<ChunkView>,
) -> Result<Seq<ChunkView>, Seq<char>>
    decreases lines.len() - i,
{
    if 0 <= i < lines.len() {
        match cur {
            Some(b) => if closer_line(lines[i]) {
                scan_from(lines, i + 1, None, done + chunks_of_block(b))
            } else {
                scan_from(
                    lines,
                    i + 1,
                    Some(BlockView { lang: b.lang, metas: b.metas, code: b.code.push(lines[i]) }),
                    done,
                )
            },
            None => match opener_line(lines[i]) {
                Some(p) => match decode_block(p.1) {
                    Some(ms) => scan_from(
                        lines,
                        i + 1,
                        Some(BlockView { lang: p.0, metas: ms, code: Seq::<Seq<char>>::empty() }),
                        done,
                    ),
                    None => Err(p.1),
                },
                None => scan_from(lines, i + 1, None, done),
            },
        }
    } else {
        Ok(done)
    }
}

/// The chunks that scanning the document's lines yields, in document order,
/// or the metadata text that failed to decode.
pub open spec fn scan_doc(lines: Seq<Seq<char>>) -> Result<Seq<ChunkView>, Seq<char>> {
    scan_from(lines, 0, None, Seq::<ChunkView>::empty())
}

/// Scans the document's lines for fenced code blocks, in order, one chunk
/// per metadata descriptor; a block's metadata that fails to decode aborts
/// the scan with a decode error carrying the offending text.
pub fn find_codeblocks(lines: &Vec<String>) -> (r: Result<Vec<CodeChunk>, MdError>)
    ensures
        match scan_doc(lines.deep_view()) {
            Ok(cs) => r matches Ok(v) && chunk_views(v@) == cs,
            Err(t) => r matches Err(e) && (e matches MdError::MetadataDecode(s) && s@ == t),
        },
{
    let ghost ls = lines.deep_view();
    let mut chunks: Vec<CodeChunk> = Vec::new();
    let mut block: Option<PendingBlock> = None;
    let mut i: usize = 0;
    proof {
        assert(chunk_views(chunks@) =~= Seq::<ChunkView>::empty());
    }
    while i < lines.len()
        invariant
            i <= ls.len(),
            ls == lines.deep_view(),
            scan_doc(ls) == scan_from(
                ls,
                i as int,
                opt_pending_view(block),
                chunk_views(chunks@),
            ),
        decreases ls.len() - i,
    {
        let line = &lines[i];
        let ghost done0 = chunk_views(chunks@);
        let ghost cur0 = opt_pending_view(block);
        proof {
            assert(ls[i as int] == lines@[i as int]@);
        }
        let cur = block;
        match cur {
            Some(mut pb) => {
                if is_closer(line.as_str()) {
                    let ghost bv = pending_view(pb);
                    let lang = pb.lang;
                    let mut metas = pb.metas;
                    let code = pb.code;
                    let total: usize = metas.len();
                    let mut emitted: usize = 0;
                    proof {
                        assert(metas_view(metas@) =~= bv.metas.skip(0));
                        assert(done0 + chunks_of_block(bv).take(0) =~= done0);
                    }
                    while metas.len() > 0
                        invariant
                            total == bv.metas.len(),
                            emitted + metas@.len() == total,
                            lang@ == bv.lang,
                            code.deep_view() == bv.code,
                            metas_view(metas@) == bv.metas.skip(emitted as int),
                            chunk_views(chunks@) == done0 + chunks_of_block(bv).take(
                                emitted as int,
                            ),
                        decreases metas@.len(),
                    {
                        let ghost metas0 = metas@;
                        let m = metas.remove(0);
                        let ghost mv = meta_view(m);
                        proof {
                            assert(metas_view(metas0)[0] == mv);
                            assert(mv == bv.metas[emitted as int]);
                            assert(metas@ =~= metas0.drop_first());
                            assert forall|k: int| 0 <= k < metas@.len() implies metas_view(
                                metas@,
                            )[k] == bv.metas.skip(emitted + 1)[k] by {
                                assert(metas@[k] == metas0[k + 1]);
                                assert(metas_view(metas0)[k + 1] == meta_view(metas0[k + 1]));
                                assert(bv.metas.skip(emitted as int)[k + 1] == bv.metas[emitted + 1
                                    + k]);
                            }
                            assert(metas_view(metas@) =~= bv.metas.skip(emitted + 1));
                        }
                        let mut c = CodeChunk::new(lang.as_str(), m);
                        c.code = clone_lines(&code);
                        proof {
                            assert(meta_view(c.meta).file == c.meta.spec_file());
                            assert(chunk_view(c) == chunks_of_block(bv)[emitted as int]);
                        }
                        chunks.push(c);
                        proof {
                            assert(chunks_of_block(bv).take(emitted + 1) =~= chunks_of_block(
                                bv,
                            ).take(emitted as int).push(chunks_of_block(bv)[emitted as int]));
                            assert(chunk_views(chunks@) =~= (done0 + chunks_of_block(bv).take(
                                emitted as int,
                            )).push(chunk_view(c)));
                            assert((done0 + chunks_of_block(bv).take(emitted as int)).push(
                                chunk_view(c),
                            ) =~= done0 + chunks_of_block(bv).take(emitted + 1));
                        }
                        emitted = emitted + 1;
                    }
                    proof {
                        assert(chunks_of_block(bv).take(emitted as int) =~= chunks_of_block(bv));
                        assert(scan_from(ls, i as int, cur0, done0) == scan_from(
                            ls,
                            i + 1,
                            None,
                            done0 + chunks_of_block(bv),
                        ));
                    }
                    block = None;
                } else {
                    let ghost bv = pending_view(pb);
                    pb.code.push(line.clone());
                    proof {
                        assert(pb.code.deep_view() =~= bv.code.push(ls[i as int]));
                        assert(pending_view(pb) == BlockView {
                            lang: bv.lang,
                            metas: bv.metas,
                            code: bv.code.push(ls[i as int]),
                        });
                        assert(scan_from(ls, i as int, cur0, done0) == scan_from(
                            ls,
                            i + 1,
                            Some(pending_view(pb)),
                            done0,
                        ));
                    }
                    block = Some(pb);
                }
            },
            None => {
                match match_opener(line.as_str()) {
                    Some((lang, meta_text)) => {
                        let ghost p = opener_line(ls[i as int]).unwrap();
                        proof {
                            assert(lang@ == p.0 && meta_text@ == p.1);
                        }
                        match BlockMeta::from_json(meta_text.as_str()) {
                            Ok(bm) => {
                                let ghost ms = decode_block(p.1).unwrap();
                                let metas: Vec<CodeMeta> = match bm {
                                    BlockMeta::List(l) => {
                                        proof {
                                            assert(metas_view(l@) =~= ms);
                                        }
                                        l
                                    },
                                    BlockMeta::Single(cm) => {
                                        let mut v: Vec<CodeMeta> = Vec::new();
                                        proof {
                                            assert(ms =~= seq![meta_view(cm)]);
                                        }
                                        v.push(cm);
                                        proof {
                                            assert(metas_view(v@) =~= ms);
                                        }
                                        v
                                    },
                                };
                                let pb = PendingBlock { lang, metas, code: Vec::new() };
                                proof {
                                    assert(pb.code.deep_view() =~= Seq::<Seq<char>>::empty());
                                    assert(pending_view(pb) == BlockView {
                                        lang: p.0,
                                        metas: ms,
                                        code: Seq::<Seq<char>>::empty(),
                                    });
                                    assert(scan_from(ls, i as int, cur0, done0) == scan_from(
                                        ls,
                                        i + 1,
                                        Some(pending_view(pb)),
                                        done0,
                                    ));
                                }
                                block = Some(pb);
                            },
                            Err(e) => {
                                proof {
                                    assert(decode_block(p.1) is None);
                                    assert(scan_from(ls, i as int, cur0, done0) == Err::<
                                        Seq<ChunkView>,
                                        Seq<char>,
                                    >(p.1));
                                }
                                return Err(e);
                            },
                        }
                    },
                    None => {
                        proof {
                            assert(scan_from(ls, i as int, cur0, done0) == scan_from(
                                ls,
                                i + 1,
                                None,
                                done0,
                            ));
                        }
                        block = None;
                    },
                }
            },
        }
        i = i + 1;
    }
    Ok(chunks)
}

} // verus!
