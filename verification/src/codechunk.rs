//! The data model: one code chunk picked out of a document, with its
//! language tag, optional target file and operation metadata.

use vstd::prelude::*;
use vstd::string::StrSliceExecFns;

use crate::error::MdError;
use crate::json::{json_of, parse_json, JsonValue};

verus! {

/// An extra inclusive line range `[first, last]` to delete, expressed against
/// the line sequence as it stands when the removal is applied.
#[derive(Debug, Clone, Copy, PartialEq, Eq, Structural)]
pub struct CodeRemove {
    /// First line (inclusive) to remove.
    pub first: usize,
    /// Last line (inclusive) to remove.
    pub last: usize,
}

/// Add the chunk's lines at the end of the file.
#[derive(Debug, Clone)]
pub struct CodeAppend {
    /// The target file, `None` meaning the default unnamed file.
    pub file: Option<String>,
    /// Extra line ranges to delete after the primary operation.
    pub removals: Vec<CodeRemove>,
}

/// Insert the chunk's lines so that the first one lands at position `line`,
/// shifting the lines at and after that position later.
#[derive(Debug, Clone)]
pub struct CodeInsert {
    /// The target file, `None` meaning the default unnamed file.
    pub file: Option<String>,
    /// The position at which the first inserted line lands.
    pub line: usize,
    /// Extra line ranges to delete after the primary operation.
    pub removals: Vec<CodeRemove>,
}

/// Replace the inclusive line range `[first, last]` with the chunk's lines.
#[derive(Debug, Clone)]
pub struct CodeDiff {
    /// The target file, `None` meaning the default unnamed file.
    pub file: Option<String>,
    /// First line (inclusive) of the replaced range.
    pub first: usize,
    /// Last line (inclusive) of the replaced range.
    pub last: usize,
    /// Extra line ranges to delete after the primary operation.
    pub removals: Vec<CodeRemove>,
}

/// The operation a chunk performs on its target file. Decoding tries `Diff`
/// first, then `Insert`, and falls back to `Append`, which matches even an
/// empty metadata object.
#[derive(Debug, Clone)]
pub enum CodeMeta {
    /// Replace a line range with the chunk.
    Diff(CodeDiff),
    /// Insert the chunk at a line.
    Insert(CodeInsert),
    /// Add the chunk at the end of the file.
    Append(CodeAppend),
}

/// Metadata attached to one block: either a list of descriptors sharing the
/// block's lines, or a single descriptor.
#[derive(Debug)]
pub enum BlockMeta {
    /// Several descriptors attached to one block.
    List(Vec<CodeMeta>),
    /// One descriptor.
    Single(CodeMeta),
}

/// A single chunk of code, with the language tag and operation metadata taken
/// from the opening fence line.
#[derive(Debug)]
pub struct CodeChunk {
    /// The target file, copied out of the metadata; `None` means the default
    /// unnamed file.
    pub file: Option<String>,
    /// The language tag; informational only, no effect on assembly.
    pub lang: String,
    /// The operation this chunk performs.
    pub meta: CodeMeta,
    /// The literal code lines of the block, in order.
    pub code: Vec<String>,
}

impl CodeMeta {
    /// The target file named by the metadata, as a sequence of characters.
    pub open spec fn spec_file(&self) -> Option<Seq<char>> {
        match self {
            CodeMeta::Diff(d) => d.file.deep_view(),
            CodeMeta::Insert(i) => i.file.deep_view(),
            CodeMeta::Append(a) => a.file.deep_view(),
        }
    }

}

/// A numeric metadata field as the decoder sees it: absent, present but not
/// a usable position, or a position.
#[derive(Debug, Clone, Copy, PartialEq, Eq, Structural)]
pub enum NumField {
    /// The key is absent.
    Missing,
    /// The key is present but not an unsigned integer position.
    Bad,
    /// The position the key holds.
    Val(usize),
}

/// The operation a descriptor performs, abstracted to its positions.
pub ghost enum OpView {
    /// Add at the end.
    Append,
    /// Insert at a position.
    Insert { line: usize },
    /// Replace an inclusive range.
    Diff { first: usize, last: usize },
}

/// The abstract value of one decoded descriptor.
pub ghost struct MetaView {
    /// The target file named by the descriptor.
    pub file: Option<Seq<char>>,
    /// The operation.
    pub op: OpView,
    /// The extra removals.
    pub removals: Seq<CodeRemove>,
}

/// The abstract value of a `CodeMeta`.
pub open spec fn meta_view(m: CodeMeta) -> MetaView {
    match m {
        CodeMeta::Append(a) => MetaView {
            file: a.file.deep_view(),
            op: OpView::Append,
            removals: a.removals@,
        },
        CodeMeta::Insert(i) => MetaView {
            file: i.file.deep_view(),
            op: OpView::Insert { line: i.line },
            removals: i.removals@,
        },
        CodeMeta::Diff(d) => MetaView {
            file: d.file.deep_view(),
            op: OpView::Diff { first: d.first, last: d.last },
            removals: d.removals@,
        },
    }
}

/// The value under the first field with the given key, if any; the parser
/// hands objects over without duplicate keys.
pub open spec fn obj_lookup(fields: Seq<(String, JsonValue)>, key: Seq<char>) -> Option<JsonValue>
    decreases fields.len(),
{
    if fields.len() == 0 {
        None
    } else if fields[0].0@ == key {
        Some(fields[0].1)
    } else {
        obj_lookup(fields.drop_first(), key)
    }
}

/// What the object's field under the given key holds as a position.
pub open spec fn num_field(fields: Seq<(String, JsonValue)>, key: Seq<char>) -> NumField {
    match obj_lookup(fields, key) {
        None => NumField::Missing,
        Some(v) => match v {
            JsonValue::Num(Some(n)) => if n <= usize::MAX {
                NumField::Val(n as usize)
            } else {
                NumField::Bad
            },
            _ => NumField::Bad,
        },
    }
}

/// The target the object names: `None` when the field is malformed, and
/// otherwise the optional file name, with an absent or `null` field meaning
/// the default unnamed file.
pub open spec fn file_field(fields: Seq<(String, JsonValue)>) -> Option<Option<Seq<char>>> {
    match obj_lookup(fields, "file"@) {
        None => Some(None),
        Some(v) => match v {
            JsonValue::Null => Some(None),
            JsonValue::Str(s) => Some(Some(s@)),
            _ => None,
        },
    }
}

/// One entry of a removals list: an object holding `first` and `last`
/// positions; anything else is malformed.
pub open spec fn removal_of(v: JsonValue) -> Option<CodeRemove> {
    match v {
        JsonValue::Obj(fs) => match (num_field(fs@, "first"@), num_field(fs@, "last"@)) {
            (NumField::Val(f), NumField::Val(l)) => Some(CodeRemove { first: f, last: l }),
            _ => None,
        },
        _ => None,
    }
}

/// A removals array, element by element; `None` as soon as one is malformed.
pub open spec fn removals_list(items: Seq<JsonValue>) -> Option<Seq<CodeRemove>>
    decreases items.len(),
{
    if items.len() == 0 {
        Some(Seq::<CodeRemove>::empty())
    } else {
        match removal_of(items[0]) {
            Some(r) => match removals_list(items.drop_first()) {
                Some(rest) => Some(seq![r] + rest),
                None => None,
            },
            None => None,
        }
    }
}

/// The removals the object carries: empty when the field is absent, `None`
/// when it is not a well-formed list.
pub open spec fn removals_field(fields: Seq<(String, JsonValue)>) -> Option<Seq<CodeRemove>> {
    match obj_lookup(fields, "removals"@) {
        None => Some(Seq::<CodeRemove>::empty()),
        Some(v) => match v {
            JsonValue::Arr(items) => removals_list(items@),
            _ => None,
        },
    }
}

/// Decodes one JSON value into a descriptor by ordered attempt: a diff when
/// `first` and `last` both hold positions, else an insert when `line` does,
/// else an append, which matches even an empty object. A value that is not
/// an object, or whose `file` or `removals` field is malformed, matches no
/// shape at all.
pub open spec fn spec_decode(v: JsonValue) -> Option<MetaView> {
    match v {
        JsonValue::Obj(fields) => match (file_field(fields@), removals_field(fields@)) {
            (Some(file), Some(removals)) => Some(
                match (num_field(fields@, "first"@), num_field(fields@, "last"@)) {
                    (NumField::Val(f), NumField::Val(l)) => MetaView {
                        file,
                        op: OpView::Diff { first: f, last: l },
                        removals,
                    },
                    _ => match num_field(fields@, "line"@) {
                        NumField::Val(n) => MetaView {
                            file,
                            op: OpView::Insert { line: n },
                            removals,
                        },
                        _ => MetaView { file, op: OpView::Append, removals },
                    },
                },
            ),
            _ => None,
        },
        _ => None,
    }
}

/// Compares two string slices character by character.
pub(crate) fn str_eq(a: &str, b: &str) -> (r: bool)
    ensures
        r == (a@ == b@),
{
    let na = a.unicode_len();
    let nb = b.unicode_len();
    if na != nb {
        return false;
    }
    let mut i: usize = 0;
    while i < na
        invariant
            na == a@.len(),
            na == b@.len(),
            i <= na,
            forall|j: int| 0 <= j < i ==> a@[j] == b@[j],
        decreases na - i,
    {
        if a.get_char(i) != b.get_char(i) {
            return false;
        }
        i = i + 1;
    }
    proof {
        assert(a@ =~= b@);
    }
    true
}

/// Finds the value under the given key in a decoded object.
fn obj_get<'a>(fields: &'a Vec<(String, JsonValue)>, key: &str) -> (r: Option<&'a JsonValue>)
    ensures
        match obj_lookup(fields@, key@) {
            Some(v) => r matches Some(rv) && *rv == v,
            None => r is None,
        },
{
    let ghost fseq = fields@;
    proof {
        assert(fseq.skip(0) =~= fseq);
    }
    let mut k: usize = 0;
    while k < fields.len()
        invariant
            k <= fseq.len(),
            fseq == fields@,
            obj_lookup(fseq, key@) == obj_lookup(fseq.skip(k as int), key@),
        decreases fseq.len() - k,
    {
        proof {
            assert(fseq.skip(k as int)[0] == fseq[k as int]);
        }
        if str_eq(fields[k].0.as_str(), key) {
            return Some(&fields[k].1);
        }
        proof {
            assert(fseq.skip(k as int).drop_first() =~= fseq.skip(k + 1));
        }
        k = k + 1;
    }
    proof {
        assert(fseq.skip(k as int) =~= Seq::<(String, JsonValue)>::empty());
    }
    None
}

/// Reads the field under the given key as a position.
fn get_num_field(fields: &Vec<(String, JsonValue)>, key: &str) -> (r: NumField)
    ensures
        r == num_field(fields@, key@),
{
    match obj_get(fields, key) {
        Option::None => NumField::Missing,
        Option::Some(v) => match v {
            JsonValue::Num(n_opt) => match n_opt {
                Option::Some(n) => if *n <= usize::MAX as u64 {
                    NumField::Val(*n as usize)
                } else {
                    NumField::Bad
                },
                Option::None => NumField::Bad,
            },
            _ => NumField::Bad,
        },
    }
}

/// Reads the target the object names.
fn get_file_field(fields: &Vec<(String, JsonValue)>) -> (r: Result<Option<String>, ()>)
    ensures
        match file_field(fields@) {
            Some(fv) => r matches Ok(v) && v.deep_view() == fv,
            None => r is Err,
        },
{
    match obj_get(fields, "file") {
        Option::None => Ok(Option::None),
        Option::Some(v) => match v {
            JsonValue::Null => Ok(Option::None),
            JsonValue::Str(s) => Ok(Option::Some(s.clone())),
            _ => Err(()),
        },
    }
}

/// Reads one entry of a removals list.
fn get_removal(v: &JsonValue) -> (r: Result<CodeRemove, ()>)
    ensures
        match removal_of(*v) {
            Some(rem) => r matches Ok(e) && e == rem,
            None => r is Err,
        },
{
    match v {
        JsonValue::Obj(fs) => {
            let f = get_num_field(fs, "first");
            let l = get_num_field(fs, "last");
            match (f, l) {
                (NumField::Val(first), NumField::Val(last)) => Ok(CodeRemove { first, last }),
                _ => Err(()),
            }
        },
        _ => Err(()),
    }
}

/// Reads the removals the object carries.
fn get_removals_field(fields: &Vec<(String, JsonValue)>) -> (r: Result<Vec<CodeRemove>, ()>)
    ensures
        match removals_field(fields@) {
            Some(rs) => r matches Ok(v) && v@ == rs,
            None => r is Err,
        },
{
    match obj_get(fields, "removals") {
        Option::None => Ok(Vec::new()),
        Option::Some(v) => match v {
            JsonValue::Arr(items) => {
                let ghost iseq = items@;
                proof {
                    assert(iseq.skip(0) =~= iseq);
                }
                let mut out: Vec<CodeRemove> = Vec::new();
                let mut k: usize = 0;
                while k < items.len()
                    invariant
                        k <= iseq.len(),
                        iseq == items@,
                        removals_field(fields@) == removals_list(iseq),
                        removals_list(iseq) == match removals_list(iseq.skip(k as int)) {
                            Some(rest) => Some(out@ + rest),
                            None => None::<Seq<CodeRemove>>,
                        },
                    decreases iseq.len() - k,
                {
                    proof {
                        assert(iseq.skip(k as int)[0] == iseq[k as int]);
                    }
                    match get_removal(&items[k]) {
                        Ok(rem) => {
                            out.push(rem);
                            proof {
                                assert(iseq.skip(k as int).drop_first() =~= iseq.skip(k + 1));
                                assert forall|rest: Seq<CodeRemove>|
                                    true implies (out@ + rest) == (out@.drop_last() + (seq![rem]
                                    + rest)) by {
                                    assert(out@ + rest =~= out@.drop_last() + (seq![rem] + rest));
                                }
                            }
                        },
                        Err(()) => {
                            proof {
                                assert(removal_of(iseq[k as int]) is None);
                                assert(removals_list(iseq.skip(k as int)) is None);
                            }
                            return Err(());
                        },
                    }
                    k = k + 1;
                }
                proof {
                    assert(iseq.skip(k as int) =~= Seq::<JsonValue>::empty());
                    assert(out@ + Seq::<CodeRemove>::empty() =~= out@);
                }
                Ok(out)
            },
            _ => Err(()),
        },
    }
}

/// Decodes one JSON value into a descriptor by ordered attempt, diff before
/// insert before append.
fn decode_value(v: &JsonValue) -> (r: Result<CodeMeta, ()>)
    ensures
        match spec_decode(*v) {
            Some(m) => r matches Ok(cm) && meta_view(cm) == m,
            None => r is Err,
        },
{
    match v {
        JsonValue::Obj(fields) => {
            let file = match get_file_field(fields) {
                Ok(f) => f,
                Err(()) => {
                    return Err(());
                },
            };
            let removals = match get_removals_field(fields) {
                Ok(rs) => rs,
                Err(()) => {
                    return Err(());
                },
            };
            let first = get_num_field(fields, "first");
            let last = get_num_field(fields, "last");
            match (first, last) {
                (NumField::Val(f), NumField::Val(l)) => Ok(
                    CodeMeta::Diff(CodeDiff { file, first: f, last: l, removals }),
                ),
                _ => match get_num_field(fields, "line") {
                    NumField::Val(n) => Ok(CodeMeta::Insert(CodeInsert { file, line: n, removals })),
                    _ => Ok(CodeMeta::Append(CodeAppend { file, removals })),
                },
            }
        },
        _ => Err(()),
    }
}

impl CodeMeta {
    /// Decodes a metadata text: parses it as JSON and matches it against the
    /// operation shapes, diff first, then insert, then the append fallback;
    /// malformed text or a value matching no shape yields a decode error
    /// carrying the offending text.
    pub fn from_json(j: &str) -> (r: Result<CodeMeta, MdError>)
        ensures
            match json_of(j@) {
                Some(v) => match spec_decode(v) {
                    Some(m) => r matches Ok(cm) && meta_view(cm) == m,
                    None => r matches Err(e) && (e matches MdError::MetadataDecode(t) && t@ == j@),
                },
                None => r matches Err(e) && (e matches MdError::MetadataDecode(t) && t@ == j@),
            },
    {
        match parse_json(j) {
            Option::Some(v) => match decode_value(&v) {
                Ok(cm) => Ok(cm),
                Err(()) => Err(MdError::MetadataDecode(j.to_owned())),
            },
            Option::None => Err(MdError::MetadataDecode(j.to_owned())),
        }
    }
}

/// A batch of metadata values, element by element; `None` as soon as one
/// matches no shape.
pub open spec fn spec_decode_many(items: Seq<JsonValue>) -> Option<Seq<MetaView>>
    decreases items.len(),
{
    if items.len() == 0 {
        Some(Seq::<MetaView>::empty())
    } else {
        match spec_decode(items[0]) {
            Some(m) => match spec_decode_many(items.drop_first()) {
                Some(rest) => Some(seq![m] + rest),
                None => None,
            },
            None => None,
        }
    }
}

/// The abstract values of a sequence of descriptors.
pub open spec fn metas_view(ms: Seq<CodeMeta>) -> Seq<MetaView> {
    Seq::new(ms.len(), |i: int| meta_view(ms[i]))
}

impl BlockMeta {
    /// Decodes a metadata text that may carry a batch: a top-level JSON array
    /// yields one descriptor per element, anything else is decoded as a
    /// single descriptor; malformed text, or any element matching no shape,
    /// yields a decode error carrying the offending text.
    pub fn from_json(j: &str) -> (r: Result<BlockMeta, MdError>)
        ensures
            match json_of(j@) {
                Some(v) => match v {
                    JsonValue::Arr(items) => match spec_decode_many(items@) {
                        Some(ms) => r matches Ok(bm) && (bm matches BlockMeta::List(l)
                            && metas_view(l@) == ms),
                        None => r matches Err(e) && (e matches MdError::MetadataDecode(t) && t@
                            == j@),
                    },
                    _ => match spec_decode(v) {
                        Some(m) => r matches Ok(bm) && (bm matches BlockMeta::Single(cm)
                            && meta_view(cm) == m),
                        None => r matches Err(e) && (e matches MdError::MetadataDecode(t) && t@
                            == j@),
                    },
                },
                None => r matches Err(e) && (e matches MdError::MetadataDecode(t) && t@ == j@),
            },
    {
        let v = match parse_json(j) {
            Option::Some(v) => v,
            Option::None => {
                return Err(MdError::MetadataDecode(j.to_owned()));
            },
        };
        match v {
            JsonValue::Arr(items) => {
                let ghost iseq = items@;
                proof {
                    assert(iseq.skip(0) =~= iseq);
                    assert(metas_view(Seq::<CodeMeta>::empty()) =~= Seq::<MetaView>::empty());
                }
                let mut out: Vec<CodeMeta> = Vec::new();
                let mut k: usize = 0;
                while k < items.len()
                    invariant
                        k <= iseq.len(),
                        iseq == items@,
                        json_of(j@) == Some(JsonValue::Arr(items)),
                        spec_decode_many(iseq) == match spec_decode_many(iseq.skip(k as int)) {
                            Some(rest) => Some(metas_view(out@) + rest),
                            None => None::<Seq<MetaView>>,
                        },
                    decreases iseq.len() - k,
                {
                    proof {
                        assert(iseq.skip(k as int)[0] == iseq[k as int]);
                    }
                    match decode_value(&items[k]) {
                        Ok(cm) => {
                            let ghost out0 = metas_view(out@);
                            let ghost m = meta_view(cm);
                            out.push(cm);
                            proof {
                                assert(iseq.skip(k as int).drop_first() =~= iseq.skip(k + 1));
                                assert(metas_view(out@) =~= out0.push(m));
                                assert forall|rest: Seq<MetaView>|
                                    true implies (out0.push(m) + rest) == (out0 + (seq![m]
                                    + rest)) by {
                                    assert(out0.push(m) + rest =~= out0 + (seq![m] + rest));
                                }
                            }
                        },
                        Err(()) => {
                            proof {
                                assert(spec_decode(iseq[k as int]) is None);
                                assert(spec_decode_many(iseq.skip(k as int)) is None);
                            }
                            return Err(MdError::MetadataDecode(j.to_owned()));
                        },
                    }
                    k = k + 1;
                }
                proof {
                    assert(iseq.skip(k as int) =~= Seq::<JsonValue>::empty());
                    assert(metas_view(out@) + Seq::<MetaView>::empty() =~= metas_view(out@));
                }
                Ok(BlockMeta::List(out))
            },
            _ => match decode_value(&v) {
                Ok(cm) => Ok(BlockMeta::Single(cm)),
                Err(()) => Err(MdError::MetadataDecode(j.to_owned())),
            },
        }
    }
}

/// Clones an optional file name; the copy holds the same name.
pub(crate) fn clone_opt_string(o: &Option<String>) -> (r: Option<String>)
    ensures
        r == *o,
{
    match o {
        Option::None => Option::None,
        Option::Some(s) => Option::Some(s.clone()),
    }
}

impl CodeChunk {
    /// The identity of the file this chunk is routed to: targets are equal
    /// exactly when both are absent or both hold the same characters.
    pub open spec fn target(&self) -> Option<Seq<char>> {
        self.file.deep_view()
    }

    /// Makes an empty chunk for the given language and metadata; the chunk's
    /// target is the one the metadata names, and its code starts empty.
    pub fn new(lang: &str, meta: CodeMeta) -> (r: CodeChunk)
        ensures
            r.lang@ == lang@,
            r.code@ == Seq::<String>::empty(),
            r.meta == meta,
            r.target() == meta.spec_file(),
    {
        CodeChunk {
            lang: lang.to_owned(),
            code: Vec::new(),
            file: match &meta {
                CodeMeta::Diff(d) => clone_opt_string(&d.file),
                CodeMeta::Insert(i) => clone_opt_string(&i.file),
                CodeMeta::Append(a) => clone_opt_string(&a.file),
            },
            meta,
        }
    }
}

} // verus!
