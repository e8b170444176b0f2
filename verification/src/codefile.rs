//! The core assembly algorithm: push code chunks into per-target files
//! according to their mode of operation, in document order.

use vstd::prelude::*;
use vstd::string::StrSliceExecFns;
use vstd::string::StringExecFns;

use crate::codechunk::{clone_opt_string, CodeChunk, CodeDiff, CodeInsert, CodeMeta, CodeRemove};
use crate::error::MdError;

verus! {

/// The lines that result from inserting `code` so that its first line lands
/// at position `at`, shifting the lines at and after `at` later.
pub open spec fn insert_lines_spec(s: Seq<String>, at: int, code: Seq<String>) -> Seq<String> {
    s.take(at) + code + s.skip(at)
}

/// The lines that remain after deleting the inclusive range `[first, last]`.
pub open spec fn remove_range_spec(s: Seq<String>, first: int, last: int) -> Seq<String> {
    s.take(first) + s.skip(last + 1)
}

/// A removal range is applicable only when it is well-formed and lies inside
/// the sequence it is applied to.
pub open spec fn removal_in_bounds(s: Seq<String>, r: CodeRemove) -> bool {
    r.first <= r.last && r.last < s.len()
}

/// Applies the removal ranges left to right, each against the sequence as the
/// previous ones left it; `None` when some range falls out of bounds.
pub open spec fn apply_removals_spec(s: Seq<String>, rs: Seq<CodeRemove>) -> Option<Seq<String>>
    decreases rs.len(),
{
    if rs.len() == 0 {
        Some(s)
    } else if removal_in_bounds(s, rs[0]) {
        apply_removals_spec(
            remove_range_spec(s, rs[0].first as int, rs[0].last as int),
            rs.drop_first(),
        )
    } else {
        None
    }
}

/// Applies one descriptor's primary operation and then its removals to a line
/// sequence; `None` when a position or range falls out of bounds.
pub open spec fn apply_meta_spec(s: Seq<String>, meta: CodeMeta, code: Seq<String>) -> Option<
    Seq<String>,
> {
    match meta {
        CodeMeta::Append(a) => apply_removals_spec(s + code, a.removals@),
        CodeMeta::Insert(i) => if i.line <= s.len() {
            apply_removals_spec(insert_lines_spec(s, i.line as int, code), i.removals@)
        } else {
            None
        },
        CodeMeta::Diff(d) => if d.first <= d.last && d.last < s.len() {
            apply_removals_spec(
                insert_lines_spec(
                    remove_range_spec(s, d.first as int, d.last as int),
                    d.first as int,
                    code,
                ),
                d.removals@,
            )
        } else {
            None
        },
    }
}

/// The abstract value of one in-progress file: its target identity and its
/// accumulated lines.
pub ghost struct FileView {
    /// The target; `None` is the default unnamed file.
    pub name: Option<Seq<char>>,
    /// The accumulated lines.
    pub lines: Seq<String>,
}

/// One file being assembled: the optional target name and the accumulated
/// lines, mutated as chunks for that target are applied.
#[derive(Debug)]
pub struct CodeFile {
    name: Option<String>,
    lines: Vec<String>,
}

/// Clones a line vector; the copy holds the same lines.
pub(crate) fn clone_lines(v: &Vec<String>) -> (r: Vec<String>)
    ensures
        r@ == v@,
{
    let mut r: Vec<String> = Vec::new();
    let mut i: usize = 0;
    while i < v.len()
        invariant
            i <= v@.len(),
            r@ == v@.take(i as int),
        decreases v@.len() - i,
    {
        r.push(v[i].clone());
        proof {
            assert(v@.take(i + 1) =~= v@.take(i as int).push(v@[i as int]));
        }
        i = i + 1;
    }
    proof {
        assert(v@.take(v@.len() as int) =~= v@);
    }
    r
}

/// Builds the sequence with `code` inserted at position `at`.
fn insert_lines(v: &Vec<String>, at: usize, code: &Vec<String>) -> (r: Vec<String>)
    requires
        at <= v@.len(),
    ensures
        r@ == insert_lines_spec(v@, at as int, code@),
{
    let mut r: Vec<String> = Vec::new();
    let mut i: usize = 0;
    while i < at
        invariant
            i <= at,
            at <= v@.len(),
            r@ == v@.take(i as int),
        decreases at - i,
    {
        r.push(v[i].clone());
        proof {
            assert(v@.take(i + 1) =~= v@.take(i as int).push(v@[i as int]));
        }
        i = i + 1;
    }
    let mut j: usize = 0;
    while j < code.len()
        invariant
            j <= code@.len(),
            at <= v@.len(),
            r@ == v@.take(at as int) + code@.take(j as int),
        decreases code@.len() - j,
    {
        r.push(code[j].clone());
        proof {
            assert(code@.take(j + 1) =~= code@.take(j as int).push(code@[j as int]));
            assert((v@.take(at as int) + code@.take(j as int)).push(code@[j as int]) =~= v@.take(
                at as int,
            ) + code@.take(j + 1));
        }
        j = j + 1;
    }
    proof {
        assert(code@.take(code@.len() as int) =~= code@);
    }
    let mut k: usize = at;
    while k < v.len()
        invariant
            at <= k <= v@.len(),
            r@ == v@.take(at as int) + code@ + v@.subrange(at as int, k as int),
        decreases v@.len() - k,
    {
        r.push(v[k].clone());
        proof {
            assert((v@.take(at as int) + code@ + v@.subrange(at as int, k as int)).push(
                v@[k as int],
            ) =~= v@.take(at as int) + code@ + v@.subrange(at as int, k + 1));
        }
        k = k + 1;
    }
    proof {
        assert(v@.subrange(at as int, v@.len() as int) =~= v@.skip(at as int));
    }
    r
}

/// Builds the sequence with the inclusive range `[first, last]` deleted.
fn remove_lines(v: &Vec<String>, first: usize, last: usize) -> (r: Vec<String>)
    requires
        first <= last < v@.len(),
    ensures
        r@ == remove_range_spec(v@, first as int, last as int),
{
    let mut r: Vec<String> = Vec::new();
    let mut i: usize = 0;
    while i < first
        invariant
            i <= first,
            first <= v@.len(),
            r@ == v@.take(i as int),
        decreases first - i,
    {
        r.push(v[i].clone());
        proof {
            assert(v@.take(i + 1) =~= v@.take(i as int).push(v@[i as int]));
        }
        i = i + 1;
    }
    let n = v.len();
    let mut k: usize = last + 1;
    while k < n
        invariant
            n == v@.len(),
            last + 1 <= k <= v@.len(),
            first <= last < v@.len(),
            r@ == v@.take(first as int) + v@.subrange(last + 1, k as int),
        decreases v@.len() - k,
    {
        r.push(v[k].clone());
        proof {
            assert((v@.take(first as int) + v@.subrange(last + 1, k as int)).push(v@[k as int])
                =~= v@.take(first as int) + v@.subrange(last + 1, k + 1));
        }
        k = k + 1;
    }
    proof {
        assert(v@.subrange(last + 1, v@.len() as int) =~= v@.skip(last + 1));
    }
    r
}

/// Applies the removal ranges left to right against a copy of the lines; on
/// an out-of-bounds range the copy is discarded and the caller aborts.
fn remove_all(lines: &Vec<String>, removals: &Vec<CodeRemove>) -> (r: Result<Vec<String>, MdError>)
    ensures
        match apply_removals_spec(lines@, removals@) {
            Some(s) => r matches Ok(v) && v@ == s,
            None => r matches Err(e) && e is IndexOutOfRange,
        },
{
    proof {
        assert(removals@.skip(0) =~= removals@);
    }
    let mut cur = clone_lines(lines);
    let mut k: usize = 0;
    while k < removals.len()
        invariant
            k <= removals@.len(),
            apply_removals_spec(lines@, removals@) == apply_removals_spec(
                cur@,
                removals@.skip(k as int),
            ),
        decreases removals@.len() - k,
    {
        let rem = removals[k];
        proof {
            assert(removals@.skip(k as int)[0] == removals@[k as int]);
        }
        if rem.first > rem.last || rem.last >= cur.len() {
            proof {
                assert(!removal_in_bounds(cur@, removals@.skip(k as int)[0]));
                assert(apply_removals_spec(cur@, removals@.skip(k as int)) is None);
            }
            return Err(MdError::IndexOutOfRange);
        }
        let next = remove_lines(&cur, rem.first, rem.last);
        proof {
            assert(removals@.skip(k as int).drop_first() =~= removals@.skip(k + 1));
        }
        cur = next;
        k = k + 1;
    }
    proof {
        assert(removals@.skip(k as int) =~= Seq::<CodeRemove>::empty());
    }
    Ok(cur)
}

/// Compares two optional file names; equality is exact character match, or
/// both absent.
pub(crate) fn opt_name_eq(a: &Option<String>, b: &Option<String>) -> (r: bool)
    ensures
        r == (a.deep_view() == b.deep_view()),
{
    match (a, b) {
        (Option::None, Option::None) => true,
        (Option::Some(x), Option::Some(y)) => x.eq(y),
        _ => false,
    }
}

impl CodeFile {
    /// The identity of the file's target: targets are equal exactly when both
    /// are absent or both hold the same characters.
    pub closed spec fn target(&self) -> Option<Seq<char>> {
        self.name.deep_view()
    }

    /// The lines accumulated so far.
    pub closed spec fn contents(&self) -> Seq<String> {
        self.lines@
    }

    /// The abstract value of this file.
    pub open spec fn abs(&self) -> FileView {
        FileView { name: self.target(), lines: self.contents() }
    }

    /// Makes the file for the chunk's target at its first sighting: the file
    /// starts empty, and the chunk's own operation and removals are applied
    /// to it like any other, so an out-of-range insert or diff is an error
    /// even on the very first chunk.
    pub fn new(chunk: &CodeChunk) -> (r: Result<CodeFile, MdError>)
        ensures
            match apply_meta_spec(Seq::<String>::empty(), chunk.meta, chunk.code@) {
                Some(s) => r matches Ok(cf) && cf.target() == chunk.target() && cf.contents()
                    == s,
                None => r matches Err(e) && e is IndexOutOfRange,
            },
    {
        let mut cf = CodeFile::for_target(chunk);
        match cf.add(chunk) {
            Ok(()) => Ok(cf),
            Err(e) => Err(e),
        }
    }

    /// Makes an empty file for the chunk's target, to which the chunk's own
    /// operation is then applied like any other.
    fn for_target(chunk: &CodeChunk) -> (r: CodeFile)
        ensures
            r.target() == chunk.target(),
            r.contents() == Seq::<String>::empty(),
    {
        CodeFile { name: clone_opt_string(&chunk.file), lines: Vec::new() }
    }

    /// Deletes each removal range in listed order, every one against the
    /// lines as the previous ones left them; on an out-of-bounds range the
    /// file is left unchanged and the whole run is aborted.
    pub fn perform_removals(&mut self, removals: &Vec<CodeRemove>) -> (r: Result<(), MdError>)
        ensures
            final(self).target() == old(self).target(),
            match apply_removals_spec(old(self).contents(), removals@) {
                Some(s) => r is Ok && final(self).contents() == s,
                None => r matches Err(e) && e is IndexOutOfRange && final(self).contents() == old(
                    self,
                ).contents(),
            },
    {
        match remove_all(&self.lines, removals) {
            Ok(v) => {
                self.lines = v;
                Ok(())
            },
            Err(e) => Err(e),
        }
    }

    /// Applies one chunk to this file: the primary operation, then the
    /// removals. A chunk routed to a file with a different target is rejected
    /// and any out-of-bounds position or range aborts the run; in both cases
    /// the file is left unchanged.
    pub fn add(&mut self, chunk: &CodeChunk) -> (r: Result<(), MdError>)
        ensures
            final(self).target() == old(self).target(),
            chunk.target() != old(self).target() ==> (r matches Err(e) && e is TargetMismatch
                && final(self).contents() == old(self).contents()),
            chunk.target() == old(self).target() ==> match apply_meta_spec(
                old(self).contents(),
                chunk.meta,
                chunk.code@,
            ) {
                Some(s) => r is Ok && final(self).contents() == s,
                None => r matches Err(e) && e is IndexOutOfRange && final(self).contents() == old(
                    self,
                ).contents(),
            },
    {
        if !opt_name_eq(&chunk.file, &self.name) {
            return Err(MdError::TargetMismatch);
        }
        let work: Vec<String> = match &chunk.meta {
            CodeMeta::Append(_) => {
                let len = self.lines.len();
                let w = insert_lines(&self.lines, len, &chunk.code);
                proof {
                    assert(self.lines@.take(self.lines@.len() as int) =~= self.lines@);
                    assert(self.lines@.skip(self.lines@.len() as int) =~= Seq::<String>::empty());
                    assert(insert_lines_spec(self.lines@, self.lines@.len() as int, chunk.code@)
                        =~= self.lines@ + chunk.code@);
                }
                w
            },
            CodeMeta::Insert(i) => {
                if i.line > self.lines.len() {
                    return Err(MdError::IndexOutOfRange);
                }
                insert_lines(&self.lines, i.line, &chunk.code)
            },
            CodeMeta::Diff(d) => {
                if d.first > d.last || d.last >= self.lines.len() {
                    return Err(MdError::IndexOutOfRange);
                }
                let removed = remove_lines(&self.lines, d.first, d.last);
                insert_lines(&removed, d.first, &chunk.code)
            },
        };
        let removals = match &chunk.meta {
            CodeMeta::Append(a) => &a.removals,
            CodeMeta::Insert(i) => &i.removals,
            CodeMeta::Diff(d) => &d.removals,
        };
        match remove_all(&work, removals) {
            Ok(v) => {
                self.lines = v;
                Ok(())
            },
            Err(e) => Err(e),
        }
    }

    /// The target name, `None` for the default unnamed file.
    pub fn name(&self) -> (r: &Option<String>)
        ensures
            r.deep_view() == self.target(),
    {
        &self.name
    }

    /// The accumulated lines.
    pub fn lines(&self) -> (r: &Vec<String>)
        ensures
            r@ == self.contents(),
    {
        &self.lines
    }

    /// Renders the file as text: each line in order, every one terminated by
    /// a single newline.
    pub fn to_text(&self) -> (r: String)
        ensures
            r@ == rendered_from(self.contents(), 0),
    {
        let mut out = String::new();
        let mut i: usize = 0;
        let n = self.lines.len();
        proof {
            reveal_strlit("\n");
            assert("\n"@ =~= seq!['\n']);
        }
        while i < n
            invariant
                i <= n,
                n == self.contents().len(),
                "\n"@ == seq!['\n'],
                rendered_from(self.contents(), 0) == out@ + rendered_from(
                    self.contents(),
                    i as int,
                ),
            decreases n - i,
        {
            out.append(self.lines[i].as_str());
            out.append("\n");
            proof {
                assert(rendered_from(self.contents(), i as int) == self.contents()[i as int]@
                    + seq!['\n'] + rendered_from(self.contents(), i + 1));
            }
            i = i + 1;
        }
        proof {
            assert(out@ + rendered_from(self.contents(), n as int) =~= out@);
        }
        out
    }
}

/// The text of the lines from position `i` on, each terminated by a single
/// newline.
pub open spec fn rendered_from(lines: Seq<String>, i: int) -> Seq<char>
    decreases lines.len() - i,
{
    if 0 <= i < lines.len() {
        lines[i]@ + seq!['\n'] + rendered_from(lines, i + 1)
    } else {
        Seq::<char>::empty()
    }
}

/// The position of the first file with the given target, if any.
pub open spec fn find_target(fs: Seq<FileView>, t: Option<Seq<char>>) -> Option<int>
    decreases fs.len(),
{
    if fs.len() == 0 {
        None
    } else if fs[0].name == t {
        Some(0)
    } else {
        match find_target(fs.drop_first(), t) {
            Some(j) => Some(j + 1),
            None => None,
        }
    }
}

/// A found position names a file that carries the sought target.
pub proof fn lemma_find_target_found(fs: Seq<FileView>, t: Option<Seq<char>>)
    ensures
        match find_target(fs, t) {
            Some(j) => 0 <= j < fs.len() && fs[j].name == t,
            None => true,
        },
    decreases fs.len(),
{
    if fs.len() == 0 {
    } else if fs[0].name == t {
    } else {
        lemma_find_target_found(fs.drop_first(), t);
    }
}

/// One step of an assembly run: the chunk is applied to the file already
/// accumulated for its target, or to a fresh empty file appended at the end
/// when its target has not been sighted yet.
pub open spec fn apply_chunk(fs: Seq<FileView>, c: CodeChunk) -> Option<Seq<FileView>> {
    match find_target(fs, c.target()) {
        Some(j) => match apply_meta_spec(fs[j].lines, c.meta, c.code@) {
            Some(l) => Some(fs.update(j, FileView { name: fs[j].name, lines: l })),
            None => None,
        },
        None => match apply_meta_spec(Seq::empty(), c.meta, c.code@) {
            Some(l) => Some(fs.push(FileView { name: c.target(), lines: l })),
            None => None,
        },
    }
}

/// An assembly run over a chunk sequence, in document order, starting from
/// the given accumulated files; `None` as soon as one chunk fails.
pub open spec fn assemble_on(fs: Seq<FileView>, blocks: Seq<CodeChunk>) -> Option<Seq<FileView>>
    decreases blocks.len(),
{
    if blocks.len() == 0 {
        Some(fs)
    } else {
        match apply_chunk(fs, blocks[0]) {
            Some(fs2) => assemble_on(fs2, blocks.drop_first()),
            None => None,
        }
    }
}

/// The files that assembling the chunk sequence produces, in order of first
/// sighting of each target; `None` when some chunk fails.
pub open spec fn assemble(blocks: Seq<CodeChunk>) -> Option<Seq<FileView>> {
    assemble_on(Seq::empty(), blocks)
}

/// The abstract values of a sequence of files.
pub open spec fn views_of(files: Seq<CodeFile>) -> Seq<FileView> {
    Seq::new(files.len(), |i: int| files[i].abs())
}

/// Finds the file already accumulated for the given target.
fn find_file(files: &Vec<CodeFile>, target: &Option<String>) -> (r: Option<usize>)
    ensures
        match r {
            Some(j) => j < files@.len() && find_target(views_of(files@), target.deep_view())
                == Some(j as int),
            None => find_target(views_of(files@), target.deep_view()) is None,
        },
{
    let ghost fs = views_of(files@);
    let ghost t = target.deep_view();
    let mut k: usize = 0;
    proof {
        assert(fs.skip(0) =~= fs);
    }
    while k < files.len()
        invariant
            k <= files@.len(),
            fs == views_of(files@),
            t == target.deep_view(),
            find_target(fs, t) == match find_target(fs.skip(k as int), t) {
                Some(j) => Some(j + k),
                None => None::<int>,
            },
        decreases files@.len() - k,
    {
        proof {
            assert(fs.skip(k as int)[0] == fs[k as int]);
        }
        if opt_name_eq(files[k].name(), target) {
            return Some(k);
        }
        proof {
            assert(fs.skip(k as int).drop_first() =~= fs.skip(k + 1));
        }
        k = k + 1;
    }
    proof {
        assert(fs.skip(k as int) =~= Seq::<FileView>::empty());
    }
    None
}

impl CodeFile {
    /// Assembles the chunks, in document order, into one file per distinct
    /// target, each created empty at its target's first sighting; an empty
    /// chunk sequence is rejected, and any failing chunk aborts the run with
    /// the files unreported.
    pub fn from_blocks(blocks: &Vec<CodeChunk>) -> (r: Result<Vec<CodeFile>, MdError>)
        ensures
            blocks@.len() == 0 ==> (r matches Err(e) && e is NoBlocks),
            blocks@.len() > 0 ==> match assemble(blocks@) {
                Some(fs) => r matches Ok(files) && views_of(files@) == fs,
                None => r matches Err(e) && e is IndexOutOfRange,
            },
    {
        if blocks.is_empty() {
            return Err(MdError::NoBlocks);
        }
        proof {
            assert(blocks@.skip(0) =~= blocks@);
        }
        let mut files: Vec<CodeFile> = Vec::new();
        let mut k: usize = 0;
        proof {
            assert(views_of(files@) =~= Seq::<FileView>::empty());
        }
        while k < blocks.len()
            invariant
                k <= blocks@.len(),
                assemble(blocks@) == assemble_on(views_of(files@), blocks@.skip(k as int)),
            decreases blocks@.len() - k,
        {
            let b = &blocks[k];
            let ghost fs = views_of(files@);
            proof {
                assert(blocks@.skip(k as int)[0] == blocks@[k as int]);
                assert(blocks@.skip(k as int).drop_first() =~= blocks@.skip(k + 1));
            }
            match find_file(&files, &b.file) {
                Some(j) => {
                    let mut cf = files.remove(j);
                    proof {
                        lemma_find_target_found(fs, b.target());
                        assert(fs[j as int] == cf.abs());
                        assert(cf.target() == b.target());
                    }
                    match cf.add(b) {
                        Ok(()) => {
                            files.insert(j, cf);
                            proof {
                                assert(views_of(files@) =~= fs.update(
                                    j as int,
                                    FileView { name: fs[j as int].name, lines: cf.contents() },
                                ));
                            }
                        },
                        Err(e) => {
                            return Err(e);
                        },
                    }
                },
                None => {
                    match CodeFile::new(b) {
                        Ok(cf) => {
                            files.push(cf);
                            proof {
                                assert(views_of(files@) =~= fs.push(
                                    FileView { name: b.target(), lines: cf.contents() },
                                ));
                            }
                        },
                        Err(e) => {
                            return Err(e);
                        },
                    }
                },
            }
            k = k + 1;
        }
        proof {
            assert(blocks@.skip(k as int) =~= Seq::<CodeChunk>::empty());
        }
        Ok(files)
    }
}

/// Inserting a chunk at `at` puts its lines at positions `[at, at + code.len())`,
/// keeps every line before `at` where it was, and shifts every line at or
/// after `at` right by `code.len()`.
pub proof fn lemma_insert_shifts(s: Seq<String>, ins: CodeInsert, code: Seq<String>)
    requires
        ins.line <= s.len(),
        ins.removals@.len() == 0,
    ensures
        apply_meta_spec(s, CodeMeta::Insert(ins), code) matches Some(l) && l.len() == s.len()
            + code.len() && (forall|i: int| 0 <= i < ins.line ==> l[i] == s[i]) && (forall|i: int|
            0 <= i < code.len() ==> l[ins.line + i] == code[i]) && (forall|i: int|
            ins.line <= i < s.len() ==> l[i + code.len()] == s[i]),
{
    let l = insert_lines_spec(s, ins.line as int, code);
    assert(apply_meta_spec(s, CodeMeta::Insert(ins), code) == Some(l));
    assert forall|i: int| ins.line <= i < s.len() implies l[i + code.len()] == s[i] by {
        assert(l[i + code.len()] == s.skip(ins.line as int)[i + code.len() - ins.line
            - code.len()]);
    }
}

/// A diff is exactly a deletion of its range followed by an insertion at the
/// range's first position.
pub proof fn lemma_diff_is_delete_then_insert(s: Seq<String>, d: CodeDiff, code: Seq<String>)
    requires
        d.first <= d.last < s.len(),
    ensures
        apply_meta_spec(s, CodeMeta::Diff(d), code) == apply_meta_spec(
            remove_range_spec(s, d.first as int, d.last as int),
            CodeMeta::Insert((CodeInsert { file: d.file, line: d.first, removals: d.removals })),
            code,
        ),
{
    assert(remove_range_spec(s, d.first as int, d.last as int).len() == s.len() - (d.last - d.first
        + 1));
}

/// A diff that replaces a single existing line with a single line leaves the
/// length of the sequence unchanged.
pub proof fn lemma_diff_single_line_keeps_len(s: Seq<String>, d: CodeDiff, code: Seq<String>)
    requires
        d.first == d.last < s.len(),
        code.len() == 1,
        d.removals@.len() == 0,
    ensures
        apply_meta_spec(s, CodeMeta::Diff(d), code) matches Some(l) && l.len() == s.len(),
{
}

/// Removals compound left to right: each range is read against the sequence
/// as the previous removals left it, not against the original sequence.
pub proof fn lemma_removals_compound(s: Seq<String>, rs: Seq<CodeRemove>)
    requires
        rs.len() > 0,
    ensures
        apply_removals_spec(s, rs) == (if removal_in_bounds(s, rs[0]) {
            apply_removals_spec(
                remove_range_spec(s, rs[0].first as int, rs[0].last as int),
                rs.drop_first(),
            )
        } else {
            None
        }),
{
}

/// Every chunk is an `Append` without removals, and all share one target.
pub open spec fn all_plain_appends(blocks: Seq<CodeChunk>, t: Option<Seq<char>>) -> bool {
    forall|i: int|
        0 <= i < blocks.len() ==> blocks[i].target() == t && ((#[trigger] blocks[i].meta) matches
        CodeMeta::Append(a) && a.removals@.len() == 0)
}

/// The concatenation of the chunks' code lines, in document order.
pub open spec fn concat_code(blocks: Seq<CodeChunk>) -> Seq<String>
    decreases blocks.len(),
{
    if blocks.len() == 0 {
        Seq::<String>::empty()
    } else {
        blocks[0].code@ + concat_code(blocks.drop_first())
    }
}

proof fn lemma_appends_on(blocks: Seq<CodeChunk>, t: Option<Seq<char>>, acc: Seq<String>)
    requires
        all_plain_appends(blocks, t),
    ensures
        assemble_on(seq![(FileView { name: t, lines: acc })], blocks) == Some(
            seq![(FileView { name: t, lines: acc + concat_code(blocks) })],
        ),
    decreases blocks.len(),
{
    let fs = seq![(FileView { name: t, lines: acc })];
    if blocks.len() == 0 {
        assert(acc + concat_code(blocks) =~= acc);
        assert(seq![(FileView { name: t, lines: acc + concat_code(blocks) })] =~= fs);
    } else {
        let c = blocks[0];
        let rest = blocks.drop_first();
        assert(c.target() == t && (c.meta matches CodeMeta::Append(a) && a.removals@.len() == 0));
        assert(find_target(fs, t) == Some(0int));
        assert(apply_meta_spec(acc, c.meta, c.code@) == Some(acc + c.code@));
        assert(apply_chunk(fs, c) == Some(
            fs.update(0, FileView { name: t, lines: acc + c.code@ }),
        ));
        assert(fs.update(0, FileView { name: t, lines: acc + c.code@ }) =~= seq![
            (FileView { name: t, lines: acc + c.code@ }),
        ]);
        assert forall|i: int| 0 <= i < rest.len() implies rest[i].target() == t && ((
        #[trigger] rest[i].meta) matches CodeMeta::Append(a) && a.removals@.len() == 0) by {
            assert(rest[i] == blocks[i + 1]);
        }
        lemma_appends_on(rest, t, acc + c.code@);
        assert(acc + c.code@ + concat_code(rest) =~= acc + concat_code(blocks));
    }
}

/// A run made only of appends to one target yields a single file whose lines
/// are the concatenation of the chunks' code, in document order.
pub proof fn lemma_appends_concatenate(blocks: Seq<CodeChunk>, t: Option<Seq<char>>)
    requires
        blocks.len() > 0,
        all_plain_appends(blocks, t),
    ensures
        assemble(blocks) == Some(seq![(FileView { name: t, lines: concat_code(blocks) })]),
{
    let c = blocks[0];
    let rest = blocks.drop_first();
    assert(c.target() == t && (c.meta matches CodeMeta::Append(a) && a.removals@.len() == 0));
    assert(find_target(Seq::<FileView>::empty(), t) is None);
    assert(Seq::<String>::empty() + c.code@ =~= c.code@);
    assert(apply_meta_spec(Seq::<String>::empty(), c.meta, c.code@) == Some(c.code@));
    assert(Seq::<FileView>::empty().push(FileView { name: t, lines: c.code@ }) =~= seq![
        (FileView { name: t, lines: c.code@ }),
    ]);
    assert forall|i: int| 0 <= i < rest.len() implies rest[i].target() == t && ((
    #[trigger] rest[i].meta) matches CodeMeta::Append(a) && a.removals@.len() == 0) by {
        assert(rest[i] == blocks[i + 1]);
    }
    lemma_appends_on(rest, t, c.code@);
    assert(c.code@ + concat_code(rest) =~= concat_code(blocks));
}

/// The chunks of a sequence that are routed to the given target, in order.
pub open spec fn restrict_to(blocks: Seq<CodeChunk>, t: Option<Seq<char>>) -> Seq<CodeChunk>
    decreases blocks.len(),
{
    if blocks.len() == 0 {
        Seq::<CodeChunk>::empty()
    } else if blocks[0].target() == t {
        seq![blocks[0]] + restrict_to(blocks.drop_first(), t)
    } else {
        restrict_to(blocks.drop_first(), t)
    }
}

/// The accumulated files that carry the given target, in order.
pub open spec fn files_named(fs: Seq<FileView>, t: Option<Seq<char>>) -> Seq<FileView>
    decreases fs.len(),
{
    if fs.len() == 0 {
        Seq::<FileView>::empty()
    } else if fs[0].name == t {
        seq![fs[0]] + files_named(fs.drop_first(), t)
    } else {
        files_named(fs.drop_first(), t)
    }
}

proof fn lemma_files_named_all(fs: Seq<FileView>, t: Option<Seq<char>>)
    ensures
        forall|i: int| 0 <= i < files_named(fs, t).len() ==> files_named(fs, t)[i].name == t,
    decreases fs.len(),
{
    if fs.len() == 0 {
    } else {
        lemma_files_named_all(fs.drop_first(), t);
    }
}

proof fn lemma_files_named_head(fs: Seq<FileView>, t: Option<Seq<char>>)
    ensures
        match find_target(fs, t) {
            Some(j) => files_named(fs, t).len() > 0 && files_named(fs, t)[0] == fs[j],
            None => files_named(fs, t).len() == 0,
        },
    decreases fs.len(),
{
    if fs.len() == 0 {
    } else if fs[0].name == t {
    } else {
        lemma_files_named_head(fs.drop_first(), t);
        lemma_find_target_found(fs.drop_first(), t);
    }
}

proof fn lemma_files_named_update(fs: Seq<FileView>, t: Option<Seq<char>>, j: int, f: FileView)
    requires
        find_target(fs, t) == Some(j),
        f.name == t,
    ensures
        files_named(fs.update(j, f), t) == files_named(fs, t).update(0, f),
    decreases fs.len(),
{
    lemma_find_target_found(fs, t);
    if fs[0].name == t {
        assert(j == 0);
        assert(fs.update(0, f).drop_first() =~= fs.drop_first());
        assert(seq![f] + files_named(fs.drop_first(), t) =~= (seq![fs[0]] + files_named(
            fs.drop_first(),
            t,
        )).update(0, f));
    } else {
        assert(find_target(fs.drop_first(), t) == Some(j - 1));
        lemma_files_named_update(fs.drop_first(), t, j - 1, f);
        assert(fs.update(j, f).drop_first() =~= fs.drop_first().update(j - 1, f));
        assert(fs.update(j, f)[0] == fs[0]);
    }
}

proof fn lemma_files_named_update_other(
    fs: Seq<FileView>,
    t: Option<Seq<char>>,
    j: int,
    f: FileView,
)
    requires
        0 <= j < fs.len(),
        fs[j].name != t,
        f.name == fs[j].name,
    ensures
        files_named(fs.update(j, f), t) == files_named(fs, t),
    decreases fs.len(),
{
    if j == 0 {
        assert(fs.update(0, f).drop_first() =~= fs.drop_first());
    } else {
        lemma_files_named_update_other(fs.drop_first(), t, j - 1, f);
        assert(fs.update(j, f).drop_first() =~= fs.drop_first().update(j - 1, f));
        assert(fs.update(j, f)[0] == fs[0]);
    }
}

proof fn lemma_files_named_push(fs: Seq<FileView>, t: Option<Seq<char>>, f: FileView)
    ensures
        files_named(fs.push(f), t) == (if f.name == t {
            files_named(fs, t).push(f)
        } else {
            files_named(fs, t)
        }),
    decreases fs.len(),
{
    if fs.len() == 0 {
        assert(fs.push(f)[0] == f);
        assert(fs.push(f).drop_first() =~= Seq::<FileView>::empty());
        if f.name == t {
            assert(seq![f] + files_named(Seq::<FileView>::empty(), t) =~= files_named(
                fs,
                t,
            ).push(f));
        }
    } else {
        lemma_files_named_push(fs.drop_first(), t, f);
        assert(fs.push(f).drop_first() =~= fs.drop_first().push(f));
        assert(fs.push(f)[0] == fs[0]);
        if fs[0].name == t {
            if f.name == t {
                assert(seq![fs[0]] + files_named(fs.drop_first(), t).push(f) =~= (seq![fs[0]]
                    + files_named(fs.drop_first(), t)).push(f));
            }
        }
    }
}

proof fn lemma_restrict_on(fs: Seq<FileView>, blocks: Seq<CodeChunk>, t: Option<Seq<char>>)
    requires
        assemble_on(fs, blocks) is Some,
    ensures
        match assemble_on(fs, blocks) {
            Some(out) => assemble_on(files_named(fs, t), restrict_to(blocks, t)) == Some(
                files_named(out, t),
            ),
            None => true,
        },
    decreases blocks.len(),
{
    if blocks.len() == 0 {
    } else {
        let c = blocks[0];
        let rest = blocks.drop_first();
        let g = files_named(fs, t);
        lemma_files_named_head(fs, t);
        lemma_files_named_all(fs, t);
        match find_target(fs, c.target()) {
            Some(j) => {
                lemma_find_target_found(fs, c.target());
                let l = apply_meta_spec(fs[j].lines, c.meta, c.code@);
                assert(l is Some);
                let f2 = FileView { name: fs[j].name, lines: l.unwrap() };
                let fs2 = fs.update(j, f2);
                lemma_restrict_on(fs2, rest, t);
                if c.target() == t {
                    lemma_files_named_update(fs, t, j, f2);
                    assert(g.len() > 0 && g[0] == fs[j]);
                    assert(find_target(g, t) == Some(0int));
                    assert(apply_chunk(g, c) == Some(g.update(0, f2)));
                    let restricted = restrict_to(blocks, t);
                    assert(restricted == seq![c] + restrict_to(rest, t));
                    assert(restricted[0] == c);
                    assert(restricted.drop_first() =~= restrict_to(rest, t));
                } else {
                    lemma_files_named_update_other(fs, t, j, f2);
                    assert(restrict_to(blocks, t) == restrict_to(rest, t));
                }
            },
            None => {
                let l = apply_meta_spec(Seq::<String>::empty(), c.meta, c.code@);
                assert(l is Some);
                let f2 = FileView { name: c.target(), lines: l.unwrap() };
                let fs2 = fs.push(f2);
                lemma_restrict_on(fs2, rest, t);
                lemma_files_named_push(fs, t, f2);
                if c.target() == t {
                    assert(g.len() == 0);
                    assert(find_target(g, t) is None);
                    assert(apply_chunk(g, c) == Some(g.push(f2)));
                    let restricted = restrict_to(blocks, t);
                    assert(restricted == seq![c] + restrict_to(rest, t));
                    assert(restricted[0] == c);
                    assert(restricted.drop_first() =~= restrict_to(rest, t));
                } else {
                    assert(restrict_to(blocks, t) == restrict_to(rest, t));
                }
            },
        }
    }
}

/// Chunks routed to different targets never interact: restricting the
/// document to one target's chunks and assembling those alone yields exactly
/// the files that carry that target in the full run.
pub proof fn lemma_targets_independent(blocks: Seq<CodeChunk>, t: Option<Seq<char>>)
    requires
        assemble(blocks) is Some,
    ensures
        match assemble(blocks) {
            Some(fs) => assemble(restrict_to(blocks, t)) == Some(files_named(fs, t)),
            None => true,
        },
{
    lemma_restrict_on(Seq::<FileView>::empty(), blocks, t);
}

} // verus!
