//! The file and builtins registry: the ground inputs of every analysis.
use vstd::prelude::*;
use crate::resolver::BuiltinGlobals;
use crate::scope::{BuiltinFunctionId, TypeRefId};

verus! {

/// Identifies a file across the whole session.
#[derive(Clone, Copy, Debug, PartialEq, Eq, Structural, Hash)]
pub struct FileId(pub u32);

/// Selects which builtin tables apply to a file.
#[derive(Clone, Copy, Debug, PartialEq, Eq, Structural, Hash)]
pub enum Dialect {
    Standard,
    Bazel,
}

/// The kind of Bazel file, which decides the globals it sees.
#[derive(Clone, Copy, Debug, PartialEq, Eq, Structural, Hash)]
pub enum APIContext {
    Build,
    Bzl,
    Module,
    Repo,
    Workspace,
    Prelude,
    Cquery,
}

/// Per-file metadata.
#[derive(Clone, Copy, Debug, PartialEq, Eq, Structural)]
pub enum FileInfo {
    Bazel { api_context: APIContext, is_external: bool },
}

/// One version of a source file.
#[derive(Clone, Debug, PartialEq, Eq)]
pub struct File {
    pub file_id: FileId,
    pub dialect: Dialect,
    pub info: Option<FileInfo>,
    pub contents: String,
}

/// What a `load` path names, as the host resolved it.
#[derive(Clone, Debug, PartialEq, Eq)]
pub enum ResolvedPath {
    Source { path: String },
    BuildTarget { build_file: FileId, target: String, contents: Option<String> },
}

/// The builtin tables installed for one dialect.
#[derive(Clone, Debug)]
pub struct BuiltinDefs {
    pub builtins: BuiltinGlobals,
    pub rules: BuiltinGlobals,
}

/// The index of the first file at or after `j` with id `id`, or the number
/// of files.
pub open spec fn file_index(files: Seq<File>, id: FileId, j: int) -> int
    decreases files.len() - j,
{
    if j < 0 || j >= files.len() {
        files.len() as int
    } else if files[j].file_id == id {
        j
    } else {
        file_index(files, id, j + 1)
    }
}

pub proof fn lemma_file_index(files: Seq<File>, id: FileId, j: int)
    requires
        0 <= j <= files.len(),
    ensures
        j <= file_index(files, id, j) <= files.len(),
        file_index(files, id, j) < files.len() ==> files[file_index(files, id, j)].file_id == id,
        forall|k: int| j <= k < file_index(files, id, j) ==> files[k].file_id != id,
    decreases files.len() - j,
{
    if j < files.len() && files[j].file_id != id {
        lemma_file_index(files, id, j + 1);
    }
}

/// The file with id `id`, if any.
pub open spec fn file_lookup(files: Seq<File>, id: FileId) -> Option<File> {
    let i = file_index(files, id, 0);
    if i < files.len() {
        Some(files[i])
    } else {
        None
    }
}

/// `f` takes the place of the file with its id, or is added.
pub open spec fn put_file(files: Seq<File>, f: File) -> Seq<File> {
    let i = file_index(files, f.file_id, 0);
    if i < files.len() {
        files.update(i, f)
    } else {
        files.push(f)
    }
}

/// `f` is added unless a file with its id is already there.
pub open spec fn put_file_if_absent(files: Seq<File>, f: File) -> Seq<File> {
    if file_index(files, f.file_id, 0) < files.len() {
        files
    } else {
        files.push(f)
    }
}

/// The contents of the file with id `id` become `contents`; nothing
/// happens when there is no such file.
pub open spec fn set_contents(files: Seq<File>, id: FileId, contents: String) -> Seq<File> {
    let i = file_index(files, id, 0);
    if i < files.len() {
        files.update(i, File { contents, ..files[i] })
    } else {
        files
    }
}

/// Whether no id occurs twice.
pub open spec fn ids_unique(files: Seq<File>) -> bool {
    forall|i: int, j: int| 0 <= i < j < files.len() ==> files[i].file_id != files[j].file_id
}

/// The index of the first table entry for `d`, or the number of entries.
pub open spec fn dialect_index(defs: Seq<(Dialect, BuiltinDefs)>, d: Dialect, j: int) -> int
    decreases defs.len() - j,
{
    if j < 0 || j >= defs.len() {
        defs.len() as int
    } else if defs[j].0 == d {
        j
    } else {
        dialect_index(defs, d, j + 1)
    }
}

pub fn copy_string(s: &String) -> (r: String)
    ensures
        r == *s,
{
    s.clone()
}

pub fn copy_file(f: &File) -> (r: File)
    ensures
        r == *f,
{
    File { file_id: f.file_id, dialect: f.dialect, info: f.info, contents: copy_string(&f.contents) }
}

fn copy_table<T: Copy>(v: &Vec<(String, T)>) -> (r: Vec<(String, T)>)
    ensures
        r@ == v@,
{
    let mut r: Vec<(String, T)> = Vec::new();
    let mut i: usize = 0;
    while i < v.len()
        invariant
            0 <= i <= v@.len(),
            r@ =~= v@.take(i as int),
        decreases v@.len() - i,
    {
        r.push((copy_string(&v[i].0), v[i].1));
        i = i + 1;
    }
    proof {
        assert(v@.take(i as int) =~= v@);
    }
    r
}

pub fn copy_globals(g: &BuiltinGlobals) -> (r: BuiltinGlobals)
    ensures
        r.functions@ == g.functions@,
        r.variables@ == g.variables@,
{
    BuiltinGlobals { functions: copy_table(&g.functions), variables: copy_table(&g.variables) }
}

/// Empty builtin tables.
pub fn empty_globals() -> (r: BuiltinGlobals)
    ensures
        r.functions@.len() == 0,
        r.variables@.len() == 0,
{
    BuiltinGlobals { functions: Vec::new(), variables: Vec::new() }
}

/// What a loader hands back for a `load` path.
#[derive(Clone, Debug, PartialEq, Eq)]
pub struct LoadFileResult {
    pub file_id: FileId,
    pub dialect: Dialect,
    pub info: Option<FileInfo>,
    pub contents: Option<String>,
}

#[derive(Clone, Copy, Debug, PartialEq, Eq, Structural)]
pub enum LoadItemCandidateKind {
    Directory,
    File,
}

/// A completion candidate for a `load` path.
#[derive(Clone, Debug, PartialEq, Eq)]
pub struct LoadItemCandidate {
    pub kind: LoadItemCandidateKind,
    pub path: String,
}

/// A failure of the host while reading files.
#[derive(Clone, Debug, PartialEq, Eq)]
pub struct LoadError {
    pub message: String,
}

/// The host's capability to find and read the files that `load` names.
pub trait FileLoader {
    /// Resolves a `load` path to a source file or a build target.
    fn resolve_path(&self, path: &str, dialect: Dialect, from: FileId) -> Result<Option<ResolvedPath>, LoadError>;

    /// Opens the Starlark file that `path` names, read in `dialect`.
    fn load_file(&self, path: &str, dialect: Dialect, from: FileId) -> Result<Option<LoadFileResult>, LoadError>;

    /// Lists the modules that can be loaded from `path`.
    fn list_load_candidates(&self, path: &str, dialect: Dialect, from: FileId) -> Result<
        Option<Vec<LoadItemCandidate>>,
        LoadError,
    >;
}

/// One change of a batch.
#[derive(Clone, Debug, PartialEq, Eq)]
pub enum FileChange {
    Create { dialect: Dialect, info: Option<FileInfo>, contents: String },
    Update { contents: String },
}

/// The files after one change.
pub open spec fn change_step(files: Seq<File>, c: (FileId, FileChange)) -> Seq<File> {
    match c.1 {
        FileChange::Create { dialect, info, contents } => put_file(
            files,
            File { file_id: c.0, dialect, info, contents },
        ),
        FileChange::Update { contents } => set_contents(files, c.0, contents),
    }
}

/// The files after a batch of changes, applied in order.
pub open spec fn apply_changes(files: Seq<File>, cs: Seq<(FileId, FileChange)>) -> Seq<File>
    decreases cs.len(),
{
    if cs.len() == 0 {
        files
    } else {
        change_step(apply_changes(files, cs.drop_last()), cs.last())
    }
}

/// The text of optional contents; none reads as empty.
pub open spec fn contents_or_empty(c: Option<String>) -> Seq<char> {
    match c {
        Some(s) => s@,
        None => Seq::empty(),
    }
}

/// The tables of dialect `d`, as views, if installed.
pub open spec fn installed_defs(defs: Seq<(Dialect, BuiltinDefs)>, d: Dialect) -> Option<(GlobalsView, GlobalsView)> {
    let i = dialect_index(defs, d, 0);
    if i < defs.len() {
        Some((globals_view(defs[i].1.builtins), globals_view(defs[i].1.rules)))
    } else {
        None
    }
}

pub type GlobalsView = (Seq<(String, BuiltinFunctionId)>, Seq<(String, TypeRefId)>);

pub open spec fn globals_view(g: BuiltinGlobals) -> GlobalsView {
    (g.functions@, g.variables@)
}

pub proof fn lemma_dialect_index(defs: Seq<(Dialect, BuiltinDefs)>, d: Dialect, j: int)
    requires
        0 <= j <= defs.len(),
    ensures
        j <= dialect_index(defs, d, j) <= defs.len(),
        dialect_index(defs, d, j) < defs.len() ==> defs[dialect_index(defs, d, j)].0 == d,
        forall|k: int| j <= k < dialect_index(defs, d, j) ==> defs[k].0 != d,
    decreases defs.len() - j,
{
    if j < defs.len() && defs[j].0 != d {
        lemma_dialect_index(defs, d, j + 1);
    }
}

/// `dialect_index` depends on the dialects of the entries alone.
proof fn lemma_dialect_index_same_keys(a: Seq<(Dialect, BuiltinDefs)>, b: Seq<(Dialect, BuiltinDefs)>, d: Dialect, j: int)
    requires
        0 <= j <= a.len(),
        a.len() <= b.len(),
        forall|k: int| 0 <= k < a.len() ==> a[k].0 == b[k].0,
        a.len() < b.len() ==> b[a.len() as int].0 != d || dialect_index(a, d, j) < a.len(),
    ensures
        dialect_index(a, d, j) < a.len() ==> dialect_index(b, d, j) == dialect_index(a, d, j),
        a.len() == b.len() ==> dialect_index(b, d, j) == dialect_index(a, d, j),
    decreases a.len() - j,
{
    if j < a.len() && a[j].0 != d {
        lemma_dialect_index_same_keys(a, b, d, j + 1);
    }
}

/// How registering the build file of a resolved path relates the files
/// before and after, and the path handed back.
pub open spec fn build_file_registered(old_files: Vec<File>, new_files: Vec<File>, resolved: ResolvedPath, r: ResolvedPath) -> bool {
    match resolved {
        ResolvedPath::BuildTarget { build_file, target, contents } => if file_lookup(
            old_files@,
            build_file,
        ) is None {
            &&& new_files@ == old_files@.push(new_files@.last())
            &&& new_files@.last().file_id == build_file
            &&& new_files@.last().dialect == Dialect::Bazel
            &&& new_files@.last().info == Some(
                FileInfo::Bazel { api_context: APIContext::Build, is_external: false },
            )
            &&& new_files@.last().contents@ == contents_or_empty(contents)
            &&& r == ResolvedPath::BuildTarget { build_file, target, contents: None }
        } else {
            new_files == old_files && r == resolved
        },
        ResolvedPath::Source { .. } => new_files == old_files && r == resolved,
    }
}

/// The registry: files by id, builtin tables by dialect, and the prelude.
pub struct Database {
    pub files: Vec<File>,
    pub builtin_defs: Vec<(Dialect, BuiltinDefs)>,
    pub prelude_file: Option<FileId>,
}

impl Database {
    pub open spec fn wf(&self) -> bool {
        ids_unique(self.files@)
    }

    pub fn new() -> (r: Database)
        ensures
            r.wf(),
            r.files@.len() == 0,
            r.builtin_defs@.len() == 0,
            r.prelude_file is None,
    {
        Database { files: Vec::new(), builtin_defs: Vec::new(), prelude_file: None }
    }

    fn find_file(&self, id: FileId) -> (r: usize)
        ensures
            r == file_index(self.files@, id, 0),
    {
        let mut j: usize = 0;
        while j < self.files.len()
            invariant
                0 <= j <= self.files@.len(),
                file_index(self.files@, id, 0) == file_index(self.files@, id, j as int),
            decreases self.files@.len() - j,
        {
            if self.files[j].file_id == id {
                return j;
            }
            j = j + 1;
        }
        j
    }

    /// Creates the file, or replaces the one with the same id.
    pub fn create_file(
        &mut self,
        file_id: FileId,
        dialect: Dialect,
        info: Option<FileInfo>,
        contents: String,
    ) -> (r: File)
        requires
            old(self).wf(),
        ensures
            final(self).wf(),
            r == (File { file_id, dialect, info, contents }),
            final(self).files@ == put_file(old(self).files@, r),
            final(self).builtin_defs == old(self).builtin_defs,
            final(self).prelude_file == old(self).prelude_file,
    {
        let f = File { file_id, dialect, info, contents };
        let r = copy_file(&f);
        let i = self.find_file(file_id);
        proof {
            lemma_file_index(self.files@, file_id, 0);
        }
        if i < self.files.len() {
            self.files[i] = f;
        } else {
            self.files.push(f);
        }
        r
    }

    /// Replaces the contents of a known file; does nothing for an unknown id.
    pub fn update_file(&mut self, file_id: FileId, contents: String)
        requires
            old(self).wf(),
        ensures
            final(self).wf(),
            final(self).files@ == set_contents(old(self).files@, file_id, contents),
            final(self).builtin_defs == old(self).builtin_defs,
            final(self).prelude_file == old(self).prelude_file,
    {
        let i = self.find_file(file_id);
        proof {
            lemma_file_index(self.files@, file_id, 0);
        }
        if i < self.files.len() {
            let f = File {
                file_id: self.files[i].file_id,
                dialect: self.files[i].dialect,
                info: self.files[i].info,
                contents,
            };
            self.files[i] = f;
        }
    }

    /// The file with id `file_id`, if any.
    pub fn get_file(&self, file_id: FileId) -> (r: Option<File>)
        ensures
            r == file_lookup(self.files@, file_id),
    {
        let i = self.find_file(file_id);
        if i < self.files.len() {
            Some(copy_file(&self.files[i]))
        } else {
            None
        }
    }

    /// Adds `f` unless a file with its id is known; returns the file that
    /// is then registered under that id.
    pub fn insert_file_if_absent(&mut self, f: File) -> (r: File)
        requires
            old(self).wf(),
        ensures
            final(self).wf(),
            final(self).files@ == put_file_if_absent(old(self).files@, f),
            r == file_lookup(final(self).files@, f.file_id)->Some_0,
            file_lookup(final(self).files@, f.file_id) is Some,
            file_lookup(old(self).files@, f.file_id) is Some ==> r == file_lookup(old(self).files@, f.file_id)->Some_0,
            final(self).builtin_defs == old(self).builtin_defs,
            final(self).prelude_file == old(self).prelude_file,
    {
        let i = self.find_file(f.file_id);
        proof {
            lemma_file_index(self.files@, f.file_id, 0);
        }
        if i < self.files.len() {
            copy_file(&self.files[i])
        } else {
            let ghost old_files = self.files@;
            let r = copy_file(&f);
            self.files.push(f);
            proof {
                lemma_file_index(self.files@, r.file_id, 0);
                assert(self.files@[old_files.len() as int] == r);
                assert forall|k: int| 0 <= k < old_files.len() implies self.files@[k].file_id != r.file_id by {
                    assert(self.files@[k] == old_files[k]);
                }
                if file_index(self.files@, r.file_id, 0) < old_files.len() {
                    assert(self.files@[file_index(self.files@, r.file_id, 0)] == old_files[file_index(self.files@, r.file_id, 0)]);
                }
            }
            r
        }
    }

    /// Applies a batch of changes in order.
    pub fn apply_file_changes(&mut self, changes: &Vec<(FileId, FileChange)>)
        requires
            old(self).wf(),
        ensures
            final(self).wf(),
            final(self).files@ == apply_changes(old(self).files@, changes@),
            final(self).builtin_defs == old(self).builtin_defs,
            final(self).prelude_file == old(self).prelude_file,
    {
        let mut i: usize = 0;
        while i < changes.len()
            invariant
                self.wf(),
                0 <= i <= changes@.len(),
                self.files@ == apply_changes(old(self).files@, changes@.take(i as int)),
                self.builtin_defs == old(self).builtin_defs,
                self.prelude_file == old(self).prelude_file,
            decreases changes@.len() - i,
        {
            proof {
                assert(changes@.take(i as int + 1).drop_last() =~= changes@.take(i as int));
            }
            let file_id = changes[i].0;
            match &changes[i].1 {
                FileChange::Create { dialect, info, contents } => {
                    self.create_file(file_id, *dialect, *info, copy_string(contents));
                },
                FileChange::Update { contents } => {
                    self.update_file(file_id, copy_string(contents));
                },
            }
            i = i + 1;
        }
        proof {
            assert(changes@.take(i as int) =~= changes@);
        }
    }

    /// Registers the file of a successful load unless its id is known, and
    /// returns the file registered under that id.
    pub fn register_loaded_file(&mut self, res: LoadFileResult, dialect: Dialect) -> (r: File)
        requires
            old(self).wf(),
        ensures
            final(self).wf(),
            file_lookup(final(self).files@, res.file_id) == Some(r),
            file_lookup(old(self).files@, res.file_id) is Some ==> final(self).files@ == old(self).files@,
            file_lookup(old(self).files@, res.file_id) is None ==> {
                &&& final(self).files@ == old(self).files@.push(r)
                &&& r.file_id == res.file_id
                &&& r.dialect == dialect
                &&& r.info == res.info
                &&& r.contents@ == contents_or_empty(res.contents)
            },
            final(self).builtin_defs == old(self).builtin_defs,
            final(self).prelude_file == old(self).prelude_file,
    {
        let ghost old_contents = res.contents;
        let contents = match res.contents {
            Some(c) => c,
            None => String::new(),
        };
        proof {
            lemma_file_index(self.files@, res.file_id, 0);
        }
        let ghost old_files = self.files@;
        let r = self.insert_file_if_absent(File { file_id: res.file_id, dialect, info: res.info, contents });
        proof {
            if file_index(old_files, res.file_id, 0) == old_files.len() {
                lemma_file_index(self.files@, res.file_id, 0);
                assert forall|k: int| 0 <= k < old_files.len() implies self.files@[k].file_id != res.file_id by {
                    assert(self.files@[k] == old_files[k]);
                }
                assert(file_index(self.files@, res.file_id, 0) == old_files.len());
            }
        }
        r
    }

    /// Loads the file that `path` names through the host and registers it.
    /// Whatever the host answers, known files are kept as they are.
    pub fn load_file<L: FileLoader>(&mut self, loader: &L, path: &str, dialect: Dialect, from: FileId) -> (r: Result<
        Option<File>,
        LoadError,
    >)
        requires
            old(self).wf(),
        ensures
            final(self).wf(),
            final(self).builtin_defs == old(self).builtin_defs,
            final(self).prelude_file == old(self).prelude_file,
            !(r matches Ok(Some(_))) ==> final(self).files == old(self).files,
            r matches Ok(Some(f)) ==> file_lookup(final(self).files@, f.file_id) == Some(f),
            r matches Ok(Some(f)) ==> (file_lookup(old(self).files@, f.file_id) is Some ==> final(self).files@
                == old(self).files@ && file_lookup(old(self).files@, f.file_id) == Some(f)),
            r matches Ok(Some(f)) ==> (file_lookup(old(self).files@, f.file_id) is None ==> final(self).files@
                == old(self).files@.push(f) && f.dialect == dialect),
    {
        match loader.load_file(path, dialect, from) {
            Err(e) => Err(e),
            Ok(None) => Ok(None),
            Ok(Some(res)) => {
                let ghost id = res.file_id;
                let f = self.register_loaded_file(res, dialect);
                proof {
                    lemma_file_index(old(self).files@, id, 0);
                    lemma_file_index(self.files@, id, 0);
                }
                Ok(Some(f))
            },
        }
    }

    /// Lists what can be loaded from `path`, in the dialect of file `from`;
    /// nothing for an unknown file.
    pub fn list_load_candidates<L: FileLoader>(&self, loader: &L, path: &str, from: FileId) -> (r: Result<
        Option<Vec<LoadItemCandidate>>,
        LoadError,
    >)
        ensures
            file_lookup(self.files@, from) is None ==> r matches Ok(None),
    {
        let dialect = match self.get_file(from) {
            Some(file) => file.dialect,
            None => {
                return Ok(None);
            },
        };
        loader.list_load_candidates(path, dialect, from)
    }

    /// For a build target whose build file is not known yet, registers that
    /// file as a Bazel build file with the contents that came with the
    /// target, and hands the target back without them.
    pub fn register_build_file(&mut self, resolved: ResolvedPath) -> (r: ResolvedPath)
        requires
            old(self).wf(),
        ensures
            final(self).wf(),
            final(self).builtin_defs == old(self).builtin_defs,
            final(self).prelude_file == old(self).prelude_file,
            build_file_registered(old(self).files, final(self).files, resolved, r),
    {
        match resolved {
            ResolvedPath::BuildTarget { build_file, target, contents } => {
                let i = self.find_file(build_file);
                proof {
                    lemma_file_index(self.files@, build_file, 0);
                }
                if i < self.files.len() {
                    ResolvedPath::BuildTarget { build_file, target, contents }
                } else {
                    let text = match contents {
                        Some(c) => c,
                        None => String::new(),
                    };
                    self.insert_file_if_absent(
                        File {
                            file_id: build_file,
                            dialect: Dialect::Bazel,
                            info: Some(FileInfo::Bazel { api_context: APIContext::Build, is_external: false }),
                            contents: text,
                        },
                    );
                    ResolvedPath::BuildTarget { build_file, target, contents: None }
                }
            },
            ResolvedPath::Source { path } => ResolvedPath::Source { path },
        }
    }

    /// Resolves a `load` path through the host; a build target's build file
    /// is registered as [`Database::register_build_file`] says.
    pub fn resolve_path<L: FileLoader>(&mut self, loader: &L, path: &str, dialect: Dialect, from: FileId) -> (r: Result<
        Option<ResolvedPath>,
        LoadError,
    >)
        requires
            old(self).wf(),
        ensures
            final(self).wf(),
            final(self).builtin_defs == old(self).builtin_defs,
            final(self).prelude_file == old(self).prelude_file,
            !(r matches Ok(Some(_))) ==> final(self).files == old(self).files,
            r matches Ok(Some(p)) ==> exists|rp: ResolvedPath|
                build_file_registered(old(self).files, final(self).files, rp, p),
    {
        match loader.resolve_path(path, dialect, from) {
            Err(e) => Err(e),
            Ok(None) => Ok(None),
            Ok(Some(resolved)) => Ok(Some(self.register_build_file(resolved))),
        }
    }

    fn find_dialect(&self, d: Dialect) -> (r: usize)
        ensures
            r == dialect_index(self.builtin_defs@, d, 0),
    {
        let mut i: usize = 0;
        while i < self.builtin_defs.len()
            invariant
                0 <= i <= self.builtin_defs@.len(),
                dialect_index(self.builtin_defs@, d, 0) == dialect_index(self.builtin_defs@, d, i as int),
            decreases self.builtin_defs@.len() - i,
        {
            if self.builtin_defs[i].0 == d {
                return i;
            }
            i = i + 1;
        }
        i
    }

    /// Installs the tables of `dialect`, replacing any installed before.
    pub fn set_builtin_defs(&mut self, dialect: Dialect, builtins: BuiltinGlobals, rules: BuiltinGlobals)
        ensures
            final(self).files == old(self).files,
            final(self).prelude_file == old(self).prelude_file,
            installed_defs(final(self).builtin_defs@, dialect) == Some(
                (globals_view(builtins), globals_view(rules)),
            ),
            forall|d: Dialect| d != dialect ==> installed_defs(final(self).builtin_defs@, d) == installed_defs(
                old(self).builtin_defs@,
                d,
            ),
    {
        let i = self.find_dialect(dialect);
        let ghost old_defs = self.builtin_defs@;
        proof {
            lemma_dialect_index(old_defs, dialect, 0);
        }
        if i < self.builtin_defs.len() {
            self.builtin_defs[i] = (dialect, BuiltinDefs { builtins, rules });
            proof {
                assert forall|d: Dialect| d != dialect implies installed_defs(self.builtin_defs@, d) == installed_defs(
                    old_defs,
                    d,
                ) by {
                    lemma_dialect_index_same_keys(old_defs, self.builtin_defs@, d, 0);
                    lemma_dialect_index(old_defs, d, 0);
                    let k = dialect_index(old_defs, d, 0);
                    if k < old_defs.len() {
                        assert(self.builtin_defs@[k] == old_defs[k]);
                    }
                }
                lemma_dialect_index_same_keys(old_defs, self.builtin_defs@, dialect, 0);
            }
        } else {
            self.builtin_defs.push((dialect, BuiltinDefs { builtins, rules }));
            proof {
                assert forall|d: Dialect| d != dialect implies installed_defs(self.builtin_defs@, d) == installed_defs(
                    old_defs,
                    d,
                ) by {
                    lemma_dialect_index_same_keys(old_defs, self.builtin_defs@, d, 0);
                    lemma_dialect_index(old_defs, d, 0);
                    lemma_dialect_index(self.builtin_defs@, d, 0);
                    let k = dialect_index(old_defs, d, 0);
                    if k < old_defs.len() {
                        assert(self.builtin_defs@[k] == old_defs[k]);
                    }
                }
                lemma_dialect_index(self.builtin_defs@, dialect, 0);
                assert(self.builtin_defs@[old_defs.len() as int].0 == dialect);
            }
        }
    }

    /// The tables of `dialect`; empty tables where none are installed.
    pub fn get_builtin_defs(&self, dialect: Dialect) -> (r: BuiltinDefs)
        ensures
            installed_defs(self.builtin_defs@, dialect) is Some ==> installed_defs(self.builtin_defs@, dialect)
                == Some((globals_view(r.builtins), globals_view(r.rules))),
            installed_defs(self.builtin_defs@, dialect) is None ==> r.builtins.functions@.len() == 0
                && r.builtins.variables@.len() == 0 && r.rules.functions@.len() == 0
                && r.rules.variables@.len() == 0,
    {
        let mut i: usize = 0;
        while i < self.builtin_defs.len()
            invariant
                0 <= i <= self.builtin_defs@.len(),
                dialect_index(self.builtin_defs@, dialect, 0) == dialect_index(self.builtin_defs@, dialect, i as int),
            decreases self.builtin_defs@.len() - i,
        {
            if self.builtin_defs[i].0 == dialect {
                let d = &self.builtin_defs[i].1;
                return BuiltinDefs { builtins: copy_globals(&d.builtins), rules: copy_globals(&d.rules) };
            }
            i = i + 1;
        }
        BuiltinDefs { builtins: empty_globals(), rules: empty_globals() }
    }

    pub fn set_bazel_prelude_file(&mut self, file_id: FileId)
        ensures
            final(self).prelude_file == Some(file_id),
            final(self).files == old(self).files,
            final(self).builtin_defs == old(self).builtin_defs,
    {
        self.prelude_file = Some(file_id);
    }

    pub fn get_bazel_prelude_file(&self) -> (r: Option<FileId>)
        ensures
            r == self.prelude_file,
    {
        self.prelude_file
    }
}

} // verus!
