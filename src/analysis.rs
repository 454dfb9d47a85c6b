//! The entry points of the library: batches of file changes, the analysis
//! that owns the registry, and read-only snapshots of it.
use vstd::prelude::*;
use crate::registry::{
    apply_changes, copy_file, copy_globals, copy_string, dialect_index, file_lookup, globals_view,
    installed_defs, lemma_file_index, BuiltinDefs, Database, Dialect, File, FileChange, FileId,
    FileInfo, FileLoader, LoadError, LoadFileResult, LoadItemCandidate, ResolvedPath,
};
use crate::resolver::BuiltinGlobals;
use std::sync::Arc;
use crate::scope::{find_key, key_index, lemma_key_index, BuiltinFunctionId, TextRange};

verus! {

/// A batch of file changes, applied together and in order.
#[derive(Clone, Debug, PartialEq, Eq)]
pub struct Change {
    pub changed_files: Vec<(FileId, FileChange)>,
}

impl Change {
    pub fn new() -> (r: Change)
        ensures
            r.changed_files@.len() == 0,
    {
        Change { changed_files: Vec::new() }
    }

    /// Records the creation, or replacement, of a file.
    pub fn create_file(&mut self, file_id: FileId, dialect: Dialect, info: Option<FileInfo>, contents: String)
        ensures
            final(self).changed_files@ == old(self).changed_files@.push(
                (file_id, FileChange::Create { dialect, info, contents }),
            ),
    {
        self.changed_files.push((file_id, FileChange::Create { dialect, info, contents }));
    }

    /// Records new contents for a file.
    pub fn update_file(&mut self, file_id: FileId, contents: String)
        ensures
            final(self).changed_files@ == old(self).changed_files@.push(
                (file_id, FileChange::Update { contents }),
            ),
    {
        self.changed_files.push((file_id, FileChange::Update { contents }));
    }
}

/// Whether two registries hold the same files, tables and prelude.
pub open spec fn same_inputs(a: Database, b: Database) -> bool {
    &&& a.files@ == b.files@
    &&& a.prelude_file == b.prelude_file
    &&& forall|d: Dialect| installed_defs(a.builtin_defs@, d) == installed_defs(b.builtin_defs@, d)
}

proof fn lemma_dialect_index_equal_keys(a: Seq<(Dialect, BuiltinDefs)>, b: Seq<(Dialect, BuiltinDefs)>, d: Dialect, j: int)
    requires
        0 <= j <= a.len(),
        a.len() == b.len(),
        forall|k: int| 0 <= k < a.len() ==> a[k].0 == b[k].0,
    ensures
        dialect_index(a, d, j) == dialect_index(b, d, j),
    decreases a.len() - j,
{
    if j < a.len() && a[j].0 != d {
        lemma_dialect_index_equal_keys(a, b, d, j + 1);
    }
}

/// A copy of the registry that later changes to the source registry do not reach.
fn copy_database(db: &Database) -> (r: Database)
    ensures
        same_inputs(r, *db),
        r.wf() == db.wf(),
{
    let mut files: Vec<File> = Vec::new();
    let mut i: usize = 0;
    while i < db.files.len()
        invariant
            0 <= i <= db.files@.len(),
            files@ =~= db.files@.take(i as int),
        decreases db.files@.len() - i,
    {
        files.push(copy_file(&db.files[i]));
        i = i + 1;
    }
    proof {
        assert(db.files@.take(i as int) =~= db.files@);
    }
    let mut defs: Vec<(Dialect, BuiltinDefs)> = Vec::new();
    let mut k: usize = 0;
    while k < db.builtin_defs.len()
        invariant
            0 <= k <= db.builtin_defs@.len(),
            defs@.len() == k,
            forall|m: int|
                0 <= m < k ==> #[trigger] defs@[m].0 == db.builtin_defs@[m].0 && globals_view(
                    defs@[m].1.builtins,
                ) == globals_view(db.builtin_defs@[m].1.builtins) && globals_view(defs@[m].1.rules)
                    == globals_view(db.builtin_defs@[m].1.rules),
        decreases db.builtin_defs@.len() - k,
    {
        let e = &db.builtin_defs[k];
        defs.push((e.0, BuiltinDefs { builtins: copy_globals(&e.1.builtins), rules: copy_globals(&e.1.rules) }));
        k = k + 1;
    }
    let r = Database { files, builtin_defs: defs, prelude_file: db.prelude_file };
    proof {
        assert forall|d: Dialect| installed_defs(r.builtin_defs@, d) == installed_defs(db.builtin_defs@, d) by {
            lemma_dialect_index_equal_keys(r.builtin_defs@, db.builtin_defs@, d, 0);
            let i = dialect_index(r.builtin_defs@, d, 0);
            crate::registry::lemma_dialect_index(r.builtin_defs@, d, 0);
            if i < r.builtin_defs@.len() {
                assert(r.builtin_defs@[i].0 == db.builtin_defs@[i].0);
            }
        }
    }
    r
}

/// Owns the registry and the host's loader; the one writer.
pub struct Analysis<L: FileLoader> {
    pub db: Database,
    pub loader: Arc<L>,
}

/// A read-only view of the registry as it was when the snapshot was taken,
/// sharing the analysis's loader.
pub struct AnalysisSnapshot<L: FileLoader> {
    pub db: Database,
    pub loader: Arc<L>,
}

impl<L: FileLoader> Analysis<L> {
    pub fn new(loader: L) -> (r: Analysis<L>)
        ensures
            r.db.wf(),
            r.db.files@.len() == 0,
            r.db.builtin_defs@.len() == 0,
            r.db.prelude_file is None,
            *r.loader == loader,
    {
        Analysis { db: Database::new(), loader: Arc::new(loader) }
    }

    /// Applies the batch in order: a creation creates or replaces its file,
    /// an update replaces the contents of a known file.
    pub fn apply_change(&mut self, change: Change)
        requires
            old(self).db.wf(),
        ensures
            final(self).db.wf(),
            final(self).db.files@ == apply_changes(old(self).db.files@, change.changed_files@),
            final(self).db.builtin_defs == old(self).db.builtin_defs,
            final(self).db.prelude_file == old(self).db.prelude_file,
            final(self).loader == old(self).loader,
    {
        self.db.apply_file_changes(&change.changed_files);
    }

    /// A snapshot of the current inputs; later changes do not reach it.
    pub fn snapshot(&self) -> (r: AnalysisSnapshot<L>)
        ensures
            same_inputs(r.db, self.db),
            r.db.wf() == self.db.wf(),
            *r.loader == *self.loader,
    {
        AnalysisSnapshot { db: copy_database(&self.db), loader: self.loader.clone() }
    }

    /// Installs the Bazel dialect's tables.
    pub fn set_builtin_defs(&mut self, builtins: BuiltinGlobals, rules: BuiltinGlobals)
        ensures
            final(self).db.files == old(self).db.files,
            final(self).db.prelude_file == old(self).db.prelude_file,
            installed_defs(final(self).db.builtin_defs@, Dialect::Bazel) == Some(
                (globals_view(builtins), globals_view(rules)),
            ),
            installed_defs(final(self).db.builtin_defs@, Dialect::Standard) == installed_defs(
                old(self).db.builtin_defs@,
                Dialect::Standard,
            ),
    {
        self.db.set_builtin_defs(Dialect::Bazel, builtins, rules);
    }

    pub fn set_bazel_prelude_file(&mut self, file_id: FileId)
        ensures
            final(self).db.prelude_file == Some(file_id),
            final(self).db.files == old(self).db.files,
            final(self).db.builtin_defs == old(self).db.builtin_defs,
    {
        self.db.set_bazel_prelude_file(file_id);
    }
}

impl<L: FileLoader> AnalysisSnapshot<L> {
    /// The file with id `file_id` as of this snapshot.
    pub fn get_file(&self, file_id: FileId) -> (r: Option<File>)
        ensures
            r == file_lookup(self.db.files@, file_id),
    {
        self.db.get_file(file_id)
    }

    /// The tables of `dialect` as of this snapshot.
    pub fn get_builtin_defs(&self, dialect: Dialect) -> (r: BuiltinDefs)
        ensures
            installed_defs(self.db.builtin_defs@, dialect) is Some ==> installed_defs(self.db.builtin_defs@, dialect)
                == Some((globals_view(r.builtins), globals_view(r.rules))),
            installed_defs(self.db.builtin_defs@, dialect) is None ==> r.builtins.functions@.len() == 0
                && r.builtins.variables@.len() == 0 && r.rules.functions@.len() == 0
                && r.rules.variables@.len() == 0,
    {
        self.db.get_builtin_defs(dialect)
    }

    pub fn get_bazel_prelude_file(&self) -> (r: Option<FileId>)
        ensures
            r == self.db.prelude_file,
    {
        self.db.prelude_file
    }
}

impl AnalysisSnapshot<SimpleFileLoader> {
    /// A snapshot of a session holding one file, `main.star` with id zero,
    /// served by a loader of that one file, and Bazel globals `provider`
    /// and `struct`.
    pub fn from_single_file(contents: &str, dialect: Dialect, info: Option<FileInfo>) -> (r: (AnalysisSnapshot<SimpleFileLoader>, FileId))
        ensures
            r.1 == FileId(0),
            r.0.db.wf(),
            r.0.db.files@.len() == 1,
            r.0.db.files@[0].file_id == FileId(0),
            r.0.db.files@[0].dialect == dialect,
            r.0.db.files@[0].info == info,
            r.0.db.files@[0].contents@ == contents@,
            r.0.db.prelude_file is None,
            installed_defs(r.0.db.builtin_defs@, Dialect::Bazel) is Some,
            installed_defs(r.0.db.builtin_defs@, Dialect::Bazel)->Some_0.0.0.len() == 2,
            installed_defs(r.0.db.builtin_defs@, Dialect::Bazel)->Some_0.0.0[0].0@ == "provider"@,
            installed_defs(r.0.db.builtin_defs@, Dialect::Bazel)->Some_0.0.0[1].0@ == "struct"@,
            r.0.loader.file_set@.len() == 1,
            r.0.loader.file_set@[0].0@ == "main.star"@,
            r.0.loader.file_set@[0].1.0 == FileId(0),
            r.0.loader.file_set@[0].1.1@ == contents@,
    {
        let file_id = FileId(0);
        let mut file_set: Vec<(String, (FileId, String))> = Vec::new();
        file_set.push(("main.star".to_owned(), (file_id, contents.to_owned())));
        let mut change = Change::new();
        change.create_file(file_id, dialect, info, contents.to_owned());
        let mut analysis = Analysis::new(SimpleFileLoader::from_file_set(file_set));
        let mut functions: Vec<(String, BuiltinFunctionId)> = Vec::new();
        functions.push(("provider".to_owned(), BuiltinFunctionId(0)));
        functions.push(("struct".to_owned(), BuiltinFunctionId(1)));
        let builtins = BuiltinGlobals { functions, variables: Vec::new() };
        let rules = BuiltinGlobals { functions: Vec::new(), variables: Vec::new() };
        analysis.db.set_builtin_defs(Dialect::Bazel, builtins, rules);
        let ghost cs = change.changed_files@;
        let ghost before = analysis.db.files@;
        analysis.apply_change(change);
        proof {
            assert(cs.drop_last() =~= Seq::<(FileId, FileChange)>::empty());
            assert(apply_changes(before, cs.drop_last()) == before);
            lemma_file_index(before, file_id, 0);
        }
        (analysis.snapshot(), file_id)
    }
}

/// A position in a file.
#[derive(Clone, Copy, Debug, PartialEq, Eq, Structural)]
pub struct FilePosition {
    pub file_id: FileId,
    pub pos: u32,
}

/// Where a definition lives.
#[derive(Clone, Debug, PartialEq, Eq)]
pub enum LocationLink {
    Local {
        origin_selection_range: Option<TextRange>,
        target_range: TextRange,
        target_selection_range: TextRange,
        target_file_id: FileId,
    },
    External { origin_selection_range: Option<TextRange>, target_path: String },
}

/// A loader that looks files up by path in a fixed set.
pub struct SimpleFileLoader {
    pub file_set: Vec<(String, (FileId, String))>,
}

impl SimpleFileLoader {
    pub fn from_file_set(file_set: Vec<(String, (FileId, String))>) -> (r: SimpleFileLoader)
        ensures
            r.file_set == file_set,
    {
        SimpleFileLoader { file_set }
    }

    /// The file that `path` names, read in `dialect`, if the set has it.
    pub open spec fn spec_lookup(&self, path: Seq<char>, dialect: Dialect) -> Option<LoadFileResult> {
        let i = key_index(self.file_set@, path, 0);
        if i < self.file_set@.len() {
            let e = self.file_set@[i];
            Some(LoadFileResult { file_id: e.1.0, dialect, info: None, contents: Some(e.1.1) })
        } else {
            None
        }
    }

    /// The file that `path` names, read in `dialect`, if the set has it.
    pub fn lookup(&self, path: &str, dialect: Dialect) -> (r: Option<LoadFileResult>)
        ensures
            r == self.spec_lookup(path@, dialect),
    {
        let key = path.to_owned();
        let i = find_key(&self.file_set, &key);
        proof {
            lemma_key_index(self.file_set@, path@, 0);
        }
        if i < self.file_set.len() {
            let e = &self.file_set[i];
            Some(LoadFileResult { file_id: e.1.0, dialect, info: None, contents: Some(copy_string(&e.1.1)) })
        } else {
            None
        }
    }
}

impl FileLoader for SimpleFileLoader {
    fn load_file(&self, path: &str, dialect: Dialect, from: FileId) -> (r: Result<Option<LoadFileResult>, LoadError>)
        ensures
            r == Ok::<Option<LoadFileResult>, LoadError>(self.spec_lookup(path@, dialect)),
    {
        Ok(self.lookup(path, dialect))
    }

    fn list_load_candidates(&self, path: &str, dialect: Dialect, from: FileId) -> (r: Result<
        Option<Vec<LoadItemCandidate>>,
        LoadError,
    >)
        ensures
            r matches Ok(None),
    {
        Ok(None)
    }

    fn resolve_path(&self, path: &str, dialect: Dialect, from: FileId) -> (r: Result<Option<ResolvedPath>, LoadError>)
        ensures
            r matches Ok(None),
    {
        Ok(None)
    }
}

} // verus!

verus! {

/// Revision isolation: a snapshot taken before a batch of changes keeps
/// answering as the registry did before it, while a snapshot taken after
/// answers as the changed registry does.
pub proof fn lemma_revision_isolation<L: FileLoader>(
    before: Database,
    changes: Seq<(FileId, FileChange)>,
    s1: AnalysisSnapshot<L>,
    s2: AnalysisSnapshot<L>,
    id: FileId,
)
    requires
        same_inputs(s1.db, before),
        s2.db.files@ == apply_changes(before.files@, changes),
    ensures
        file_lookup(s1.db.files@, id) == file_lookup(before.files@, id),
        file_lookup(s2.db.files@, id) == file_lookup(apply_changes(before.files@, changes), id),
        forall|d: Dialect| installed_defs(s1.db.builtin_defs@, d) == installed_defs(before.builtin_defs@, d),
{
}

} // verus!
