use starpls::analysis::{Analysis, AnalysisSnapshot, Change, SimpleFileLoader};
use starpls::registry::{
    APIContext, Database, Dialect, FileId, FileInfo, FileLoader, LoadError, LoadFileResult,
    LoadItemCandidate, ResolvedPath,
};
use starpls::resolver::BuiltinGlobals;
use starpls::scope::{BuiltinFunctionId, TypeRefId};

fn loader_with(path: &str, id: u32, contents: &str) -> SimpleFileLoader {
    SimpleFileLoader::from_file_set(vec![(path.to_string(), (FileId(id), contents.to_string()))])
}

fn globals(names: &[&str]) -> BuiltinGlobals {
    BuiltinGlobals {
        functions: names
            .iter()
            .enumerate()
            .map(|(i, n)| (n.to_string(), BuiltinFunctionId(i as u32)))
            .collect(),
        variables: vec![],
    }
}

struct FailingLoader;

impl FileLoader for FailingLoader {
    fn resolve_path(&self, _: &str, _: Dialect, _: FileId) -> Result<Option<ResolvedPath>, LoadError> {
        Err(LoadError { message: "disk gone".to_string() })
    }

    fn load_file(&self, _: &str, _: Dialect, _: FileId) -> Result<Option<LoadFileResult>, LoadError> {
        Err(LoadError { message: "disk gone".to_string() })
    }

    fn list_load_candidates(
        &self,
        _: &str,
        _: Dialect,
        _: FileId,
    ) -> Result<Option<Vec<LoadItemCandidate>>, LoadError> {
        Err(LoadError { message: "disk gone".to_string() })
    }
}

struct TargetLoader;

impl FileLoader for TargetLoader {
    fn resolve_path(&self, _: &str, _: Dialect, _: FileId) -> Result<Option<ResolvedPath>, LoadError> {
        Ok(Some(ResolvedPath::BuildTarget {
            build_file: FileId(40),
            target: "lib".to_string(),
            contents: Some("cc_library(name = \"lib\")".to_string()),
        }))
    }

    fn load_file(&self, _: &str, _: Dialect, _: FileId) -> Result<Option<LoadFileResult>, LoadError> {
        Ok(None)
    }

    fn list_load_candidates(
        &self,
        _: &str,
        _: Dialect,
        _: FileId,
    ) -> Result<Option<Vec<LoadItemCandidate>>, LoadError> {
        Ok(Some(vec![]))
    }
}

#[test]
fn create_update_and_get() {
    let mut db = Database::new();
    let f = db.create_file(FileId(1), Dialect::Standard, None, "x = 1".to_string());
    assert_eq!(f.contents, "x = 1");
    db.update_file(FileId(1), "x = 2".to_string());
    assert_eq!(db.get_file(FileId(1)).unwrap().contents, "x = 2");
    db.update_file(FileId(9), "ignored".to_string());
    assert_eq!(db.get_file(FileId(9)), None);
    assert_eq!(db.files.len(), 1);
    // Creating again replaces the file.
    db.create_file(FileId(1), Dialect::Bazel, None, "y = 3".to_string());
    let f = db.get_file(FileId(1)).unwrap();
    assert_eq!(f.dialect, Dialect::Bazel);
    assert_eq!(f.contents, "y = 3");
    assert_eq!(db.files.len(), 1);
}

#[test]
fn changes_apply_in_order() {
    let mut analysis = Analysis::new(loader_with("a.bzl", 5, ""));
    let mut change = Change::new();
    change.update_file(FileId(1), "before creation".to_string());
    change.create_file(FileId(1), Dialect::Standard, None, "a".to_string());
    change.update_file(FileId(1), "b".to_string());
    change.create_file(FileId(2), Dialect::Bazel, None, "c".to_string());
    analysis.apply_change(change);
    let snap = analysis.snapshot();
    assert_eq!(snap.get_file(FileId(1)).unwrap().contents, "b");
    assert_eq!(snap.get_file(FileId(2)).unwrap().contents, "c");
    assert_eq!(snap.get_file(FileId(3)), None);
}

#[test]
fn revision_isolation() {
    let mut analysis = Analysis::new(loader_with("a.bzl", 5, ""));
    let mut change = Change::new();
    change.create_file(FileId(1), Dialect::Standard, None, "x = 1".to_string());
    analysis.apply_change(change);
    let s1 = analysis.snapshot();
    let mut edit = Change::new();
    edit.update_file(FileId(1), "x = 2".to_string());
    analysis.apply_change(edit);
    let s2 = analysis.snapshot();
    assert_eq!(s2.get_file(FileId(1)).unwrap().contents, "x = 2");
    assert_eq!(s1.get_file(FileId(1)).unwrap().contents, "x = 1");
}

#[test]
fn determinism_of_snapshots() {
    let mut analysis = Analysis::new(loader_with("a.bzl", 5, ""));
    let mut change = Change::new();
    change.create_file(FileId(1), Dialect::Standard, None, "x = 1".to_string());
    analysis.apply_change(change);
    let s1 = analysis.snapshot();
    let s2 = analysis.snapshot();
    assert_eq!(s1.get_file(FileId(1)), s2.get_file(FileId(1)));
    assert_eq!(s1.get_file(FileId(1)), s1.get_file(FileId(1)));
}

#[test]
fn builtin_defs_install_and_replace() {
    let mut db = Database::new();
    let empty = db.get_builtin_defs(Dialect::Bazel);
    assert!(empty.builtins.functions.is_empty() && empty.rules.functions.is_empty());
    db.set_builtin_defs(Dialect::Bazel, globals(&["glob"]), globals(&["cc_library"]));
    let defs = db.get_builtin_defs(Dialect::Bazel);
    assert_eq!(defs.builtins.functions[0].0, "glob");
    assert_eq!(defs.rules.functions[0].0, "cc_library");
    // A second installation replaces both tables.
    db.set_builtin_defs(Dialect::Bazel, globals(&["select"]), globals(&["py_binary"]));
    let defs = db.get_builtin_defs(Dialect::Bazel);
    assert_eq!(defs.builtins.functions[0].0, "select");
    assert_eq!(defs.rules.functions[0].0, "py_binary");
    assert_eq!(defs.rules.functions.len(), 1);
    assert!(db.get_builtin_defs(Dialect::Standard).builtins.functions.is_empty());
    let mut vars = globals(&[]);
    vars.variables.push(("CONFIG".to_string(), TypeRefId(1)));
    db.set_builtin_defs(Dialect::Standard, vars, globals(&[]));
    assert_eq!(db.get_builtin_defs(Dialect::Standard).builtins.variables.len(), 1);
    assert_eq!(db.get_builtin_defs(Dialect::Bazel).builtins.functions[0].0, "select");
}

#[test]
fn load_file_registers_once() {
    let loader = loader_with("lib.bzl", 7, "V = 1");
    let mut db = Database::new();
    let f = db.load_file(&loader, "lib.bzl", Dialect::Bazel, FileId(0)).unwrap().unwrap();
    assert_eq!(f.file_id, FileId(7));
    assert_eq!(f.dialect, Dialect::Bazel);
    assert_eq!(f.contents, "V = 1");
    db.update_file(FileId(7), "V = 2".to_string());
    let again = db.load_file(&loader, "lib.bzl", Dialect::Standard, FileId(0)).unwrap().unwrap();
    assert_eq!(again.contents, "V = 2");
    assert_eq!(again.dialect, Dialect::Bazel);
    assert_eq!(db.files.len(), 1);
    assert_eq!(db.load_file(&loader, "other.bzl", Dialect::Bazel, FileId(0)), Ok(None));
}

#[test]
fn load_file_error_is_propagated() {
    let mut db = Database::new();
    let r = db.load_file(&FailingLoader, "lib.bzl", Dialect::Bazel, FileId(0));
    assert_eq!(r, Err(LoadError { message: "disk gone".to_string() }));
    assert!(db.files.is_empty());
}

#[test]
fn register_loaded_file_without_contents_is_empty() {
    let mut db = Database::new();
    let res = LoadFileResult { file_id: FileId(3), dialect: Dialect::Standard, info: None, contents: None };
    let f = db.register_loaded_file(res, Dialect::Bazel);
    assert_eq!(f.contents, "");
    assert_eq!(f.dialect, Dialect::Bazel);
}

#[test]
fn resolve_path_materializes_build_file() {
    let mut db = Database::new();
    let r = db.resolve_path(&TargetLoader, "//pkg:lib", Dialect::Bazel, FileId(0)).unwrap().unwrap();
    assert_eq!(
        r,
        ResolvedPath::BuildTarget { build_file: FileId(40), target: "lib".to_string(), contents: None }
    );
    let f = db.get_file(FileId(40)).unwrap();
    assert_eq!(f.dialect, Dialect::Bazel);
    assert_eq!(f.info, Some(FileInfo::Bazel { api_context: APIContext::Build, is_external: false }));
    assert_eq!(f.contents, "cc_library(name = \"lib\")");
    // Known build files are kept, and the contents stay with the target.
    let r = db.resolve_path(&TargetLoader, "//pkg:lib", Dialect::Bazel, FileId(0)).unwrap().unwrap();
    assert_eq!(
        r,
        ResolvedPath::BuildTarget {
            build_file: FileId(40),
            target: "lib".to_string(),
            contents: Some("cc_library(name = \"lib\")".to_string()),
        }
    );
    assert_eq!(db.files.len(), 1);
    let source = db.register_build_file(ResolvedPath::Source { path: "a.bzl".to_string() });
    assert_eq!(source, ResolvedPath::Source { path: "a.bzl".to_string() });
    assert!(db.resolve_path(&FailingLoader, "x", Dialect::Bazel, FileId(0)).is_err());
}

#[test]
fn list_load_candidates_needs_known_file() {
    let mut db = Database::new();
    assert_eq!(db.list_load_candidates(&TargetLoader, "//", FileId(1)), Ok(None));
    db.create_file(FileId(1), Dialect::Bazel, None, String::new());
    assert_eq!(db.list_load_candidates(&TargetLoader, "//", FileId(1)), Ok(Some(vec![])));
}

#[test]
fn prelude_file_is_recorded() {
    let mut analysis = Analysis::new(loader_with("a.bzl", 5, ""));
    assert_eq!(analysis.snapshot().get_bazel_prelude_file(), None);
    analysis.set_bazel_prelude_file(FileId(4));
    assert_eq!(analysis.snapshot().get_bazel_prelude_file(), Some(FileId(4)));
    analysis.set_builtin_defs(globals(&["glob"]), globals(&[]));
    let defs = analysis.snapshot().get_builtin_defs(Dialect::Bazel);
    assert_eq!(defs.builtins.functions[0].0, "glob");
}

#[test]
fn single_file_snapshot() {
    let info = Some(FileInfo::Bazel { api_context: APIContext::Bzl, is_external: false });
    let (snap, id) = AnalysisSnapshot::from_single_file("x = 1", Dialect::Bazel, info);
    assert_eq!(id, FileId(0));
    let f = snap.get_file(id).unwrap();
    assert_eq!(f.contents, "x = 1");
    assert_eq!(f.info, info);
    let defs = snap.get_builtin_defs(Dialect::Bazel);
    let names: Vec<&str> = defs.builtins.functions.iter().map(|(n, _)| n.as_str()).collect();
    assert_eq!(names, vec!["provider", "struct"]);
    let loaded = snap.loader.load_file("main.star", Dialect::Bazel, id).unwrap().unwrap();
    assert_eq!(loaded.file_id, FileId(0));
    assert_eq!(loaded.contents, Some("x = 1".to_string()));
}

#[test]
fn snapshot_shares_loader() {
    let mut analysis = Analysis::new(loader_with("a.bzl", 5, "A = 1"));
    let snap = analysis.snapshot();
    analysis.set_bazel_prelude_file(FileId(5));
    let res = snap.loader.load_file("a.bzl", Dialect::Standard, FileId(0)).unwrap().unwrap();
    assert_eq!(res.file_id, FileId(5));
    assert_eq!(res.dialect, Dialect::Standard);
    assert_eq!(snap.get_bazel_prelude_file(), None);
}

#[test]
fn simple_loader_lookup() {
    let loader = loader_with("main.star", 0, "a = 1");
    let r = loader.load_file("main.star", Dialect::Standard, FileId(0)).unwrap().unwrap();
    assert_eq!(r.file_id, FileId(0));
    assert_eq!(r.contents, Some("a = 1".to_string()));
    assert_eq!(r.info, None);
    assert_eq!(loader.load_file("nope", Dialect::Standard, FileId(0)), Ok(None));
    assert_eq!(loader.resolve_path("x", Dialect::Standard, FileId(0)), Ok(None));
    assert_eq!(loader.list_load_candidates("x", Dialect::Standard, FileId(0)), Ok(None));
}
