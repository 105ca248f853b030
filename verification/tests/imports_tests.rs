use hotreload::imports::{collect_imports, effective_import_set, ImportAlias, PyStmt};
use hotreload::scan::scan_source;

fn record_modules(recs: &[hotreload::imports::ImportRecord]) -> Vec<String> {
    recs.iter().map(|r| r.module.clone()).collect::<Vec<_>>()
}

#[test]
fn scan_collects_plain_imports() {
    let recs = scan_source("import json\nimport os\n", "main.py").unwrap();
    assert_eq!(record_modules(&recs), vec!["json".to_string(), "os".to_string()]);
    assert!(recs.iter().all(|r| !r.is_relative));
}

#[test]
fn scan_collects_from_imports_and_aliases() {
    let recs = scan_source("from collections import OrderedDict as OD, deque\n", "m.py").unwrap();
    assert_eq!(recs.len(), 1);
    assert_eq!(recs[0].module, "collections");
    assert_eq!(recs[0].names, vec!["OD".to_string(), "deque".to_string()]);
    assert!(!recs[0].is_relative);
}

#[test]
fn scan_marks_relative_imports() {
    let recs = scan_source("from . import helpers\nfrom ..pkg import thing\n", "m.py").unwrap();
    assert_eq!(recs.len(), 1, "a bare `from . import x` has no source module");
    assert_eq!(recs[0].module, "pkg");
    assert!(recs[0].is_relative);
}

#[test]
fn scan_descends_into_containers() {
    let src = "\
if True:
    import alpha
else:
    import beta
while False:
    import gamma
else:
    import gamma2
for x in []:
    import delta
else:
    import delta2
def f():
    import epsilon
async def g():
    import zeta
    async for y in x:
        import eta
class C:
    import theta
";
    let recs = scan_source(src, "m.py").unwrap();
    assert_eq!(
        record_modules(&recs),
        vec![
            "alpha".to_string(),
            "beta".to_string(),
            "gamma".to_string(),
            "gamma2".to_string(),
            "delta".to_string(),
            "delta2".to_string(),
            "epsilon".to_string(),
            "zeta".to_string(),
            "eta".to_string(),
            "theta".to_string()
        ]
    );
}

#[test]
fn scan_rejects_bad_source() {
    let err = scan_source("def broken(:\n", "bad.py").unwrap_err();
    assert_eq!(err.file, "bad.py");
    assert!(!err.reason.is_empty());
}

#[test]
fn collect_imports_on_built_tree() {
    let stmts = vec![
        PyStmt::Import(vec![ImportAlias { name: "json".to_string(), asname: None }]),
        PyStmt::Branch {
            body: vec![PyStmt::Import(vec![ImportAlias {
                name: "os".to_string(),
                asname: Some("operating".to_string()),
            }])],
            orelse: vec![PyStmt::Other],
        },
    ];
    let recs = collect_imports(&stmts);
    assert_eq!(record_modules(&recs), vec!["json".to_string(), "os".to_string()]);
    assert_eq!(recs[1].names, vec!["operating".to_string()]);
}

#[test]
fn effective_set_excludes_relative_and_first_party() {
    let src = "\
import requests
import myproj.utils
from . import local
from numpy import array
";
    let recs = scan_source(src, "m.py").unwrap();
    let set = effective_import_set(&recs, &"myproj".to_string());
    let mut names = set.modules.clone();
    names.sort();
    assert_eq!(names, vec!["numpy".to_string(), "requests".to_string()]);
}

#[test]
fn effective_set_keeps_prefix_named_modules() {
    // `myproj2` shares a prefix with the package but is a different first
    // segment, so it stays.
    let recs = scan_source("import myproj2\nimport myproj.sub\n", "m.py").unwrap();
    let set = effective_import_set(&recs, &"myproj".to_string());
    assert_eq!(set.modules, vec!["myproj2".to_string()]);
}

#[test]
fn effective_set_is_order_independent() {
    let a = scan_source("import one\nimport two\nimport three\n", "a.py").unwrap();
    let b = scan_source("import three\nimport one\nimport two\nimport one\n", "b.py").unwrap();
    let pkg = "pkg".to_string();
    let sa = effective_import_set(&a, &pkg);
    let sb = effective_import_set(&b, &pkg);
    let mut na = sa.modules.clone();
    let mut nb = sb.modules.clone();
    na.sort();
    nb.sort();
    assert_eq!(na, nb);
}
