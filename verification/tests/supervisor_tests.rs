use hotreload::codec::Message;
use hotreload::ids::{fresh_module_dir, package_name_from_manifest, ManifestKind};
use hotreload::imports::ImportSet;
use hotreload::scan::scan_source;
use hotreload::script::{
    build_import_lines, exec_prelude, isolation_payload, module_dir_name, module_import_path,
};
use hotreload::supervisor::{HandshakeStep, LifecycleError, Supervisor};

fn scan(src: &str) -> Vec<hotreload::imports::ImportRecord> {
    scan_source(src, "test.py").unwrap()
}

#[test]
fn boot_records_effective_set() {
    let mut sup = Supervisor::new("myproj".to_string(), "/tmp/proj".to_string());
    let recs = scan("import json\nimport os\nfrom . import local\nimport myproj.sub\n");
    assert!(sup.boot_from_records(&recs).is_ok());
    assert!(sup.scanned_once);
    let mut names = sup.previous_imports.modules.clone();
    names.sort();
    assert_eq!(names, vec!["json".to_string(), "os".to_string()]);
    // Booting over a live layer is a lifecycle error.
    assert_eq!(sup.boot_from_records(&recs), Err(LifecycleError::AlreadyBooted));
}

#[test]
fn exec_worker_issues_fork_request() {
    let mut sup = Supervisor::new("p".to_string(), "/tmp/p".to_string());
    assert!(matches!(
        sup.exec_worker("job".to_string(), "code".to_string()),
        Err(LifecycleError::NotBooted)
    ));
    sup.boot_from_records(&scan("import json\n")).unwrap();
    let (uuid, msg) = sup.exec_worker("job".to_string(), "print('x')".to_string()).unwrap();
    assert_eq!(uuid.len(), 36);
    match msg {
        Message::ForkRequest { request_id, request_name, code } => {
            assert_eq!(request_id, uuid);
            assert_eq!(request_name, "job");
            assert_eq!(code, "print('x')");
        }
        other => panic!("unexpected message: {other:?}"),
    }
    // The resolvers were installed before the request was handed back.
    let layer = sup.layer.as_ref().unwrap();
    assert!(layer.completion_value(&uuid).is_none());
    assert_eq!(layer.live_uuids(), vec![uuid]);
}

#[test]
fn reload_without_changes_is_refused() {
    let mut sup = Supervisor::new("p".to_string(), "/tmp/p".to_string());
    let recs = scan("import json\nimport os\n");
    // Before the first scan a reload has nothing to compare against.
    assert!(sup.plan_reload(&recs).is_none());
    sup.boot_from_records(&recs).unwrap();
    // Same imports in another order: no drift, no recycle.
    let again = scan("import os\nimport json\n");
    assert!(sup.plan_reload(&again).is_none());
}

#[test]
fn reload_with_new_import_recycles() {
    let mut sup = Supervisor::new("p".to_string(), "/tmp/p".to_string());
    sup.boot_from_records(&scan("import json\nimport os\n")).unwrap();
    let new_set = sup.plan_reload(&scan("import json\nimport os\nimport yaml\n")).unwrap();
    assert!(new_set.contains_name(&"yaml".to_string()));
    sup.commit_reload(new_set);
    assert!(sup.previous_imports.contains_name(&"yaml".to_string()));
    assert!(sup.layer.as_ref().unwrap().live_uuids().is_empty());
    // The committed set is the new baseline: scanning the same imports
    // again reports no drift.
    assert!(sup.plan_reload(&scan("import yaml\nimport os\nimport json\n")).is_none());
}

#[test]
fn handshake_steps() {
    let done = hotreload::codec::encode_message(&Message::ImportComplete);
    assert!(matches!(Supervisor::handshake_step(&done), HandshakeStep::Booted));

    let failed = hotreload::codec::encode_message(&Message::ImportError {
        error: "no module named yaml".to_string(),
        traceback: Some("tb".to_string()),
    });
    match Supervisor::handshake_step(&failed) {
        HandshakeStep::Failed(e) => {
            assert!(e.contains("no module named yaml"));
            assert!(e.contains("tb"));
        }
        _ => panic!("expected failure"),
    }

    assert!(matches!(
        Supervisor::handshake_step("loader warming up..."),
        HandshakeStep::Continue
    ));
}

#[test]
fn exit_request_names_the_worker() {
    let msg = Supervisor::exit_request(&"u-9".to_string());
    assert_eq!(msg, Message::ExitRequest { request_id: "u-9".to_string() });
}

#[test]
fn import_lines_exact() {
    let mut set = ImportSet::new();
    set.insert("json".to_string());
    set.insert("os".to_string());
    assert_eq!(build_import_lines(&set), "__import__('json')\n__import__('os')\n");
}

#[test]
fn isolation_payload_exact() {
    let dir = module_dir_name(&"abc".to_string());
    assert_eq!(dir, "pymoduleabc");
    let path = module_import_path(&dir);
    assert_eq!(path, "pymoduleabc.script");
    let payload = isolation_payload(&path, &"main".to_string());
    assert_eq!(
        payload,
        "{\"func_import_path\":\"pymoduleabc.script\",\"func_name\":\"main\",\"func_qualname\":\"main\",\"args\":null}"
    );
}

#[test]
fn exec_prelude_exact() {
    let p = exec_prelude(&"BASE64DATA".to_string(), &"run(pickled_str)".to_string());
    assert_eq!(p, "pickled_str = \"BASE64DATA\"\nrun(pickled_str)");
}

#[test]
fn fresh_module_dirs_are_valid_and_distinct() {
    let a = fresh_module_dir();
    let b = fresh_module_dir();
    assert_eq!(a.len(), 40);
    assert!(a.starts_with("pymodule"));
    assert!(a.chars().all(|c| c.is_ascii_alphanumeric()));
    assert_ne!(a, b, "two minted module names should differ");
}

#[test]
fn package_name_detection() {
    let setup = "from setuptools import setup\nsetup(\n    name='my_package',\n    version='0.1',\n)\n";
    assert_eq!(
        package_name_from_manifest(setup, ManifestKind::SetupPy),
        Some("my_package".to_string())
    );
    assert_eq!(package_name_from_manifest("print('no name here')", ManifestKind::SetupPy), None);

    let pyproject = "[project] name = \"cooltool\"";
    assert_eq!(
        package_name_from_manifest(pyproject, ManifestKind::PyprojectToml),
        Some("cooltool".to_string())
    );
    let poetry = "[tool.poetry] name = 'poetic'";
    assert_eq!(
        package_name_from_manifest(poetry, ManifestKind::PyprojectToml),
        Some("poetic".to_string())
    );
    // The section pattern spans lines: a name on a later line is found.
    let multiline = "[project]\nname = \"cooltool\"\nversion = \"1.0\"\n";
    assert_eq!(
        package_name_from_manifest(multiline, ManifestKind::PyprojectToml),
        Some("cooltool".to_string())
    );
}
