use rolldown::bundle::bundle;
use rolldown::bundler::Bundler;
use rolldown::errors::BuildError;
use rolldown::options::{InputOptions, OutputOptions};
use rolldown::plugin::Plugin;
use rolldown::store::FileStore;

fn by(s: &str) -> Vec<u8> {
    s.as_bytes().to_vec()
}

fn store(files: &[(&str, &str)]) -> FileStore {
    let mut fs = FileStore::new();
    for (p, c) in files {
        fs.add_file(by(p), by(c));
    }
    fs
}

fn opts(cwd: &str, entries: &[&str]) -> InputOptions {
    InputOptions { entries: entries.iter().map(|e| by(e)).collect(), cwd: by(cwd) }
}

fn out_dir(dir: &str) -> OutputOptions {
    OutputOptions { dir: by(dir) }
}

fn plain_plugin(name: &str) -> Plugin {
    Plugin {
        name: by(name),
        fail_start: false,
        resolutions: Vec::new(),
        loads: Vec::new(),
        banners: Vec::new(),
        transform_fails: Vec::new(),
    }
}

#[test]
fn build_and_generate_basic() {
    let fs = store(&[
        ("/app/main.js", "import lib.js\nmain body"),
        ("/app/lib.js", "lib body"),
    ]);
    let mut b = Bundler::with_plugins_and_fs(opts("/app", &["main.js"]), Vec::new(), fs);
    assert!(b.build().is_ok());
    let out = b.generate(out_dir("dist")).unwrap();
    assert!(out.warnings.is_empty());
    assert_eq!(out.assets.len(), 2);
    assert_eq!(out.assets[0].file_name, by("0-main.js"));
    assert_eq!(out.assets[0].content, by("import lib.js\nmain body"));
    assert_eq!(out.assets[1].file_name, by("shared.js"));
    assert_eq!(out.assets[1].content, by("lib body"));
}

#[test]
fn generate_twice_is_idempotent() {
    let fs = store(&[
        ("/app/main.js", "import lib.js\nbody"),
        ("/app/lib.js", "lib body"),
    ]);
    let mut b = Bundler::with_plugins_and_fs(opts("/app", &["main.js"]), Vec::new(), fs);
    assert!(b.build().is_ok());
    let first = b.generate(out_dir("dist")).unwrap();
    let second = b.generate(out_dir("dist")).unwrap();
    assert_eq!(first.assets.len(), second.assets.len());
    for (a, c) in first.assets.iter().zip(second.assets.iter()) {
        assert_eq!(a.file_name, c.file_name);
        assert_eq!(a.content, c.content);
    }
    assert!(first.warnings.is_empty());
    assert!(second.warnings.is_empty());
}

#[test]
fn partial_failure_keeps_other_entries() {
    let fs = store(&[
        ("/app/a.js", "a body"),
        ("/app/b.js", "import missing.js\nb body"),
    ]);
    let mut b = Bundler::with_plugins_and_fs(opts("/app", &["a.js", "b.js"]), Vec::new(), fs);
    // build reports exactly one resolution error, naming b's import
    let errs = b.build().unwrap_err();
    assert_eq!(errs.len(), 1);
    match &errs[0] {
        BuildError::Unresolved { specifier, importer } => {
            assert_eq!(specifier, &by("missing.js"));
            assert_eq!(importer.as_ref().unwrap(), &by("/app/b.js"));
        },
        _ => panic!("expected an unresolved-specifier error"),
    }
    // the failed build leaves the orchestrator without a usable result
    match b.generate(out_dir("dist")) {
        Err(es) => assert!(matches!(es[0], BuildError::NoBuildResult)),
        Ok(_) => panic!("generate after a failed build must fail"),
    }
    // a's branch is intact in the best-effort graph kept for inspection
    let partial = b.partial_result.as_ref().unwrap();
    let assets = bundle(partial, &out_dir("dist")).unwrap();
    assert_eq!(assets.len(), 2);
    assert_eq!(assets[0].file_name, by("0-a.js"));
    assert_eq!(assets[0].content, by("a body"));
    assert_eq!(assets[1].file_name, by("1-b.js"));
}

#[test]
fn write_before_build_fails_without_storage_writes() {
    let mut b = Bundler::new(opts("/app", &["main.js"]));
    let r = b.write(out_dir("dist"));
    match r {
        Err(es) => {
            assert_eq!(es.len(), 1);
            assert!(matches!(es[0], BuildError::NoBuildResult));
        },
        Ok(_) => panic!("write before build must fail"),
    }
    assert!(b.fs.files.is_empty());
    assert!(b.fs.dirs.is_empty());
}

#[test]
fn cyclic_imports_complete() {
    let fs = store(&[
        ("/app/a.js", "import b.js\na body"),
        ("/app/b.js", "import a.js\nb body"),
    ]);
    let mut b = Bundler::with_plugins_and_fs(opts("/app", &["a.js"]), Vec::new(), fs);
    assert!(b.build().is_ok());
    let out = b.generate(out_dir("dist")).unwrap();
    assert!(out.warnings.is_empty());
    assert_eq!(out.assets.len(), 2);
    assert_eq!(out.assets[0].file_name, by("0-a.js"));
    assert_eq!(out.assets[1].file_name, by("shared.js"));
    assert_eq!(out.assets[1].content, by("import a.js\nb body"));
}

#[test]
fn end_hook_fires_once_on_success() {
    let fs = store(&[("/app/main.js", "body")]);
    let mut b = Bundler::with_plugins_and_fs(
        opts("/app", &["main.js"]),
        vec![plain_plugin("p")],
        fs,
    );
    assert!(b.build().is_ok());
    assert_eq!(b.plugin_driver.end_calls.len(), 1);
    assert!(b.plugin_driver.end_calls[0].is_none());
}

#[test]
fn end_hook_fires_once_on_failure() {
    let mut failing = plain_plugin("p");
    failing.fail_start = true;
    let fs = store(&[("/app/main.js", "body")]);
    let mut b = Bundler::with_plugins_and_fs(opts("/app", &["main.js"]), vec![failing], fs);
    let r = b.build();
    match r {
        Err(es) => {
            assert_eq!(es.len(), 1);
            assert!(matches!(es[0], BuildError::HookFailed { .. }));
        },
        Ok(()) => panic!("start-hook failure must fail the build"),
    }
    assert_eq!(b.plugin_driver.end_calls.len(), 1);
    assert!(b.plugin_driver.end_calls[0].is_some());
    // a second, successful build notifies end once more
    b.plugin_driver.plugins[0].fail_start = false;
    assert!(b.build().is_ok());
    assert_eq!(b.plugin_driver.end_calls.len(), 2);
    assert!(b.plugin_driver.end_calls[1].is_none());
}

#[test]
fn failed_build_clears_previous_result() {
    let fs = store(&[("/app/main.js", "body")]);
    let mut b = Bundler::with_plugins_and_fs(
        opts("/app", &["main.js"]),
        vec![plain_plugin("p")],
        fs,
    );
    assert!(b.build().is_ok());
    assert!(b.build_result.is_some());
    // a start-hook failure on the next attempt leaves no usable result
    b.plugin_driver.plugins[0].fail_start = true;
    let r = b.build();
    match r {
        Err(es) => {
            assert_eq!(es.len(), 1);
            assert!(matches!(es[0], BuildError::HookFailed { .. }));
        },
        Ok(()) => panic!("a start-hook failure must fail the build"),
    }
    assert!(b.build_result.is_none());
    assert!(b.partial_result.is_none());
    // generate after the failed build reports no build result
    let g = b.generate(out_dir("dist"));
    match g {
        Err(es) => assert!(matches!(es[0], BuildError::NoBuildResult)),
        Ok(_) => panic!("generate after a failed build must fail"),
    }
}

#[test]
fn unresolved_entry_is_batched_and_best_effort_kept() {
    let fs = store(&[("/app/main.js", "main body")]);
    let mut b = Bundler::with_plugins_and_fs(
        opts("/app", &["main.js", "gone.js"]),
        Vec::new(),
        fs,
    );
    let errs = b.build().unwrap_err();
    assert_eq!(errs.len(), 1);
    match &errs[0] {
        BuildError::Unresolved { specifier, importer } => {
            assert_eq!(specifier, &by("gone.js"));
            assert!(importer.is_none());
        },
        _ => panic!("expected an unresolved entry error"),
    }
    // generate refuses, but the best-effort graph still holds the healthy entry
    match b.generate(out_dir("dist")) {
        Err(es) => assert!(matches!(es[0], BuildError::NoBuildResult)),
        Ok(_) => panic!("generate after a failed build must fail"),
    }
    let partial = b.partial_result.as_ref().unwrap();
    let assets = bundle(partial, &out_dir("dist")).unwrap();
    assert_eq!(assets.len(), 1);
    assert_eq!(assets[0].file_name, by("0-main.js"));
}

#[test]
fn write_persists_assets_under_output_directory() {
    let fs = store(&[
        ("/app/main.js", "import lib.js\nmain body"),
        ("/app/lib.js", "lib body"),
    ]);
    let mut b = Bundler::with_plugins_and_fs(opts("/app", &["main.js"]), Vec::new(), fs);
    assert!(b.build().is_ok());
    let out = b.write(out_dir("dist")).unwrap();
    assert_eq!(out.assets.len(), 2);
    assert_eq!(b.fs.read_file(&by("/app/dist/0-main.js")).unwrap(), by("import lib.js\nmain body"));
    assert_eq!(b.fs.read_file(&by("/app/dist/shared.js")).unwrap(), by("lib body"));
    assert_eq!(b.fs.dirs.last().unwrap(), &by("/app/dist"));
}

#[test]
fn write_surfaces_storage_failure() {
    let mut fs = store(&[("/app/main.js", "body")]);
    fs.add_fail_path(by("/app/dist/0-main.js"));
    let mut b = Bundler::with_plugins_and_fs(opts("/app", &["main.js"]), Vec::new(), fs);
    assert!(b.build().is_ok());
    let r = b.write(out_dir("dist"));
    match r {
        Err(es) => {
            assert_eq!(es.len(), 1);
            match &es[0] {
                BuildError::IoFailed { path } => assert_eq!(path, &by("/app/dist/0-main.js")),
                _ => panic!("expected a storage failure"),
            }
        },
        Ok(_) => panic!("a failing write target must abort the call"),
    }
}

#[test]
fn write_surfaces_directory_creation_failure() {
    let mut fs = store(&[("/app/main.js", "body")]);
    fs.add_fail_path(by("/app/dist"));
    let mut b = Bundler::with_plugins_and_fs(opts("/app", &["main.js"]), Vec::new(), fs);
    assert!(b.build().is_ok());
    let r = b.write(out_dir("dist"));
    match r {
        Err(es) => {
            match &es[0] {
                BuildError::IoFailed { path } => assert_eq!(path, &by("/app/dist")),
                _ => panic!("expected a storage failure"),
            }
        },
        Ok(_) => panic!("a failing directory creation must abort the call"),
    }
}

#[test]
fn empty_output_directory_is_invalid() {
    let fs = store(&[("/app/main.js", "body")]);
    let mut b = Bundler::with_plugins_and_fs(opts("/app", &["main.js"]), Vec::new(), fs);
    assert!(b.build().is_ok());
    let r = b.generate(out_dir(""));
    match r {
        Err(es) => assert!(matches!(es[0], BuildError::InvalidOutputDir)),
        Ok(_) => panic!("an empty output directory must be rejected"),
    }
}

#[test]
fn plugin_resolve_and_load_first_result_wins() {
    let mut p1 = plain_plugin("first");
    p1.resolutions.push((by("virt"), by("/virtual/one.js")));
    p1.loads.push((by("/virtual/one.js"), by("one body")));
    let mut p2 = plain_plugin("second");
    p2.resolutions.push((by("virt"), by("/virtual/two.js")));
    p2.loads.push((by("/virtual/one.js"), by("shadowed")));
    let mut b = Bundler::with_plugins(opts("/app", &["virt"]), vec![p1, p2]);
    assert!(b.build().is_ok());
    let out = b.generate(out_dir("dist")).unwrap();
    assert_eq!(out.assets.len(), 1);
    assert_eq!(out.assets[0].file_name, by("0-one.js"));
    assert_eq!(out.assets[0].content, by("one body"));
}

#[test]
fn transform_chain_applies_in_registration_order() {
    let mut p1 = plain_plugin("first");
    p1.banners.push((by("/app/main.js"), by("A\n")));
    let mut p2 = plain_plugin("second");
    p2.banners.push((by("/app/main.js"), by("B\n")));
    let fs = store(&[("/app/main.js", "body")]);
    let mut b = Bundler::with_plugins_and_fs(opts("/app", &["main.js"]), vec![p1, p2], fs);
    assert!(b.build().is_ok());
    let out = b.generate(out_dir("dist")).unwrap();
    assert_eq!(out.assets[0].content, by("B\nA\nbody"));
}

#[test]
fn transform_failure_excludes_module_and_reports() {
    let mut p = plain_plugin("breaker");
    p.transform_fails.push(by("/app/bad.js"));
    let fs = store(&[
        ("/app/main.js", "import bad.js\nbody"),
        ("/app/bad.js", "bad body"),
    ]);
    let mut b = Bundler::with_plugins_and_fs(opts("/app", &["main.js"]), vec![p], fs);
    // the transform failure and the unbound binding are batched by build
    let errs = b.build().unwrap_err();
    assert_eq!(errs.len(), 2);
    match &errs[0] {
        BuildError::TransformFailed { id, plugin } => {
            assert_eq!(id, &by("/app/bad.js"));
            assert_eq!(plugin, &by("breaker"));
        },
        _ => panic!("expected a transform failure"),
    }
    assert!(matches!(errs[1], BuildError::UnboundImport { .. }));
    // the failed module reaches no chunk of the best-effort graph
    let partial = b.partial_result.as_ref().unwrap();
    let assets = bundle(partial, &out_dir("dist")).unwrap();
    assert_eq!(assets.len(), 1);
    assert_eq!(assets[0].file_name, by("0-main.js"));
}

#[test]
fn load_failure_is_reported_and_scanning_continues() {
    let mut p = plain_plugin("virtual");
    p.resolutions.push((by("ghost"), by("/virtual/ghost.js")));
    let fs = store(&[("/app/main.js", "import ghost.js\nimport lib.js\nbody"), ("/app/lib.js", "lib body")]);
    // `ghost.js` resolves through the plugin to a module nobody can load
    let mut p2 = plain_plugin("alias");
    p2.resolutions.push((by("ghost.js"), by("/virtual/ghost.js")));
    let mut b = Bundler::with_plugins_and_fs(opts("/app", &["main.js"]), vec![p, p2], fs);
    // the load failure is reported by build without aborting the scan
    let errs = b.build().unwrap_err();
    assert!(errs.iter().any(|w| matches!(w, BuildError::LoadFailed { .. })));
    // the rest of the graph still reached the best-effort result
    let partial = b.partial_result.as_ref().unwrap();
    let assets = bundle(partial, &out_dir("dist")).unwrap();
    assert_eq!(assets.len(), 2);
    assert_eq!(assets[1].content, by("lib body"));
}

#[test]
fn duplicate_entries_are_scanned_once() {
    let fs = store(&[("/app/main.js", "main body")]);
    let mut b = Bundler::with_plugins_and_fs(
        opts("/app", &["main.js", "main.js"]),
        Vec::new(),
        fs,
    );
    assert!(b.build().is_ok());
    let out = b.generate(out_dir("dist")).unwrap();
    // one chunk per entry occurrence, both from the single scanned module
    assert_eq!(out.assets.len(), 2);
    assert_eq!(out.assets[0].content, out.assets[1].content);
    let linked = b.build_result.as_ref().unwrap();
    assert_eq!(linked.graph.len(), 1);
}

#[test]
fn no_entries_build_empty_output() {
    let fs = store(&[("/app/unused.js", "unused")]);
    let mut b = Bundler::with_plugins_and_fs(opts("/app", &[]), Vec::new(), fs);
    assert!(b.build().is_ok());
    let out = b.generate(out_dir("dist")).unwrap();
    assert!(out.assets.is_empty());
    assert!(out.warnings.is_empty());
}
