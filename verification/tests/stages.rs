use rolldown::bundle::bundle;
use rolldown::bytes::{base_name, dir_name, join_path};
use rolldown::graph::{ImportRecord, ModuleNode};
use rolldown::link::link;
use rolldown::options::{InputOptions, OutputOptions};
use rolldown::plugin::PluginDriver;
use rolldown::resolver::Resolver;
use rolldown::scan::{scan, ScanStageOutput};
use rolldown::source::extract_imports;
use rolldown::store::FileStore;

fn by(s: &str) -> Vec<u8> {
    s.as_bytes().to_vec()
}

fn store(files: &[(&str, &str)]) -> FileStore {
    let mut fs = FileStore::new();
    for (p, c) in files {
        fs.add_file(by(p), by(c));
    }
    fs
}

#[test]
fn scan_deduplicates_shared_modules() {
    // lib.js is imported by two different importers: loaded exactly once
    let fs = store(&[
        ("/app/main.js", "import lib.js\nimport aux.js\nbody"),
        ("/app/aux.js", "import lib.js\naux body"),
        ("/app/lib.js", "lib body"),
    ]);
    let opts = InputOptions { entries: vec![by("main.js")], cwd: by("/app") };
    let driver = PluginDriver::new(Vec::new());
    let mut resolver = Resolver::with_cwd(by("/app"));
    let out = scan(&opts, &driver, &fs, &mut resolver);
    assert_eq!(out.modules.len(), 3);
    assert_eq!(out.visited.len(), 3);
    for i in 0..out.visited.len() {
        for j in 0..i {
            assert_ne!(out.visited[i], out.visited[j]);
        }
    }
    // discovery numbers are the insertion sequence
    for (i, m) in out.modules.iter().enumerate() {
        assert_eq!(m.ord, i);
    }
}

#[test]
fn link_is_independent_of_table_order() {
    // the same two nodes, tables scrambled as concurrent completion might
    // leave them: linking gives identical chunk names and contents
    let node_a = || ModuleNode {
        id: by("/app/a.js"),
        ord: 0,
        content: by("import b.js\na body"),
        imports: vec![ImportRecord { specifier: by("b.js"), resolved: Some(by("/app/b.js")) }],
    };
    let node_b = || ModuleNode {
        id: by("/app/b.js"),
        ord: 1,
        content: by("b body"),
        imports: Vec::new(),
    };
    let g1 = ScanStageOutput {
        modules: vec![node_a(), node_b()],
        entries: vec![by("/app/a.js")],
        warnings: Vec::new(),
        errors: Vec::new(),
        visited: Vec::new(),
    };
    let g2 = ScanStageOutput {
        modules: vec![node_b(), node_a()],
        entries: vec![by("/app/a.js")],
        warnings: Vec::new(),
        errors: Vec::new(),
        visited: Vec::new(),
    };
    let r1 = link(g1);
    let r2 = link(g2);
    assert_eq!(r1.graph.len(), r2.graph.len());
    for (m1, m2) in r1.graph.iter().zip(r2.graph.iter()) {
        assert_eq!(m1.id, m2.id);
        assert_eq!(m1.ord, m2.ord);
        assert_eq!(m1.content, m2.content);
    }
    assert_eq!(r1.included, r2.included);
    let o = OutputOptions { dir: by("dist") };
    let a1 = bundle(&r1, &o).unwrap();
    let a2 = bundle(&r2, &o).unwrap();
    assert_eq!(a1.len(), a2.len());
    for (x, y) in a1.iter().zip(a2.iter()) {
        assert_eq!(x.file_name, y.file_name);
        assert_eq!(x.content, y.content);
    }
}

#[test]
fn unreachable_modules_are_excluded() {
    // b is only referenced by a module that fails to load, so it is scanned
    // but unreachable: dead-code elimination keeps it out of every chunk
    let node_main = ModuleNode {
        id: by("/app/main.js"),
        ord: 0,
        content: by("main body"),
        imports: Vec::new(),
    };
    let node_b = ModuleNode {
        id: by("/app/b.js"),
        ord: 1,
        content: by("b body"),
        imports: Vec::new(),
    };
    let g = ScanStageOutput {
        modules: vec![node_main, node_b],
        entries: vec![by("/app/main.js")],
        warnings: Vec::new(),
        errors: Vec::new(),
        visited: Vec::new(),
    };
    let r = link(g);
    assert_eq!(r.included, vec![true, false]);
    let o = OutputOptions { dir: by("dist") };
    let assets = bundle(&r, &o).unwrap();
    assert_eq!(assets.len(), 1);
    assert_eq!(assets[0].file_name, by("0-main.js"));
}

#[test]
fn resolver_caches_and_single_flights() {
    let fs = store(&[("/app/x.js", "x")]);
    let mut r = Resolver::with_cwd(by("/app"));
    let first = r.resolve(&fs, &by("x.js"), &by("/app"));
    assert_eq!(first.unwrap(), by("/app/x.js"));
    assert_eq!(r.cache.len(), 1);
    // the same pair again: answered from the cache, no second lookup recorded
    let second = r.resolve(&fs, &by("x.js"), &by("/app"));
    assert_eq!(second.unwrap(), by("/app/x.js"));
    assert_eq!(r.cache.len(), 1);
    // a miss is cached too
    assert!(r.resolve(&fs, &by("y.js"), &by("/app")).is_none());
    assert_eq!(r.cache.len(), 2);
}

#[test]
fn extract_imports_reads_marked_lines() {
    let content = by("import a.js\nplain line\nimport deep/b.js\nimporter c\n");
    let found = extract_imports(&content);
    assert_eq!(found, vec![by("a.js"), by("deep/b.js")]);
    assert!(extract_imports(&by("no imports here")).is_empty());
    assert_eq!(extract_imports(&by("import only.js")), vec![by("only.js")]);
}

#[test]
fn path_helpers_split_and_join() {
    assert_eq!(dir_name(&by("/app/src/main.js")), by("/app/src"));
    assert_eq!(base_name(&by("/app/src/main.js")), by("main.js"));
    assert_eq!(dir_name(&by("main.js")), by(""));
    assert_eq!(base_name(&by("main.js")), by("main.js"));
    assert_eq!(join_path(&by("/app"), &by("dist")), by("/app/dist"));
    assert_eq!(join_path(&by("/app"), &by("/abs.js")), by("/abs.js"));
    assert_eq!(join_path(&by(""), &by("x.js")), by("x.js"));
}
