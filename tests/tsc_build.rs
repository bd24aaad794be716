use deno_ext::{
    bootstrap_response, build_specifier, compiler_lib_names, compiler_snapshot_libs, complete_load, lib_response,
    op_build_info, op_cwd, op_exists, op_is_node_file, op_script_version, parse_lib_specifier,
    resolve_load, LoadError, LoadSource, OpCrateLib, SCRIPT_KIND_TYPESCRIPT,
};

fn table() -> Vec<OpCrateLib> {
    vec![
        OpCrateLib { name: "deno.core".to_string(), path: "/ext/core/lib.deno_core.d.ts".to_string() },
        OpCrateLib { name: "deno.net".to_string(), path: "/ext/net/lib.deno_net.d.ts".to_string() },
    ]
}

fn strings(v: &[&str]) -> Vec<String> {
    v.iter().map(|s| s.to_string()).collect()
}

#[test]
fn mapped_lib_loads_file_text() {
    let specifier = "asset:///lib.deno.core.d.ts";
    let source = resolve_load(specifier, &table()).unwrap();
    assert_eq!(source, LoadSource::OpCrateLib { path: "/ext/core/lib.deno_core.d.ts".to_string() });
    let response = complete_load(specifier, &source, Some("declare const x: 1;".to_string())).unwrap();
    assert_eq!(response.data, "declare const x: 1;");
    assert_eq!(response.version, "1");
    assert_eq!(response.script_kind, 3);
    assert_eq!(SCRIPT_KIND_TYPESCRIPT, 3);
}

#[test]
fn unknown_lib_is_invalid_specifier() {
    let specifier = "asset:///lib.unknown.d.ts";
    let source = resolve_load(specifier, &table()).unwrap();
    assert_eq!(source, LoadSource::Dts { file_name: "lib.unknown.d.ts".to_string() });
    let err = complete_load(specifier, &source, None).unwrap_err();
    assert_eq!(err, LoadError::InvalidSpecifier { specifier: specifier.to_string() });
    assert_eq!(err.class(), "InvalidSpecifier");
    assert_eq!(err.message(), "An invalid specifier was requested: asset:///lib.unknown.d.ts");
}

#[test]
fn unmapped_lib_reads_declaration_directory() {
    let source = resolve_load("asset:///lib.es2015.promise.d.ts", &table()).unwrap();
    assert_eq!(source, LoadSource::Dts { file_name: "lib.es2015.promise.d.ts".to_string() });
    let response =
        complete_load("asset:///lib.es2015.promise.d.ts", &source, Some("interface P {}".to_string()))
            .unwrap();
    assert_eq!(response.data, "interface P {}");
}

#[test]
fn bootstrap_specifier_loads_warm_up_text() {
    let source = resolve_load("asset:///bootstrap.ts", &table()).unwrap();
    assert_eq!(source, LoadSource::Bootstrap);
    let response = complete_load("asset:///bootstrap.ts", &source, None).unwrap();
    assert_eq!(response.data, r#"Deno.writeTextFile("hello.txt", "hello deno!");"#);
    assert_eq!(response.version, "1");
    assert_eq!(response.script_kind, 3);
    assert_eq!(bootstrap_response(), response);
    assert_eq!(build_specifier(), "asset:///bootstrap.ts");
}

#[test]
fn other_specifiers_are_invalid() {
    for s in [
        "https://deno.land/std/mod.ts",
        "asset:///lib..d.ts",
        "asset:///lib.a b.d.ts",
        "asset:///lib.d.ts",
        "",
    ] {
        assert_eq!(
            resolve_load(s, &table()),
            Err(LoadError::InvalidSpecifier { specifier: s.to_string() }),
            "{s}"
        );
    }
}

#[test]
fn lib_specifier_names() {
    assert_eq!(parse_lib_specifier("asset:///lib.deno.core.d.ts"), Some("deno.core".to_string()));
    assert_eq!(parse_lib_specifier("asset:///lib.es5.d.ts"), Some("es5".to_string()));
    assert_eq!(parse_lib_specifier("asset:///lib.x.d.ts.d.ts"), Some("x.d.ts".to_string()));
    assert_eq!(parse_lib_specifier("asset:///lib.é.d.ts"), Some("é".to_string()));
    assert_eq!(parse_lib_specifier("asset:///lib.a\u{3000}b.d.ts"), None);
    assert_eq!(parse_lib_specifier("asset:///lib.x.d.t"), None);
    assert_eq!(parse_lib_specifier("asset:///lib.es5.d.ts.map"), Some("es5".to_string()));
    assert_eq!(parse_lib_specifier("see asset:///lib.es5.d.ts now"), Some("es5".to_string()));
    assert_eq!(
        parse_lib_specifier("asset:///lib. asset:///lib.dom.d.ts"),
        Some("dom".to_string())
    );
    assert_eq!(parse_lib_specifier("asset:///lib.a.d.ts b.d.ts"), Some("a".to_string()));
}

#[test]
fn first_table_entry_wins() {
    let mut t = table();
    t.push(OpCrateLib { name: "deno.core".to_string(), path: "/other.d.ts".to_string() });
    assert_eq!(
        resolve_load("asset:///lib.deno.core.d.ts", &t).unwrap(),
        LoadSource::OpCrateLib { path: "/ext/core/lib.deno_core.d.ts".to_string() }
    );
}

#[test]
fn snapshot_lists_exactly_its_libs() {
    let libs = strings(&["deno.window", "es5", "esnext.intl"]);
    let build_libs = compiler_lib_names(&libs, &table());
    assert_eq!(build_libs, strings(&["deno.window", "es5", "esnext.intl", "deno.core", "deno.net"]));
    let info = op_build_info(&build_libs, &strings(&["fs", "path"]));
    assert_eq!(info.libs, build_libs);
    assert_eq!(info.build_specifier, "asset:///bootstrap.ts");
    assert_eq!(info.node_built_in_module_names, strings(&["fs", "path"]));
}

#[test]
fn suffixed_specifier_loads_the_library() {
    let source = resolve_load("asset:///lib.es5.d.ts.map", &table()).unwrap();
    assert_eq!(source, LoadSource::Dts { file_name: "lib.es5.d.ts".to_string() });
}

#[test]
fn duplicate_table_names_listed_once() {
    let mut t = table();
    t.push(OpCrateLib { name: "deno.core".to_string(), path: "/other.d.ts".to_string() });
    let build_libs = compiler_lib_names(&strings(&["es5"]), &t);
    assert_eq!(build_libs, strings(&["es5", "deno.core", "deno.net"]));
}

#[test]
fn compiler_snapshot_lib_list() {
    let libs = compiler_snapshot_libs();
    assert_eq!(libs.len(), 60);
    assert_eq!(libs[0], "deno.window");
    assert_eq!(libs[5], "es5");
    assert_eq!(libs[59], "esnext.intl");
}

#[test]
fn empty_lib_lists() {
    let build_libs = compiler_lib_names(&vec![], &vec![]);
    assert!(build_libs.is_empty());
    assert!(op_build_info(&build_libs, &vec![]).libs.is_empty());
}

#[test]
fn fixed_build_answers() {
    assert_eq!(op_cwd(), "cache:///");
    assert!(!op_exists());
    assert!(!op_is_node_file());
    assert_eq!(op_script_version(), Some("1".to_string()));
    assert_eq!(lib_response("t".to_string()).version, "1");
}
