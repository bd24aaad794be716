use deno_ext::{
    check_all_dependencies, compose, init_extension_ops, ComposeError, Extension,
    ExtensionError, ExtensionFileSource, OpDecl, OpEventLoopHook, OpMiddleware, OpState,
    OpStateInit,
};

fn op(name: &'static str) -> OpDecl {
    OpDecl {
        name,
        v8_fn_ptr: 7,
        enabled: true,
        is_async: false,
        is_unstable: false,
        argc: 1,
        is_v8: false,
        fast_fn: None,
    }
}

fn file(specifier: &str) -> ExtensionFileSource {
    ExtensionFileSource { specifier: specifier.to_string(), code: "1 + 1;" }
}

fn ext_with_deps(name: &'static str, deps: Vec<&'static str>) -> Extension {
    Extension::builder(name).dependencies(deps).build()
}

struct DisableNamed(&'static str);

impl OpMiddleware for DisableNamed {
    fn apply(&self, op: OpDecl) -> OpDecl {
        if op.name == self.0 {
            op.disable()
        } else {
            op
        }
    }
}

struct EnableAll;

impl OpMiddleware for EnableAll {
    fn apply(&self, op: OpDecl) -> OpDecl {
        OpDecl { name: "renamed", ..op.enabled(true) }
    }
}

struct PutLibs;

impl OpStateInit for PutLibs {
    fn init(&self, state: &mut OpState) -> Result<(), anyhow::Error> {
        state.put("libs", vec!["es5".to_string(), "deno.ns".to_string()]);
        Ok(())
    }
}

struct FailingInit;

impl OpStateInit for FailingInit {
    fn init(&self, _state: &mut OpState) -> Result<(), anyhow::Error> {
        Err(anyhow::Error::msg("state setup failed"))
    }
}

struct Pending(bool);

impl OpEventLoopHook for Pending {
    fn poll(&self, _state: &mut OpState) -> bool {
        self.0
    }
}

struct Append(&'static str);

impl OpStateInit for Append {
    fn init(&self, state: &mut OpState) -> Result<(), anyhow::Error> {
        let mut v = state.borrow("order").cloned().unwrap_or_default();
        v.push(self.0.to_string());
        state.put("order", v);
        Ok(())
    }
}

#[test]
fn js_specifier_is_namespaced() {
    let ext = Extension::builder("foo").js(vec![file("bar.js")]).build();
    let sources = ext.get_js_sources();
    assert_eq!(sources.len(), 1);
    assert_eq!(sources[0].specifier, "internal:foo/bar.js");
    assert_eq!(sources[0].code, "1 + 1;");
}

#[test]
fn esm_specifier_is_namespaced() {
    let ext = Extension::builder("cli")
        .esm(vec![file("40_testing.js"), file("runtime/js/99_main.js")])
        .build();
    let specifiers: Vec<&str> =
        ext.get_esm_sources().iter().map(|f| f.specifier.as_str()).collect();
    assert_eq!(specifiers, vec!["internal:cli/40_testing.js", "internal:cli/runtime/js/99_main.js"]);
    assert!(ext.get_js_sources().is_empty());
}

#[test]
fn same_file_in_two_extensions_does_not_collide() {
    let a = Extension::builder("foo").js(vec![file("bar.js")]).build();
    let b = Extension::builder("baz").js(vec![file("bar.js")]).build();
    assert_eq!(a.get_js_sources()[0].specifier, "internal:foo/bar.js");
    assert_eq!(b.get_js_sources()[0].specifier, "internal:baz/bar.js");
    assert_ne!(a.get_js_sources()[0].specifier, b.get_js_sources()[0].specifier);
}

#[test]
fn build_drains_the_builder() {
    let mut builder = Extension::builder("foo");
    builder.js(vec![file("a.js")]).ops(vec![op("op_a")]).dependencies(vec!["bar"]);
    let mut first = builder.build();
    builder.js(vec![file("b.js")]);
    let mut second = builder.build();
    assert_eq!(first.get_js_sources().len(), 1);
    assert_eq!(first.get_js_sources()[0].specifier, "internal:foo/a.js");
    assert_eq!(second.get_js_sources().len(), 1);
    assert_eq!(second.get_js_sources()[0].specifier, "internal:foo/b.js");
    assert_eq!(first.name(), "foo");
    assert_eq!(second.name(), "foo");
    assert!(first.is_enabled() && !first.is_initialized());
    assert_eq!(first.init_ops().unwrap().len(), 1);
    assert_eq!(second.init_ops().unwrap().len(), 0);
    assert_eq!(second.validate_dependencies(&[]), Ok(()));
    second.check_dependencies(&[]);
}

#[test]
fn missing_dependency_is_reported() {
    let b = ext_with_deps("b", vec!["a"]);
    assert_eq!(
        b.validate_dependencies(&[]),
        Err(ExtensionError::MissingDependency { extension: "b", dependency: "a" })
    );
    let a = ext_with_deps("a", vec![]);
    assert_eq!(b.validate_dependencies(&[a]), Ok(()));
}

#[test]
fn first_missing_dependency_is_named() {
    let c = ext_with_deps("c", vec!["a", "x", "y"]);
    let a = ext_with_deps("a", vec![]);
    assert_eq!(
        c.validate_dependencies(&[a]),
        Err(ExtensionError::MissingDependency { extension: "c", dependency: "x" })
    );
}

#[test]
fn moving_dependency_earlier_makes_list_pass() {
    let bad = vec![ext_with_deps("b", vec!["a"]), ext_with_deps("a", vec![])];
    assert_eq!(
        check_all_dependencies(&bad),
        Err(ExtensionError::MissingDependency { extension: "b", dependency: "a" })
    );
    let good = vec![ext_with_deps("a", vec![]), ext_with_deps("b", vec!["a"])];
    assert_eq!(check_all_dependencies(&good), Ok(()));
}

#[test]
fn self_dependency_fails_at_any_position() {
    let alone = ext_with_deps("a", vec!["a"]);
    assert_eq!(alone.validate_dependencies(&[]), Err(ExtensionError::SelfDependency { extension: "a" }));
    let list = vec![ext_with_deps("x", vec![]), ext_with_deps("a", vec!["x", "a"])];
    assert_eq!(check_all_dependencies(&list), Err(ExtensionError::SelfDependency { extension: "a" }));
    let missing_first = ext_with_deps("a", vec!["nope", "a"]);
    assert_eq!(
        missing_first.validate_dependencies(&[]),
        Err(ExtensionError::SelfDependency { extension: "a" })
    );
    let same_name_earlier = vec![ext_with_deps("a", vec![]), ext_with_deps("a", vec!["a"])];
    assert_eq!(
        check_all_dependencies(&same_name_earlier),
        Err(ExtensionError::SelfDependency { extension: "a" })
    );
}

#[test]
fn init_ops_twice_fails() {
    let mut ext = Extension::builder("foo").ops(vec![op("op_a")]).build();
    assert!(!ext.is_initialized());
    assert!(ext.init_ops().is_some());
    assert!(ext.is_initialized());
    let mut exts = vec![ext];
    for _ in 0..3 {
        assert_eq!(
            init_extension_ops(&mut exts),
            Err(ExtensionError::AlreadyInitialized { extension: "foo" })
        );
    }
}

#[test]
fn init_ops_masks_enabled_flags() {
    let mut on = Extension::builder("on").ops(vec![op("op_a"), op("op_b").disable()]).build();
    let ops = on.init_ops().unwrap();
    assert_eq!(ops.iter().map(|o| o.enabled).collect::<Vec<_>>(), vec![true, false]);
    let mut off = Extension::builder("off").ops(vec![op("op_c"), op("op_d").disable()]).build().disable();
    let ops = off.init_ops().unwrap();
    assert_eq!(ops.iter().map(|o| o.enabled).collect::<Vec<_>>(), vec![false, false]);
    assert_eq!(ops[0].name, "op_c");
    assert_eq!(ops[0].argc, 1);
    assert!(off.is_initialized());
}

#[test]
fn composed_ops_enabled_independent_of_position() {
    for disabled_first in [true, false] {
        let on = Extension::builder("on").ops(vec![op("op_a"), op("op_b").disable()]).build();
        let off = Extension::builder("off").ops(vec![op("op_c")]).build().enabled(false);
        let mut exts = if disabled_first { vec![off, on] } else { vec![on, off] };
        let ops = init_extension_ops(&mut exts).unwrap();
        let get = |n: &str| ops.iter().find(|o| o.name == n).unwrap().enabled;
        assert!(get("op_a"));
        assert!(!get("op_b"));
        assert!(!get("op_c"));
        assert_eq!(ops.len(), 3);
        assert!(exts.iter().all(|e| e.is_initialized()));
    }
}

#[test]
fn composition_keeps_order_of_ops() {
    let a = Extension::builder("a").ops(vec![op("op_1"), op("op_2")]).build();
    let b = Extension::builder("b").dependencies(vec!["a"]).ops(vec![op("op_3")]).build();
    let mut exts = vec![a, b];
    let ops = init_extension_ops(&mut exts).unwrap();
    assert_eq!(ops.iter().map(|o| o.name).collect::<Vec<_>>(), vec!["op_1", "op_2", "op_3"]);
}

#[test]
fn middleware_runs_once_over_all_ops() {
    let a = Extension::builder("a").ops(vec![op("op_x"), op("op_y")]).build();
    let b = Extension::builder("b")
        .ops(vec![op("op_z")])
        .middleware(Box::new(DisableNamed("op_x")))
        .build();
    let mut exts = vec![a, b];
    let ops = init_extension_ops(&mut exts).unwrap();
    assert_eq!(ops.iter().map(|o| o.enabled).collect::<Vec<_>>(), vec![false, true, true]);
    assert!(exts[1].middleware_taken());
}

#[test]
fn middleware_cannot_enable_ops_of_disabled_extension() {
    let a = Extension::builder("a").ops(vec![op("op_x")]).build().disable();
    let b = Extension::builder("b").middleware(Box::new(EnableAll)).build();
    let mut exts = vec![a, b];
    let ops = init_extension_ops(&mut exts).unwrap();
    assert_eq!(ops.len(), 1);
    assert_eq!(ops[0].name, "renamed");
    assert!(!ops[0].enabled);
}

#[test]
fn composition_error_leaves_extensions_untouched() {
    let mut exts = vec![ext_with_deps("b", vec!["a"])];
    assert_eq!(
        init_extension_ops(&mut exts),
        Err(ExtensionError::MissingDependency { extension: "b", dependency: "a" })
    );
    assert!(!exts[0].is_initialized());
    let mut again = vec![Extension::builder("a").build()];
    assert!(init_extension_ops(&mut again).is_ok());
    assert_eq!(
        init_extension_ops(&mut again),
        Err(ExtensionError::AlreadyInitialized { extension: "a" })
    );
}

#[test]
fn taken_middleware_is_not_composed_again() {
    let mut ext = Extension::builder("a").middleware(Box::new(EnableAll)).build();
    assert!(!ext.middleware_taken());
    assert!(ext.init_middleware().is_some());
    assert!(ext.middleware_taken());
    let mut exts = vec![ext];
    assert_eq!(
        init_extension_ops(&mut exts),
        Err(ExtensionError::HookAlreadyTaken { extension: "a" })
    );
    assert!(!exts[0].is_initialized());
}

#[test]
fn middleware_runs_in_list_order() {
    let a = Extension::builder("a")
        .ops(vec![op("op_x")])
        .middleware(Box::new(DisableNamed("op_x")))
        .build();
    let b = Extension::builder("b").middleware(Box::new(EnableAll)).build();
    let mut exts = vec![a, b];
    let ops = init_extension_ops(&mut exts).unwrap();
    assert_eq!(ops[0].name, "renamed");
    assert!(ops[0].enabled);
    let a = Extension::builder("a").ops(vec![op("op_x")]).middleware(Box::new(EnableAll)).build();
    let b = Extension::builder("b").middleware(Box::new(DisableNamed("renamed"))).build();
    let mut exts = vec![a, b];
    let ops = init_extension_ops(&mut exts).unwrap();
    assert!(!ops[0].enabled);
}

#[test]
fn state_hook_fills_op_state() {
    let ext = Extension::builder("a").state(Box::new(PutLibs)).build();
    let mut state = OpState::new();
    assert!(ext.init_state(&mut state).is_ok());
    assert_eq!(state.borrow("libs").unwrap(), &vec!["es5".to_string(), "deno.ns".to_string()]);
    let none = Extension::builder("b").build();
    assert!(none.init_state(&mut state).is_ok());
}

#[test]
fn op_state_put_replaces() {
    let mut state = OpState::new();
    assert!(state.borrow("k").is_none());
    state.put("k", vec!["one".to_string()]);
    state.put("other", vec![]);
    state.put("k", vec!["two".to_string()]);
    assert_eq!(state.borrow("k").unwrap(), &vec!["two".to_string()]);
    assert_eq!(state.borrow("other").unwrap().len(), 0);
}

#[test]
fn event_loop_hook_is_polled_until_taken() {
    let mut ext = Extension::builder("a").event_loop_middleware(Box::new(Pending(true))).build();
    let mut state = OpState::new();
    assert!(ext.run_event_loop_middleware(&mut state));
    assert!(!ext.event_loop_middleware_taken());
    assert!(ext.init_event_loop_middleware().is_some());
    assert!(ext.event_loop_middleware_taken());
    assert!(!ext.run_event_loop_middleware(&mut state));
    let mut exts = vec![ext];
    let mut state = OpState::new();
    match compose(&mut exts, &mut state) {
        Err(ComposeError::Extension(e)) => {
            assert_eq!(e, ExtensionError::HookAlreadyTaken { extension: "a" })
        }
        _ => panic!("expected a taken hook to be reported"),
    }
}

#[test]
fn compose_runs_every_phase() {
    let a = Extension::builder("a")
        .ops(vec![op("op_a")])
        .state(Box::new(PutLibs))
        .event_loop_middleware(Box::new(Pending(false)))
        .build();
    let b = Extension::builder("b")
        .dependencies(vec!["a"])
        .ops(vec![op("op_b")])
        .event_loop_middleware(Box::new(Pending(true)))
        .build();
    let mut exts = vec![a, b];
    let mut state = OpState::new();
    let composed = compose(&mut exts, &mut state).unwrap();
    assert_eq!(composed.ops.len(), 2);
    assert_eq!(composed.event_loop_hooks.len(), 2);
    assert!(!composed.event_loop_hooks[0].poll(&mut state));
    assert!(composed.event_loop_hooks[1].poll(&mut state));
    assert!(state.borrow("libs").is_some());
    assert!(exts.iter().all(|e| e.is_initialized()));
    assert!(!exts[1].run_event_loop_middleware(&mut state));
}

#[test]
fn compose_reports_state_hook_failure() {
    let mut exts = vec![Extension::builder("a").state(Box::new(FailingInit)).build()];
    let mut state = OpState::new();
    match compose(&mut exts, &mut state) {
        Err(ComposeError::StateInit(e)) => assert_eq!(e.to_string(), "state setup failed"),
        _ => panic!("expected a state-initialization failure"),
    }
}

#[test]
fn compose_reports_dependency_failure() {
    let mut exts = vec![ext_with_deps("a", vec!["a"])];
    let mut state = OpState::new();
    match compose(&mut exts, &mut state) {
        Err(ComposeError::Extension(e)) => {
            assert_eq!(e, ExtensionError::SelfDependency { extension: "a" })
        }
        _ => panic!("expected a dependency failure"),
    }
}

#[test]
fn op_decl_enabled_and_disable() {
    let o = op("op_a");
    assert!(!o.disable().enabled);
    assert!(o.disable().enabled(true).enabled);
    assert_eq!(o.disable().name, "op_a");
    assert_eq!(o.disable().v8_fn_ptr, 7);
}

#[test]
fn extension_enabled_and_disable() {
    let ext = Extension::builder("a").build();
    assert!(ext.is_enabled());
    let ext = ext.disable();
    assert!(!ext.is_enabled());
    let ext = ext.enabled(true);
    assert!(ext.is_enabled());
    assert_eq!(ext.name(), "a");
}

#[test]
fn state_hooks_run_in_order_on_shared_state() {
    let a = Extension::builder("a").state(Box::new(Append("a"))).build();
    let b = Extension::builder("b").build();
    let c = Extension::builder("c").state(Box::new(Append("c"))).build();
    let mut state = OpState::new();
    assert!(deno_ext::init_extension_state(&[a, b, c], &mut state).is_ok());
    assert_eq!(state.borrow("order").unwrap(), &vec!["a".to_string(), "c".to_string()]);
}

#[test]
fn failing_state_hook_stops_the_run() {
    let a = Extension::builder("a").state(Box::new(FailingInit)).build();
    let b = Extension::builder("b").state(Box::new(PutLibs)).build();
    let mut state = OpState::new();
    assert!(deno_ext::init_extension_state(&[a, b], &mut state).is_err());
    assert!(state.borrow("libs").is_none());
}

#[test]
fn poll_result_is_passed_on() {
    let ext = Extension::builder("a").event_loop_middleware(Box::new(Pending(false))).build();
    let mut state = OpState::new();
    assert!(!ext.run_event_loop_middleware(&mut state));
}
