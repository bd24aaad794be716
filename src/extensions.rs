use vstd::prelude::*;

use crate::op_state::{OpState, StateView};

verus! {

/// Declares anyhow::Error, the error that state-initialization hooks report.
/// Its values are only handed on, never inspected.
#[verifier::external_type_specification]
#[verifier::external_body]
pub struct ExAnyhowError(anyhow::Error);

/// A namespaced script source contributed by an extension.
#[derive(Clone, Debug, PartialEq, Eq)]
pub struct ExtensionFileSource {
    pub specifier: String,
    pub code: &'static str,
}

/// Declaration of one native operation callable from script code.
#[derive(Clone, Copy, Debug, PartialEq, Eq)]
pub struct OpDecl {
    pub name: &'static str,
    /// Index of the op's native callback in the engine's callback table.
    pub v8_fn_ptr: usize,
    pub enabled: bool,
    pub is_async: bool,
    pub is_unstable: bool,
    /// Argument count, used as a dispatch hint by the engine.
    pub argc: usize,
    pub is_v8: bool,
    /// Index of a specialised fast-path callback, if the op has one.
    pub fast_fn: Option<usize>,
}

/// The op `op` with its enabled flag replaced by `enabled`.
pub open spec fn with_enabled(op: OpDecl, enabled: bool) -> OpDecl {
    OpDecl { enabled, ..op }
}

impl OpDecl {
    pub fn enabled(self, enabled: bool) -> (r: Self)
        ensures
            r == with_enabled(self, enabled),
    {
        OpDecl { enabled, ..self }
    }

    pub fn disable(self) -> (r: Self)
        ensures
            r == with_enabled(self, false),
    {
        self.enabled(false)
    }
}

/// Sets up an extension's part of the shared op state at engine startup.
pub trait OpStateInit {
    /// What one run of the hook may do: turn the state `before` into `after`,
    /// reporting success as `ok`. A hook may say this of itself; by default it
    /// says nothing.
    open spec fn inited(&self, before: StateView, after: StateView, ok: bool) -> bool {
        true
    }

    fn init(&self, state: &mut OpState) -> (r: Result<(), anyhow::Error>)
        ensures
            self.inited(old(state)@, final(state)@, r is Ok),
    ;
}

/// Transforms every op declaration of a composition once, before the ops are
/// registered.
pub trait OpMiddleware {
    /// What one application may give: `out` for the op `op`. A middleware may
    /// say this of itself; by default it says nothing.
    open spec fn applied(&self, op: OpDecl, out: OpDecl) -> bool {
        true
    }

    fn apply(&self, op: OpDecl) -> (r: OpDecl)
        ensures
            self.applied(op, r),
    ;
}

/// Per-turn work of an extension; reports whether work is still pending.
pub trait OpEventLoopHook {
    /// What one poll may do: turn the state `before` into `after`, reporting
    /// `pending` work. A hook may say this of itself; by default it says
    /// nothing.
    open spec fn polled(&self, before: StateView, after: StateView, pending: bool) -> bool {
        true
    }

    fn poll(&self, state: &mut OpState) -> (r: bool)
        ensures
            self.polled(old(state)@, final(state)@, r),
    ;
}

/// Why a composition of extensions was rejected.
#[derive(Clone, Copy, Debug, PartialEq, Eq)]
pub enum ExtensionError {
    /// `extension` names a dependency that no earlier extension provides.
    MissingDependency { extension: &'static str, dependency: &'static str },
    /// `extension` depends on itself, or on another extension of the same name.
    SelfDependency { extension: &'static str },
    /// A single-use hook of `extension` was already taken out.
    HookAlreadyTaken { extension: &'static str },
    /// The ops of `extension` were already initialized once.
    AlreadyInitialized { extension: &'static str },
}

/// The extension-qualified form of a file specifier.
pub open spec fn namespaced(extension: Seq<char>, specifier: Seq<char>) -> Seq<char> {
    "internal:"@ + extension + "/"@ + specifier
}

/// Two extensions of different names never qualify the same file specifier
/// to the same final specifier.
pub proof fn lemma_namespaced_distinct(a: Seq<char>, b: Seq<char>, specifier: Seq<char>)
    requires
        a != b,
    ensures
        namespaced(a, specifier) != namespaced(b, specifier),
{
    let p = "internal:"@;
    let x = namespaced(a, specifier);
    let y = namespaced(b, specifier);
    if x == y {
        assert(x.len() == p.len() + a.len() + "/"@.len() + specifier.len());
        assert(y.len() == p.len() + b.len() + "/"@.len() + specifier.len());
        assert(a =~= x.subrange(p.len() as int, (p.len() + a.len()) as int));
        assert(b =~= y.subrange(p.len() as int, (p.len() + b.len()) as int));
    }
}

/// `files` as stored by the extension named `extension`: each specifier qualified.
pub open spec fn namespaced_files(
    extension: Seq<char>,
    before: Seq<ExtensionFileSource>,
    added: Seq<ExtensionFileSource>,
    after: Seq<ExtensionFileSource>,
) -> bool {
    &&& after.len() == before.len() + added.len()
    &&& forall|i: int| 0 <= i < before.len() ==> #[trigger] after[i] == before[i]
    &&& forall|i: int|
        0 <= i < added.len() ==> {
            &&& (#[trigger] after[before.len() + i]).specifier@ == namespaced(
                extension,
                added[i].specifier@,
            )
            &&& after[before.len() + i].code == added[i].code
        }
}

/// The ops of an extension as they are registered: each enabled only where
/// both the extension and the op are.
pub open spec fn masked_ops(ops: Seq<OpDecl>, extension_enabled: bool) -> Seq<OpDecl> {
    ops.map_values(|o: OpDecl| with_enabled(o, extension_enabled && o.enabled))
}

pub open spec fn str_views(s: Seq<&'static str>) -> Seq<Seq<char>> {
    s.map_values(|d: &'static str| d@)
}

/// Index of the first name in `deps` that `known` does not hold (`deps.len()` if none).
pub open spec fn first_missing(deps: Seq<Seq<char>>, known: Seq<Seq<char>>) -> int
    decreases deps.len(),
{
    if deps.len() == 0 {
        0
    } else if !known.contains(deps[0]) {
        0
    } else {
        1 + first_missing(deps.drop_first(), known)
    }
}

/// Every dependency of `name` is among `known`, and none is `name` itself.
pub open spec fn dependencies_met(
    name: Seq<char>,
    deps: Seq<Seq<char>>,
    known: Seq<Seq<char>>,
) -> bool {
    &&& !deps.contains(name)
    &&& forall|i: int| 0 <= i < deps.len() ==> known.contains(#[trigger] deps[i])
}

/// `first_missing` is the index of a dependency that `known` lacks, after
/// which all are known.
pub proof fn lemma_first_missing(deps: Seq<Seq<char>>, known: Seq<Seq<char>>, j: int)
    requires
        0 <= j <= deps.len(),
        forall|k: int| 0 <= k < j ==> known.contains(#[trigger] deps[k]),
        j == deps.len() || !known.contains(deps[j]),
    ensures
        first_missing(deps, known) == j,
    decreases deps.len(),
{
    if deps.len() > 0 && j > 0 {
        assert(known.contains(deps[0]));
        assert forall|k: int| 0 <= k < j - 1 implies known.contains(
            #[trigger] deps.drop_first()[k],
        ) by {
            assert(deps.drop_first()[k] == deps[k + 1]);
        }
        if j < deps.len() {
            assert(deps.drop_first()[j - 1] == deps[j]);
        }
        lemma_first_missing(deps.drop_first(), known, j - 1);
    }
}

/// `first_missing` is in range, names an unknown dependency when below the
/// length, and every dependency before it is known.
pub proof fn lemma_first_missing_bounds(deps: Seq<Seq<char>>, known: Seq<Seq<char>>)
    ensures
        0 <= first_missing(deps, known) <= deps.len(),
        first_missing(deps, known) < deps.len() ==> !known.contains(
            deps[first_missing(deps, known)],
        ),
        forall|k: int| 0 <= k < first_missing(deps, known) ==> known.contains(#[trigger] deps[k]),
    decreases deps.len(),
{
    if deps.len() > 0 && known.contains(deps[0]) {
        lemma_first_missing_bounds(deps.drop_first(), known);
        let f = first_missing(deps.drop_first(), known);
        assert forall|k: int| 0 <= k < first_missing(deps, known) implies known.contains(
            #[trigger] deps[k],
        ) by {
            if k > 0 {
                assert(deps[k] == deps.drop_first()[k - 1]);
            }
        }
        if f < deps.drop_first().len() {
            assert(deps[f + 1] == deps.drop_first()[f]);
        }
    }
}

/// The names of `exts`, in order.
pub open spec fn extension_names(exts: Seq<Extension>) -> Seq<Seq<char>> {
    exts.map_values(|e: Extension| e.spec_name()@)
}

/// The outcome of checking the dependencies `deps` of the extension `name`
/// against the names `known` of the extensions before it: a dependency on
/// itself is reported first, then the first dependency not among `known`.
pub open spec fn dependency_check(
    name: &'static str,
    deps: Seq<&'static str>,
    known: Seq<Seq<char>>,
) -> Result<(), ExtensionError> {
    let d = str_views(deps);
    if d.contains(name@) {
        Err(ExtensionError::SelfDependency { extension: name })
    } else if first_missing(d, known) < d.len() {
        Err(ExtensionError::MissingDependency { extension: name, dependency: deps[first_missing(d, known)] })
    } else {
        Ok(())
    }
}

/// The dependency check passes exactly when every dependency is known and
/// none names the extension itself.
pub proof fn lemma_dependency_check_ok(
    name: &'static str,
    deps: Seq<&'static str>,
    known: Seq<Seq<char>>,
)
    ensures
        dependency_check(name, deps, known) is Ok <==> dependencies_met(
            name@,
            str_views(deps),
            known,
        ),
{
    let d = str_views(deps);
    lemma_first_missing_bounds(d, known);
    if dependencies_met(name@, d, known) && first_missing(d, known) < d.len() {
        assert(known.contains(d[first_missing(d, known)]));
    }
}

/// Relation between an extension before and after `init_ops`, and its result.
pub open spec fn init_ops_post(before: Extension, after: Extension, r: Option<Vec<OpDecl>>) -> bool {
    &&& after.spec_initialized()
    &&& after.spec_ops() is None
    &&& after.same_bundle(&before)
    &&& after.same_hooks(&before)
    &&& match before.spec_ops() {
        None => r is None,
        Some(ops) => r matches Some(v) && v@ == masked_ops(ops, before.spec_enabled()),
    }
}

/// Once its ops were initialized, an extension never admits a second
/// initialization: every later call fails the precondition of `init_ops`.
pub proof fn lemma_init_ops_twice_fails(e0: Extension, e1: Extension, r1: Option<Vec<OpDecl>>)
    requires
        init_ops_post(e0, e1, r1),
    ensures
        e1.spec_initialized(),
{
}

/// Whether `a` and `b` are spelled the same.
pub(crate) fn same_name(a: &str, b: &str) -> (r: bool)
    ensures
        r == (a@ == b@),
{
    let x = a.to_owned();
    let y = b.to_owned();
    x == y
}

/// Whether one of the first `bound` extensions of `exts` is named `dep`.
fn name_known(dep: &str, exts: &[Extension], bound: usize) -> (r: bool)
    requires
        bound <= exts@.len(),
    ensures
        r == extension_names(exts@.take(bound as int)).contains(dep@),
{
    let ghost known = extension_names(exts@.take(bound as int));
    let mut j: usize = 0;
    while j < bound
        invariant
            bound <= exts@.len(),
            0 <= j <= bound,
            known == extension_names(exts@.take(bound as int)),
            forall|k: int| 0 <= k < j ==> known[k] != dep@,
        decreases bound - j,
    {
        if same_name(dep, exts[j].name) {
            assert(known[j as int] == dep@);
            return true;
        }
        j = j + 1;
    }
    proof {
        if known.contains(dep@) {
            let k = choose|k: int| 0 <= k < known.len() && known[k] == dep@;
            assert(known[k] != dep@);
        }
    }
    false
}

/// A bundle of ops, scripts and lifecycle hooks that is composed into an engine.
pub struct Extension {
    js_files: Vec<ExtensionFileSource>,
    esm_files: Vec<ExtensionFileSource>,
    ops: Option<Vec<OpDecl>>,
    opstate_fn: Option<Box<dyn OpStateInit>>,
    middleware_fn: Option<Box<dyn OpMiddleware>>,
    event_loop_middleware: Option<Box<dyn OpEventLoopHook>>,
    middleware_taken: bool,
    event_loop_taken: bool,
    initialized: bool,
    enabled: bool,
    name: &'static str,
    deps: Vec<&'static str>,
}

impl Extension {
    pub closed spec fn spec_name(&self) -> &'static str {
        self.name
    }

    pub closed spec fn spec_deps(&self) -> Seq<&'static str> {
        self.deps@
    }

    pub closed spec fn spec_js(&self) -> Seq<ExtensionFileSource> {
        self.js_files@
    }

    pub closed spec fn spec_esm(&self) -> Seq<ExtensionFileSource> {
        self.esm_files@
    }

    /// The ops still held; `None` once they were taken at initialization.
    pub closed spec fn spec_ops(&self) -> Option<Seq<OpDecl>> {
        match self.ops {
            Some(v) => Some(v@),
            None => None,
        }
    }

    pub closed spec fn spec_enabled(&self) -> bool {
        self.enabled
    }

    pub closed spec fn spec_initialized(&self) -> bool {
        self.initialized
    }

    pub closed spec fn spec_state_init(&self) -> Option<Box<dyn OpStateInit>> {
        self.opstate_fn
    }

    pub closed spec fn spec_middleware(&self) -> Option<Box<dyn OpMiddleware>> {
        self.middleware_fn
    }

    pub closed spec fn spec_event_loop_hook(&self) -> Option<Box<dyn OpEventLoopHook>> {
        self.event_loop_middleware
    }

    /// Whether the middleware slot was emptied by taking its hook.
    pub closed spec fn spec_middleware_taken(&self) -> bool {
        self.middleware_taken
    }

    /// Whether the event-loop slot was emptied by taking its hook.
    pub closed spec fn spec_event_loop_taken(&self) -> bool {
        self.event_loop_taken
    }

    /// The names of the dependencies, as character sequences.
    pub open spec fn dep_names(&self) -> Seq<Seq<char>> {
        str_views(self.spec_deps())
    }

    /// `self` and `other` agree on everything but the ops, the initialized
    /// flag and the hook slots.
    pub open spec fn same_bundle(&self, other: &Extension) -> bool {
        &&& self.spec_name() == other.spec_name()
        &&& self.spec_deps() == other.spec_deps()
        &&& self.spec_js() == other.spec_js()
        &&& self.spec_esm() == other.spec_esm()
        &&& self.spec_enabled() == other.spec_enabled()
    }

    /// `self` and `other` hold the same hooks, taken out alike.
    pub open spec fn same_hooks(&self, other: &Extension) -> bool {
        &&& self.spec_state_init() == other.spec_state_init()
        &&& self.spec_middleware() == other.spec_middleware()
        &&& self.spec_event_loop_hook() == other.spec_event_loop_hook()
        &&& self.spec_middleware_taken() == other.spec_middleware_taken()
        &&& self.spec_event_loop_taken() == other.spec_event_loop_taken()
    }

    pub fn builder(name: &'static str) -> (r: ExtensionBuilder)
        ensures
            r.spec_name() == name,
            r.spec_js().len() == 0,
            r.spec_esm().len() == 0,
            r.spec_ops().len() == 0,
            r.spec_deps().len() == 0,
            r.spec_state_init() is None,
            r.spec_middleware() is None,
            r.spec_event_loop_hook() is None,
    {
        ExtensionBuilder {
            js: Vec::new(),
            esm: Vec::new(),
            ops: Vec::new(),
            state: None,
            middleware: None,
            event_loop_middleware: None,
            name,
            deps: Vec::new(),
        }
    }

    /// Asserts that this extension's dependencies were loaded before it. A
    /// dependency on its own name, or on a name that none of `previous_exts`
    /// carries, is a defect of the composition: callers rule it out first,
    /// for instance with [`Extension::validate_dependencies`].
    pub fn check_dependencies(&self, previous_exts: &[Extension])
        requires
            dependencies_met(self.spec_name()@, self.dep_names(), extension_names(previous_exts@)),
    {
        let checked = self.validate_dependencies(previous_exts);
        proof {
            lemma_dependency_check_ok(self.spec_name(), self.spec_deps(), extension_names(previous_exts@));
        }
        assert(checked is Ok);
    }

    /// Checks this extension's dependencies against the extensions loaded
    /// before it: fails on a dependency on its own name, else on the first
    /// dependency that none of `previous_exts` provides.
    pub fn validate_dependencies(&self, previous_exts: &[Extension]) -> (r: Result<
        (),
        ExtensionError,
    >)
        ensures
            r == dependency_check(
                self.spec_name(),
                self.spec_deps(),
                extension_names(previous_exts@),
            ),
    {
        proof {
            assert(previous_exts@.take(previous_exts@.len() as int) =~= previous_exts@);
        }
        self.check_dependencies_among(previous_exts, previous_exts.len())
    }

    /// [`Extension::validate_dependencies`] against the first `bound` of `exts`.
    pub(crate) fn check_dependencies_among(&self, exts: &[Extension], bound: usize) -> (r: Result<
        (),
        ExtensionError,
    >)
        requires
            bound <= exts@.len(),
        ensures
            r == dependency_check(
                self.spec_name(),
                self.spec_deps(),
                extension_names(exts@.take(bound as int)),
            ),
    {
        let ghost d = self.dep_names();
        let ghost known = extension_names(exts@.take(bound as int));
        let mut i: usize = 0;
        while i < self.deps.len()
            invariant
                0 <= i <= self.deps@.len(),
                d == self.dep_names(),
                forall|k: int| 0 <= k < i ==> d[k] != self.name@,
            decreases self.deps@.len() - i,
        {
            if same_name(self.deps[i], self.name) {
                assert(d[i as int] == self.name@);
                return Err(ExtensionError::SelfDependency { extension: self.name });
            }
            i = i + 1;
        }
        proof {
            if d.contains(self.name@) {
                let k = choose|k: int| 0 <= k < d.len() && d[k] == self.name@;
                assert(d[k] != self.name@);
            }
        }
        let mut i: usize = 0;
        while i < self.deps.len()
            invariant
                0 <= i <= self.deps@.len(),
                d == self.dep_names(),
                bound <= exts@.len(),
                known == extension_names(exts@.take(bound as int)),
                !d.contains(self.name@),
                forall|k: int| 0 <= k < i ==> known.contains(#[trigger] d[k]),
            decreases self.deps@.len() - i,
        {
            if !name_known(self.deps[i], exts, bound) {
                proof {
                    lemma_first_missing(d, known, i as int);
                }
                return Err(
                    ExtensionError::MissingDependency { extension: self.name, dependency: self.deps[i] },
                );
            }
            i = i + 1;
        }
        proof {
            lemma_first_missing(d, known, i as int);
        }
        Ok(())
    }

    pub fn name(&self) -> (r: &'static str)
        ensures
            r == self.spec_name(),
    {
        self.name
    }

    pub fn is_enabled(&self) -> (r: bool)
        ensures
            r == self.spec_enabled(),
    {
        self.enabled
    }

    pub fn is_initialized(&self) -> (r: bool)
        ensures
            r == self.spec_initialized(),
    {
        self.initialized
    }

    /// The bootstrap scripts, in the order they were added.
    pub fn get_js_sources(&self) -> (r: &[ExtensionFileSource])
        ensures
            r@ == self.spec_js(),
    {
        self.js_files.as_slice()
    }

    /// The module sources, in the order they were added.
    pub fn get_esm_sources(&self) -> (r: &[ExtensionFileSource])
        ensures
            r@ == self.spec_esm(),
    {
        self.esm_files.as_slice()
    }

    /// Takes the ops for registration, each enabled only where both the
    /// extension and the op are, and marks the extension initialized. A
    /// second initialization is a defect that callers rule out.
    pub fn init_ops(&mut self) -> (r: Option<Vec<OpDecl>>)
        requires
            !old(self).spec_initialized(),
        ensures
            init_ops_post(*old(self), *final(self), r),
    {
        self.initialized = true;
        let taken = self.ops.take();
        match taken {
            None => None,
            Some(ops) => {
                let mut out: Vec<OpDecl> = Vec::new();
                let mut i: usize = 0;
                while i < ops.len()
                    invariant
                        0 <= i <= ops@.len(),
                        out@ == masked_ops(ops@, self.enabled).take(i as int),
                    decreases ops@.len() - i,
                {
                    let op = ops[i];
                    out.push(op.enabled(self.enabled && op.enabled));
                    proof {
                        assert(out@ =~= masked_ops(ops@, self.enabled).take(i + 1));
                    }
                    i = i + 1;
                }
                proof {
                    assert(out@ =~= masked_ops(ops@, self.enabled));
                }
                Some(out)
            },
        }
    }

    /// Runs the state-initialization hook, if there is one, on `state`.
    pub fn init_state(&self, state: &mut OpState) -> (r: Result<(), anyhow::Error>)
        ensures
            self.spec_state_init() is None ==> r is Ok && final(state)@ == old(state)@,
            self.spec_state_init() matches Some(f) ==> f.inited(
                old(state)@,
                final(state)@,
                r is Ok,
            ),
    {
        match &self.opstate_fn {
            Some(ofn) => ofn.init(state),
            None => Ok(()),
        }
    }

    /// Takes the op middleware out. Taking it a second time is a defect that
    /// callers rule out.
    pub fn init_middleware(&mut self) -> (r: Option<Box<dyn OpMiddleware>>)
        requires
            !old(self).spec_middleware_taken(),
        ensures
            r == old(self).spec_middleware(),
            final(self).spec_middleware() is None,
            final(self).spec_middleware_taken(),
            final(self).same_bundle(old(self)),
            final(self).spec_ops() == old(self).spec_ops(),
            final(self).spec_initialized() == old(self).spec_initialized(),
            final(self).spec_state_init() == old(self).spec_state_init(),
            final(self).spec_event_loop_hook() == old(self).spec_event_loop_hook(),
            final(self).spec_event_loop_taken() == old(self).spec_event_loop_taken(),
    {
        self.middleware_taken = true;
        self.middleware_fn.take()
    }

    /// Takes the event-loop hook out. Taking it a second time is a defect
    /// that callers rule out.
    pub fn init_event_loop_middleware(&mut self) -> (r: Option<Box<dyn OpEventLoopHook>>)
        requires
            !old(self).spec_event_loop_taken(),
        ensures
            r == old(self).spec_event_loop_hook(),
            final(self).spec_event_loop_hook() is None,
            final(self).spec_event_loop_taken(),
            final(self).same_bundle(old(self)),
            final(self).spec_ops() == old(self).spec_ops(),
            final(self).spec_initialized() == old(self).spec_initialized(),
            final(self).spec_state_init() == old(self).spec_state_init(),
            final(self).spec_middleware() == old(self).spec_middleware(),
            final(self).spec_middleware_taken() == old(self).spec_middleware_taken(),
    {
        self.event_loop_taken = true;
        self.event_loop_middleware.take()
    }

    /// Whether the middleware was taken out already.
    pub fn middleware_taken(&self) -> (r: bool)
        ensures
            r == self.spec_middleware_taken(),
    {
        self.middleware_taken
    }

    /// Whether the event-loop hook was taken out already.
    pub fn event_loop_middleware_taken(&self) -> (r: bool)
        ensures
            r == self.spec_event_loop_taken(),
    {
        self.event_loop_taken
    }

    /// Polls the event-loop hook still held, if any; without one there is no
    /// pending work.
    pub fn run_event_loop_middleware(&self, op_state: &mut OpState) -> (r: bool)
        ensures
            self.spec_event_loop_hook() is None ==> !r && final(op_state)@ == old(op_state)@,
            self.spec_event_loop_hook() matches Some(f) ==> f.polled(
                old(op_state)@,
                final(op_state)@,
                r,
            ),
    {
        match &self.event_loop_middleware {
            Some(f) => f.poll(op_state),
            None => false,
        }
    }

    /// The same extension, enabled or disabled as `enabled` says.
    pub fn enabled(self, enabled: bool) -> (r: Self)
        ensures
            r.spec_enabled() == enabled,
            r.spec_name() == self.spec_name(),
            r.spec_deps() == self.spec_deps(),
            r.spec_js() == self.spec_js(),
            r.spec_esm() == self.spec_esm(),
            r.spec_ops() == self.spec_ops(),
            r.spec_initialized() == self.spec_initialized(),
            r.same_hooks(&self),
    {
        Extension { enabled, ..self }
    }

    /// The same extension, disabled.
    pub fn disable(self) -> (r: Self)
        ensures
            !r.spec_enabled(),
            r.spec_name() == self.spec_name(),
            r.spec_deps() == self.spec_deps(),
            r.spec_js() == self.spec_js(),
            r.spec_esm() == self.spec_esm(),
            r.spec_ops() == self.spec_ops(),
            r.spec_initialized() == self.spec_initialized(),
            r.same_hooks(&self),
    {
        self.enabled(false)
    }
}

/// Accumulates the parts of an extension; [`ExtensionBuilder::build`] moves them out.
pub struct ExtensionBuilder {
    js: Vec<ExtensionFileSource>,
    esm: Vec<ExtensionFileSource>,
    ops: Vec<OpDecl>,
    state: Option<Box<dyn OpStateInit>>,
    middleware: Option<Box<dyn OpMiddleware>>,
    event_loop_middleware: Option<Box<dyn OpEventLoopHook>>,
    name: &'static str,
    deps: Vec<&'static str>,
}

impl ExtensionBuilder {
    pub closed spec fn spec_name(&self) -> &'static str {
        self.name
    }

    pub closed spec fn spec_deps(&self) -> Seq<&'static str> {
        self.deps@
    }

    pub closed spec fn spec_js(&self) -> Seq<ExtensionFileSource> {
        self.js@
    }

    pub closed spec fn spec_esm(&self) -> Seq<ExtensionFileSource> {
        self.esm@
    }

    pub closed spec fn spec_ops(&self) -> Seq<OpDecl> {
        self.ops@
    }

    pub closed spec fn spec_state_init(&self) -> Option<Box<dyn OpStateInit>> {
        self.state
    }

    pub closed spec fn spec_middleware(&self) -> Option<Box<dyn OpMiddleware>> {
        self.middleware
    }

    pub closed spec fn spec_event_loop_hook(&self) -> Option<Box<dyn OpEventLoopHook>> {
        self.event_loop_middleware
    }

    /// `self` and `other` hold the same name, lists and hooks, except perhaps
    /// for the one that `part` names.
    pub open spec fn same_except(&self, other: &ExtensionBuilder, part: BuilderPart) -> bool {
        &&& self.spec_name() == other.spec_name()
        &&& (part != BuilderPart::Deps ==> self.spec_deps() == other.spec_deps())
        &&& (part != BuilderPart::Js ==> self.spec_js() == other.spec_js())
        &&& (part != BuilderPart::Esm ==> self.spec_esm() == other.spec_esm())
        &&& (part != BuilderPart::Ops ==> self.spec_ops() == other.spec_ops())
        &&& (part != BuilderPart::State ==> self.spec_state_init() == other.spec_state_init())
        &&& (part != BuilderPart::Middleware ==> self.spec_middleware() == other.spec_middleware())
        &&& (part != BuilderPart::EventLoop ==> self.spec_event_loop_hook()
            == other.spec_event_loop_hook())
    }

    /// Appends dependency names.
    pub fn dependencies(&mut self, dependencies: Vec<&'static str>) -> (r: &mut Self)
        ensures
            r.spec_deps() == old(self).spec_deps() + dependencies@,
            r.same_except(old(self), BuilderPart::Deps),
            *final(self) == *final(r),
    {
        let mut dependencies = dependencies;
        self.deps.append(&mut dependencies);
        self
    }

    /// Appends bootstrap scripts, each specifier qualified by the extension name.
    pub fn js(&mut self, js_files: Vec<ExtensionFileSource>) -> (r: &mut Self)
        ensures
            namespaced_files(old(self).spec_name()@, old(self).spec_js(), js_files@, r.spec_js()),
            r.same_except(old(self), BuilderPart::Js),
            *final(self) == *final(r),
    {
        push_namespaced(self.name, &mut self.js, &js_files);
        self
    }

    /// Appends module sources, each specifier qualified by the extension name.
    pub fn esm(&mut self, esm_files: Vec<ExtensionFileSource>) -> (r: &mut Self)
        ensures
            namespaced_files(old(self).spec_name()@, old(self).spec_esm(), esm_files@, r.spec_esm()),
            r.same_except(old(self), BuilderPart::Esm),
            *final(self) == *final(r),
    {
        push_namespaced(self.name, &mut self.esm, &esm_files);
        self
    }

    /// Appends op declarations.
    pub fn ops(&mut self, ops: Vec<OpDecl>) -> (r: &mut Self)
        ensures
            r.spec_ops() == old(self).spec_ops() + ops@,
            r.same_except(old(self), BuilderPart::Ops),
            *final(self) == *final(r),
    {
        let mut ops = ops;
        self.ops.append(&mut ops);
        self
    }

    /// Sets the state-initialization hook, replacing an earlier one.
    pub fn state(&mut self, opstate_fn: Box<dyn OpStateInit>) -> (r: &mut Self)
        ensures
            r.spec_state_init() == Some(opstate_fn),
            r.same_except(old(self), BuilderPart::State),
            *final(self) == *final(r),
    {
        let slot = Some(opstate_fn);
        self.state = slot;
        self
    }

    /// Sets the op middleware, replacing an earlier one.
    pub fn middleware(&mut self, middleware_fn: Box<dyn OpMiddleware>) -> (r: &mut Self)
        ensures
            r.spec_middleware() == Some(middleware_fn),
            r.same_except(old(self), BuilderPart::Middleware),
            *final(self) == *final(r),
    {
        let slot = Some(middleware_fn);
        self.middleware = slot;
        self
    }

    /// Sets the event-loop hook, replacing an earlier one.
    pub fn event_loop_middleware(&mut self, middleware_fn: Box<dyn OpEventLoopHook>) -> (r:
        &mut Self)
        ensures
            r.spec_event_loop_hook() == Some(middleware_fn),
            r.same_except(old(self), BuilderPart::EventLoop),
            *final(self) == *final(r),
    {
        let slot = Some(middleware_fn);
        self.event_loop_middleware = slot;
        self
    }

    /// Moves everything gathered so far into a new, enabled, uninitialized
    /// extension, and leaves the builder empty under the same name.
    pub fn build(&mut self) -> (r: Extension)
        ensures
            r.spec_name() == old(self).spec_name(),
            r.spec_deps() == old(self).spec_deps(),
            r.spec_js() == old(self).spec_js(),
            r.spec_esm() == old(self).spec_esm(),
            r.spec_ops() == Some(old(self).spec_ops()),
            r.spec_state_init() == old(self).spec_state_init(),
            r.spec_middleware() == old(self).spec_middleware(),
            r.spec_event_loop_hook() == old(self).spec_event_loop_hook(),
            r.spec_enabled(),
            !r.spec_initialized(),
            !r.spec_middleware_taken(),
            !r.spec_event_loop_taken(),
            final(self).spec_name() == old(self).spec_name(),
            final(self).spec_deps().len() == 0,
            final(self).spec_js().len() == 0,
            final(self).spec_esm().len() == 0,
            final(self).spec_ops().len() == 0,
            final(self).spec_state_init() is None,
            final(self).spec_middleware() is None,
            final(self).spec_event_loop_hook() is None,
    {
        let mut js_files: Vec<ExtensionFileSource> = Vec::new();
        std::mem::swap(&mut js_files, &mut self.js);
        let mut esm_files: Vec<ExtensionFileSource> = Vec::new();
        std::mem::swap(&mut esm_files, &mut self.esm);
        let mut ops: Vec<OpDecl> = Vec::new();
        std::mem::swap(&mut ops, &mut self.ops);
        let mut deps: Vec<&'static str> = Vec::new();
        std::mem::swap(&mut deps, &mut self.deps);
        Extension {
            js_files,
            esm_files,
            ops: Some(ops),
            opstate_fn: self.state.take(),
            middleware_fn: self.middleware.take(),
            event_loop_middleware: self.event_loop_middleware.take(),
            middleware_taken: false,
            event_loop_taken: false,
            initialized: false,
            enabled: true,
            name: self.name,
            deps,
        }
    }
}

/// `"internal:<extension>/<specifier>"`.
fn namespace_specifier(extension: &str, specifier: &str) -> (r: String)
    ensures
        r@ == namespaced(extension@, specifier@),
{
    let mut s = String::from_str("internal:");
    s.append(extension);
    s.append("/");
    s.append(specifier);
    s
}

/// Appends `files` to `dst`, each specifier qualified by `extension`.
fn push_namespaced(
    extension: &'static str,
    dst: &mut Vec<ExtensionFileSource>,
    files: &Vec<ExtensionFileSource>,
)
    ensures
        namespaced_files(extension@, old(dst)@, files@, final(dst)@),
{
    let ghost before = dst@;
    let mut i: usize = 0;
    while i < files.len()
        invariant
            0 <= i <= files@.len(),
            dst@.len() == before.len() + i,
            forall|k: int| 0 <= k < before.len() ==> #[trigger] dst@[k] == before[k],
            forall|k: int|
                0 <= k < i ==> {
                    &&& (#[trigger] dst@[before.len() + k]).specifier@ == namespaced(
                        extension@,
                        files@[k].specifier@,
                    )
                    &&& dst@[before.len() + k].code == files@[k].code
                },
        decreases files@.len() - i,
    {
        let file = &files[i];
        let source = ExtensionFileSource {
            specifier: namespace_specifier(extension, &file.specifier),
            code: file.code,
        };
        dst.push(source);
        i = i + 1;
    }
}

/// The parts of an [`ExtensionBuilder`] that one builder call changes.
#[derive(PartialEq, Eq, Structural, Clone, Copy, Debug)]
pub enum BuilderPart {
    Deps,
    Js,
    Esm,
    Ops,
    State,
    Middleware,
    EventLoop,
}

} // verus!
