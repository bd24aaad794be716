use vstd::prelude::*;

use crate::extensions::{
    dependencies_met, dependency_check, extension_names, lemma_dependency_check_ok, masked_ops,
    with_enabled, Extension, ExtensionError, OpDecl, OpEventLoopHook, OpMiddleware, OpStateInit,
};
use crate::op_state::{OpState, StateView};

verus! {

/// The outcome of validating the dependencies of `exts[i..]`, each against
/// the extensions before it: the error of the first extension that fails.
pub open spec fn composition_check(exts: Seq<Extension>, i: int) -> Result<(), ExtensionError>
    decreases exts.len() - i,
{
    if i < 0 || i >= exts.len() {
        Ok(())
    } else {
        let c = dependency_check(
            exts[i].spec_name(),
            exts[i].spec_deps(),
            extension_names(exts.take(i)),
        );
        if c is Err {
            c
        } else {
            composition_check(exts, i + 1)
        }
    }
}

/// Every extension's dependencies are met by the extensions before it.
pub open spec fn composition_valid(exts: Seq<Extension>) -> bool {
    forall|i: int|
        0 <= i < exts.len() ==> dependencies_met(
            #[trigger] exts[i].spec_name()@,
            exts[i].dep_names(),
            extension_names(exts.take(i)),
        )
}

proof fn lemma_composition_check_ok(exts: Seq<Extension>, i: int)
    requires
        0 <= i <= exts.len(),
    ensures
        composition_check(exts, i) is Ok <==> forall|j: int|
            i <= j < exts.len() ==> dependencies_met(
                #[trigger] exts[j].spec_name()@,
                exts[j].dep_names(),
                extension_names(exts.take(j)),
            ),
    decreases exts.len() - i,
{
    if i < exts.len() {
        lemma_dependency_check_ok(
            exts[i].spec_name(),
            exts[i].spec_deps(),
            extension_names(exts.take(i)),
        );
        lemma_composition_check_ok(exts, i + 1);
    }
}

/// Validation of a composition succeeds exactly when it is valid.
pub proof fn lemma_composition_check_valid(exts: Seq<Extension>)
    ensures
        composition_check(exts, 0) is Ok <==> composition_valid(exts),
{
    lemma_composition_check_ok(exts, 0);
}

/// Validates the dependencies of each extension against those before it in
/// the caller's order, and reports the first failure.
pub fn check_all_dependencies(exts: &[Extension]) -> (r: Result<(), ExtensionError>)
    ensures
        r == composition_check(exts@, 0),
        r is Ok <==> composition_valid(exts@),
{
    proof {
        lemma_composition_check_valid(exts@);
    }
    let mut i: usize = 0;
    while i < exts.len()
        invariant
            0 <= i <= exts@.len(),
            composition_check(exts@, 0) == composition_check(exts@, i as int),
            composition_check(exts@, 0) is Ok <==> composition_valid(exts@),
        decreases exts@.len() - i,
    {
        let c = exts[i].check_dependencies_among(exts, i);
        if c.is_err() {
            return c;
        }
        i = i + 1;
    }
    Ok(())
}

/// The ops an extension still holds, none once they were taken.
pub open spec fn held_ops(e: Extension) -> Seq<OpDecl> {
    match e.spec_ops() {
        Some(s) => s,
        None => Seq::empty(),
    }
}

/// The ops of `exts` as registered, in order: each extension's ops, each
/// enabled only where both it and its extension are.
pub open spec fn registered_ops(exts: Seq<Extension>) -> Seq<OpDecl>
    decreases exts.len(),
{
    if exts.len() == 0 {
        Seq::empty()
    } else {
        registered_ops(exts.drop_last()) + masked_ops(
            held_ops(exts.last()),
            exts.last().spec_enabled(),
        )
    }
}

/// For each op of [`registered_ops`], whether its extension is enabled.
pub open spec fn registered_owner_enabled(exts: Seq<Extension>) -> Seq<bool>
    decreases exts.len(),
{
    if exts.len() == 0 {
        Seq::empty()
    } else {
        registered_owner_enabled(exts.drop_last()) + Seq::new(
            held_ops(exts.last()).len(),
            |_k: int| exts.last().spec_enabled(),
        )
    }
}

proof fn lemma_registered_lengths(exts: Seq<Extension>)
    ensures
        registered_owner_enabled(exts).len() == registered_ops(exts).len(),
    decreases exts.len(),
{
    if exts.len() > 0 {
        lemma_registered_lengths(exts.drop_last());
    }
}

/// No extension of `exts` holds an op middleware.
pub open spec fn no_middleware(exts: Seq<Extension>) -> bool {
    forall|i: int| 0 <= i < exts.len() ==> (#[trigger] exts[i]).spec_middleware() is None
}

/// An extension that can still be composed: its ops were not initialized
/// and none of its single-use hooks was taken out.
pub open spec fn ready(e: Extension) -> bool {
    &&& !e.spec_initialized()
    &&& !e.spec_middleware_taken()
    &&& !e.spec_event_loop_taken()
}

/// Every extension of `exts` can still be composed.
pub open spec fn all_ready(exts: Seq<Extension>) -> bool {
    forall|i: int| 0 <= i < exts.len() ==> ready(#[trigger] exts[i])
}

/// `i` is the first extension of `exts` that cannot be composed any more.
pub open spec fn is_first_unready(exts: Seq<Extension>, i: int) -> bool {
    &&& 0 <= i < exts.len()
    &&& !ready(exts[i])
    &&& forall|j: int| 0 <= j < i ==> ready(#[trigger] exts[j])
}

/// The defect reported for an extension that cannot be composed any more.
pub open spec fn readiness_error(e: Extension) -> ExtensionError {
    if e.spec_initialized() {
        ExtensionError::AlreadyInitialized { extension: e.spec_name() }
    } else {
        ExtensionError::HookAlreadyTaken { extension: e.spec_name() }
    }
}

/// `after` is `before` once its ops were initialized and its middleware taken.
pub open spec fn ops_initialized_from(after: Extension, before: Extension) -> bool {
    &&& after.spec_initialized()
    &&& after.spec_ops() is None
    &&& after.spec_middleware() is None
    &&& after.spec_middleware_taken()
    &&& after.same_bundle(&before)
    &&& after.spec_state_init() == before.spec_state_init()
    &&& after.spec_event_loop_hook() == before.spec_event_loop_hook()
    &&& after.spec_event_loop_taken() == before.spec_event_loop_taken()
}

/// `after` is `before` with its middleware taken out.
spec fn middleware_taken_from(after: Extension, before: Extension) -> bool {
    &&& after.spec_middleware() is None
    &&& after.spec_middleware_taken()
    &&& after.same_bundle(&before)
    &&& after.spec_ops() == before.spec_ops()
    &&& after.spec_initialized() == before.spec_initialized()
    &&& after.spec_state_init() == before.spec_state_init()
    &&& after.spec_event_loop_hook() == before.spec_event_loop_hook()
    &&& after.spec_event_loop_taken() == before.spec_event_loop_taken()
}

/// The middleware that `exts` hold, in order.
pub open spec fn present_middleware(exts: Seq<Extension>) -> Seq<Box<dyn OpMiddleware>>
    decreases exts.len(),
{
    if exts.len() == 0 {
        Seq::empty()
    } else {
        match exts.last().spec_middleware() {
            Some(m) => present_middleware(exts.drop_last()).push(m),
            None => present_middleware(exts.drop_last()),
        }
    }
}

/// `chain` records one run through `middleware`: each entry is what the
/// middleware at that position made of the entry before.
pub open spec fn middleware_chain(middleware: Seq<Box<dyn OpMiddleware>>, chain: Seq<OpDecl>) -> bool {
    &&& chain.len() == middleware.len() + 1
    &&& forall|i: int|
        0 <= i < middleware.len() ==> #[trigger] middleware[i].applied(chain[i], chain[i + 1])
}

/// `out` is what running `op` through every middleware once, in order, may give.
pub open spec fn through_middleware(
    middleware: Seq<Box<dyn OpMiddleware>>,
    op: OpDecl,
    out: OpDecl,
) -> bool {
    exists|chain: Seq<OpDecl>|
        #[trigger] middleware_chain(middleware, chain) && chain[0] == op && chain.last() == out
}

/// `out` is `op` as registered: run through the middleware, then enabled
/// only where its extension is.
pub open spec fn registered_as(
    middleware: Seq<Box<dyn OpMiddleware>>,
    op: OpDecl,
    owner_enabled: bool,
    out: OpDecl,
) -> bool {
    exists|m: OpDecl|
        #[trigger] through_middleware(middleware, op, m) && out == with_enabled(
            m,
            owner_enabled && m.enabled,
        )
}

/// `v` is what registering the ops of `exts` may give: each op of
/// [`registered_ops`] run once through all the middleware of `exts` in
/// order, disabled where its extension is; exactly [`registered_ops`] where
/// no extension holds middleware.
pub open spec fn registration_of(exts: Seq<Extension>, v: Seq<OpDecl>) -> bool {
    &&& v.len() == registered_ops(exts).len()
    &&& forall|k: int|
        0 <= k < v.len() ==> registered_as(
            present_middleware(exts),
            registered_ops(exts)[k],
            registered_owner_enabled(exts)[k],
            #[trigger] v[k],
        )
    &&& forall|k: int|
        0 <= k < v.len() ==> !registered_owner_enabled(exts)[k] ==> !(#[trigger] v[k]).enabled
    &&& no_middleware(exts) ==> v == registered_ops(exts)
}

/// Runs `op` through every middleware in order.
fn apply_middleware(middleware: &Vec<Box<dyn OpMiddleware>>, op: OpDecl) -> (r: OpDecl)
    ensures
        through_middleware(middleware@, op, r),
        middleware@.len() == 0 ==> r == op,
{
    let mut current = op;
    let ghost mut chain: Seq<OpDecl> = seq![op];
    let mut j: usize = 0;
    while j < middleware.len()
        invariant
            0 <= j <= middleware@.len(),
            chain.len() == j + 1,
            chain[0] == op,
            chain.last() == current,
            forall|i: int|
                0 <= i < j ==> #[trigger] middleware@[i].applied(chain[i], chain[i + 1]),
            middleware@.len() == 0 ==> current == op,
        decreases middleware@.len() - j,
    {
        current = middleware[j].apply(current);
        proof {
            let prev = chain;
            chain = chain.push(current);
            assert forall|i: int| 0 <= i < j + 1 implies #[trigger] middleware@[i].applied(
                chain[i],
                chain[i + 1],
            ) by {
                if i < j {
                    assert(chain[i] == prev[i] && chain[i + 1] == prev[i + 1]);
                }
            }
        }
        j = j + 1;
    }
    assert(middleware_chain(middleware@, chain));
    current
}

/// Initializes the ops of a composition: validates dependencies in the
/// given order and that no extension was initialized or had a single-use
/// hook taken, takes every extension's middleware, then takes each
/// extension's ops in order and runs each op through all the middleware.
/// Each op is masked by its extension's enabled flag as it is taken, the
/// middleware sees it so, and the mask is applied again afterwards:
/// middleware cannot enable an op of a disabled extension. On an error
/// nothing is changed.
pub fn init_extension_ops(exts: &mut Vec<Extension>) -> (r: Result<Vec<OpDecl>, ExtensionError>)
    ensures
        composition_check(old(exts)@, 0) matches Err(e) ==> r matches Err(f) && f == e
            && final(exts)@ == old(exts)@,
        r is Ok ==> composition_valid(old(exts)@) && all_ready(old(exts)@),
        composition_valid(old(exts)@) ==> {
            ||| exists|i: int|
                #[trigger] is_first_unready(old(exts)@, i) && r == Err::<Vec<OpDecl>, ExtensionError>(
                    readiness_error(old(exts)@[i]),
                ) && final(exts)@ == old(exts)@
            ||| all_ready(old(exts)@) && r is Ok
        },
        r matches Ok(v) ==> {
            &&& final(exts)@.len() == old(exts)@.len()
            &&& forall|i: int|
                0 <= i < old(exts)@.len() ==> ops_initialized_from(
                    #[trigger] final(exts)@[i],
                    old(exts)@[i],
                )
            &&& registration_of(old(exts)@, v@)
        },
{
    let ghost old_exts = exts@;
    let checked = check_all_dependencies(exts.as_slice());
    if let Err(e) = checked {
        return Err(e);
    }
    let mut i: usize = 0;
    while i < exts.len()
        invariant
            0 <= i <= exts@.len(),
            exts@ == old_exts,
            composition_check(old_exts, 0) is Ok,
            forall|j: int| 0 <= j < i ==> ready(#[trigger] exts@[j]),
        decreases exts@.len() - i,
    {
        if exts[i].is_initialized() {
            assert(is_first_unready(old_exts, i as int));
            return Err(ExtensionError::AlreadyInitialized { extension: exts[i].name() });
        }
        if exts[i].middleware_taken() || exts[i].event_loop_middleware_taken() {
            assert(is_first_unready(old_exts, i as int));
            return Err(ExtensionError::HookAlreadyTaken { extension: exts[i].name() });
        }
        i = i + 1;
    }
    let mut middleware: Vec<Box<dyn OpMiddleware>> = Vec::new();
    let mut i: usize = 0;
    proof {
        assert(old_exts.take(0) =~= Seq::<Extension>::empty());
    }
    while i < exts.len()
        invariant
            0 <= i <= exts@.len(),
            exts@.len() == old_exts.len(),
            all_ready(old_exts),
            forall|j: int| 0 <= j < i ==> middleware_taken_from(#[trigger] exts@[j], old_exts[j]),
            forall|j: int| i <= j < exts@.len() ==> #[trigger] exts@[j] == old_exts[j],
            middleware@ == present_middleware(old_exts.take(i as int)),
            (forall|j: int| 0 <= j < i ==> (#[trigger] old_exts[j]).spec_middleware() is None)
                ==> middleware@.len() == 0,
        decreases exts@.len() - i,
    {
        proof {
            let t = old_exts.take(i + 1);
            assert(t.drop_last() =~= old_exts.take(i as int));
            assert(t.last() == old_exts[i as int]);
            assert(ready(old_exts[i as int]));
        }
        let taken = exts[i].init_middleware();
        if let Some(m) = taken {
            middleware.push(m);
        }
        i = i + 1;
    }
    proof {
        assert(old_exts.take(i as int) =~= old_exts);
    }
    let ghost mid = exts@;
    let ghost mws = middleware@;
    let mut out: Vec<OpDecl> = Vec::new();
    proof {
        lemma_registered_lengths(old_exts.take(0));
        assert(old_exts.take(0) =~= Seq::<Extension>::empty());
    }
    let mut i: usize = 0;
    while i < exts.len()
        invariant
            0 <= i <= exts@.len(),
            exts@.len() == old_exts.len(),
            mid.len() == old_exts.len(),
            middleware@ == mws,
            mws == present_middleware(old_exts),
            forall|j: int| 0 <= j < mid.len() ==> middleware_taken_from(#[trigger] mid[j], old_exts[j]),
            all_ready(old_exts),
            forall|j: int| 0 <= j < i ==> ops_initialized_from(#[trigger] exts@[j], old_exts[j]),
            forall|j: int| i <= j < exts@.len() ==> #[trigger] exts@[j] == mid[j],
            no_middleware(old_exts) ==> middleware@.len() == 0,
            registered_owner_enabled(old_exts.take(i as int)).len() == registered_ops(
                old_exts.take(i as int),
            ).len(),
            out@.len() == registered_ops(old_exts.take(i as int)).len(),
            forall|k: int|
                0 <= k < out@.len() ==> registered_as(
                    mws,
                    registered_ops(old_exts.take(i as int))[k],
                    registered_owner_enabled(old_exts.take(i as int))[k],
                    #[trigger] out@[k],
                ),
            forall|k: int|
                0 <= k < out@.len() ==> !registered_owner_enabled(old_exts.take(i as int))[k]
                    ==> !(#[trigger] out@[k]).enabled,
            no_middleware(old_exts) ==> out@ == registered_ops(old_exts.take(i as int)),
        decreases exts@.len() - i,
    {
        let ghost before = out@;
        let ghost e = old_exts[i as int];
        proof {
            let t = old_exts.take(i + 1);
            assert(t.drop_last() =~= old_exts.take(i as int));
            assert(t.last() == e);
            lemma_registered_lengths(t);
            assert(ready(e));
        }
        let extension_enabled = exts[i].is_enabled();
        let taken = exts[i].init_ops();
        match taken {
            None => {
                proof {
                    let t = old_exts.take(i + 1);
                    assert(held_ops(e) =~= Seq::<OpDecl>::empty());
                    assert(registered_ops(t) =~= registered_ops(old_exts.take(i as int)));
                    assert(registered_owner_enabled(t) =~= registered_owner_enabled(
                        old_exts.take(i as int),
                    ));
                }
            },
            Some(ops) => {
                let mut j: usize = 0;
                while j < ops.len()
                    invariant
                        0 <= j <= ops@.len(),
                        ops@ == masked_ops(held_ops(e), e.spec_enabled()),
                        extension_enabled == e.spec_enabled(),
                        middleware@ == mws,
                        out@.len() == before.len() + j,
                        forall|k: int| 0 <= k < before.len() ==> #[trigger] out@[k] == before[k],
                        forall|k: int|
                            0 <= k < j ==> registered_as(
                                mws,
                                ops@[k],
                                extension_enabled,
                                #[trigger] out@[before.len() + k],
                            ),
                        forall|k: int|
                            0 <= k < j ==> !extension_enabled ==> !(
                            #[trigger] out@[before.len() + k]).enabled,
                        no_middleware(old_exts) ==> middleware@.len() == 0,
                        no_middleware(old_exts) ==> out@ == before + ops@.take(j as int),
                    decreases ops@.len() - j,
                {
                    let op = ops[j];
                    let changed = apply_middleware(&middleware, op);
                    let registered = OpDecl {
                        enabled: extension_enabled && changed.enabled,
                        ..changed
                    };
                    out.push(registered);
                    proof {
                        assert(registered == with_enabled(changed, extension_enabled && changed.enabled));
                        assert(through_middleware(mws, op, changed));
                        assert(registered_as(mws, ops@[j as int], extension_enabled, registered));
                        assert(out@[before.len() + j] == registered);
                        if no_middleware(old_exts) {
                            assert(registered == op);
                            assert(out@ =~= before + ops@.take(j + 1));
                        }
                    }
                    j = j + 1;
                }
                proof {
                    let t = old_exts.take(i + 1);
                    assert(ops@.take(j as int) =~= ops@);
                    assert(registered_ops(t) =~= registered_ops(old_exts.take(i as int)) + ops@);
                    assert(registered_owner_enabled(t) =~= registered_owner_enabled(
                        old_exts.take(i as int),
                    ) + Seq::new(held_ops(e).len(), |_k: int| e.spec_enabled()));
                    assert forall|k: int| 0 <= k < out@.len() implies registered_as(
                        mws,
                        registered_ops(t)[k],
                        registered_owner_enabled(t)[k],
                        #[trigger] out@[k],
                    ) by {
                        if k >= before.len() {
                            assert(out@[before.len() + (k - before.len())] == out@[k]);
                        }
                    }
                    assert forall|k: int|
                        0 <= k < out@.len() && !registered_owner_enabled(t)[k] implies !(
                        #[trigger] out@[k]).enabled by {
                        if k >= before.len() {
                            assert(out@[before.len() + (k - before.len())] == out@[k]);
                        }
                    }
                }
            },
        }
        i = i + 1;
    }
    proof {
        assert(old_exts.take(i as int) =~= old_exts);
    }
    Ok(out)
}

/// No extension of `exts` holds a state-initialization hook.
pub open spec fn no_state_hooks(exts: Seq<Extension>) -> bool {
    forall|i: int| 0 <= i < exts.len() ==> (#[trigger] exts[i]).spec_state_init() is None
}

/// The state-initialization slots of `exts`, in order.
pub open spec fn state_hooks(exts: Seq<Extension>) -> Seq<Option<Box<dyn OpStateInit>>> {
    exts.map_values(|e: Extension| e.spec_state_init())
}

/// One run of a state slot: an empty slot succeeds and changes nothing, a
/// hook does what it says of itself.
pub open spec fn state_step(
    hook: Option<Box<dyn OpStateInit>>,
    before: StateView,
    after: StateView,
    ok: bool,
) -> bool {
    match hook {
        None => after == before && ok,
        Some(f) => f.inited(before, after, ok),
    }
}

/// `states` records a successful run of every slot of `hooks` in order.
pub open spec fn state_chain(hooks: Seq<Option<Box<dyn OpStateInit>>>, states: Seq<StateView>) -> bool {
    &&& states.len() == hooks.len() + 1
    &&& forall|i: int|
        0 <= i < hooks.len() ==> #[trigger] state_step(hooks[i], states[i], states[i + 1], true)
}

/// Every slot of `hooks` ran in order and succeeded, taking `before` to `after`.
pub open spec fn state_hooks_ran(
    hooks: Seq<Option<Box<dyn OpStateInit>>>,
    before: StateView,
    after: StateView,
) -> bool {
    exists|states: Seq<StateView>|
        #[trigger] state_chain(hooks, states) && states[0] == before && states.last() == after
}

/// The slots of `hooks` ran in order until the one at some `k` failed,
/// leaving `after`; none after it ran.
pub open spec fn state_hooks_failed(
    hooks: Seq<Option<Box<dyn OpStateInit>>>,
    before: StateView,
    after: StateView,
) -> bool {
    exists|k: int, states: Seq<StateView>|
        #[trigger] state_chain(hooks.take(k), states) && 0 <= k < hooks.len() && states[0] == before
            && state_step(hooks[k], states.last(), after, false)
}

/// Runs the state-initialization hooks in order on `state`, each on the
/// state the ones before it left, stopping at the first that fails.
pub fn init_extension_state(exts: &[Extension], state: &mut OpState) -> (r: Result<
    (),
    anyhow::Error,
>)
    ensures
        r is Ok ==> state_hooks_ran(state_hooks(exts@), old(state)@, final(state)@),
        r is Err ==> state_hooks_failed(state_hooks(exts@), old(state)@, final(state)@),
        no_state_hooks(exts@) ==> r is Ok && final(state)@ == old(state)@,
{
    let ghost hooks = state_hooks(exts@);
    let ghost mut states: Seq<StateView> = seq![state@];
    let mut i: usize = 0;
    proof {
        assert(hooks.take(0) =~= Seq::<Option<Box<dyn OpStateInit>>>::empty());
    }
    while i < exts.len()
        invariant
            0 <= i <= exts@.len(),
            hooks == state_hooks(exts@),
            hooks.len() == exts@.len(),
            state_chain(hooks.take(i as int), states),
            states[0] == old(state)@,
            states.last() == state@,
            no_state_hooks(exts@) ==> state@ == old(state)@,
        decreases exts@.len() - i,
    {
        let ghost at = state@;
        assert(hooks[i as int] == exts@[i as int].spec_state_init());
        let result = exts[i].init_state(state);
        if let Err(e) = result {
            proof {
                assert(state_step(hooks[i as int], states.last(), state@, false));
                assert(state_hooks_failed(hooks, old(state)@, state@));
            }
            return Err(e);
        }
        proof {
            let prev = states;
            states = states.push(state@);
            let t = hooks.take(i + 1);
            assert forall|k: int| 0 <= k < t.len() implies #[trigger] state_step(
                t[k],
                states[k],
                states[k + 1],
                true,
            ) by {
                assert(t[k] == hooks[k]);
                if k < i {
                    assert(hooks.take(i as int)[k] == hooks[k]);
                    assert(state_step(hooks.take(i as int)[k], prev[k], prev[k + 1], true));
                } else {
                    assert(state_step(hooks[i as int], at, state@, true));
                }
            }
        }
        i = i + 1;
    }
    proof {
        assert(hooks.take(i as int) =~= hooks);
        assert(state_chain(hooks, states));
    }
    Ok(())
}

/// The event-loop hooks that `exts` hold, in order.
pub open spec fn present_hooks(exts: Seq<Extension>) -> Seq<Box<dyn OpEventLoopHook>>
    decreases exts.len(),
{
    if exts.len() == 0 {
        Seq::empty()
    } else {
        match exts.last().spec_event_loop_hook() {
            Some(h) => present_hooks(exts.drop_last()).push(h),
            None => present_hooks(exts.drop_last()),
        }
    }
}

/// `after` is `before` with its event-loop hook taken out.
pub open spec fn event_loop_hook_taken_from(after: Extension, before: Extension) -> bool {
    &&& after.spec_event_loop_hook() is None
    &&& after.spec_event_loop_taken()
    &&& after.same_bundle(&before)
    &&& after.spec_ops() == before.spec_ops()
    &&& after.spec_initialized() == before.spec_initialized()
    &&& after.spec_state_init() == before.spec_state_init()
    &&& after.spec_middleware() == before.spec_middleware()
    &&& after.spec_middleware_taken() == before.spec_middleware_taken()
}

/// Takes every extension's event-loop hook out, in order.
pub fn take_event_loop_hooks(exts: &mut Vec<Extension>) -> (r: Vec<Box<dyn OpEventLoopHook>>)
    requires
        forall|i: int| 0 <= i < old(exts)@.len() ==> !(#[trigger] old(exts)@[i]).spec_event_loop_taken(),
    ensures
        r@ == present_hooks(old(exts)@),
        final(exts)@.len() == old(exts)@.len(),
        forall|i: int|
            0 <= i < old(exts)@.len() ==> event_loop_hook_taken_from(
                #[trigger] final(exts)@[i],
                old(exts)@[i],
            ),
{
    let ghost old_exts = exts@;
    let mut hooks: Vec<Box<dyn OpEventLoopHook>> = Vec::new();
    let mut i: usize = 0;
    proof {
        assert(old_exts.take(0) =~= Seq::<Extension>::empty());
    }
    while i < exts.len()
        invariant
            0 <= i <= exts@.len(),
            exts@.len() == old_exts.len(),
            forall|j: int| 0 <= j < old_exts.len() ==> !(#[trigger] old_exts[j]).spec_event_loop_taken(),
            hooks@ == present_hooks(old_exts.take(i as int)),
            forall|j: int| 0 <= j < i ==> event_loop_hook_taken_from(#[trigger] exts@[j], old_exts[j]),
            forall|j: int| i <= j < exts@.len() ==> #[trigger] exts@[j] == old_exts[j],
        decreases exts@.len() - i,
    {
        proof {
            let t = old_exts.take(i + 1);
            assert(t.drop_last() =~= old_exts.take(i as int));
            assert(t.last() == old_exts[i as int]);
        }
        let taken = exts[i].init_event_loop_middleware();
        if let Some(h) = taken {
            hooks.push(h);
        }
        i = i + 1;
    }
    proof {
        assert(old_exts.take(i as int) =~= old_exts);
    }
    hooks
}

/// A composed engine's registered ops and the event-loop hooks to poll each turn.
pub struct Composition {
    pub ops: Vec<OpDecl>,
    pub event_loop_hooks: Vec<Box<dyn OpEventLoopHook>>,
}

/// Why composing extensions failed.
#[derive(Debug)]
pub enum ComposeError {
    Extension(ExtensionError),
    StateInit(anyhow::Error),
}

/// Composes `exts` in the given order: validates dependencies and that every
/// extension can still be composed, takes the middleware, initializes the
/// ops, runs the state hooks on `state`, and takes the event-loop hooks.
pub fn compose(exts: &mut Vec<Extension>, state: &mut OpState) -> (r: Result<
    Composition,
    ComposeError,
>)
    ensures
        composition_check(old(exts)@, 0) matches Err(e) ==> r matches Err(
            ComposeError::Extension(f),
        ) && f == e && final(exts)@ == old(exts)@ && final(state)@ == old(state)@,
        composition_valid(old(exts)@) ==> {
            ||| exists|i: int|
                #[trigger] is_first_unready(old(exts)@, i) && (r matches Err(
                    ComposeError::Extension(f),
                ) && f == readiness_error(old(exts)@[i]) && final(exts)@ == old(exts)@
                    && final(state)@ == old(state)@)
            ||| all_ready(old(exts)@)
        },
        composition_valid(old(exts)@) && all_ready(old(exts)@) && no_state_hooks(old(exts)@)
            ==> r is Ok,
        r matches Err(ComposeError::StateInit(_)) ==> state_hooks_failed(
            state_hooks(old(exts)@),
            old(state)@,
            final(state)@,
        ),
        r matches Ok(c) ==> {
            &&& composition_valid(old(exts)@)
            &&& all_ready(old(exts)@)
            &&& registration_of(old(exts)@, c.ops@)
            &&& state_hooks_ran(state_hooks(old(exts)@), old(state)@, final(state)@)
            &&& c.event_loop_hooks@ == present_hooks(old(exts)@)
            &&& final(exts)@.len() == old(exts)@.len()
            &&& forall|i: int|
                0 <= i < old(exts)@.len() ==> {
                    &&& (#[trigger] final(exts)@[i]).spec_initialized()
                    &&& final(exts)@[i].spec_ops() is None
                    &&& final(exts)@[i].spec_middleware() is None
                    &&& final(exts)@[i].spec_event_loop_hook() is None
                    &&& final(exts)@[i].same_bundle(&old(exts)@[i])
                    &&& final(exts)@[i].spec_state_init() == old(exts)@[i].spec_state_init()
                }
        },
{
    let ghost old_exts = exts@;
    let ops = match init_extension_ops(exts) {
        Ok(ops) => ops,
        Err(e) => {
            return Err(ComposeError::Extension(e));
        },
    };
    let ghost mid = exts@;
    proof {
        assert forall|i: int| 0 <= i < mid.len() implies !(#[trigger] mid[i]).spec_event_loop_taken() by {
            assert(ops_initialized_from(mid[i], old_exts[i]));
            assert(ready(old_exts[i]));
        }
        assert forall|i: int| 0 <= i < mid.len() implies #[trigger] state_hooks(mid)[i]
            == state_hooks(old_exts)[i] by {
            assert(ops_initialized_from(mid[i], old_exts[i]));
        }
        assert(state_hooks(mid) =~= state_hooks(old_exts));
        if no_state_hooks(old_exts) {
            assert forall|i: int| 0 <= i < mid.len() implies (
            #[trigger] mid[i]).spec_state_init() is None by {
                assert(ops_initialized_from(mid[i], old_exts[i]));
                assert(old_exts[i].spec_state_init() is None);
            }
        }
    }
    if let Err(e) = init_extension_state(exts.as_slice(), state) {
        return Err(ComposeError::StateInit(e));
    }
    let hooks = take_event_loop_hooks(exts);
    proof {
        assert(present_hooks(mid) == present_hooks(old_exts)) by {
            lemma_present_hooks_same(mid, old_exts);
        }
        assert forall|i: int| 0 <= i < old_exts.len() implies {
            &&& (#[trigger] exts@[i]).spec_initialized()
            &&& exts@[i].spec_ops() is None
            &&& exts@[i].spec_middleware() is None
            &&& exts@[i].spec_event_loop_hook() is None
            &&& exts@[i].same_bundle(&old_exts[i])
            &&& exts@[i].spec_state_init() == old_exts[i].spec_state_init()
        } by {
            assert(ops_initialized_from(mid[i], old_exts[i]));
            assert(event_loop_hook_taken_from(exts@[i], mid[i]));
        }
    }
    Ok(Composition { ops, event_loop_hooks: hooks })
}

proof fn lemma_present_hooks_same(a: Seq<Extension>, b: Seq<Extension>)
    requires
        a.len() == b.len(),
        forall|i: int|
            0 <= i < a.len() ==> (#[trigger] a[i]).spec_event_loop_hook()
                == b[i].spec_event_loop_hook(),
    ensures
        present_hooks(a) == present_hooks(b),
    decreases a.len(),
{
    if a.len() > 0 {
        assert forall|i: int| 0 <= i < a.drop_last().len() implies (
        #[trigger] a.drop_last()[i]).spec_event_loop_hook()
            == b.drop_last()[i].spec_event_loop_hook() by {
            assert(a.drop_last()[i] == a[i]);
            assert(b.drop_last()[i] == b[i]);
        }
        lemma_present_hooks_same(a.drop_last(), b.drop_last());
    }
}

/// Validation rejects an extension that depends on a name which no earlier
/// extension of the list carries (and which is not its own): its check
/// reports that dependency missing, or an earlier missing one, and the list
/// fails validation.
pub proof fn lemma_missing_dependency_fails(exts: Seq<Extension>, i: int, d: Seq<char>)
    requires
        0 <= i < exts.len(),
        exts[i].dep_names().contains(d),
        !extension_names(exts.take(i)).contains(d),
        !exts[i].dep_names().contains(exts[i].spec_name()@),
    ensures
        dependency_check(
            exts[i].spec_name(),
            exts[i].spec_deps(),
            extension_names(exts.take(i)),
        ) matches Err(ExtensionError::MissingDependency { extension, dependency }) && extension
            == exts[i].spec_name() && !extension_names(exts.take(i)).contains(dependency@),
        !composition_valid(exts),
        composition_check(exts, 0) is Err,
{
    let known = extension_names(exts.take(i));
    let deps = exts[i].dep_names();
    crate::extensions::lemma_first_missing_bounds(deps, known);
    lemma_dependency_check_ok(exts[i].spec_name(), exts[i].spec_deps(), known);
    let j = choose|j: int| 0 <= j < deps.len() && deps[j] == d;
    assert(!known.contains(deps[j]));
    assert(!dependencies_met(exts[i].spec_name()@, deps, known));
    lemma_composition_check_valid(exts);
}

/// Moving a dependency before the extension that needs it makes the list
/// pass: with `e` depending on `x`, the list `pre, e, x, post` fails
/// validation while `pre, x, e, post` passes, when every other dependency
/// is met.
pub proof fn lemma_dependency_moved_earlier(
    pre: Seq<Extension>,
    e: Extension,
    x: Extension,
    post: Seq<Extension>,
)
    requires
        composition_valid(pre),
        e.dep_names().contains(x.spec_name()@),
        x.spec_name()@ != e.spec_name()@,
        !extension_names(pre).contains(x.spec_name()@),
        dependencies_met(x.spec_name()@, x.dep_names(), extension_names(pre)),
        dependencies_met(e.spec_name()@, e.dep_names(), extension_names(pre.push(x))),
        forall|j: int|
            0 <= j < post.len() ==> dependencies_met(
                #[trigger] post[j].spec_name()@,
                post[j].dep_names(),
                extension_names(pre + seq![x, e] + post.take(j)),
            ),
    ensures
        !composition_valid(pre + seq![e, x] + post),
        composition_valid(pre + seq![x, e] + post),
{
    let bad = pre + seq![e, x] + post;
    let good = pre + seq![x, e] + post;
    let n = pre.len() as int;
    assert(bad.take(n) =~= pre);
    assert(bad[n] == e);
    lemma_missing_dependency_fails(bad, n, x.spec_name()@);
    assert forall|i: int| 0 <= i < good.len() implies dependencies_met(
        #[trigger] good[i].spec_name()@,
        good[i].dep_names(),
        extension_names(good.take(i)),
    ) by {
        if i < n {
            assert(good[i] == pre[i]);
            assert(good.take(i) =~= pre.take(i));
        } else if i == n {
            assert(good[i] == x);
            assert(good.take(i) =~= pre);
        } else if i == n + 1 {
            assert(good[i] == e);
            assert(good.take(i) =~= pre.push(x));
        } else {
            let j = i - n - 2;
            assert(good[i] == post[j]);
            assert(good.take(i) =~= pre + seq![x, e] + post.take(j));
        }
    }
}

/// An extension that names itself as a dependency fails with
/// `SelfDependency`, whatever extensions come before it.
pub proof fn lemma_self_dependency_fails(exts: Seq<Extension>, i: int)
    requires
        0 <= i < exts.len(),
        exts[i].dep_names().contains(exts[i].spec_name()@),
    ensures
        dependency_check(exts[i].spec_name(), exts[i].spec_deps(), extension_names(exts.take(i)))
            == Err::<(), ExtensionError>(
            ExtensionError::SelfDependency { extension: exts[i].spec_name() },
        ),
        !composition_valid(exts),
        composition_check(exts, 0) is Err,
{
    lemma_composition_check_valid(exts);
}

proof fn lemma_registered_prefix_len(exts: Seq<Extension>, k: int)
    requires
        0 <= k < exts.len(),
    ensures
        registered_ops(exts.take(k)).len() + held_ops(exts[k]).len() <= registered_ops(exts).len(),
    decreases exts.len(),
{
    assert(exts.drop_last() =~= exts.take(exts.len() - 1));
    if k < exts.len() - 1 {
        lemma_registered_prefix_len(exts.drop_last(), k);
        assert(exts.drop_last().take(k) =~= exts.take(k));
        assert(exts.drop_last()[k] == exts[k]);
    }
}

/// Each registered op is enabled exactly when both its extension and the op
/// itself are, wherever the extension stands in the list: the `j`th op of
/// the `k`th extension sits after the ops of the extensions before it.
pub proof fn lemma_registered_op_enabled(exts: Seq<Extension>, k: int, j: int)
    requires
        0 <= k < exts.len(),
        0 <= j < held_ops(exts[k]).len(),
    ensures
        registered_ops(exts.take(k)).len() + j < registered_ops(exts).len(),
        registered_ops(exts)[registered_ops(exts.take(k)).len() + j] == with_enabled(
            held_ops(exts[k])[j],
            exts[k].spec_enabled() && held_ops(exts[k])[j].enabled,
        ),
        registered_ops(exts)[registered_ops(exts.take(k)).len() + j].enabled == (
        exts[k].spec_enabled() && held_ops(exts[k])[j].enabled),
    decreases exts.len(),
{
    lemma_registered_prefix_len(exts, k);
    assert(exts.drop_last() =~= exts.take(exts.len() - 1));
    if k < exts.len() - 1 {
        lemma_registered_op_enabled(exts.drop_last(), k, j);
        assert(exts.drop_last().take(k) =~= exts.take(k));
        assert(exts.drop_last()[k] == exts[k]);
        lemma_registered_prefix_len(exts.drop_last(), k);
    }
}

} // verus!
