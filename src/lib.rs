//! Composition of engine extensions: op declarations, namespaced script
//! sources, dependency validation, one-shot initialization, snapshot
//! framing, and the build-time library loader of the compiler snapshot.

pub mod compose;
pub mod extensions;
pub mod op_state;
pub mod snapshot;
pub mod tsc_build;

pub use compose::{
    check_all_dependencies, compose, init_extension_ops, init_extension_state,
    take_event_loop_hooks, ComposeError, Composition,
};
pub use extensions::{
    BuilderPart, Extension, ExtensionBuilder, ExtensionError, ExtensionFileSource, OpDecl,
    OpEventLoopHook, OpMiddleware, OpStateInit,
};
pub use op_state::{OpState, StateSlot};
pub use snapshot::{
    create_snapshot_artifact, frame_snapshot, split_snapshot, SnapshotCompressor, SnapshotError,
};
pub use tsc_build::{
    bootstrap_response, build_specifier, compiler_lib_names, compiler_snapshot_libs, complete_load, lib_response,
    op_build_info, op_cwd, op_exists, op_is_node_file, op_script_version, parse_lib_specifier,
    resolve_load, BuildInfo, LoadError, LoadResponse, LoadSource, OpCrateLib,
    SCRIPT_KIND_TYPESCRIPT,
};
