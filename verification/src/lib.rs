//! Input model for an incremental source-analysis engine.
//!
//! A workspace is described to the engine as a set of source roots (groups of
//! files), a graph of compilation units ("crates") with named dependency
//! edges, and per-unit conditional-compilation options. Edits arrive as
//! [`Change`] values: transactional batches that are applied once to the
//! engine's input store, each write tagged with a durability hint derived
//! from how volatile its source root is.

pub mod assoc;
pub mod cfg_model;
pub mod change;
pub mod graph;
pub mod input;
pub mod strings;

pub use cfg_model::CfgAtom;
pub use cfg_model::CfgAtomView;
pub use cfg_model::CfgDiff;
pub use cfg_model::CfgExpr;
pub use cfg_model::CfgOptions;
pub use cfg_model::InactiveReason;
pub use change::Change;
pub use change::Durability;
pub use change::SourceDatabase;
pub use graph::CrateGraph;
pub use graph::CyclicDependenciesError;
pub use input::CrateData;
pub use input::CrateDisplayName;
pub use input::CrateId;
pub use input::CrateName;
pub use input::Dependency;
pub use input::Edition;
pub use input::Env;
pub use input::FileId;
pub use input::FileSet;
pub use input::ParseEditionError;
pub use input::ProcMacro;
pub use input::ProcMacroId;
pub use input::ProcMacroKind;
pub use input::SourceRoot;
pub use input::SourceRootId;
