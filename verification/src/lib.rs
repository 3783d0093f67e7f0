//! A verified model of the value domain and bookkeeping structures of a
//! JavaScript tree shaker: typeof sets, literals, dependency collectors,
//! abstract arrays and objects, function caches and statistics, and the
//! module file systems.

pub mod analyzer;
pub mod array;
pub mod builtin_fn;
pub mod builtins;
pub mod consumed_object;
pub mod dep;
pub mod entity;
pub mod fn_cache;
pub mod folding;
pub mod function;
pub mod iterated;
pub mod literal;
pub mod literal_ops;
pub mod logical_result;
pub mod mangling;
pub mod modules;
pub mod never;
pub mod number;
pub mod object;
pub mod options;
pub mod primitive;
pub mod property;
pub mod react;
pub mod stats;
pub mod typeof_result;
pub mod value;
pub mod vfs;
