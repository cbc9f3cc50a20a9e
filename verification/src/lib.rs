//! Verified core of a constraint-scheduled reactive reasoning engine:
//! assumption environments, a Horn-clause ATMS layer, context/assumption
//! bridging, execution-state scheduling, modal types and lambda semantics.

pub mod types;
pub mod env;
pub mod atms_node;
pub mod justification;
pub mod context_bridge;
pub mod scheduler;
pub mod lifting;
pub mod type_normalizer;
pub mod scope;
pub mod lambda;
pub mod fnv;
pub mod semantics;
pub mod nogood;
pub mod classes;
pub mod boundary;
pub mod type_check;
pub mod modal_data;
pub mod drs;
pub mod slots;
pub mod query;
pub mod shapes;
pub mod sheaf;
pub mod atms;
pub mod transient_repr;
pub mod context_stack;
pub mod scm;
pub mod wire;
pub mod bf_atms;
