//! Verified core of a collaborative VSDX diagram editor.

pub mod model;
pub mod session_ids;
pub mod text;

pub mod sheet_refs;
pub mod renumber;
pub mod orders;
pub mod shape_tree;
pub mod cell_records;
pub mod stored_glue;
pub mod schema;
pub mod policy;
pub mod route;
pub mod updates;
pub mod remote;
pub mod protect;
pub mod identity;
pub mod session;
pub mod observe;
pub mod containers;
pub mod connect;
pub mod xml;
pub mod markup;
pub mod structural;
pub mod paste;
pub mod paste_plan;
pub mod flatten;
pub mod args;
pub mod content;
pub mod allocate;
pub mod seed;
pub mod deletes;
pub mod tree_glue;
pub mod materialize;
pub mod snapshot;
pub mod subtree;
