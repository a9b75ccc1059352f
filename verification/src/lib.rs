//! Folders and the top-level space order of a terminal workspace manager:
//! the order model, its normalization, the folder mutations on the
//! application state, drag-and-drop resolution, command-line argument
//! parsing for the folder commands, and connection health tracking.

pub mod text;
pub mod folder;
pub mod folder_laws;
pub mod coalesce;
pub mod coalesce_laws;
pub mod state;
pub mod state_laws;
pub mod schema;
pub mod drop;
pub mod health;
pub mod shell;
pub mod agent_view;
pub mod collapse_store;
pub mod ranks;
pub mod rank_laws;
pub mod shell_laws;
pub mod sidebar_laws;
pub mod name_laws;
pub mod order_laws;
pub mod invariant_laws;
pub mod api;
pub mod cli;
