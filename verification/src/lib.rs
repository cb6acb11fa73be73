//! A MySQL-compatible server's wire protocol, catalog, account and session logic, verified.
use vstd::prelude::*;

pub mod lenenc;
pub mod text;
pub mod error;
pub mod packet;
pub mod binary;
pub mod response;
pub mod handshake;
pub mod auth;
pub mod client_decode;
pub mod command;
pub mod stmt;
pub mod messages;
pub mod collation;
pub mod types;
pub mod user_locks;
pub mod sorting;
pub mod privileges;
pub mod account_ddl;
pub mod name_map;
pub mod programs;
pub mod catalog;
pub mod processlist;
pub mod executor;
pub mod timestamps;
pub mod access;
pub mod results;
pub mod info_schema;
pub mod where_filter;
pub mod foreign_keys;
pub mod row_ops;
pub mod program_exec;
pub mod grant_exec;
pub mod server_handshake;
pub mod session_vars;
pub mod show_commands;
pub mod join;
pub mod string_functions;
pub mod program_ddl;
pub mod alter_catalog;

verus! {

} // verus!
