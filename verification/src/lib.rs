//! Static analysis of dynamic linking: given an entry ELF file and an ordered
//! list of search strategies, reproduce the loader's library resolution walk,
//! record the transitive closure of opened libraries, and reduce the dynamic
//! symbol tables of the closure to the exported / unresolved / defined
//! relations.
//!
//! Filesystem reads, environment access and terminal output live outside this
//! crate; the walk is driven as a state machine (`walker::Walk`) that asks its
//! caller to read files and check paths, and decides everything else itself.

pub mod conf;
pub mod deps;
pub mod elfdata;
pub mod laws;
pub mod library;
pub mod locations;
pub mod pathstr;
pub mod problems;
pub mod report;
pub mod strutil;
pub mod symbols;
pub mod walker;
