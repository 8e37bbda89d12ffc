//! Per-user sandbox sessions and the remote execution protocol that runs
//! file and shell commands inside them.

pub mod session;
pub mod wire;
pub mod messages;
pub mod protocol;
pub mod lang;
pub mod cache;
pub mod search;
pub mod path_name;
pub mod crypto;
pub mod settings;
pub mod sort;
pub mod text_search;
