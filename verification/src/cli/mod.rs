pub mod command;
pub mod shell;

pub use command::{parse, CacheCounts, Command, Reply, UsageOf};
pub use shell::Shell;
