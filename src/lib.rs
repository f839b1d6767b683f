//! The command-line language processor of an interactive shell: a tokenizer,
//! the expansion passes, a pipeline parser, and the job table.
pub mod execute;
pub mod expand;
pub mod parser_line;
pub mod pipeline;
pub mod shell;
pub mod strs;
pub mod types;
