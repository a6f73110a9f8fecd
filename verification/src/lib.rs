//! A Brainfuck engine: a folding parser, a bytecode interpreter and a
//! native-code back end.

pub mod clif;
pub mod cmdline;
pub mod isa;
pub mod lower;
pub mod machine;
pub mod opts;
pub mod pairing;
pub mod parse;
pub mod peephole;
pub mod plain;
pub mod profile;
pub mod record;
pub mod state;
pub mod unfold;
pub mod unparse;

pub use cmdline::{new_program, parse_cmdline, CmdLine, ExecutionEngine, Refusal};
pub use isa::{BFIsa, BF_ISA};
pub use lower::{HostIo, JitErr};
pub use machine::{Event, Exit, Machine};
pub use parse::NestingErr;
pub use profile::{LoopTable, Profile};
pub use state::{exit_code, host_target, ProgramState, Program_State};
pub use unparse::unparse;
