//! What the command line selects: the engine, the programs to run, and
//! whether the compiler's listing is wanted.

use vstd::prelude::*;
use getopts::{Fail, Matches, Options};
use vstd::slice::slice_subrange;
use crate::isa::BFIsa;
use crate::opts::{
    all_named, declares, free_of, given, matches_free, matches_present, matches_str, options_flag,
    options_floating, options_new, options_opt, options_parse, parse_of, texts, value_of,
};
use crate::machine::Machine;
use crate::parse::{parse_spec, NestingErr};
use crate::profile::no_tally;
use crate::state::{blank, ProgramState};

verus! {

/// The back end that runs a program.
#[derive(PartialEq, Eq, Structural, Clone, Copy, Debug)]
pub enum ExecutionEngine {
    /// The bytecode interpreter.
    Interpreter,
    /// The native-code compiler.
    CraneLift,
}

impl Default for ExecutionEngine {
    fn default() -> (e: ExecutionEngine)
        ensures
            e == ExecutionEngine::Interpreter,
    {
        ExecutionEngine::Interpreter
    }
}

/// A parsed command line.
#[derive(Debug)]
pub struct CmdLine {
    /// The back end to run the programs on.
    pub exec_engine: ExecutionEngine,
    /// The source files, in the order given.
    pub programs: Vec<String>,
    /// Whether the compiler's listing is to be shown.
    pub clir: bool,
}

impl CmdLine {
    /// A command line that runs `programs` on `engine` and shows no listing.
    pub fn new(engine: ExecutionEngine, programs: Vec<String>) -> (c: CmdLine)
        ensures
            c.exec_engine == engine,
            c.programs == programs,
            !c.clir,
    {
        CmdLine { exec_engine: engine, programs, clir: false }
    }
}

/// Parses `bytestream` and sets the program up on a zeroed tape of `heapsz`
/// cells.
pub fn new_program(bytestream: &[u8], heapsz: usize) -> (r: Result<ProgramState, NestingErr>)
    requires
        1 <= heapsz <= isize::MAX,
    ensures
        match r {
            Ok(p) => {
                &&& parse_spec(bytestream@) == Ok::<Seq<BFIsa>, NestingErr>(p.code())
                &&& p@ == Machine { pc: 0, ptr: 0, heap: blank(heapsz as nat) }
                &&& p.native() is None
                &&& p.listed() is None
                &&& p.taken() == 0
                &&& p.tally() == no_tally()
                &&& p.wf()
            },
            Err(e) => parse_spec(bytestream@) == Err::<Seq<BFIsa>, NestingErr>(e),
        },
{
    ProgramState::new(bytestream, heapsz)
}

/// Why a command line starts no run.
#[derive(Debug)]
pub enum Refusal {
    /// The arguments do not fit the options.
    Malformed(Fail),
    /// Help was asked for.
    Help,
    /// The engine named is none of the two.
    UnknownEngine,
    /// No program was named.
    NoPrograms,
}

/// The kinds of `Refusal`.
pub enum Stop {
    /// The arguments do not fit the options.
    Malformed,
    /// Help was asked for.
    Help,
    /// The engine named is none of the two.
    UnknownEngine,
    /// No program was named.
    NoPrograms,
}

/// What a command line selects: the engine, the programs, and whether the
/// listing is wanted.
pub type Choice = (ExecutionEngine, Seq<Seq<char>>, bool);

/// The engine that the text `name` stands for.
pub open spec fn engine_named(name: Seq<char>) -> Option<ExecutionEngine> {
    if name == "Interpreter"@ {
        Some(ExecutionEngine::Interpreter)
    } else if name == "CraneLift"@ {
        Some(ExecutionEngine::CraneLift)
    } else {
        None
    }
}

/// What the options found on a command line select. The first that holds
/// decides: help stops the run; an engine that is named must be one of the
/// two, and where none is named it is the interpreter; a program must be
/// named.
pub open spec fn selection(
    help: bool,
    engine: Option<Seq<char>>,
    programs: Seq<Seq<char>>,
    clir: bool,
) -> Result<Choice, Stop> {
    if help {
        Err(Stop::Help)
    } else if engine is Some && engine_named(engine->0) is None {
        Err(Stop::UnknownEngine)
    } else if programs.len() == 0 {
        Err(Stop::NoPrograms)
    } else {
        Ok(
            (
                match engine {
                    Some(name) => engine_named(name)->0,
                    None => ExecutionEngine::Interpreter,
                },
                programs,
                clir,
            ),
        )
    }
}

/// What the command line `m` selects.
pub open spec fn selected(m: &Matches) -> Result<Choice, Stop> {
    selection(given(m, "h"@), value_of(m, "e"@), free_of(m), given(m, "v"@))
}

/// The kind of `r`.
pub open spec fn stop_of(r: Refusal) -> Stop {
    match r {
        Refusal::Malformed(_) => Stop::Malformed,
        Refusal::Help => Stop::Help,
        Refusal::UnknownEngine => Stop::UnknownEngine,
        Refusal::NoPrograms => Stop::NoPrograms,
    }
}

/// What `r` selects.
pub open spec fn choice(r: Result<CmdLine, Refusal>) -> Result<Choice, Stop> {
    match r {
        Ok(c) => Ok((c.exec_engine, texts(c.programs@), c.clir)),
        Err(e) => Err(stop_of(e)),
    }
}

/// The text of an engine's name, if one was given.
pub open spec fn engine_text(engine: Option<String>) -> Option<Seq<char>> {
    match engine {
        Some(name) => Some(name@),
        None => None,
    }
}

/// The engine that `name` stands for.
pub fn engine_of(name: &String) -> (e: Option<ExecutionEngine>)
    ensures
        e == engine_named(name@),
{
    if *name == "Interpreter".to_owned() {
        Some(ExecutionEngine::Interpreter)
    } else if *name == "CraneLift".to_owned() {
        Some(ExecutionEngine::CraneLift)
    } else {
        None
    }
}

/// Decides what the options found on a command line select.
pub fn select(help: bool, engine: Option<String>, programs: Vec<String>, clir: bool) -> (r: Result<
    CmdLine,
    Refusal,
>)
    ensures
        choice(r) == selection(help, engine_text(engine), texts(programs@), clir),
        r is Ok ==> r->Ok_0.programs == programs,
{
    if help {
        return Err(Refusal::Help);
    }
    let exec_engine = match &engine {
        Some(name) => match engine_of(name) {
            Some(e) => e,
            None => {
                return Err(Refusal::UnknownEngine);
            },
        },
        None => ExecutionEngine::Interpreter,
    };
    if programs.len() == 0 {
        return Err(Refusal::NoPrograms);
    }
    Ok(CmdLine { exec_engine, programs, clir })
}

/// `o` holds the options of this program, all of them named: `h` or
/// `help`, `v` or `verbose`, `e` or `exec-env`, and no others.
pub open spec fn standard(o: &Options) -> bool {
    &&& all_named(o)
    &&& forall|name: Seq<char>|
        declares(o, name) <==> name == "h"@ || name == "help"@ || name == "v"@ || name
            == "verbose"@ || name == "e"@ || name == "exec-env"@
}

/// What reading the command line `args` with the options `o` gives: the
/// option parser's refusal, or else what the options found select.
pub open spec fn reading(o: &Options, args: Seq<String>, r: Result<CmdLine, Refusal>) -> bool {
    match parse_of(o, texts(args.subrange(1, args.len() as int))) {
        Ok(m) => choice(r) == selected(&m),
        Err(f) => r == Err::<CmdLine, Refusal>(Refusal::Malformed(f)),
    }
}

/// The options of this program: `-h` or `--help`, `-v` or `--verbose`, and
/// `-e` or `--exec-env` with the engine's name. They may stand among the
/// programs in any order.
pub fn standard_options() -> (o: Options)
    ensures
        standard(&o),
{
    let mut opts = options_new();
    options_floating(&mut opts);
    proof {
        reveal_strlit("h");
        reveal_strlit("help");
        reveal_strlit("v");
        reveal_strlit("verbose");
        reveal_strlit("e");
        reveal_strlit("exec-env");
    }
    options_flag(&mut opts, "h", "help", "Show this menu");
    options_flag(&mut opts, "v", "verbose", "Displays generated cranelift IR");
    options_opt(&mut opts, "e", "exec-env", "jit vs interpret", "<Interpreter/CraneLift>");
    opts
}

/// Reads the command line `args`, whose first entry is the program's own
/// name, with the options `opts`: fails where the arguments do not fit the
/// options, and else decides by what was found.
pub fn parse_with(opts: &Options, args: &Vec<String>) -> (r: Result<CmdLine, Refusal>)
    requires
        args@.len() >= 1,
        all_named(opts),
        declares(opts, "h"@),
        declares(opts, "v"@),
        declares(opts, "e"@),
    ensures
        reading(opts, args@, r),
{
    let rest = slice_subrange(args.as_slice(), 1, args.len());
    let arg_match = match options_parse(opts, rest) {
        Ok(m) => m,
        Err(f) => {
            return Err(Refusal::Malformed(f));
        },
    };
    let help = matches_present(&arg_match, "h");
    let engine = matches_str(&arg_match, "e");
    let programs = matches_free(&arg_match);
    let clir = matches_present(&arg_match, "v");
    select(help, engine, programs, clir)
}

/// Reads the command line `args`, whose first entry is the program's own
/// name, with the options of this program: fails where the arguments do
/// not fit them, and else decides by what was found.
pub fn parse_cmdline(args: &Vec<String>) -> (r: Result<CmdLine, Refusal>)
    requires
        args@.len() >= 1,
    ensures
        exists|o: Options| standard(&o) && #[trigger] reading(&o, args@, r),
        r is Ok ==> r->Ok_0.programs@.len() > 0,
{
    let opts = standard_options();
    let r = parse_with(&opts, args);
    assert(standard(&opts) && reading(&opts, args@, r));
    r
}

} // verus!
