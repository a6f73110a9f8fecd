//! The option parser, as far as the command line drives it. Nothing in
//! this file is proved: each contract restates what the option parser's
//! source shows of the call.

use vstd::prelude::*;
use getopts::{Fail, Matches, Options, ParsingStyle};

verus! {

#[verifier::external_type_specification]
#[verifier::external_body]
pub struct ExOptions(Options);

#[verifier::external_type_specification]
#[verifier::external_body]
pub struct ExMatches(Matches);

#[verifier::external_type_specification]
#[verifier::external_body]
pub struct ExFail(Fail);

/// Some option of `o` has `name` as its short or its long name.
pub uninterp spec fn declares(o: &Options, name: Seq<char>) -> bool;

/// Every option of `o` has a name.
pub uninterp spec fn all_named(o: &Options) -> bool;

/// What `o` makes of the arguments `args`.
pub uninterp spec fn parse_of(o: &Options, args: Seq<Seq<char>>) -> Result<Matches, Fail>;

/// The options that `m` was parsed with have one named `name`.
pub uninterp spec fn defines(m: &Matches, name: Seq<char>) -> bool;

/// The option named `name` was among the arguments.
pub uninterp spec fn given(m: &Matches, name: Seq<char>) -> bool;

/// The argument that came with the option named `name`.
pub uninterp spec fn value_of(m: &Matches, name: Seq<char>) -> Option<Seq<char>>;

/// The arguments that belong to no option, in order.
pub uninterp spec fn free_of(m: &Matches) -> Seq<Seq<char>>;

/// The strings of `args`, as texts.
pub open spec fn texts(args: Seq<String>) -> Seq<Seq<char>> {
    args.map_values(|s: String| s@)
}

/// `short` and `long` can name an option: one character, and more than
/// one, all of them ASCII.
pub open spec fn names_ok(short: &str, long: &str) -> bool {
    &&& short.is_ascii()
    &&& long.is_ascii()
    &&& short@.len() == 1
    &&& long@.len() > 1
}

/// `Options::new`: no option is declared.
#[verifier::external_body]
pub(crate) fn options_new() -> (o: Options)
    ensures
        forall|name: Seq<char>| !declares(&o, name),
        all_named(&o),
{
    Options::new()
}

/// `Options::parsing_style` with `ParsingStyle::FloatingFrees`: options
/// and other arguments may be mixed. It declares nothing.
#[verifier::external_body]
pub(crate) fn options_floating(o: &mut Options)
    ensures
        forall|name: Seq<char>| declares(final(o), name) == declares(old(o), name),
        all_named(final(o)) == all_named(old(o)),
{
    o.parsing_style(ParsingStyle::FloatingFrees);
}

/// `Options::optflag`, which panics on names of other lengths: declares
/// an option without an argument under both names, so a named one.
#[verifier::external_body]
pub(crate) fn options_flag(o: &mut Options, short: &str, long: &str, desc: &str)
    requires
        names_ok(short, long),
    ensures
        forall|name: Seq<char>|
            declares(final(o), name) == (declares(old(o), name) || name == short@ || name
                == long@),
        all_named(final(o)) == all_named(old(o)),
{
    o.optflag(short, long, desc);
}

/// `Options::optopt`, which panics on names of other lengths: declares an
/// option with an argument under both names, so a named one.
#[verifier::external_body]
pub(crate) fn options_opt(o: &mut Options, short: &str, long: &str, desc: &str, hint: &str)
    requires
        names_ok(short, long),
    ensures
        forall|name: Seq<char>|
            declares(final(o), name) == (declares(old(o), name) || name == short@ || name
                == long@),
        all_named(final(o)) == all_named(old(o)),
{
    o.optopt(short, long, desc, hint);
}

/// `Options::parse`, which panics on an option without a name: the
/// matches, which define the names that the options declare, or why the
/// arguments do not fit the options.
#[verifier::external_body]
pub(crate) fn options_parse(o: &Options, args: &[String]) -> (r: Result<Matches, Fail>)
    requires
        all_named(o),
    ensures
        r == parse_of(o, texts(args@)),
        r is Ok ==> forall|name: Seq<char>| defines(&r->Ok_0, name) == declares(o, name),
{
    o.parse(args)
}

/// `Matches::opt_present`, which panics on a name that is not defined.
#[verifier::external_body]
pub(crate) fn matches_present(m: &Matches, name: &str) -> (r: bool)
    requires
        defines(m, name@),
    ensures
        r == given(m, name@),
{
    m.opt_present(name)
}

/// `Matches::opt_str`, which panics on a name that is not defined.
#[verifier::external_body]
pub(crate) fn matches_str(m: &Matches, name: &str) -> (r: Option<String>)
    requires
        defines(m, name@),
    ensures
        match r {
            Some(s) => value_of(m, name@) == Some(s@),
            None => value_of(m, name@) is None,
        },
{
    m.opt_str(name)
}

/// The field `free` of `Matches`: the arguments that belong to no option.
#[verifier::external_body]
pub(crate) fn matches_free(m: &Matches) -> (r: Vec<String>)
    ensures
        texts(r@) == free_of(m),
{
    m.free.clone()
}

} // verus!
