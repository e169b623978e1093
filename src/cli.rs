//! The command line: its subcommands and their arguments.
use clap::{Arg, ArgAction, Command};
use vstd::prelude::*;

verus! {

/// The version the command reports.
pub const VERSION: &'static str = "0.1.0";

#[verifier::external_type_specification]
#[verifier::external_body]
pub struct ExCommand(Command);

#[verifier::external_type_specification]
#[verifier::external_body]
pub struct ExArg(Arg);

/// The name a command is called by.
pub uninterp spec fn clap_name(c: Command) -> Seq<char>;

/// The arguments of a command, in the order they were added.
pub uninterp spec fn clap_args(c: Command) -> Seq<Arg>;

/// The subcommands of a command, in the order they were added.
pub uninterp spec fn clap_subcommands(c: Command) -> Seq<Command>;

/// The id of an argument.
pub uninterp spec fn clap_arg_id(a: Arg) -> Seq<char>;

/// The short name of an argument, if it has one.
pub uninterp spec fn clap_arg_short(a: Arg) -> Option<char>;

/// The long name of an argument, if it has one.
pub uninterp spec fn clap_arg_long(a: Arg) -> Option<Seq<char>>;

/// The argument counts its occurrences.
pub uninterp spec fn clap_arg_counts(a: Arg) -> bool;

/// The argument becomes true when given.
pub uninterp spec fn clap_arg_sets_true(a: Arg) -> bool;

/// The argument must be given.
pub uninterp spec fn clap_arg_required(a: Arg) -> bool;

/// The argument is passed down to every subcommand.
pub uninterp spec fn clap_arg_global(a: Arg) -> bool;

/// How many values the argument takes, if that was set: at least the first
/// number, and no more when the second part is false.
pub uninterp spec fn clap_arg_values(a: Arg) -> Option<(nat, bool)>;

/// `x` and `y` agree on every setting above.
pub open spec fn same_arg(x: Arg, y: Arg) -> bool {
    &&& clap_arg_id(x) == clap_arg_id(y)
    &&& clap_arg_short(x) == clap_arg_short(y)
    &&& clap_arg_long(x) == clap_arg_long(y)
    &&& clap_arg_counts(x) == clap_arg_counts(y)
    &&& clap_arg_sets_true(x) == clap_arg_sets_true(y)
    &&& clap_arg_required(x) == clap_arg_required(y)
    &&& clap_arg_global(x) == clap_arg_global(y)
    &&& clap_arg_values(x) == clap_arg_values(y)
}

/// `x` and `y` agree on name, arguments and subcommands.
pub open spec fn same_command(x: Command, y: Command) -> bool {
    &&& clap_name(x) == clap_name(y)
    &&& clap_args(x) == clap_args(y)
    &&& clap_subcommands(x) == clap_subcommands(y)
}

/// `a` is the flag `-short` / `--id`, counting or set-true, not required and
/// taking no values.
pub open spec fn is_flag(a: Arg, id: Seq<char>, short: char, counts: bool) -> bool {
    &&& clap_arg_id(a) == id
    &&& clap_arg_short(a) == Some(short)
    &&& clap_arg_long(a) == Some(id)
    &&& clap_arg_counts(a) == counts
    &&& clap_arg_sets_true(a) == !counts
    &&& !clap_arg_required(a)
    &&& clap_arg_values(a) is None
}

/// `c` is the subcommand `name`, with one argument and no subcommands.
pub open spec fn one_arg_command(c: Command, name: Seq<char>) -> bool {
    &&& clap_name(c) == name
    &&& clap_args(c).len() == 1
    &&& clap_subcommands(c).len() == 0
}

/// `a` is the required positional `dependency`, taking one value or more.
pub open spec fn is_dependency_list(a: Arg) -> bool {
    &&& clap_arg_id(a) == "dependency"@
    &&& clap_arg_short(a) is None
    &&& clap_arg_long(a) is None
    &&& clap_arg_required(a)
    &&& !clap_arg_global(a)
    &&& clap_arg_values(a) == Some((1nat, true))
}

/// How a flag records its occurrences.
#[derive(Debug, Clone, Copy, PartialEq, Eq, Structural)]
pub enum FlagKind {
    /// Counts how often the flag is given.
    Count,
    /// Becomes true when the flag is given.
    SetTrue,
}

/// Relies on `Command::new`: a command of that name with no argument and no subcommand.
#[verifier::external_body]
fn command_new(name: &'static str) -> (r: Command)
    ensures
        clap_name(r) == name@,
        clap_args(r) == Seq::<Arg>::empty(),
        clap_subcommands(r) == Seq::<Command>::empty(),
{
    Command::new(name)
}

/// Relies on `Command::version`, which changes nothing modelled here.
#[verifier::external_body]
fn command_version(c: Command, v: &'static str) -> (r: Command)
    ensures
        same_command(r, c),
{
    c.version(v)
}

/// Relies on `Command::author`, which changes nothing modelled here.
#[verifier::external_body]
fn command_author(c: Command, a: &'static str) -> (r: Command)
    ensures
        same_command(r, c),
{
    c.author(a)
}

/// Relies on `Command::about`, which changes nothing modelled here.
#[verifier::external_body]
fn command_about(c: Command, a: &'static str) -> (r: Command)
    ensures
        same_command(r, c),
{
    c.about(a)
}

/// Relies on `Command::infer_subcommands`, which changes nothing modelled here.
#[verifier::external_body]
fn command_infer_subcommands(c: Command, yes: bool) -> (r: Command)
    ensures
        same_command(r, c),
{
    c.infer_subcommands(yes)
}

/// Relies on `Command::arg`: the argument goes last; only its display order
/// and help heading, not modelled here, may be filled in.
#[verifier::external_body]
fn command_arg(c: Command, a: Arg) -> (r: Command)
    ensures
        clap_name(r) == clap_name(c),
        clap_subcommands(r) == clap_subcommands(c),
        clap_args(r).len() == clap_args(c).len() + 1,
        clap_args(r).drop_last() == clap_args(c),
        same_arg(clap_args(r).last(), a),
{
    c.arg(a)
}

/// Relies on `Command::subcommand`: the subcommand goes last; only its
/// display order, not modelled here, may be filled in.
#[verifier::external_body]
fn command_subcommand(c: Command, s: Command) -> (r: Command)
    ensures
        clap_name(r) == clap_name(c),
        clap_args(r) == clap_args(c),
        clap_subcommands(r).len() == clap_subcommands(c).len() + 1,
        clap_subcommands(r).drop_last() == clap_subcommands(c),
        same_command(clap_subcommands(r).last(), s),
{
    c.subcommand(s)
}

/// Relies on `Arg::new`: an argument with that id and every other setting at its default.
#[verifier::external_body]
fn arg_new(id: &'static str) -> (r: Arg)
    ensures
        clap_arg_id(r) == id@,
        clap_arg_short(r) is None,
        clap_arg_long(r) is None,
        !clap_arg_counts(r),
        !clap_arg_sets_true(r),
        !clap_arg_required(r),
        !clap_arg_global(r),
        clap_arg_values(r) is None,
{
    Arg::new(id)
}

/// Relies on `Arg::help`, which changes nothing modelled here.
#[verifier::external_body]
fn arg_help(a: Arg, h: &'static str) -> (r: Arg)
    ensures
        same_arg(r, a),
{
    a.help(h)
}

/// Relies on `Arg::short`, which rejects `-` in debug builds.
#[verifier::external_body]
fn arg_short(a: Arg, c: char) -> (r: Arg)
    requires
        c != '-',
    ensures
        clap_arg_short(r) == Some(c),
        clap_arg_id(r) == clap_arg_id(a),
        clap_arg_long(r) == clap_arg_long(a),
        clap_arg_counts(r) == clap_arg_counts(a),
        clap_arg_sets_true(r) == clap_arg_sets_true(a),
        clap_arg_required(r) == clap_arg_required(a),
        clap_arg_global(r) == clap_arg_global(a),
        clap_arg_values(r) == clap_arg_values(a),
{
    a.short(c)
}

/// Relies on `Arg::long`.
#[verifier::external_body]
fn arg_long(a: Arg, l: &'static str) -> (r: Arg)
    ensures
        clap_arg_long(r) == Some(l@),
        clap_arg_id(r) == clap_arg_id(a),
        clap_arg_short(r) == clap_arg_short(a),
        clap_arg_counts(r) == clap_arg_counts(a),
        clap_arg_sets_true(r) == clap_arg_sets_true(a),
        clap_arg_required(r) == clap_arg_required(a),
        clap_arg_global(r) == clap_arg_global(a),
        clap_arg_values(r) == clap_arg_values(a),
{
    a.long(l)
}

/// Relies on `Arg::global`.
#[verifier::external_body]
fn arg_global(a: Arg, yes: bool) -> (r: Arg)
    ensures
        clap_arg_global(r) == yes,
        clap_arg_id(r) == clap_arg_id(a),
        clap_arg_short(r) == clap_arg_short(a),
        clap_arg_long(r) == clap_arg_long(a),
        clap_arg_counts(r) == clap_arg_counts(a),
        clap_arg_sets_true(r) == clap_arg_sets_true(a),
        clap_arg_required(r) == clap_arg_required(a),
        clap_arg_values(r) == clap_arg_values(a),
{
    a.global(yes)
}

/// Relies on `Arg::action`, with the clap action of the same name.
#[verifier::external_body]
fn arg_action(a: Arg, k: FlagKind) -> (r: Arg)
    ensures
        clap_arg_counts(r) == (k == FlagKind::Count),
        clap_arg_sets_true(r) == (k == FlagKind::SetTrue),
        clap_arg_id(r) == clap_arg_id(a),
        clap_arg_short(r) == clap_arg_short(a),
        clap_arg_long(r) == clap_arg_long(a),
        clap_arg_required(r) == clap_arg_required(a),
        clap_arg_global(r) == clap_arg_global(a),
        clap_arg_values(r) == clap_arg_values(a),
{
    match k {
        FlagKind::Count => a.action(ArgAction::Count),
        FlagKind::SetTrue => a.action(ArgAction::SetTrue),
    }
}

/// Relies on `Arg::required`.
#[verifier::external_body]
fn arg_required(a: Arg, yes: bool) -> (r: Arg)
    ensures
        clap_arg_required(r) == yes,
        clap_arg_id(r) == clap_arg_id(a),
        clap_arg_short(r) == clap_arg_short(a),
        clap_arg_long(r) == clap_arg_long(a),
        clap_arg_counts(r) == clap_arg_counts(a),
        clap_arg_sets_true(r) == clap_arg_sets_true(a),
        clap_arg_global(r) == clap_arg_global(a),
        clap_arg_values(r) == clap_arg_values(a),
{
    a.required(yes)
}

/// Relies on `Arg::num_args`: `min` values or more when `unbounded`, else exactly `min`.
#[verifier::external_body]
fn arg_num_args(a: Arg, min: usize, unbounded: bool) -> (r: Arg)
    ensures
        clap_arg_values(r) == Some((min as nat, unbounded)),
        clap_arg_id(r) == clap_arg_id(a),
        clap_arg_short(r) == clap_arg_short(a),
        clap_arg_long(r) == clap_arg_long(a),
        clap_arg_counts(r) == clap_arg_counts(a),
        clap_arg_sets_true(r) == clap_arg_sets_true(a),
        clap_arg_required(r) == clap_arg_required(a),
        clap_arg_global(r) == clap_arg_global(a),
{
    if unbounded {
        a.num_args(min..)
    } else {
        a.num_args(min)
    }
}

fn flag(id: &'static str, help: &'static str, short: char, kind: FlagKind) -> (r: Arg)
    requires
        short != '-',
    ensures
        is_flag(r, id@, short, kind == FlagKind::Count),
        !clap_arg_global(r),
{
    let a = arg_new(id);
    let a = arg_help(a, help);
    let a = arg_short(a, short);
    let a = arg_long(a, id);
    arg_action(a, kind)
}

fn dependency_command(name: &'static str, about: &'static str, help: &'static str) -> (r: Command)
    ensures
        one_arg_command(r, name@),
        is_dependency_list(clap_args(r)[0]),
{
    let a = arg_new("dependency");
    let a = arg_required(a, true);
    let a = arg_help(a, help);
    let a = arg_num_args(a, 1, true);
    command_arg(command_about(command_new(name), about), a)
}

/// The command line of the tool: global `verbose` and `quiet` counters, and
/// the subcommands `add`, `del`, `new`, `show` and `update`.
pub fn clap() -> (r: Command)
    ensures
        clap_name(r) == "giddy"@,
        clap_args(r).len() == 2,
        is_flag(clap_args(r)[0], "verbose"@, 'v', true) && clap_arg_global(clap_args(r)[0]),
        is_flag(clap_args(r)[1], "quiet"@, 'q', true) && clap_arg_global(clap_args(r)[1]),
        clap_subcommands(r).len() == 5,
        one_arg_command(clap_subcommands(r)[0], "add"@),
        is_dependency_list(clap_args(clap_subcommands(r)[0])[0]),
        one_arg_command(clap_subcommands(r)[1], "del"@),
        is_dependency_list(clap_args(clap_subcommands(r)[1])[0]),
        one_arg_command(clap_subcommands(r)[2], "new"@),
        ({
            let a = clap_args(clap_subcommands(r)[2])[0];
            &&& clap_arg_id(a) == "name"@
            &&& clap_arg_short(a) is None && clap_arg_long(a) is None
            &&& !clap_arg_required(a) && !clap_arg_global(a)
            &&& clap_arg_values(a) == Some((1nat, false))
        }),
        one_arg_command(clap_subcommands(r)[3], "show"@),
        is_flag(clap_args(clap_subcommands(r)[3])[0], "tree"@, 't', false),
        one_arg_command(clap_subcommands(r)[4], "update"@),
        is_flag(clap_args(clap_subcommands(r)[4])[0], "recursive"@, 'r', false),
{
    let c = command_new("giddy");
    let c = command_version(c, VERSION);
    let c = command_author(c, "Kaspar Schleiser <kaspar@schleiser.de>");
    let c = command_about(c, "Tend your trees");
    let c = command_infer_subcommands(c, true);
    let verbose = flag("verbose", "be verbose (e.g., show command lines)", 'v', FlagKind::Count);
    let c = command_arg(c, arg_global(verbose, true));
    let quiet = flag("quiet", "do not print giddy messages", 'q', FlagKind::Count);
    let c = command_arg(c, arg_global(quiet, true));
    let add = dependency_command(
        "add",
        "add a dependency to this branch",
        "branch to add as dependency of this branch",
    );
    let c = command_subcommand(c, add);
    let del = dependency_command(
        "del",
        "remove a dependency from this branch",
        "branch to remove from the dependencies of this branch",
    );
    let c = command_subcommand(c, del);
    let name = arg_num_args(arg_help(arg_new("name"), "name of the new branch"), 1, false);
    let new = command_arg(command_about(command_new("new"), "add a new branch based on the current branch"), name);
    let c = command_subcommand(c, new);
    let tree = flag("tree", "show dependencies in tree form", 't', FlagKind::SetTrue);
    let show = command_arg(command_about(command_new("show"), "show git branch dependency status"), tree);
    let c = command_subcommand(c, show);
    let recursive = flag("recursive", "also update dependencies", 'r', FlagKind::SetTrue);
    let update = command_arg(
        command_about(command_new("update"), "rebase git branch on it's dependencies"),
        recursive,
    );
    let c = command_subcommand(c, update);
    c
}

} // verus!
