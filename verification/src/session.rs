use crate::answer::{accepts, is_yes};
use crate::cache::ErrorKind;
use crate::hits::{hit_paths, parse_paths};
use vstd::prelude::*;

verus! {

/// Exit status: every listed path was deleted (missing ones skipped), or help
/// or the version was shown.
pub const EXIT_OK: i32 = 0;

/// Exit status: no paths, the user said no, or some deletion failed.
pub const EXIT_FAILURE: i32 = 1;

/// Exit status: there was no input to read.
pub const EXIT_NO_INPUT: i32 = 2;

/// What the command line asks for.
pub enum Command {
    /// Print the usage and stop.
    ShowHelp,
    /// Print the version and stop.
    ShowVersion,
    /// Delete the paths listed in `file`, or in the input when there is no
    /// file; ask first unless `skip_confirm`.
    Delete { file: Option<String>, skip_confirm: bool },
}

/// A command line as text.
pub enum CommandSpec {
    ShowHelp,
    ShowVersion,
    Delete { file: Option<Seq<char>>, skip_confirm: bool },
}

impl View for Command {
    type V = CommandSpec;

    open spec fn view(&self) -> CommandSpec {
        match self {
            Command::ShowHelp => CommandSpec::ShowHelp,
            Command::ShowVersion => CommandSpec::ShowVersion,
            Command::Delete { file, skip_confirm } => CommandSpec::Delete {
                file: match file {
                    Some(f) => Some(f@),
                    None => None,
                },
                skip_confirm: *skip_confirm,
            },
        }
    }
}

/// `-h` or `--help`.
pub open spec fn is_help_flag(arg: Seq<char>) -> bool {
    arg == "-h"@ || arg == "--help"@
}

/// `-V` or `--version`.
pub open spec fn is_version_flag(arg: Seq<char>) -> bool {
    arg == "-V"@ || arg == "--version"@
}

/// `-y` or `--yes`.
pub open spec fn is_yes_flag(arg: Seq<char>) -> bool {
    arg == "-y"@ || arg == "--yes"@
}

/// The command that the arguments `args` ask for, read from left to right
/// with the file and the skip flag seen so far: help or version stops the
/// reading at once; any argument that is not a flag names the file, the last
/// one winning.
pub open spec fn command_from(args: Seq<Seq<char>>, file: Option<Seq<char>>, skip: bool) -> CommandSpec
    decreases args.len(),
{
    if args.len() == 0 {
        CommandSpec::Delete { file, skip_confirm: skip }
    } else if is_help_flag(args[0]) {
        CommandSpec::ShowHelp
    } else if is_version_flag(args[0]) {
        CommandSpec::ShowVersion
    } else if is_yes_flag(args[0]) {
        command_from(args.drop_first(), file, true)
    } else {
        command_from(args.drop_first(), Some(args[0]), skip)
    }
}

/// The command that the arguments after the program's name ask for.
pub open spec fn command(args: Seq<Seq<char>>) -> CommandSpec {
    command_from(args, None, false)
}

fn same_text(arg: &String, text: &str) -> (r: bool)
    ensures
        r == (arg@ == text@),
{
    let owned = text.to_string();
    *arg == owned
}

/// Reads the arguments that follow the program's name.
pub fn parse_args(args: &Vec<String>) -> (cmd: Command)
    ensures
        cmd@ == command(args.deep_view()),
{
    let ghost all = args.deep_view();
    let mut file: Option<String> = None;
    let mut skip_confirm: bool = false;
    let mut i: usize = 0;
    assert(all.skip(0) =~= all);
    while i < args.len()
        invariant
            all == args.deep_view(),
            i <= args@.len(),
            command_from(
                all.skip(i as int),
                match file {
                    Some(f) => Some(f@),
                    None => None,
                },
                skip_confirm,
            ) == command(all),
        decreases args@.len() - i,
    {
        let arg = &args[i];
        assert(all.skip(i as int)[0] == arg@);
        assert(all.skip(i as int).drop_first() =~= all.skip(i + 1));
        if same_text(arg, "-h") || same_text(arg, "--help") {
            return Command::ShowHelp;
        }
        if same_text(arg, "-V") || same_text(arg, "--version") {
            return Command::ShowVersion;
        }
        if same_text(arg, "-y") || same_text(arg, "--yes") {
            skip_confirm = true;
        } else {
            file = Some(arg.clone());
        }
        i = i + 1;
    }
    assert(all.skip(i as int) =~= Seq::<Seq<char>>::empty());
    Command::Delete { file, skip_confirm }
}

/// Why a run stops before deleting anything.
#[derive(PartialEq, Eq, Structural, Clone, Copy, Debug)]
pub enum StopReason {
    /// No file was named, nothing was piped in, and no search left hits.
    NoLastHits,
    /// The input could not be read.
    Unreadable,
    /// The input names no path.
    NoPaths,
    /// The user did not confirm.
    Aborted,
}

/// What a run does next.
pub enum Step {
    /// Print the reason and exit with `code`.
    Stop { reason: StopReason, code: i32 },
    /// Ask the user whether to delete the paths.
    Confirm { paths: Vec<Vec<u8>> },
    /// Delete the paths.
    Delete { paths: Vec<Vec<u8>> },
}

/// What follows reading the input, where `has_file` says whether a file was
/// named: a failure ends the run with status 2, and a failure to find input
/// without a named file means that no search left hits; an input that names
/// no path ends it with status 1; otherwise the paths are deleted, after
/// asking unless `skip_confirm`.
pub fn after_load(has_file: bool, skip_confirm: bool, input: Result<Vec<u8>, ErrorKind>) -> (s: Step)
    ensures
        input matches Err(kind) ==> s == (Step::Stop {
            reason: if !has_file && kind == ErrorKind::NotFound {
                StopReason::NoLastHits
            } else {
                StopReason::Unreadable
            },
            code: EXIT_NO_INPUT,
        }),
        input matches Ok(bytes) ==> {
            let paths = hit_paths(bytes@);
            if paths.len() == 0 {
                s == (Step::Stop { reason: StopReason::NoPaths, code: EXIT_FAILURE })
            } else if skip_confirm {
                s matches Step::Delete { paths: p } && p.deep_view() == paths
            } else {
                s matches Step::Confirm { paths: p } && p.deep_view() == paths
            }
        },
{
    match input {
        Err(kind) => {
            let reason = if !has_file && kind == ErrorKind::NotFound {
                StopReason::NoLastHits
            } else {
                StopReason::Unreadable
            };
            Step::Stop { reason, code: EXIT_NO_INPUT }
        },
        Ok(bytes) => {
            let paths = parse_paths(bytes.as_slice());
            if paths.len() == 0 {
                Step::Stop { reason: StopReason::NoPaths, code: EXIT_FAILURE }
            } else if skip_confirm {
                Step::Delete { paths }
            } else {
                Step::Confirm { paths }
            }
        },
    }
}

/// What follows asking for confirmation: the paths are deleted only when the
/// reply was read and says yes; otherwise the run is aborted with status 1.
pub fn after_answer(paths: Vec<Vec<u8>>, read_ok: bool, line: &str) -> (s: Step)
    ensures
        read_ok && accepts(line@) ==> s == (Step::Delete { paths }),
        !(read_ok && accepts(line@)) ==> s == (Step::Stop {
            reason: StopReason::Aborted,
            code: EXIT_FAILURE,
        }),
{
    if read_ok && is_yes(line) {
        Step::Delete { paths }
    } else {
        Step::Stop { reason: StopReason::Aborted, code: EXIT_FAILURE }
    }
}

/// The exit status after deleting: 0 when nothing failed, 1 otherwise.
pub fn exit_code(failed: u64) -> (code: i32)
    ensures
        code == if failed == 0 {
            EXIT_OK
        } else {
            EXIT_FAILURE
        },
{
    if failed == 0 {
        EXIT_OK
    } else {
        EXIT_FAILURE
    }
}


proof fn lemma_command_from_delete(args: Seq<Seq<char>>, file: Option<Seq<char>>, skip: bool)
    requires
        forall|i: int|
            0 <= i < args.len() ==> !is_help_flag(#[trigger] args[i]) && !is_version_flag(args[i]),
    ensures
        command_from(args, file, skip) is Delete,
        command_from(args, file, skip)->skip_confirm == (skip || exists|i: int|
            0 <= i < args.len() && is_yes_flag(#[trigger] args[i])),
        (forall|i: int| 0 <= i < args.len() ==> is_yes_flag(#[trigger] args[i])) ==> command_from(
            args,
            file,
            skip,
        )->file == file,
        forall|k: int|
            0 <= k < args.len() && !is_yes_flag(#[trigger] args[k]) && (forall|j: int|
                k < j < args.len() ==> is_yes_flag(#[trigger] args[j])) ==> command_from(
                args,
                file,
                skip,
            )->file == Some(args[k]),
    decreases args.len(),
{
    if args.len() > 0 {
        let rest = args.drop_first();
        assert forall|i: int| 0 <= i < rest.len() implies !is_help_flag(#[trigger] rest[i])
            && !is_version_flag(rest[i]) by {
            assert(rest[i] == args[i + 1]);
        }
        let a0 = args[0];
        let next_file = if is_yes_flag(a0) {
            file
        } else {
            Some(a0)
        };
        let next_skip = skip || is_yes_flag(a0);
        lemma_command_from_delete(rest, next_file, next_skip);
        assert(command_from(args, file, skip) == command_from(rest, next_file, next_skip));
        let c = command_from(args, file, skip);
        assert(c->skip_confirm == (skip || exists|i: int|
            0 <= i < args.len() && is_yes_flag(#[trigger] args[i]))) by {
            if exists|i: int| 0 <= i < rest.len() && is_yes_flag(#[trigger] rest[i]) {
                let i = choose|i: int| 0 <= i < rest.len() && is_yes_flag(#[trigger] rest[i]);
                assert(args[i + 1] == rest[i]);
            }
            if exists|i: int| 0 <= i < args.len() && is_yes_flag(#[trigger] args[i]) {
                let i = choose|i: int| 0 <= i < args.len() && is_yes_flag(#[trigger] args[i]);
                if i > 0 {
                    assert(rest[i - 1] == args[i]);
                }
            }
        }
        if forall|i: int| 0 <= i < args.len() ==> is_yes_flag(#[trigger] args[i]) {
            assert(is_yes_flag(args[0]));
            assert forall|i: int| 0 <= i < rest.len() implies is_yes_flag(#[trigger] rest[i]) by {
                assert(rest[i] == args[i + 1]);
            }
        }
        assert forall|k: int|
            0 <= k < args.len() && !is_yes_flag(#[trigger] args[k]) && (forall|j: int|
                k < j < args.len() ==> is_yes_flag(#[trigger] args[j])) implies c->file == Some(
            args[k],
        ) by {
            if k == 0 {
                assert forall|i: int| 0 <= i < rest.len() implies is_yes_flag(#[trigger] rest[i]) by {
                    assert(rest[i] == args[i + 1]);
                }
            } else {
                assert(rest[k - 1] == args[k]);
                assert forall|j: int| k - 1 < j < rest.len() implies is_yes_flag(#[trigger] rest[j]) by {
                    assert(rest[j] == args[j + 1]);
                }
            }
        }
    }
}

/// Without help or version flags the command line asks for a deletion: the
/// prompt is skipped exactly when some argument is `-y` or `--yes`, wherever
/// it stands and whether or not a file is named; the file is the last
/// argument that is not such a flag, and there is none when every argument
/// is one.
pub proof fn lemma_delete_command(args: Seq<Seq<char>>)
    requires
        forall|i: int|
            0 <= i < args.len() ==> !is_help_flag(#[trigger] args[i]) && !is_version_flag(args[i]),
    ensures
        command(args) is Delete,
        command(args)->skip_confirm == exists|i: int|
            0 <= i < args.len() && is_yes_flag(#[trigger] args[i]),
        (forall|i: int| 0 <= i < args.len() ==> is_yes_flag(#[trigger] args[i])) ==> command(
            args,
        )->file is None,
        forall|k: int|
            0 <= k < args.len() && !is_yes_flag(#[trigger] args[k]) && (forall|j: int|
                k < j < args.len() ==> is_yes_flag(#[trigger] args[j])) ==> command(args)->file
                == Some(args[k]),
{
    lemma_command_from_delete(args, None, false);
}

proof fn lemma_command_from_stop(args: Seq<Seq<char>>, file: Option<Seq<char>>, skip: bool, i: int)
    requires
        0 <= i < args.len(),
        is_help_flag(args[i]) || is_version_flag(args[i]),
        forall|j: int|
            0 <= j < i ==> !is_help_flag(#[trigger] args[j]) && !is_version_flag(args[j]),
    ensures
        is_help_flag(args[i]) ==> command_from(args, file, skip) == CommandSpec::ShowHelp,
        !is_help_flag(args[i]) ==> command_from(args, file, skip) == CommandSpec::ShowVersion,
    decreases i,
{
    if i > 0 {
        let rest = args.drop_first();
        assert(rest[i - 1] == args[i]);
        assert forall|j: int| 0 <= j < i - 1 implies !is_help_flag(#[trigger] rest[j])
            && !is_version_flag(rest[j]) by {
            assert(rest[j] == args[j + 1]);
        }
        assert(!is_help_flag(args[0]) && !is_version_flag(args[0]));
        let next_file = if is_yes_flag(args[0]) {
            file
        } else {
            Some(args[0])
        };
        lemma_command_from_stop(rest, next_file, skip || is_yes_flag(args[0]), i - 1);
    }
}

/// The first help or version flag decides, whatever comes before or after
/// it: help shows the usage, version the version.
pub proof fn lemma_first_stop_flag(args: Seq<Seq<char>>, i: int)
    requires
        0 <= i < args.len(),
        is_help_flag(args[i]) || is_version_flag(args[i]),
        forall|j: int|
            0 <= j < i ==> !is_help_flag(#[trigger] args[j]) && !is_version_flag(args[j]),
    ensures
        is_help_flag(args[i]) ==> command(args) == CommandSpec::ShowHelp,
        !is_help_flag(args[i]) ==> command(args) == CommandSpec::ShowVersion,
{
    lemma_command_from_stop(args, None, false, i);
}

/// The flags, spelled out: `-h` and `--help`, `-V` and `--version`, `-y` and
/// `--yes`; every other argument names the file.
pub proof fn lemma_flag_spellings(arg: Seq<char>)
    ensures
        is_help_flag(arg) <==> arg == seq!['-', 'h'] || arg == seq!['-', '-', 'h', 'e', 'l', 'p'],
        is_version_flag(arg) <==> arg == seq!['-', 'V'] || arg == seq![
            '-',
            '-',
            'v',
            'e',
            'r',
            's',
            'i',
            'o',
            'n',
        ],
        is_yes_flag(arg) <==> arg == seq!['-', 'y'] || arg == seq!['-', '-', 'y', 'e', 's'],
{
    reveal_strlit("-h");
    reveal_strlit("--help");
    reveal_strlit("-V");
    reveal_strlit("--version");
    reveal_strlit("-y");
    reveal_strlit("--yes");
    assert("-h"@ =~= seq!['-', 'h']);
    assert("--help"@ =~= seq!['-', '-', 'h', 'e', 'l', 'p']);
    assert("-V"@ =~= seq!['-', 'V']);
    assert("--version"@ =~= seq!['-', '-', 'v', 'e', 'r', 's', 'i', 'o', 'n']);
    assert("-y"@ =~= seq!['-', 'y']);
    assert("--yes"@ =~= seq!['-', '-', 'y', 'e', 's']);
}

} // verus!
