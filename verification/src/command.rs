//! The command line: which command the arguments ask for.
use vstd::prelude::*;
use crate::location::str_eq;

verus! {

/// A command given on the command line.
#[derive(Debug, Clone, PartialEq, Eq)]
pub enum Command {
    /// No argument was given.
    NoArguments,
    /// Show the version.
    Version,
    /// Back up `source` into `destination` and track it.
    Track { source: String, destination: String },
    /// Bring the backups of tracked files up to date.
    Update,
    /// Back up `source` into `destination`.
    Backup { source: String, destination: String },
    /// Show the usage.
    Help,
    /// Arguments that ask for none of the commands: nothing is done.
    Unrecognized,
}

pub enum CommandView {
    NoArguments,
    Version,
    Track { source: Seq<char>, destination: Seq<char> },
    Update,
    Backup { source: Seq<char>, destination: Seq<char> },
    Help,
    Unrecognized,
}

impl View for Command {
    type V = CommandView;

    open spec fn view(&self) -> CommandView {
        match self {
            Command::NoArguments => CommandView::NoArguments,
            Command::Version => CommandView::Version,
            Command::Track { source, destination } => CommandView::Track {
                source: source@,
                destination: destination@,
            },
            Command::Update => CommandView::Update,
            Command::Backup { source, destination } => CommandView::Backup {
                source: source@,
                destination: destination@,
            },
            Command::Help => CommandView::Help,
            Command::Unrecognized => CommandView::Unrecognized,
        }
    }
}

pub open spec fn short_version_flag() -> Seq<char> {
    seq!['-', 'v']
}

pub open spec fn long_version_flag() -> Seq<char> {
    seq!['-', 'v', 'e', 'r', 's', 'i', 'o', 'n']
}

pub open spec fn long_track_flag() -> Seq<char> {
    seq!['-', 't', 'r', 'a', 'c', 'k']
}

pub open spec fn short_track_flag() -> Seq<char> {
    seq!['-', 't']
}

pub open spec fn long_update_flag() -> Seq<char> {
    seq!['-', 'u', 'p', 'd', 'a', 't', 'e']
}

pub open spec fn short_update_flag() -> Seq<char> {
    seq!['-', 'u']
}

pub open spec fn long_backup_flag() -> Seq<char> {
    seq!['-', 'b', 'a', 'c', 'k', 'u', 'p']
}

pub open spec fn short_backup_flag() -> Seq<char> {
    seq!['-', 'b']
}

pub open spec fn long_help_flag() -> Seq<char> {
    seq!['-', 'h', 'e', 'l', 'p']
}

pub open spec fn short_help_flag() -> Seq<char> {
    seq!['-', 'h']
}

/// The command that the arguments (after the program's name) ask for. The
/// long version flag, the short track, update, backup and help flags count
/// only with the right number of arguments; the short version flag and the
/// long track, update, backup and help flags count whatever follows them.
pub open spec fn command_of(args: Seq<Seq<char>>) -> CommandView {
    if args.len() == 0 {
        CommandView::NoArguments
    } else if args[0] == short_version_flag() || (args[0] == long_version_flag() && args.len() == 1) {
        CommandView::Version
    } else if args[0] == long_track_flag() || (args[0] == short_track_flag() && args.len() == 3) {
        CommandView::Track { source: args[1], destination: args[2] }
    } else if args[0] == long_update_flag() || (args[0] == short_update_flag() && args.len() == 1) {
        CommandView::Update
    } else if args[0] == long_backup_flag() || (args[0] == short_backup_flag() && args.len() == 3) {
        CommandView::Backup { source: args[1], destination: args[2] }
    } else if args[0] == long_help_flag() || (args[0] == short_help_flag() && args.len() == 1) {
        CommandView::Help
    } else {
        CommandView::Unrecognized
    }
}

/// The arguments that name a source and a destination hold both: the long
/// track and backup flags are not followed by fewer than two arguments.
pub open spec fn arguments_complete(args: Seq<Seq<char>>) -> bool {
    args.len() > 0 && args.len() < 3 ==> {
        &&& args[0] != long_track_flag()
        &&& args[0] != long_backup_flag()
    }
}

pub open spec fn args_view(args: Seq<String>) -> Seq<Seq<char>> {
    args.map_values(|a: String| a@)
}

/// Reads the command from the arguments that follow the program's name.
pub fn parse_command(args: &Vec<String>) -> (c: Command)
    requires
        arguments_complete(args_view(args@)),
    ensures
        c@ == command_of(args_view(args@)),
{
    let ghost a = args_view(args@);
    proof {
        reveal_strlit("-v");
        reveal_strlit("-version");
        reveal_strlit("-track");
        reveal_strlit("-t");
        reveal_strlit("-update");
        reveal_strlit("-u");
        reveal_strlit("-backup");
        reveal_strlit("-b");
        reveal_strlit("-help");
        reveal_strlit("-h");
        assert("-v"@ =~= short_version_flag());
        assert("-version"@ =~= long_version_flag());
        assert("-track"@ =~= long_track_flag());
        assert("-t"@ =~= short_track_flag());
        assert("-update"@ =~= long_update_flag());
        assert("-u"@ =~= short_update_flag());
        assert("-backup"@ =~= long_backup_flag());
        assert("-b"@ =~= short_backup_flag());
        assert("-help"@ =~= long_help_flag());
        assert("-h"@ =~= short_help_flag());
    }
    let n = args.len();
    if n == 0 {
        return Command::NoArguments;
    }
    assert(a[0] == args@[0]@);
    let first = args[0].as_str();
    if str_eq(first, "-v") || (str_eq(first, "-version") && n == 1) {
        Command::Version
    } else if str_eq(first, "-track") || (str_eq(first, "-t") && n == 3) {
        assert(a[1] == args@[1]@ && a[2] == args@[2]@);
        Command::Track { source: args[1].clone(), destination: args[2].clone() }
    } else if str_eq(first, "-update") || (str_eq(first, "-u") && n == 1) {
        Command::Update
    } else if str_eq(first, "-backup") || (str_eq(first, "-b") && n == 3) {
        assert(a[1] == args@[1]@ && a[2] == args@[2]@);
        Command::Backup { source: args[1].clone(), destination: args[2].clone() }
    } else if str_eq(first, "-help") || (str_eq(first, "-h") && n == 1) {
        Command::Help
    } else {
        Command::Unrecognized
    }
}

/// The documented flags select their commands: `-v` and `-version` show the
/// version, `-t`/`-track` with a source and a destination track, `-u` and
/// `-update` update, `-b`/`-backup` with a source and a destination back up,
/// `-h` and `-help` show the usage, and no argument is reported as such.
pub proof fn law_documented_flags(s: Seq<char>, d: Seq<char>)
    ensures
        command_of(Seq::empty()) == CommandView::NoArguments,
        command_of(seq![seq!['-', 'v']]) == CommandView::Version,
        command_of(seq![seq!['-', 'v', 'e', 'r', 's', 'i', 'o', 'n']]) == CommandView::Version,
        command_of(seq![seq!['-', 't'], s, d]) == (CommandView::Track { source: s, destination: d }),
        command_of(seq![seq!['-', 't', 'r', 'a', 'c', 'k'], s, d]) == (CommandView::Track {
            source: s,
            destination: d,
        }),
        command_of(seq![seq!['-', 'u']]) == CommandView::Update,
        command_of(seq![seq!['-', 'u', 'p', 'd', 'a', 't', 'e']]) == CommandView::Update,
        command_of(seq![seq!['-', 'b'], s, d]) == (CommandView::Backup { source: s, destination: d }),
        command_of(seq![seq!['-', 'b', 'a', 'c', 'k', 'u', 'p'], s, d]) == (CommandView::Backup {
            source: s,
            destination: d,
        }),
        command_of(seq![seq!['-', 'h']]) == CommandView::Help,
        command_of(seq![seq!['-', 'h', 'e', 'l', 'p']]) == CommandView::Help,
{
    let v = seq!['-', 'v'];
    let version = seq!['-', 'v', 'e', 'r', 's', 'i', 'o', 'n'];
    let t = seq!['-', 't'];
    let track = seq!['-', 't', 'r', 'a', 'c', 'k'];
    let u = seq!['-', 'u'];
    let update = seq!['-', 'u', 'p', 'd', 'a', 't', 'e'];
    let b = seq!['-', 'b'];
    let backup = seq!['-', 'b', 'a', 'c', 'k', 'u', 'p'];
    let h = seq!['-', 'h'];
    let help = seq!['-', 'h', 'e', 'l', 'p'];
    assert(v =~= short_version_flag());
    assert(version =~= long_version_flag());
    assert(t =~= short_track_flag());
    assert(track =~= long_track_flag());
    assert(u =~= short_update_flag());
    assert(update =~= long_update_flag());
    assert(b =~= short_backup_flag());
    assert(backup =~= long_backup_flag());
    assert(h =~= short_help_flag());
    assert(help =~= long_help_flag());
    // distinct flags differ in length or in a character
    assert(t != v && track != v && b != v && backup != v && u != v && update != v) by {
        assert(t[1] != v[1] && b[1] != v[1] && u[1] != v[1]);
    }
    assert(track != version && backup != version && update != version && help != version);
    assert(t != track && b != backup && u != update && h != help);
    assert(b != t) by {
        assert(b[1] != t[1]);
    }
    assert(backup != track) by {
        assert(backup[1] != track[1]);
    }
    assert(u != t && u != b) by {
        assert(u[1] != t[1] && u[1] != b[1]);
    }
    assert(update != track && update != backup) by {
        assert(update[1] != track[1] && update[1] != backup[1]);
    }
    assert(h != t && h != b && h != u && h != v) by {
        assert(h[1] != t[1] && h[1] != b[1] && h[1] != u[1] && h[1] != v[1]);
    }
    assert(help != track && help != backup && help != update) by {
        assert(help[1] != track[1] && help[1] != backup[1] && help[1] != update[1]);
    }
    assert(backup != t && b != track && track != b && update != t && update != b && u != track
        && u != backup);
    assert(help != t && help != b && help != u && h != track && h != backup && h != update && help
        != v && h != version);
}

} // verus!
