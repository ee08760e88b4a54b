//! Reading the command line: version, help, the SSH and WSL2 setup commands,
//! or the clipboard daemon.
use vstd::prelude::*;
use crate::text::str_eq;

verus! {

/// What the program is asked to do.
pub enum Command {
    /// Print the version (`--version` or `-v` anywhere).
    Version,
    /// Print the help (`--help` or `-h` anywhere, or `ssh-setup` without a destination).
    Help,
    /// `ssh-setup <destination>`.
    SshSetup(String),
    /// `wsl-setup`.
    WslSetup,
    /// Run the clipboard daemon.
    Run,
}

/// Some argument is `a` or `b`.
pub open spec fn has_arg(args: Seq<Seq<char>>, a: Seq<char>, b: Seq<char>) -> bool {
    exists|i: int| 0 <= i < args.len() && (args[i] == a || args[i] == b)
}

pub open spec fn args_view(args: Seq<String>) -> Seq<Seq<char>> {
    args.map_values(|s: String| s@)
}

fn any_arg(args: &Vec<String>, a: &str, b: &str) -> (r: bool)
    ensures
        r == has_arg(args_view(args@), a@, b@),
{
    let ghost av = args_view(args@);
    let mut i: usize = 0;
    while i < args.len()
        invariant
            av == args_view(args@),
            i <= args@.len(),
            forall|j: int| 0 <= j < i ==> av[j] != a@ && av[j] != b@,
        decreases args.len() - i,
    {
        assert(av[i as int] == args@[i as int]@);
        if str_eq(args[i].as_str(), a) || str_eq(args[i].as_str(), b) {
            return true;
        }
        i = i + 1;
    }
    false
}

/// Reads the command line; `args[0]` is the program, and is looked at too for
/// `--version` and `--help`, as any other argument.
pub fn parse_command(args: &Vec<String>) -> (r: Command)
    ensures
        ({
            let av = args_view(args@);
            if has_arg(av, "--version"@, "-v"@) {
                r is Version
            } else if has_arg(av, "--help"@, "-h"@) {
                r is Help
            } else if av.len() >= 2 && av[1] == "ssh-setup"@ {
                if av.len() >= 3 {
                    r matches Command::SshSetup(h) && h@ == av[2]
                } else {
                    r is Help
                }
            } else if av.len() >= 2 && av[1] == "wsl-setup"@ {
                r is WslSetup
            } else {
                r is Run
            }
        }),
{
    let ghost av = args_view(args@);
    if any_arg(args, "--version", "-v") {
        return Command::Version;
    }
    if any_arg(args, "--help", "-h") {
        return Command::Help;
    }
    if args.len() >= 2 {
        assert(av[1] == args@[1]@);
        if str_eq(args[1].as_str(), "ssh-setup") {
            if args.len() >= 3 {
                assert(av[2] == args@[2]@);
                return Command::SshSetup(args[2].clone());
            }
            return Command::Help;
        }
        if str_eq(args[1].as_str(), "wsl-setup") {
            return Command::WslSetup;
        }
    }
    Command::Run
}

} // verus!
