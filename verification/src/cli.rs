//! The command lines of the server, the kiosk and the timer.

use vstd::prelude::*;

use crate::text::{chars_eq_str, chars_of, parse_nat, parse_usize, push_str, string_of, sub_chars};
use crate::web::starts;

verus! {

/// What the server is asked to do.
#[derive(Debug, Clone)]
pub enum Command {
    /// Start the server; `force_admin` opens the admin panel directly.
    Server { force_admin: bool },
    /// Import questions from a JSON file.
    Import { path: String },
    /// A console run of a quiz, with this many questions.
    Preview { count: Option<usize> },
}

/// The parsed command line of the server.
#[derive(Debug, Clone)]
pub struct Cli {
    pub help: bool,
    pub config_path: Option<String>,
    pub command: Command,
}

pub enum CommandView {
    Server(bool),
    Import(Seq<char>),
    Preview(Option<int>),
}

pub struct ScanView {
    pub help: bool,
    pub config: Option<Seq<char>>,
    pub positionals: Seq<Seq<char>>,
}

pub open spec fn arg_views(args: Seq<String>) -> Seq<Seq<char>> {
    Seq::new(args.len(), |k: int| args[k]@)
}

/// Reading the arguments from `i` on, options and positionals: `-h`,
/// `--help`; `-c <file>`, `--config <file>`, `--config=<file>`; any other
/// argument starting with `-` is refused.
pub open spec fn scan(args: Seq<Seq<char>>, i: int, st: ScanView) -> Result<ScanView, Seq<char>>
    decreases args.len() - i,
{
    if i < 0 || i >= args.len() {
        Ok(st)
    } else {
        let a = args[i];
        if a == "-h"@ || a == "--help"@ {
            scan(args, i + 1, ScanView { help: true, config: st.config, positionals: st.positionals })
        } else if a == "-c"@ || a == "--config"@ {
            if i + 1 >= args.len() {
                Err("--config attend un chemin de fichier"@)
            } else {
                scan(
                    args,
                    i + 2,
                    ScanView { help: st.help, config: Some(args[i + 1]), positionals: st.positionals },
                )
            }
        } else if starts(a, "--config="@) {
            scan(
                args,
                i + 1,
                ScanView { help: st.help, config: Some(a.skip(9)), positionals: st.positionals },
            )
        } else if a.len() > 0 && a[0] == '-' {
            Err("option inconnue : "@ + a)
        } else {
            scan(
                args,
                i + 1,
                ScanView { help: st.help, config: st.config, positionals: st.positionals.push(a) },
            )
        }
    }
}

/// The command named by the positionals.
pub open spec fn command_of(pos: Seq<Seq<char>>) -> Result<CommandView, Seq<char>> {
    if pos.len() == 0 {
        Ok(CommandView::Server(false))
    } else if pos[0] == "admin"@ {
        Ok(CommandView::Server(true))
    } else if pos[0] == "import"@ {
        if pos.len() < 2 {
            Err("usage : sesame import <fichier.json>"@)
        } else {
            Ok(CommandView::Import(pos[1]))
        }
    } else if pos[0] == "preview"@ {
        if pos.len() < 2 {
            Ok(CommandView::Preview(None))
        } else {
            match parse_nat(pos[1]) {
                Some(n) => Ok(CommandView::Preview(Some(n))),
                None => Err("preview : le nombre de questions doit être un entier"@),
            }
        }
    } else {
        Err("commande inconnue : "@ + pos[0])
    }
}

pub open spec fn command_is(c: Command, v: CommandView) -> bool {
    match v {
        CommandView::Server(f) => c matches Command::Server { force_admin } && force_admin == f,
        CommandView::Import(p) => c matches Command::Import { path } && path@ == p,
        CommandView::Preview(n) => c matches Command::Preview { count } && match n {
            Some(k) => count matches Some(m) && m == k,
            None => count is None,
        },
    }
}

pub open spec fn opt_view(o: Option<String>) -> Option<Seq<char>> {
    match o {
        Some(s) => Some(s@),
        None => None,
    }
}

fn fail<T>(pre: &str, t: &str) -> (r: Result<T, String>)
    ensures
        r matches Err(m) && m@ == pre@ + t@,
{
    let mut m: Vec<char> = chars_of(pre);
    push_str(&mut m, t);
    Err(string_of(&m))
}

fn fail_msg<T>(msg: &str) -> (r: Result<T, String>)
    ensures
        r matches Err(m) && m@ == msg@,
{
    Err(string_of(&chars_of(msg)))
}

impl Cli {
    /// Reads the command line (the arguments after the program's name). Help
    /// short-cuts the command: with `-h`, the command is not read.
    pub fn parse(args: &[String]) -> (r: Result<Cli, String>)
        ensures
            match scan(arg_views(args@), 0, ScanView { help: false, config: None, positionals: Seq::empty() }) {
                Err(e) => r matches Err(m) && m@ == e,
                Ok(st) => if st.help {
                    r matches Ok(c) && c.help && opt_view(c.config_path) == st.config && command_is(
                        c.command,
                        CommandView::Server(false),
                    )
                } else {
                    match command_of(st.positionals) {
                        Err(e) => r matches Err(m) && m@ == e,
                        Ok(cv) => r matches Ok(c) && !c.help && opt_view(c.config_path) == st.config
                            && command_is(c.command, cv),
                    }
                },
            },
    {
        let ghost av = arg_views(args@);
        let mut help: bool = false;
        let mut config: Option<String> = None;
        let mut pos: Vec<String> = Vec::new();
        let mut i: usize = 0;
        assert(Seq::new(pos@.len(), |k: int| pos@[k]@) =~= Seq::<Seq<char>>::empty());
        while i < args.len()
            invariant
                i <= args@.len(),
                av == arg_views(args@),
                scan(av, 0, ScanView { help: false, config: None, positionals: Seq::empty() })
                    == scan(
                    av,
                    i as int,
                    ScanView {
                        help,
                        config: opt_view(config),
                        positionals: Seq::new(pos@.len(), |k: int| pos@[k]@),
                    },
                ),
            decreases args@.len() - i,
        {
            proof {
                reveal_strlit("-h");
                reveal_strlit("--help");
                reveal_strlit("-c");
                reveal_strlit("--config");
                reveal_strlit("--config=");
            }
            let a: &str = args[i].as_str();
            let c: Vec<char> = chars_of(a);
            assert(av[i as int] == c@);
            let ghost pv = Seq::new(pos@.len(), |k: int| pos@[k]@);
            if chars_eq_str(&c, "-h") || chars_eq_str(&c, "--help") {
                help = true;
                i = i + 1;
            } else if chars_eq_str(&c, "-c") || chars_eq_str(&c, "--config") {
                if i + 1 >= args.len() {
                    return fail_msg("--config attend un chemin de fichier");
                }
                config = Some(args[i + 1].clone());
                assert(av[i + 1] == args@[i + 1]@);
                i = i + 2;
            } else if crate::web::starts_with_str(a, "--config=") {
                let rest: Vec<char> = sub_chars(&c, 9, c.len());
                assert(rest@ == c@.skip(9));
                config = Some(string_of(&rest));
                i = i + 1;
            } else if c.len() > 0 && c[0] == '-' {
                return fail("option inconnue : ", a);
            } else {
                pos.push(args[i].clone());
                assert(Seq::new(pos@.len(), |k: int| pos@[k]@) =~= pv.push(c@));
                i = i + 1;
            }
        }
        let ghost pv = Seq::new(pos@.len(), |k: int| pos@[k]@);
        if help {
            return Ok(Cli { help, config_path: config, command: Command::Server { force_admin: false } });
        }
        proof {
            reveal_strlit("admin");
            reveal_strlit("import");
            reveal_strlit("preview");
        }
        let command: Command = if pos.len() == 0 {
            Command::Server { force_admin: false }
        } else {
            let first: Vec<char> = chars_of(pos[0].as_str());
            assert(pv[0] == first@);
            if chars_eq_str(&first, "admin") {
                Command::Server { force_admin: true }
            } else if chars_eq_str(&first, "import") {
                if pos.len() < 2 {
                    return fail_msg("usage : sesame import <fichier.json>");
                }
                assert(pv[1] == pos@[1]@);
                Command::Import { path: pos[1].clone() }
            } else if chars_eq_str(&first, "preview") {
                if pos.len() < 2 {
                    Command::Preview { count: None }
                } else {
                    let n: Vec<char> = chars_of(pos[1].as_str());
                    assert(pv[1] == n@);
                    assert(n@.subrange(0, n@.len() as int) == n@);
                    match parse_usize(&n, 0, n.len()) {
                        Some(k) => Command::Preview { count: Some(k) },
                        None => {
                            return fail_msg("preview : le nombre de questions doit être un entier");
                        },
                    }
                }
            } else {
                return fail("commande inconnue : ", pos[0].as_str());
            }
        };
        Ok(Cli { help, config_path: config, command })
    }
}

// ===== The kiosk and the timer ===================================================

/// What the command line of the kiosk or the timer asks for.
#[derive(Debug, Clone)]
pub enum ToolArgs {
    /// Print the help and stop.
    Help,
    /// Run, with this configuration file, and (kiosk) only check the verdict.
    Run { config_path: Option<String>, check_only: bool },
}

pub enum ToolArgsView {
    Help,
    Run(Option<Seq<char>>, bool),
}

/// Reading the arguments of the kiosk (`with_check`) or of the timer from `i`
/// on: help stops the reading; `--check` (kiosk only); `-c <file>`,
/// `--config <file>`, `--config=<file>`; anything else is refused, the help
/// appended to the message.
pub open spec fn scan_tool(
    args: Seq<Seq<char>>,
    i: int,
    with_check: bool,
    help: Seq<char>,
    config: Option<Seq<char>>,
    check: bool,
) -> Result<ToolArgsView, Seq<char>>
    decreases args.len() - i,
{
    if i < 0 || i >= args.len() {
        Ok(ToolArgsView::Run(config, check))
    } else {
        let a = args[i];
        if a == "-h"@ || a == "--help"@ {
            Ok(ToolArgsView::Help)
        } else if with_check && a == "--check"@ {
            scan_tool(args, i + 1, with_check, help, config, true)
        } else if a == "-c"@ || a == "--config"@ {
            if i + 1 >= args.len() {
                Err("--config attend un chemin de fichier"@)
            } else {
                scan_tool(args, i + 2, with_check, help, Some(args[i + 1]), check)
            }
        } else if starts(a, "--config="@) {
            scan_tool(args, i + 1, with_check, help, Some(a.skip(9)), check)
        } else {
            Err("option inconnue : "@ + a + "\n\n"@ + help)
        }
    }
}

/// Reads the command line of the kiosk (`with_check`) or of the timer;
/// `help` is the tool's help text.
pub fn parse_tool_args(args: &[String], with_check: bool, help: &str) -> (r: Result<ToolArgs, String>)
    ensures
        match scan_tool(arg_views(args@), 0, with_check, help@, None, false) {
            Err(e) => r matches Err(m) && m@ == e,
            Ok(ToolArgsView::Help) => r matches Ok(ToolArgs::Help),
            Ok(ToolArgsView::Run(c, k)) => r matches Ok(ToolArgs::Run { config_path, check_only })
                && opt_view(config_path) == c && check_only == k,
        },
{
    let ghost av = arg_views(args@);
    let mut config: Option<String> = None;
    let mut check: bool = false;
    let mut i: usize = 0;
    while i < args.len()
        invariant
            i <= args@.len(),
            av == arg_views(args@),
            scan_tool(av, 0, with_check, help@, None, false) == scan_tool(
                av,
                i as int,
                with_check,
                help@,
                opt_view(config),
                check,
            ),
        decreases args@.len() - i,
    {
        proof {
            reveal_strlit("-h");
            reveal_strlit("--help");
            reveal_strlit("-c");
            reveal_strlit("--config");
            reveal_strlit("--config=");
            reveal_strlit("--check");
        }
        let a: &str = args[i].as_str();
        let c: Vec<char> = chars_of(a);
        assert(av[i as int] == c@);
        if chars_eq_str(&c, "-h") || chars_eq_str(&c, "--help") {
            return Ok(ToolArgs::Help);
        } else if with_check && chars_eq_str(&c, "--check") {
            check = true;
            i = i + 1;
        } else if chars_eq_str(&c, "-c") || chars_eq_str(&c, "--config") {
            if i + 1 >= args.len() {
                return fail_msg("--config attend un chemin de fichier");
            }
            config = Some(args[i + 1].clone());
            assert(av[i + 1] == args@[i + 1]@);
            i = i + 2;
        } else if crate::web::starts_with_str(a, "--config=") {
            let rest: Vec<char> = sub_chars(&c, 9, c.len());
            assert(rest@ == c@.skip(9));
            config = Some(string_of(&rest));
            i = i + 1;
        } else {
            let mut m: Vec<char> = chars_of("option inconnue : ");
            push_str(&mut m, a);
            push_str(&mut m, "\n\n");
            push_str(&mut m, help);
            return Err(string_of(&m));
        }
    }
    Ok(ToolArgs::Run { config_path: config, check_only: check })
}

} // verus!
