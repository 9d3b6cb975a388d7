//! Command-line arguments of the `codefacts` server.
use vstd::prelude::*;

use crate::lsp::LspMode;
use crate::text::{append_chars, chars_of, str_eq, string_from_chars};
use crate::types::opt_view;

verus! {

/// The usage line.
pub open spec fn usage_text() -> Seq<char> {
    "Usage: codefacts mcp [--root <default-repository>] [--state <external-sqlite-path>] [--lsp <auto|off>]"@
}

/// The usage line printed for `--help` and for malformed invocations.
pub fn usage() -> (r: String)
    ensures
        r@ == usage_text(),
{
    "Usage: codefacts mcp [--root <default-repository>] [--state <external-sqlite-path>] [--lsp <auto|off>]".to_owned()
}

/// What the server was started with: an optional default repository, an
/// optional external state file for it, and the LSP mode.
#[derive(Debug, PartialEq, Eq)]
pub struct Arguments {
    pub root: Option<String>,
    pub state: Option<String>,
    pub lsp_mode: LspMode,
}

/// The options after the command, read from position `i` on with the values
/// gathered so far.
pub open spec fn parse_options(
    args: Seq<Seq<char>>,
    i: int,
    root: Option<Seq<char>>,
    state: Option<Seq<char>>,
    mode: LspMode,
) -> Result<(Option<Seq<char>>, Option<Seq<char>>, LspMode), Seq<char>>
    decreases args.len() - i,
{
    if i < 0 || i >= args.len() {
        if root is None && state is Some {
            Err("--state requires --root; dynamic project roots use independent external state files"@)
        } else {
            Ok((root, state, mode))
        }
    } else {
        let a = args[i];
        if a == "--root"@ {
            if i + 1 >= args.len() {
                Err("--root requires a path"@)
            } else {
                parse_options(args, i + 2, Some(args[i + 1]), state, mode)
            }
        } else if a == "--state"@ {
            if i + 1 >= args.len() {
                Err("--state requires a path"@)
            } else {
                parse_options(args, i + 2, root, Some(args[i + 1]), mode)
            }
        } else if a == "--lsp"@ {
            if i + 1 >= args.len() {
                Err("--lsp requires auto or off"@)
            } else if args[i + 1] == "auto"@ {
                parse_options(args, i + 2, root, state, LspMode::Auto)
            } else if args[i + 1] == "off"@ {
                parse_options(args, i + 2, root, state, LspMode::Off)
            } else {
                Err("--lsp must be 'auto' or 'off'"@)
            }
        } else if a == "--help"@ || a == "-h"@ {
            Err(usage_text())
        } else {
            Err("unknown argument '"@ + a + "'.\n"@ + usage_text())
        }
    }
}

/// The arguments after the program name: the `mcp` command, then options.
pub open spec fn parse_arguments_spec(args: Seq<Seq<char>>) -> Result<
    (Option<Seq<char>>, Option<Seq<char>>, LspMode),
    Seq<char>,
> {
    if args.len() == 0 {
        Err(usage_text())
    } else if args[0] == "mcp"@ {
        parse_options(args, 1, None, None, LspMode::Auto)
    } else if args[0] == "--help"@ || args[0] == "-h"@ {
        Err(usage_text())
    } else {
        Err("unknown command '"@ + args[0] + "'.\n"@ + usage_text())
    }
}

pub open spec fn args_view(args: Seq<String>) -> Seq<Seq<char>> {
    args.map_values(|a: String| a@)
}

/// `'text'.\n` followed by the usage line, after `prefix`.
fn with_usage(prefix: &str, text: &str) -> (r: String)
    ensures
        r@ == prefix@ + text@ + "'.\n"@ + usage_text(),
{
    let mut m = chars_of(prefix);
    append_chars(&mut m, chars_of(text).as_slice());
    append_chars(&mut m, chars_of("'.\n").as_slice());
    append_chars(&mut m, chars_of(usage().as_str()).as_slice());
    string_from_chars(m.as_slice())
}

/// Reads the command line after the program name (see
/// [`parse_arguments_spec`]); the error is the message to print.
pub fn parse_arguments(args: &[String]) -> (r: Result<Arguments, String>)
    ensures
        match r {
            Ok(a) => parse_arguments_spec(args_view(args@)) == Ok::<
                (Option<Seq<char>>, Option<Seq<char>>, LspMode),
                Seq<char>,
            >((opt_view(a.root), opt_view(a.state), a.lsp_mode)),
            Err(m) => parse_arguments_spec(args_view(args@)) == Err::<
                (Option<Seq<char>>, Option<Seq<char>>, LspMode),
                Seq<char>,
            >(m@),
        },
{
    let ghost av = args_view(args@);
    if args.len() == 0 {
        return Err(usage());
    }
    assert(av[0] == args@[0]@);
    let command = args[0].as_str();
    if str_eq(command, "--help") || str_eq(command, "-h") {
        if !str_eq(command, "mcp") {
            return Err(usage());
        }
    }
    if !str_eq(command, "mcp") {
        if str_eq(command, "--help") || str_eq(command, "-h") {
            return Err(usage());
        }
        return Err(with_usage("unknown command '", command));
    }
    let mut root: Option<String> = None;
    let mut state: Option<String> = None;
    let mut mode = LspMode::Auto;
    let mut i: usize = 1;
    while i < args.len()
        invariant
            1 <= i <= args@.len() + 1,
            av == args_view(args@),
            av.len() == args@.len(),
            parse_arguments_spec(av) == parse_options(av, i as int, opt_view(root), opt_view(state), mode),
        decreases args@.len() + 1 - i,
    {
        let a = args[i].as_str();
        assert(av[i as int] == args@[i as int]@);
        if i + 1 < args.len() {
            assert(av[i + 1] == args@[i + 1]@);
        }
        if str_eq(a, "--root") {
            if i + 1 >= args.len() {
                return Err("--root requires a path".to_owned());
            }
            root = Some(args[i + 1].clone());
            i = i + 2;
        } else if str_eq(a, "--state") {
            if i + 1 >= args.len() {
                return Err("--state requires a path".to_owned());
            }
            state = Some(args[i + 1].clone());
            i = i + 2;
        } else if str_eq(a, "--lsp") {
            if i + 1 >= args.len() {
                return Err("--lsp requires auto or off".to_owned());
            }
            match LspMode::parse(args[i + 1].as_str()) {
                Some(m) => {
                    mode = m;
                },
                None => {
                    return Err("--lsp must be 'auto' or 'off'".to_owned());
                },
            }
            i = i + 2;
        } else if str_eq(a, "--help") || str_eq(a, "-h") {
            return Err(usage());
        } else {
            return Err(with_usage("unknown argument '", a));
        }
    }
    if root.is_none() && state.is_some() {
        return Err(
            "--state requires --root; dynamic project roots use independent external state files".to_owned(),
        );
    }
    Ok(Arguments { root, state, lsp_mode: mode })
}

} // verus!
