//! The browser's command line: the page to show, the debug dumps asked for,
//! and whether a window is opened.
use vstd::prelude::*;
use crate::text::{chars_of, starts_with_str, occurs_at};
use crate::strmap::str_eq;

verus! {

/// What to show: a URL, or a named fixture page.
#[derive(Debug, PartialEq, Eq)]
pub enum Input {
    Url(String),
    Fixture(String),
}

/// The options of a run.
#[derive(Debug, PartialEq, Eq)]
pub struct CliOptions {
    pub input: Option<Input>,
    pub debug_dom: bool,
    pub debug_style: bool,
    pub debug_layout: bool,
}

/// Why the command line was refused.
#[derive(Debug, PartialEq, Eq)]
pub enum CliError {
    /// `--fixture` ends the command line.
    MissingFixtureName,
    /// A `--` flag the browser does not know.
    UnknownFlag(String),
}

/// The options by their values: the input as (is it a fixture, its text).
pub struct CliView {
    pub input: Option<(bool, Seq<char>)>,
    pub debug_dom: bool,
    pub debug_style: bool,
    pub debug_layout: bool,
}

pub open spec fn cli_view(o: CliOptions) -> CliView {
    CliView {
        input: match o.input {
            Some(Input::Url(u)) => Some((false, u@)),
            Some(Input::Fixture(f)) => Some((true, f@)),
            None => None,
        },
        debug_dom: o.debug_dom,
        debug_style: o.debug_style,
        debug_layout: o.debug_layout,
    }
}

/// Reads the arguments from `i` on into `st`: `--fixture NAME` and a bare
/// argument set the input (the last one wins), `--debug-dom`, `--debug-style`
/// and `--debug-layout` switch their dump on; `--fixture` without a name is
/// refused (`Err(None)`), and so is any other `--` flag (`Err(Some(flag))`).
pub open spec fn cli_from(args: Seq<Seq<char>>, i: int, st: CliView) -> Result<CliView, Option<Seq<char>>>
    decreases args.len() - i,
{
    if i < 0 || i >= args.len() {
        Ok(st)
    } else {
        let a = args[i];
        if a == "--fixture"@ {
            if i + 1 < args.len() {
                cli_from(args, i + 2, CliView { input: Some((true, args[i + 1])), ..st })
            } else {
                Err(None)
            }
        } else if a == "--debug-dom"@ {
            cli_from(args, i + 1, CliView { debug_dom: true, ..st })
        } else if a == "--debug-style"@ {
            cli_from(args, i + 1, CliView { debug_style: true, ..st })
        } else if a == "--debug-layout"@ {
            cli_from(args, i + 1, CliView { debug_layout: true, ..st })
        } else if occurs_at(a, "--"@, 0) {
            Err(Some(a))
        } else {
            cli_from(args, i + 1, CliView { input: Some((false, a)), ..st })
        }
    }
}

pub open spec fn args_view(args: Seq<String>) -> Seq<Seq<char>> {
    args.map_values(|a: String| a@)
}

pub open spec fn cli_result_view(r: Result<CliOptions, CliError>) -> Result<CliView, Option<Seq<char>>> {
    match r {
        Ok(o) => Ok(cli_view(o)),
        Err(CliError::MissingFixtureName) => Err(None),
        Err(CliError::UnknownFlag(f)) => Err(Some(f@)),
    }
}

/// Whether an environment value switches a flag on: `1`, `true`, `TRUE`,
/// `yes` or `YES`.
pub fn env_flag_value(value: Option<&str>) -> (r: bool)
    ensures
        r == match value {
            Some(v) => v@ == "1"@ || v@ == "true"@ || v@ == "TRUE"@ || v@ == "yes"@ || v@ == "YES"@,
            None => false,
        },
{
    match value {
        Some(v) => str_eq(v, "1") || str_eq(v, "true") || str_eq(v, "TRUE") || str_eq(v, "yes") || str_eq(v, "YES"),
        None => false,
    }
}

impl CliOptions {
    /// The options given by the arguments (program name left out), starting
    /// from the dumps that the environment switched on.
    pub fn parse(args: &[String], debug_dom: bool, debug_style: bool, debug_layout: bool) -> (r: Result<CliOptions, CliError>)
        ensures
            cli_result_view(r) == cli_from(
                args_view(args@),
                0,
                CliView { input: None, debug_dom, debug_style, debug_layout },
            ),
    {
        let ghost av = args_view(args@);
        let mut opts = CliOptions { input: None, debug_dom, debug_style, debug_layout };
        let mut i: usize = 0;
        proof {
            reveal_strlit("--fixture");
            reveal_strlit("--debug-dom");
            reveal_strlit("--debug-style");
            reveal_strlit("--debug-layout");
            reveal_strlit("--");
        }
        while i < args.len()
            invariant
                i <= args.len() + 1,
                av == args_view(args@),
                av.len() == args@.len(),
                forall|k: int| 0 <= k < args@.len() ==> #[trigger] av[k] == args@[k]@,
                cli_from(av, 0, CliView { input: None, debug_dom, debug_style, debug_layout })
                    == cli_from(av, i as int, cli_view(opts)),
            decreases args.len() + 1 - i,
        {
            let a = args[i].as_str();
            if str_eq(a, "--fixture") {
                if i + 1 < args.len() {
                    opts.input = Some(Input::Fixture(args[i + 1].clone()));
                    i = i + 2;
                } else {
                    return Err(CliError::MissingFixtureName);
                }
            } else if str_eq(a, "--debug-dom") {
                opts.debug_dom = true;
                i = i + 1;
            } else if str_eq(a, "--debug-style") {
                opts.debug_style = true;
                i = i + 1;
            } else if str_eq(a, "--debug-layout") {
                opts.debug_layout = true;
                i = i + 1;
            } else {
                let cs = chars_of(a);
                if starts_with_str(cs.as_slice(), "--") {
                    return Err(CliError::UnknownFlag(args[i].clone()));
                }
                opts.input = Some(Input::Url(args[i].clone()));
                i = i + 1;
            }
        }
        Ok(opts)
    }
}

/// How a rendered page is shown.
#[derive(Debug, PartialEq, Eq)]
pub enum RenderMode {
    /// Open a window (or write the screenshot file).
    Window,
    /// No display server: nothing is shown.
    NoDisplay,
    /// Headless run: nothing is shown.
    Headless,
}

/// The way to show the page: a window when a screenshot is asked for, or
/// when the run is not headless and a display exists; otherwise none.
pub fn render_mode(has_screenshot: bool, is_headless: bool, has_display: bool) -> (r: RenderMode)
    ensures
        r == if has_screenshot || (!is_headless && has_display) {
            RenderMode::Window
        } else if !is_headless && !has_display {
            RenderMode::NoDisplay
        } else {
            RenderMode::Headless
        },
{
    if has_screenshot || (!is_headless && has_display) {
        RenderMode::Window
    } else if !is_headless && !has_display {
        RenderMode::NoDisplay
    } else {
        RenderMode::Headless
    }
}

} // verus!
