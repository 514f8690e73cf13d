//! The selection flow's decision logic: parsing the `select` command's
//! options and deciding what one round of the picker does. Running the
//! external menu and writing the clipboard stay with the caller.

use vstd::prelude::*;
use vstd::string::StringExecFns;
use crate::text::str_equal;

verus! {

/// Options of the selection flow.
#[derive(Debug, Clone, Copy, PartialEq, Eq, Structural)]
pub struct SelectOptions {
    /// Keep presenting the picker for consecutive pastes.
    pub sticky: bool,
}

/// What the `select` command line asks for.
#[derive(Debug, Clone, Copy, PartialEq, Eq, Structural)]
pub enum SelectCommand {
    /// Run the selection flow with these options.
    Run(SelectOptions),
    /// Show the selector's usage text.
    Help,
}

/// Folding the arguments in order: `--sticky` turns the option on, a help
/// flag wins immediately, anything else is rejected with a message.
pub open spec fn spec_parse_select(args: Seq<Seq<char>>, sticky: bool) -> Result<
    SelectCommand,
    Seq<char>,
>
    decreases args.len(),
{
    if args.len() == 0 {
        Ok(SelectCommand::Run(SelectOptions { sticky }))
    } else if args[0] == "--sticky"@ {
        spec_parse_select(args.drop_first(), true)
    } else if args[0] == "--help"@ || args[0] == "-h"@ {
        Ok(SelectCommand::Help)
    } else {
        Err("unknown select option: "@ + args[0])
    }
}

impl SelectCommand {
    /// Parses the arguments that follow the `select` command.
    pub fn parse(args: &[String]) -> (r: Result<SelectCommand, String>)
        ensures
            match r {
                Ok(cmd) => spec_parse_select(args.deep_view(), false) == Ok::<
                    SelectCommand,
                    Seq<char>,
                >(cmd),
                Err(msg) => spec_parse_select(args.deep_view(), false) == Err::<
                    SelectCommand,
                    Seq<char>,
                >(msg@),
            },
    {
        let n: usize = args.len();
        let mut sticky: bool = false;
        let mut i: usize = 0;
        proof {
            assert(args.deep_view().skip(0) =~= args.deep_view());
        }
        while i < n
            invariant
                0 <= i <= n,
                n == args@.len(),
                spec_parse_select(args.deep_view(), false) == spec_parse_select(
                    args.deep_view().skip(i as int),
                    sticky,
                ),
            decreases n - i,
        {
            let arg = &args[i];
            proof {
                assert(args.deep_view().skip(i as int)[0] == arg@);
            }
            if str_equal(arg.as_str(), "--sticky") {
                sticky = true;
            } else if str_equal(arg.as_str(), "--help") || str_equal(arg.as_str(), "-h") {
                return Ok(SelectCommand::Help);
            } else {
                let mut msg = String::from_str("unknown select option: ");
                msg.append(arg.as_str());
                return Err(msg);
            }
            proof {
                assert(args.deep_view().skip(i as int).drop_first() =~= args.deep_view().skip(
                    i + 1,
                ));
            }
            i = i + 1;
        }
        proof {
            assert(args.deep_view().skip(n as int) =~= Seq::<Seq<char>>::empty());
        }
        Ok(SelectCommand::Run(SelectOptions { sticky }))
    }
}

/// What the selection flow does with the selector's answer.
#[derive(Debug, Clone, Copy, PartialEq, Eq, Structural)]
pub enum SelectAction {
    /// End the flow with no side effect.
    Quit,
    /// Present the menu again, with no preselection.
    Retry,
    /// Write the entry at this index back to the clipboard.
    Copy(usize),
}

/// Cancellation ends the flow. An index past the end is the selector's
/// "no match" sentinel: it retries in sticky mode and otherwise ends the
/// flow. An index in range names the entry to copy.
pub open spec fn spec_select_step(items_len: int, choice: Option<usize>, sticky: bool) -> SelectAction {
    match choice {
        None => SelectAction::Quit,
        Some(i) => if (i as int) < items_len {
            SelectAction::Copy(i)
        } else if sticky {
            SelectAction::Retry
        } else {
            SelectAction::Quit
        },
    }
}

/// Decides one round of the selection flow.
pub fn select_step(items_len: usize, choice: Option<usize>, sticky: bool) -> (r: SelectAction)
    ensures
        r == spec_select_step(items_len as int, choice, sticky),
{
    match choice {
        None => SelectAction::Quit,
        Some(i) => if i < items_len {
            SelectAction::Copy(i)
        } else if sticky {
            SelectAction::Retry
        } else {
            SelectAction::Quit
        },
    }
}

} // verus!
