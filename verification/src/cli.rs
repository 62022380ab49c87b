//! The command line.

use crate::bytes::same_text;
use vstd::prelude::*;

verus! {

/// How many peers are asked for if the command does not say.
pub const DISCOVER_LIMIT: usize = 100;

/// How the peers are written if the command does not say.
pub const DISCOVER_FORMAT: &'static str = "plain";

/// How many cached peers are listed if the command does not say.
pub const PEERS_LIMIT: usize = 50;

/// What was asked for.
#[derive(Debug)]
pub struct Cli {
    pub work_dir: Option<String>,
    pub log_level: Option<String>,
    pub command: Commands,
}

/// The commands.
#[derive(Debug)]
pub enum Commands {
    /// Offer the service.
    Serve { host: Option<String>, port: Option<u16> },
    /// Work for a controller.
    Agent { master: Option<String>, token: Option<String>, name: Option<String> },
    /// Find peers once.
    Discover { infohash: String, limit: usize, format: String },
    /// List cached peers.
    Peers { infohash: Option<String>, limit: usize },
    Stats,
    Health,
    /// Show or reset the configuration.
    Config { show: bool, reset: bool },
}

/// What the arguments of the service come to.
#[derive(Debug)]
pub enum Arguments {
    /// Show what the arguments are.
    Help,
    /// Start with the configuration in a file.
    ConfigFile(String),
    /// Start with the usual configuration.
    Nothing,
}

/// What an [`Arguments`] says.
pub enum ArgumentsModel {
    Help,
    ConfigFile(Seq<char>),
    Nothing,
}

impl View for Arguments {
    type V = ArgumentsModel;

    open spec fn view(&self) -> ArgumentsModel {
        match self {
            Arguments::Help => ArgumentsModel::Help,
            Arguments::ConfigFile(path) => ArgumentsModel::ConfigFile(path@),
            Arguments::Nothing => ArgumentsModel::Nothing,
        }
    }
}

/// What the arguments from position `i` on come to: the first that makes sense decides. The option for
/// a file needs an argument after it.
pub open spec fn arguments_from(args: Seq<String>, i: int) -> ArgumentsModel
    decreases args.len() - i,
{
    if i < 0 || i >= args.len() {
        ArgumentsModel::Nothing
    } else if (args[i]@ == "--config"@ || args[i]@ == "-c"@) && i + 1 < args.len() {
        ArgumentsModel::ConfigFile(args[i + 1]@)
    } else if args[i]@ == "--help"@ || args[i]@ == "-h"@ {
        ArgumentsModel::Help
    } else {
        arguments_from(args, i + 1)
    }
}

/// What the arguments of the service come to. The first one is the name of the program.
pub fn read_arguments(args: &Vec<String>) -> (r: Arguments)
    ensures
        r@ == arguments_from(args@, 1),
{
    let mut i: usize = 1;
    while i < args.len()
        invariant
            1 <= i,
            i <= args@.len() || i == 1,
            arguments_from(args@, i as int) == arguments_from(args@, 1),
        decreases args@.len() - i,
    {
        let arg: &str = args[i].as_str();
        proof {
            reveal_strlit("--config");
            reveal_strlit("-c");
            reveal_strlit("--help");
            reveal_strlit("-h");
            assert("--config"@.len() == 8 && "-c"@.len() == 2 && "--help"@.len() == 6);
            assert("-c"@[1] != "-h"@[1]);
        }
        if same_text(arg, "--config") || same_text(arg, "-c") {
            if i < args.len() - 1 {
                return Arguments::ConfigFile(args[i + 1].clone());
            }
        } else if same_text(arg, "--help") || same_text(arg, "-h") {
            return Arguments::Help;
        }
        i += 1;
    }
    Arguments::Nothing
}

/// The file that stands behind the first option for a file is used, unless help is asked for before
/// that.
pub proof fn law_first_option_decides(args: Seq<String>, i: int, k: int)
    requires
        0 <= i <= k < args.len(),
        forall|j: int| i <= j < k ==> (#[trigger] args[j])@ != "--config"@ && args[j]@ != "-c"@,
        forall|j: int| i <= j < k ==> (#[trigger] args[j])@ != "--help"@ && args[j]@ != "-h"@,
    ensures
        args[k]@ == "--help"@ || args[k]@ == "-h"@ ==> arguments_from(args, i)
            == ArgumentsModel::Help,
        (args[k]@ == "--config"@ || args[k]@ == "-c"@) && k + 1 < args.len() ==> arguments_from(args, i)
            == ArgumentsModel::ConfigFile(args[k + 1]@),
    decreases k - i,
{
    reveal_strlit("--config");
    reveal_strlit("-c");
    reveal_strlit("--help");
    reveal_strlit("-h");
    assert("--config"@.len() == 8 && "--help"@.len() == 6 && "-c"@.len() == 2 && "-h"@.len() == 2);
    assert("-c"@[1] == 'c' && "-h"@[1] == 'h');
    if i < k {
        law_first_option_decides(args, i + 1, k);
    }
}

/// Arguments without any option come to nothing.
pub proof fn law_no_option_means_nothing(args: Seq<String>, i: int)
    requires
        0 <= i,
        forall|j: int|
            i <= j < args.len() ==> (#[trigger] args[j])@ != "--config"@ && args[j]@ != "-c"@
                && args[j]@ != "--help"@ && args[j]@ != "-h"@,
    ensures
        arguments_from(args, i) == ArgumentsModel::Nothing,
    decreases args.len() - i,
{
    if i < args.len() {
        law_no_option_means_nothing(args, i + 1);
    }
}

} // verus!
