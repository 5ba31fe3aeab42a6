//! The command model: what one invocation asks the generator to do.
//! Reading the actual process arguments is the caller's business; the
//! library defines the commands and their default settings.

use vstd::prelude::*;

verus! {

/// Settings of a generation run: where the project configuration files
/// live, where the blacklist file lives, and whether blacklist trait
/// names are compared case-sensitively.
#[derive(Debug, Clone)]
pub struct ConfigArgs {
    pub config_folder: String,
    pub bl_file: String,
    pub bl_case_sen: bool,
}

/// One invocation of the generator: clean the output directory, or
/// generate the collections.
#[derive(Debug, Clone)]
pub enum Commands {
    Clean,
    Gen(ConfigArgs),
}

impl Commands {
    /// The generation command with its default settings: configuration
    /// files under `configs`, the blacklist at `blacklist.json`, and
    /// case-insensitive blacklist names.
    pub fn new() -> (r: Commands)
        ensures
            r matches Commands::Gen(a) && a.config_folder@ == "configs"@ && a.bl_file@
                == "blacklist.json"@ && a.bl_case_sen == false,
    {
        Commands::Gen(
            ConfigArgs {
                config_folder: "configs".to_owned(),
                bl_file: "blacklist.json".to_owned(),
                bl_case_sen: false,
            },
        )
    }
}

impl Default for Commands {
    /// The default command is the default generation run.
    fn default() -> (r: Self)
        ensures
            r matches Commands::Gen(a) && a.config_folder@ == "configs"@ && a.bl_file@
                == "blacklist.json"@ && a.bl_case_sen == false,
    {
        Commands::new()
    }
}

} // verus!
