use vstd::prelude::*;

verus! {

/// Arguments of the `ingest` subcommand: where the store lives, which
/// repository row to ingest under, and where the repository lives.
pub struct IngestArgs {
    pub db: String,
    pub repo_id: u32,
    pub repo_name: String,
    pub repo_path: String,
}

/// The one subcommand the tool offers.
pub enum Command {
    Ingest(IngestArgs),
}

/// The parsed command line.
pub struct Cli {
    pub cmd: Command,
}

} // verus!
