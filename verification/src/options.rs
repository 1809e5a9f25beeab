//! What the user asks for.
use vstd::prelude::*;

verus! {

/// How the report is written.
#[derive(Debug, Copy, Clone, PartialEq, Eq, Structural)]
pub enum OutputFormat {
    Human,
    Json,
}

/// The options that decide what is reported.
#[derive(Debug, Copy, Clone)]
pub struct Cli {
    /// Show asymmetric links: A links to B, but B does not link back.
    pub asymmetry: bool,
    /// List the orphans.
    pub orphans: bool,
    /// List the broken links.
    pub broken: bool,
    /// List everything.
    pub details: bool,
    /// Count only orphans that were modified within so many days.
    pub orphan_days: Option<u64>,
    pub format: OutputFormat,
    /// Write JSON, whatever the format.
    pub json: bool,
}

/// Whether no section was asked for in particular.
pub fn should_show_all(cli: &Cli) -> (out: bool)
    ensures
        out == (!cli.asymmetry && !cli.orphans && !cli.broken),
{
    !cli.asymmetry && !cli.orphans && !cli.broken
}

/// The format that the report is to be written in.
pub fn chosen_format(cli: &Cli) -> (out: OutputFormat)
    ensures
        out == (if cli.json {
            OutputFormat::Json
        } else {
            cli.format
        }),
{
    if cli.json {
        OutputFormat::Json
    } else {
        cli.format
    }
}

} // verus!
