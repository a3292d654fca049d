//! Talking to the engine: what it is asked besides downloads, and what its answers mean.

use vstd::prelude::*;

use crate::{encoding, request, text};

verus! {

/// The arguments that probe a link: one JSON object on the standard output, no playlist.
pub fn probe_args(url: &str) -> (args: Vec<String>)
    ensures
        text::texts(args@) == seq![
            "-J"@,
            "--no-playlist"@,
            "--no-warnings"@,
            "--no-colors"@,
            url@,
        ],
{
    let mut args: Vec<String> = Vec::new();
    request::push_arg(&mut args, "-J");
    request::push_arg(&mut args, "--no-playlist");
    request::push_arg(&mut args, "--no-warnings");
    request::push_arg(&mut args, "--no-colors");
    request::push_arg(&mut args, url);
    assert(text::texts(args@) =~= seq![
        "-J"@,
        "--no-playlist"@,
        "--no-warnings"@,
        "--no-colors"@,
        url@,
    ]);
    args
}

/// The arguments that ask for the engine's version.
pub fn version_args() -> (args: Vec<String>)
    ensures
        text::texts(args@) == seq!["--version"@],
{
    let mut args: Vec<String> = Vec::new();
    request::push_arg(&mut args, "--version");
    assert(text::texts(args@) =~= seq!["--version"@]);
    args
}

/// The arguments that make the engine update itself.
pub fn update_args() -> (args: Vec<String>)
    ensures
        text::texts(args@) == seq!["-U"@],
{
    let mut args: Vec<String> = Vec::new();
    request::push_arg(&mut args, "-U");
    assert(text::texts(args@) =~= seq!["-U"@]);
    args
}

/// The engine's own version string, from what it printed.
pub fn engine_version(stdout: &[u8]) -> (version: String)
    ensures
        version@ == text::trimmed(encoding::lossy_text(stdout@)),
{
    text::trim(encoding::from_utf8_lossy(stdout).as_str())
}

/// What the engine said of its update, from what it printed.
pub fn update_engine(stdout: &[u8]) -> (report: String)
    ensures
        report@ == text::trimmed(encoding::lossy_text(stdout@)),
{
    text::trim(encoding::from_utf8_lossy(stdout).as_str())
}

/// Why the engine could not be reached.
#[derive(Clone, Copy, Debug, PartialEq, Eq, Structural)]
pub enum EngineFault {
    /// There is no engine to start.
    Missing,
    /// A download's process could not be started.
    NotStarted,
    /// A probe's process could not be run.
    NotRun,
}

/// What is said of a fault before its detail.
pub open spec fn fault_lead(fault: EngineFault) -> Seq<char> {
    match fault {
        EngineFault::Missing => "Couldn't start the download engine: "@,
        EngineFault::NotStarted => "The download engine didn't start: "@,
        EngineFault::NotRun => "The download engine didn't run: "@,
    }
}

/// The message for a fault.
pub fn fault_message(fault: EngineFault, detail: &str) -> (message: String)
    ensures
        message@ == fault_lead(fault) + detail@,
{
    let lead = match fault {
        EngineFault::Missing => "Couldn't start the download engine: ",
        EngineFault::NotStarted => "The download engine didn't start: ",
        EngineFault::NotRun => "The download engine didn't run: ",
    };
    lead.to_owned().concat(detail)
}

/// Each fault is told in its own words.
pub proof fn law_faults_are_told_apart()
    ensures
        fault_lead(EngineFault::Missing) == "Couldn't start the download engine: "@,
        fault_lead(EngineFault::NotStarted) == "The download engine didn't start: "@,
        fault_lead(EngineFault::NotRun) == "The download engine didn't run: "@,
{
}

} // verus!
