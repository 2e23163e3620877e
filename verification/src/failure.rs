//! The ways in which a request of the front end fails, and what it is told.

use vstd::prelude::*;

use crate::text::{decimal, decimal_text, law_decimal_stands_for_its_number, numeral};

verus! {

/// Why a request failed.
#[derive(Debug, PartialEq, Eq)]
pub enum Failure {
    /// The install script could not be run, for the reason given.
    InstallerNotStarted(String),
    /// The install script was lost track of, for the reason given.
    InstallerNotFinished(String),
    /// The task that waits for the install script broke off, for the reason given.
    InstallerTaskFailed(String),
    /// The install script ran, and Ollama is not on disk.
    NotOnDiskAfterInstall(String),
    /// Installing is not supported on this platform.
    InstallUnsupported,
    /// There is no Ollama to start.
    NotInstalled,
    /// The server could not be started, for the reason given.
    ServerNotStarted(String),
    /// Starting the server is not supported on this platform.
    StartUnsupported,
    /// The page is on a host that may not be fetched from.
    HostRefused,
    /// The page was answered with a status other than success.
    PageStatus(u16),
    /// The list of streams cannot be used any more.
    RegistryPoisoned,
    /// The HTTP client failed, for the reason given.
    Transport(String),
}

impl Failure {
    /// What the front end is told.
    pub open spec fn told(self) -> Seq<char> {
        match self {
            Failure::InstallerNotStarted(e) => "Could not start the installer: "@ + e@,
            Failure::InstallerNotFinished(e) => "Installer did not finish: "@ + e@,
            Failure::InstallerTaskFailed(e) => "Installer task failed: "@ + e@,
            Failure::NotOnDiskAfterInstall(detail) => "Ollama could not be installed: "@ + detail@,
            Failure::InstallUnsupported =>
                "Automatic install is only supported on Windows right now."@,
            Failure::NotInstalled => "Ollama is not installed."@,
            Failure::ServerNotStarted(e) => "Could not start Ollama: "@ + e@,
            Failure::StartUnsupported =>
                "Starting Ollama is only supported on Windows right now."@,
            Failure::HostRefused => "Only ollama.com and its registry can be fetched."@,
            Failure::PageStatus(status) => "HTTP "@ + decimal(status as nat),
            Failure::RegistryPoisoned => "stream registry poisoned"@,
            Failure::Transport(e) => e@,
        }
    }

    /// What the front end is told.
    pub fn message(&self) -> (out: String)
        ensures
            out@ == self.told(),
    {
        match self {
            Failure::InstallerNotStarted(e) => "Could not start the installer: ".to_owned().concat(
                e,
            ),
            Failure::InstallerNotFinished(e) => "Installer did not finish: ".to_owned().concat(e),
            Failure::InstallerTaskFailed(e) => "Installer task failed: ".to_owned().concat(e),
            Failure::NotOnDiskAfterInstall(detail) =>
                "Ollama could not be installed: ".to_owned().concat(detail),
            Failure::InstallUnsupported =>
                "Automatic install is only supported on Windows right now.".to_owned(),
            Failure::NotInstalled => "Ollama is not installed.".to_owned(),
            Failure::ServerNotStarted(e) => "Could not start Ollama: ".to_owned().concat(e),
            Failure::StartUnsupported =>
                "Starting Ollama is only supported on Windows right now.".to_owned(),
            Failure::HostRefused => "Only ollama.com and its registry can be fetched.".to_owned(),
            Failure::PageStatus(status) => "HTTP ".to_owned().concat(&decimal_text(*status as u64)),
            Failure::RegistryPoisoned => "stream registry poisoned".to_owned(),
            Failure::Transport(e) => e.clone(),
        }
    }
}

/// Whatever the reason of a failure is, the front end is told the whole of it, last
/// and behind what failed; and of a status, the number.
pub proof fn law_the_reason_is_told_whole(reason: String, status: u16)
    ensures
        Failure::InstallerNotStarted(reason).told() == "Could not start the installer: "@ + reason@,
        Failure::InstallerNotFinished(reason).told() == "Installer did not finish: "@ + reason@,
        Failure::InstallerTaskFailed(reason).told() == "Installer task failed: "@ + reason@,
        Failure::NotOnDiskAfterInstall(reason).told() == "Ollama could not be installed: "@
            + reason@,
        Failure::ServerNotStarted(reason).told() == "Could not start Ollama: "@ + reason@,
        Failure::Transport(reason).told() == reason@,
        Failure::PageStatus(status).told().subrange(0, 5) == "HTTP "@,
        numeral(Failure::PageStatus(status).told().skip(5)) == status,
{
    reveal_strlit("HTTP ");
    let told = Failure::PageStatus(status).told();
    law_decimal_stands_for_its_number(status as nat);
    assert(told.subrange(0, 5) == "HTTP "@);
    assert(told.skip(5) == decimal(status as nat));
}

/// A failure without a reason is told in words of its own.
pub proof fn law_failures_without_a_reason_are_told_apart()
    ensures
        Failure::InstallUnsupported.told()
            == "Automatic install is only supported on Windows right now."@,
        Failure::StartUnsupported.told()
            == "Starting Ollama is only supported on Windows right now."@,
        Failure::NotInstalled.told() == "Ollama is not installed."@,
        Failure::HostRefused.told() == "Only ollama.com and its registry can be fetched."@,
        Failure::RegistryPoisoned.told() == "stream registry poisoned"@,
{
}

} // verus!
