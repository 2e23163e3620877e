use deskollama::failure::Failure;

#[test]
fn each_failure_is_told_in_its_own_words() {
    let e = || "boom".to_string();
    let told = vec![
        (Failure::InstallerNotStarted(e()), "Could not start the installer: boom"),
        (Failure::InstallerNotFinished(e()), "Installer did not finish: boom"),
        (Failure::InstallerTaskFailed(e()), "Installer task failed: boom"),
        (Failure::NotOnDiskAfterInstall(e()), "Ollama could not be installed: boom"),
        (
            Failure::InstallUnsupported,
            "Automatic install is only supported on Windows right now.",
        ),
        (Failure::NotInstalled, "Ollama is not installed."),
        (Failure::ServerNotStarted(e()), "Could not start Ollama: boom"),
        (Failure::StartUnsupported, "Starting Ollama is only supported on Windows right now."),
        (Failure::HostRefused, "Only ollama.com and its registry can be fetched."),
        (Failure::PageStatus(404), "HTTP 404"),
        (Failure::RegistryPoisoned, "stream registry poisoned"),
        (Failure::Transport(e()), "boom"),
    ];
    for (failure, message) in told {
        assert_eq!(failure.message(), message);
    }
}
