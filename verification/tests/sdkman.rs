use sdk_rules::reconcile::Action;
use sdk_rules::sdkman::{Disposition, Outcome, SdkMan};

fn actions() -> [Action; 3] {
    [
        Action::Uninstall { candidate: "java".to_string(), version: "17.0.9-tem".to_string() },
        Action::Install { candidate: "java".to_string(), version: "21.0.2-tem".to_string() },
        Action::SetDefault { candidate: "kotlin".to_string(), version: "1.9.0".to_string() },
    ]
}

#[test]
fn commands_name_candidate_and_version() {
    let [uninstall, install, default] = actions();
    assert_eq!(SdkMan::command(&uninstall), "sdk uninstall java 17.0.9-tem");
    assert_eq!(SdkMan::command(&install), "sdk install java 21.0.2-tem");
    assert_eq!(SdkMan::command(&default), "sdk default kotlin 1.9.0");
    assert_eq!(SdkMan::list_command("java"), "sdk list java");
    assert_eq!(SdkMan::candidate_dir("/home/me/.sdkman", "java"), "/home/me/.sdkman/candidates/java");
}

#[test]
fn plain_run_carries_everything_out() {
    let run = SdkMan { dry_run: false, no_uninstall: false };
    for action in actions() {
        assert_eq!(run.disposition(&action), Disposition::Run);
    }
}

#[test]
fn dry_run_only_shows() {
    let run = SdkMan { dry_run: true, no_uninstall: false };
    for action in actions() {
        assert_eq!(run.disposition(&action), Disposition::DryRun);
    }
}

#[test]
fn no_uninstall_skips_uninstalls_only() {
    let [uninstall, install, default] = actions();
    let run = SdkMan { dry_run: false, no_uninstall: true };
    assert_eq!(run.disposition(&uninstall), Disposition::Skip);
    assert_eq!(run.disposition(&install), Disposition::Run);
    assert_eq!(run.disposition(&default), Disposition::Run);
    let dry = SdkMan { dry_run: true, no_uninstall: true };
    assert_eq!(dry.disposition(&uninstall), Disposition::Skip);
    assert_eq!(dry.disposition(&install), Disposition::DryRun);
    assert_eq!(dry.disposition(&default), Disposition::DryRun);
}

#[test]
fn outcomes_have_their_labels() {
    assert_eq!(Outcome::Succeeded.label(), "OK");
    assert_eq!(Outcome::DryRun.label(), "DRY-RUN");
    assert_eq!(Outcome::Skipped.label(), "NO-UNINSTALL");
    assert_eq!(Outcome::Failed("out err".to_string()).label(), "Error: out err");
}

#[test]
fn finished_command_succeeds_or_reports_its_output() {
    assert_eq!(SdkMan::finished(true, "ignored", "too"), Outcome::Succeeded);
    assert_eq!(
        SdkMan::finished(false, "Stop!", "no such version"),
        Outcome::Failed("Stop! no such version".to_string())
    );
    assert_eq!(SdkMan::finished(false, "", ""), Outcome::Failed(" ".to_string()));
}
