use sdk_rules::reconcile::{plan, reconcile, resolve, Action, Requirement};
use sdk_rules::rules::{Candidate, InvalidRegex, Version};
use sdk_rules::versions::VersionSet;

fn strings(items: &[&str]) -> Vec<String> {
    items.iter().map(|item| item.to_string()).collect()
}

fn rule(pattern: &str, default: Option<bool>, exclude: Option<&[&str]>) -> Version {
    Version {
        pattern: pattern.to_string(),
        default,
        exclude: exclude.map(strings),
    }
}

fn uninstall(version: &str) -> Action {
    Action::Uninstall { candidate: "java".to_string(), version: version.to_string() }
}

fn install(version: &str) -> Action {
    Action::Install { candidate: "java".to_string(), version: version.to_string() }
}

fn set_default(version: &str) -> Action {
    Action::SetDefault { candidate: "java".to_string(), version: version.to_string() }
}

fn carry_out(installed: &[String], actions: &[Action]) -> Vec<String> {
    let mut now: Vec<String> = installed.to_vec();
    for action in actions {
        match action {
            Action::Uninstall { version, .. } => now.retain(|v| v != version),
            Action::Install { version, .. } => {
                if !now.contains(version) {
                    now.push(version.clone());
                }
            }
            Action::SetDefault { .. } => {}
        }
    }
    now
}

fn offer() -> Vec<String> {
    strings(&["21.0.2-tem", "21.0.2-zulu", "21.0.1-tem", "17.0.9-tem", "17.0.9-zulu", "11.0.21-tem"])
}

fn java() -> Candidate {
    Candidate {
        versions: vec![
            rule("^21.*-tem$", Some(true), None),
            rule("^17", None, Some(&["-tem"])),
            rule("^8", Some(true), None),
        ],
    }
}

#[test]
fn plan_removes_then_installs_then_sets_default() {
    let installed = strings(&["8.0.392-tem", "21.0.1-tem", "17.0.9-zulu", "11.0.21-tem"]);
    assert_eq!(
        reconcile("java", &java(), &installed, &offer()),
        Ok(vec![
            uninstall("11.0.21-tem"),
            uninstall("21.0.1-tem"),
            uninstall("8.0.392-tem"),
            install("21.0.2-tem"),
            set_default("21.0.2-tem"),
        ])
    );
}

#[test]
fn nothing_installed_installs_everything_required() {
    assert_eq!(
        reconcile("java", &java(), &Vec::new(), &offer()),
        Ok(vec![install("17.0.9-zulu"), install("21.0.2-tem"), set_default("21.0.2-tem")])
    );
}

#[test]
fn default_is_set_again_when_all_is_in_place() {
    let installed = strings(&["21.0.2-tem", "17.0.9-zulu"]);
    assert_eq!(
        reconcile("java", &java(), &installed, &offer()),
        Ok(vec![set_default("21.0.2-tem")])
    );
}

#[test]
fn rules_that_match_nothing_leave_the_candidate_alone() {
    let candidate = Candidate { versions: vec![rule("^99", Some(true), None)] };
    let installed = strings(&["21.0.1-tem", "8.0.392-tem"]);
    assert_eq!(reconcile("java", &candidate, &installed, &offer()), Ok(vec![]));
    assert_eq!(reconcile("java", &candidate, &installed, &Vec::new()), Ok(vec![]));
    let none = Candidate { versions: vec![] };
    assert_eq!(reconcile("java", &none, &installed, &offer()), Ok(vec![]));
}

#[test]
fn second_rule_with_default_overrides_the_first() {
    let candidate = Candidate {
        versions: vec![rule("^21.*-tem$", Some(true), None), rule("^17.*-tem$", Some(true), None)],
    };
    let requirement = resolve(&candidate, "java", &offer()).ok().unwrap();
    assert_eq!(requirement.default, Some("17.0.9-tem".to_string()));
    assert_eq!(requirement.required.to_vec(), vec!["17.0.9-tem", "21.0.2-tem"]);
    assert_eq!(
        reconcile("java", &candidate, &Vec::new(), &offer()),
        Ok(vec![install("17.0.9-tem"), install("21.0.2-tem"), set_default("17.0.9-tem")])
    );
}

#[test]
fn default_rule_without_a_match_keeps_the_earlier_default() {
    let candidate = Candidate {
        versions: vec![
            rule("^21.*-tem$", Some(true), None),
            rule("^99", Some(true), None),
            rule("^17", Some(false), None),
            rule("^11", None, None),
        ],
    };
    let requirement = resolve(&candidate, "java", &offer()).ok().unwrap();
    assert_eq!(requirement.default, Some("21.0.2-tem".to_string()));
    assert_eq!(requirement.required.to_vec(), vec!["11.0.21-tem", "17.0.9-tem", "21.0.2-tem"]);
}

#[test]
fn no_rule_claims_the_default() {
    let candidate = Candidate { versions: vec![rule("^21", None, None)] };
    let requirement = resolve(&candidate, "java", &offer()).ok().unwrap();
    assert_eq!(requirement.default, None);
    assert_eq!(
        reconcile("java", &candidate, &strings(&["17.0.9-tem"]), &offer()),
        Ok(vec![uninstall("17.0.9-tem"), install("21.0.2-tem")])
    );
}

#[test]
fn two_rules_may_select_the_same_version() {
    let candidate = Candidate {
        versions: vec![rule("^21", None, None), rule("tem$", None, Some(&["zulu"]))],
    };
    let requirement = resolve(&candidate, "java", &offer()).ok().unwrap();
    assert_eq!(requirement.required.to_vec(), vec!["21.0.2-tem"]);
}

#[test]
fn first_invalid_rule_stops_the_plan() {
    let candidate = Candidate {
        versions: vec![
            rule("^21", Some(true), None),
            rule("^17", None, Some(&["a", "b)"])),
            rule("(", None, None),
        ],
    };
    let expected = InvalidRegex { candidate: "java".to_string(), pattern: "a|b)".to_string() };
    assert_eq!(reconcile("java", &candidate, &Vec::new(), &offer()), Err(expected.clone()));
    assert_eq!(reconcile("java", &candidate, &Vec::new(), &Vec::new()), Err(expected.clone()));
    assert_eq!(resolve(&candidate, "java", &offer()).err(), Some(expected));
}

#[test]
fn to_install_and_to_remove_partition_the_versions() {
    let installed = VersionSet::from_vec(&strings(&["a", "b", "c", "d"]));
    let required = VersionSet::from_vec(&strings(&["c", "d", "e"]));
    let to_install = required.difference(&installed);
    let to_remove = installed.difference(&required);
    assert_eq!(to_install.to_vec(), vec!["e"]);
    assert_eq!(to_remove.to_vec(), vec!["a", "b"]);
    for version in ["a", "b", "c", "d", "e", "f"] {
        let both = installed.contains(version) && required.contains(version);
        let parts = [to_install.contains(version), to_remove.contains(version), both];
        let count = parts.iter().filter(|part| **part).count();
        let either = installed.contains(version) || required.contains(version);
        assert_eq!(count, if either { 1 } else { 0 }, "{}", version);
    }
}

#[test]
fn plan_follows_the_requirement() {
    let requirement = Requirement {
        required: VersionSet::from_vec(&strings(&["c", "d", "e"])),
        default: Some("d".to_string()),
    };
    let installed = VersionSet::from_vec(&strings(&["d", "b", "a"]));
    assert_eq!(
        plan("java", &requirement, &installed),
        vec![uninstall("a"), uninstall("b"), install("c"), install("e"), set_default("d")]
    );
    let nothing = Requirement { required: VersionSet::new(), default: None };
    assert_eq!(plan("java", &nothing, &installed), vec![]);
}

#[test]
fn reconciling_twice_changes_nothing_the_second_time() {
    let cases = [
        strings(&[]),
        strings(&["8.0.392-tem", "21.0.1-tem", "17.0.9-zulu", "11.0.21-tem"]),
        strings(&["21.0.2-tem", "17.0.9-zulu"]),
        strings(&["zzz"]),
    ];
    for installed in cases {
        let first = reconcile("java", &java(), &installed, &offer()).ok().unwrap();
        let after = carry_out(&installed, &first);
        let mut sorted = after.clone();
        sorted.sort();
        assert_eq!(sorted, vec!["17.0.9-zulu", "21.0.2-tem"]);
        let second = reconcile("java", &java(), &after, &offer()).ok().unwrap();
        assert_eq!(second, vec![set_default("21.0.2-tem")]);
        assert_eq!(carry_out(&after, &second), after);
    }
    let unmanaged = Candidate { versions: vec![rule("^99", None, None)] };
    let installed = strings(&["21.0.1-tem"]);
    let first = reconcile("java", &unmanaged, &installed, &offer()).ok().unwrap();
    let after = carry_out(&installed, &first);
    assert_eq!(after, installed);
    assert_eq!(reconcile("java", &unmanaged, &after, &offer()), Ok(vec![]));
}

#[test]
fn installed_list_may_repeat_and_come_in_any_order() {
    let installed = strings(&["zulu", "11.0.21-tem", "zulu", "17.0.9-zulu", "11.0.21-tem"]);
    assert_eq!(
        reconcile("java", &java(), &installed, &offer()),
        Ok(vec![
            uninstall("11.0.21-tem"),
            uninstall("zulu"),
            install("21.0.2-tem"),
            set_default("21.0.2-tem"),
        ])
    );
}
