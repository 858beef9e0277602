//! From the rules of a candidate, the versions on offer and the versions
//! installed to the actions that close the gap between them.

use crate::rules::{lemma_selects_first_accepted, Candidate, InvalidRegex, RuleSpec};
use crate::versions::{increasing, lemma_sorted_exists, lemma_sorted_is, sorted, VersionSet};
use vstd::prelude::*;

verus! {

/// An action as the contracts see it.
pub enum ActionSpec {
    Uninstall { candidate: Seq<char>, version: Seq<char> },
    Install { candidate: Seq<char>, version: Seq<char> },
    SetDefault { candidate: Seq<char>, version: Seq<char> },
}

/// One step of a plan: what to ask of SDKMAN, for which candidate and version.
#[derive(Debug, Clone, PartialEq, Eq)]
pub enum Action {
    Uninstall { candidate: String, version: String },
    Install { candidate: String, version: String },
    SetDefault { candidate: String, version: String },
}

impl DeepView for Action {
    type V = ActionSpec;

    open spec fn deep_view(&self) -> ActionSpec {
        match self {
            Action::Uninstall { candidate, version } => ActionSpec::Uninstall {
                candidate: candidate@,
                version: version@,
            },
            Action::Install { candidate, version } => ActionSpec::Install {
                candidate: candidate@,
                version: version@,
            },
            Action::SetDefault { candidate, version } => ActionSpec::SetDefault {
                candidate: candidate@,
                version: version@,
            },
        }
    }
}

impl View for Action {
    type V = ActionSpec;

    open spec fn view(&self) -> ActionSpec {
        self.deep_view()
    }
}

/// The versions that the rules require: what each rule selects among
/// `available`.
pub open spec fn required_of(rules: Seq<RuleSpec>, available: Seq<Seq<char>>) -> Set<Seq<char>> {
    Set::new(
        |version: Seq<char>|
            exists|i: int|
                0 <= i < rules.len() && #[trigger] rules[i].selects(available) == Some(version),
    )
}

/// The default version: what the last rule selects that claims the default
/// and selects anything.
pub open spec fn default_of(rules: Seq<RuleSpec>, available: Seq<Seq<char>>) -> Option<Seq<char>>
    decreases rules.len(),
{
    if rules.len() == 0 {
        None
    } else if rules.last().default && rules.last().selects(available) is Some {
        rules.last().selects(available)
    } else {
        default_of(rules.drop_last(), available)
    }
}

/// The text that does not compile in the first rule that holds one.
pub open spec fn first_fault(rules: Seq<RuleSpec>) -> Option<Seq<char>>
    decreases rules.len(),
{
    if rules.len() == 0 {
        None
    } else if first_fault(rules.drop_last()) is Some {
        first_fault(rules.drop_last())
    } else {
        rules.last().fault()
    }
}

/// The versions to install: required and not installed.
pub open spec fn to_install_of(required: Set<Seq<char>>, installed: Set<Seq<char>>) -> Set<
    Seq<char>,
> {
    required.difference(installed)
}

/// The versions to remove: installed and not required.
pub open spec fn to_remove_of(required: Set<Seq<char>>, installed: Set<Seq<char>>) -> Set<
    Seq<char>,
> {
    installed.difference(required)
}

pub open spec fn uninstall_of(candidate: Seq<char>) -> spec_fn(Seq<char>) -> ActionSpec {
    |version: Seq<char>| ActionSpec::Uninstall { candidate, version }
}

pub open spec fn install_of(candidate: Seq<char>) -> spec_fn(Seq<char>) -> ActionSpec {
    |version: Seq<char>| ActionSpec::Install { candidate, version }
}

/// The action that sets the default, if there is a default.
pub open spec fn default_action(candidate: Seq<char>, default: Option<Seq<char>>) -> Seq<
    ActionSpec,
> {
    match default {
        Some(version) => seq![ActionSpec::SetDefault { candidate, version }],
        None => Seq::empty(),
    }
}

/// The plan for a candidate. Where nothing is required the candidate is left
/// as it is. Otherwise the plan first removes what is installed and not
/// required, then installs what is required and not installed, each in
/// lexicographic order, and then sets the default, if there is one.
pub open spec fn plan_of(
    candidate: Seq<char>,
    required: Set<Seq<char>>,
    default: Option<Seq<char>>,
    installed: Set<Seq<char>>,
) -> Seq<ActionSpec> {
    if required.is_empty() {
        Seq::empty()
    } else {
        sorted(to_remove_of(required, installed)).map_values(uninstall_of(candidate)) + sorted(
            to_install_of(required, installed),
        ).map_values(install_of(candidate)) + default_action(candidate, default)
    }
}

/// What the rules of a candidate ask for.
#[derive(Debug)]
pub struct Requirement {
    /// The versions that have to be installed.
    pub required: VersionSet,
    /// The version to make the default, if any.
    pub default: Option<String>,
}

/// First faults stay: a fault found among the first rules is the fault of
/// all of them.
pub proof fn lemma_first_fault_stays(rules: Seq<RuleSpec>, n: int)
    requires
        0 <= n <= rules.len(),
        first_fault(rules.take(n)) is Some,
    ensures
        first_fault(rules) == first_fault(rules.take(n)),
    decreases rules.len() - n,
{
    if n < rules.len() {
        assert(rules.take(n + 1).drop_last() == rules.take(n));
        lemma_first_fault_stays(rules, n + 1);
    } else {
        assert(rules.take(n) == rules);
    }
}

/// The versions required by one rule more.
pub proof fn lemma_required_push(rules: Seq<RuleSpec>, rule: RuleSpec, available: Seq<Seq<char>>)
    ensures
        required_of(rules.push(rule), available) == match rule.selects(available) {
            Some(version) => required_of(rules, available).insert(version),
            None => required_of(rules, available),
        },
{
    let more = rules.push(rule);
    let grown = match rule.selects(available) {
        Some(version) => required_of(rules, available).insert(version),
        None => required_of(rules, available),
    };
    assert forall|v: Seq<char>| required_of(more, available).contains(v) == grown.contains(v) by {
        if required_of(more, available).contains(v) {
            let i = choose|i: int|
                0 <= i < more.len() && #[trigger] more[i].selects(available) == Some(v);
            if i < rules.len() {
                assert(rules[i].selects(available) == Some(v));
            }
        }
        if grown.contains(v) {
            if required_of(rules, available).contains(v) {
                let i = choose|i: int|
                    0 <= i < rules.len() && #[trigger] rules[i].selects(available) == Some(v);
                assert(more[i].selects(available) == Some(v));
            } else {
                assert(more[rules.len() as int].selects(available) == Some(v));
            }
        }
    }
    assert(required_of(more, available) =~= grown);
}

/// Works out what the rules of `candidate` ask for, given the versions on
/// offer. Fails on the first rule with an expression that does not compile.
pub fn resolve(candidate: &Candidate, name: &str, available: &Vec<String>) -> (resolved: Result<
    Requirement,
    InvalidRegex,
>)
    ensures
        resolved is Err <==> first_fault(candidate@) is Some,
        resolved matches Err(error) ==> error.candidate@ == name@ && Some(error.pattern@)
            == first_fault(candidate@),
        resolved matches Ok(requirement) ==> requirement.required@ == required_of(
            candidate@,
            available.deep_view(),
        ) && requirement.default.deep_view() == default_of(candidate@, available.deep_view()),
{
    let mut required = VersionSet::new();
    let mut default: Option<String> = None;
    let mut i: usize = 0;
    proof {
        assert(candidate@.take(0) == Seq::<RuleSpec>::empty());
        assert(required_of(candidate@.take(0), available.deep_view()) =~= Set::<
            Seq<char>,
        >::empty());
    }
    while i < candidate.versions.len()
        invariant
            i <= candidate.versions.len(),
            first_fault(candidate@.take(i as int)) is None,
            required@ == required_of(candidate@.take(i as int), available.deep_view()),
            default.deep_view() == default_of(candidate@.take(i as int), available.deep_view()),
        decreases candidate.versions.len() - i,
    {
        let rule = &candidate.versions[i];
        proof {
            let seen = candidate@.take(i as int);
            assert(candidate@.take(i + 1) == seen.push(rule@));
            assert(candidate@.take(i + 1).drop_last() == seen);
            lemma_required_push(seen, rule@, available.deep_view());
        }
        match rule.matching(name, available) {
            Err(error) => {
                proof {
                    lemma_first_fault_stays(candidate@, i + 1);
                }
                return Err(error);
            },
            Ok(Some(version)) => {
                let claims = match rule.default {
                    Some(flag) => flag,
                    None => false,
                };
                required.insert(version.clone());
                if claims {
                    default = Some(version);
                }
            },
            Ok(None) => {},
        }
        i += 1;
    }
    proof {
        assert(candidate@.take(candidate.versions.len() as int) == candidate@);
    }
    Ok(Requirement { required, default })
}

/// The actions that bring the installed versions of `candidate` in line with
/// `requirement`.
pub fn plan(candidate: &str, requirement: &Requirement, installed: &VersionSet) -> (actions: Vec<
    Action,
>)
    ensures
        actions.deep_view() == plan_of(
            candidate@,
            requirement.required@,
            requirement.default.deep_view(),
            installed@,
        ),
{
    let mut actions: Vec<Action> = Vec::new();
    proof {
        assert(actions.deep_view() == Seq::<ActionSpec>::empty());
    }
    if requirement.required.is_empty() {
        return actions;
    }
    let removals = installed.difference(&requirement.required).to_vec();
    let additions = requirement.required.difference(installed).to_vec();
    let ghost first = removals.deep_view().map_values(uninstall_of(candidate@));
    let ghost second = additions.deep_view().map_values(install_of(candidate@));
    let mut i: usize = 0;
    while i < removals.len()
        invariant
            i <= removals.len(),
            actions.deep_view() == removals.deep_view().take(i as int).map_values(
                uninstall_of(candidate@),
            ),
        decreases removals.len() - i,
    {
        let ghost before = actions.deep_view();
        let action = Action::Uninstall {
            candidate: candidate.to_owned(),
            version: removals[i].clone(),
        };
        proof {
            let seen = removals.deep_view().take(i as int);
            assert(removals.deep_view().take(i + 1) == seen.push(removals@[i as int]@));
            seen.lemma_push_map_commute(uninstall_of(candidate@), removals@[i as int]@);
        }
        actions.push(action);
        proof {
            assert(actions.deep_view() == before.push(action.deep_view()));
        }
        i += 1;
    }
    proof {
        assert(removals.deep_view().take(removals.len() as int) == removals.deep_view());
    }
    let mut j: usize = 0;
    while j < additions.len()
        invariant
            j <= additions.len(),
            first == removals.deep_view().map_values(uninstall_of(candidate@)),
            actions.deep_view() == first + additions.deep_view().take(j as int).map_values(
                install_of(candidate@),
            ),
        decreases additions.len() - j,
    {
        let ghost before = actions.deep_view();
        let action = Action::Install {
            candidate: candidate.to_owned(),
            version: additions[j].clone(),
        };
        proof {
            let seen = additions.deep_view().take(j as int);
            assert(additions.deep_view().take(j + 1) == seen.push(additions@[j as int]@));
            seen.lemma_push_map_commute(install_of(candidate@), additions@[j as int]@);
        }
        actions.push(action);
        proof {
            assert(actions.deep_view() == before.push(action.deep_view()));
        }
        j += 1;
    }
    proof {
        assert(additions.deep_view().take(additions.len() as int) == additions.deep_view());
    }
    match &requirement.default {
        Some(version) => {
            let ghost before = actions.deep_view();
            let action = Action::SetDefault {
                candidate: candidate.to_owned(),
                version: version.clone(),
            };
            actions.push(action);
            proof {
                assert(actions.deep_view() == before.push(action.deep_view()));
                assert(actions.deep_view() == first + second + default_action(
                    candidate@,
                    requirement.default.deep_view(),
                ));
            }
        },
        None => {
            proof {
                assert(actions.deep_view() == first + second + default_action(
                    candidate@,
                    requirement.default.deep_view(),
                ));
            }
        },
    }
    actions
}

/// The plan for the candidate `name`: resolves its rules against the versions
/// on offer and compares what they require with what is installed. Fails on the
/// first rule with an expression that does not compile.
pub fn reconcile(
    name: &str,
    candidate: &Candidate,
    installed: &Vec<String>,
    available: &Vec<String>,
) -> (planned: Result<Vec<Action>, InvalidRegex>)
    ensures
        planned is Err <==> first_fault(candidate@) is Some,
        planned matches Err(error) ==> error.candidate@ == name@ && Some(error.pattern@)
            == first_fault(candidate@),
        planned matches Ok(actions) ==> actions.deep_view() == plan_of(
            name@,
            required_of(candidate@, available.deep_view()),
            default_of(candidate@, available.deep_view()),
            installed.deep_view().to_set(),
        ),
{
    match resolve(candidate, name, available) {
        Ok(requirement) => {
            let present = VersionSet::from_vec(installed);
            Ok(plan(name, &requirement, &present))
        },
        Err(error) => Err(error),
    }
}

/// Every required version is on offer, and there are finitely many.
pub proof fn lemma_required_is_available(rules: Seq<RuleSpec>, available: Seq<Seq<char>>)
    ensures
        required_of(rules, available).subset_of(available.to_set()),
        required_of(rules, available).finite(),
{
    let required = required_of(rules, available);
    assert forall|v: Seq<char>| required.contains(v) implies available.to_set().contains(v) by {
        let i = choose|i: int|
            0 <= i < rules.len() && #[trigger] rules[i].selects(available) == Some(v);
        lemma_selects_first_accepted(rules[i], available);
    }
    vstd::seq_lib::seq_to_set_is_finite(available);
    vstd::set_lib::lemma_set_subset_finite(available.to_set(), required);
}

/// The default version is one of the required versions.
pub proof fn lemma_default_is_required(rules: Seq<RuleSpec>, available: Seq<Seq<char>>)
    ensures
        default_of(rules, available) matches Some(version) ==> required_of(
            rules,
            available,
        ).contains(version),
    decreases rules.len(),
{
    if rules.len() > 0 {
        if rules.last().default && rules.last().selects(available) is Some {
            assert(rules[rules.len() - 1].selects(available) == default_of(rules, available));
        } else {
            let earlier = rules.drop_last();
            lemma_default_is_required(earlier, available);
            if let Some(version) = default_of(earlier, available) {
                let i = choose|i: int|
                    0 <= i < earlier.len() && #[trigger] earlier[i].selects(available) == Some(
                        version,
                    );
                assert(rules[i].selects(available) == Some(version));
            }
        }
    }
}

/// Among rules that claim the default the last one wins: where the last rule
/// claims the default and selects a version, that version is the default,
/// whatever the rules before it selected.
pub proof fn lemma_last_default_wins(rules: Seq<RuleSpec>, available: Seq<Seq<char>>)
    requires
        rules.len() > 0,
        rules.last().default,
        rules.last().selects(available) is Some,
    ensures
        default_of(rules, available) == rules.last().selects(available),
{
}

/// The versions to install, the versions to remove and the versions that are
/// both installed and required are disjoint, and together they are the
/// versions that are installed or required.
pub proof fn lemma_partition(required: Set<Seq<char>>, installed: Set<Seq<char>>)
    ensures
        to_install_of(required, installed).disjoint(to_remove_of(required, installed)),
        to_install_of(required, installed).disjoint(installed.intersect(required)),
        to_remove_of(required, installed).disjoint(installed.intersect(required)),
        to_install_of(required, installed).union(to_remove_of(required, installed)).union(
            installed.intersect(required),
        ) == installed.union(required),
{
    assert(to_install_of(required, installed).union(to_remove_of(required, installed)).union(
        installed.intersect(required),
    ) =~= installed.union(required));
}

/// What one action does to the set of installed versions.
pub open spec fn step(installed: Set<Seq<char>>, action: ActionSpec) -> Set<Seq<char>> {
    match action {
        ActionSpec::Uninstall { version, .. } => installed.remove(version),
        ActionSpec::Install { version, .. } => installed.insert(version),
        ActionSpec::SetDefault { .. } => installed,
    }
}

/// The set of installed versions after the actions of `plan`, carried out in
/// order.
pub open spec fn effect(installed: Set<Seq<char>>, plan: Seq<ActionSpec>) -> Set<Seq<char>>
    decreases plan.len(),
{
    if plan.len() == 0 {
        installed
    } else {
        step(effect(installed, plan.drop_last()), plan.last())
    }
}

/// Carrying out two plans in turn is carrying out the one followed by the
/// other.
pub proof fn lemma_effect_in_turn(installed: Set<Seq<char>>, a: Seq<ActionSpec>, b: Seq<ActionSpec>)
    ensures
        effect(installed, a + b) == effect(effect(installed, a), b),
    decreases b.len(),
{
    if b.len() == 0 {
        assert(a + b == a);
    } else {
        assert((a + b).drop_last() == a + b.drop_last());
        lemma_effect_in_turn(installed, a, b.drop_last());
    }
}

/// Uninstalling `versions` takes them from the installed versions.
pub proof fn lemma_effect_of_uninstalls(
    installed: Set<Seq<char>>,
    candidate: Seq<char>,
    versions: Seq<Seq<char>>,
)
    ensures
        effect(installed, versions.map_values(uninstall_of(candidate))) == installed.difference(
            versions.to_set(),
        ),
    decreases versions.len(),
{
    let plan = versions.map_values(uninstall_of(candidate));
    if versions.len() == 0 {
        assert(installed.difference(versions.to_set()) =~= installed);
    } else {
        let earlier = versions.drop_last();
        assert(plan.drop_last() == earlier.map_values(uninstall_of(candidate)));
        lemma_effect_of_uninstalls(installed, candidate, earlier);
        assert(versions == earlier.push(versions.last()));
        earlier.lemma_push_to_set_commute(versions.last());
        assert(installed.difference(earlier.to_set()).remove(versions.last())
            =~= installed.difference(versions.to_set()));
    }
}

/// Installing `versions` adds them to the installed versions.
pub proof fn lemma_effect_of_installs(
    installed: Set<Seq<char>>,
    candidate: Seq<char>,
    versions: Seq<Seq<char>>,
)
    ensures
        effect(installed, versions.map_values(install_of(candidate))) == installed.union(
            versions.to_set(),
        ),
    decreases versions.len(),
{
    let plan = versions.map_values(install_of(candidate));
    if versions.len() == 0 {
        assert(installed.union(versions.to_set()) =~= installed);
    } else {
        let earlier = versions.drop_last();
        assert(plan.drop_last() == earlier.map_values(install_of(candidate)));
        lemma_effect_of_installs(installed, candidate, earlier);
        assert(versions == earlier.push(versions.last()));
        earlier.lemma_push_to_set_commute(versions.last());
        assert(installed.union(earlier.to_set()).insert(versions.last()) =~= installed.union(
            versions.to_set(),
        ));
    }
}

/// Setting the default installs and removes nothing.
pub proof fn lemma_effect_of_default(
    installed: Set<Seq<char>>,
    candidate: Seq<char>,
    default: Option<Seq<char>>,
)
    ensures
        effect(installed, default_action(candidate, default)) == installed,
{
    let plan = default_action(candidate, default);
    if plan.len() > 0 {
        assert(plan.drop_last().len() == 0);
        assert(effect(installed, plan.drop_last()) == installed);
        assert(plan.last() is SetDefault);
        assert(effect(installed, plan) == step(effect(installed, plan.drop_last()), plan.last()));
    }
}

/// Once its plan is carried out, a candidate whose rules require anything has
/// exactly the required versions installed; one whose rules require nothing
/// has what it had.
pub proof fn lemma_plan_installs_required(
    candidate: Seq<char>,
    rules: Seq<RuleSpec>,
    installed: Set<Seq<char>>,
    available: Seq<Seq<char>>,
)
    requires
        installed.finite(),
    ensures
        ({
            let required = required_of(rules, available);
            let default = default_of(rules, available);
            effect(installed, plan_of(candidate, required, default, installed)) == if required.is_empty() {
                installed
            } else {
                required
            }
        }),
{
    let required = required_of(rules, available);
    let default = default_of(rules, available);
    if !required.is_empty() {
        lemma_required_is_available(rules, available);
        let removals = sorted(to_remove_of(required, installed));
        let additions = sorted(to_install_of(required, installed));
        lemma_sorted_exists(to_remove_of(required, installed));
        lemma_sorted_exists(to_install_of(required, installed));
        let first = removals.map_values(uninstall_of(candidate));
        let second = additions.map_values(install_of(candidate));
        let third = default_action(candidate, default);
        lemma_effect_in_turn(installed, first + second, third);
        lemma_effect_in_turn(installed, first, second);
        lemma_effect_of_uninstalls(installed, candidate, removals);
        lemma_effect_of_installs(effect(installed, first), candidate, additions);
        lemma_effect_of_default(effect(installed, first + second), candidate, default);
        assert(installed.difference(to_remove_of(required, installed)).union(
            to_install_of(required, installed),
        ) =~= required);
    }
}

/// Reconciling twice changes nothing the second time: with the same rules and
/// the same versions on offer, the plan made after the first plan was carried
/// out installs nothing and removes nothing. It holds the action that sets the
/// default, where there is a default, and no other.
pub proof fn lemma_second_plan_changes_nothing(
    candidate: Seq<char>,
    rules: Seq<RuleSpec>,
    installed: Set<Seq<char>>,
    available: Seq<Seq<char>>,
)
    requires
        installed.finite(),
    ensures
        ({
            let required = required_of(rules, available);
            let default = default_of(rules, available);
            let after = effect(installed, plan_of(candidate, required, default, installed));
            let again = plan_of(candidate, required, default, after);
            &&& !required.is_empty() ==> to_install_of(required, after).is_empty()
                && to_remove_of(required, after).is_empty()
            &&& again == default_action(candidate, default)
            &&& effect(after, again) == after
        }),
{
    let required = required_of(rules, available);
    let default = default_of(rules, available);
    let after = effect(installed, plan_of(candidate, required, default, installed));
    lemma_plan_installs_required(candidate, rules, installed, available);
    lemma_default_is_required(rules, available);
    lemma_effect_of_default(after, candidate, default);
    if required.is_empty() {
        assert(default is None) by {
            if let Some(version) = default {
                assert(required.contains(version));
            }
        }
    } else {
        let none = Seq::<Seq<char>>::empty();
        assert(to_install_of(required, after) =~= Set::<Seq<char>>::empty());
        assert(to_remove_of(required, after) =~= Set::<Seq<char>>::empty());
        assert(increasing(none));
        assert(none.to_set() =~= Set::<Seq<char>>::empty());
        lemma_sorted_is(none, Set::<Seq<char>>::empty());
        assert(none.map_values(uninstall_of(candidate)) + none.map_values(install_of(candidate))
            + default_action(candidate, default) =~= default_action(candidate, default));
    }
}

/// What a plan holds, and in which order: it removes only versions that are
/// installed and not required, installs only versions that are required and
/// not installed, and sets at most one default, as its last action.
pub proof fn lemma_plan_shape(
    candidate: Seq<char>,
    required: Set<Seq<char>>,
    default: Option<Seq<char>>,
    installed: Set<Seq<char>>,
    i: int,
)
    requires
        required.finite(),
        installed.finite(),
        0 <= i < plan_of(candidate, required, default, installed).len(),
    ensures
        ({
            let plan = plan_of(candidate, required, default, installed);
            let removals = to_remove_of(required, installed).len();
            let additions = to_install_of(required, installed).len();
            &&& plan.len() == removals + additions + if default is Some {
                1nat
            } else {
                0nat
            }
            &&& match plan[i] {
                ActionSpec::Uninstall { candidate: c, version } => c == candidate && i < removals
                    && installed.contains(version) && !required.contains(version),
                ActionSpec::Install { candidate: c, version } => c == candidate && removals <= i
                    < removals + additions && required.contains(version) && !installed.contains(
                    version,
                ),
                ActionSpec::SetDefault { candidate: c, version } => c == candidate && i == plan.len()
                    - 1 && default == Some(version),
            }
        }),
{
    let remove = to_remove_of(required, installed);
    let install = to_install_of(required, installed);
    lemma_sorted_exists(remove);
    lemma_sorted_exists(install);
    crate::versions::lemma_increasing_no_duplicates(sorted(remove));
    crate::versions::lemma_increasing_no_duplicates(sorted(install));
    sorted(remove).unique_seq_to_set();
    sorted(install).unique_seq_to_set();
    if i < sorted(remove).len() {
        assert(sorted(remove).contains(sorted(remove)[i]));
        assert(remove.contains(sorted(remove)[i]));
    } else if i < sorted(remove).len() + sorted(install).len() {
        let k = i - sorted(remove).len();
        assert(sorted(install).contains(sorted(install)[k]));
        assert(install.contains(sorted(install)[k]));
    }
}

} // verus!
