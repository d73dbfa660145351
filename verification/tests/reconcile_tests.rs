use activity_roles::reconcile::{
    apply_plan, roles_for_activity, user_activities_from_presence, ActivityKind, PresenceActivity,
    RolesToChange, TagOp,
};
use activity_roles::rules::{GuildRules, RoleType, Rule};

fn named_rule(role_id: u64, activities: &[&str]) -> Rule {
    Rule {
        guild_id: 1,
        guild_name: "g".to_string(),
        role_id,
        role_name: "r".to_string(),
        role_type: RoleType::NamedActivity,
        activities: activities.iter().map(|s| s.to_string()).collect(),
        comments: "".to_string(),
    }
}

fn else_rule(role_id: u64) -> Rule {
    Rule {
        guild_id: 1,
        guild_name: "g".to_string(),
        role_id,
        role_name: "r".to_string(),
        role_type: RoleType::Else,
        activities: Vec::new(),
        comments: "".to_string(),
    }
}

fn strings(items: &[&str]) -> Vec<String> {
    items.iter().map(|s| s.to_string()).collect()
}

fn chess_group() -> GuildRules {
    let mut g = GuildRules::new();
    g.add_rule(named_rule(1, &["Chess"])).unwrap();
    g.add_rule(else_rule(2)).unwrap();
    g
}

#[test]
fn scenario_default_fallback() {
    // Subject holds the chess tag but is playing checkers: the default
    // tag is added and the chess tag removed.
    let out = roles_for_activity(chess_group(), vec![1], strings(&["Checkers"])).unwrap();
    assert_eq!(out.roles_to_add, vec![2]);
    assert_eq!(out.roles_to_remove, vec![1]);
}

#[test]
fn scenario_no_activity_no_change() {
    let out = roles_for_activity(chess_group(), vec![], strings(&[])).unwrap();
    assert_eq!(out.roles_to_add, Vec::<u64>::new());
    assert_eq!(out.roles_to_remove, Vec::<u64>::new());
}

#[test]
fn substring_matching_is_case_insensitive() {
    let mut g = GuildRules::new();
    g.add_rule(named_rule(1, &["factorio"])).unwrap();
    let out = roles_for_activity(g, vec![], strings(&["Factorio: Space Age"])).unwrap();
    assert_eq!(out.roles_to_add, vec![1]);
    assert_eq!(out.roles_to_remove, Vec::<u64>::new());
}

#[test]
fn reconcile_is_idempotent_on_its_own_output() {
    // First pass computes the delta; once applied, a second pass with the
    // same activities finds nothing to do.
    let held = vec![1];
    let acts = strings(&["Checkers"]);
    let out = roles_for_activity(chess_group(), held.clone(), acts.clone()).unwrap();
    let mut new_held: Vec<u64> = held
        .iter()
        .copied()
        .filter(|id| !out.roles_to_remove.contains(id))
        .collect();
    new_held.extend(out.roles_to_add.iter().copied());
    let again = roles_for_activity(chess_group(), new_held, acts).unwrap();
    assert_eq!(again.roles_to_add, Vec::<u64>::new());
    assert_eq!(again.roles_to_remove, Vec::<u64>::new());
}

#[test]
fn deltas_are_disjoint() {
    let out = roles_for_activity(chess_group(), vec![1, 2], strings(&["Chess", "Checkers"]))
        .unwrap();
    for id in &out.roles_to_add {
        assert!(!out.roles_to_remove.contains(id));
    }
}

#[test]
fn unmanaged_tags_are_never_touched() {
    // Tag 99 is managed by no rule: held or not, it never shows up.
    let out = roles_for_activity(chess_group(), vec![99, 1], strings(&["Checkers"])).unwrap();
    assert!(!out.roles_to_add.contains(&99));
    assert!(!out.roles_to_remove.contains(&99));
}

#[test]
fn empty_activities_only_remove() {
    let out = roles_for_activity(chess_group(), vec![1, 2, 99], strings(&[])).unwrap();
    assert_eq!(out.roles_to_add, Vec::<u64>::new());
    assert_eq!(out.roles_to_remove, vec![1, 2]);
}

#[test]
fn matching_rule_wins_over_default() {
    let out = roles_for_activity(chess_group(), vec![], strings(&["Chess Club"])).unwrap();
    assert_eq!(out.roles_to_add, vec![1]);
}

#[test]
fn apply_plan_assigns_before_revoking() {
    let changes = RolesToChange { roles_to_add: vec![2, 5], roles_to_remove: vec![1] };
    let plan = apply_plan(&changes);
    assert_eq!(plan, vec![TagOp::Assign(2), TagOp::Assign(5), TagOp::Revoke(1)]);
}

#[test]
fn presence_extraction_keeps_distinct_played_names() {
    let activities = vec![
        PresenceActivity { kind: ActivityKind::Playing, name: "Chess".to_string() },
        PresenceActivity { kind: ActivityKind::Listening, name: "Radio".to_string() },
        PresenceActivity { kind: ActivityKind::Playing, name: "Chess".to_string() },
        PresenceActivity { kind: ActivityKind::Playing, name: "Go".to_string() },
        PresenceActivity { kind: ActivityKind::Custom, name: "afk".to_string() },
    ];
    let names = user_activities_from_presence(&activities);
    assert_eq!(names, vec!["Chess".to_string(), "Go".to_string()]);
}
