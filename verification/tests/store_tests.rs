use activity_roles::csv_format::LoadError;
use activity_roles::rules::{RoleType, Rule, RuleError};
use activity_roles::store::{
    find_role_by_name, load_rules_from_buffer, rules_to_csv, update_roles_names, RoleInfo,
    RuleStore,
};

fn rule(guild_id: u64, role_id: u64, kind: RoleType, activities: &[&str], comment: &str) -> Rule {
    Rule {
        guild_id,
        guild_name: "Guild".to_string(),
        role_id,
        role_name: "Role".to_string(),
        role_type: kind,
        activities: activities.iter().map(|s| s.to_string()).collect(),
        comments: comment.to_string(),
    }
}

fn sample_store() -> RuleStore {
    let mut store = RuleStore::new();
    store.upsert_rule(rule(2, 20, RoleType::NamedActivity, &["Chess", "Go"], "boards"));
    store.upsert_rule(rule(1, 11, RoleType::Else, &[], ""));
    store.upsert_rule(rule(1, 10, RoleType::NamedActivity, &["Factorio"], "with, comma"));
    store.upsert_rule(rule(2, 21, RoleType::NamedActivity, &["Doom \"93\""], ""));
    store
}

#[test]
fn save_then_load_gives_the_same_store() {
    let store = sample_store();
    let text = rules_to_csv(&store);
    let loaded = load_rules_from_buffer(&text).unwrap();
    assert_eq!(loaded, store);
}

#[test]
fn save_writes_sorted_quoted_records() {
    let mut store = RuleStore::new();
    store.upsert_rule(rule(5, 7, RoleType::NamedActivity, &["A", "B"], ""));
    let text = rules_to_csv(&store);
    let header = "\"guild_id\",\"guild_name\",\"role_id\",\"role_name\",\"type\",\"activity_names\",\"comments\"";
    let row = "\"5\",\"Guild\",\"7\",\"Role\",\"named-activity\",\"A;B\",\"\"";
    let expected = format!("{}\n{}\n", header, row);
    assert_eq!(text, expected);
}

#[test]
fn default_rule_sorts_before_activity_rule_with_same_role() {
    let mut store = RuleStore::new();
    store.upsert_rule(rule(1, 10, RoleType::NamedActivity, &["A"], ""));
    store.upsert_rule(rule(1, 10, RoleType::Else, &[], ""));
    let text = rules_to_csv(&store);
    let lines: Vec<&str> = text.lines().collect();
    assert_eq!(lines.len(), 3);
    assert!(lines[1].contains("\"else\""));
    assert!(lines[2].contains("\"named-activity\""));
    let loaded = load_rules_from_buffer(&text).unwrap();
    assert_eq!(loaded, store);
}

#[test]
fn empty_text_loads_an_empty_store() {
    let store = load_rules_from_buffer("").unwrap();
    assert_eq!(store, RuleStore::new());
}

#[test]
fn loading_accepts_unquoted_fields() {
    let text = "guild_id,guild_name,role_id,role_name,type,activity_names,comments\n\
                1,Guild,10,Role,named-activity,Game1;Game2,hi\n";
    let store = load_rules_from_buffer(text).unwrap();
    let g = store.guild(1).unwrap();
    let r = g.get_rule(10).unwrap();
    assert_eq!(r.activities, vec!["Game1".to_string(), "Game2".to_string()]);
    assert_eq!(r.comments, "hi");
}

#[test]
fn loading_handles_quoted_fields_and_escaped_quotes() {
    let text = "guild_id,guild_name,role_id,role_name,type,activity_names,comments\n\
                1,\"Guild, the first\",10,Role,named-activity,\"A;B\",\"say \"\"hi\"\"\"\n";
    let store = load_rules_from_buffer(text).unwrap();
    let g = store.guild(1).unwrap();
    let r = g.get_rule(10).unwrap();
    assert_eq!(r.guild_name, "Guild, the first");
    assert_eq!(r.activities, vec!["A".to_string(), "B".to_string()]);
    assert_eq!(r.comments, "say \"hi\"");
}

#[test]
fn loading_reports_each_error() {
    assert_eq!(load_rules_from_buffer("\"unterminated\n").unwrap_err(), LoadError::MalformedTable);
    assert_eq!(load_rules_from_buffer("not,a,header\n").unwrap_err(), LoadError::BadHeader);

    let header = "guild_id,guild_name,role_id,role_name,type,activity_names,comments\n";
    let short = format!("{}1,Guild,10\n", header);
    assert_eq!(load_rules_from_buffer(&short).unwrap_err(), LoadError::WrongFieldCount);

    let bad_gid = format!("{}x,Guild,10,Role,named-activity,A,\n", header);
    assert_eq!(load_rules_from_buffer(&bad_gid).unwrap_err(), LoadError::InvalidGuildId);

    let bad_kind = format!("{}1,Guild,10,Role,sometimes,A,\n", header);
    assert_eq!(load_rules_from_buffer(&bad_kind).unwrap_err(), LoadError::UnknownRoleType);

    let bad_rid = format!("{}1,Guild,ten,Role,else,A,\n", header);
    assert_eq!(load_rules_from_buffer(&bad_rid).unwrap_err(), LoadError::InvalidRoleId);
}

#[test]
fn later_rows_overwrite_earlier_ones() {
    let header = "guild_id,guild_name,role_id,role_name,type,activity_names,comments\n";
    let text = format!(
        "{}1,Guild,10,Role,named-activity,Old,\n1,Guild,10,Role,named-activity,New,\n",
        header
    );
    let store = load_rules_from_buffer(&text).unwrap();
    let g = store.guild(1).unwrap();
    assert_eq!(g.get_rule(10).unwrap().activities, vec!["New".to_string()]);
}

#[test]
fn update_roles_names_renames_known_roles() {
    let mut store = sample_store();
    let roles = vec![
        RoleInfo { id: 10, name: "Factory Worker".to_string() },
        RoleInfo { id: 11, name: "Idler".to_string() },
        RoleInfo { id: 99, name: "Unrelated".to_string() },
    ];
    update_roles_names(&mut store, roles, 1).unwrap();
    let g = store.guild(1).unwrap();
    assert_eq!(g.get_rule(10).unwrap().role_name, "Factory Worker");
    assert_eq!(g.get_rule(11).unwrap().role_name, "Idler");

    let err = update_roles_names(&mut store, Vec::new(), 42).unwrap_err();
    assert_eq!(err, RuleError::NoRulesForGuild);
    assert_eq!(err.message(), "No rules for guild");
}

#[test]
fn find_role_by_name_picks_first_match() {
    let roles = vec![
        RoleInfo { id: 1, name: "Lazy Null".to_string() },
        RoleInfo { id: 2, name: "Lazy Null".to_string() },
    ];
    assert_eq!(find_role_by_name(&roles, "Lazy Null"), Some(1));
    assert_eq!(find_role_by_name(&roles, "Busy One"), None);
}

#[test]
fn guild_mut_edits_one_entry() {
    let mut store = sample_store();
    {
        let g = store.guild_mut(1).unwrap();
        g.add_rule(rule(1, 12, RoleType::NamedActivity, &["Rimworld"], "")).unwrap();
    }
    assert!(store.guild(1).unwrap().get_rule(12).is_some());
    assert!(store.guild(2).unwrap().get_rule(12).is_none());
    assert!(store.guild_mut(3).is_none());
}
