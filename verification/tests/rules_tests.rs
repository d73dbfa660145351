use activity_roles::csv_format::{CsvRow, LoadError};
use activity_roles::rules::{GuildRules, RoleType, Rule, RuleError};

fn named_rule(guild_id: u64, role_id: u64, activities: &[&str]) -> Rule {
    Rule {
        guild_id,
        guild_name: "guild_name".to_string(),
        role_id,
        role_name: "role1".to_string(),
        role_type: RoleType::NamedActivity,
        activities: activities.iter().map(|s| s.to_string()).collect(),
        comments: "".to_string(),
    }
}

fn else_rule(guild_id: u64, role_id: u64) -> Rule {
    Rule {
        guild_id,
        guild_name: "guild_name".to_string(),
        role_id,
        role_name: "role1".to_string(),
        role_type: RoleType::Else,
        activities: Vec::new(),
        comments: "".to_string(),
    }
}

fn strings(items: &[&str]) -> Vec<String> {
    items.iter().map(|s| s.to_string()).collect()
}

#[test]
fn test_rule_named_activity() {
    let row = CsvRow {
        guild_id: "0".to_string(),
        guild_name: "guild_name".to_string(),
        role_id: "0".to_string(),
        role_name: "role1".to_string(),
        role_type: "named-activity".to_string(),
        activity_names: "Game1;Game2".to_string(),
        comments: "".to_string(),
    };
    let rule: Rule = Rule::from_row(row).unwrap();
    assert_eq!(
        rule,
        Rule {
            guild_id: 0,
            guild_name: "guild_name".to_string(),
            role_id: 0,
            role_name: "role1".to_string(),
            role_type: RoleType::NamedActivity,
            activities: ["Game1", "Game2"].iter().map(|s| s.to_string()).collect(),
            comments: "".to_string(),
        }
    )
}

#[test]
fn test_rule_else() {
    let row = CsvRow {
        guild_id: "0".to_string(),
        guild_name: "guild_name".to_string(),
        role_id: "0".to_string(),
        role_name: "role1".to_string(),
        role_type: "else".to_string(),
        activity_names: "Game1;Game2".to_string(),
        comments: "".to_string(),
    };
    let rule: Rule = Rule::from_row(row).unwrap();
    assert_eq!(
        rule,
        Rule {
            guild_id: 0,
            guild_name: "guild_name".to_string(),
            role_id: 0,
            role_name: "role1".to_string(),
            role_type: RoleType::Else,
            activities: ["Game1", "Game2"].iter().map(|s| s.to_string()).collect(),
            comments: "".to_string(),
        }
    )
}

#[test]
fn test_guild_rules_activity() {
    let named_rule = named_rule(0, 0, &["Game1", "Game2"]);
    let mut else_rule = else_rule(0, 0);
    else_rule.activities = strings(&["Game1", "Game2"]);

    let mut guild_rules = GuildRules::new();
    guild_rules.activities_rules.push(named_rule.clone());
    guild_rules.default_rule = Some(else_rule.clone());

    let user_activities = strings(&["AGame1"]);
    assert_eq!(guild_rules.matching_rules(user_activities), vec![named_rule]);

    let user_activities = strings(&["asd"]);
    assert_eq!(guild_rules.matching_rules(user_activities), vec![else_rule]);
}

#[test]
fn role_type_round_trip() {
    assert_eq!(RoleType::from_str("named-activity"), Some(RoleType::NamedActivity));
    assert_eq!(RoleType::from_str("else"), Some(RoleType::Else));
    assert_eq!(RoleType::from_str("something"), None);
    assert_eq!(RoleType::NamedActivity.to_str(), "named-activity");
    assert_eq!(RoleType::Else.to_str(), "else");
}

#[test]
fn add_rule_rejects_duplicates() {
    let mut g = GuildRules::new();
    assert!(g.add_rule(named_rule(1, 10, &["Chess"])).is_ok());
    let err = g.add_rule(named_rule(1, 10, &["Go"])).unwrap_err();
    assert_eq!(err, RuleError::AlreadyExists);
    assert_eq!(err.message(), "Rule already exists");

    assert!(g.add_rule(else_rule(1, 20)).is_ok());
    let err = g.add_rule(else_rule(1, 21)).unwrap_err();
    assert_eq!(err, RuleError::DefaultAlreadyExists);
    assert_eq!(err.message(), "Default rule already exists");
}

#[test]
fn add_rule_keeps_role_order() {
    let mut g = GuildRules::new();
    g.add_rule(named_rule(1, 30, &["C"])).unwrap();
    g.add_rule(named_rule(1, 10, &["A"])).unwrap();
    g.add_rule(named_rule(1, 20, &["B"])).unwrap();
    let ids: Vec<u64> = g.activities_rules.iter().map(|r| r.role_id).collect();
    assert_eq!(ids, vec![10, 20, 30]);
}

#[test]
fn remove_rule_and_not_found() {
    let mut g = GuildRules::new();
    g.add_rule(named_rule(1, 10, &["A"])).unwrap();
    g.add_rule(else_rule(1, 20)).unwrap();

    assert!(g.remove_rule(10).is_ok());
    assert!(g.activities_rules.is_empty());

    assert!(g.remove_rule(20).is_ok());
    assert!(g.default_rule.is_none());

    let err = g.remove_rule(20).unwrap_err();
    assert_eq!(err, RuleError::NotFound);
    assert_eq!(err.message(), "Rule not found");
}

#[test]
fn edit_rule_replaces_only_existing() {
    let mut g = GuildRules::new();
    g.add_rule(named_rule(1, 10, &["A"])).unwrap();

    let mut changed = named_rule(1, 10, &["A", "B"]);
    changed.comments = "updated".to_string();
    assert!(g.edit_rule(changed.clone()).is_ok());
    assert_eq!(g.get_rule(10), Some(&changed));

    let err = g.edit_rule(named_rule(1, 99, &["X"])).unwrap_err();
    assert_eq!(err, RuleError::NotFound);
}

#[test]
fn get_rule_prefers_default() {
    let mut g = GuildRules::new();
    g.add_rule(named_rule(1, 10, &["A"])).unwrap();
    g.add_rule(else_rule(1, 10)).unwrap();
    assert_eq!(g.get_rule(10).unwrap().role_type, RoleType::Else);
    assert!(g.get_rule(11).is_none());
}

#[test]
fn get_rule_mut_writes_into_slot() {
    let mut g = GuildRules::new();
    g.add_rule(named_rule(1, 10, &["A"])).unwrap();
    {
        let slot = g.get_rule_mut(10).unwrap();
        slot.role_name = "renamed".to_string();
    }
    assert_eq!(g.get_rule(10).unwrap().role_name, "renamed");
    assert!(g.get_rule_mut(99).is_none());
}

#[test]
fn all_rules_lists_default_first() {
    let mut g = GuildRules::new();
    g.add_rule(named_rule(1, 10, &["A"])).unwrap();
    g.add_rule(else_rule(1, 20)).unwrap();
    let all = g.all_rules();
    assert_eq!(all.len(), 2);
    assert_eq!(all[0].role_type, RoleType::Else);
    assert_eq!(all[1].role_id, 10);
}

#[test]
fn from_row_reports_each_error() {
    let base = || CsvRow {
        guild_id: "1".to_string(),
        guild_name: "g".to_string(),
        role_id: "2".to_string(),
        role_name: "r".to_string(),
        role_type: "named-activity".to_string(),
        activity_names: "A".to_string(),
        comments: "".to_string(),
    };

    let mut row = base();
    row.guild_id = "abc".to_string();
    assert_eq!(Rule::from_row(row).unwrap_err(), LoadError::InvalidGuildId);

    let mut row = base();
    row.role_type = "weird".to_string();
    assert_eq!(Rule::from_row(row).unwrap_err(), LoadError::UnknownRoleType);

    let mut row = base();
    row.role_id = "-3".to_string();
    assert_eq!(Rule::from_row(row).unwrap_err(), LoadError::InvalidRoleId);
}

#[test]
fn from_row_trims_and_drops_empty_activities() {
    let row = CsvRow {
        guild_id: "1".to_string(),
        guild_name: "g".to_string(),
        role_id: "2".to_string(),
        role_name: "r".to_string(),
        role_type: "named-activity".to_string(),
        activity_names: " Game1 ;; Game2".to_string(),
        comments: "".to_string(),
    };
    let rule = Rule::from_row(row).unwrap();
    assert_eq!(rule.activities, vec!["Game1".to_string(), "Game2".to_string()]);
}

#[test]
fn row_round_trip_for_one_rule() {
    let rule = named_rule(7, 42, &["Factorio", "OpenTTD"]);
    let row = rule.to_row();
    assert_eq!(row.guild_id, "7");
    assert_eq!(row.role_id, "42");
    assert_eq!(row.role_type, "named-activity");
    assert_eq!(row.activity_names, "Factorio;OpenTTD");
    assert_eq!(Rule::from_row(row).unwrap(), rule);
}
