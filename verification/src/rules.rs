//! Rules tie a group's activity names to its tags (roles).
//!
//! A group owns at most one rule per managed role: either an activity rule,
//! which matches when one of its activity substrings occurs case-insensitively
//! in one of the subject's current activities, or the single default rule,
//! which applies when activities are present but no activity rule matches.

use crate::text::{is_substring, is_ws, lower_of, str_contains, str_eq, to_lowercase};
use vstd::prelude::*;

verus! {

/// Which way a rule assigns its role.
#[derive(Debug, Clone, Copy, PartialEq, Eq, Hash, Structural)]
pub enum RoleType {
    /// Assigned while a matching activity is being played.
    NamedActivity,
    /// Assigned while some activity is played but no activity rule matches.
    Else,
}

/// What `RoleType::to_str` returns, and what `RoleType::from_str` accepts.
pub open spec fn spec_role_type_str(t: RoleType) -> Seq<char> {
    match t {
        RoleType::NamedActivity => "named-activity"@,
        RoleType::Else => "else"@,
    }
}

/// The role type named by the given text, if any.
pub open spec fn spec_role_type_of(s: Seq<char>) -> Option<RoleType> {
    if s == "named-activity"@ {
        Some(RoleType::NamedActivity)
    } else if s == "else"@ {
        Some(RoleType::Else)
    } else {
        None
    }
}

impl RoleType {
    pub fn from_str(s: &str) -> (r: Option<RoleType>)
        ensures
            r == spec_role_type_of(s@),
    {
        if str_eq(s, "named-activity") {
            Some(RoleType::NamedActivity)
        } else if str_eq(s, "else") {
            Some(RoleType::Else)
        } else {
            None
        }
    }

    pub fn to_str(&self) -> (r: &str)
        ensures
            r@ == spec_role_type_str(*self),
    {
        match self {
            RoleType::NamedActivity => "named-activity",
            RoleType::Else => "else",
        }
    }
}

/// The mathematical content of a [`Rule`]: every text field as its
/// character sequence.
pub struct RuleView {
    pub guild_id: u64,
    pub guild_name: Seq<char>,
    pub role_id: u64,
    pub role_name: Seq<char>,
    pub role_type: RoleType,
    pub activities: Seq<Seq<char>>,
    pub comments: Seq<char>,
}

/// One rule: within one group, one managed role together with the activity
/// substrings that earn it.
#[derive(Debug, PartialEq, Eq, Hash)]
pub struct Rule {
    pub guild_id: u64,
    pub guild_name: String,
    pub role_id: u64,
    pub role_name: String,
    pub role_type: RoleType,
    pub activities: Vec<String>,
    pub comments: String,
}

impl View for Rule {
    type V = RuleView;

    open spec fn view(&self) -> RuleView {
        RuleView {
            guild_id: self.guild_id,
            guild_name: self.guild_name@,
            role_id: self.role_id,
            role_name: self.role_name@,
            role_type: self.role_type,
            activities: self.activities.deep_view(),
            comments: self.comments@,
        }
    }
}

impl DeepView for Rule {
    type V = RuleView;

    open spec fn deep_view(&self) -> RuleView {
        self.view()
    }
}

impl Clone for Rule {
    fn clone(&self) -> (res: Rule)
        ensures
            res@ == self@,
    {
        let res = Rule {
            guild_id: self.guild_id,
            guild_name: self.guild_name.clone(),
            role_id: self.role_id,
            role_name: self.role_name.clone(),
            role_type: self.role_type,
            activities: clone_strings(&self.activities),
            comments: self.comments.clone(),
        };
        res
    }
}

/// An activity name as a rule stores it: non-empty, free of the list
/// separator used by the storage format, and with no whitespace at either
/// end, so that saving and loading gives the name back unchanged.
pub open spec fn clean_activity(s: Seq<char>) -> bool {
    &&& s.len() > 0
    &&& forall|i: int| 0 <= i < s.len() ==> s[i] != ';'
    &&& !is_ws(s[0])
    &&& !is_ws(s[s.len() - 1])
}

/// One of the rule's activity substrings occurs, case-insensitively, in one
/// of the subject's current activity names.
pub open spec fn spec_activity_matches(rule_act: Seq<char>, user_acts: Seq<Seq<char>>) -> bool {
    exists|j: int|
        0 <= j < user_acts.len() && is_substring(
            lower_of(rule_act),
            #[trigger] lower_of(user_acts[j]),
        )
}

impl RuleView {
    pub open spec fn wf(self) -> bool {
        forall|i: int| 0 <= i < self.activities.len() ==> clean_activity(#[trigger] self.activities[i])
    }

    /// Whether this rule matches the subject's current activities.
    pub open spec fn matches(self, user_acts: Seq<Seq<char>>) -> bool {
        exists|i: int|
            0 <= i < self.activities.len() && #[trigger] spec_activity_matches(
                self.activities[i],
                user_acts,
            )
    }
}

/// The errors that rule mutations report to the administrative caller.
#[derive(Debug, Clone, Copy, PartialEq, Eq, Structural)]
pub enum RuleError {
    /// An activity rule for this role already exists.
    AlreadyExists,
    /// The group already has a default rule.
    DefaultAlreadyExists,
    /// No rule owns this role.
    NotFound,
    /// The store has no entry for this group.
    NoRulesForGuild,
}

impl RuleError {
    /// The user-visible failure text.
    pub fn message(&self) -> (r: String)
        ensures
            self is AlreadyExists ==> r@ == "Rule already exists"@,
            self is DefaultAlreadyExists ==> r@ == "Default rule already exists"@,
            self is NotFound ==> r@ == "Rule not found"@,
            self is NoRulesForGuild ==> r@ == "No rules for guild"@,
    {
        match self {
            RuleError::AlreadyExists => String::from_str("Rule already exists"),
            RuleError::DefaultAlreadyExists => String::from_str("Default rule already exists"),
            RuleError::NotFound => String::from_str("Rule not found"),
            RuleError::NoRulesForGuild => String::from_str("No rules for guild"),
        }
    }
}

/// The mathematical content of a [`GuildRules`].
pub struct GuildRulesView {
    pub activities_rules: Seq<RuleView>,
    pub default_rule: Option<RuleView>,
}

/// One group's rule collection: its activity rules, keyed uniquely by role,
/// plus at most one default rule.
#[derive(Debug, PartialEq, Eq, Hash)]
pub struct GuildRules {
    /// The activity rules, in strictly increasing role order.
    pub activities_rules: Vec<Rule>,
    pub default_rule: Option<Rule>,
}

impl View for GuildRules {
    type V = GuildRulesView;

    open spec fn view(&self) -> GuildRulesView {
        GuildRulesView {
            activities_rules: self.activities_rules.deep_view(),
            default_rule: self.default_rule.deep_view(),
        }
    }
}

impl DeepView for GuildRules {
    type V = GuildRulesView;

    open spec fn deep_view(&self) -> GuildRulesView {
        self.view()
    }
}

impl Clone for GuildRules {
    fn clone(&self) -> (res: GuildRules)
        ensures
            res@ == self@,
    {
        let default_rule = match &self.default_rule {
            Some(r) => Some(r.clone()),
            None => None,
        };
        let res = GuildRules { activities_rules: clone_rules(&self.activities_rules), default_rule };
        proof {
            assert(res@.activities_rules =~= self@.activities_rules);
        }
        res
    }
}

/// Clones a string list, element by element.
fn clone_strings(v: &Vec<String>) -> (res: Vec<String>)
    ensures
        res@ == v@,
{
    let mut res: Vec<String> = Vec::new();
    let mut i: usize = 0;
    while i < v.len()
        invariant
            0 <= i <= v@.len(),
            res@ == v@.subrange(0, i as int),
        decreases v@.len() - i,
    {
        res.push(v[i].clone());
        proof {
            assert(res@ =~= v@.subrange(0, i + 1));
        }
        i += 1;
    }
    proof {
        assert(v@.subrange(0, v@.len() as int) =~= v@);
    }
    res
}

/// Clones a rule list, element by element.
pub(crate) fn clone_rules(rules: &Vec<Rule>) -> (res: Vec<Rule>)
    ensures
        res.deep_view() == rules.deep_view(),
{
    let mut res: Vec<Rule> = Vec::new();
    let mut i: usize = 0;
    while i < rules.len()
        invariant
            0 <= i <= rules@.len(),
            res.deep_view() == rules.deep_view().subrange(0, i as int),
        decreases rules@.len() - i,
    {
        proof {
            assert(res.deep_view().len() == res@.len());
            assert(res@.len() == i);
        }
        let ghost prev = res.deep_view();
        res.push(rules[i].clone());
        proof {
            assert forall|j: int| 0 <= j < prev.len() implies res.deep_view()[j] == prev[j] by {}
            assert(res.deep_view() =~= rules.deep_view().subrange(0, i + 1));
        }
        i += 1;
    }
    proof {
        assert(rules.deep_view().subrange(0, rules.deep_view().len() as int) =~= rules.deep_view());
    }
    res
}

impl GuildRulesView {
    /// The activity rules are keyed uniquely by role and kept in strictly
    /// increasing role order; every rule is stored under its own kind.
    pub open spec fn wf(self) -> bool {
        &&& forall|i: int, j: int|
            0 <= i < j < self.activities_rules.len()
                ==> #[trigger] self.activities_rules[i].role_id
                < #[trigger] self.activities_rules[j].role_id
        &&& forall|i: int|
            0 <= i < self.activities_rules.len() ==> (#[trigger] self.activities_rules[i]).wf()
                && self.activities_rules[i].role_type == RoleType::NamedActivity
        &&& match self.default_rule {
            Some(d) => d.wf() && d.role_type == RoleType::Else,
            None => true,
        }
    }

    /// The default rule as a (zero- or one-element) list.
    pub open spec fn spec_default_rules(self) -> Seq<RuleView> {
        match self.default_rule {
            None => Seq::empty(),
            Some(r) => seq![r],
        }
    }

    /// Every rule of the group: the default rule first, then the activity
    /// rules in role order.
    pub open spec fn spec_all_rules(self) -> Seq<RuleView> {
        self.spec_default_rules() + self.activities_rules
    }

    /// The rule owning `role_id`, the default rule taking precedence.
    pub open spec fn spec_get_rule(self, role_id: u64) -> Option<RuleView> {
        match self.default_rule {
            Some(d) if d.role_id == role_id => Some(d),
            _ => spec_find_rule(self.activities_rules, role_id),
        }
    }

    /// The rules that apply to a subject with the given activities: none
    /// without activities; the matching activity rules if any match;
    /// otherwise the default rule.
    pub open spec fn spec_matching_rules(self, user_acts: Seq<Seq<char>>) -> Seq<RuleView> {
        if user_acts.len() == 0 {
            Seq::empty()
        } else {
            let matched = spec_matched_rules(self.activities_rules, user_acts);
            if matched.len() > 0 {
                matched
            } else {
                self.spec_default_rules()
            }
        }
    }
}

/// The first rule in the list owning `role_id`.
pub open spec fn spec_find_rule(rules: Seq<RuleView>, role_id: u64) -> Option<RuleView>
    decreases rules.len(),
{
    if rules.len() == 0 {
        None
    } else if rules[0].role_id == role_id {
        Some(rules[0])
    } else {
        spec_find_rule(rules.drop_first(), role_id)
    }
}

/// The rules in the list that match the given activities, in list order.
pub open spec fn spec_matched_rules(rules: Seq<RuleView>, user_acts: Seq<Seq<char>>) -> Seq<
    RuleView,
>
    decreases rules.len(),
{
    if rules.len() == 0 {
        Seq::empty()
    } else {
        spec_matched_rules(rules.drop_last(), user_acts) + if rules.last().matches(user_acts) {
            seq![rules.last()]
        } else {
            Seq::empty()
        }
    }
}

impl GuildRules {
    /// A group starts with no rules.
    pub fn new() -> (r: GuildRules)
        ensures
            r@.activities_rules.len() == 0,
            r@.default_rule is None,
            r@.wf(),
    {
        GuildRules { activities_rules: Vec::new(), default_rule: None }
    }

    /// The default rule as a (zero- or one-element) list.
    pub fn default_rules(&self) -> (r: Vec<Rule>)
        ensures
            r.deep_view() == self@.spec_default_rules(),
    {
        match &self.default_rule {
            None => {
                let r: Vec<Rule> = Vec::new();
                proof {
                    assert(r.deep_view() =~= self@.spec_default_rules());
                }
                r
            },
            Some(rule) => {
                let mut r: Vec<Rule> = Vec::new();
                r.push(rule.clone());
                proof {
                    assert(r.deep_view() =~= self@.spec_default_rules());
                }
                r
            },
        }
    }

    /// Every rule of the group: the default rule first, then the activity
    /// rules in role order.
    pub fn all_rules(&self) -> (r: Vec<Rule>)
        ensures
            r.deep_view() == self@.spec_all_rules(),
    {
        let mut r = self.default_rules();
        let mut i: usize = 0;
        while i < self.activities_rules.len()
            invariant
                0 <= i <= self.activities_rules@.len(),
                r.deep_view() == self@.spec_default_rules() + self@.activities_rules.subrange(
                    0,
                    i as int,
                ),
            decreases self.activities_rules@.len() - i,
        {
            proof {
                assert(r.deep_view().len() == r@.len());
                assert(r@.len() == self@.spec_default_rules().len() + i);
                assert(self@.activities_rules[i as int] == self.activities_rules@[i as int]@);
            }
            let ghost prev = r.deep_view();
            r.push(self.activities_rules[i].clone());
            proof {
                assert(r.deep_view().len() == prev.len() + 1);
                assert(r.deep_view()[prev.len() as int] == self@.activities_rules[i as int]);
                let ghost rhs = self@.spec_default_rules() + self@.activities_rules.subrange(
                    0,
                    i + 1,
                );
                assert forall|j: int| 0 <= j < r.deep_view().len() implies r.deep_view()[j]
                    == rhs[j] by {
                    if j < prev.len() {
                        assert(r.deep_view()[j] == prev[j]);
                        assert(prev[j] == (self@.spec_default_rules()
                            + self@.activities_rules.subrange(0, i as int))[j]);
                    }
                }
                assert(r.deep_view() =~= rhs);
            }
            i += 1;
        }
        proof {
            assert(self@.activities_rules.subrange(0, self@.activities_rules.len() as int)
                =~= self@.activities_rules);
        }
        r
    }

    /// The rule owning `role_id`, the default rule taking precedence.
    pub fn get_rule(&self, role_id: u64) -> (r: Option<&Rule>)
        ensures
            match r {
                Some(rule) => self@.spec_get_rule(role_id) == Some(rule@),
                None => self@.spec_get_rule(role_id) is None,
            },
    {
        match &self.default_rule {
            Some(d) if d.role_id == role_id => Some(d),
            _ => {
                proof {
                    assert(self@.activities_rules.skip(0) =~= self@.activities_rules);
                    assert(match self@.default_rule {
                        Some(d) => d.role_id != role_id,
                        None => true,
                    });
                }
                let mut i: usize = 0;
                while i < self.activities_rules.len()
                    invariant
                        0 <= i <= self.activities_rules@.len(),
                        spec_find_rule(
                            self@.activities_rules.skip(i as int),
                            role_id,
                        ) == spec_find_rule(self@.activities_rules, role_id),
                        forall|t: int|
                            0 <= t < i ==> (#[trigger] self@.activities_rules[t]).role_id
                                != role_id,
                        match self@.default_rule {
                            Some(d) => d.role_id != role_id,
                            None => true,
                        },
                    decreases self.activities_rules@.len() - i,
                {
                    if self.activities_rules[i].role_id == role_id {
                        let found = &self.activities_rules[i];
                        proof {
                            assert(self@.activities_rules.skip(i as int)[0]
                                == self@.activities_rules[i as int]);
                            assert(found@ == self@.activities_rules[i as int]);
                            lemma_find_rule_head(self@.activities_rules.skip(i as int), role_id);
                            assert(spec_find_rule(self@.activities_rules, role_id)
                                == Some(found@));
                            assert(self@.spec_get_rule(role_id) == Some(found@));
                        }
                        return Some(found);
                    }
                    proof {
                        lemma_find_rule_tail(self@.activities_rules.skip(i as int), role_id);
                        assert(self@.activities_rules.skip(i as int).drop_first()
                            =~= self@.activities_rules.skip(i + 1));
                    }
                    i += 1;
                }
                proof {
                    assert(self@.activities_rules.skip(self@.activities_rules.len() as int).len()
                        == 0);
                }
                None
            },
        }
    }
}

proof fn lemma_find_rule_head(rules: Seq<RuleView>, role_id: u64)
    requires
        rules.len() > 0,
        rules[0].role_id == role_id,
    ensures
        spec_find_rule(rules, role_id) == Some(rules[0]),
{
}

proof fn lemma_find_rule_tail(rules: Seq<RuleView>, role_id: u64)
    requires
        rules.len() > 0,
        rules[0].role_id != role_id,
    ensures
        spec_find_rule(rules, role_id) == spec_find_rule(rules.drop_first(), role_id),
{
}


/// Lowers every string in the list.
fn lower_all(acts: &Vec<String>) -> (low: Vec<String>)
    ensures
        low@.len() == acts.deep_view().len(),
        forall|j: int|
            0 <= j < low@.len() ==> (#[trigger] low@[j])@ == lower_of(acts.deep_view()[j]),
{
    let mut low: Vec<String> = Vec::new();
    let mut i: usize = 0;
    while i < acts.len()
        invariant
            0 <= i <= acts@.len(),
            low@.len() == i,
            forall|j: int|
                0 <= j < i ==> (#[trigger] low@[j])@ == lower_of(acts.deep_view()[j]),
        decreases acts@.len() - i,
    {
        proof {
            assert(acts.deep_view()[i as int] == acts@[i as int]@);
        }
        low.push(to_lowercase(acts[i].as_str()));
        i += 1;
    }
    low
}

/// Does the one rule activity occur, case-insensitively, in any of the
/// user's activities?  `low` holds the lowered user activities.
fn activity_matches(
    rule_act: &str,
    low: &Vec<String>,
    Ghost(user_acts): Ghost<Seq<Seq<char>>>,
) -> (b: bool)
    requires
        low@.len() == user_acts.len(),
        forall|j: int| 0 <= j < low@.len() ==> (#[trigger] low@[j])@ == lower_of(user_acts[j]),
    ensures
        b == spec_activity_matches(rule_act@, user_acts),
{
    let low_act = to_lowercase(rule_act);
    let mut j: usize = 0;
    while j < low.len()
        invariant
            0 <= j <= low@.len(),
            low@.len() == user_acts.len(),
            low_act@ == lower_of(rule_act@),
            forall|t: int| 0 <= t < low@.len() ==> (#[trigger] low@[t])@ == lower_of(user_acts[t]),
            forall|t: int|
                0 <= t < j ==> !is_substring(lower_of(rule_act@), #[trigger] lower_of(user_acts[t])),
        decreases low@.len() - j,
    {
        if str_contains(low[j].as_str(), low_act.as_str()) {
            proof {
                assert(is_substring(lower_of(rule_act@), lower_of(user_acts[j as int])));
            }
            return true;
        }
        j += 1;
    }
    false
}

/// Does the rule match any of the user's activities?  `low` holds the
/// lowered user activities.
fn rule_matches(
    rule: &Rule,
    low: &Vec<String>,
    Ghost(user_acts): Ghost<Seq<Seq<char>>>,
) -> (b: bool)
    requires
        low@.len() == user_acts.len(),
        forall|j: int| 0 <= j < low@.len() ==> (#[trigger] low@[j])@ == lower_of(user_acts[j]),
    ensures
        b == rule@.matches(user_acts),
{
    let mut i: usize = 0;
    while i < rule.activities.len()
        invariant
            0 <= i <= rule.activities@.len(),
            low@.len() == user_acts.len(),
            forall|t: int| 0 <= t < low@.len() ==> (#[trigger] low@[t])@ == lower_of(user_acts[t]),
            forall|t: int|
                0 <= t < i ==> !spec_activity_matches(#[trigger] rule@.activities[t], user_acts),
        decreases rule.activities@.len() - i,
    {
        proof {
            assert(rule@.activities[i as int] == rule.activities@[i as int]@);
        }
        if activity_matches(rule.activities[i].as_str(), low, Ghost(user_acts)) {
            return true;
        }
        i += 1;
    }
    proof {
        assert(rule@.activities.len() == rule.activities@.len());
    }
    false
}

impl GuildRules {
    /// The rules that apply to a subject with the given activities: none
    /// without activities; the matching activity rules if any match;
    /// otherwise the default rule.
    pub fn matching_rules(&self, user_activities: Vec<String>) -> (r: Vec<Rule>)
        ensures
            r.deep_view() == self@.spec_matching_rules(user_activities.deep_view()),
    {
        let ghost user_acts = user_activities.deep_view();
        proof {
            assert(user_acts.len() == user_activities@.len());
        }
        if user_activities.len() == 0 {
            let r: Vec<Rule> = Vec::new();
            proof {
                assert(r.deep_view() =~= Seq::<RuleView>::empty());
            }
            return r;
        }
        let low = lower_all(&user_activities);
        let mut matched: Vec<Rule> = Vec::new();
        let mut i: usize = 0;
        while i < self.activities_rules.len()
            invariant
                0 <= i <= self.activities_rules@.len(),
                low@.len() == user_acts.len(),
                user_acts.len() > 0,
                user_acts == user_activities.deep_view(),
                forall|t: int|
                    0 <= t < low@.len() ==> (#[trigger] low@[t])@ == lower_of(user_acts[t]),
                matched.deep_view() == spec_matched_rules(
                    self@.activities_rules.subrange(0, i as int),
                    user_acts,
                ),
            decreases self.activities_rules@.len() - i,
        {
            proof {
                assert(matched.deep_view().len() == matched@.len());
                assert(self@.activities_rules[i as int] == self.activities_rules@[i as int]@);
            }
            let ghost prev = matched.deep_view();
            if rule_matches(&self.activities_rules[i], &low, Ghost(user_acts)) {
                matched.push(self.activities_rules[i].clone());
                proof {
                    assert forall|j: int| 0 <= j < prev.len() implies matched.deep_view()[j]
                        == prev[j] by {}
                    assert(matched.deep_view()[prev.len() as int]
                        == self@.activities_rules[i as int]);
                }
            }
            proof {
                let pre = self@.activities_rules.subrange(0, i as int);
                let cur = self@.activities_rules.subrange(0, i + 1);
                assert(cur.drop_last() =~= pre);
                assert(cur.last() == self@.activities_rules[i as int]);
                if self@.activities_rules[i as int].matches(user_acts) {
                    assert(matched.deep_view() =~= spec_matched_rules(pre, user_acts) + seq![
                        self@.activities_rules[i as int],
                    ]);
                } else {
                    assert(matched.deep_view() =~= spec_matched_rules(pre, user_acts)
                        + Seq::<RuleView>::empty());
                }
                assert(matched.deep_view() == spec_matched_rules(cur, user_acts));
            }
            i += 1;
        }
        proof {
            assert(self@.activities_rules.subrange(0, self@.activities_rules.len() as int)
                =~= self@.activities_rules);
        }
        if matched.len() > 0 {
            proof {
                assert(matched.deep_view().len() == matched@.len());
            }
            matched
        } else {
            proof {
                assert(matched.deep_view().len() == matched@.len());
            }
            self.default_rules()
        }
    }
}

/// The sorted list with `r` inserted before the first rule whose role is
/// not below `r`'s.
pub open spec fn spec_insert_rule(rules: Seq<RuleView>, r: RuleView) -> Seq<RuleView>
    decreases rules.len(),
{
    if rules.len() == 0 {
        seq![r]
    } else if rules[0].role_id < r.role_id {
        seq![rules[0]] + spec_insert_rule(rules.drop_first(), r)
    } else {
        seq![r] + rules
    }
}

/// The list with the first rule owning `role_id` removed.
pub open spec fn spec_remove_rule(rules: Seq<RuleView>, role_id: u64) -> Seq<RuleView>
    decreases rules.len(),
{
    if rules.len() == 0 {
        rules
    } else if rules[0].role_id == role_id {
        rules.drop_first()
    } else {
        seq![rules[0]] + spec_remove_rule(rules.drop_first(), role_id)
    }
}

/// The list with the first rule owning `role_id` replaced by `r`.
pub open spec fn spec_replace_rule(rules: Seq<RuleView>, role_id: u64, r: RuleView) -> Seq<RuleView>
    decreases rules.len(),
{
    if rules.len() == 0 {
        rules
    } else if rules[0].role_id == role_id {
        seq![r] + rules.drop_first()
    } else {
        seq![rules[0]] + spec_replace_rule(rules.drop_first(), role_id, r)
    }
}

/// A list in which no rule owns `role_id` is searched in vain.
pub(crate) proof fn lemma_find_rule_none(rules: Seq<RuleView>, role_id: u64)
    requires
        forall|t: int| 0 <= t < rules.len() ==> (#[trigger] rules[t]).role_id != role_id,
    ensures
        spec_find_rule(rules, role_id) is None,
    decreases rules.len(),
{
    if rules.len() > 0 {
        lemma_find_rule_none(rules.drop_first(), role_id);
    }
}

impl GuildRules {
    /// Adds a rule under its own kind.  An activity rule is refused when one
    /// already owns the same role; a default rule is refused when the group
    /// already has one.
    pub fn add_rule(&mut self, rule: Rule) -> (r: Result<(), RuleError>)
        requires
            old(self)@.wf(),
            rule@.wf(),
        ensures
            final(self)@.wf(),
            rule@.role_type is NamedActivity ==> match r {
                Ok(()) => {
                    &&& spec_find_rule(old(self)@.activities_rules, rule.role_id) is None
                    &&& final(self)@.activities_rules == spec_insert_rule(
                        old(self)@.activities_rules,
                        rule@,
                    )
                    &&& final(self)@.default_rule == old(self)@.default_rule
                },
                Err(e) => {
                    &&& e == RuleError::AlreadyExists
                    &&& spec_find_rule(old(self)@.activities_rules, rule.role_id) is Some
                    &&& final(self)@ == old(self)@
                },
            },
            rule@.role_type is Else ==> match r {
                Ok(()) => {
                    &&& old(self)@.default_rule is None
                    &&& final(self)@.default_rule == Some(rule@)
                    &&& final(self)@.activities_rules == old(self)@.activities_rules
                },
                Err(e) => {
                    &&& e == RuleError::DefaultAlreadyExists
                    &&& old(self)@.default_rule is Some
                    &&& final(self)@ == old(self)@
                },
            },
    {
        match rule.role_type {
            RoleType::NamedActivity => {
                let ghost all = self@.activities_rules;
                let mut i: usize = 0;
                loop
                    invariant
                        0 <= i <= self.activities_rules@.len(),
                        all == self@.activities_rules,
                        self@.wf(),
                        rule@.wf(),
                        rule@.role_type is NamedActivity,
                        forall|t: int| 0 <= t < i ==> (#[trigger] all[t]).role_id < rule.role_id,
                    ensures
                        0 <= i <= all.len(),
                        all == self@.activities_rules,
                        self@.wf(),
                        forall|t: int| 0 <= t < i ==> (#[trigger] all[t]).role_id < rule.role_id,
                        i < all.len() ==> all[i as int].role_id > rule.role_id,
                    decreases self.activities_rules@.len() - i,
                {
                    if i == self.activities_rules.len() {
                        break;
                    }
                    proof {
                        assert(all[i as int] == self.activities_rules@[i as int]@);
                    }
                    if self.activities_rules[i].role_id == rule.role_id {
                        proof {
                            assert forall|t: int| 0 <= t < i implies (#[trigger] all[t]).role_id
                                != rule.role_id by {}
                            lemma_find_rule_from(all, rule.role_id, i as int);
                        }
                        return Err(RuleError::AlreadyExists);
                    }
                    if self.activities_rules[i].role_id > rule.role_id {
                        break;
                    }
                    i += 1;
                }
                proof {
                    assert forall|t: int| 0 <= t < all.len() implies (#[trigger] all[t]).role_id
                        != rule.role_id by {
                        if t >= i {
                            if i < all.len() {
                                if t > i {
                                    assert(all[i as int].role_id < all[t].role_id);
                                }
                            }
                        }
                    }
                    lemma_find_rule_none(all, rule.role_id);
                    lemma_insert_rule_at(all, rule@, i as int);
                }
                let ghost prev_dv = self.activities_rules.deep_view();
                let ghost rv = rule@;
                self.activities_rules.insert(i, rule);
                proof {
                    assert forall|j: int|
                        0 <= j < self.activities_rules.deep_view().len() implies #[trigger] self.activities_rules.deep_view()[j] == prev_dv.insert(
                        i as int,
                        rv,
                    )[j] by {
                        if j < i {
                        } else if j == i {
                        } else {
                        }
                    }
                    assert(self.activities_rules.deep_view() =~= prev_dv.insert(i as int, rv));
                    lemma_insert_rule_wf(all, rv, i as int);
                }
                Ok(())
            },
            RoleType::Else => {
                match &self.default_rule {
                    Some(_) => Err(RuleError::DefaultAlreadyExists),
                    None => {
                        self.default_rule = Some(rule);
                        Ok(())
                    },
                }
            },
        }
    }
}

/// When the role sits at position `i` and nowhere earlier, the search
/// finds exactly that rule.
pub(crate) proof fn lemma_find_rule_from(rules: Seq<RuleView>, role_id: u64, i: int)
    requires
        0 <= i < rules.len(),
        rules[i].role_id == role_id,
        forall|t: int| 0 <= t < i ==> (#[trigger] rules[t]).role_id != role_id,
    ensures
        spec_find_rule(rules, role_id) == Some(rules[i]),
    decreases i,
{
    if i > 0 {
        lemma_find_rule_from(rules.drop_first(), role_id, i - 1);
    }
}

/// When everything before `i` is below the new role and everything from
/// `i` on is not, the sorted insertion lands exactly at `i`.
pub(crate) proof fn lemma_insert_rule_at(rules: Seq<RuleView>, r: RuleView, i: int)
    requires
        0 <= i <= rules.len(),
        forall|t: int| 0 <= t < i ==> (#[trigger] rules[t]).role_id < r.role_id,
        i < rules.len() ==> rules[i].role_id >= r.role_id,
    ensures
        spec_insert_rule(rules, r) == rules.insert(i, r),
    decreases i,
{
    if rules.len() == 0 {
        assert(rules.insert(0, r) =~= seq![r]);
    } else if i == 0 {
        assert(rules.insert(0, r) =~= seq![r] + rules);
    } else {
        lemma_insert_rule_at(rules.drop_first(), r, i - 1);
        assert(rules.drop_first().insert(i - 1, r) =~= rules.insert(i, r).drop_first());
        assert(seq![rules[0]] + rules.insert(i, r).drop_first() =~= rules.insert(i, r));
    }
}

/// Inserting a well-formed activity rule at its sorted position keeps the
/// group's invariant, provided no rule already owns the role.
proof fn lemma_insert_rule_wf(rules: Seq<RuleView>, r: RuleView, i: int)
    requires
        0 <= i <= rules.len(),
        forall|a: int, b: int|
            0 <= a < b < rules.len() ==> #[trigger] rules[a].role_id < #[trigger] rules[b].role_id,
        forall|t: int|
            0 <= t < rules.len() ==> (#[trigger] rules[t]).wf() && rules[t].role_type
                == RoleType::NamedActivity,
        forall|t: int| 0 <= t < i ==> (#[trigger] rules[t]).role_id < r.role_id,
        i < rules.len() ==> rules[i].role_id > r.role_id,
        r.wf(),
        r.role_type == RoleType::NamedActivity,
    ensures
        forall|a: int, b: int|
            0 <= a < b < rules.insert(i, r).len() ==> #[trigger] rules.insert(i, r)[a].role_id
                < #[trigger] rules.insert(i, r)[b].role_id,
        forall|t: int|
            0 <= t < rules.insert(i, r).len() ==> (#[trigger] rules.insert(i, r)[t]).wf()
                && rules.insert(i, r)[t].role_type == RoleType::NamedActivity,
{
    let res = rules.insert(i, r);
    assert forall|a: int, b: int| 0 <= a < b < res.len() implies #[trigger] res[a].role_id
        < #[trigger] res[b].role_id by {
        if a < i && b < i {
        } else if a < i && b == i {
        } else if a < i && b > i {
            assert(res[b] == rules[b - 1]);
            if b - 1 > i - 1 && i >= 1 {
                if b - 1 >= i && i < rules.len() {
                }
            }
            if b - 1 >= i {
                if i < rules.len() {
                    if b - 1 > i {
                        assert(rules[i].role_id < rules[b - 1].role_id);
                    }
                    assert(r.role_id < rules[b - 1].role_id || b - 1 == i);
                }
            }
            assert(rules[a].role_id < r.role_id);
            if b - 1 == i {
                assert(r.role_id < rules[b - 1].role_id);
            }
        } else if a == i && b > i {
            assert(res[b] == rules[b - 1]);
            if b - 1 > i {
                assert(rules[i].role_id < rules[b - 1].role_id);
            }
        } else {
            assert(res[a] == rules[a - 1]);
            assert(res[b] == rules[b - 1]);
        }
    }
    assert forall|t: int| 0 <= t < res.len() implies (#[trigger] res[t]).wf() && res[t].role_type
        == RoleType::NamedActivity by {
        if t < i {
        } else if t == i {
        } else {
            assert(res[t] == rules[t - 1]);
        }
    }
}



/// When the role sits at position `i` and nowhere earlier, removal takes
/// out exactly that position.
proof fn lemma_remove_rule_at(rules: Seq<RuleView>, role_id: u64, i: int)
    requires
        0 <= i < rules.len(),
        rules[i].role_id == role_id,
        forall|t: int| 0 <= t < i ==> (#[trigger] rules[t]).role_id != role_id,
    ensures
        spec_remove_rule(rules, role_id) == rules.remove(i),
    decreases i,
{
    if i == 0 {
        assert(rules.remove(0) =~= rules.drop_first());
    } else {
        lemma_remove_rule_at(rules.drop_first(), role_id, i - 1);
        assert(rules.drop_first().remove(i - 1) =~= rules.remove(i).drop_first());
        assert(seq![rules[0]] + rules.remove(i).drop_first() =~= rules.remove(i));
    }
}

/// When the role sits at position `i` and nowhere earlier, replacement
/// rewrites exactly that position, whatever the new rule is.
pub(crate) proof fn lemma_replace_rule_at(rules: Seq<RuleView>, role_id: u64, i: int)
    requires
        0 <= i < rules.len(),
        rules[i].role_id == role_id,
        forall|t: int| 0 <= t < i ==> (#[trigger] rules[t]).role_id != role_id,
    ensures
        forall|rv: RuleView| #[trigger] spec_replace_rule(rules, role_id, rv) == rules.update(i, rv),
    decreases i,
{
    assert forall|rv: RuleView| #[trigger] spec_replace_rule(rules, role_id, rv) == rules.update(
        i,
        rv,
    ) by {
        lemma_replace_rule_at_one(rules, role_id, i, rv);
    }
}

proof fn lemma_replace_rule_at_one(rules: Seq<RuleView>, role_id: u64, i: int, rv: RuleView)
    requires
        0 <= i < rules.len(),
        rules[i].role_id == role_id,
        forall|t: int| 0 <= t < i ==> (#[trigger] rules[t]).role_id != role_id,
    ensures
        spec_replace_rule(rules, role_id, rv) == rules.update(i, rv),
    decreases i,
{
    if i == 0 {
        assert(seq![rv] + rules.drop_first() =~= rules.update(0, rv));
    } else {
        lemma_replace_rule_at_one(rules.drop_first(), role_id, i - 1, rv);
        assert(rules.drop_first().update(i - 1, rv) =~= rules.update(i, rv).drop_first());
        assert(seq![rules[0]] + rules.update(i, rv).drop_first() =~= rules.update(i, rv));
    }
}

/// Removing a position keeps the group's ordering and kind invariants.
proof fn lemma_remove_keeps_wf(rules: Seq<RuleView>, i: int)
    requires
        0 <= i < rules.len(),
        forall|a: int, b: int|
            0 <= a < b < rules.len() ==> #[trigger] rules[a].role_id < #[trigger] rules[b].role_id,
        forall|t: int|
            0 <= t < rules.len() ==> (#[trigger] rules[t]).wf() && rules[t].role_type
                == RoleType::NamedActivity,
    ensures
        forall|a: int, b: int|
            0 <= a < b < rules.remove(i).len() ==> #[trigger] rules.remove(i)[a].role_id
                < #[trigger] rules.remove(i)[b].role_id,
        forall|t: int|
            0 <= t < rules.remove(i).len() ==> (#[trigger] rules.remove(i)[t]).wf()
                && rules.remove(i)[t].role_type == RoleType::NamedActivity,
{
    let res = rules.remove(i);
    assert forall|a: int, b: int| 0 <= a < b < res.len() implies #[trigger] res[a].role_id
        < #[trigger] res[b].role_id by {
        if a < i && b < i {
        } else if a < i {
            assert(res[b] == rules[b + 1]);
        } else {
            assert(res[a] == rules[a + 1]);
            assert(res[b] == rules[b + 1]);
        }
    }
    assert forall|t: int| 0 <= t < res.len() implies (#[trigger] res[t]).wf() && res[t].role_type
        == RoleType::NamedActivity by {
        if t >= i {
            assert(res[t] == rules[t + 1]);
        }
    }
}

/// Updating a position with a rule that keeps the same role keeps the
/// group's ordering and kind invariants.
proof fn lemma_update_keeps_wf(rules: Seq<RuleView>, i: int, rv: RuleView)
    requires
        0 <= i < rules.len(),
        rv.role_id == rules[i].role_id,
        rv.wf(),
        rv.role_type == RoleType::NamedActivity,
        forall|a: int, b: int|
            0 <= a < b < rules.len() ==> #[trigger] rules[a].role_id < #[trigger] rules[b].role_id,
        forall|t: int|
            0 <= t < rules.len() ==> (#[trigger] rules[t]).wf() && rules[t].role_type
                == RoleType::NamedActivity,
    ensures
        forall|a: int, b: int|
            0 <= a < b < rules.update(i, rv).len() ==> #[trigger] rules.update(i, rv)[a].role_id
                < #[trigger] rules.update(i, rv)[b].role_id,
        forall|t: int|
            0 <= t < rules.update(i, rv).len() ==> (#[trigger] rules.update(i, rv)[t]).wf()
                && rules.update(i, rv)[t].role_type == RoleType::NamedActivity,
{
}

impl GuildRules {
    /// Removes the rule owning `role_id`: the activity rule if one exists,
    /// else the default rule if it owns the role.
    pub fn remove_rule(&mut self, role_id: u64) -> (r: Result<(), RuleError>)
        requires
            old(self)@.wf(),
        ensures
            final(self)@.wf(),
            match r {
                Ok(()) => {
                    if spec_find_rule(old(self)@.activities_rules, role_id) is Some {
                        &&& final(self)@.activities_rules == spec_remove_rule(
                            old(self)@.activities_rules,
                            role_id,
                        )
                        &&& final(self)@.default_rule == old(self)@.default_rule
                    } else {
                        &&& old(self)@.default_rule matches Some(d) && d.role_id == role_id
                        &&& final(self)@.activities_rules == old(self)@.activities_rules
                        &&& final(self)@.default_rule is None
                    }
                },
                Err(e) => {
                    &&& e == RuleError::NotFound
                    &&& spec_find_rule(old(self)@.activities_rules, role_id) is None
                    &&& !(old(self)@.default_rule matches Some(d) && d.role_id == role_id)
                    &&& final(self)@ == old(self)@
                },
            },
    {
        let ghost all = self@.activities_rules;
        let mut i: usize = 0;
        loop
            invariant
                0 <= i <= self.activities_rules@.len(),
                all == self@.activities_rules,
                self@.wf(),
                forall|t: int| 0 <= t < i ==> (#[trigger] all[t]).role_id != role_id,
            ensures
                0 <= i <= all.len(),
                all == self@.activities_rules,
                self@.wf(),
                forall|t: int| 0 <= t < i ==> (#[trigger] all[t]).role_id != role_id,
                i < all.len() ==> all[i as int].role_id == role_id,
            decreases self.activities_rules@.len() - i,
        {
            if i == self.activities_rules.len() {
                break;
            }
            proof {
                assert(all[i as int] == self.activities_rules@[i as int]@);
            }
            if self.activities_rules[i].role_id == role_id {
                break;
            }
            i += 1;
        }
        if i < self.activities_rules.len() {
            proof {
                lemma_find_rule_from(all, role_id, i as int);
                lemma_remove_rule_at(all, role_id, i as int);
                lemma_remove_keeps_wf(all, i as int);
                assert(self.activities_rules.deep_view().len() == self.activities_rules@.len());
            }
            let ghost prev_dv = self.activities_rules.deep_view();
            self.activities_rules.remove(i);
            proof {
                assert forall|j: int|
                    0 <= j < self.activities_rules.deep_view().len() implies #[trigger] self.activities_rules.deep_view()[j] == prev_dv.remove(
                    i as int,
                )[j] by {
                    if j < i {
                    } else {
                        assert(self.activities_rules@[j] == old(self).activities_rules@[j + 1]);
                    }
                }
                assert(self.activities_rules.deep_view() =~= prev_dv.remove(i as int));
            }
            Ok(())
        } else {
            proof {
                lemma_find_rule_none(all, role_id);
            }
            let matches_default = match &self.default_rule {
                Some(d) => d.role_id == role_id,
                None => false,
            };
            if matches_default {
                self.default_rule = None;
                Ok(())
            } else {
                Err(RuleError::NotFound)
            }
        }
    }

    /// Replaces the activity rule owning the given rule's role.  Only
    /// activity rules can be edited this way; the default rule is replaced
    /// by removing and re-adding it.
    pub fn edit_rule(&mut self, rule: Rule) -> (r: Result<(), RuleError>)
        requires
            old(self)@.wf(),
            rule@.wf(),
            rule@.role_type is NamedActivity,
        ensures
            final(self)@.wf(),
            match r {
                Ok(()) => {
                    &&& spec_find_rule(old(self)@.activities_rules, rule.role_id) is Some
                    &&& final(self)@.activities_rules == spec_replace_rule(
                        old(self)@.activities_rules,
                        rule.role_id,
                        rule@,
                    )
                    &&& final(self)@.default_rule == old(self)@.default_rule
                },
                Err(e) => {
                    &&& e == RuleError::NotFound
                    &&& spec_find_rule(old(self)@.activities_rules, rule.role_id) is None
                    &&& final(self)@ == old(self)@
                },
            },
    {
        let ghost all = self@.activities_rules;
        let ghost rv = rule@;
        let mut i: usize = 0;
        loop
            invariant
                0 <= i <= self.activities_rules@.len(),
                all == self@.activities_rules,
                self@.wf(),
                rv == rule@,
                forall|t: int| 0 <= t < i ==> (#[trigger] all[t]).role_id != rule.role_id,
            ensures
                0 <= i <= all.len(),
                all == self@.activities_rules,
                self@.wf(),
                forall|t: int| 0 <= t < i ==> (#[trigger] all[t]).role_id != rule.role_id,
                i < all.len() ==> all[i as int].role_id == rule.role_id,
            decreases self.activities_rules@.len() - i,
        {
            if i == self.activities_rules.len() {
                break;
            }
            proof {
                assert(all[i as int] == self.activities_rules@[i as int]@);
            }
            if self.activities_rules[i].role_id == rule.role_id {
                break;
            }
            i += 1;
        }
        if i < self.activities_rules.len() {
            proof {
                lemma_find_rule_from(all, rule.role_id, i as int);
                lemma_replace_rule_at(all, rule.role_id, i as int);
                lemma_update_keeps_wf(all, i as int, rv);
                assert(self.activities_rules.deep_view().len() == self.activities_rules@.len());
            }
            let ghost prev_dv = self.activities_rules.deep_view();
            self.activities_rules.set(i, rule);
            proof {
                assert forall|j: int|
                    0 <= j < self.activities_rules.deep_view().len() implies #[trigger] self.activities_rules.deep_view()[j] == prev_dv.update(
                    i as int,
                    rv,
                )[j] by {}
                assert(self.activities_rules.deep_view() =~= prev_dv.update(i as int, rv));
            }
            Ok(())
        } else {
            proof {
                lemma_find_rule_none(all, rule.role_id);
            }
            Err(RuleError::NotFound)
        }
    }

    /// A mutable borrow of the rule owning `role_id`, the default rule
    /// taking precedence.  The caller's writes land in that one slot.
    pub fn get_rule_mut(&mut self, role_id: u64) -> (r: Option<&mut Rule>)
        ensures
            match r {
                Some(m) => {
                    &&& old(self)@.spec_get_rule(role_id) == Some((*m)@)
                    &&& match old(self).default_rule {
                        Some(d) => {
                            if d@.role_id == role_id {
                                &&& final(self).default_rule == Some(*final(m))
                                &&& final(self).activities_rules@ == old(self).activities_rules@
                            } else {
                                &&& final(self).default_rule == old(self).default_rule
                                &&& exists|idx: int|
                                    {
                                        &&& 0 <= idx < old(self).activities_rules@.len()
                                        &&& (#[trigger] old(self).activities_rules@[idx])@.role_id
                                            == role_id
                                        &&& final(self).activities_rules@ == old(
                                            self,
                                        ).activities_rules@.update(idx, *final(m))
                                    }
                            }
                        },
                        None => {
                            &&& final(self).default_rule == old(self).default_rule
                            &&& exists|idx: int|
                                {
                                    &&& 0 <= idx < old(self).activities_rules@.len()
                                    &&& (#[trigger] old(self).activities_rules@[idx])@.role_id
                                        == role_id
                                    &&& final(self).activities_rules@ == old(
                                        self,
                                    ).activities_rules@.update(idx, *final(m))
                                }
                        },
                    }
                },
                None => {
                    &&& old(self)@.spec_get_rule(role_id) is None
                    &&& final(self).activities_rules@ == old(self).activities_rules@
                    &&& final(self).default_rule == old(self).default_rule
                },
            },
    {
        let is_default = match &self.default_rule {
            Some(d) => d.role_id == role_id,
            None => false,
        };
        if is_default {
            match &mut self.default_rule {
                Some(d) => Some(d),
                None => None,
            }
        } else {
            let ghost all = self@.activities_rules;
            let mut i: usize = 0;
            loop
                invariant
                    0 <= i <= self.activities_rules@.len(),
                    all == self@.activities_rules,
                    forall|t: int| 0 <= t < i ==> (#[trigger] all[t]).role_id != role_id,
                ensures
                    0 <= i <= all.len(),
                    all == self@.activities_rules,
                    forall|t: int| 0 <= t < i ==> (#[trigger] all[t]).role_id != role_id,
                    i < all.len() ==> all[i as int].role_id == role_id,
                decreases self.activities_rules@.len() - i,
            {
                if i == self.activities_rules.len() {
                    break;
                }
                proof {
                    assert(all[i as int] == self.activities_rules@[i as int]@);
                }
                if self.activities_rules[i].role_id == role_id {
                    break;
                }
                i += 1;
            }
            if i < self.activities_rules.len() {
                proof {
                    lemma_find_rule_from(all, role_id, i as int);
                    assert(all[i as int] == self.activities_rules@[i as int]@);
                }
                Some(rule_slot(&mut self.activities_rules, i))
            } else {
                proof {
                    lemma_find_rule_none(all, role_id);
                }
                None
            }
        }
    }
}

/// A mutable borrow of one position of a rule list.
fn rule_slot(rules: &mut Vec<Rule>, i: usize) -> (element: &mut Rule)
    requires
        0 <= i < old(rules).len(),
    ensures
        *element == old(rules)@[i as int],
        final(rules)@ == old(rules)@.update(i as int, *final(element)),
{
    &mut rules[i]
}


} // verus!
