//! The rule store: every known group's rule collection.
//!
//! The store is the process's one mutable rule table.  Matching reads and
//! administrative writes go through it; saving writes every rule, sorted
//! by group and role, in the tabular storage format, and loading reads
//! that format back.  Saving and reloading gives the same store back.

use crate::csv_format::{
    encode_table_from, header_fields, is_header, parse_table_chars, row_to_fields, CsvRow,
    LoadError, spec_encode_table, spec_fields_row, spec_header_fields, spec_parse_table,
    spec_row_fields, spec_row_of_rule, spec_rule_of_row, lemma_parse_table_encode,
    lemma_rule_of_row_wf, lemma_rule_row_round_trip,
};
use crate::rules::{
    clone_rules, lemma_find_rule_none, lemma_insert_rule_at, lemma_replace_rule_at, GuildRules,
    GuildRulesView, RoleType, Rule, RuleError, RuleView, spec_find_rule, spec_insert_rule,
    spec_replace_rule,
};
use crate::text::{str_eq, str_to_chars};
use vstd::prelude::*;

verus! {

/// The mathematical content of a [`GuildEntry`].
pub struct GuildEntryView {
    pub guild_id: u64,
    pub rules: GuildRulesView,
}

/// One group's entry in the store.
#[derive(Debug, PartialEq, Eq)]
pub struct GuildEntry {
    pub guild_id: u64,
    pub rules: GuildRules,
}

impl View for GuildEntry {
    type V = GuildEntryView;

    open spec fn view(&self) -> GuildEntryView {
        GuildEntryView { guild_id: self.guild_id, rules: self.rules@ }
    }
}

impl DeepView for GuildEntry {
    type V = GuildEntryView;

    open spec fn deep_view(&self) -> GuildEntryView {
        self.view()
    }
}

/// The store: one entry per known group, in strictly increasing group
/// order.
#[derive(Debug, PartialEq, Eq)]
pub struct RuleStore {
    pub entries: Vec<GuildEntry>,
}

impl View for RuleStore {
    type V = Seq<GuildEntryView>;

    open spec fn view(&self) -> Seq<GuildEntryView> {
        self.entries.deep_view()
    }
}

/// Every rule of the entry names the entry's own group.
pub open spec fn spec_guild_consistent(e: GuildEntryView) -> bool {
    &&& forall|t: int|
        0 <= t < e.rules.activities_rules.len() ==> (#[trigger] e.rules.activities_rules[t]).guild_id
            == e.guild_id
    &&& match e.rules.default_rule {
        Some(d) => d.guild_id == e.guild_id,
        None => true,
    }
}

/// Entries are sorted by group, each group's rules are well-formed, and
/// every rule names its own group.
pub open spec fn spec_store_wf(entries: Seq<GuildEntryView>) -> bool {
    &&& forall|i: int, j: int|
        0 <= i < j < entries.len() ==> (#[trigger] entries[i]).guild_id < (
        #[trigger] entries[j]).guild_id
    &&& forall|i: int|
        0 <= i < entries.len() ==> (#[trigger] entries[i]).rules.wf() && spec_guild_consistent(
            entries[i],
        )
}

/// The rules of the given group, if the store knows it.
pub open spec fn spec_find_guild(entries: Seq<GuildEntryView>, guild_id: u64) -> Option<
    GuildRulesView,
>
    decreases entries.len(),
{
    if entries.len() == 0 {
        None
    } else if entries[0].guild_id == guild_id {
        Some(entries[0].rules)
    } else {
        spec_find_guild(entries.drop_first(), guild_id)
    }
}

/// When the group sits at position `i` and nowhere earlier, the search
/// finds exactly that entry.
pub(crate) proof fn lemma_find_guild_from(entries: Seq<GuildEntryView>, guild_id: u64, i: int)
    requires
        0 <= i < entries.len(),
        entries[i].guild_id == guild_id,
        forall|t: int| 0 <= t < i ==> (#[trigger] entries[t]).guild_id != guild_id,
    ensures
        spec_find_guild(entries, guild_id) == Some(entries[i].rules),
    decreases i,
{
    if i > 0 {
        lemma_find_guild_from(entries.drop_first(), guild_id, i - 1);
    }
}

/// A store without the group is searched in vain.
pub(crate) proof fn lemma_find_guild_none(entries: Seq<GuildEntryView>, guild_id: u64)
    requires
        forall|t: int| 0 <= t < entries.len() ==> (#[trigger] entries[t]).guild_id != guild_id,
    ensures
        spec_find_guild(entries, guild_id) is None,
    decreases entries.len(),
{
    if entries.len() > 0 {
        lemma_find_guild_none(entries.drop_first(), guild_id);
    }
}

/// A group's rules with one rule stored on top: an existing activity rule
/// for the same role is replaced, a new one is inserted at its sorted
/// position, and a default rule takes the default slot.
pub open spec fn spec_guild_put(g: GuildRulesView, rv: RuleView) -> GuildRulesView {
    match rv.role_type {
        RoleType::NamedActivity => GuildRulesView {
            activities_rules: if spec_find_rule(g.activities_rules, rv.role_id) is Some {
                spec_replace_rule(g.activities_rules, rv.role_id, rv)
            } else {
                spec_insert_rule(g.activities_rules, rv)
            },
            default_rule: g.default_rule,
        },
        RoleType::Else => GuildRulesView {
            activities_rules: g.activities_rules,
            default_rule: Some(rv),
        },
    }
}

/// A group with no rules.
pub open spec fn spec_empty_guild() -> GuildRulesView {
    GuildRulesView { activities_rules: Seq::empty(), default_rule: None }
}

/// The store with one rule stored on top: the rule lands in its own
/// group's entry, created at its sorted position if the group is new.
pub open spec fn spec_store_put(entries: Seq<GuildEntryView>, rv: RuleView) -> Seq<GuildEntryView>
    decreases entries.len(),
{
    if entries.len() == 0 {
        seq![GuildEntryView { guild_id: rv.guild_id, rules: spec_guild_put(spec_empty_guild(), rv) }]
    } else if entries[0].guild_id == rv.guild_id {
        seq![GuildEntryView { guild_id: rv.guild_id, rules: spec_guild_put(entries[0].rules, rv) }]
            + entries.drop_first()
    } else if entries[0].guild_id < rv.guild_id {
        seq![entries[0]] + spec_store_put(entries.drop_first(), rv)
    } else {
        seq![GuildEntryView { guild_id: rv.guild_id, rules: spec_guild_put(spec_empty_guild(), rv) }]
            + entries
    }
}

impl GuildRules {
    /// Stores one rule: replaces the activity rule owning the same role,
    /// inserts a new one at its sorted position, or takes the default
    /// slot.
    pub fn put_rule(&mut self, rule: Rule)
        requires
            old(self)@.wf(),
            rule@.wf(),
        ensures
            final(self)@ == spec_guild_put(old(self)@, rule@),
            final(self)@.wf(),
    {
        match rule.role_type {
            RoleType::Else => {
                self.default_rule = Some(rule);
            },
            RoleType::NamedActivity => {
                let again = rule.clone();
                match self.add_rule(rule) {
                    Ok(()) => {},
                    Err(RuleError::AlreadyExists) => {
                        let r = self.edit_rule(again);
                        proof {
                            assert(r is Ok);
                        }
                    },
                    Err(_) => {
                        proof {
                            assert(false);
                        }
                    },
                }
            },
        }
    }
}

impl RuleStore {
    /// An empty store.
    pub fn new() -> (r: RuleStore)
        ensures
            r@.len() == 0,
            spec_store_wf(r@),
    {
        RuleStore { entries: Vec::new() }
    }

    /// The rules of the given group, if the store knows it.
    pub fn guild(&self, guild_id: u64) -> (r: Option<&GuildRules>)
        ensures
            match r {
                Some(g) => spec_find_guild(self@, guild_id) == Some(g@),
                None => spec_find_guild(self@, guild_id) is None,
            },
    {
        let ghost all = self@;
        let mut i: usize = 0;
        loop
            invariant
                0 <= i <= self.entries@.len(),
                all == self@,
                forall|t: int| 0 <= t < i ==> (#[trigger] all[t]).guild_id != guild_id,
            ensures
                0 <= i <= all.len(),
                all == self@,
                forall|t: int| 0 <= t < i ==> (#[trigger] all[t]).guild_id != guild_id,
                i < all.len() ==> all[i as int].guild_id == guild_id,
            decreases self.entries@.len() - i,
        {
            if i == self.entries.len() {
                break;
            }
            proof {
                assert(all[i as int] == self.entries@[i as int]@);
            }
            if self.entries[i].guild_id == guild_id {
                break;
            }
            i += 1;
        }
        if i < self.entries.len() {
            proof {
                lemma_find_guild_from(all, guild_id, i as int);
                assert(all[i as int] == self.entries@[i as int]@);
            }
            Some(&self.entries[i].rules)
        } else {
            proof {
                lemma_find_guild_none(all, guild_id);
            }
            None
        }
    }

    /// A mutable borrow of the given group's rules; the caller's writes
    /// land in that one entry.
    pub fn guild_mut(&mut self, guild_id: u64) -> (r: Option<&mut GuildRules>)
        ensures
            match r {
                Some(m) => {
                    &&& spec_find_guild(old(self)@, guild_id) == Some((*m)@)
                    &&& exists|idx: int|
                        {
                            &&& 0 <= idx < old(self).entries@.len()
                            &&& (#[trigger] old(self).entries@[idx])@.guild_id == guild_id
                            &&& final(self).entries@ == old(self).entries@.update(
                                idx,
                                GuildEntry {
                                    guild_id,
                                    rules: *final(m),
                                },
                            )
                        }
                },
                None => {
                    &&& spec_find_guild(old(self)@, guild_id) is None
                    &&& final(self).entries@ == old(self).entries@
                },
            },
    {
        let ghost all = self@;
        let mut i: usize = 0;
        loop
            invariant
                0 <= i <= self.entries@.len(),
                all == self@,
                forall|t: int| 0 <= t < i ==> (#[trigger] all[t]).guild_id != guild_id,
            ensures
                0 <= i <= all.len(),
                all == self@,
                forall|t: int| 0 <= t < i ==> (#[trigger] all[t]).guild_id != guild_id,
                i < all.len() ==> all[i as int].guild_id == guild_id,
            decreases self.entries@.len() - i,
        {
            if i == self.entries.len() {
                break;
            }
            proof {
                assert(all[i as int] == self.entries@[i as int]@);
            }
            if self.entries[i].guild_id == guild_id {
                break;
            }
            i += 1;
        }
        if i < self.entries.len() {
            proof {
                lemma_find_guild_from(all, guild_id, i as int);
                assert(all[i as int] == self.entries@[i as int]@);
            }
            let slot = guild_slot(&mut self.entries, i);
            Some(&mut slot.rules)
        } else {
            proof {
                lemma_find_guild_none(all, guild_id);
            }
            None
        }
    }

    /// Stores one rule under its own group, creating the group's entry at
    /// its sorted position when the group is new.
    pub fn upsert_rule(&mut self, rule: Rule)
        requires
            spec_store_wf(old(self)@),
            rule@.wf(),
        ensures
            final(self)@ == spec_store_put(old(self)@, rule@),
            spec_store_wf(final(self)@),
    {
        let ghost all = self@;
        let ghost rv = rule@;
        let mut i: usize = 0;
        loop
            invariant
                0 <= i <= self.entries@.len(),
                all == self@,
                spec_store_wf(all),
                rv == rule@,
                forall|t: int| 0 <= t < i ==> (#[trigger] all[t]).guild_id < rule.guild_id,
            ensures
                0 <= i <= all.len(),
                all == self@,
                spec_store_wf(all),
                forall|t: int| 0 <= t < i ==> (#[trigger] all[t]).guild_id < rule.guild_id,
                i < all.len() ==> all[i as int].guild_id >= rule.guild_id,
            decreases self.entries@.len() - i,
        {
            if i == self.entries.len() {
                break;
            }
            proof {
                assert(all[i as int] == self.entries@[i as int]@);
            }
            if self.entries[i].guild_id >= rule.guild_id {
                break;
            }
            i += 1;
        }
        proof {
            lemma_store_put_at(all, rv, i as int);
        }
        if i < self.entries.len() && self.entries[i].guild_id == rule.guild_id {
            proof {
                assert(all[i as int] == self.entries@[i as int]@);
            }
            let ghost prev_dv = self.entries.deep_view();
            let slot = guild_slot(&mut self.entries, i);
            slot.rules.put_rule(rule);
            proof {
                assert forall|j: int|
                    0 <= j < self.entries.deep_view().len() implies #[trigger] self.entries.deep_view()[j] == prev_dv.update(
                    i as int,
                    GuildEntryView { guild_id: rv.guild_id, rules: spec_guild_put(all[i as int].rules, rv) },
                )[j] by {}
                assert(self.entries.deep_view() =~= prev_dv.update(
                    i as int,
                    GuildEntryView { guild_id: rv.guild_id, rules: spec_guild_put(all[i as int].rules, rv) },
                ));
                assert(self@ =~= all.update(
                    i as int,
                    GuildEntryView { guild_id: rv.guild_id, rules: spec_guild_put(all[i as int].rules, rv) },
                ));
                lemma_guild_put_wf(all[i as int].rules, rv);
                assert forall|a: int, b: int| 0 <= a < b < self@.len() implies (
                #[trigger] self@[a]).guild_id < (#[trigger] self@[b]).guild_id by {}
            }
        } else {
            let gid = rule.guild_id;
            let mut fresh = GuildRules::new();
            proof {
                assert(fresh@.activities_rules =~= spec_empty_guild().activities_rules);
                assert(fresh@ == spec_empty_guild());
            }
            fresh.put_rule(rule);
            let entry = GuildEntry { guild_id: gid, rules: fresh };
            proof {
                assert(entry@ == GuildEntryView {
                    guild_id: rv.guild_id,
                    rules: spec_guild_put(spec_empty_guild(), rv),
                });
                assert(self.entries.deep_view().len() == self.entries@.len());
            }
            let ghost prev_dv = self.entries.deep_view();
            let ghost ev = entry@;
            self.entries.insert(i, entry);
            proof {
                assert forall|j: int|
                    0 <= j < self.entries.deep_view().len() implies #[trigger] self.entries.deep_view()[j] == prev_dv.insert(
                    i as int,
                    ev,
                )[j] by {
                    if j < i {
                    } else if j == i {
                    } else {
                    }
                }
                assert(self.entries.deep_view() =~= prev_dv.insert(i as int, ev));
                lemma_guild_put_wf(spec_empty_guild(), rv);
                assert forall|a: int, b: int| 0 <= a < b < self@.len() implies (
                #[trigger] self@[a]).guild_id < (#[trigger] self@[b]).guild_id by {
                    let res = all.insert(i as int, ev);
                    if a < i && b > i {
                        assert(res[b] == all[b - 1]);
                        if b - 1 > i {
                            assert(all[i as int].guild_id < all[b - 1].guild_id);
                        }
                    } else if a == i && b > i {
                        assert(res[b] == all[b - 1]);
                        if b - 1 > i {
                            assert(all[i as int].guild_id < all[b - 1].guild_id);
                        }
                    } else if a > i {
                        assert(res[a] == all[a - 1]);
                        assert(res[b] == all[b - 1]);
                    }
                }
            }
        }
    }
}

/// When everything before `i` is below the new rule's group and everything
/// from `i` on is not below it, storing walks exactly to `i`.
proof fn lemma_store_put_at(entries: Seq<GuildEntryView>, rv: RuleView, i: int)
    requires
        0 <= i <= entries.len(),
        forall|t: int| 0 <= t < i ==> (#[trigger] entries[t]).guild_id < rv.guild_id,
        i < entries.len() ==> entries[i].guild_id >= rv.guild_id,
    ensures
        spec_store_put(entries, rv) == if i < entries.len() && entries[i].guild_id == rv.guild_id {
            entries.update(
                i,
                GuildEntryView { guild_id: rv.guild_id, rules: spec_guild_put(entries[i].rules, rv) },
            )
        } else {
            entries.insert(
                i,
                GuildEntryView { guild_id: rv.guild_id, rules: spec_guild_put(spec_empty_guild(), rv) },
            )
        },
    decreases i,
{
    if entries.len() == 0 {
        assert(entries.insert(0, GuildEntryView { guild_id: rv.guild_id, rules: spec_guild_put(spec_empty_guild(), rv) }) =~= seq![
            GuildEntryView { guild_id: rv.guild_id, rules: spec_guild_put(spec_empty_guild(), rv) },
        ]);
    } else if i == 0 {
        if entries[0].guild_id == rv.guild_id {
            assert(seq![GuildEntryView { guild_id: rv.guild_id, rules: spec_guild_put(entries[0].rules, rv) }]
                + entries.drop_first() =~= entries.update(
                0,
                GuildEntryView { guild_id: rv.guild_id, rules: spec_guild_put(entries[0].rules, rv) },
            ));
        } else {
            assert(seq![GuildEntryView { guild_id: rv.guild_id, rules: spec_guild_put(spec_empty_guild(), rv) }]
                + entries =~= entries.insert(
                0,
                GuildEntryView { guild_id: rv.guild_id, rules: spec_guild_put(spec_empty_guild(), rv) },
            ));
        }
    } else {
        lemma_store_put_at(entries.drop_first(), rv, i - 1);
        if i < entries.len() && entries[i].guild_id == rv.guild_id {
            assert(entries.drop_first()[i - 1] == entries[i]);
            assert(entries.drop_first().update(
                i - 1,
                GuildEntryView { guild_id: rv.guild_id, rules: spec_guild_put(entries[i].rules, rv) },
            ) =~= entries.update(
                i,
                GuildEntryView { guild_id: rv.guild_id, rules: spec_guild_put(entries[i].rules, rv) },
            ).drop_first());
            assert(seq![entries[0]] + entries.update(
                i,
                GuildEntryView { guild_id: rv.guild_id, rules: spec_guild_put(entries[i].rules, rv) },
            ).drop_first() =~= entries.update(
                i,
                GuildEntryView { guild_id: rv.guild_id, rules: spec_guild_put(entries[i].rules, rv) },
            ));
        } else {
            assert(entries.drop_first().insert(
                i - 1,
                GuildEntryView { guild_id: rv.guild_id, rules: spec_guild_put(spec_empty_guild(), rv) },
            ) =~= entries.insert(
                i,
                GuildEntryView { guild_id: rv.guild_id, rules: spec_guild_put(spec_empty_guild(), rv) },
            ).drop_first());
            assert(seq![entries[0]] + entries.insert(
                i,
                GuildEntryView { guild_id: rv.guild_id, rules: spec_guild_put(spec_empty_guild(), rv) },
            ).drop_first() =~= entries.insert(
                i,
                GuildEntryView { guild_id: rv.guild_id, rules: spec_guild_put(spec_empty_guild(), rv) },
            ));
        }
    }
}

/// Storing a well-formed rule keeps a group's invariant and its group
/// consistency.
proof fn lemma_guild_put_wf(g: GuildRulesView, rv: RuleView)
    requires
        g.wf(),
        rv.wf(),
    ensures
        spec_guild_put(g, rv).wf(),
        spec_guild_consistent(GuildEntryView { guild_id: rv.guild_id, rules: g })
            ==> spec_guild_consistent(
            GuildEntryView { guild_id: rv.guild_id, rules: spec_guild_put(g, rv) },
        ),
{
    match rv.role_type {
        RoleType::Else => {},
        RoleType::NamedActivity => {
            if spec_find_rule(g.activities_rules, rv.role_id) is Some {
                lemma_replace_rule_props(g.activities_rules, rv);
            } else {
                lemma_insert_rule_props(g.activities_rules, rv);
            }
        },
    }
}

/// Replacing a rule keeps ordering, kinds, well-formedness and the group
/// names.
proof fn lemma_replace_rule_props(rules: Seq<RuleView>, rv: RuleView)
    requires
        rv.wf(),
        rv.role_type == RoleType::NamedActivity,
        forall|a: int, b: int|
            0 <= a < b < rules.len() ==> #[trigger] rules[a].role_id < #[trigger] rules[b].role_id,
        forall|t: int|
            0 <= t < rules.len() ==> (#[trigger] rules[t]).wf() && rules[t].role_type
                == RoleType::NamedActivity,
    ensures
        ({
            let res = spec_replace_rule(rules, rv.role_id, rv);
            &&& forall|a: int, b: int|
                0 <= a < b < res.len() ==> #[trigger] res[a].role_id < #[trigger] res[b].role_id
            &&& forall|t: int|
                0 <= t < res.len() ==> (#[trigger] res[t]).wf() && res[t].role_type
                    == RoleType::NamedActivity
            &&& (forall|t: int| 0 <= t < rules.len() ==> (#[trigger] rules[t]).guild_id == rv.guild_id)
                ==> forall|t: int| 0 <= t < res.len() ==> (#[trigger] res[t]).guild_id == rv.guild_id
        }),
    decreases rules.len(),
{
    let res = spec_replace_rule(rules, rv.role_id, rv);
    if rules.len() == 0 {
    } else if rules[0].role_id == rv.role_id {
        assert(res =~= seq![rv] + rules.drop_first());
        assert forall|a: int, b: int| 0 <= a < b < res.len() implies #[trigger] res[a].role_id
            < #[trigger] res[b].role_id by {
            if a == 0 {
                assert(res[b] == rules[b]);
                if b > 1 {
                    assert(rules[0].role_id < rules[b].role_id);
                }
            } else {
                assert(res[a] == rules[a]);
                assert(res[b] == rules[b]);
            }
        }
    } else {
        lemma_replace_rule_props(rules.drop_first(), rv);
        let tail = spec_replace_rule(rules.drop_first(), rv.role_id, rv);
        assert(res =~= seq![rules[0]] + tail);
        assert forall|a: int, b: int| 0 <= a < b < res.len() implies #[trigger] res[a].role_id
            < #[trigger] res[b].role_id by {
            lemma_replace_role_ids(rules.drop_first(), rv);
            if a == 0 {
                assert(res[b] == tail[b - 1]);
            } else {
                assert(res[a] == tail[a - 1]);
                assert(res[b] == tail[b - 1]);
            }
        }
    }
}

/// Replacing a rule keeps the multiset of roles positionwise.
proof fn lemma_replace_role_ids(rules: Seq<RuleView>, rv: RuleView)
    requires
        forall|t: int|
            0 <= t < rules.len() ==> (#[trigger] rules[t]).role_type == RoleType::NamedActivity,
    ensures
        ({
            let res = spec_replace_rule(rules, rv.role_id, rv);
            res.len() == rules.len() && forall|t: int|
                0 <= t < res.len() ==> (#[trigger] res[t]).role_id == rules[t].role_id
        }),
    decreases rules.len(),
{
    let res = spec_replace_rule(rules, rv.role_id, rv);
    if rules.len() == 0 {
    } else if rules[0].role_id == rv.role_id {
        assert forall|t: int| 0 <= t < res.len() implies (#[trigger] res[t]).role_id
            == rules[t].role_id by {
            if t > 0 {
                assert(res[t] == rules.drop_first()[t - 1]);
            }
        }
    } else {
        lemma_replace_role_ids(rules.drop_first(), rv);
        let tail = spec_replace_rule(rules.drop_first(), rv.role_id, rv);
        assert forall|t: int| 0 <= t < res.len() implies (#[trigger] res[t]).role_id
            == rules[t].role_id by {
            if t > 0 {
                assert(res[t] == tail[t - 1]);
                assert(rules.drop_first()[t - 1] == rules[t]);
            }
        }
    }
}

/// Inserting a fresh rule keeps ordering, kinds, well-formedness and the
/// group names.
proof fn lemma_insert_rule_props(rules: Seq<RuleView>, rv: RuleView)
    requires
        rv.wf(),
        rv.role_type == RoleType::NamedActivity,
        spec_find_rule(rules, rv.role_id) is None,
        forall|a: int, b: int|
            0 <= a < b < rules.len() ==> #[trigger] rules[a].role_id < #[trigger] rules[b].role_id,
        forall|t: int|
            0 <= t < rules.len() ==> (#[trigger] rules[t]).wf() && rules[t].role_type
                == RoleType::NamedActivity,
    ensures
        ({
            let res = spec_insert_rule(rules, rv);
            &&& forall|a: int, b: int|
                0 <= a < b < res.len() ==> #[trigger] res[a].role_id < #[trigger] res[b].role_id
            &&& forall|t: int|
                0 <= t < res.len() ==> (#[trigger] res[t]).wf() && res[t].role_type
                    == RoleType::NamedActivity
            &&& (forall|t: int| 0 <= t < rules.len() ==> (#[trigger] rules[t]).guild_id == rv.guild_id)
                ==> forall|t: int| 0 <= t < res.len() ==> (#[trigger] res[t]).guild_id == rv.guild_id
        }),
    decreases rules.len(),
{
    let res = spec_insert_rule(rules, rv);
    if rules.len() == 0 {
    } else if rules[0].role_id < rv.role_id {
        lemma_insert_rule_props(rules.drop_first(), rv);
        let tail = spec_insert_rule(rules.drop_first(), rv);
        assert(res =~= seq![rules[0]] + tail);
        lemma_insert_role_ids(rules.drop_first(), rv);
        assert forall|a: int, b: int| 0 <= a < b < res.len() implies #[trigger] res[a].role_id
            < #[trigger] res[b].role_id by {
            if a == 0 {
                assert(res[b] == tail[b - 1]);
            } else {
                assert(res[a] == tail[a - 1]);
                assert(res[b] == tail[b - 1]);
            }
        }
    } else {
        assert(rules[0].role_id != rv.role_id);
        assert(res =~= seq![rv] + rules);
        assert forall|a: int, b: int| 0 <= a < b < res.len() implies #[trigger] res[a].role_id
            < #[trigger] res[b].role_id by {
            if a == 0 {
                assert(res[b] == rules[b - 1]);
                if b - 1 > 0 {
                    assert(rules[0].role_id < rules[b - 1].role_id);
                }
            } else {
                assert(res[a] == rules[a - 1]);
                assert(res[b] == rules[b - 1]);
            }
        }
    }
}

/// Every role in an insertion result is the new role or an old one.
proof fn lemma_insert_role_ids(rules: Seq<RuleView>, rv: RuleView)
    ensures
        ({
            let res = spec_insert_rule(rules, rv);
            forall|t: int|
                0 <= t < res.len() ==> (#[trigger] res[t]).role_id == rv.role_id || exists|u: int|
                    0 <= u < rules.len() && rules[u].role_id == res[t].role_id
        }),
    decreases rules.len(),
{
    let res = spec_insert_rule(rules, rv);
    if rules.len() == 0 {
    } else if rules[0].role_id < rv.role_id {
        lemma_insert_role_ids(rules.drop_first(), rv);
        let tail = spec_insert_rule(rules.drop_first(), rv);
        assert forall|t: int| 0 <= t < res.len() implies (#[trigger] res[t]).role_id == rv.role_id
            || exists|u: int| 0 <= u < rules.len() && rules[u].role_id == res[t].role_id by {
            if t == 0 {
                assert(rules[0].role_id == res[0].role_id);
            } else {
                assert(res[t] == tail[t - 1]);
                let tt = t - 1;
                if tail[tt].role_id != rv.role_id {
                    let u = choose|u: int|
                        0 <= u < rules.drop_first().len() && rules.drop_first()[u].role_id
                            == tail[tt].role_id;
                    assert(rules[u + 1].role_id == res[t].role_id);
                }
            }
        }
    } else {
        assert forall|t: int| 0 <= t < res.len() implies (#[trigger] res[t]).role_id == rv.role_id
            || exists|u: int| 0 <= u < rules.len() && rules[u].role_id == res[t].role_id by {
            if t > 0 {
                assert(res[t] == rules[t - 1]);
            }
        }
    }
}

/// A mutable borrow of one position of the entry list.
fn guild_slot(entries: &mut Vec<GuildEntry>, i: usize) -> (element: &mut GuildEntry)
    requires
        0 <= i < old(entries).len(),
    ensures
        *element == old(entries)@[i as int],
        final(entries)@ == old(entries)@.update(i as int, *final(element)),
{
    &mut entries[i]
}


// ---------------------------------------------------------------------
// Saving: every rule, sorted by group and role, in the tabular format.
// ---------------------------------------------------------------------

/// A group's rules as one list, the default rule merged into the activity
/// rules at its sorted position (before an activity rule with the same
/// role).
pub open spec fn spec_merged_rules(g: GuildRulesView) -> Seq<RuleView> {
    match g.default_rule {
        None => g.activities_rules,
        Some(d) => spec_insert_rule(g.activities_rules, d),
    }
}

/// The stored record of one rule.
pub open spec fn spec_rule_record(rv: RuleView) -> Seq<Seq<char>> {
    spec_row_fields(spec_row_of_rule(rv))
}

/// The stored records of a rule list, in order.
pub open spec fn spec_rules_records(rules: Seq<RuleView>) -> Seq<Seq<Seq<char>>>
    decreases rules.len(),
{
    if rules.len() == 0 {
        Seq::empty()
    } else {
        seq![spec_rule_record(rules[0])] + spec_rules_records(rules.drop_first())
    }
}

/// The stored records of the whole store, group by group.
pub open spec fn spec_store_rows(entries: Seq<GuildEntryView>) -> Seq<Seq<Seq<char>>>
    decreases entries.len(),
{
    if entries.len() == 0 {
        Seq::empty()
    } else {
        spec_rules_records(spec_merged_rules(entries[0].rules)) + spec_store_rows(
            entries.drop_first(),
        )
    }
}

/// The whole stored file: the header, then every rule's record.
pub open spec fn spec_store_csv(entries: Seq<GuildEntryView>) -> Seq<char> {
    spec_encode_table(seq![spec_header_fields()] + spec_store_rows(entries))
}

/// A group's rules as one list, the default rule merged in at its sorted
/// position.
fn merged_rules(g: &GuildRules) -> (r: Vec<Rule>)
    ensures
        r.deep_view() == spec_merged_rules(g@),
{
    let mut v = clone_rules(&g.activities_rules);
    match &g.default_rule {
        None => v,
        Some(d) => {
            let ghost acts = g@.activities_rules;
            let ghost dv = d@;
            let mut i: usize = 0;
            loop
                invariant
                    0 <= i <= v@.len(),
                    v.deep_view() == acts,
                    v@.len() == acts.len(),
                    forall|t: int| 0 <= t < i ==> (#[trigger] acts[t]).role_id < dv.role_id,
                    dv == d@,
                ensures
                    0 <= i <= acts.len(),
                    v.deep_view() == acts,
                    v@.len() == acts.len(),
                    forall|t: int| 0 <= t < i ==> (#[trigger] acts[t]).role_id < dv.role_id,
                    i < acts.len() ==> acts[i as int].role_id >= dv.role_id,
                decreases v@.len() - i,
            {
                if i == v.len() {
                    break;
                }
                proof {
                    assert(acts[i as int] == v@[i as int]@);
                }
                if v[i].role_id >= d.role_id {
                    break;
                }
                i += 1;
            }
            proof {
                lemma_insert_rule_at(acts, dv, i as int);
            }
            let ghost prev_dv = v.deep_view();
            v.insert(i, d.clone());
            proof {
                assert forall|j: int|
                    0 <= j < v.deep_view().len() implies #[trigger] v.deep_view()[j]
                    == prev_dv.insert(i as int, dv)[j] by {
                    if j < i {
                    } else if j == i {
                    } else {
                    }
                }
                assert(v.deep_view() =~= prev_dv.insert(i as int, dv));
            }
            v
        },
    }
}

/// Appends the stored records of the rules from position `i` on.
fn push_rule_records(out: &mut Vec<Vec<String>>, rules: &Vec<Rule>, i: usize)
    requires
        i <= rules@.len(),
    ensures
        final(out).deep_view() == old(out).deep_view() + spec_rules_records(
            rules.deep_view().skip(i as int),
        ),
    decreases rules@.len() - i,
{
    proof {
        assert(rules.deep_view().len() == rules@.len());
    }
    if i >= rules.len() {
        proof {
            assert(rules.deep_view().skip(i as int).len() == 0);
            assert(out.deep_view() =~= out.deep_view() + spec_rules_records(
                rules.deep_view().skip(i as int),
            ));
        }
    } else {
        proof {
            assert(rules.deep_view().skip(i as int)[0] == rules@[i as int]@);
            assert(rules.deep_view().skip(i as int).drop_first() =~= rules.deep_view().skip(i + 1));
            assert(out.deep_view().len() == out@.len());
        }
        let ghost prev = out.deep_view();
        let fields = row_to_fields(rules[i].to_row());
        out.push(fields);
        proof {
            assert forall|j: int| 0 <= j < prev.len() implies out.deep_view()[j] == prev[j] by {}
            assert(out.deep_view() =~= prev + seq![
                spec_rule_record(rules.deep_view().skip(i as int)[0]),
            ]);
        }
        push_rule_records(out, rules, i + 1);
        proof {
            assert(final(out).deep_view() =~= old(out).deep_view() + spec_rules_records(
                rules.deep_view().skip(i as int),
            ));
        }
    }
}

/// Appends the stored records of the entries from position `i` on.
fn push_store_records(out: &mut Vec<Vec<String>>, entries: &Vec<GuildEntry>, i: usize)
    requires
        i <= entries@.len(),
    ensures
        final(out).deep_view() == old(out).deep_view() + spec_store_rows(
            entries.deep_view().skip(i as int),
        ),
    decreases entries@.len() - i,
{
    proof {
        assert(entries.deep_view().len() == entries@.len());
    }
    if i >= entries.len() {
        proof {
            assert(entries.deep_view().skip(i as int).len() == 0);
            assert(out.deep_view() =~= out.deep_view() + spec_store_rows(
                entries.deep_view().skip(i as int),
            ));
        }
    } else {
        proof {
            assert(entries.deep_view().skip(i as int)[0] == entries@[i as int]@);
            assert(entries.deep_view().skip(i as int).drop_first() =~= entries.deep_view().skip(
                i + 1,
            ));
        }
        let merged = merged_rules(&entries[i].rules);
        proof {
            assert(merged.deep_view().skip(0) =~= merged.deep_view());
        }
        push_rule_records(out, &merged, 0);
        push_store_records(out, entries, i + 1);
        proof {
            assert(final(out).deep_view() =~= old(out).deep_view() + spec_store_rows(
                entries.deep_view().skip(i as int),
            ));
        }
    }
}

/// Writes the whole store in the tabular storage format: the header line,
/// then one record per rule, sorted by group and role, the default rule
/// first among records with the same role.
pub fn rules_to_csv(rules: &RuleStore) -> (r: String)
    ensures
        r@ == spec_store_csv(rules@),
{
    let mut records: Vec<Vec<String>> = Vec::new();
    records.push(header_fields());
    proof {
        assert(records.deep_view() =~= seq![spec_header_fields()]);
        assert(rules.entries.deep_view().skip(0) =~= rules.entries.deep_view());
    }
    push_store_records(&mut records, &rules.entries, 0);
    proof {
        assert(records.deep_view() =~= seq![spec_header_fields()] + spec_store_rows(rules@));
    }
    let mut out = String::new();
    proof {
        assert(records.deep_view().skip(0) =~= records.deep_view());
    }
    encode_table_from(&mut out, &records, 0);
    proof {
        assert(out@ =~= spec_store_csv(rules@));
    }
    out
}

// ---------------------------------------------------------------------
// Loading.
// ---------------------------------------------------------------------

/// Folds stored records into a store, one rule per record.
pub open spec fn spec_load_rows(
    records: Seq<Seq<Seq<char>>>,
    acc: Seq<GuildEntryView>,
) -> Result<Seq<GuildEntryView>, LoadError>
    decreases records.len(),
{
    if records.len() == 0 {
        Ok(acc)
    } else if records[0].len() != 7 {
        Err(LoadError::WrongFieldCount)
    } else {
        match spec_rule_of_row(spec_fields_row(records[0])) {
            Err(e) => Err(e),
            Ok(rv) => spec_load_rows(records.drop_first(), spec_store_put(acc, rv)),
        }
    }
}

/// What loading the given text yields: the store, or the first error.
pub open spec fn spec_load(s: Seq<char>) -> Result<Seq<GuildEntryView>, LoadError> {
    match spec_parse_table(s) {
        None => Err(LoadError::MalformedTable),
        Some(records) => if records.len() == 0 {
            Ok(Seq::empty())
        } else if records[0] != spec_header_fields() {
            Err(LoadError::BadHeader)
        } else {
            spec_load_rows(records.drop_first(), Seq::empty())
        },
    }
}

/// Reads a whole rule file: the header line, then one rule per record.
/// An empty file is an empty store; every malformed part is reported.
pub fn load_rules_from_buffer(text: &str) -> (r: Result<RuleStore, LoadError>)
    ensures
        match r {
            Ok(store) => spec_load(text@) == Ok::<Seq<GuildEntryView>, LoadError>(store@)
                && spec_store_wf(store@),
            Err(e) => spec_load(text@) == Err::<Seq<GuildEntryView>, LoadError>(e),
        },
{
    let chars = str_to_chars(text);
    proof {
        assert(chars@.skip(0) =~= text@);
    }
    let table = match parse_table_chars(&chars, 0) {
        None => {
            return Err(LoadError::MalformedTable);
        },
        Some(t) => t,
    };
    let ghost records = table.deep_view();
    proof {
        assert(records.len() == table@.len());
    }
    if table.len() == 0 {
        let store = RuleStore::new();
        proof {
            assert(store@ =~= Seq::<GuildEntryView>::empty());
        }
        return Ok(store);
    }
    proof {
        assert(records[0] == table@[0].deep_view());
    }
    if !is_header(&table[0]) {
        return Err(LoadError::BadHeader);
    }
    let mut store = RuleStore::new();
    proof {
        assert(store@ =~= Seq::<GuildEntryView>::empty());
    }
    let mut k: usize = 1;
    proof {
        assert(records.skip(1) =~= records.drop_first());
    }
    while k < table.len()
        invariant
            1 <= k <= table@.len(),
            records == table.deep_view(),
            records.len() == table@.len(),
            spec_parse_table(text@) == Some(records),
            records.len() > 0,
            records[0] == spec_header_fields(),
            spec_store_wf(store@),
            spec_load_rows(records.drop_first(), Seq::empty()) == spec_load_rows(
                records.skip(k as int),
                store@,
            ),
        decreases table@.len() - k,
    {
        proof {
            assert(records[k as int] == table@[k as int].deep_view());
            assert(records.skip(k as int)[0] == records[k as int]);
            assert(records.skip(k as int).drop_first() =~= records.skip(k + 1));
            assert(table@[k as int].deep_view().len() == table@[k as int]@.len());
        }
        if table[k].len() != 7 {
            return Err(LoadError::WrongFieldCount);
        }
        let rec = &table[k];
        proof {
            assert forall|j: int| 0 <= j < 7 implies #[trigger] table@[k as int].deep_view()[j]
                == table@[k as int]@[j]@ by {}
        }
        let row = CsvRow {
            guild_id: rec[0].clone(),
            guild_name: rec[1].clone(),
            role_id: rec[2].clone(),
            role_name: rec[3].clone(),
            role_type: rec[4].clone(),
            activity_names: rec[5].clone(),
            comments: rec[6].clone(),
        };
        proof {
            assert(row@ == spec_fields_row(records[k as int]));
        }
        let rule = match Rule::from_row(row) {
            Err(e) => {
                return Err(e);
            },
            Ok(rule) => rule,
        };
        proof {
            lemma_rule_of_row_wf(spec_fields_row(records[k as int]));
        }
        store.upsert_rule(rule);
        k += 1;
    }
    proof {
        assert(records.skip(k as int).len() == 0);
    }
    Ok(store)
}

// ---------------------------------------------------------------------
// Round trip: saving a store and loading it back yields the same store.
// ---------------------------------------------------------------------

/// Every stored record has exactly the header's field count.
proof fn lemma_rule_record_len(rv: RuleView)
    ensures
        spec_rule_record(rv).len() == 7,
{
}

/// Every record of a rule list has exactly the header's field count.
proof fn lemma_rules_records_len(rules: Seq<RuleView>)
    ensures
        spec_rules_records(rules).len() == rules.len(),
        forall|t: int|
            0 <= t < spec_rules_records(rules).len() ==> (#[trigger] spec_rules_records(rules)[t])
                == spec_rule_record(rules[t]),
    decreases rules.len(),
{
    if rules.len() > 0 {
        lemma_rules_records_len(rules.drop_first());
        let res = spec_rules_records(rules);
        assert forall|t: int|
            0 <= t < res.len() implies (#[trigger] res[t]) == spec_rule_record(rules[t]) by {
            if t > 0 {
                assert(res[t] == spec_rules_records(rules.drop_first())[t - 1]);
                assert(rules.drop_first()[t - 1] == rules[t]);
            }
        }
    }
}

/// Every record of a whole store has exactly the header's field count.
proof fn lemma_store_rows_shape(entries: Seq<GuildEntryView>)
    ensures
        forall|t: int|
            0 <= t < spec_store_rows(entries).len() ==> (#[trigger] spec_store_rows(entries)[t]).len()
                == 7,
    decreases entries.len(),
{
    if entries.len() > 0 {
        lemma_store_rows_shape(entries.drop_first());
        let head = spec_rules_records(spec_merged_rules(entries[0].rules));
        let tail = spec_store_rows(entries.drop_first());
        lemma_rules_records_len(spec_merged_rules(entries[0].rules));
        assert forall|t: int|
            0 <= t < spec_store_rows(entries).len() implies (#[trigger] spec_store_rows(entries)[t]).len()
            == 7 by {
            if t < head.len() {
                assert(spec_store_rows(entries)[t] == head[t]);
                lemma_rule_record_len(spec_merged_rules(entries[0].rules)[t]);
            } else {
                assert(spec_store_rows(entries)[t] == tail[t - head.len()]);
            }
        }
    }
}

/// Folding records distributes over concatenation.
proof fn lemma_load_rows_concat(
    a: Seq<Seq<Seq<char>>>,
    b: Seq<Seq<Seq<char>>>,
    acc: Seq<GuildEntryView>,
)
    ensures
        spec_load_rows(a + b, acc) == match spec_load_rows(a, acc) {
            Ok(acc2) => spec_load_rows(b, acc2),
            Err(e) => Err(e),
        },
    decreases a.len(),
{
    if a.len() == 0 {
        assert(a + b =~= b);
    } else {
        assert((a + b)[0] == a[0]);
        if a[0].len() != 7 {
        } else {
            match spec_rule_of_row(spec_fields_row(a[0])) {
                Err(e) => {},
                Ok(rv) => {
                    assert((a + b).drop_first() =~= a.drop_first() + b);
                    lemma_load_rows_concat(a.drop_first(), b, spec_store_put(acc, rv));
                },
            }
        }
    }
}

/// Storing a rule for a group beyond every known group appends a fresh
/// entry.
proof fn lemma_store_put_append(acc: Seq<GuildEntryView>, rv: RuleView)
    requires
        forall|t: int| 0 <= t < acc.len() ==> (#[trigger] acc[t]).guild_id < rv.guild_id,
    ensures
        spec_store_put(acc, rv) == acc + seq![
            GuildEntryView { guild_id: rv.guild_id, rules: spec_guild_put(spec_empty_guild(), rv) },
        ],
    decreases acc.len(),
{
    let fresh = GuildEntryView { guild_id: rv.guild_id, rules: spec_guild_put(spec_empty_guild(), rv) };
    if acc.len() == 0 {
        assert(seq![fresh] =~= acc + seq![fresh]);
    } else {
        lemma_store_put_append(acc.drop_first(), rv);
        assert(seq![acc[0]] + (acc.drop_first() + seq![fresh]) =~= acc + seq![fresh]);
    }
}

/// Storing a rule for the last known group rewrites that entry alone.
proof fn lemma_store_put_last(acc: Seq<GuildEntryView>, rv: RuleView)
    requires
        acc.len() > 0,
        acc.last().guild_id == rv.guild_id,
        forall|t: int| 0 <= t < acc.len() - 1 ==> (#[trigger] acc[t]).guild_id < rv.guild_id,
    ensures
        spec_store_put(acc, rv) == acc.update(
            acc.len() - 1,
            GuildEntryView { guild_id: rv.guild_id, rules: spec_guild_put(acc.last().rules, rv) },
        ),
    decreases acc.len(),
{
    let upd = GuildEntryView { guild_id: rv.guild_id, rules: spec_guild_put(acc.last().rules, rv) };
    if acc.len() == 1 {
        assert(acc[0].guild_id == rv.guild_id);
        assert(seq![upd] + acc.drop_first() =~= acc.update(0, upd));
    } else {
        assert(acc[0] == acc[0]);
        assert(acc[0].guild_id < rv.guild_id);
        lemma_store_put_last(acc.drop_first(), rv);
        assert(acc.drop_first().last() == acc.last());
        assert(acc.drop_first().update(acc.drop_first().len() - 1, upd) =~= acc.update(
            acc.len() - 1,
            upd,
        ).drop_first());
        assert(seq![acc[0]] + acc.update(acc.len() - 1, upd).drop_first() =~= acc.update(
            acc.len() - 1,
            upd,
        ));
    }
}

/// One rule stored on top of a group, then the rest: the fold of a rule
/// list onto a group.
pub open spec fn spec_fold_guild(g: GuildRulesView, rules: Seq<RuleView>) -> GuildRulesView
    decreases rules.len(),
{
    if rules.len() == 0 {
        g
    } else {
        spec_fold_guild(spec_guild_put(g, rules[0]), rules.drop_first())
    }
}

/// Folding well-formed activity rules whose roles exceed every stored role
/// appends them in order and leaves the default slot alone.
proof fn lemma_fold_guild_append(g: GuildRulesView, rules: Seq<RuleView>)
    requires
        forall|t: int|
            0 <= t < rules.len() ==> (#[trigger] rules[t]).role_type == RoleType::NamedActivity,
        forall|a: int, b: int|
            0 <= a < b < rules.len() ==> #[trigger] rules[a].role_id < #[trigger] rules[b].role_id,
        forall|a: int, t: int|
            0 <= a < g.activities_rules.len() && 0 <= t < rules.len() ==> (
            #[trigger] g.activities_rules[a]).role_id < (#[trigger] rules[t]).role_id,
    ensures
        spec_fold_guild(g, rules) == (GuildRulesView {
            activities_rules: g.activities_rules + rules,
            default_rule: g.default_rule,
        }),
    decreases rules.len(),
{
    if rules.len() == 0 {
        assert(g.activities_rules + rules =~= g.activities_rules);
    } else {
        let rv = rules[0];
        assert forall|t: int|
            0 <= t < g.activities_rules.len() implies (#[trigger] g.activities_rules[t]).role_id
            != rv.role_id by {}
        lemma_find_rule_none(g.activities_rules, rv.role_id);
        lemma_insert_rule_at(g.activities_rules, rv, g.activities_rules.len() as int);
        let g2 = spec_guild_put(g, rv);
        assert(g2.activities_rules =~= g.activities_rules + seq![rv]);
        assert forall|a: int, t: int|
            0 <= a < g2.activities_rules.len() && 0 <= t < rules.drop_first().len() implies (
        #[trigger] g2.activities_rules[a]).role_id < (#[trigger] rules.drop_first()[t]).role_id by {
            assert(rules.drop_first()[t] == rules[t + 1]);
            if a < g.activities_rules.len() {
            } else {
                assert(g2.activities_rules[a] == rv);
            }
        }
        lemma_fold_guild_append(g2, rules.drop_first());
        assert(g2.activities_rules + rules.drop_first() =~= g.activities_rules + rules);
    }
}

/// Folding the merged rule list of a well-formed group onto an empty group
/// rebuilds the group.
proof fn lemma_fold_guild_merged(a0: Seq<RuleView>, acts: Seq<RuleView>, d: RuleView, d0: Option<RuleView>)
    requires
        d.role_type == RoleType::Else,
        forall|t: int|
            0 <= t < acts.len() ==> (#[trigger] acts[t]).role_type == RoleType::NamedActivity,
        forall|a: int, b: int|
            0 <= a < b < acts.len() ==> #[trigger] acts[a].role_id < #[trigger] acts[b].role_id,
        forall|a: int, t: int|
            0 <= a < a0.len() && 0 <= t < acts.len() ==> (#[trigger] a0[a]).role_id < (
            #[trigger] acts[t]).role_id,
        forall|a: int, b: int| 0 <= a < b < a0.len() ==> #[trigger] a0[a].role_id < #[trigger] a0[b].role_id,
        forall|t: int| 0 <= t < a0.len() ==> (#[trigger] a0[t]).role_type == RoleType::NamedActivity,
    ensures
        spec_fold_guild(
            GuildRulesView { activities_rules: a0, default_rule: d0 },
            spec_insert_rule(acts, d),
        ) == (GuildRulesView { activities_rules: a0 + acts, default_rule: Some(d) }),
    decreases acts.len(),
{
    let g = GuildRulesView { activities_rules: a0, default_rule: d0 };
    if acts.len() == 0 {
        assert(spec_insert_rule(acts, d) =~= seq![d]);
        let g2 = spec_guild_put(g, d);
        assert(spec_fold_guild(g2, seq![d].drop_first()) == g2) by {
            assert(seq![d].drop_first().len() == 0);
        }
        assert(a0 + acts =~= a0);
    } else if acts[0].role_id < d.role_id {
        let rv = acts[0];
        assert forall|t: int| 0 <= t < a0.len() implies (#[trigger] a0[t]).role_id != rv.role_id by {}
        lemma_find_rule_none(a0, rv.role_id);
        lemma_insert_rule_at(a0, rv, a0.len() as int);
        let g2 = spec_guild_put(g, rv);
        assert(g2.activities_rules =~= a0 + seq![rv]);
        assert(spec_insert_rule(acts, d) == seq![rv] + spec_insert_rule(acts.drop_first(), d));
        assert(spec_insert_rule(acts, d).drop_first() =~= spec_insert_rule(acts.drop_first(), d));
        assert forall|a: int, t: int|
            0 <= a < g2.activities_rules.len() && 0 <= t < acts.drop_first().len() implies (
        #[trigger] g2.activities_rules[a]).role_id < (#[trigger] acts.drop_first()[t]).role_id by {
            assert(acts.drop_first()[t] == acts[t + 1]);
            if a < a0.len() {
            } else {
                assert(g2.activities_rules[a] == rv);
            }
        }
        assert forall|a: int, b: int|
            0 <= a < b < g2.activities_rules.len() implies #[trigger] g2.activities_rules[a].role_id
            < #[trigger] g2.activities_rules[b].role_id by {
            if b < a0.len() {
            } else {
                assert(g2.activities_rules[b] == rv);
                if a < a0.len() {
                }
            }
        }
        assert forall|t: int|
            0 <= t < g2.activities_rules.len() implies (#[trigger] g2.activities_rules[t]).role_type
            == RoleType::NamedActivity by {
            if t < a0.len() {
            } else {
                assert(g2.activities_rules[t] == rv);
            }
        }
        assert forall|a: int, b: int|
            0 <= a < b < acts.drop_first().len() implies #[trigger] acts.drop_first()[a].role_id
            < #[trigger] acts.drop_first()[b].role_id by {
            assert(acts.drop_first()[a] == acts[a + 1]);
            assert(acts.drop_first()[b] == acts[b + 1]);
        }
        assert forall|t: int|
            0 <= t < acts.drop_first().len() implies (#[trigger] acts.drop_first()[t]).role_type
            == RoleType::NamedActivity by {
            assert(acts.drop_first()[t] == acts[t + 1]);
        }
        lemma_fold_guild_merged(a0 + seq![rv], acts.drop_first(), d, d0);
        assert(spec_fold_guild(g, spec_insert_rule(acts, d)) == spec_fold_guild(
            g2,
            spec_insert_rule(acts.drop_first(), d),
        )) by {
            assert(spec_insert_rule(acts, d)[0] == rv);
        }
        assert((a0 + seq![rv]) + acts.drop_first() =~= a0 + acts);
    } else {
        assert(spec_insert_rule(acts, d) == seq![d] + acts);
        let g2 = spec_guild_put(g, d);
        assert(g2 == GuildRulesView { activities_rules: a0, default_rule: Some(d) });
        assert((seq![d] + acts).drop_first() =~= acts);
        assert((seq![d] + acts)[0] == d);
        lemma_fold_guild_append(g2, acts);
    }
}

/// Loading the records of a rule list updates the store's last entry by
/// folding the rules onto it.
proof fn lemma_load_rule_records(rules: Seq<RuleView>, acc: Seq<GuildEntryView>, gid: u64)
    requires
        acc.len() > 0,
        acc.last().guild_id == gid,
        forall|t: int| 0 <= t < acc.len() - 1 ==> (#[trigger] acc[t]).guild_id < gid,
        forall|t: int|
            0 <= t < rules.len() ==> (#[trigger] rules[t]).wf() && rules[t].guild_id == gid,
    ensures
        spec_load_rows(spec_rules_records(rules), acc) == Ok::<Seq<GuildEntryView>, LoadError>(
            acc.update(
                acc.len() - 1,
                GuildEntryView { guild_id: gid, rules: spec_fold_guild(acc.last().rules, rules) },
            ),
        ),
    decreases rules.len(),
{
    if rules.len() == 0 {
        assert(acc.update(acc.len() - 1, acc.last()) =~= acc);
    } else {
        let rv = rules[0];
        let recs = spec_rules_records(rules);
        assert(recs[0] == spec_rule_record(rv));
        lemma_rule_record_len(rv);
        assert(spec_fields_row(spec_row_fields(spec_row_of_rule(rv))) == spec_row_of_rule(rv));
        lemma_rule_row_round_trip(rv);
        lemma_store_put_last(acc, rv);
        let acc2 = acc.update(
            acc.len() - 1,
            GuildEntryView { guild_id: gid, rules: spec_guild_put(acc.last().rules, rv) },
        );
        assert(recs.drop_first() =~= spec_rules_records(rules.drop_first()));
        assert forall|t: int|
            0 <= t < rules.drop_first().len() implies (#[trigger] rules.drop_first()[t]).wf()
            && rules.drop_first()[t].guild_id == gid by {
            assert(rules.drop_first()[t] == rules[t + 1]);
        }
        lemma_load_rule_records(rules.drop_first(), acc2, gid);
        assert(acc2.last().rules == spec_guild_put(acc.last().rules, rv));
        assert(acc2.update(
            acc2.len() - 1,
            GuildEntryView {
                guild_id: gid,
                rules: spec_fold_guild(acc2.last().rules, rules.drop_first()),
            },
        ) =~= acc.update(
            acc.len() - 1,
            GuildEntryView { guild_id: gid, rules: spec_fold_guild(acc.last().rules, rules) },
        ));
    }
}

/// Loading one group's records onto a store of smaller groups appends
/// exactly that group's entry.
proof fn lemma_load_entry(e: GuildEntryView, acc: Seq<GuildEntryView>)
    requires
        e.rules.wf(),
        spec_guild_consistent(e),
        e.rules.activities_rules.len() > 0 || e.rules.default_rule is Some,
        forall|t: int| 0 <= t < acc.len() ==> (#[trigger] acc[t]).guild_id < e.guild_id,
    ensures
        spec_load_rows(spec_rules_records(spec_merged_rules(e.rules)), acc) == Ok::<
            Seq<GuildEntryView>,
            LoadError,
        >(acc + seq![e]),
{
    let merged = spec_merged_rules(e.rules);
    let acts = e.rules.activities_rules;
    // The merged list rebuilds the group when folded onto an empty one.
    let folded = spec_fold_guild(spec_empty_guild(), merged);
    match e.rules.default_rule {
        None => {
            lemma_fold_guild_append(spec_empty_guild(), acts);
            assert(Seq::<RuleView>::empty() + acts =~= acts);
            assert(folded == e.rules);
        },
        Some(d) => {
            lemma_fold_guild_merged(Seq::empty(), acts, d, None);
            assert(Seq::<RuleView>::empty() + acts =~= acts);
            assert(folded == e.rules);
        },
    }
    // The merged list is non-empty and names the group throughout.
    assert(merged.len() > 0) by {
        match e.rules.default_rule {
            None => {},
            Some(d) => {
                lemma_insert_rule_len(acts, d);
            },
        }
    }
    assert forall|t: int|
        0 <= t < merged.len() implies (#[trigger] merged[t]).wf() && merged[t].guild_id
        == e.guild_id by {
        match e.rules.default_rule {
            None => {},
            Some(d) => {
                lemma_insert_rule_members(acts, d, t);
            },
        }
    }
    // The first record creates the entry; the rest fold onto it.
    let rv = merged[0];
    let recs = spec_rules_records(merged);
    assert(recs[0] == spec_rule_record(rv));
    lemma_rule_record_len(rv);
    assert(spec_fields_row(spec_row_fields(spec_row_of_rule(rv))) == spec_row_of_rule(rv));
    lemma_rule_row_round_trip(rv);
    lemma_store_put_append(acc, rv);
    let acc2 = acc + seq![
        GuildEntryView { guild_id: e.guild_id, rules: spec_guild_put(spec_empty_guild(), rv) },
    ];
    assert(acc2.last().guild_id == e.guild_id);
    assert forall|t: int| 0 <= t < acc2.len() - 1 implies (#[trigger] acc2[t]).guild_id
        < e.guild_id by {
        assert(acc2[t] == acc[t]);
    }
    assert(recs.drop_first() =~= spec_rules_records(merged.drop_first()));
    assert forall|t: int|
        0 <= t < merged.drop_first().len() implies (#[trigger] merged.drop_first()[t]).wf()
        && merged.drop_first()[t].guild_id == e.guild_id by {
        assert(merged.drop_first()[t] == merged[t + 1]);
    }
    lemma_load_rule_records(merged.drop_first(), acc2, e.guild_id);
    assert(spec_fold_guild(acc2.last().rules, merged.drop_first()) == folded) by {
        assert(spec_fold_guild(spec_empty_guild(), merged) == spec_fold_guild(
            spec_guild_put(spec_empty_guild(), merged[0]),
            merged.drop_first(),
        ));
    }
    assert(acc2.update(
        acc2.len() - 1,
        GuildEntryView { guild_id: e.guild_id, rules: folded },
    ) =~= acc + seq![e]);
}

/// Sorted insertion adds one rule.
proof fn lemma_insert_rule_len(rules: Seq<RuleView>, r: RuleView)
    ensures
        spec_insert_rule(rules, r).len() == rules.len() + 1,
    decreases rules.len(),
{
    if rules.len() > 0 && rules[0].role_id < r.role_id {
        lemma_insert_rule_len(rules.drop_first(), r);
    }
}

/// Every member of a sorted insertion is the new rule or an old one.
proof fn lemma_insert_rule_members(rules: Seq<RuleView>, r: RuleView, t: int)
    requires
        0 <= t < spec_insert_rule(rules, r).len(),
    ensures
        spec_insert_rule(rules, r)[t] == r || exists|u: int|
            0 <= u < rules.len() && rules[u] == spec_insert_rule(rules, r)[t],
    decreases rules.len(),
{
    let res = spec_insert_rule(rules, r);
    if rules.len() == 0 {
    } else if rules[0].role_id < r.role_id {
        if t == 0 {
            assert(rules[0] == res[0]);
        } else {
            assert(res[t] == spec_insert_rule(rules.drop_first(), r)[t - 1]);
            lemma_insert_rule_len(rules.drop_first(), r);
            lemma_insert_rule_members(rules.drop_first(), r, t - 1);
            if spec_insert_rule(rules.drop_first(), r)[t - 1] != r {
                let u = choose|u: int|
                    0 <= u < rules.drop_first().len() && rules.drop_first()[u] == spec_insert_rule(
                        rules.drop_first(),
                        r,
                    )[t - 1];
                assert(rules[u + 1] == res[t]);
            }
        }
    } else {
        if t > 0 {
            assert(res[t] == rules[t - 1]);
        }
    }
}

/// Loading the records of a sorted run of groups onto a store of smaller
/// groups appends exactly those entries.
proof fn lemma_load_store_rows(entries: Seq<GuildEntryView>, acc: Seq<GuildEntryView>)
    requires
        spec_store_wf(entries),
        forall|t: int|
            0 <= t < entries.len() ==> (#[trigger] entries[t]).rules.activities_rules.len() > 0
                || entries[t].rules.default_rule is Some,
        forall|a: int, t: int|
            0 <= a < acc.len() && 0 <= t < entries.len() ==> (#[trigger] acc[a]).guild_id < (
            #[trigger] entries[t]).guild_id,
    ensures
        spec_load_rows(spec_store_rows(entries), acc) == Ok::<Seq<GuildEntryView>, LoadError>(
            acc + entries,
        ),
    decreases entries.len(),
{
    if entries.len() == 0 {
        assert(acc + entries =~= acc);
    } else {
        let e = entries[0];
        let head = spec_rules_records(spec_merged_rules(e.rules));
        let tail = spec_store_rows(entries.drop_first());
        lemma_load_rows_concat(head, tail, acc);
        lemma_load_entry(e, acc);
        assert forall|a: int, b: int|
            0 <= a < b < entries.drop_first().len() implies (
        #[trigger] entries.drop_first()[a]).guild_id < (
        #[trigger] entries.drop_first()[b]).guild_id by {
            assert(entries.drop_first()[a] == entries[a + 1]);
            assert(entries.drop_first()[b] == entries[b + 1]);
        }
        assert forall|i: int|
            0 <= i < entries.drop_first().len() implies (#[trigger] entries.drop_first()[i]).rules.wf()
            && spec_guild_consistent(entries.drop_first()[i]) && (
        entries.drop_first()[i].rules.activities_rules.len() > 0
            || entries.drop_first()[i].rules.default_rule is Some) by {
            assert(entries.drop_first()[i] == entries[i + 1]);
        }
        assert forall|a: int, t: int|
            0 <= a < (acc + seq![e]).len() && 0 <= t < entries.drop_first().len() implies (
        #[trigger] (acc + seq![e])[a]).guild_id < (#[trigger] entries.drop_first()[t]).guild_id by {
            assert(entries.drop_first()[t] == entries[t + 1]);
            if a < acc.len() {
                assert((acc + seq![e])[a] == acc[a]);
            } else {
                assert((acc + seq![e])[a] == e);
                assert(entries[0].guild_id < entries[t + 1].guild_id);
            }
        }
        lemma_load_store_rows(entries.drop_first(), acc + seq![e]);
        assert((acc + seq![e]) + entries.drop_first() =~= acc + entries);
    }
}

/// Round trip: writing a well-formed store in the tabular format and
/// reading it back yields the same store, provided every group entry holds
/// at least one rule (an entry with none writes no record and would be
/// forgotten).
pub proof fn lemma_store_round_trip(entries: Seq<GuildEntryView>)
    requires
        spec_store_wf(entries),
        forall|t: int|
            0 <= t < entries.len() ==> (#[trigger] entries[t]).rules.activities_rules.len() > 0
                || entries[t].rules.default_rule is Some,
    ensures
        spec_load(spec_store_csv(entries)) == Ok::<Seq<GuildEntryView>, LoadError>(entries),
{
    let rows = spec_store_rows(entries);
    let records = seq![spec_header_fields()] + rows;
    lemma_store_rows_shape(entries);
    assert forall|t: int| 0 <= t < records.len() implies (#[trigger] records[t]).len() >= 1 by {
        if t == 0 {
            assert(records[0] == spec_header_fields());
        } else {
            assert(records[t] == rows[t - 1]);
        }
    }
    lemma_parse_table_encode(records);
    assert(records[0] == spec_header_fields());
    assert(records.drop_first() =~= rows);
    lemma_load_store_rows(entries, Seq::empty());
    assert(Seq::<GuildEntryView>::empty() + entries =~= entries);
}



// ---------------------------------------------------------------------
// Role names.
// ---------------------------------------------------------------------

/// The mathematical content of a [`RoleInfo`].
pub struct RoleInfoView {
    pub id: u64,
    pub name: Seq<char>,
}

/// A role as the platform reports it: its identifier and current name.
#[derive(Debug, PartialEq, Eq)]
pub struct RoleInfo {
    pub id: u64,
    pub name: String,
}

impl View for RoleInfo {
    type V = RoleInfoView;

    open spec fn view(&self) -> RoleInfoView {
        RoleInfoView { id: self.id, name: self.name@ }
    }
}

impl DeepView for RoleInfo {
    type V = RoleInfoView;

    open spec fn deep_view(&self) -> RoleInfoView {
        self.view()
    }
}

/// The identifier of the first role with the given name, if any.
pub open spec fn spec_find_role_by_name(roles: Seq<RoleInfoView>, name: Seq<char>) -> Option<u64>
    decreases roles.len(),
{
    if roles.len() == 0 {
        None
    } else if roles[0].name == name {
        Some(roles[0].id)
    } else {
        spec_find_role_by_name(roles.drop_first(), name)
    }
}

/// The identifier of the first role with the given name, if any.
pub fn find_role_by_name(roles: &Vec<RoleInfo>, name: &str) -> (r: Option<u64>)
    ensures
        r == spec_find_role_by_name(roles.deep_view(), name@),
{
    let ghost all = roles.deep_view();
    proof {
        assert(all.skip(0) =~= all);
        assert(all.len() == roles@.len());
    }
    let mut i: usize = 0;
    loop
        invariant
            0 <= i <= roles@.len(),
            all == roles.deep_view(),
            all.len() == roles@.len(),
            spec_find_role_by_name(all.skip(i as int), name@) == spec_find_role_by_name(all, name@),
        ensures
            0 <= i <= all.len(),
            all == roles.deep_view(),
            spec_find_role_by_name(all.skip(i as int), name@) == spec_find_role_by_name(all, name@),
            i < all.len() ==> all[i as int].name == name@,
        decreases roles@.len() - i,
    {
        if i == roles.len() {
            break;
        }
        proof {
            assert(all.skip(i as int)[0] == all[i as int]);
            assert(all[i as int] == roles@[i as int]@);
        }
        if str_eq(roles[i].name.as_str(), name) {
            break;
        }
        proof {
            assert(all.skip(i as int).drop_first() =~= all.skip(i + 1));
        }
        i += 1;
    }
    if i < roles.len() {
        proof {
            assert(all.skip(i as int)[0] == all[i as int]);
            assert(all[i as int] == roles@[i as int]@);
        }
        Some(roles[i].id)
    } else {
        proof {
            assert(all.skip(i as int).len() == 0);
        }
        None
    }
}

/// The group's rules with the rule owning `role_id` renamed, the default
/// rule taking precedence; unchanged when no rule owns the role.
pub open spec fn spec_rename_in(g: GuildRulesView, role_id: u64, name: Seq<char>) -> GuildRulesView {
    match g.default_rule {
        Some(d) if d.role_id == role_id => GuildRulesView {
            activities_rules: g.activities_rules,
            default_rule: Some(RuleView { role_name: name, ..d }),
        },
        _ => match spec_find_rule(g.activities_rules, role_id) {
            Some(found) => GuildRulesView {
                activities_rules: spec_replace_rule(
                    g.activities_rules,
                    role_id,
                    RuleView { role_name: name, ..found },
                ),
                default_rule: g.default_rule,
            },
            None => g,
        },
    }
}

/// The group's rules with every listed role renamed, in list order.
pub open spec fn spec_rename_all(g: GuildRulesView, roles: Seq<RoleInfoView>) -> GuildRulesView
    decreases roles.len(),
{
    if roles.len() == 0 {
        g
    } else {
        spec_rename_all(spec_rename_in(g, roles[0].id, roles[0].name), roles.drop_first())
    }
}

/// The store with the given group's rule names refreshed.
pub open spec fn spec_store_rename(
    entries: Seq<GuildEntryView>,
    guild_id: u64,
    roles: Seq<RoleInfoView>,
) -> Seq<GuildEntryView>
    decreases entries.len(),
{
    if entries.len() == 0 {
        entries
    } else if entries[0].guild_id == guild_id {
        seq![
            GuildEntryView { guild_id, rules: spec_rename_all(entries[0].rules, roles) },
        ] + entries.drop_first()
    } else {
        seq![entries[0]] + spec_store_rename(entries.drop_first(), guild_id, roles)
    }
}

impl GuildRules {
    /// Renames the rule owning `role_id`, if any; the default rule takes
    /// precedence.
    fn rename_role(&mut self, role_id: u64, name: &String)
        ensures
            final(self)@ == spec_rename_in(old(self)@, role_id, name@),
    {
        let is_default = match &self.default_rule {
            Some(d) => d.role_id == role_id,
            None => false,
        };
        if is_default {
            match &self.default_rule {
                Some(d) => {
                    let mut d2 = d.clone();
                    d2.role_name = name.clone();
                    self.default_rule = Some(d2);
                },
                None => {},
            }
        } else {
            let ghost all = self@.activities_rules;
            let mut i: usize = 0;
            loop
                invariant
                    0 <= i <= self.activities_rules@.len(),
                    all == self@.activities_rules,
                    forall|t: int| 0 <= t < i ==> (#[trigger] all[t]).role_id != role_id,
                ensures
                    0 <= i <= all.len(),
                    all == self@.activities_rules,
                    forall|t: int| 0 <= t < i ==> (#[trigger] all[t]).role_id != role_id,
                    i < all.len() ==> all[i as int].role_id == role_id,
                decreases self.activities_rules@.len() - i,
            {
                if i == self.activities_rules.len() {
                    break;
                }
                proof {
                    assert(all[i as int] == self.activities_rules@[i as int]@);
                }
                if self.activities_rules[i].role_id == role_id {
                    break;
                }
                i += 1;
            }
            if i < self.activities_rules.len() {
                proof {
                    crate::rules::lemma_find_rule_from(all, role_id, i as int);
                    lemma_replace_rule_at(all, role_id, i as int);
                    assert(all[i as int] == self.activities_rules@[i as int]@);
                    assert(self.activities_rules.deep_view().len() == self.activities_rules@.len());
                }
                let mut r2 = self.activities_rules[i].clone();
                r2.role_name = name.clone();
                let ghost rv2 = r2@;
                let ghost prev_dv = self.activities_rules.deep_view();
                self.activities_rules.set(i, r2);
                proof {
                    assert forall|j: int|
                        0 <= j < self.activities_rules.deep_view().len() implies #[trigger] self.activities_rules.deep_view()[j] == prev_dv.update(
                        i as int,
                        rv2,
                    )[j] by {}
                    assert(self.activities_rules.deep_view() =~= prev_dv.update(i as int, rv2));
                    assert(rv2 == (RuleView { role_name: name@, ..all[i as int] }));
                }
            } else {
                proof {
                    lemma_find_rule_none(all, role_id);
                }
            }
        }
    }

    /// Renames every listed role that some rule owns, in list order.
    fn rename_roles(&mut self, roles: &Vec<RoleInfo>)
        ensures
            final(self)@ == spec_rename_all(old(self)@, roles.deep_view()),
    {
        let ghost rv = roles.deep_view();
        proof {
            assert(rv.len() == roles@.len());
            assert(rv.skip(0) =~= rv);
        }
        let mut i: usize = 0;
        while i < roles.len()
            invariant
                0 <= i <= roles@.len(),
                rv == roles.deep_view(),
                rv.len() == roles@.len(),
                spec_rename_all(self@, rv.skip(i as int)) == spec_rename_all(old(self)@, rv),
            decreases roles@.len() - i,
        {
            proof {
                assert(rv.skip(i as int)[0] == rv[i as int]);
                assert(rv[i as int] == roles@[i as int]@);
                assert(rv.skip(i as int).drop_first() =~= rv.skip(i + 1));
            }
            self.rename_role(roles[i].id, &roles[i].name);
            i += 1;
        }
        proof {
            assert(rv.skip(roles@.len() as int).len() == 0);
        }
    }
}

/// Refreshes the stored role names of one group from the names the
/// platform reports; fails only when the store has no entry for the group.
pub fn update_roles_names(
    rules: &mut RuleStore,
    guild_roles: Vec<RoleInfo>,
    guild_id: u64,
) -> (r: Result<(), RuleError>)
    ensures
        match r {
            Ok(()) => {
                &&& spec_find_guild(old(rules)@, guild_id) is Some
                &&& final(rules)@ == spec_store_rename(
                    old(rules)@,
                    guild_id,
                    guild_roles.deep_view(),
                )
            },
            Err(e) => {
                &&& e == RuleError::NoRulesForGuild
                &&& spec_find_guild(old(rules)@, guild_id) is None
                &&& final(rules)@ == old(rules)@
            },
        },
{
    let ghost all = rules@;
    let ghost roles_dv = guild_roles.deep_view();
    let mut i: usize = 0;
    loop
        invariant
            0 <= i <= rules.entries@.len(),
            all == rules@,
            forall|t: int| 0 <= t < i ==> (#[trigger] all[t]).guild_id != guild_id,
        ensures
            0 <= i <= all.len(),
            all == rules@,
            forall|t: int| 0 <= t < i ==> (#[trigger] all[t]).guild_id != guild_id,
            i < all.len() ==> all[i as int].guild_id == guild_id,
        decreases rules.entries@.len() - i,
    {
        if i == rules.entries.len() {
            break;
        }
        proof {
            assert(all[i as int] == rules.entries@[i as int]@);
        }
        if rules.entries[i].guild_id == guild_id {
            break;
        }
        i += 1;
    }
    if i < rules.entries.len() {
        proof {
            lemma_find_guild_from(all, guild_id, i as int);
            lemma_store_rename_at(all, guild_id, roles_dv, i as int);
            assert(all[i as int] == rules.entries@[i as int]@);
            assert(rules.entries.deep_view().len() == rules.entries@.len());
        }
        let ghost prev_dv = rules.entries.deep_view();
        let slot = guild_slot(&mut rules.entries, i);
        slot.rules.rename_roles(&guild_roles);
        proof {
            let upd = GuildEntryView {
                guild_id,
                rules: spec_rename_all(all[i as int].rules, roles_dv),
            };
            assert forall|j: int|
                0 <= j < rules.entries.deep_view().len() implies #[trigger] rules.entries.deep_view()[j] == prev_dv.update(
                i as int,
                upd,
            )[j] by {}
            assert(rules.entries.deep_view() =~= prev_dv.update(i as int, upd));
        }
        Ok(())
    } else {
        proof {
            lemma_find_guild_none(all, guild_id);
        }
        Err(RuleError::NoRulesForGuild)
    }
}

/// When the group sits at position `i` and nowhere earlier, the rename
/// rewrites exactly that entry.
proof fn lemma_store_rename_at(
    entries: Seq<GuildEntryView>,
    guild_id: u64,
    roles: Seq<RoleInfoView>,
    i: int,
)
    requires
        0 <= i < entries.len(),
        entries[i].guild_id == guild_id,
        forall|t: int| 0 <= t < i ==> (#[trigger] entries[t]).guild_id != guild_id,
    ensures
        spec_store_rename(entries, guild_id, roles) == entries.update(
            i,
            GuildEntryView { guild_id, rules: spec_rename_all(entries[i].rules, roles) },
        ),
    decreases i,
{
    let upd = GuildEntryView { guild_id, rules: spec_rename_all(entries[i].rules, roles) };
    if i == 0 {
        assert(seq![upd] + entries.drop_first() =~= entries.update(0, upd));
    } else {
        lemma_store_rename_at(entries.drop_first(), guild_id, roles, i - 1);
        assert(entries.drop_first()[i - 1] == entries[i]);
        assert(entries.drop_first().update(i - 1, upd) =~= entries.update(i, upd).drop_first());
        assert(seq![entries[0]] + entries.update(i, upd).drop_first() =~= entries.update(i, upd));
    }
}


} // verus!
