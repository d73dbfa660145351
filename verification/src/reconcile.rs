//! The reconciler: a pure function from a group's rules, a subject's held
//! tags and the subject's current activities to the tags to add and remove.
//!
//! Only tags managed by some rule of the group are ever touched.  The
//! desired tags are the matching activity rules' tags, the default rule's
//! tag when activities are present but nothing matches, and nothing when no
//! activity is present.

use crate::rules::{GuildRules, GuildRulesView, Rule, RuleView};
use crate::text::str_eq;
use vstd::prelude::*;

verus! {

/// A sequence of role identifiers in strictly increasing order.
pub open spec fn sorted_strict(s: Seq<u64>) -> bool {
    forall|i: int, j: int| 0 <= i < j < s.len() ==> s[i] < s[j]
}

/// Some rule in the list owns `id`.
pub open spec fn seq_has_id(rules: Seq<RuleView>, id: u64) -> bool {
    exists|t: int| 0 <= t < rules.len() && (#[trigger] rules[t]).role_id == id
}

/// `id` is managed by the group: some rule, activity or default, owns it.
pub open spec fn spec_managed_has(g: GuildRulesView, id: u64) -> bool {
    seq_has_id(g.spec_all_rules(), id)
}

/// `id` is desired for a subject with the given activities.
pub open spec fn spec_desired_has(g: GuildRulesView, user_acts: Seq<Seq<char>>, id: u64) -> bool {
    seq_has_id(g.spec_matching_rules(user_acts), id)
}

/// `id` must be added: desired but not among the held managed tags.
pub open spec fn spec_to_add_has(
    g: GuildRulesView,
    held: Seq<u64>,
    user_acts: Seq<Seq<char>>,
    id: u64,
) -> bool {
    spec_desired_has(g, user_acts, id) && !(held.contains(id) && spec_managed_has(g, id))
}

/// `id` must be removed: held and managed but no longer desired.
pub open spec fn spec_to_remove_has(
    g: GuildRulesView,
    held: Seq<u64>,
    user_acts: Seq<Seq<char>>,
    id: u64,
) -> bool {
    held.contains(id) && spec_managed_has(g, id) && !spec_desired_has(g, user_acts, id)
}

/// The reconciler's result: the tags to assign and the tags to revoke.
#[derive(Debug, PartialEq, Eq)]
pub struct RolesToChange {
    pub roles_to_add: Vec<u64>,
    pub roles_to_remove: Vec<u64>,
}

/// Linear membership test.
fn vec_contains_u64(v: &Vec<u64>, x: u64) -> (r: bool)
    ensures
        r == v@.contains(x),
{
    let mut i: usize = 0;
    while i < v.len()
        invariant
            0 <= i <= v@.len(),
            forall|t: int| 0 <= t < i ==> v@[t] != x,
        decreases v@.len() - i,
    {
        if v[i] == x {
            return true;
        }
        i += 1;
    }
    false
}

/// Inserts `x` into a strictly sorted list, keeping it sorted and
/// duplicate-free.
#[verifier::rlimit(30)]
fn insert_sorted_u64(v: &mut Vec<u64>, x: u64)
    requires
        sorted_strict(old(v)@),
    ensures
        sorted_strict(final(v)@),
        forall|id: u64| final(v)@.contains(id) <==> old(v)@.contains(id) || id == x,
{
    let ghost all = v@;
    let mut i: usize = 0;
    loop
        invariant
            0 <= i <= v@.len(),
            all == v@,
            sorted_strict(all),
            forall|t: int| 0 <= t < i ==> all[t] < x,
        ensures
            0 <= i <= all.len(),
            all == v@,
            forall|t: int| 0 <= t < i ==> all[t] < x,
            i < all.len() ==> all[i as int] >= x,
        decreases v@.len() - i,
    {
        if i == v.len() {
            break;
        }
        if v[i] >= x {
            break;
        }
        i += 1;
    }
    if i < v.len() && v[i] == x {
        proof {
            assert(all.contains(x));
        }
        return;
    }
    v.insert(i, x);
    proof {
        assert forall|id: u64| #[trigger] v@.contains(id) == (all.contains(id) || id == x) by {
            if v@.contains(id) {
                let t = choose|t: int| 0 <= t < v@.len() && v@[t] == id;
                if t < i {
                    assert(all[t] == id);
                } else if t > i {
                    assert(all[t - 1] == id);
                }
                assert(all.contains(id) || id == x);
            }
            if id == x {
                assert(v@[i as int] == x);
                assert(v@.contains(id));
            } else if all.contains(id) {
                let t = choose|t: int| 0 <= t < all.len() && all[t] == id;
                if t < i {
                    assert(v@[t] == id);
                } else {
                    assert(v@[t + 1] == id);
                }
                assert(v@.contains(id));
            }
        }
        assert forall|a: int, b: int| 0 <= a < b < v@.len() implies v@[a] < v@[b] by {
            if a < i && b == i {
            } else if a < i && b > i {
                assert(v@[b] == all[b - 1]);
                if b - 1 >= i {
                    if i < all.len() {
                        if b - 1 > i {
                            assert(all[i as int] < all[b - 1]);
                        }
                    }
                }
            } else if a == i && b > i {
                assert(v@[b] == all[b - 1]);
                if b - 1 > i {
                    assert(all[i as int] < all[b - 1]);
                }
            } else if a > i {
                assert(v@[a] == all[a - 1]);
                assert(v@[b] == all[b - 1]);
            }
        }
    }
}

/// The strictly sorted list of all role identifiers owned by the rules.
fn collect_rule_ids(rules: &Vec<Rule>) -> (ids: Vec<u64>)
    ensures
        sorted_strict(ids@),
        forall|id: u64| ids@.contains(id) <==> seq_has_id(rules.deep_view(), id),
{
    let mut ids: Vec<u64> = Vec::new();
    let mut i: usize = 0;
    while i < rules.len()
        invariant
            0 <= i <= rules@.len(),
            sorted_strict(ids@),
            forall|id: u64|
                ids@.contains(id) <==> seq_has_id(rules.deep_view().subrange(0, i as int), id),
        decreases rules@.len() - i,
    {
        proof {
            assert(rules.deep_view()[i as int] == rules@[i as int]@);
        }
        let ghost prev = ids@;
        insert_sorted_u64(&mut ids, rules[i].role_id);
        proof {
            let pre = rules.deep_view().subrange(0, i as int);
            let cur = rules.deep_view().subrange(0, i + 1);
            assert forall|id: u64| ids@.contains(id) implies seq_has_id(cur, id) by {
                if prev.contains(id) {
                    let t = choose|t: int| 0 <= t < pre.len() && pre[t].role_id == id;
                    assert(cur[t].role_id == id);
                } else {
                    assert(cur[i as int].role_id == id);
                }
            }
            assert forall|id: u64| seq_has_id(cur, id) implies ids@.contains(id) by {
                let t = choose|t: int| 0 <= t < cur.len() && cur[t].role_id == id;
                if t < i {
                    assert(pre[t].role_id == id);
                }
            }
        }
        i += 1;
    }
    proof {
        assert(rules.deep_view().subrange(0, rules.deep_view().len() as int) =~= rules.deep_view());
    }
    ids
}

/// Computes the tags to add and remove for one subject of one group.
///
/// `user_roles` holds the subject's current tags, `user_activities` the
/// names the subject is currently playing.  Only tags owned by some rule of
/// the group are touched; both result lists are strictly sorted.
pub fn roles_for_activity(
    guild_rules: GuildRules,
    user_roles: Vec<u64>,
    user_activities: Vec<String>,
) -> (r: Option<RolesToChange>)
    ensures
        r matches Some(out) && {
            &&& sorted_strict(out.roles_to_add@)
            &&& sorted_strict(out.roles_to_remove@)
            &&& forall|id: u64|
                out.roles_to_add@.contains(id) <==> spec_to_add_has(
                    guild_rules@,
                    user_roles@,
                    user_activities.deep_view(),
                    id,
                )
            &&& forall|id: u64|
                out.roles_to_remove@.contains(id) <==> spec_to_remove_has(
                    guild_rules@,
                    user_roles@,
                    user_activities.deep_view(),
                    id,
                )
        },
{
    let ghost g = guild_rules@;
    let ghost held = user_roles@;
    let ghost acts = user_activities.deep_view();

    let all = guild_rules.all_rules();
    let managed = collect_rule_ids(&all);
    let matching = guild_rules.matching_rules(user_activities);
    let desired = collect_rule_ids(&matching);

    // The subject's held tags, narrowed to the ones this group manages.
    let mut held_relevant: Vec<u64> = Vec::new();
    let mut i: usize = 0;
    while i < user_roles.len()
        invariant
            0 <= i <= user_roles@.len(),
            held == user_roles@,
            sorted_strict(held_relevant@),
            sorted_strict(managed@),
            forall|id: u64| managed@.contains(id) <==> spec_managed_has(g, id),
            forall|id: u64|
                #![trigger held_relevant@.contains(id)]
                #![trigger held.subrange(0, i as int).contains(id)]
                held_relevant@.contains(id) <==> held.subrange(0, i as int).contains(id)
                    && spec_managed_has(g, id),
        decreases user_roles@.len() - i,
    {
        let ghost pre = held.subrange(0, i as int);
        let ghost cur = held.subrange(0, i + 1);
        let ghost prev = held_relevant@;
        if vec_contains_u64(&managed, user_roles[i]) {
            insert_sorted_u64(&mut held_relevant, user_roles[i]);
            proof {
                assert(spec_managed_has(g, held[i as int]));
                assert forall|id: u64| held_relevant@.contains(id) implies cur.contains(id)
                    && spec_managed_has(g, id) by {
                    assert(prev.contains(id) || id == held[i as int]);
                    if prev.contains(id) {
                        assert(pre.contains(id));
                        let t = choose|t: int| 0 <= t < pre.len() && pre[t] == id;
                        assert(cur[t] == id);
                    } else {
                        assert(cur[i as int] == id);
                    }
                }
                assert forall|id: u64| cur.contains(id) && spec_managed_has(g, id) implies
                    held_relevant@.contains(id) by {
                    let t = choose|t: int| 0 <= t < cur.len() && cur[t] == id;
                    if t < i {
                        assert(pre[t] == id);
                    }
                }
            }
        } else {
            proof {
                assert forall|id: u64| held_relevant@.contains(id) implies cur.contains(id)
                    && spec_managed_has(g, id) by {
                    let t = choose|t: int| 0 <= t < pre.len() && pre[t] == id;
                    assert(cur[t] == id);
                }
                assert forall|id: u64| cur.contains(id) && spec_managed_has(g, id) implies
                    held_relevant@.contains(id) by {
                    let t = choose|t: int| 0 <= t < cur.len() && cur[t] == id;
                    assert(t < i);
                    assert(pre[t] == id);
                }
            }
        }
        i += 1;
    }
    proof {
        assert(held.subrange(0, held.len() as int) =~= held);
    }

    // Desired tags not yet held.
    let mut roles_to_add: Vec<u64> = Vec::new();
    let mut i: usize = 0;
    while i < desired.len()
        invariant
            0 <= i <= desired@.len(),
            sorted_strict(desired@),
            sorted_strict(roles_to_add@),
            forall|id: u64| desired@.contains(id) <==> spec_desired_has(g, acts, id),
            forall|id: u64| held_relevant@.contains(id) <==> held.contains(id) && spec_managed_has(g, id),
            forall|id: u64|
                roles_to_add@.contains(id) <==> desired@.subrange(0, i as int).contains(id)
                    && !held_relevant@.contains(id),
        decreases desired@.len() - i,
    {
        let ghost pre = desired@.subrange(0, i as int);
        let ghost cur = desired@.subrange(0, i + 1);
        let ghost prev = roles_to_add@;
        if !vec_contains_u64(&held_relevant, desired[i]) {
            proof {
                assert forall|j: int| 0 <= j < roles_to_add@.len() implies roles_to_add@[j]
                    < desired@[i as int] by {
                    assert(roles_to_add@.contains(roles_to_add@[j]));
                    assert(pre.contains(roles_to_add@[j]));
                    let t = choose|t: int| 0 <= t < pre.len() && pre[t] == roles_to_add@[j];
                    assert(desired@[t] == roles_to_add@[j]);
                }
            }
            roles_to_add.push(desired[i]);
            proof {
                assert forall|id: u64| roles_to_add@.contains(id) implies cur.contains(id)
                    && !held_relevant@.contains(id) by {
                    if prev.contains(id) {
                        let t = choose|t: int| 0 <= t < pre.len() && pre[t] == id;
                        assert(cur[t] == id);
                    } else {
                        assert(roles_to_add@.last() == id);
                        assert(cur[i as int] == id);
                    }
                }
                assert forall|id: u64| cur.contains(id) && !held_relevant@.contains(id) implies
                    roles_to_add@.contains(id) by {
                    let t = choose|t: int| 0 <= t < cur.len() && cur[t] == id;
                    if t < i {
                        assert(pre[t] == id);
                        assert(prev.contains(id));
                        let u = choose|u: int| 0 <= u < prev.len() && prev[u] == id;
                        assert(roles_to_add@[u] == id);
                    } else {
                        assert(roles_to_add@.last() == id);
                    }
                }
            }
        } else {
            proof {
                assert forall|id: u64| roles_to_add@.contains(id) implies cur.contains(id)
                    && !held_relevant@.contains(id) by {
                    let t = choose|t: int| 0 <= t < pre.len() && pre[t] == id;
                    assert(cur[t] == id);
                }
                assert forall|id: u64| cur.contains(id) && !held_relevant@.contains(id) implies
                    roles_to_add@.contains(id) by {
                    let t = choose|t: int| 0 <= t < cur.len() && cur[t] == id;
                    assert(t < i);
                    assert(pre[t] == id);
                }
            }
        }
        i += 1;
    }
    proof {
        assert(desired@.subrange(0, desired@.len() as int) =~= desired@);
    }

    // Held managed tags no longer desired.
    let mut roles_to_remove: Vec<u64> = Vec::new();
    let mut i: usize = 0;
    while i < held_relevant.len()
        invariant
            0 <= i <= held_relevant@.len(),
            sorted_strict(held_relevant@),
            sorted_strict(roles_to_remove@),
            forall|id: u64| desired@.contains(id) <==> spec_desired_has(g, acts, id),
            forall|id: u64| held_relevant@.contains(id) <==> held.contains(id) && spec_managed_has(g, id),
            forall|id: u64|
                roles_to_remove@.contains(id) <==> held_relevant@.subrange(0, i as int).contains(id)
                    && !desired@.contains(id),
        decreases held_relevant@.len() - i,
    {
        let ghost pre = held_relevant@.subrange(0, i as int);
        let ghost cur = held_relevant@.subrange(0, i + 1);
        let ghost prev = roles_to_remove@;
        if !vec_contains_u64(&desired, held_relevant[i]) {
            proof {
                assert forall|j: int| 0 <= j < roles_to_remove@.len() implies roles_to_remove@[j]
                    < held_relevant@[i as int] by {
                    assert(roles_to_remove@.contains(roles_to_remove@[j]));
                    assert(pre.contains(roles_to_remove@[j]));
                    let t = choose|t: int| 0 <= t < pre.len() && pre[t] == roles_to_remove@[j];
                    assert(held_relevant@[t] == roles_to_remove@[j]);
                }
            }
            roles_to_remove.push(held_relevant[i]);
            proof {
                assert forall|id: u64| roles_to_remove@.contains(id) implies cur.contains(id)
                    && !desired@.contains(id) by {
                    if prev.contains(id) {
                        let t = choose|t: int| 0 <= t < pre.len() && pre[t] == id;
                        assert(cur[t] == id);
                    } else {
                        assert(roles_to_remove@.last() == id);
                        assert(cur[i as int] == id);
                    }
                }
                assert forall|id: u64| cur.contains(id) && !desired@.contains(id) implies
                    roles_to_remove@.contains(id) by {
                    let t = choose|t: int| 0 <= t < cur.len() && cur[t] == id;
                    if t < i {
                        assert(pre[t] == id);
                        assert(prev.contains(id));
                        let u = choose|u: int| 0 <= u < prev.len() && prev[u] == id;
                        assert(roles_to_remove@[u] == id);
                    } else {
                        assert(roles_to_remove@.last() == id);
                    }
                }
            }
        } else {
            proof {
                assert forall|id: u64| roles_to_remove@.contains(id) implies cur.contains(id)
                    && !desired@.contains(id) by {
                    let t = choose|t: int| 0 <= t < pre.len() && pre[t] == id;
                    assert(cur[t] == id);
                }
                assert forall|id: u64| cur.contains(id) && !desired@.contains(id) implies
                    roles_to_remove@.contains(id) by {
                    let t = choose|t: int| 0 <= t < cur.len() && cur[t] == id;
                    assert(t < i);
                    assert(pre[t] == id);
                }
            }
        }
        i += 1;
    }
    proof {
        assert(held_relevant@.subrange(0, held_relevant@.len() as int) =~= held_relevant@);
    }

    Some(RolesToChange { roles_to_add, roles_to_remove })
}


/// What a subject can be doing; only `Playing` drives activity rules.
#[derive(Debug, Clone, Copy, PartialEq, Eq, Structural)]
pub enum ActivityKind {
    Playing,
    Streaming,
    Listening,
    Watching,
    Custom,
    Competing,
}

/// The mathematical content of a [`PresenceActivity`].
pub struct PresenceActivityView {
    pub kind: ActivityKind,
    pub name: Seq<char>,
}

/// One transient activity carried by a presence event.
#[derive(Debug, PartialEq, Eq)]
pub struct PresenceActivity {
    pub kind: ActivityKind,
    pub name: String,
}

impl View for PresenceActivity {
    type V = PresenceActivityView;

    open spec fn view(&self) -> PresenceActivityView {
        PresenceActivityView { kind: self.kind, name: self.name@ }
    }
}

impl DeepView for PresenceActivity {
    type V = PresenceActivityView;

    open spec fn deep_view(&self) -> PresenceActivityView {
        self.view()
    }
}

/// The distinct names of the activities being played, in order of first
/// occurrence.
pub open spec fn spec_user_activities(acts: Seq<PresenceActivityView>) -> Seq<Seq<char>>
    decreases acts.len(),
{
    if acts.len() == 0 {
        Seq::empty()
    } else {
        let p = spec_user_activities(acts.drop_last());
        let a = acts.last();
        if a.kind is Playing && !p.contains(a.name) {
            p.push(a.name)
        } else {
            p
        }
    }
}

/// Linear membership test on string contents.
fn vec_contains_str(v: &Vec<String>, s: &str) -> (r: bool)
    ensures
        r == v.deep_view().contains(s@),
{
    let mut i: usize = 0;
    while i < v.len()
        invariant
            0 <= i <= v@.len(),
            forall|t: int| 0 <= t < i ==> v.deep_view()[t] != s@,
        decreases v@.len() - i,
    {
        proof {
            assert(v.deep_view()[i as int] == v@[i as int]@);
        }
        if str_eq(v[i].as_str(), s) {
            proof {
                assert(v.deep_view()[i as int] == s@);
            }
            return true;
        }
        i += 1;
    }
    proof {
        assert(v.deep_view().len() == v@.len());
    }
    false
}

/// Extracts the distinct names of the currently played activities from a
/// presence event's activity list.
pub fn user_activities_from_presence(activities: &Vec<PresenceActivity>) -> (r: Vec<String>)
    ensures
        r.deep_view() == spec_user_activities(activities.deep_view()),
{
    let mut r: Vec<String> = Vec::new();
    let mut i: usize = 0;
    while i < activities.len()
        invariant
            0 <= i <= activities@.len(),
            r.deep_view() == spec_user_activities(activities.deep_view().subrange(0, i as int)),
        decreases activities@.len() - i,
    {
        proof {
            assert(activities.deep_view()[i as int] == activities@[i as int]@);
            assert(r.deep_view().len() == r@.len());
        }
        let ghost pre = activities.deep_view().subrange(0, i as int);
        let ghost cur = activities.deep_view().subrange(0, i + 1);
        let ghost prev = r.deep_view();
        let a = &activities[i];
        if a.kind == ActivityKind::Playing && !vec_contains_str(&r, a.name.as_str()) {
            r.push(a.name.clone());
            proof {
                assert forall|j: int| 0 <= j < prev.len() implies r.deep_view()[j] == prev[j] by {}
                assert(r.deep_view() =~= prev.push(activities@[i as int]@.name));
            }
        }
        proof {
            assert(cur.drop_last() =~= pre);
            assert(cur.last() == activities.deep_view()[i as int]);
            assert(r.deep_view() == spec_user_activities(cur));
        }
        i += 1;
    }
    proof {
        assert(activities.deep_view().subrange(0, activities.deep_view().len() as int)
            =~= activities.deep_view());
    }
    r
}

/// One mutating call against the external platform.
#[derive(Debug, Clone, Copy, PartialEq, Eq, Structural)]
pub enum TagOp {
    /// Assign the tag to the subject.
    Assign(u64),
    /// Revoke the tag from the subject.
    Revoke(u64),
}

/// Lays out the applier's calls: every assignment first, then every
/// revocation, each list in its given order.  The two phases never name the
/// same tag because the reconciler's sets are disjoint.
pub fn apply_plan(changes: &RolesToChange) -> (plan: Vec<TagOp>)
    ensures
        plan@.len() == changes.roles_to_add@.len() + changes.roles_to_remove@.len(),
        forall|t: int|
            0 <= t < changes.roles_to_add@.len() ==> plan@[t] == TagOp::Assign(
                changes.roles_to_add@[t],
            ),
        forall|t: int|
            0 <= t < changes.roles_to_remove@.len() ==> plan@[changes.roles_to_add@.len() + t]
                == TagOp::Revoke(changes.roles_to_remove@[t]),
{
    let mut plan: Vec<TagOp> = Vec::new();
    let mut i: usize = 0;
    while i < changes.roles_to_add.len()
        invariant
            0 <= i <= changes.roles_to_add@.len(),
            plan@.len() == i,
            forall|t: int|
                0 <= t < i ==> plan@[t] == TagOp::Assign(changes.roles_to_add@[t]),
        decreases changes.roles_to_add@.len() - i,
    {
        plan.push(TagOp::Assign(changes.roles_to_add[i]));
        i += 1;
    }
    let mut j: usize = 0;
    while j < changes.roles_to_remove.len()
        invariant
            0 <= j <= changes.roles_to_remove@.len(),
            plan@.len() == changes.roles_to_add@.len() + j,
            forall|t: int|
                0 <= t < changes.roles_to_add@.len() ==> plan@[t] == TagOp::Assign(
                    changes.roles_to_add@[t],
                ),
            forall|t: int|
                0 <= t < j ==> plan@[changes.roles_to_add@.len() + t] == TagOp::Revoke(
                    changes.roles_to_remove@[t],
                ),
        decreases changes.roles_to_remove@.len() - j,
    {
        plan.push(TagOp::Revoke(changes.roles_to_remove[j]));
        j += 1;
    }
    plan
}

/// Every tag of a matched rule is the tag of some rule in the list.
proof fn lemma_matched_subset(rules: Seq<RuleView>, user_acts: Seq<Seq<char>>, id: u64)
    requires
        seq_has_id(crate::rules::spec_matched_rules(rules, user_acts), id),
    ensures
        seq_has_id(rules, id),
    decreases rules.len(),
{
    let matched = crate::rules::spec_matched_rules(rules, user_acts);
    if rules.len() == 0 {
    } else {
        let p = crate::rules::spec_matched_rules(rules.drop_last(), user_acts);
        let t = choose|t: int| 0 <= t < matched.len() && matched[t].role_id == id;
        if t < p.len() {
            assert(p[t].role_id == id);
            lemma_matched_subset(rules.drop_last(), user_acts, id);
            let u = choose|u: int| 0 <= u < rules.drop_last().len() && rules.drop_last()[u].role_id
                == id;
            assert(rules[u].role_id == id);
        } else {
            assert(matched[t] == rules.last());
            assert(rules[rules.len() - 1].role_id == id);
        }
    }
}

/// A desired tag is always a managed tag.
pub proof fn lemma_desired_is_managed(g: GuildRulesView, user_acts: Seq<Seq<char>>, id: u64)
    requires
        spec_desired_has(g, user_acts, id),
    ensures
        spec_managed_has(g, id),
{
    let matching = g.spec_matching_rules(user_acts);
    let matched = crate::rules::spec_matched_rules(g.activities_rules, user_acts);
    if user_acts.len() == 0 {
        let t = choose|t: int| 0 <= t < matching.len() && matching[t].role_id == id;
    } else if matched.len() > 0 {
        lemma_matched_subset(g.activities_rules, user_acts, id);
        let u = choose|u: int| 0 <= u < g.activities_rules.len() && g.activities_rules[u].role_id
            == id;
        assert(g.spec_all_rules()[g.spec_default_rules().len() + u].role_id == id);
    } else {
        let t = choose|t: int| 0 <= t < matching.len() && matching[t].role_id == id;
        assert(g.spec_all_rules()[0].role_id == id);
    }
}

/// Applying the reconciler's own output leaves nothing more to do: when the
/// held tags are exactly the desired tags, both deltas are empty.
pub proof fn lemma_reconcile_idempotent(g: GuildRulesView, held: Seq<u64>, user_acts: Seq<Seq<char>>)
    requires
        forall|id: u64| #[trigger] held.contains(id) <==> spec_desired_has(g, user_acts, id),
    ensures
        forall|id: u64| !spec_to_add_has(g, held, user_acts, id),
        forall|id: u64| !spec_to_remove_has(g, held, user_acts, id),
{
    assert forall|id: u64| !spec_to_add_has(g, held, user_acts, id) by {
        if spec_desired_has(g, user_acts, id) {
            lemma_desired_is_managed(g, user_acts, id);
        }
    }
    assert forall|id: u64| !spec_to_remove_has(g, held, user_acts, id) by {}
}

/// No tag is ever both added and removed.
pub proof fn lemma_delta_disjoint(
    g: GuildRulesView,
    held: Seq<u64>,
    user_acts: Seq<Seq<char>>,
    id: u64,
)
    ensures
        !(spec_to_add_has(g, held, user_acts, id) && spec_to_remove_has(g, held, user_acts, id)),
{
}

/// A tag no rule of the group owns is never touched, held or not.
pub proof fn lemma_unmanaged_untouched(
    g: GuildRulesView,
    held: Seq<u64>,
    user_acts: Seq<Seq<char>>,
    id: u64,
)
    requires
        !spec_managed_has(g, id),
    ensures
        !spec_to_add_has(g, held, user_acts, id),
        !spec_to_remove_has(g, held, user_acts, id),
{
    if spec_desired_has(g, user_acts, id) {
        lemma_desired_is_managed(g, user_acts, id);
    }
}

/// Without activities nothing is desired: the delta only ever removes
/// previously held managed tags, it never adds one.
pub proof fn lemma_empty_activities_adds_nothing(
    g: GuildRulesView,
    held: Seq<u64>,
    user_acts: Seq<Seq<char>>,
)
    requires
        user_acts.len() == 0,
    ensures
        forall|id: u64| !spec_to_add_has(g, held, user_acts, id),
{
    assert forall|id: u64| !spec_to_add_has(g, held, user_acts, id) by {
        if spec_desired_has(g, user_acts, id) {
            let matching = g.spec_matching_rules(user_acts);
            let t = choose|t: int| 0 <= t < matching.len() && matching[t].role_id == id;
        }
    }
}

/// When no rule matches, nothing is matched.
proof fn lemma_no_match_matched_empty(rules: Seq<RuleView>, user_acts: Seq<Seq<char>>)
    requires
        forall|t: int| 0 <= t < rules.len() ==> !(#[trigger] rules[t]).matches(user_acts),
    ensures
        crate::rules::spec_matched_rules(rules, user_acts).len() == 0,
    decreases rules.len(),
{
    if rules.len() > 0 {
        lemma_no_match_matched_empty(rules.drop_last(), user_acts);
        assert(!rules[rules.len() - 1].matches(user_acts));
    }
}

/// The default fallback: with activities present, no activity rule matching
/// and a default rule owning `r_id`, the only tag ever added is `r_id`, and
/// it is added exactly when it is not already held.
pub proof fn lemma_default_fallback(
    g: GuildRulesView,
    held: Seq<u64>,
    user_acts: Seq<Seq<char>>,
    r_id: u64,
)
    requires
        user_acts.len() > 0,
        forall|t: int|
            0 <= t < g.activities_rules.len() ==> !(#[trigger] g.activities_rules[t]).matches(
                user_acts,
            ),
        g.default_rule matches Some(d) && d.role_id == r_id,
    ensures
        spec_to_add_has(g, held, user_acts, r_id) <==> !held.contains(r_id),
        forall|id: u64| id != r_id ==> !spec_to_add_has(g, held, user_acts, id),
        !spec_to_remove_has(g, held, user_acts, r_id),
{
    lemma_no_match_matched_empty(g.activities_rules, user_acts);
    let matching = g.spec_matching_rules(user_acts);
    assert(matching =~= g.spec_default_rules());
    assert(matching[0].role_id == r_id);
    assert(spec_desired_has(g, user_acts, r_id));
    assert(g.spec_all_rules()[0].role_id == r_id);
    assert(spec_managed_has(g, r_id));
    assert forall|id: u64| id != r_id implies !spec_to_add_has(g, held, user_acts, id) by {
        if spec_desired_has(g, user_acts, id) {
            let t = choose|t: int| 0 <= t < matching.len() && matching[t].role_id == id;
        }
    }
}


} // verus!
