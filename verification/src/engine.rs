//! The combat engine: initiative rolling, round-by-round turn resolution,
//! and win or loss determination for a heroes-versus-monsters encounter.

use vstd::prelude::*;
use crate::combat::action::{
    is_valid_spec, lemma_targets_upto_elems, lemma_targets_upto_nonempty, target_pool, Action,
    ActionResult,
};
use crate::combat::actor::{Character, InitiativeEntry};
use crate::combat::log::ActivityLog;
use crate::rng::{rand_u64, shuffle_entries};
use crate::team::Team;

verus! {

/// Whether an initiative entry names an existing roster slot.
pub open spec fn entry_ok(e: InitiativeEntry, nh: int, nm: int) -> bool {
    match e.team {
        Team::Heroes => e.index < nh,
        Team::Monsters => e.index < nm,
    }
}

/// A well-formed initiative order: every entry names an existing slot and no
/// slot acts twice.
pub open spec fn order_wf(s: Seq<InitiativeEntry>, nh: int, nm: int) -> bool {
    &&& forall|i: int| 0 <= i < s.len() ==> entry_ok(#[trigger] s[i], nh, nm)
    &&& forall|i: int, j: int| 0 <= i < j < s.len() ==> !((#[trigger] s[i]).team == (
    #[trigger] s[j]).team && s[i].index == s[j].index)
}

/// The entry's recorded initiative is a d20 plus its combatant's bonus.
pub open spec fn entry_initiative_ok(
    e: InitiativeEntry,
    heroes: Seq<Character>,
    monsters: Seq<Character>,
) -> bool {
    match e.team {
        Team::Heroes => e.index < heroes.len() && heroes[e.index as int].initiative_bonus + 1
            <= e.initiative <= heroes[e.index as int].initiative_bonus + 20,
        Team::Monsters => e.index < monsters.len() && monsters[e.index as int].initiative_bonus + 1
            <= e.initiative <= monsters[e.index as int].initiative_bonus + 20,
    }
}

/// Some entry of the order names the given roster slot.
pub open spec fn has_slot(s: Seq<InitiativeEntry>, t: Team, x: int) -> bool {
    exists|i: int| 0 <= i < s.len() && (#[trigger] s[i]).team == t && s[i].index == x
}

/// Every roster slot appears in the order.
pub open spec fn order_complete(s: Seq<InitiativeEntry>, nh: int, nm: int) -> bool {
    &&& forall|x: int| 0 <= x < nh ==> #[trigger] has_slot(s, Team::Heroes, x)
    &&& forall|x: int| 0 <= x < nm ==> #[trigger] has_slot(s, Team::Monsters, x)
}

pub open spec fn chars_wf(s: Seq<Character>) -> bool {
    forall|i: int| 0 <= i < s.len() ==> (#[trigger] s[i]).wf()
}

/// Every combatant of a roster carries that roster's team.
pub open spec fn side_teams(s: Seq<Character>, t: Team) -> bool {
    forall|i: int| 0 <= i < s.len() ==> (#[trigger] s[i]).team == t
}

/// The second roster keeps the first's identities: same length and, slot by
/// slot, the same name, team, armor class and maximum hit points, with hit
/// points within bounds.
pub open spec fn roster_stable(a: Seq<Character>, b: Seq<Character>) -> bool {
    &&& b.len() == a.len()
    &&& forall|i: int| 0 <= i < a.len() ==> {
        &&& (#[trigger] b[i]).name@ == a[i].name@
        &&& b[i].team == a[i].team
        &&& b[i].max_hp == a[i].max_hp
        &&& b[i].ac == a[i].ac
    }
}

pub open spec fn all_down(s: Seq<Character>) -> bool {
    forall|i: int| 0 <= i < s.len() ==> (#[trigger] s[i]).current_hp == 0
}

/// Whether the heroes have won: the encounter has ended and some hero
/// stands.
pub open spec fn heroes_won_spec(c: Combat) -> bool {
    !c.ongoing_spec() && !all_down(c.heroes@)
}

/// The roster a team's entries index into.
pub open spec fn roster_of(c: Combat, t: Team) -> Seq<Character> {
    match t {
        Team::Heroes => c.heroes@,
        Team::Monsters => c.monsters@,
    }
}

/// What one action pass reads and writes of an encounter: the two rosters
/// and the knockout log. The round counter, debug state and initiative
/// order stand outside it.
pub struct RoundState {
    pub heroes: Seq<Character>,
    pub monsters: Seq<Character>,
    pub knockouts: Seq<InitiativeEntry>,
}

pub open spec fn state_of(c: Combat) -> RoundState {
    RoundState { heroes: c.heroes@, monsters: c.monsters@, knockouts: c.knockouts@ }
}

pub open spec fn state_roster(s: RoundState, t: Team) -> Seq<Character> {
    match t {
        Team::Heroes => s.heroes,
        Team::Monsters => s.monsters,
    }
}

/// The opposing team.
pub open spec fn foe_of(t: Team) -> Team {
    match t {
        Team::Heroes => Team::Monsters,
        Team::Monsters => Team::Heroes,
    }
}

/// What resolving a heal between two roster slots promises: the actor slot
/// keeps its identity, actions (observably) and conditions; the target slot
/// is healed and the actor's resources spent per the heal contract; healing
/// another slot leaves the actor's hit points alone.
pub open spec fn heal_slot_outcome(
    olds: RoundState,
    news: RoundState,
    actor_entry: InitiativeEntry,
    target_entry: InitiativeEntry,
    r: ActionResult,
    healing: crate::dice::pool::DicePool,
    rs: Seq<(crate::combat::actor::ResourceType, u64)>,
) -> bool {
    let old_actor = state_roster(olds, actor_entry.team)[actor_entry.index as int];
    let new_actor = state_roster(news, actor_entry.team)[actor_entry.index as int];
    let old_target = state_roster(olds, target_entry.team)[target_entry.index as int];
    let new_target = state_roster(news, target_entry.team)[target_entry.index as int];
    &&& crate::combat::actor::heal_ensures(
        old_actor,
        new_actor,
        old_target,
        new_target,
        r,
        healing,
        rs,
    )
    &&& new_actor.name@ == old_actor.name@
    &&& new_actor.team == old_actor.team
    &&& new_actor.max_hp == old_actor.max_hp
    &&& new_actor.ac == old_actor.ac
    &&& new_actor.initiative_bonus == old_actor.initiative_bonus
    &&& new_actor.actions@.len() == old_actor.actions@.len()
    &&& (forall|p: int| 0 <= p < old_actor.actions@.len() ==> crate::combat::action::action_like(
        old_actor.actions@[p],
        #[trigger] new_actor.actions@[p],
    ))
    &&& (!(actor_entry.team == target_entry.team && actor_entry.index == target_entry.index)
        ==> new_actor.current_hp == old_actor.current_hp)
}

/// What resolving one action between two roster slots promises, as a
/// relation on round states: the result matches the action's variant; the
/// target slot's hit points move exactly by the result; an attack leaves the
/// actor untouched and respects armor class and the damage pool's range; a
/// heal spends the actor's resources all-or-nothing and heals up to the cap;
/// every other slot and everyone's conditions are untouched; and the
/// knockout log gains the target exactly when it ends at zero.
pub open spec fn resolution_ok(
    pre: RoundState,
    post: RoundState,
    actor_entry: InitiativeEntry,
    action: Action,
    target_entry: InitiativeEntry,
    r: ActionResult,
) -> bool {
    &&& entry_ok(actor_entry, pre.heroes.len() as int, pre.monsters.len() as int)
    &&& entry_ok(target_entry, pre.heroes.len() as int, pre.monsters.len() as int)
    &&& ((action matches Action::Attack { .. }) ==> actor_entry.team != target_entry.team)
    &&& post.heroes.len() == pre.heroes.len()
    &&& post.monsters.len() == pre.monsters.len()
    &&& (forall|t: Team, i: int|
        0 <= i < state_roster(pre, t).len() && !(t == actor_entry.team && i == actor_entry.index)
            && !(t == target_entry.team && i == target_entry.index)
            ==> #[trigger] state_roster(post, t)[i] == state_roster(pre, t)[i])
    &&& (forall|t: Team, i: int| 0 <= i < state_roster(pre, t).len()
        ==> crate::combat::conditions::conds_view(
        (#[trigger] state_roster(post, t)[i]).active_conditions@,
    ) == crate::combat::conditions::conds_view(state_roster(pre, t)[i].active_conditions@))
    &&& (match action {
        Action::Attack { hit_bonus, damage, .. } => {
            let oldt = state_roster(pre, target_entry.team)[target_entry.index as int];
            let newt = state_roster(post, target_entry.team)[target_entry.index as int];
            &&& state_roster(post, actor_entry.team)[actor_entry.index as int] == state_roster(
                pre,
                actor_entry.team,
            )[actor_entry.index as int]
            &&& (match r {
                ActionResult::Attack { hit, damage: dealt } => {
                    &&& newt.current_hp == crate::combat::actor::damage_applied(
                        oldt.current_hp,
                        dealt,
                    )
                    &&& (hit is Miss ==> dealt == 0)
                    &&& (oldt.ac as int <= 1 + hit_bonus ==> !(hit is Miss))
                    &&& (hit is Hit ==> oldt.ac as int <= 20 + hit_bonus)
                    &&& (hit is Hit ==> crate::combat::actor::clamp0(damage.min_total()) <= dealt
                        as int <= crate::combat::actor::clamp0(damage.max_total()))
                    &&& (hit is Critical ==> crate::combat::actor::clamp0(
                        2 * crate::dice::pool::dice_min_sum(damage.dice@) + damage.modifier,
                    ) <= dealt as int <= crate::combat::actor::clamp0(
                        2 * crate::dice::pool::dice_max_sum(damage.dice@) + damage.modifier,
                    ))
                },
                _ => false,
            })
        },
        Action::Heal { healing, required_resources, .. } => heal_slot_outcome(
            pre,
            post,
            actor_entry,
            target_entry,
            r,
            healing,
            required_resources@,
        ),
        Action::SecondWind { healing, required_resources } => heal_slot_outcome(
            pre,
            post,
            actor_entry,
            target_entry,
            r,
            healing,
            required_resources@,
        ),
    })
    &&& ((state_roster(post, target_entry.team)[target_entry.index as int].current_hp == 0)
        ==> post.knockouts == pre.knockouts.push(target_entry))
    &&& ((state_roster(post, target_entry.team)[target_entry.index as int].current_hp != 0)
        ==> post.knockouts == pre.knockouts)
}

/// No listed action of the combatant is valid now.
pub open spec fn no_valid_action(
    actor: Character,
    allies: Seq<Character>,
    enemies: Seq<Character>,
) -> bool {
    forall|p: int| 0 <= p < actor.actions@.len() ==> !crate::combat::action::is_valid_spec(
        #[trigger] actor.actions@[p],
        actor,
        allies,
        enemies,
    )
}

/// What one resolved turn records: the action taken (observably one of the
/// actor's), the chosen target, and the result.
pub struct TurnStep {
    pub action: Action,
    pub target: InitiativeEntry,
    pub result: ActionResult,
}

/// One slot's turn: a combatant at zero hit points, or one with no valid
/// action, changes nothing; otherwise exactly one action — observably one of
/// the actor's list and valid now — is resolved against one of its legal
/// targets, per `resolution_ok`.
pub open spec fn turn_ok(
    pre: RoundState,
    post: RoundState,
    entry: InitiativeEntry,
    step: Option<TurnStep>,
) -> bool {
    &&& entry_ok(entry, pre.heroes.len() as int, pre.monsters.len() as int)
    &&& (match step {
        Option::None => {
            let actor = state_roster(pre, entry.team)[entry.index as int];
            &&& post == pre
            &&& (actor.current_hp > 0 ==> actor.blocked_spec() || no_valid_action(
                actor,
                state_roster(pre, entry.team),
                state_roster(pre, foe_of(entry.team)),
            ))
        },
        Option::Some(ts) => {
            let actor = state_roster(pre, entry.team)[entry.index as int];
            let allies = state_roster(pre, entry.team);
            let enemies = state_roster(pre, foe_of(entry.team));
            &&& actor.current_hp > 0
            &&& !actor.blocked_spec()
            &&& ts.action.wf()
            &&& (exists|p: int| 0 <= p < actor.actions@.len()
                && crate::combat::action::action_like(#[trigger] actor.actions@[p], ts.action))
            &&& crate::combat::action::is_valid_spec(ts.action, actor, allies, enemies)
            &&& crate::combat::action::is_target(
                ts.action,
                actor,
                allies,
                enemies,
                ts.target.index as int,
            )
            &&& ts.target.team == crate::combat::action::target_pool(
                ts.action,
                allies,
                enemies,
            )[ts.target.index as int].team
            &&& resolution_ok(pre, post, entry, ts.action, ts.target, ts.result)
        },
    })
}

/// The action pass of a round: one state per moment between turns, each
/// initiative slot's turn linking one state to the next per `turn_ok`.
pub open spec fn turns_chained(
    order: Seq<InitiativeEntry>,
    states: Seq<RoundState>,
    steps: Seq<Option<TurnStep>>,
) -> bool {
    &&& states.len() == steps.len() + 1
    &&& forall|q: int| 0 <= q < steps.len() ==> turn_ok(
        states[q],
        states[q + 1],
        order[q],
        #[trigger] steps[q],
    )
}

/// The second combatant is the first with one end-of-turn decay applied when
/// `acted` holds, and otherwise the same, up to observably identical
/// actions.
pub open spec fn same_but_decayed(a: Character, b: Character, acted: bool) -> bool {
    &&& b.name@ == a.name@
    &&& b.team == a.team
    &&& b.current_hp == a.current_hp
    &&& b.max_hp == a.max_hp
    &&& b.ac == a.ac
    &&& b.initiative_bonus == a.initiative_bonus
    &&& b.resources.entries@ == a.resources.entries@
    &&& b.actions@.len() == a.actions@.len()
    &&& (forall|p: int| 0 <= p < a.actions@.len() ==> crate::combat::action::action_like(
        a.actions@[p],
        #[trigger] b.actions@[p],
    ))
    &&& crate::combat::conditions::conds_view(b.active_conditions@) == (if acted {
        crate::combat::actor::decay_upto(
            crate::combat::conditions::conds_view(a.active_conditions@),
            a.active_conditions@.len() as int,
        )
    } else {
        crate::combat::conditions::conds_view(a.active_conditions@)
    })
}

/// The decay phase of a round: exactly the acted slots' conditions lose one
/// round, nothing else changes.
pub open spec fn decay_phase_ok(
    pre: RoundState,
    post: RoundState,
    acted: Seq<InitiativeEntry>,
) -> bool {
    &&& post.knockouts == pre.knockouts
    &&& post.heroes.len() == pre.heroes.len()
    &&& post.monsters.len() == pre.monsters.len()
    &&& forall|t: Team, i: int| 0 <= i < state_roster(pre, t).len() ==> same_but_decayed(
        state_roster(pre, t)[i],
        #[trigger] state_roster(post, t)[i],
        has_slot(acted, t, i),
    )
}

/// A team-versus-team encounter: the two rosters, the fixed initiative
/// order, the round counter, and the optional debug log. `knockouts`
/// records, in order, each combatant that was brought to zero hit points.
#[derive(Debug)]
pub struct Combat {
    pub heroes: Vec<Character>,
    pub monsters: Vec<Character>,
    pub initiative_order: Vec<InitiativeEntry>,
    pub round: usize,
    pub debug_mode: bool,
    pub debug_log: Vec<ActivityLog>,
    pub knockouts: Vec<InitiativeEntry>,
    pub last_acted: Vec<InitiativeEntry>,
}

impl Combat {
    /// Both rosters well formed and the initiative order consistent with
    /// them.
    pub open spec fn wf(&self) -> bool {
        &&& chars_wf(self.heroes@)
        &&& chars_wf(self.monsters@)
        &&& side_teams(self.heroes@, Team::Heroes)
        &&& side_teams(self.monsters@, Team::Monsters)
        &&& order_wf(self.initiative_order@, self.heroes@.len() as int, self.monsters@.len() as int)
    }

    /// Neither side is fully at zero hit points.
    pub open spec fn ongoing_spec(&self) -> bool {
        !(all_down(self.heroes@) || all_down(self.monsters@))
    }

    pub fn new(heroes: Vec<Character>, monsters: Vec<Character>) -> (r: Combat)
        ensures
            r.heroes@ == heroes@,
            r.monsters@ == monsters@,
            r.initiative_order@ == Seq::<InitiativeEntry>::empty(),
            r.round == 1,
            !r.debug_mode,
            r.debug_log@.len() == 0,
            r.knockouts@.len() == 0,
            r.last_acted@.len() == 0,
            (chars_wf(heroes@) && chars_wf(monsters@) && side_teams(heroes@, Team::Heroes)
                && side_teams(monsters@, Team::Monsters)) ==> r.wf(),
    {
        Combat {
            heroes,
            monsters,
            initiative_order: Vec::new(),
            round: 1,
            debug_mode: false,
            debug_log: Vec::new(),
            knockouts: Vec::new(),
            last_acted: Vec::new(),
        }
    }

    pub fn debug(&mut self, val: bool)
        ensures
            final(self).debug_mode == val,
            final(self).heroes@ == old(self).heroes@,
            final(self).monsters@ == old(self).monsters@,
            final(self).initiative_order@ == old(self).initiative_order@,
            final(self).round == old(self).round,
            final(self).debug_log@ == old(self).debug_log@,
            final(self).knockouts@ == old(self).knockouts@,
            final(self).last_acted@ == old(self).last_acted@,
            old(self).wf() ==> final(self).wf(),
    {
        self.debug_mode = val;
    }

    /// Fixes the initiative order for the whole encounter: every combatant
    /// gets exactly one entry carrying its rolled initiative (a d20 plus its
    /// bonus), and the entries are ordered by a uniform random permutation.
    pub fn roll_initiative(&mut self)
        requires
            old(self).wf(),
            forall|i: int| 0 <= i < old(self).heroes@.len() ==> -(i64::MAX - 20) <= (
            #[trigger] old(self).heroes@[i]).initiative_bonus <= i64::MAX - 20,
            forall|i: int| 0 <= i < old(self).monsters@.len() ==> -(i64::MAX - 20) <= (
            #[trigger] old(self).monsters@[i]).initiative_bonus <= i64::MAX - 20,
        ensures
            final(self).wf(),
            final(self).heroes@ == old(self).heroes@,
            final(self).monsters@ == old(self).monsters@,
            final(self).round == old(self).round,
            final(self).debug_mode == old(self).debug_mode,
            final(self).debug_log@ == old(self).debug_log@,
            final(self).knockouts@ == old(self).knockouts@,
            final(self).last_acted@ == old(self).last_acted@,
            final(self).initiative_order@.len() == old(self).heroes@.len() + old(
                self,
            ).monsters@.len(),
            order_wf(
                final(self).initiative_order@,
                old(self).heroes@.len() as int,
                old(self).monsters@.len() as int,
            ),
            order_complete(
                final(self).initiative_order@,
                old(self).heroes@.len() as int,
                old(self).monsters@.len() as int,
            ),
            forall|p: int| 0 <= p < final(self).initiative_order@.len() ==> entry_initiative_ok(
                #[trigger] final(self).initiative_order@[p],
                old(self).heroes@,
                old(self).monsters@,
            ),
    {
        let nh = self.heroes.len();
        let nm = self.monsters.len();
        let mut entries: Vec<InitiativeEntry> = Vec::new();
        let mut i: usize = 0;
        while i < nh
            invariant
                i <= nh,
                nh == self.heroes@.len(),
                entries@.len() == i,
                chars_wf(self.heroes@),
                forall|p: int| 0 <= p < self.heroes@.len() ==> -(i64::MAX - 20) <= (
                #[trigger] self.heroes@[p]).initiative_bonus <= i64::MAX - 20,
                forall|p: int| 0 <= p < i ==> (#[trigger] entries@[p]).team == Team::Heroes
                    && entries@[p].index == p,
                forall|p: int| 0 <= p < i ==> entry_initiative_ok(
                    #[trigger] entries@[p],
                    self.heroes@,
                    self.monsters@,
                ),
            decreases nh - i,
        {
            let initiative = self.heroes[i].roll_initiative();
            entries.push(InitiativeEntry { team: Team::Heroes, index: i, initiative });
            i = i + 1;
        }
        let mut j: usize = 0;
        while j < nm
            invariant
                j <= nm,
                nh == self.heroes@.len(),
                nm == self.monsters@.len(),
                entries@.len() == nh + j,
                chars_wf(self.monsters@),
                forall|p: int| 0 <= p < self.monsters@.len() ==> -(i64::MAX - 20) <= (
                #[trigger] self.monsters@[p]).initiative_bonus <= i64::MAX - 20,
                forall|p: int| 0 <= p < nh ==> (#[trigger] entries@[p]).team == Team::Heroes
                    && entries@[p].index == p,
                forall|p: int| nh <= p < nh + j ==> (#[trigger] entries@[p]).team == Team::Monsters
                    && entries@[p].index == p - nh,
                forall|p: int| 0 <= p < nh + j ==> entry_initiative_ok(
                    #[trigger] entries@[p],
                    self.heroes@,
                    self.monsters@,
                ),
            decreases nm - j,
        {
            let initiative = self.monsters[j].roll_initiative();
            entries.push(InitiativeEntry { team: Team::Monsters, index: j, initiative });
            j = j + 1;
        }
        let ghost base = entries@;
        proof {
            // the base order is valid, pair-unique and complete
            assert(order_wf(base, nh as int, nm as int));
            assert(order_complete(base, nh as int, nm as int)) by {
                assert forall|x: int| 0 <= x < nh implies #[trigger] has_slot(
                    base,
                    Team::Heroes,
                    x,
                ) by {
                    assert(base[x].team == Team::Heroes && base[x].index == x);
                }
                assert forall|x: int| 0 <= x < nm implies #[trigger] has_slot(
                    base,
                    Team::Monsters,
                    x,
                ) by {
                    assert(base[nh + x].team == Team::Monsters && base[nh + x].index == x);
                }
            }
            assert(base.no_duplicates()) by {
                assert forall|a: int, b: int| 0 <= a < b < base.len() implies base[a] != base[b] by {
                    assert(!(base[a].team == base[b].team && base[a].index == base[b].index));
                }
            }
        }
        shuffle_entries(&mut entries);
        proof {
            broadcast use vstd::seq_lib::group_to_multiset_ensures;

            let cur = entries@;
            assert(cur.to_multiset() == base.to_multiset());
            assert(cur.len() == base.len()) by {
                assert(cur.to_multiset().len() == cur.len());
                assert(base.to_multiset().len() == base.len());
            }
            base.lemma_multiset_has_no_duplicates();
            // every entry of the shuffled order is an entry of the base
            assert forall|p: int| 0 <= p < cur.len() implies exists|q: int|
                0 <= q < base.len() && base[q] == #[trigger] cur[p] by {
                assert(cur.contains(cur[p]));
                assert(cur.to_multiset().count(cur[p]) > 0);
                assert(base.to_multiset().count(cur[p]) > 0);
                assert(base.contains(cur[p]));
            }
            assert forall|p: int| 0 <= p < cur.len() implies entry_initiative_ok(
                #[trigger] cur[p],
                self.heroes@,
                self.monsters@,
            ) by {
                let q = choose|q: int| 0 <= q < base.len() && base[q] == cur[p];
                assert(entry_initiative_ok(base[q], self.heroes@, self.monsters@));
            }
            assert(order_wf(cur, nh as int, nm as int)) by {
                assert forall|p: int| 0 <= p < cur.len() implies entry_ok(
                    #[trigger] cur[p],
                    nh as int,
                    nm as int,
                ) by {
                    let q = choose|q: int| 0 <= q < base.len() && base[q] == cur[p];
                    assert(entry_ok(base[q], nh as int, nm as int));
                }
                cur.lemma_multiset_has_no_duplicates_conv();
                assert forall|a: int, b: int| 0 <= a < b < cur.len() implies !((
                #[trigger] cur[a]).team == (#[trigger] cur[b]).team && cur[a].index
                    == cur[b].index) by {
                    let qa = choose|q: int| 0 <= q < base.len() && base[q] == cur[a];
                    let qb = choose|q: int| 0 <= q < base.len() && base[q] == cur[b];
                    assert(cur[a] != cur[b]);
                    if cur[a].team == cur[b].team && cur[a].index == cur[b].index {
                        assert(!(qa < qb && base[qa].team == base[qb].team && base[qa].index
                            == base[qb].index));
                        assert(!(qb < qa && base[qb].team == base[qa].team && base[qb].index
                            == base[qa].index));
                        assert(false);
                    }
                }
            }
            assert(order_complete(cur, nh as int, nm as int)) by {
                assert forall|x: int| 0 <= x < nh implies #[trigger] has_slot(
                    cur,
                    Team::Heroes,
                    x,
                ) by {
                    assert(has_slot(base, Team::Heroes, x));
                    let q = choose|q: int|
                        0 <= q < base.len() && (#[trigger] base[q]).team == Team::Heroes
                            && base[q].index == x;
                    assert(base.contains(base[q]));
                    assert(base.to_multiset().count(base[q]) > 0);
                    assert(cur.to_multiset().count(base[q]) > 0);
                    assert(cur.contains(base[q]));
                    let w = choose|w: int| 0 <= w < cur.len() && cur[w] == base[q];
                    assert(cur[w].team == Team::Heroes && cur[w].index == x);
                }
                assert forall|x: int| 0 <= x < nm implies #[trigger] has_slot(
                    cur,
                    Team::Monsters,
                    x,
                ) by {
                    assert(has_slot(base, Team::Monsters, x));
                    let q = choose|q: int|
                        0 <= q < base.len() && (#[trigger] base[q]).team == Team::Monsters
                            && base[q].index == x;
                    assert(base.contains(base[q]));
                    assert(base.to_multiset().count(base[q]) > 0);
                    assert(cur.to_multiset().count(base[q]) > 0);
                    assert(cur.contains(base[q]));
                    let w = choose|w: int| 0 <= w < cur.len() && cur[w] == base[q];
                    assert(cur[w].team == Team::Monsters && cur[w].index == x);
                }
            }
        }
        self.initiative_order = entries;
    }

    /// Whether the encounter is still running: it ends exactly when every
    /// combatant of some side is at zero hit points.
    pub fn is_ongoing(&self) -> (r: bool)
        ensures
            r == self.ongoing_spec(),
    {
        let heroes_down = Combat::side_down(&self.heroes);
        let monsters_down = Combat::side_down(&self.monsters);
        !(heroes_down || monsters_down)
    }

    fn side_down(side: &Vec<Character>) -> (r: bool)
        ensures
            r == all_down(side@),
    {
        let mut i: usize = 0;
        while i < side.len()
            invariant
                i <= side@.len(),
                forall|j: int| 0 <= j < i ==> (#[trigger] side@[j]).current_hp == 0,
            decreases side@.len() - i,
        {
            if side[i].current_hp > 0 {
                return false;
            }
            i = i + 1;
        }
        true
    }

    /// Whether the heroes won: meaningful once the encounter has ended.
    /// False while the fight is ongoing, and false when every hero is at
    /// zero hit points — so when both sides fall in the same exchange, the
    /// monsters take the tie.
    pub fn heroes_won(&self) -> (r: bool)
        ensures
            r == (!self.ongoing_spec() && !all_down(self.heroes@)),
    {
        if self.is_ongoing() {
            false
        } else if Combat::side_down(&self.heroes) {
            false
        } else {
            true
        }
    }

    /// The living enemies' roster of a combatant.
    pub fn valid_targets_for(&self, character: &Character) -> (r: &Vec<Character>)
        ensures
            character.team == Team::Heroes ==> r@ == self.monsters@,
            character.team == Team::Monsters ==> r@ == self.heroes@,
    {
        match character.team {
            Team::Heroes => &self.monsters,
            Team::Monsters => &self.heroes,
        }
    }

    /// The roster a combatant belongs to.
    pub fn teammates_for(&self, character: &Character) -> (r: &Vec<Character>)
        ensures
            character.team == Team::Heroes ==> r@ == self.heroes@,
            character.team == Team::Monsters ==> r@ == self.monsters@,
    {
        match character.team {
            Team::Heroes => &self.heroes,
            Team::Monsters => &self.monsters,
        }
    }

    /// The combatant an initiative entry names.
    pub fn lookup_character(&self, init: InitiativeEntry) -> (r: &Character)
        requires
            entry_ok(init, self.heroes@.len() as int, self.monsters@.len() as int),
        ensures
            init.team == Team::Heroes ==> *r == self.heroes@[init.index as int],
            init.team == Team::Monsters ==> *r == self.monsters@[init.index as int],
    {
        match init.team {
            Team::Heroes => &self.heroes[init.index],
            Team::Monsters => &self.monsters[init.index],
        }
    }

    /// The actions a combatant can validly take now: none while a condition
    /// blocks actions, otherwise exactly the combatant's valid actions in
    /// list order.
    pub fn valid_actions_for(&self, team: Team, character_index: usize) -> (r: Vec<Action>)
        requires
            self.wf(),
            team == Team::Heroes ==> character_index < self.heroes@.len(),
            team == Team::Monsters ==> character_index < self.monsters@.len(),
        ensures
            forall|i: int| 0 <= i < r@.len() ==> (#[trigger] r@[i]).wf(),
            team == Team::Heroes ==> forall|i: int| 0 <= i < r@.len() ==> is_valid_spec(
                #[trigger] r@[i],
                self.heroes@[character_index as int],
                self.heroes@,
                self.monsters@,
            ),
            team == Team::Monsters ==> forall|i: int| 0 <= i < r@.len() ==> is_valid_spec(
                #[trigger] r@[i],
                self.monsters@[character_index as int],
                self.monsters@,
                self.heroes@,
            ),
            team == Team::Heroes ==> {
                let actor = self.heroes@[character_index as int];
                &&& actor.blocked_spec() ==> r@.len() == 0
                &&& !actor.blocked_spec() ==> {
                    &&& r@.len() == crate::combat::actor::valid_actions_upto(
                        actor,
                        self.heroes@,
                        self.monsters@,
                        actor.actions@.len() as int,
                    ).len()
                    &&& forall|i: int| 0 <= i < r@.len() ==> crate::combat::action::action_like(
                        crate::combat::actor::valid_actions_upto(
                            actor,
                            self.heroes@,
                            self.monsters@,
                            actor.actions@.len() as int,
                        )[i],
                        #[trigger] r@[i],
                    )
                }
            },
            team == Team::Monsters ==> {
                let actor = self.monsters@[character_index as int];
                &&& actor.blocked_spec() ==> r@.len() == 0
                &&& !actor.blocked_spec() ==> {
                    &&& r@.len() == crate::combat::actor::valid_actions_upto(
                        actor,
                        self.monsters@,
                        self.heroes@,
                        actor.actions@.len() as int,
                    ).len()
                    &&& forall|i: int| 0 <= i < r@.len() ==> crate::combat::action::action_like(
                        crate::combat::actor::valid_actions_upto(
                            actor,
                            self.monsters@,
                            self.heroes@,
                            actor.actions@.len() as int,
                        )[i],
                        #[trigger] r@[i],
                    )
                }
            },
    {
        match team {
            Team::Heroes => {
                let hero = &self.heroes[character_index];
                hero.valid_actions(&self.heroes, &self.monsters)
            },
            Team::Monsters => {
                let monster = &self.monsters[character_index];
                monster.valid_actions(&self.monsters, &self.heroes)
            },
        }
    }

    /// Resolves one chosen action of one combatant against one chosen
    /// target and records a knockout exactly when the target ends at zero
    /// hit points. An attack changes nothing but the target's hit points; a
    /// heal spends the actor's required resources (all or nothing) and
    /// raises the target's hit points; every other roster slot is untouched
    /// and nobody's conditions change.
    pub fn execute_action(
        &mut self,
        actor_entry: InitiativeEntry,
        action: &Action,
        target_entry: InitiativeEntry,
    ) -> (r: ActionResult)
        requires
            old(self).wf(),
            action.wf(),
            entry_ok(actor_entry, old(self).heroes@.len() as int, old(self).monsters@.len() as int),
            entry_ok(
                target_entry,
                old(self).heroes@.len() as int,
                old(self).monsters@.len() as int,
            ),
            (*action matches Action::Attack { .. }) ==> actor_entry.team != target_entry.team,
        ensures
            final(self).wf(),
            roster_stable(old(self).heroes@, final(self).heroes@),
            roster_stable(old(self).monsters@, final(self).monsters@),
            final(self).initiative_order@ == old(self).initiative_order@,
            final(self).round == old(self).round,
            final(self).debug_mode == old(self).debug_mode,
            final(self).debug_log@ == old(self).debug_log@,
            final(self).last_acted@ == old(self).last_acted@,
            old(self).knockouts@.is_prefix_of(final(self).knockouts@),
            resolution_ok(
                state_of(*old(self)),
                state_of(*final(self)),
                actor_entry,
                *action,
                target_entry,
                r,
            ),
    {
        let result: ActionResult = match action {
            Action::Attack { .. } => {
                // attacks cross sides; the actor itself is untouched, so the
                // working copy is dropped afterwards
                let mut actor = match actor_entry.team {
                    Team::Heroes => self.heroes[actor_entry.index].clone(),
                    Team::Monsters => self.monsters[actor_entry.index].clone(),
                };
                match target_entry.team {
                    Team::Heroes => actor.take_action(&mut self.heroes[target_entry.index], action),
                    Team::Monsters => actor.take_action(
                        &mut self.monsters[target_entry.index],
                        action,
                    ),
                }
            },
            _ => {
                let same_slot = actor_entry.index == target_entry.index && (match (
                    actor_entry.team,
                    target_entry.team,
                ) {
                    (Team::Heroes, Team::Heroes) => true,
                    (Team::Monsters, Team::Monsters) => true,
                    _ => false,
                });
                if same_slot {
                    // the actor heals itself: resolve against the live slot
                    // and keep both the healing and the spent resources
                    match actor_entry.team {
                        Team::Heroes => {
                            let mut actor = self.heroes[actor_entry.index].clone();
                            let res = actor.take_action(
                                &mut self.heroes[target_entry.index],
                                action,
                            );
                            let healed = self.heroes[target_entry.index].current_hp;
                            actor.current_hp = healed;
                            self.heroes[actor_entry.index] = actor;
                            res
                        },
                        Team::Monsters => {
                            let mut actor = self.monsters[actor_entry.index].clone();
                            let res = actor.take_action(
                                &mut self.monsters[target_entry.index],
                                action,
                            );
                            let healed = self.monsters[target_entry.index].current_hp;
                            actor.current_hp = healed;
                            self.monsters[actor_entry.index] = actor;
                            res
                        },
                    }
                } else {
                    let mut actor = match actor_entry.team {
                        Team::Heroes => self.heroes[actor_entry.index].clone(),
                        Team::Monsters => self.monsters[actor_entry.index].clone(),
                    };
                    let res = match target_entry.team {
                        Team::Heroes => actor.take_action(
                            &mut self.heroes[target_entry.index],
                            action,
                        ),
                        Team::Monsters => actor.take_action(
                            &mut self.monsters[target_entry.index],
                            action,
                        ),
                    };
                    match actor_entry.team {
                        Team::Heroes => {
                            self.heroes[actor_entry.index] = actor;
                        },
                        Team::Monsters => {
                            self.monsters[actor_entry.index] = actor;
                        },
                    }
                    res
                }
            },
        };
        let target_hp = match target_entry.team {
            Team::Heroes => self.heroes[target_entry.index].current_hp,
            Team::Monsters => self.monsters[target_entry.index].current_hp,
        };
        if target_hp == 0 {
            self.knockouts.push(target_entry);
        }
        result
    }

    /// Runs one full round: each slot of the fixed initiative order takes
    /// its turn in order — skipped at zero hit points or with no valid
    /// action, otherwise resolving one uniformly chosen valid action against
    /// one uniformly chosen legal target — then the round counter advances
    /// and end-of-turn condition decay runs for exactly the combatants whose
    /// turn came up, recorded in `last_acted`. The final state is promised
    /// to be reachable from the initial one by such a chain of turns
    /// (`steps_upto`) followed by the decay phase (`decay_phase_ok`): hit
    /// points, resources and the knockout log move only through resolved
    /// actions.
    #[verifier::rlimit(100)]
    pub fn execute_round(&mut self)
        requires
            old(self).wf(),
            old(self).round < usize::MAX,
        ensures
            final(self).wf(),
            final(self).round == old(self).round + 1,
            roster_stable(old(self).heroes@, final(self).heroes@),
            roster_stable(old(self).monsters@, final(self).monsters@),
            final(self).initiative_order@ == old(self).initiative_order@,
            final(self).debug_mode == old(self).debug_mode,
            old(self).knockouts@.is_prefix_of(final(self).knockouts@),
            old(self).debug_log@.is_prefix_of(final(self).debug_log@),
            !old(self).debug_mode ==> final(self).debug_log@ == old(self).debug_log@,
            forall|p: int| 0 <= p < final(self).last_acted@.len() ==> entry_ok(
                #[trigger] final(self).last_acted@[p],
                old(self).heroes@.len() as int,
                old(self).monsters@.len() as int,
            ),
            forall|p: int, q: int| 0 <= p < q < final(self).last_acted@.len() ==> !((
            #[trigger] final(self).last_acted@[p]).team == (
            #[trigger] final(self).last_acted@[q]).team && final(self).last_acted@[p].index
                == final(self).last_acted@[q].index),
            forall|p: int| 0 <= p < final(self).last_acted@.len() ==> exists|q: int|
                0 <= q < old(self).initiative_order@.len() && #[trigger] final(self).last_acted@[p]
                    == old(self).initiative_order@[q],
            (old(self).initiative_order@.len() > 0 && roster_of(
                *old(self),
                old(self).initiative_order@[0].team,
            )[old(self).initiative_order@[0].index as int].current_hp > 0)
                ==> final(self).last_acted@.len() > 0 && final(self).last_acted@[0]
                == old(self).initiative_order@[0],
            (old(self).initiative_order@.len() > 0 && roster_of(
                *old(self),
                old(self).initiative_order@[0].team,
            )[old(self).initiative_order@[0].index as int].current_hp == 0) ==> !has_slot(
                final(self).last_acted@,
                old(self).initiative_order@[0].team,
                old(self).initiative_order@[0].index as int,
            ),
            forall|i: int| 0 <= i < old(self).heroes@.len()
                ==> crate::combat::conditions::conds_view(
                (#[trigger] final(self).heroes@[i]).active_conditions@,
            ) == (if has_slot(final(self).last_acted@, Team::Heroes, i) {
                crate::combat::actor::decay_upto(
                    crate::combat::conditions::conds_view(
                        old(self).heroes@[i].active_conditions@,
                    ),
                    old(self).heroes@[i].active_conditions@.len() as int,
                )
            } else {
                crate::combat::conditions::conds_view(old(self).heroes@[i].active_conditions@)
            }),
            forall|i: int| 0 <= i < old(self).monsters@.len()
                ==> crate::combat::conditions::conds_view(
                (#[trigger] final(self).monsters@[i]).active_conditions@,
            ) == (if has_slot(final(self).last_acted@, Team::Monsters, i) {
                crate::combat::actor::decay_upto(
                    crate::combat::conditions::conds_view(
                        old(self).monsters@[i].active_conditions@,
                    ),
                    old(self).monsters@[i].active_conditions@.len() as int,
                )
            } else {
                crate::combat::conditions::conds_view(old(self).monsters@[i].active_conditions@)
            }),
            exists|steps: Seq<Option<TurnStep>>, states: Seq<RoundState>|
                {
                    &&& steps.len() == old(self).initiative_order@.len()
                    &&& #[trigger] turns_chained(old(self).initiative_order@, states, steps)
                    &&& states[0] == state_of(*old(self))
                    &&& decay_phase_ok(
                        states[states.len() - 1],
                        state_of(*final(self)),
                        final(self).last_acted@,
                    )
                },
    {
        let n = self.initiative_order.len();
        let mut k: usize = 0;
        let mut acted: Vec<InitiativeEntry> = Vec::new();
        let ghost mut steps: Seq<Option<TurnStep>> = Seq::empty();
        let ghost mut states: Seq<RoundState> = seq![state_of(*old(self))];
        proof {
            assert(state_of(*self) == state_of(*old(self)));
        }
        while k < n
            invariant
                k <= n,
                n == self.initiative_order@.len(),
                self.wf(),
                self.round == old(self).round,
                self.debug_mode == old(self).debug_mode,
                roster_stable(old(self).heroes@, self.heroes@),
                roster_stable(old(self).monsters@, self.monsters@),
                self.initiative_order@ == old(self).initiative_order@,
                self.last_acted@ == old(self).last_acted@,
                old(self).knockouts@.is_prefix_of(self.knockouts@),
                old(self).debug_log@.is_prefix_of(self.debug_log@),
                !old(self).debug_mode ==> self.debug_log@ == old(self).debug_log@,
                steps.len() == k as int,
                states.len() == k as int + 1,
                states[0] == state_of(*old(self)),
                states[states.len() - 1] == state_of(*self),
                turns_chained(old(self).initiative_order@, states, steps),
                forall|p: int| 0 <= p < acted@.len() ==> entry_ok(
                    #[trigger] acted@[p],
                    self.heroes@.len() as int,
                    self.monsters@.len() as int,
                ),
                forall|p: int| 0 <= p < acted@.len() ==> exists|q: int|
                    0 <= q < k && #[trigger] acted@[p] == old(self).initiative_order@[q],
                k == 0 ==> self.heroes@ == old(self).heroes@ && self.monsters@ == old(
                    self,
                ).monsters@ && acted@.len() == 0,
                (k >= 1 && old(self).initiative_order@.len() > 0 && roster_of(
                    *old(self),
                    old(self).initiative_order@[0].team,
                )[old(self).initiative_order@[0].index as int].current_hp > 0) ==> acted@.len() > 0
                    && acted@[0] == old(self).initiative_order@[0],
                (old(self).initiative_order@.len() > 0 && roster_of(
                    *old(self),
                    old(self).initiative_order@[0].team,
                )[old(self).initiative_order@[0].index as int].current_hp == 0) ==> !has_slot(
                    acted@,
                    old(self).initiative_order@[0].team,
                    old(self).initiative_order@[0].index as int,
                ),
                forall|p: int, q: int| 0 <= p < q < acted@.len() ==> !((
                #[trigger] acted@[p]).team == (#[trigger] acted@[q]).team && acted@[p].index
                    == acted@[q].index),
                forall|i: int| 0 <= i < old(self).heroes@.len()
                    ==> crate::combat::conditions::conds_view(
                    (#[trigger] self.heroes@[i]).active_conditions@,
                ) == crate::combat::conditions::conds_view(
                    old(self).heroes@[i].active_conditions@,
                ),
                forall|i: int| 0 <= i < old(self).monsters@.len()
                    ==> crate::combat::conditions::conds_view(
                    (#[trigger] self.monsters@[i]).active_conditions@,
                ) == crate::combat::conditions::conds_view(
                    old(self).monsters@[i].active_conditions@,
                ),
            decreases n - k,
        {
            let ghost pre_turn = state_of(*self);
            let ghost prev_steps = steps;
            let entry = self.initiative_order[k];
            let hp = match entry.team {
                Team::Heroes => self.heroes[entry.index].current_hp,
                Team::Monsters => self.monsters[entry.index].current_hp,
            };
            if hp > 0 {
                let ghost acted_before = acted@;
                acted.push(entry);
                proof {
                    // the new entry's slot is fresh: earlier acted entries
                    // come from earlier order slots, which are all distinct
                    let ghost order0 = old(self).initiative_order@;
                    assert forall|p: int, q: int|
                        0 <= p < q < acted@.len() implies !((#[trigger] acted@[p]).team == (
                    #[trigger] acted@[q]).team && acted@[p].index == acted@[q].index) by {
                        if q == acted@.len() - 1 {
                            let w = choose|w: int| 0 <= w < k && acted_before[p] == order0[w];
                            assert(acted@[p] == order0[w]);
                            assert(acted@[q] == order0[k as int]);
                            assert(!(order0[w].team == order0[k as int].team && order0[w].index
                                == order0[k as int].index));
                        } else {
                            assert(acted@[p] == acted_before[p] && acted@[q] == acted_before[q]);
                        }
                    }
                    assert forall|p: int| 0 <= p < acted@.len() implies exists|q: int|
                        0 <= q < k + 1 && #[trigger] acted@[p] == order0[q] by {
                        if p < acted@.len() - 1 {
                            let w = choose|w: int| 0 <= w < k && acted_before[p] == order0[w];
                            assert(acted@[p] == order0[w]);
                        } else {
                            assert(self.initiative_order@ == order0);
                            assert(acted@[p] == order0[k as int]);
                        }
                    }
                    if k == 0 {
                        assert(acted@.len() == 1 && acted@[0] == order0[0]);
                    }
                    if order0.len() > 0 && roster_of(*old(self), order0[0].team)[order0[0].index
                        as int].current_hp == 0 {
                        // the first slot stays unacted: this entry is a later,
                        // different slot
                        assert(k >= 1);
                        assert(!(order0[k as int].team == order0[0].team && order0[k
                            as int].index == order0[0].index));
                        assert(!has_slot(acted@, order0[0].team, order0[0].index as int)) by {
                            if has_slot(acted@, order0[0].team, order0[0].index as int) {
                                let w = choose|w: int|
                                    0 <= w < acted@.len() && (#[trigger] acted@[w]).team
                                        == order0[0].team && acted@[w].index == order0[0].index
                                        as int;
                                if w < acted@.len() - 1 {
                                    assert(acted@[w] == acted_before[w]);
                                    assert(false);
                                } else {
                                    assert(acted@[w] == order0[k as int]);
                                    assert(false);
                                }
                            }
                        }
                    }
                }
                // reading the lengths records that both rosters fit the
                // machine word, which the target lemmas need
                let _nh_now = self.heroes.len();
                let _nm_now = self.monsters.len();
                let valid_actions = self.valid_actions_for(entry.team, entry.index);
                if valid_actions.len() > 0 {
                    let ai = rand_index(valid_actions.len());
                    let action = &valid_actions[ai];
                    let targets = match entry.team {
                        Team::Heroes => {
                            let hero = &self.heroes[entry.index];
                            action.valid_targets(hero, &self.heroes, &self.monsters)
                        },
                        Team::Monsters => {
                            let monster = &self.monsters[entry.index];
                            action.valid_targets(monster, &self.monsters, &self.heroes)
                        },
                    };
                    proof {
                        if entry.team == Team::Heroes {
                            lemma_targets_upto_nonempty(
                                *action,
                                self.heroes@[entry.index as int],
                                self.heroes@,
                                self.monsters@,
                                target_pool(*action, self.heroes@, self.monsters@).len() as int,
                            );
                            lemma_targets_upto_elems(
                                *action,
                                self.heroes@[entry.index as int],
                                self.heroes@,
                                self.monsters@,
                                target_pool(*action, self.heroes@, self.monsters@).len() as int,
                            );
                        } else {
                            lemma_targets_upto_nonempty(
                                *action,
                                self.monsters@[entry.index as int],
                                self.monsters@,
                                self.heroes@,
                                target_pool(*action, self.monsters@, self.heroes@).len() as int,
                            );
                            lemma_targets_upto_elems(
                                *action,
                                self.monsters@[entry.index as int],
                                self.monsters@,
                                self.heroes@,
                                target_pool(*action, self.monsters@, self.heroes@).len() as int,
                            );
                        }
                    }
                    let ti = rand_index(targets.len());
                    let target = targets[ti];
                    let ghost before_action = *self;
                    let result = self.execute_action(entry, action, target);
                    let ghost ts = (TurnStep {
                        action: valid_actions@[ai as int],
                        target: target,
                        result: result,
                    });
                    proof {
                        assert forall|i: int|
                            0 <= i < old(self).heroes@.len() implies crate::combat::conditions::conds_view(
                            (#[trigger] self.heroes@[i]).active_conditions@,
                        ) == crate::combat::conditions::conds_view(
                            old(self).heroes@[i].active_conditions@,
                        ) by {
                            assert(state_roster(state_of(*self), Team::Heroes)[i]
                                == self.heroes@[i]);
                            assert(state_roster(state_of(before_action), Team::Heroes)[i]
                                == before_action.heroes@[i]);
                        }
                        assert forall|i: int|
                            0 <= i < old(self).monsters@.len() implies crate::combat::conditions::conds_view(
                            (#[trigger] self.monsters@[i]).active_conditions@,
                        ) == crate::combat::conditions::conds_view(
                            old(self).monsters@[i].active_conditions@,
                        ) by {
                            assert(state_roster(state_of(*self), Team::Monsters)[i]
                                == self.monsters@[i]);
                            assert(state_roster(state_of(before_action), Team::Monsters)[i]
                                == before_action.monsters@[i]);
                        }
                        // this turn is a legal step of the round chain
                        assert(state_of(before_action) == pre_turn);
                        let actor_g = state_roster(pre_turn, entry.team)[entry.index as int];
                        let allies_g = state_roster(pre_turn, entry.team);
                        let enemies_g = state_roster(pre_turn, foe_of(entry.team));
                        if entry.team == Team::Heroes {
                            assert(actor_g == before_action.heroes@[entry.index as int]);
                            assert(allies_g == before_action.heroes@);
                            assert(enemies_g == before_action.monsters@);
                        } else {
                            assert(actor_g == before_action.monsters@[entry.index as int]);
                            assert(allies_g == before_action.monsters@);
                            assert(enemies_g == before_action.heroes@);
                        }
                        assert(actor_g.current_hp > 0);
                        assert(!actor_g.blocked_spec());
                        crate::combat::actor::lemma_valid_actions_upto_elems(
                            actor_g,
                            allies_g,
                            enemies_g,
                            actor_g.actions@.len() as int,
                        );
                        assert(crate::combat::actor::from_action_list(
                            crate::combat::actor::valid_actions_upto(
                                actor_g,
                                allies_g,
                                enemies_g,
                                actor_g.actions@.len() as int,
                            )[ai as int],
                            actor_g,
                            allies_g,
                            enemies_g,
                        ));
                        let w = choose|p: int|
                            0 <= p < actor_g.actions@.len()
                                && crate::combat::actor::valid_actions_upto(
                                actor_g,
                                allies_g,
                                enemies_g,
                                actor_g.actions@.len() as int,
                            )[ai as int] == (#[trigger] actor_g.actions@[p])
                                && is_valid_spec(actor_g.actions@[p], actor_g, allies_g, enemies_g);
                        assert(crate::combat::action::action_like(
                            actor_g.actions@[w],
                            ts.action,
                        ));
                        assert(turn_ok(pre_turn, state_of(*self), entry, Some(ts)));
                    }
                    let ghost post_turn = state_of(*self);
                    if self.debug_mode {
                        let log_entry = ActivityLog {
                            round: self.round,
                            action: action.clone(),
                            actor: match entry.team {
                                Team::Heroes => self.heroes[entry.index].clone(),
                                Team::Monsters => self.monsters[entry.index].clone(),
                            },
                            target: match target.team {
                                Team::Heroes => self.heroes[target.index].clone(),
                                Team::Monsters => self.monsters[target.index].clone(),
                            },
                            result,
                            snapshot_heroes: clone_roster(&self.heroes),
                            snapshot_monsters: clone_roster(&self.monsters),
                        };
                        self.debug_log.push(log_entry);
                    }
                    proof {
                        assert(state_of(*self) == post_turn);
                        assert(turn_ok(pre_turn, state_of(*self), entry, Some(ts)));
                        assert(states[states.len() - 1] == pre_turn);
                        assert(old(self).initiative_order@[prev_steps.len() as int] == entry);
                        lemma_chain_extend(
                            old(self).initiative_order@,
                            states,
                            prev_steps,
                            state_of(*self),
                            Some(ts),
                        );
                        steps = prev_steps.push(Some(ts));
                        states = states.push(state_of(*self));
                    }
                } else {
                    proof {
                        // a living combatant with an empty action list took
                        // no action: nothing of its list is valid
                        let actor_g = state_roster(pre_turn, entry.team)[entry.index as int];
                        let allies_g = state_roster(pre_turn, entry.team);
                        let enemies_g = state_roster(pre_turn, foe_of(entry.team));
                        if entry.team == Team::Heroes {
                            assert(actor_g == self.heroes@[entry.index as int]);
                            assert(allies_g == self.heroes@);
                            assert(enemies_g == self.monsters@);
                        } else {
                            assert(actor_g == self.monsters@[entry.index as int]);
                            assert(allies_g == self.monsters@);
                            assert(enemies_g == self.heroes@);
                        }
                        if !actor_g.blocked_spec() {
                            crate::combat::actor::lemma_valid_actions_upto_nonempty(
                                actor_g,
                                allies_g,
                                enemies_g,
                                actor_g.actions@.len() as int,
                            );
                            assert(no_valid_action(actor_g, allies_g, enemies_g));
                        }
                        assert(turn_ok(
                            pre_turn,
                            state_of(*self),
                            entry,
                            Option::<TurnStep>::None,
                        ));
                        assert(states[states.len() - 1] == pre_turn);
                        assert(old(self).initiative_order@[prev_steps.len() as int] == entry);
                        lemma_chain_extend(
                            old(self).initiative_order@,
                            states,
                            prev_steps,
                            state_of(*self),
                            Option::<TurnStep>::None,
                        );
                        steps = prev_steps.push(Option::<TurnStep>::None);
                        states = states.push(state_of(*self));
                    }
                }
            } else {
                proof {
                    // a downed combatant's turn changes nothing
                    assert(turn_ok(pre_turn, state_of(*self), entry, Option::<TurnStep>::None));
                    assert(states[states.len() - 1] == pre_turn);
                    assert(old(self).initiative_order@[prev_steps.len() as int] == entry);
                    lemma_chain_extend(
                        old(self).initiative_order@,
                        states,
                        prev_steps,
                        state_of(*self),
                        Option::<TurnStep>::None,
                    );
                    steps = prev_steps.push(Option::<TurnStep>::None);
                    states = states.push(state_of(*self));
                }
            }
            k = k + 1;
        }
        self.round = self.round + 1;
        let ghost mid_state = state_of(*self);
        let ghost mid_heroes = self.heroes@;
        let ghost mid_monsters = self.monsters@;
        self.run_decay(&acted);
        self.last_acted = acted;
        proof {
            // the decay phase relates the final state to the post-pass one;
            // the old-state condition clauses follow because the pass left
            // every condition list's content unchanged
            assert(decay_phase_ok(mid_state, state_of(*self), self.last_acted@));
            assert(states[states.len() - 1] == mid_state);
            assert(turns_chained(old(self).initiative_order@, states, steps));
            assert(exists|steps2: Seq<Option<TurnStep>>, states2: Seq<RoundState>|
                {
                    &&& steps2.len() == old(self).initiative_order@.len()
                    &&& #[trigger] turns_chained(old(self).initiative_order@, states2, steps2)
                    &&& states2[0] == state_of(*old(self))
                    &&& decay_phase_ok(
                        states2[states2.len() - 1],
                        state_of(*self),
                        self.last_acted@,
                    )
                });
            assert forall|i: int|
                0 <= i < old(self).heroes@.len() implies crate::combat::conditions::conds_view(
                (#[trigger] self.heroes@[i]).active_conditions@,
            ) == (if has_slot(self.last_acted@, Team::Heroes, i) {
                crate::combat::actor::decay_upto(
                    crate::combat::conditions::conds_view(
                        old(self).heroes@[i].active_conditions@,
                    ),
                    old(self).heroes@[i].active_conditions@.len() as int,
                )
            } else {
                crate::combat::conditions::conds_view(old(self).heroes@[i].active_conditions@)
            }) by {
                assert(same_but_decayed(
                    state_roster(mid_state, Team::Heroes)[i],
                    state_roster(state_of(*self), Team::Heroes)[i],
                    has_slot(self.last_acted@, Team::Heroes, i),
                ));
                assert(state_roster(mid_state, Team::Heroes)[i] == mid_heroes[i]);
                assert(state_roster(state_of(*self), Team::Heroes)[i] == self.heroes@[i]);
                assert(crate::combat::conditions::conds_view(mid_heroes[i].active_conditions@)
                    == crate::combat::conditions::conds_view(
                    old(self).heroes@[i].active_conditions@,
                ));
                assert(mid_heroes[i].active_conditions@.len()
                    == old(self).heroes@[i].active_conditions@.len());
            }
            assert forall|i: int|
                0 <= i < old(self).monsters@.len() implies crate::combat::conditions::conds_view(
                (#[trigger] self.monsters@[i]).active_conditions@,
            ) == (if has_slot(self.last_acted@, Team::Monsters, i) {
                crate::combat::actor::decay_upto(
                    crate::combat::conditions::conds_view(
                        old(self).monsters@[i].active_conditions@,
                    ),
                    old(self).monsters@[i].active_conditions@.len() as int,
                )
            } else {
                crate::combat::conditions::conds_view(old(self).monsters@[i].active_conditions@)
            }) by {
                assert(same_but_decayed(
                    state_roster(mid_state, Team::Monsters)[i],
                    state_roster(state_of(*self), Team::Monsters)[i],
                    has_slot(self.last_acted@, Team::Monsters, i),
                ));
                assert(state_roster(mid_state, Team::Monsters)[i] == mid_monsters[i]);
                assert(state_roster(state_of(*self), Team::Monsters)[i] == self.monsters@[i]);
                assert(crate::combat::conditions::conds_view(mid_monsters[i].active_conditions@)
                    == crate::combat::conditions::conds_view(
                    old(self).monsters@[i].active_conditions@,
                ));
                assert(mid_monsters[i].active_conditions@.len()
                    == old(self).monsters@[i].active_conditions@.len());
            }
        }
    }

    /// Runs end-of-turn decay for exactly the given slots: their conditions
    /// lose one round (expired ones dropped), every other slot and every
    /// other part of the encounter is untouched.
    fn run_decay(&mut self, acted: &Vec<InitiativeEntry>)
        requires
            old(self).wf(),
            forall|p: int| 0 <= p < acted@.len() ==> entry_ok(
                #[trigger] acted@[p],
                old(self).heroes@.len() as int,
                old(self).monsters@.len() as int,
            ),
            forall|p: int, q: int| 0 <= p < q < acted@.len() ==> !((#[trigger] acted@[p]).team == (
            #[trigger] acted@[q]).team && acted@[p].index == acted@[q].index),
        ensures
            final(self).wf(),
            final(self).round == old(self).round,
            final(self).debug_mode == old(self).debug_mode,
            final(self).debug_log@ == old(self).debug_log@,
            final(self).initiative_order@ == old(self).initiative_order@,
            final(self).knockouts@ == old(self).knockouts@,
            final(self).last_acted@ == old(self).last_acted@,
            roster_stable(old(self).heroes@, final(self).heroes@),
            roster_stable(old(self).monsters@, final(self).monsters@),
            decay_phase_ok(state_of(*old(self)), state_of(*final(self)), acted@),
    {
        proof {
            assert(acted@.take(0) =~= Seq::<InitiativeEntry>::empty());
        }
        let mut d: usize = 0;
        while d < acted.len()
            invariant
                d <= acted@.len(),
                self.wf(),
                self.round == old(self).round,
                self.debug_mode == old(self).debug_mode,
                self.debug_log@ == old(self).debug_log@,
                self.initiative_order@ == old(self).initiative_order@,
                self.knockouts@ == old(self).knockouts@,
                self.last_acted@ == old(self).last_acted@,
                self.heroes@.len() == old(self).heroes@.len(),
                self.monsters@.len() == old(self).monsters@.len(),
                roster_stable(old(self).heroes@, self.heroes@),
                roster_stable(old(self).monsters@, self.monsters@),
                forall|p: int| 0 <= p < acted@.len() ==> entry_ok(
                    #[trigger] acted@[p],
                    old(self).heroes@.len() as int,
                    old(self).monsters@.len() as int,
                ),
                forall|p: int, q: int| 0 <= p < q < acted@.len() ==> !((
                #[trigger] acted@[p]).team == (#[trigger] acted@[q]).team && acted@[p].index
                    == acted@[q].index),
                forall|t: Team, i: int| 0 <= i < state_roster(state_of(*old(self)), t).len() ==> (
                if has_slot(acted@.take(d as int), t, i) {
                    same_but_decayed(
                        state_roster(state_of(*old(self)), t)[i],
                        #[trigger] state_roster(state_of(*self), t)[i],
                        true,
                    )
                } else {
                    state_roster(state_of(*self), t)[i] == state_roster(
                        state_of(*old(self)),
                        t,
                    )[i]
                }),
            decreases acted@.len() - d,
        {
            let e = acted[d];
            let ghost before_h = self.heroes@;
            let ghost before_m = self.monsters@;
            let ghost pre_state = state_of(*self);
            proof {
                assert(forall|t: Team, i: int|
                    0 <= i < state_roster(state_of(*old(self)), t).len() ==> (if has_slot(
                        acted@.take(d as int),
                        t,
                        i,
                    ) {
                        same_but_decayed(
                            state_roster(state_of(*old(self)), t)[i],
                            #[trigger] state_roster(pre_state, t)[i],
                            true,
                        )
                    } else {
                        state_roster(pre_state, t)[i] == state_roster(
                            state_of(*old(self)),
                            t,
                        )[i]
                    }));
                // this slot was not decayed yet: every earlier acted entry
                // names a different slot
                assert(!has_slot(acted@.take(d as int), e.team, e.index as int)) by {
                    if has_slot(acted@.take(d as int), e.team, e.index as int) {
                        let w = choose|w: int|
                            0 <= w < acted@.take(d as int).len() && (#[trigger] acted@.take(
                                d as int,
                            )[w]).team == e.team && acted@.take(d as int)[w].index == e.index
                                as int;
                        assert(acted@[w] == acted@.take(d as int)[w]);
                        assert(acted@[d as int] == e);
                        assert(false);
                    }
                }
                assert(state_roster(state_of(*self), e.team)[e.index as int] == state_roster(
                    state_of(*old(self)),
                    e.team,
                )[e.index as int]);
            }
            match e.team {
                Team::Heroes => {
                    let ghost slot0 = self.heroes@[e.index as int];
                    let mut c = self.heroes[e.index].clone();
                    let ghost c0 = c;
                    c.end_turn();
                    self.heroes[e.index] = c;
                    proof {
                        assert(crate::combat::conditions::conds_view(c0.active_conditions@)
                            == crate::combat::conditions::conds_view(slot0.active_conditions@));
                        assert(crate::combat::conditions::conds_view(c0.active_conditions@).len()
                            == c0.active_conditions@.len());
                        assert(crate::combat::conditions::conds_view(
                            slot0.active_conditions@,
                        ).len() == slot0.active_conditions@.len());
                        assert(c0.active_conditions@.len() == slot0.active_conditions@.len());
                        assert(crate::combat::conditions::conds_view(c.active_conditions@)
                            == crate::combat::actor::decay_upto(
                            crate::combat::conditions::conds_view(slot0.active_conditions@),
                            slot0.active_conditions@.len() as int,
                        ));
                        assert(state_roster(state_of(*self), Team::Heroes)[e.index as int] == c);
                        assert(state_roster(state_of(*old(self)), Team::Heroes)[e.index as int]
                            == slot0);
                        assert(same_but_decayed(slot0, c, true));
                    }
                },
                Team::Monsters => {
                    let ghost slot0 = self.monsters@[e.index as int];
                    let mut c = self.monsters[e.index].clone();
                    let ghost c0 = c;
                    c.end_turn();
                    self.monsters[e.index] = c;
                    proof {
                        assert(crate::combat::conditions::conds_view(c0.active_conditions@)
                            == crate::combat::conditions::conds_view(slot0.active_conditions@));
                        assert(crate::combat::conditions::conds_view(c0.active_conditions@).len()
                            == c0.active_conditions@.len());
                        assert(crate::combat::conditions::conds_view(
                            slot0.active_conditions@,
                        ).len() == slot0.active_conditions@.len());
                        assert(c0.active_conditions@.len() == slot0.active_conditions@.len());
                        assert(crate::combat::conditions::conds_view(c.active_conditions@)
                            == crate::combat::actor::decay_upto(
                            crate::combat::conditions::conds_view(slot0.active_conditions@),
                            slot0.active_conditions@.len() as int,
                        ));
                        assert(state_roster(state_of(*self), Team::Monsters)[e.index as int] == c);
                        assert(state_roster(state_of(*old(self)), Team::Monsters)[e.index as int]
                            == slot0);
                        assert(same_but_decayed(slot0, c, true));
                    }
                },
            }
            proof {
                assert(same_but_decayed(
                    state_roster(state_of(*old(self)), e.team)[e.index as int],
                    state_roster(state_of(*self), e.team)[e.index as int],
                    true,
                ));
                assert forall|t: Team, x: int|
                    true implies #[trigger] has_slot(acted@.take(d as int + 1), t, x) == (has_slot(
                    acted@.take(d as int),
                    t,
                    x,
                ) || (e.team == t && e.index == x)) by {
                    lemma_has_slot_take_succ(acted@, d as int, t, x);
                }
                assert forall|t: Team, i: int|
                    0 <= i < state_roster(state_of(*old(self)), t).len() implies (if has_slot(
                    acted@.take(d as int + 1),
                    t,
                    i,
                ) {
                    same_but_decayed(
                        state_roster(state_of(*old(self)), t)[i],
                        #[trigger] state_roster(state_of(*self), t)[i],
                        true,
                    )
                } else {
                    state_roster(state_of(*self), t)[i] == state_roster(
                        state_of(*old(self)),
                        t,
                    )[i]
                }) by {
                    if t == e.team && i == e.index as int {
                        assert(has_slot(acted@.take(d as int + 1), t, i));
                    } else {
                        // this slot was untouched by the decay step
                        assert(state_roster(state_of(*self), t)[i] == state_roster(
                            pre_state,
                            t,
                        )[i]) by {
                            if t == Team::Heroes {
                                assert(state_roster(state_of(*self), Team::Heroes)[i]
                                    == self.heroes@[i]);
                                assert(state_roster(pre_state, Team::Heroes)[i] == before_h[i]);
                            } else {
                                assert(state_roster(state_of(*self), Team::Monsters)[i]
                                    == self.monsters@[i]);
                                assert(state_roster(pre_state, Team::Monsters)[i] == before_m[i]);
                            }
                        }
                        assert(has_slot(acted@.take(d as int + 1), t, i) == has_slot(
                            acted@.take(d as int),
                            t,
                            i,
                        ));
                        if has_slot(acted@.take(d as int), t, i) {
                            assert(same_but_decayed(
                                state_roster(state_of(*old(self)), t)[i],
                                state_roster(pre_state, t)[i],
                                true,
                            ));
                        } else {
                            assert(state_roster(pre_state, t)[i] == state_roster(
                                state_of(*old(self)),
                                t,
                            )[i]);
                        }
                    }
                }
            }
            d = d + 1;
        }
        proof {
            assert(acted@.take(d as int) =~= acted@);
            assert forall|t: Team, i: int|
                0 <= i < state_roster(state_of(*old(self)), t).len() implies same_but_decayed(
                state_roster(state_of(*old(self)), t)[i],
                #[trigger] state_roster(state_of(*self), t)[i],
                has_slot(acted@, t, i),
            ) by {
                if !has_slot(acted@, t, i) {
                    let a = state_roster(state_of(*old(self)), t)[i];
                    assert forall|p: int|
                        0 <= p < a.actions@.len() implies crate::combat::action::action_like(
                        a.actions@[p],
                        #[trigger] a.actions@[p],
                    ) by {
                        crate::combat::action::lemma_action_like_refl(a.actions@[p]);
                    }
                }
            }
        }
    }
}

/// Extending a turn chain by one legal turn keeps it a chain.
proof fn lemma_chain_extend(
    order: Seq<InitiativeEntry>,
    states: Seq<RoundState>,
    steps: Seq<Option<TurnStep>>,
    post: RoundState,
    step: Option<TurnStep>,
)
    requires
        turns_chained(order, states, steps),
        steps.len() < order.len(),
        turn_ok(states[states.len() - 1], post, order[steps.len() as int], step),
    ensures
        turns_chained(order, states.push(post), steps.push(step)),
{
    let states2 = states.push(post);
    let steps2 = steps.push(step);
    assert forall|q: int| 0 <= q < steps2.len() implies turn_ok(
        states2[q],
        states2[q + 1],
        order[q],
        #[trigger] steps2[q],
    ) by {
        if q < steps.len() {
            assert(states2[q] == states[q]);
            assert(states2[q + 1] == states[q + 1]);
            assert(steps2[q] == steps[q]);
            assert(turn_ok(states[q], states[q + 1], order[q], steps[q]));
        } else {
            assert(states2[q] == states[states.len() - 1]);
            assert(states2[q + 1] == post);
            assert(steps2[q] == step);
        }
    }
}

/// Extending the prefix by one entry adds exactly that entry's slot.
proof fn lemma_has_slot_take_succ(s: Seq<InitiativeEntry>, d: int, t: Team, x: int)
    requires
        0 <= d < s.len(),
    ensures
        has_slot(s.take(d + 1), t, x) == (has_slot(s.take(d), t, x) || (s[d].team == t && s[d].index
            == x)),
{
    if has_slot(s.take(d + 1), t, x) {
        let w = choose|w: int|
            0 <= w < s.take(d + 1).len() && (#[trigger] s.take(d + 1)[w]).team == t && s.take(
                d + 1,
            )[w].index == x;
        if w < d {
            assert(s.take(d)[w] == s.take(d + 1)[w]);
        }
    }
    if has_slot(s.take(d), t, x) {
        let w = choose|w: int|
            0 <= w < s.take(d).len() && (#[trigger] s.take(d)[w]).team == t && s.take(d)[w].index
                == x;
        assert(s.take(d + 1)[w] == s.take(d)[w]);
    }
    if s[d].team == t && s[d].index == x {
        assert(s.take(d + 1)[d] == s[d]);
    }
}

/// Clones a roster for a log snapshot.
fn clone_roster(side: &Vec<Character>) -> (r: Vec<Character>)
    ensures
        roster_stable(side@, r@),
{
    let mut out: Vec<Character> = Vec::new();
    let mut i: usize = 0;
    while i < side.len()
        invariant
            i <= side@.len(),
            out@.len() == i,
            forall|j: int| 0 <= j < i ==> {
                &&& (#[trigger] out@[j]).name@ == side@[j].name@
                &&& out@[j].team == side@[j].team
                &&& out@[j].max_hp == side@[j].max_hp
                &&& out@[j].ac == side@[j].ac
            },
        decreases side@.len() - i,
    {
        out.push(side[i].clone());
        i = i + 1;
    }
    out
}

/// Picks a uniformly random index below `n`.
fn rand_index(n: usize) -> (r: usize)
    requires
        n > 0,
    ensures
        r < n,
{
    let raw = rand_u64(0, (n - 1) as u64);
    raw as usize
}

} // verus!
