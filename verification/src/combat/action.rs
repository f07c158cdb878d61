//! Actions a combatant can take: attacks, heals and second wind, each with
//! its legal target set and resource prerequisites.

use vstd::prelude::*;
use crate::combat::actor::{cur_of, kind_view, Character, InitiativeEntry, ResourceType};
use crate::dice::pool::{dice_gross, dice_min_sum, dice_max_sum, DicePool};

verus! {

#[derive(Debug)]
pub enum Action {
    Attack { name: String, hit_bonus: i64, damage: DicePool },
    Heal { name: String, healing: DicePool, required_resources: Vec<(ResourceType, u64)> },
    SecondWind { healing: DicePool, required_resources: Vec<(ResourceType, u64)> },
}

/// A dice pool that can be rolled, also with every die count doubled, with
/// no risk of overflow.
pub open spec fn pool_wf(p: DicePool) -> bool {
    &&& p.rollable()
    &&& 2 * dice_gross(p.dice@) + crate::dice::pool::abs_int(p.modifier as int) <= i64::MAX
    &&& forall|i: int| 0 <= i < p.dice@.len() ==> 2 * ((#[trigger] p.dice@[i]).count as int)
        <= u64::MAX
}

/// The required resources of an action name each kind at most once.
pub open spec fn required_distinct(rs: Seq<(ResourceType, u64)>) -> bool {
    forall|i: int, j: int| 0 <= i < j < rs.len() ==> kind_view(&(#[trigger] rs[i]).0) != kind_view(
        &(#[trigger] rs[j]).0,
    )
}

impl Action {
    /// The action's dice pool rolls safely, its to-hit bonus cannot overflow
    /// a d20 roll, and its resource prerequisites are distinct.
    pub open spec fn wf(&self) -> bool {
        match *self {
            Action::Attack { hit_bonus, ref damage, .. } => pool_wf(*damage) && -(i64::MAX - 20)
                <= hit_bonus <= i64::MAX - 20,
            Action::Heal { ref healing, ref required_resources, .. } => pool_wf(*healing)
                && required_distinct(required_resources@),
            Action::SecondWind { ref healing, ref required_resources } => pool_wf(*healing)
                && required_distinct(required_resources@),
        }
    }

    /// The resource prerequisites of the action, empty for an attack.
    pub open spec fn required_spec(&self) -> Seq<(ResourceType, u64)> {
        match *self {
            Action::Attack { .. } => Seq::<(ResourceType, u64)>::empty(),
            Action::Heal { ref required_resources, .. } => required_resources@,
            Action::SecondWind { ref required_resources, .. } => required_resources@,
        }
    }
}

/// Two pools with the same die groups, modifier and advantage mode.
pub open spec fn pool_like(a: DicePool, b: DicePool) -> bool {
    &&& a.dice@ == b.dice@
    &&& a.modifier == b.modifier
    &&& a.advantage_type == b.advantage_type
}

/// Two requirement lists naming the same kinds and amounts, in order.
pub open spec fn required_like(a: Seq<(ResourceType, u64)>, b: Seq<(ResourceType, u64)>) -> bool {
    &&& a.len() == b.len()
    &&& forall|i: int| 0 <= i < a.len() ==> kind_view(&(#[trigger] a[i]).0) == kind_view(
        &(#[trigger] b[i]).0,
    ) && a[i].1 == b[i].1
}

/// Two actions of the same variant whose observable content is the same:
/// names, bonuses, pools and requirements agree.
pub open spec fn action_like(a: Action, b: Action) -> bool {
    match (a, b) {
        (
            Action::Attack { name: n1, hit_bonus: h1, damage: d1 },
            Action::Attack { name: n2, hit_bonus: h2, damage: d2 },
        ) => n1@ == n2@ && h1 == h2 && pool_like(d1, d2),
        (
            Action::Heal { name: n1, healing: p1, required_resources: r1 },
            Action::Heal { name: n2, healing: p2, required_resources: r2 },
        ) => n1@ == n2@ && pool_like(p1, p2) && required_like(r1@, r2@),
        (
            Action::SecondWind { healing: p1, required_resources: r1 },
            Action::SecondWind { healing: p2, required_resources: r2 },
        ) => pool_like(p1, p2) && required_like(r1@, r2@),
        _ => false,
    }
}

impl Clone for Action {
    fn clone(&self) -> (r: Self)
        ensures
            action_like(*self, r),
    {
        match self {
            Action::Attack { name, hit_bonus, damage } => Action::Attack {
                name: name.clone(),
                hit_bonus: *hit_bonus,
                damage: damage.clone(),
            },
            Action::Heal { name, healing, required_resources } => Action::Heal {
                name: name.clone(),
                healing: healing.clone(),
                required_resources: clone_required(required_resources),
            },
            Action::SecondWind { healing, required_resources } => Action::SecondWind {
                healing: healing.clone(),
                required_resources: clone_required(required_resources),
            },
        }
    }
}

fn clone_required(v: &Vec<(ResourceType, u64)>) -> (r: Vec<(ResourceType, u64)>)
    ensures
        required_like(v@, r@),
{
    let mut out: Vec<(ResourceType, u64)> = Vec::new();
    let mut i: usize = 0;
    while i < v.len()
        invariant
            i <= v@.len(),
            out@.len() == i,
            forall|j: int| 0 <= j < i ==> kind_view(&(#[trigger] v@[j]).0) == kind_view(
                &(#[trigger] out@[j]).0,
            ) && v@[j].1 == out@[j].1,
        decreases v@.len() - i,
    {
        let pair = &v[i];
        out.push((pair.0.clone(), pair.1));
        i = i + 1;
    }
    out
}

/// Every action is observably identical to itself.
pub proof fn lemma_action_like_refl(a: Action)
    ensures
        action_like(a, a),
{
    match a {
        Action::Attack { .. } => {},
        Action::Heal { .. } => {},
        Action::SecondWind { .. } => {},
    }
}

/// Actions with the same observable content are interchangeable: one is
/// well formed, valid, or affordable exactly when the other is.
pub proof fn lemma_action_like_props(
    a: Action,
    b: Action,
    actor: Character,
    allies: Seq<Character>,
    enemies: Seq<Character>,
)
    requires
        action_like(a, b),
    ensures
        a.wf() == b.wf(),
        is_valid_spec(a, actor, allies, enemies) == is_valid_spec(b, actor, allies, enemies),
        resources_available_spec(actor, a.required_spec()) == resources_available_spec(
            actor,
            b.required_spec(),
        ),
{
    assert(a.wf() == b.wf()) by {
        if a.wf() {
            lemma_like_wf(a, b);
        }
        if b.wf() {
            lemma_like_wf(b, a);
        }
    }
    assert(resources_available_spec(actor, a.required_spec()) == resources_available_spec(
        actor,
        b.required_spec(),
    )) by {
        if resources_available_spec(actor, a.required_spec()) {
            assert forall|i: int| 0 <= i < b.required_spec().len() implies cur_of(
                actor.resources.entries@,
                kind_view(&(#[trigger] b.required_spec()[i]).0),
            ) >= b.required_spec()[i].1 by {
                assert(kind_view(&a.required_spec()[i].0) == kind_view(&b.required_spec()[i].0));
                assert(cur_of(actor.resources.entries@, kind_view(&a.required_spec()[i].0))
                    >= a.required_spec()[i].1);
            }
        }
        if resources_available_spec(actor, b.required_spec()) {
            assert forall|i: int| 0 <= i < a.required_spec().len() implies cur_of(
                actor.resources.entries@,
                kind_view(&(#[trigger] a.required_spec()[i]).0),
            ) >= a.required_spec()[i].1 by {
                assert(kind_view(&a.required_spec()[i].0) == kind_view(&b.required_spec()[i].0));
                assert(cur_of(actor.resources.entries@, kind_view(&b.required_spec()[i].0))
                    >= b.required_spec()[i].1);
            }
        }
    }
    assert forall|j: int| is_target(a, actor, allies, enemies, j) == is_target(
        b,
        actor,
        allies,
        enemies,
        j,
    ) by {}
    assert((exists|j: int| is_target(a, actor, allies, enemies, j)) == (exists|j: int|
        is_target(b, actor, allies, enemies, j))) by {
        if exists|j: int| is_target(a, actor, allies, enemies, j) {
            let w = choose|j: int| is_target(a, actor, allies, enemies, j);
            assert(is_target(b, actor, allies, enemies, w));
        }
        if exists|j: int| is_target(b, actor, allies, enemies, j) {
            let w = choose|j: int| is_target(b, actor, allies, enemies, j);
            assert(is_target(a, actor, allies, enemies, w));
        }
    }
}

pub proof fn lemma_like_wf(a: Action, b: Action)
    requires
        action_like(a, b),
        a.wf(),
    ensures
        b.wf(),
{
    match (a, b) {
        (Action::Attack { .. }, Action::Attack { .. }) => {},
        (
            Action::Heal { required_resources: r1, .. },
            Action::Heal { required_resources: r2, .. },
        ) => {
            assert forall|i: int, j: int| 0 <= i < j < r2@.len() implies kind_view(
                &(#[trigger] r2@[i]).0,
            ) != kind_view(&(#[trigger] r2@[j]).0) by {
                assert(kind_view(&r1@[i].0) != kind_view(&r1@[j].0));
                assert(kind_view(&r1@[i].0) == kind_view(&r2@[i].0));
                assert(kind_view(&r1@[j].0) == kind_view(&r2@[j].0));
            }
        },
        (
            Action::SecondWind { required_resources: r1, .. },
            Action::SecondWind { required_resources: r2, .. },
        ) => {
            assert forall|i: int, j: int| 0 <= i < j < r2@.len() implies kind_view(
                &(#[trigger] r2@[i]).0,
            ) != kind_view(&(#[trigger] r2@[j]).0) by {
                assert(kind_view(&r1@[i].0) != kind_view(&r1@[j].0));
                assert(kind_view(&r1@[i].0) == kind_view(&r2@[i].0));
                assert(kind_view(&r1@[j].0) == kind_view(&r2@[j].0));
            }
        },
        _ => {},
    }
}

/// Every required resource is available in the actor's ledger.
pub open spec fn resources_available_spec(actor: Character, rs: Seq<(ResourceType, u64)>) -> bool {
    forall|i: int| 0 <= i < rs.len() ==> cur_of(
        actor.resources.entries@,
        kind_view(&(#[trigger] rs[i]).0),
    ) >= rs[i].1
}

/// Whether roster slot `j` is a legal target of the action: attacks target
/// living enemies, heals target damaged allies, and second wind targets the
/// damaged actor alone (combatant names are unique per encounter).
pub open spec fn is_target(
    a: Action,
    actor: Character,
    allies: Seq<Character>,
    enemies: Seq<Character>,
    j: int,
) -> bool {
    match a {
        Action::Attack { .. } => 0 <= j < enemies.len() && enemies[j].current_hp > 0,
        Action::Heal { .. } => 0 <= j < allies.len() && allies[j].current_hp < allies[j].max_hp,
        Action::SecondWind { .. } => 0 <= j < allies.len() && allies[j].name@ == actor.name@
            && allies[j].current_hp < allies[j].max_hp,
    }
}

/// The roster a target index of the action refers to.
pub open spec fn target_pool(a: Action, allies: Seq<Character>, enemies: Seq<Character>) -> Seq<
    Character,
> {
    match a {
        Action::Attack { .. } => enemies,
        _ => allies,
    }
}

/// The initiative entry recorded for target slot `j`.
pub open spec fn target_entry(
    a: Action,
    allies: Seq<Character>,
    enemies: Seq<Character>,
    j: int,
) -> InitiativeEntry {
    (InitiativeEntry { team: target_pool(a, allies, enemies)[j].team, index: j as usize,
        initiative: 0 })
}

/// The legal targets among the first `n` roster slots, in slot order.
pub open spec fn targets_upto(
    a: Action,
    actor: Character,
    allies: Seq<Character>,
    enemies: Seq<Character>,
    n: int,
) -> Seq<InitiativeEntry>
    decreases n,
{
    if n <= 0 {
        Seq::<InitiativeEntry>::empty()
    } else {
        targets_upto(a, actor, allies, enemies, n - 1) + if is_target(
            a,
            actor,
            allies,
            enemies,
            n - 1,
        ) {
            seq![target_entry(a, allies, enemies, n - 1)]
        } else {
            Seq::<InitiativeEntry>::empty()
        }
    }
}

/// All legal targets of the action, in slot order.
pub open spec fn targets_spec(
    a: Action,
    actor: Character,
    allies: Seq<Character>,
    enemies: Seq<Character>,
) -> Seq<InitiativeEntry> {
    targets_upto(a, actor, allies, enemies, target_pool(a, allies, enemies).len() as int)
}

/// There is a legal target among the first `n` slots exactly when the target
/// list built from them is nonempty.
pub proof fn lemma_targets_upto_nonempty(
    a: Action,
    actor: Character,
    allies: Seq<Character>,
    enemies: Seq<Character>,
    n: int,
)
    ensures
        (targets_upto(a, actor, allies, enemies, n).len() > 0) <==> (exists|j: int|
            0 <= j < n && is_target(a, actor, allies, enemies, j)),
    decreases n,
{
    if n > 0 {
        lemma_targets_upto_nonempty(a, actor, allies, enemies, n - 1);
        if is_target(a, actor, allies, enemies, n - 1) {
        } else {
            if exists|j: int| 0 <= j < n && is_target(a, actor, allies, enemies, j) {
                let w = choose|j: int| 0 <= j < n && is_target(a, actor, allies, enemies, j);
                assert(0 <= w < n - 1 || w == n - 1);
            }
        }
    }
}

/// Every entry of the target list names a legal target slot of the
/// action's roster, with that slot's team.
pub proof fn lemma_targets_upto_elems(
    a: Action,
    actor: Character,
    allies: Seq<Character>,
    enemies: Seq<Character>,
    n: int,
)
    requires
        n <= target_pool(a, allies, enemies).len(),
        target_pool(a, allies, enemies).len() <= usize::MAX,
    ensures
        forall|k: int| 0 <= k < targets_upto(a, actor, allies, enemies, n).len() ==> {
            let e = #[trigger] targets_upto(a, actor, allies, enemies, n)[k];
            &&& e.index < target_pool(a, allies, enemies).len()
            &&& is_target(a, actor, allies, enemies, e.index as int)
            &&& e.team == target_pool(a, allies, enemies)[e.index as int].team
        },
    decreases n,
{
    if n > 0 {
        lemma_targets_upto_elems(a, actor, allies, enemies, n - 1);
        let prev = targets_upto(a, actor, allies, enemies, n - 1);
        let cur = targets_upto(a, actor, allies, enemies, n);
        assert forall|k: int| 0 <= k < cur.len() implies {
            let e = #[trigger] cur[k];
            &&& e.index < target_pool(a, allies, enemies).len()
            &&& is_target(a, actor, allies, enemies, e.index as int)
            &&& e.team == target_pool(a, allies, enemies)[e.index as int].team
        } by {
            if k < prev.len() {
                assert(cur[k] == prev[k]);
            } else {
                assert(is_target(a, actor, allies, enemies, n - 1));
                assert(cur[k] == target_entry(a, allies, enemies, n - 1));
            }
        }
    }
}

/// An action is valid when its required resources are available and at least
/// one legal target exists.
pub open spec fn is_valid_spec(
    a: Action,
    actor: Character,
    allies: Seq<Character>,
    enemies: Seq<Character>,
) -> bool {
    &&& resources_available_spec(actor, a.required_spec())
    &&& exists|j: int|
        is_target(a, actor, allies, enemies, j)
}

impl Action {
    /// Decides whether the actor can afford the action's required resources.
    fn resources_available(&self, actor: &Character) -> (r: bool)
        ensures
            r == resources_available_spec(*actor, self.required_spec()),
    {
        match self {
            Action::Attack { .. } => true,
            Action::Heal { required_resources, .. } | Action::SecondWind {
                required_resources,
                ..
            } => {
                let mut i: usize = 0;
                while i < required_resources.len()
                    invariant
                        i <= required_resources@.len(),
                        self.required_spec() == required_resources@,
                        forall|j: int| 0 <= j < i ==> cur_of(
                            actor.resources.entries@,
                            kind_view(&(#[trigger] required_resources@[j]).0),
                        ) >= required_resources@[j].1,
                    decreases required_resources@.len() - i,
                {
                    let pair = &required_resources[i];
                    if !actor.has_resource(&pair.0, pair.1) {
                        proof {
                            assert(cur_of(
                                actor.resources.entries@,
                                kind_view(&required_resources@[i as int].0),
                            ) < required_resources@[i as int].1);
                        }
                        return false;
                    }
                    i = i + 1;
                }
                true
            },
        }
    }

    /// Whether the actor can take this action now: the required resources
    /// are available and at least one legal target exists.
    pub fn is_valid(
        &self,
        actor: &Character,
        allies: &Vec<Character>,
        enemies: &Vec<Character>,
    ) -> (r: bool)
        ensures
            r == is_valid_spec(*self, *actor, allies@, enemies@),
    {
        if !self.resources_available(actor) {
            proof {
                lemma_targets_upto_nonempty(
                    *self,
                    *actor,
                    allies@,
                    enemies@,
                    target_pool(*self, allies@, enemies@).len() as int,
                );
            }
            return false;
        }
        let ts = self.valid_targets(actor, allies, enemies);
        proof {
            lemma_targets_upto_nonempty(
                *self,
                *actor,
                allies@,
                enemies@,
                target_pool(*self, allies@, enemies@).len() as int,
            );
            if ts@.len() > 0 {
                let w = choose|j: int|
                    0 <= j < target_pool(*self, allies@, enemies@).len() && is_target(
                        *self,
                        *actor,
                        allies@,
                        enemies@,
                        j,
                    );
                assert(is_target(*self, *actor, allies@, enemies@, w));
            }
            if exists|j: int| is_target(*self, *actor, allies@, enemies@, j) {
                let w = choose|j: int| is_target(*self, *actor, allies@, enemies@, j);
                assert(0 <= w < target_pool(*self, allies@, enemies@).len());
            }
        }
        ts.len() > 0
    }

    /// The legal targets of the action, as initiative entries in roster
    /// order.
    pub fn valid_targets(
        &self,
        actor: &Character,
        allies: &Vec<Character>,
        enemies: &Vec<Character>,
    ) -> (r: Vec<InitiativeEntry>)
        ensures
            r@ == targets_spec(*self, *actor, allies@, enemies@),
    {
        let mut out: Vec<InitiativeEntry> = Vec::new();
        let pool_len = match self {
            Action::Attack { .. } => enemies.len(),
            _ => allies.len(),
        };
        let mut j: usize = 0;
        proof {
            assert(out@ =~= targets_upto(*self, *actor, allies@, enemies@, 0));
        }
        while j < pool_len
            invariant
                j <= pool_len,
                pool_len == target_pool(*self, allies@, enemies@).len(),
                out@ == targets_upto(*self, *actor, allies@, enemies@, j as int),
            decreases pool_len - j,
        {
            let ok = match self {
                Action::Attack { .. } => enemies[j].current_hp > 0,
                Action::Heal { .. } => allies[j].current_hp < allies[j].max_hp,
                Action::SecondWind { .. } => {
                    let c = &allies[j];
                    let same = c.name == actor.name;
                    same && c.current_hp < c.max_hp
                },
            };
            if ok {
                let team = match self {
                    Action::Attack { .. } => enemies[j].team,
                    _ => allies[j].team,
                };
                out.push(InitiativeEntry { team, index: j, initiative: 0 });
                proof {
                    assert(out@ =~= targets_upto(*self, *actor, allies@, enemies@, j as int + 1));
                }
            } else {
                proof {
                    assert(out@ =~= targets_upto(*self, *actor, allies@, enemies@, j as int + 1));
                }
            }
            j = j + 1;
        }
        out
    }
}

#[derive(Debug, Clone)]
pub enum ActionResult {
    Attack { hit: HitResult, damage: u64 },
    Heal { amount: u64 },
    Nothing,
}

#[derive(Debug, Clone, PartialEq, Eq, Structural)]
pub enum HitResult {
    Hit,
    Miss,
    Critical,
}

} // verus!
