//! Combatants: hit points, armor class, team, actions, a resource ledger and
//! active conditions, together with the resolution of one action against one
//! target.

use vstd::prelude::*;
use crate::combat::action::{Action, ActionResult, HitResult};
use crate::combat::conditions::{cond_view, conds_view, CondView, Condition, ConditionType, Duration, Effect};
use crate::dice::pool::DicePool;
use crate::team::Team;

verus! {

/// One slot of the fixed initiative order: which combatant acts (by team and
/// index within its roster) and the initiative value it rolled.
#[derive(Clone, Copy, Debug, PartialEq, Eq, Structural)]
pub struct InitiativeEntry {
    pub team: Team,
    pub index: usize,
    pub initiative: i64,
}

/// The identity of a limited-use ability cost.
#[derive(PartialEq, Eq, Hash, Debug)]
pub enum ResourceType {
    SpellSlot(u64),
    Feature(String),
    Points(String),
}

/// The mathematical identity of a resource kind, with names as character
/// sequences.
pub enum KindView {
    Slot(u64),
    Feat(Seq<char>),
    Pts(Seq<char>),
}

pub open spec fn kind_view(k: &ResourceType) -> KindView {
    match k {
        ResourceType::SpellSlot(n) => KindView::Slot(*n),
        ResourceType::Feature(s) => KindView::Feat(s@),
        ResourceType::Points(s) => KindView::Pts(s@),
    }
}

/// Decides whether two resource kinds are the same identity.
pub fn kind_eq(a: &ResourceType, b: &ResourceType) -> (r: bool)
    ensures
        r == (kind_view(a) == kind_view(b)),
{
    match (a, b) {
        (ResourceType::SpellSlot(x), ResourceType::SpellSlot(y)) => x == y,
        (ResourceType::Feature(x), ResourceType::Feature(y)) => *x == *y,
        (ResourceType::Points(x), ResourceType::Points(y)) => *x == *y,
        _ => false,
    }
}

/// One row of the ledger: a kind, its balance, and the cap it recovers to.
#[derive(Debug)]
pub struct ResourceEntry {
    pub kind: ResourceType,
    pub current: u64,
    pub max: u64,
}

/// The balance recorded for a kind; zero when the kind is not registered.
pub open spec fn cur_of(s: Seq<ResourceEntry>, k: KindView) -> int
    decreases s.len(),
{
    if s.len() == 0 {
        0
    } else if kind_view(&s[0].kind) == k {
        s[0].current as int
    } else {
        cur_of(s.skip(1), k)
    }
}

/// The cap recorded for a kind; zero when the kind is not registered.
pub open spec fn max_of(s: Seq<ResourceEntry>, k: KindView) -> int
    decreases s.len(),
{
    if s.len() == 0 {
        0
    } else if kind_view(&s[0].kind) == k {
        s[0].max as int
    } else {
        max_of(s.skip(1), k)
    }
}

pub open spec fn has_kind(s: Seq<ResourceEntry>, k: KindView) -> bool {
    exists|i: int| 0 <= i < s.len() && kind_view(&s[i].kind) == k
}

pub open spec fn kinds_distinct(s: Seq<ResourceEntry>) -> bool {
    forall|i: int, j: int| 0 <= i < j < s.len() ==> kind_view(&(#[trigger] s[i]).kind)
        != kind_view(&(#[trigger] s[j]).kind)
}

/// A per-combatant ledger of consumable resources. Each kind appears once
/// and its balance never exceeds its cap.
#[derive(Debug)]
pub struct Resources {
    pub entries: Vec<ResourceEntry>,
}

impl Resources {
    /// Each kind registered once, every balance within its cap.
    pub open spec fn wf(&self) -> bool {
        &&& kinds_distinct(self.entries@)
        &&& forall|i: int| 0 <= i < self.entries@.len() ==> (#[trigger] self.entries@[i]).current
            <= self.entries@[i].max
    }

    pub fn new() -> (r: Resources)
        ensures
            r.entries@ == Seq::<ResourceEntry>::empty(),
            r.wf(),
    {
        Resources { entries: Vec::new() }
    }

    /// Registers a kind with the given cap and a full balance; a kind already
    /// registered is left as it is.
    pub fn add_max(&mut self, resource_type: ResourceType, amount: u64)
        requires
            old(self).wf(),
        ensures
            final(self).wf(),
            has_kind(old(self).entries@, kind_view(&resource_type)) ==> final(self).entries@ == old(self).entries@,
            !has_kind(old(self).entries@, kind_view(&resource_type)) ==> final(self).entries@
                == old(self).entries@.push(
                (ResourceEntry { kind: resource_type, current: amount, max: amount }),
            ),
    {
        let ghost k = kind_view(&resource_type);
        let mut i: usize = 0;
        while i < self.entries.len()
            invariant
                i <= self.entries@.len(),
                forall|j: int| 0 <= j < i ==> kind_view(&(#[trigger] self.entries@[j]).kind) != k,
                k == kind_view(&resource_type),
                self.entries@ == old(self).entries@,
                self.wf(),
            decreases self.entries@.len() - i,
        {
            if kind_eq(&self.entries[i].kind, &resource_type) {
                return ;
            }
            i = i + 1;
        }
        let ghost before = self.entries@;
        self.entries.push(ResourceEntry { kind: resource_type, current: amount, max: amount });
        proof {
            assert forall|a: int, b: int|
                0 <= a < b < self.entries@.len() implies kind_view(
                &(#[trigger] self.entries@[a]).kind,
            ) != kind_view(&(#[trigger] self.entries@[b]).kind) by {
                if b < before.len() as int {
                    assert(self.entries@[a] == before[a] && self.entries@[b] == before[b]);
                } else {
                    assert(self.entries@[a] == before[a]);
                    assert(kind_view(&before[a].kind) != k);
                }
            }
        }
    }

    /// The balance of a kind; a kind never registered reports zero.
    pub fn get(&self, resource_type: &ResourceType) -> (r: u64)
        ensures
            r as int == cur_of(self.entries@, kind_view(resource_type)),
    {
        let ghost k = kind_view(resource_type);
        let mut i: usize = 0;
        proof {
            assert(self.entries@.skip(0) =~= self.entries@);
        }
        while i < self.entries.len()
            invariant
                i <= self.entries@.len(),
                cur_of(self.entries@, k) == cur_of(self.entries@.skip(i as int), k),
                k == kind_view(resource_type),
            decreases self.entries@.len() - i,
        {
            let e = &self.entries[i];
            proof {
                assert(self.entries@.skip(i as int)[0] == self.entries@[i as int]);
                assert(self.entries@.skip(i as int).skip(1) =~= self.entries@.skip(i as int + 1));
            }
            if kind_eq(&e.kind, resource_type) {
                return e.current;
            }
            i = i + 1;
        }
        proof {
            assert(self.entries@.skip(i as int) =~= Seq::<ResourceEntry>::empty());
        }
        0
    }

    /// Whether the kind is registered in the ledger.
    pub fn has(&self, resource_type: &ResourceType) -> (r: bool)
        ensures
            r == has_kind(self.entries@, kind_view(resource_type)),
    {
        let ghost k = kind_view(resource_type);
        let mut i: usize = 0;
        while i < self.entries.len()
            invariant
                i <= self.entries@.len(),
                forall|j: int| 0 <= j < i ==> kind_view(&(#[trigger] self.entries@[j]).kind) != k,
                k == kind_view(resource_type),
            decreases self.entries@.len() - i,
        {
            if kind_eq(&self.entries[i].kind, resource_type) {
                return true;
            }
            i = i + 1;
        }
        proof {
            if has_kind(self.entries@, k) {
                let w = choose|w: int|
                    0 <= w < self.entries@.len() && kind_view(&self.entries@[w].kind) == k;
                assert(false);
            }
        }
        false
    }

    /// Spends from a kind's balance. The spend is atomic: when the kind is
    /// missing or the balance is short, an error is returned and nothing
    /// changes; otherwise exactly `amount` is deducted from that kind and
    /// every other kind is untouched.
    pub fn spend_ref(&mut self, resource_type: &ResourceType, amount: u64) -> (r: Result<
        (),
        String,
    >)
        requires
            old(self).wf(),
        ensures
            final(self).wf(),
            r is Ok <==> (has_kind(old(self).entries@, kind_view(resource_type)) && cur_of(
                old(self).entries@,
                kind_view(resource_type),
            ) >= amount),
            r is Err ==> final(self).entries@ == old(self).entries@,
            r is Ok ==> {
                &&& cur_of(final(self).entries@, kind_view(resource_type)) == cur_of(
                    old(self).entries@,
                    kind_view(resource_type),
                ) - amount
                &&& forall|k2: KindView| k2 != kind_view(resource_type) ==> #[trigger] cur_of(
                    final(self).entries@,
                    k2,
                ) == cur_of(old(self).entries@, k2)
                &&& forall|k2: KindView| #[trigger] max_of(final(self).entries@, k2) == max_of(
                    old(self).entries@,
                    k2,
                )
                &&& forall|k2: KindView| #[trigger] has_kind(final(self).entries@, k2)
                    == has_kind(old(self).entries@, k2)
            },
    {
        let ghost k = kind_view(resource_type);
        let mut i: usize = 0;
        while i < self.entries.len()
            invariant
                i <= self.entries@.len(),
                forall|j: int| 0 <= j < i ==> kind_view(&(#[trigger] self.entries@[j]).kind) != k,
                k == kind_view(&resource_type),
                self.entries@ == old(self).entries@,
                self.wf(),
            decreases self.entries@.len() - i,
        {
            if kind_eq(&self.entries[i].kind, resource_type) {
                proof {
                    lemma_cur_of_first(self.entries@, i as int, k);
                }
                let e = &self.entries[i];
                if e.current >= amount {
                    let newe = ResourceEntry {
                        kind: resource_type.clone(),
                        current: e.current - amount,
                        max: e.max,
                    };
                    let ghost before = self.entries@;
                    self.entries[i] = newe;
                    proof {
                        lemma_ledger_update(before, i as int, newe, k);
                    }
                    return Ok(());
                } else {
                    return Err(("insufficient resource").to_owned());
                }
            }
            i = i + 1;
        }
        proof {
            if has_kind(self.entries@, k) {
                let w = choose|w: int|
                    0 <= w < self.entries@.len() && kind_view(&self.entries@[w].kind) == k;
                assert(false);
            }
        }
        Err(("no such resource").to_owned())
    }

    /// Recovers into a kind's balance, clamping at its cap; a kind never
    /// registered is left alone.
    pub fn _recover(&mut self, resource_type: ResourceType, amount: u64)
        requires
            old(self).wf(),
        ensures
            final(self).wf(),
            !has_kind(old(self).entries@, kind_view(&resource_type)) ==> final(self).entries@ == old(self).entries@,
            has_kind(old(self).entries@, kind_view(&resource_type)) ==> {
                &&& cur_of(final(self).entries@, kind_view(&resource_type)) == if cur_of(
                    old(self).entries@,
                    kind_view(&resource_type),
                ) + amount > max_of(old(self).entries@, kind_view(&resource_type)) {
                    max_of(old(self).entries@, kind_view(&resource_type))
                } else {
                    cur_of(old(self).entries@, kind_view(&resource_type)) + amount
                }
                &&& forall|k2: KindView| k2 != kind_view(&resource_type) ==> #[trigger] cur_of(
                    final(self).entries@,
                    k2,
                ) == cur_of(old(self).entries@, k2)
                &&& forall|k2: KindView| #[trigger] max_of(final(self).entries@, k2) == max_of(
                    old(self).entries@,
                    k2,
                )
                &&& forall|k2: KindView| #[trigger] has_kind(final(self).entries@, k2) == has_kind(
                    old(self).entries@,
                    k2,
                )
            },
    {
        let ghost k = kind_view(&resource_type);
        let mut i: usize = 0;
        while i < self.entries.len()
            invariant
                i <= self.entries@.len(),
                forall|j: int| 0 <= j < i ==> kind_view(&(#[trigger] self.entries@[j]).kind) != k,
                k == kind_view(&resource_type),
                self.entries@ == old(self).entries@,
                self.wf(),
            decreases self.entries@.len() - i,
        {
            if kind_eq(&self.entries[i].kind, &resource_type) {
                proof {
                    lemma_cur_of_first(self.entries@, i as int, k);
                }
                let e = &self.entries[i];
                let newcur: u64 = if amount > e.max - e.current {
                    e.max
                } else {
                    e.current + amount
                };
                let newe = ResourceEntry { kind: resource_type.clone(), current: newcur, max: e.max };
                let ghost before = self.entries@;
                self.entries[i] = newe;
                proof {
                    lemma_ledger_update(before, i as int, newe, k);
                }
                return ;
            }
            i = i + 1;
        }
        proof {
            if has_kind(self.entries@, k) {
                let w = choose|w: int|
                    0 <= w < self.entries@.len() && kind_view(&self.entries@[w].kind) == k;
                assert(false);
            }
        }
    }
}

impl Clone for ResourceType {
    fn clone(&self) -> (r: Self)
        ensures
            r == *self,
    {
        match self {
            ResourceType::SpellSlot(n) => ResourceType::SpellSlot(*n),
            ResourceType::Feature(s) => ResourceType::Feature(s.clone()),
            ResourceType::Points(s) => ResourceType::Points(s.clone()),
        }
    }
}

impl Clone for ResourceEntry {
    fn clone(&self) -> (r: Self)
        ensures
            r == *self,
    {
        ResourceEntry { kind: self.kind.clone(), current: self.current, max: self.max }
    }
}

impl Clone for Resources {
    fn clone(&self) -> (r: Self)
        ensures
            r.entries@ == self.entries@,
    {
        let mut entries: Vec<ResourceEntry> = Vec::new();
        let mut i: usize = 0;
        while i < self.entries.len()
            invariant
                i <= self.entries@.len(),
                entries@ == self.entries@.take(i as int),
            decreases self.entries@.len() - i,
        {
            entries.push(self.entries[i].clone());
            proof {
                assert(entries@ =~= self.entries@.take(i as int + 1));
            }
            i = i + 1;
        }
        proof {
            assert(self.entries@.take(i as int) =~= self.entries@);
        }
        Resources { entries }
    }
}

/// The amount of a kind an action's requirement list spends in total.
pub open spec fn spent_of(rs: Seq<(ResourceType, u64)>, k: KindView) -> int
    decreases rs.len(),
{
    if rs.len() == 0 {
        0
    } else {
        spent_of(rs.drop_last(), k) + if kind_view(&rs.last().0) == k {
            rs.last().1 as int
        } else {
            0
        }
    }
}

/// The new ledger reads each kind lower by exactly what the requirement list
/// spends of it, with every cap unchanged.
pub open spec fn resources_spent(
    oldr: Resources,
    newr: Resources,
    rs: Seq<(ResourceType, u64)>,
) -> bool {
    &&& forall|k: KindView| #[trigger] cur_of(newr.entries@, k) == cur_of(oldr.entries@, k)
        - spent_of(rs, k)
    &&& forall|k: KindView| #[trigger] max_of(newr.entries@, k) == max_of(oldr.entries@, k)
}

proof fn lemma_spent_take_succ(rs: Seq<(ResourceType, u64)>, k: KindView, i: int)
    requires
        0 <= i < rs.len(),
    ensures
        spent_of(rs.take(i + 1), k) == spent_of(rs.take(i), k) + if kind_view(&rs[i].0) == k {
            rs[i].1 as int
        } else {
            0
        },
{
    assert(rs.take(i + 1).drop_last() =~= rs.take(i));
    assert(rs.take(i + 1).last() == rs[i]);
}

/// A kind named by no requirement is spent nothing.
proof fn lemma_spent_absent(rs: Seq<(ResourceType, u64)>, k: KindView)
    requires
        forall|j: int| 0 <= j < rs.len() ==> kind_view(&(#[trigger] rs[j]).0) != k,
    ensures
        spent_of(rs, k) == 0,
    decreases rs.len(),
{
    if rs.len() > 0 {
        assert(forall|j: int| 0 <= j < rs.len() - 1 ==> rs.drop_last()[j] == #[trigger] rs[j]);
        lemma_spent_absent(rs.drop_last(), k);
    }
}

/// When no entry before `i` carries the kind and entry `i` does, the ledger
/// reads entry `i` for that kind.
proof fn lemma_cur_of_first(s: Seq<ResourceEntry>, i: int, k: KindView)
    requires
        0 <= i < s.len(),
        forall|j: int| 0 <= j < i ==> kind_view(&(#[trigger] s[j]).kind) != k,
        kind_view(&s[i].kind) == k,
    ensures
        cur_of(s, k) == s[i].current as int,
        max_of(s, k) == s[i].max as int,
        has_kind(s, k),
    decreases i,
{
    if i == 0 {
    } else {
        assert(forall|j: int| 0 <= j < i - 1 ==> s.skip(1)[j] == #[trigger] s[j + 1]);
        assert(s.skip(1)[i - 1] == s[i]);
        lemma_cur_of_first(s.skip(1), i - 1, k);
    }
}

/// Replacing the first entry of a kind with one of the same kind changes
/// exactly that kind's readings.
proof fn lemma_ledger_update(s: Seq<ResourceEntry>, i: int, e2: ResourceEntry, k: KindView)
    requires
        0 <= i < s.len(),
        forall|j: int| 0 <= j < i ==> kind_view(&(#[trigger] s[j]).kind) != k,
        kind_view(&s[i].kind) == k,
        kind_view(&e2.kind) == k,
    ensures
        cur_of(s.update(i, e2), k) == e2.current as int,
        max_of(s.update(i, e2), k) == e2.max as int,
        forall|k2: KindView| k2 != k ==> #[trigger] cur_of(s.update(i, e2), k2) == cur_of(s, k2),
        forall|k2: KindView| #[trigger] max_of(s.update(i, e2), k2) == max_of(s, k2) || k2 == k,
        forall|k2: KindView| #[trigger] has_kind(s.update(i, e2), k2) == has_kind(s, k2),
    decreases i,
{
    assert forall|k2: KindView| #[trigger] has_kind(s.update(i, e2), k2) == has_kind(s, k2) by {
        let u = s.update(i, e2);
        assert(forall|x: int| 0 <= x < s.len() ==> kind_view(&(#[trigger] u[x]).kind) == kind_view(
            &s[x].kind,
        ));
        if has_kind(u, k2) {
            let w = choose|w: int| 0 <= w < u.len() && kind_view(&u[w].kind) == k2;
            assert(kind_view(&s[w].kind) == k2);
        }
        if has_kind(s, k2) {
            let w = choose|w: int| 0 <= w < s.len() && kind_view(&s[w].kind) == k2;
            assert(kind_view(&u[w].kind) == k2);
        }
    }
    let u = s.update(i, e2);
    if i == 0 {
        assert(u[0] == e2);
        assert(u.skip(1) =~= s.skip(1));
        assert forall|k2: KindView| k2 != k implies #[trigger] cur_of(u, k2) == cur_of(s, k2) by {
            assert(cur_of(u, k2) == cur_of(u.skip(1), k2));
            assert(cur_of(s, k2) == cur_of(s.skip(1), k2));
        }
        assert forall|k2: KindView| #[trigger] max_of(u, k2) == max_of(s, k2) || k2 == k by {
            if k2 != k {
                assert(max_of(u, k2) == max_of(u.skip(1), k2));
                assert(max_of(s, k2) == max_of(s.skip(1), k2));
            }
        }
    } else {
        assert(u[0] == s[0]);
        assert(u.skip(1) =~= s.skip(1).update(i - 1, e2));
        assert(forall|j: int| 0 <= j < i - 1 ==> s.skip(1)[j] == #[trigger] s[j + 1]);
        assert(s.skip(1)[i - 1] == s[i]);
        lemma_ledger_update(s.skip(1), i - 1, e2, k);
        assert(kind_view(&u[0].kind) != k);
        let us = s.skip(1).update(i - 1, e2);
        assert forall|k2: KindView| k2 != k implies #[trigger] cur_of(u, k2) == cur_of(s, k2) by {
            if kind_view(&u[0].kind) == k2 {
            } else {
                assert(cur_of(u, k2) == cur_of(us, k2));
                assert(cur_of(s, k2) == cur_of(s.skip(1), k2));
            }
        }
        assert forall|k2: KindView| #[trigger] max_of(u, k2) == max_of(s, k2) || k2 == k by {
            if k2 != k {
                if kind_view(&u[0].kind) == k2 {
                } else {
                    assert(max_of(u, k2) == max_of(us, k2));
                    assert(max_of(s, k2) == max_of(s.skip(1), k2));
                }
            }
        }
    }
}

impl Resources {
    /// Spends from a kind's balance, atomically; see `spend_ref`.
    pub fn spend(&mut self, resource_type: ResourceType, amount: u64) -> (r: Result<(), String>)
        requires
            old(self).wf(),
        ensures
            final(self).wf(),
            r is Ok <==> (has_kind(old(self).entries@, kind_view(&resource_type)) && cur_of(
                old(self).entries@,
                kind_view(&resource_type),
            ) >= amount),
            r is Err ==> final(self).entries@ == old(self).entries@,
            r is Ok ==> {
                &&& cur_of(final(self).entries@, kind_view(&resource_type)) == cur_of(
                    old(self).entries@,
                    kind_view(&resource_type),
                ) - amount
                &&& forall|k2: KindView| k2 != kind_view(&resource_type) ==> #[trigger] cur_of(
                    final(self).entries@,
                    k2,
                ) == cur_of(old(self).entries@, k2)
                &&& forall|k2: KindView| #[trigger] max_of(final(self).entries@, k2) == max_of(
                    old(self).entries@,
                    k2,
                )
                &&& forall|k2: KindView| #[trigger] has_kind(final(self).entries@, k2) == has_kind(
                    old(self).entries@,
                    k2,
                )
            },
    {
        self.spend_ref(&resource_type, amount)
    }
}

/// The new hit points after healing: raised by the amount, capped at the
/// maximum.
pub open spec fn heal_applied(old_hp: u64, maxhp: u64, amount: u64) -> u64 {
    if old_hp + amount > maxhp {
        maxhp
    } else {
        (old_hp + amount) as u64
    }
}

/// The new hit points after damage: lowered by the amount, floored at zero.
pub open spec fn damage_applied(old_hp: u64, dealt: u64) -> u64 {
    if dealt > old_hp {
        0u64
    } else {
        (old_hp - dealt) as u64
    }
}

pub open spec fn clamp0(x: int) -> int {
    if x > 0 {
        x
    } else {
        0
    }
}

/// The conditions that survive one end-of-turn decay of the first `n`
/// listed: each with more than one round left, kept with one round less.
pub open spec fn decay_upto(s: Seq<CondView>, n: int) -> Seq<CondView>
    decreases n,
{
    if n <= 0 {
        Seq::<CondView>::empty()
    } else {
        decay_upto(s, n - 1) + if s[n - 1].remaining > 1 {
            seq![
                (CondView {
                    kind: s[n - 1].kind,
                    remaining: (s[n - 1].remaining - 1) as u64,
                    effects: s[n - 1].effects,
                }),
            ]
        } else {
            Seq::<CondView>::empty()
        }
    }
}

/// A condition created with three rounds remains active through two
/// end-of-turn decays and is inactive after the third.
pub proof fn lemma_condition_three_rounds(c: CondView)
    requires
        c.remaining == 3,
    ensures
        decay_upto(seq![c], 1).len() == 1,
        decay_upto(seq![c], 1)[0].kind == c.kind,
        decay_upto(seq![c], 1)[0].remaining == 2,
        decay_upto(decay_upto(seq![c], 1), 1).len() == 1,
        decay_upto(decay_upto(seq![c], 1), 1)[0].kind == c.kind,
        decay_upto(decay_upto(seq![c], 1), 1)[0].remaining == 1,
        decay_upto(decay_upto(decay_upto(seq![c], 1), 1), 1).len() == 0,
{
    assert(decay_upto(seq![c], 0) =~= Seq::<CondView>::empty());
    let s1 = decay_upto(seq![c], 1);
    assert(seq![c][0] == c);
    assert(s1 =~= seq![(CondView { kind: c.kind, remaining: 2, effects: c.effects })]);
    assert(decay_upto(s1, 0) =~= Seq::<CondView>::empty());
    let s2 = decay_upto(s1, 1);
    assert(s2 =~= seq![(CondView { kind: c.kind, remaining: 1, effects: c.effects })]);
    assert(decay_upto(s2, 0) =~= Seq::<CondView>::empty());
    let s3 = decay_upto(s2, 1);
    assert(s3 =~= Seq::<CondView>::empty());
}

/// A combatant: identity, hit points, armor class, team, initiative bonus,
/// its actions, its resource ledger and its active conditions.
#[derive(Debug)]
pub struct Character {
    pub name: String,
    pub max_hp: u64,
    pub current_hp: u64,
    pub ac: u64,
    pub actions: Vec<Action>,
    pub team: Team,
    pub initiative_bonus: i64,
    pub resources: Resources,
    pub active_conditions: Vec<Condition>,
}

impl Clone for Condition {
    fn clone(&self) -> (r: Self)
        ensures
            r.condition == self.condition,
            r.duration == self.duration,
            r.effects@ == self.effects@,
    {
        let mut effects: Vec<Effect> = Vec::new();
        let mut i: usize = 0;
        while i < self.effects.len()
            invariant
                i <= self.effects@.len(),
                effects@ == self.effects@.take(i as int),
            decreases self.effects@.len() - i,
        {
            effects.push(self.effects[i]);
            proof {
                assert(effects@ =~= self.effects@.take(i as int + 1));
            }
            i = i + 1;
        }
        proof {
            assert(self.effects@.take(i as int) =~= self.effects@);
        }
        Condition { condition: self.condition, duration: self.duration, effects }
    }
}

impl Clone for Character {
    fn clone(&self) -> (r: Self)
        ensures
            r.name@ == self.name@,
            r.max_hp == self.max_hp,
            r.current_hp == self.current_hp,
            r.ac == self.ac,
            r.actions@.len() == self.actions@.len(),
            forall|i: int| 0 <= i < self.actions@.len() ==> crate::combat::action::action_like(
                self.actions@[i],
                #[trigger] r.actions@[i],
            ),
            r.team == self.team,
            r.initiative_bonus == self.initiative_bonus,
            r.resources.entries@ == self.resources.entries@,
            conds_view(r.active_conditions@) == conds_view(self.active_conditions@),
            self.wf() ==> r.wf(),
    {
        let mut actions: Vec<Action> = Vec::new();
        let mut i: usize = 0;
        while i < self.actions.len()
            invariant
                i <= self.actions@.len(),
                actions@.len() == i,
                forall|p: int| 0 <= p < i ==> crate::combat::action::action_like(
                    self.actions@[p],
                    #[trigger] actions@[p],
                ),
            decreases self.actions@.len() - i,
        {
            actions.push(self.actions[i].clone());
            i = i + 1;
        }
        let mut active_conditions: Vec<Condition> = Vec::new();
        let mut j: usize = 0;
        while j < self.active_conditions.len()
            invariant
                j <= self.active_conditions@.len(),
                active_conditions@.len() == j,
                forall|p: int| 0 <= p < j ==> cond_view(#[trigger] active_conditions@[p])
                    == cond_view(self.active_conditions@[p]),
            decreases self.active_conditions@.len() - j,
        {
            active_conditions.push(self.active_conditions[j].clone());
            j = j + 1;
        }
        proof {
            assert(conds_view(active_conditions@) =~= conds_view(self.active_conditions@));
            if self.wf() {
                assert forall|p: int| 0 <= p < actions@.len() implies (
                #[trigger] actions@[p]).wf() by {
                    crate::combat::action::lemma_like_wf(self.actions@[p], actions@[p]);
                }
            }
        }
        Character {
            name: self.name.clone(),
            max_hp: self.max_hp,
            current_hp: self.current_hp,
            ac: self.ac,
            actions,
            team: self.team,
            initiative_bonus: self.initiative_bonus,
            resources: self.resources.clone(),
            active_conditions,
        }
    }
}

impl Character {
    /// Hit points within bounds, a well-formed ledger, and every action
    /// rollable without overflow.
    pub open spec fn wf(&self) -> bool {
        &&& self.current_hp <= self.max_hp
        &&& self.resources.wf()
        &&& forall|i: int| 0 <= i < self.actions@.len() ==> (#[trigger] self.actions@[i]).wf()
    }

    /// Some active condition forbids taking actions.
    pub open spec fn blocked_spec(&self) -> bool {
        exists|i: int| 0 <= i < self.active_conditions@.len() && (
        #[trigger] self.active_conditions@[i]).has_effect(Effect::CantTakeActions)
    }

    /// Some active condition imposes disadvantage and the action is an
    /// attack.
    pub open spec fn disadvantage_spec(&self, action: Action) -> bool {
        &&& action matches Action::Attack { .. }
        &&& exists|i: int|
            0 <= i < self.active_conditions@.len() && (#[trigger] self.active_conditions@[i]).has_effect(
                Effect::DisadvantageOnAttacks,
            )
    }

    pub fn new(name: &str, max_hp: u64, ac: u64, team: Team, initiative_bonus: i64) -> (r:
        Character)
        ensures
            r.name@ == name@,
            r.max_hp == max_hp,
            r.current_hp == max_hp,
            r.ac == ac,
            r.team == team,
            r.initiative_bonus == initiative_bonus,
            r.actions@ == Seq::<Action>::empty(),
            r.resources.entries@ == Seq::<ResourceEntry>::empty(),
            r.active_conditions@ == Seq::<Condition>::empty(),
            r.wf(),
    {
        Character {
            name: name.to_owned(),
            max_hp,
            current_hp: max_hp,
            ac,
            actions: Vec::new(),
            team,
            initiative_bonus,
            resources: Resources::new(),
            active_conditions: Vec::new(),
        }
    }

    pub fn add_action(&mut self, action: Action)
        ensures
            final(self).actions@ == old(self).actions@.push(action),
            final(self).name@ == old(self).name@,
            final(self).max_hp == old(self).max_hp,
            final(self).current_hp == old(self).current_hp,
            final(self).ac == old(self).ac,
            final(self).team == old(self).team,
            final(self).initiative_bonus == old(self).initiative_bonus,
            final(self).resources.entries@ == old(self).resources.entries@,
            final(self).active_conditions@ == old(self).active_conditions@,
            old(self).wf() && action.wf() ==> final(self).wf(),
    {
        self.actions.push(action);
    }

    pub fn with_actions(self, actions: Vec<Action>) -> (r: Character)
        ensures
            r.actions@ == self.actions@ + actions@,
            r.name@ == self.name@,
            r.max_hp == self.max_hp,
            r.current_hp == self.current_hp,
            r.ac == self.ac,
            r.team == self.team,
            r.initiative_bonus == self.initiative_bonus,
            r.resources.entries@ == self.resources.entries@,
            r.active_conditions@ == self.active_conditions@,
            (self.wf() && (forall|i: int| 0 <= i < actions@.len() ==> (
            #[trigger] actions@[i]).wf())) ==> r.wf(),
    {
        let mut r = self;
        let mut rest = actions;
        r.actions.append(&mut rest);
        r
    }

    pub fn add_resource(&mut self, resource_type: ResourceType, max: u64)
        requires
            old(self).wf(),
        ensures
            final(self).wf(),
            final(self).name@ == old(self).name@,
            final(self).max_hp == old(self).max_hp,
            final(self).current_hp == old(self).current_hp,
            final(self).ac == old(self).ac,
            final(self).team == old(self).team,
            final(self).initiative_bonus == old(self).initiative_bonus,
            final(self).actions@ == old(self).actions@,
            final(self).active_conditions@ == old(self).active_conditions@,
            has_kind(old(self).resources.entries@, kind_view(&resource_type))
                ==> final(self).resources.entries@ == old(self).resources.entries@,
            !has_kind(old(self).resources.entries@, kind_view(&resource_type))
                ==> final(self).resources.entries@ == old(self).resources.entries@.push(
                (ResourceEntry { kind: resource_type, current: max, max: max }),
            ),
    {
        self.resources.add_max(resource_type, max);
    }

    pub fn with_resources(self, resources: Vec<(ResourceType, u64)>) -> (r: Character)
        requires
            self.wf(),
        ensures
            r.wf(),
            r.name@ == self.name@,
            r.max_hp == self.max_hp,
            r.current_hp == self.current_hp,
            r.ac == self.ac,
            r.team == self.team,
            r.initiative_bonus == self.initiative_bonus,
            r.actions@ == self.actions@,
            r.active_conditions@ == self.active_conditions@,
    {
        let mut r = self;
        let mut i: usize = 0;
        while i < resources.len()
            invariant
                i <= resources@.len(),
                r.wf(),
                r.name@ == self.name@,
                r.max_hp == self.max_hp,
                r.current_hp == self.current_hp,
                r.ac == self.ac,
                r.team == self.team,
                r.initiative_bonus == self.initiative_bonus,
                r.actions@ == self.actions@,
                r.active_conditions@ == self.active_conditions@,
            decreases resources@.len() - i,
        {
            let pair = &resources[i];
            r.add_resource(pair.0.clone(), pair.1);
            i = i + 1;
        }
        r
    }

    pub fn spend_resource(&mut self, resource_type: ResourceType, amount: u64) -> (r: Result<
        (),
        String,
    >)
        requires
            old(self).wf(),
        ensures
            final(self).wf(),
            final(self).name@ == old(self).name@,
            final(self).max_hp == old(self).max_hp,
            final(self).current_hp == old(self).current_hp,
            final(self).ac == old(self).ac,
            final(self).team == old(self).team,
            final(self).initiative_bonus == old(self).initiative_bonus,
            final(self).actions@ == old(self).actions@,
            final(self).active_conditions@ == old(self).active_conditions@,
            r is Ok <==> (has_kind(old(self).resources.entries@, kind_view(&resource_type))
                && cur_of(old(self).resources.entries@, kind_view(&resource_type)) >= amount),
            r is Err ==> final(self).resources.entries@ == old(self).resources.entries@,
            r is Ok ==> {
                &&& cur_of(final(self).resources.entries@, kind_view(&resource_type)) == cur_of(
                    old(self).resources.entries@,
                    kind_view(&resource_type),
                ) - amount
                &&& forall|k2: KindView| k2 != kind_view(&resource_type) ==> #[trigger] cur_of(
                    final(self).resources.entries@,
                    k2,
                ) == cur_of(old(self).resources.entries@, k2)
                &&& forall|k2: KindView| #[trigger] max_of(final(self).resources.entries@, k2)
                    == max_of(old(self).resources.entries@, k2)
            },
    {
        self.resources.spend_ref(&resource_type, amount)
    }

    pub fn has_resource(&self, resource_type: &ResourceType, amount: u64) -> (r: bool)
        ensures
            r == (cur_of(self.resources.entries@, kind_view(resource_type)) >= amount),
    {
        let resource = self.resources.get(resource_type);
        resource >= amount
    }

    pub fn add_condition(&mut self, condition: Condition)
        ensures
            final(self).active_conditions@ == old(self).active_conditions@.push(condition),
            final(self).name@ == old(self).name@,
            final(self).max_hp == old(self).max_hp,
            final(self).current_hp == old(self).current_hp,
            final(self).ac == old(self).ac,
            final(self).team == old(self).team,
            final(self).initiative_bonus == old(self).initiative_bonus,
            final(self).actions@ == old(self).actions@,
            final(self).resources.entries@ == old(self).resources.entries@,
            old(self).wf() ==> final(self).wf(),
    {
        self.active_conditions.push(condition);
    }

    pub fn has_condition(&self, condition: ConditionType) -> (r: bool)
        ensures
            r == exists|i: int|
                0 <= i < self.active_conditions@.len() && (
                #[trigger] self.active_conditions@[i]).condition == condition,
    {
        let mut i: usize = 0;
        while i < self.active_conditions.len()
            invariant
                i <= self.active_conditions@.len(),
                forall|j: int| 0 <= j < i ==> (#[trigger] self.active_conditions@[j]).condition
                    != condition,
            decreases self.active_conditions@.len() - i,
        {
            if self.active_conditions[i].condition == condition {
                return true;
            }
            i = i + 1;
        }
        false
    }

    /// Runs end-of-turn decay: every active condition loses one round; those
    /// that reach zero are dropped.
    pub fn end_turn(&mut self)
        ensures
            conds_view(final(self).active_conditions@) == decay_upto(
                conds_view(old(self).active_conditions@),
                old(self).active_conditions@.len() as int,
            ),
            final(self).name@ == old(self).name@,
            final(self).max_hp == old(self).max_hp,
            final(self).current_hp == old(self).current_hp,
            final(self).ac == old(self).ac,
            final(self).team == old(self).team,
            final(self).initiative_bonus == old(self).initiative_bonus,
            final(self).actions@ == old(self).actions@,
            final(self).resources.entries@ == old(self).resources.entries@,
            old(self).wf() ==> final(self).wf(),
    {
        let ghost cv = conds_view(self.active_conditions@);
        let mut surviving: Vec<Condition> = Vec::new();
        let mut i: usize = 0;
        proof {
            assert(conds_view(surviving@) =~= decay_upto(cv, 0));
        }
        while i < self.active_conditions.len()
            invariant
                i <= self.active_conditions@.len(),
                cv == conds_view(self.active_conditions@),
                conds_view(surviving@) == decay_upto(cv, i as int),
            decreases self.active_conditions@.len() - i,
        {
            let con = &self.active_conditions[i];
            proof {
                assert(cv[i as int] == cond_view(self.active_conditions@[i as int]));
            }
            if con.duration.remaining() > 1 {
                let decayed = Condition::copy_deprecate_duration(con);
                surviving.push(decayed);
                proof {
                    assert(cond_view(decayed) == (CondView {
                        kind: cv[i as int].kind,
                        remaining: (cv[i as int].remaining - 1) as u64,
                        effects: cv[i as int].effects,
                    }));
                    assert(conds_view(surviving@) =~= decay_upto(cv, i as int + 1));
                }
            } else {
                proof {
                    assert(conds_view(surviving@) =~= decay_upto(cv, i as int + 1));
                }
            }
            i = i + 1;
        }
        self.active_conditions = surviving;
    }

    /// Whether a condition imposes disadvantage on this action.
    pub fn has_disadvantage_on(&self, action: &Action) -> (r: bool)
        ensures
            r == self.disadvantage_spec(*action),
    {
        match action {
            Action::Attack { .. } => {
                let mut i: usize = 0;
                while i < self.active_conditions.len()
                    invariant
                        i <= self.active_conditions@.len(),
                        (*action) matches Action::Attack { .. },
                        forall|j: int| 0 <= j < i ==> !(
                        #[trigger] self.active_conditions@[j]).has_effect(
                            Effect::DisadvantageOnAttacks,
                        ),
                    decreases self.active_conditions@.len() - i,
                {
                    if condition_has_effect(&self.active_conditions[i], Effect::DisadvantageOnAttacks) {
                        return true;
                    }
                    i = i + 1;
                }
                proof {
                    if self.disadvantage_spec(*action) {
                        let w = choose|w: int|
                            0 <= w < self.active_conditions@.len() && (
                            #[trigger] self.active_conditions@[w]).has_effect(
                                Effect::DisadvantageOnAttacks,
                            );
                        assert(false);
                    }
                }
                false
            },
            _ => false,
        }
    }
}

/// Decides whether a condition carries the given effect.
pub fn condition_has_effect(c: &Condition, e: Effect) -> (r: bool)
    ensures
        r == c.has_effect(e),
{
    let mut i: usize = 0;
    while i < c.effects.len()
        invariant
            i <= c.effects@.len(),
            forall|j: int| 0 <= j < i ==> (#[trigger] c.effects@[j]) != e,
        decreases c.effects@.len() - i,
    {
        if c.effects[i] == e {
            return true;
        }
        i = i + 1;
    }
    false
}

/// The actions of `c`, among the first `n`, that are valid now, in order.
pub open spec fn valid_actions_upto(
    c: Character,
    allies: Seq<Character>,
    enemies: Seq<Character>,
    n: int,
) -> Seq<Action>
    decreases n,
{
    if n <= 0 {
        Seq::<Action>::empty()
    } else {
        valid_actions_upto(c, allies, enemies, n - 1) + if crate::combat::action::is_valid_spec(
            c.actions@[n - 1],
            c,
            allies,
            enemies,
        ) {
            seq![c.actions@[n - 1]]
        } else {
            Seq::<Action>::empty()
        }
    }
}

/// There is a valid action among the first `n` listed exactly when the
/// valid-action list built from them is nonempty.
pub proof fn lemma_valid_actions_upto_nonempty(
    c: Character,
    allies: Seq<Character>,
    enemies: Seq<Character>,
    n: int,
)
    ensures
        (valid_actions_upto(c, allies, enemies, n).len() > 0) <==> (exists|p: int|
            0 <= p < n && crate::combat::action::is_valid_spec(
                #[trigger] c.actions@[p],
                c,
                allies,
                enemies,
            )),
    decreases n,
{
    if n > 0 {
        lemma_valid_actions_upto_nonempty(c, allies, enemies, n - 1);
        if crate::combat::action::is_valid_spec(c.actions@[n - 1], c, allies, enemies) {
        } else {
            if exists|p: int|
                0 <= p < n && crate::combat::action::is_valid_spec(
                    #[trigger] c.actions@[p],
                    c,
                    allies,
                    enemies,
                ) {
                let w = choose|p: int|
                    0 <= p < n && crate::combat::action::is_valid_spec(
                        #[trigger] c.actions@[p],
                        c,
                        allies,
                        enemies,
                    );
                assert(0 <= w < n - 1 || w == n - 1);
            }
        }
    }
}

/// The action is one of the combatant's listed actions and valid for it
/// now.
pub open spec fn from_action_list(
    a: Action,
    c: Character,
    allies: Seq<Character>,
    enemies: Seq<Character>,
) -> bool {
    exists|p: int|
        0 <= p < c.actions@.len() && a == (#[trigger] c.actions@[p])
            && crate::combat::action::is_valid_spec(c.actions@[p], c, allies, enemies)
}

/// Every element of the valid-action list is one of the combatant's listed
/// actions, and is valid.
pub proof fn lemma_valid_actions_upto_elems(
    c: Character,
    allies: Seq<Character>,
    enemies: Seq<Character>,
    n: int,
)
    requires
        n <= c.actions@.len(),
    ensures
        forall|j: int| 0 <= j < valid_actions_upto(c, allies, enemies, n).len()
            ==> from_action_list(
            #[trigger] valid_actions_upto(c, allies, enemies, n)[j],
            c,
            allies,
            enemies,
        ),
    decreases n,
{
    if n > 0 {
        lemma_valid_actions_upto_elems(c, allies, enemies, n - 1);
        let prev = valid_actions_upto(c, allies, enemies, n - 1);
        let cur = valid_actions_upto(c, allies, enemies, n);
        assert forall|j: int| 0 <= j < cur.len() implies from_action_list(
            #[trigger] cur[j],
            c,
            allies,
            enemies,
        ) by {
            if j < prev.len() {
                assert(cur[j] == prev[j]);
                assert(from_action_list(prev[j], c, allies, enemies));
            } else {
                assert(crate::combat::action::is_valid_spec(c.actions@[n - 1], c, allies, enemies));
                assert(cur[j] == c.actions@[n - 1]);
            }
        }
    }
}

impl Character {
    /// The actions this combatant can take now: none while a condition
    /// blocks actions, otherwise those with their resources available and a
    /// legal target, in list order.
    pub fn valid_actions(&self, allies: &Vec<Character>, enemies: &Vec<Character>) -> (r: Vec<
        Action,
    >)
        requires
            self.wf(),
        ensures
            self.blocked_spec() ==> r@.len() == 0,
            !self.blocked_spec() ==> {
                &&& r@.len() == valid_actions_upto(
                    *self,
                    allies@,
                    enemies@,
                    self.actions@.len() as int,
                ).len()
                &&& forall|i: int| 0 <= i < r@.len() ==> crate::combat::action::action_like(
                    valid_actions_upto(*self, allies@, enemies@, self.actions@.len() as int)[i],
                    #[trigger] r@[i],
                )
            },
            forall|i: int| 0 <= i < r@.len() ==> (#[trigger] r@[i]).wf()
                && crate::combat::action::is_valid_spec(r@[i], *self, allies@, enemies@),
    {
        let mut bi: usize = 0;
        while bi < self.active_conditions.len()
            invariant
                bi <= self.active_conditions@.len(),
                forall|j: int| 0 <= j < bi ==> !(#[trigger] self.active_conditions@[j]).has_effect(
                    Effect::CantTakeActions,
                ),
            decreases self.active_conditions@.len() - bi,
        {
            if condition_has_effect(&self.active_conditions[bi], Effect::CantTakeActions) {
                return Vec::new();
            }
            bi = bi + 1;
        }
        proof {
            if self.blocked_spec() {
                let w = choose|w: int|
                    0 <= w < self.active_conditions@.len() && (
                    #[trigger] self.active_conditions@[w]).has_effect(Effect::CantTakeActions);
                assert(false);
            }
        }
        let ghost full = valid_actions_upto(*self, allies@, enemies@, self.actions@.len() as int);
        let mut out: Vec<Action> = Vec::new();
        let mut i: usize = 0;
        while i < self.actions.len()
            invariant
                i <= self.actions@.len(),
                self.wf(),
                out@.len() == valid_actions_upto(*self, allies@, enemies@, i as int).len(),
                forall|p: int| 0 <= p < out@.len() ==> crate::combat::action::action_like(
                    valid_actions_upto(*self, allies@, enemies@, i as int)[p],
                    #[trigger] out@[p],
                ),
                forall|p: int| 0 <= p < out@.len() ==> (#[trigger] out@[p]).wf()
                    && crate::combat::action::is_valid_spec(out@[p], *self, allies@, enemies@),
            decreases self.actions@.len() - i,
        {
            let c = self.actions[i].clone();
            proof {
                crate::combat::action::lemma_action_like_props(
                    self.actions@[i as int],
                    c,
                    *self,
                    allies@,
                    enemies@,
                );
            }
            let ghost before = valid_actions_upto(*self, allies@, enemies@, i as int);
            if c.is_valid(self, allies, enemies) {
                out.push(c);
                proof {
                    assert(valid_actions_upto(*self, allies@, enemies@, i as int + 1) =~= before
                        + seq![self.actions@[i as int]]);
                }
            } else {
                proof {
                    assert(valid_actions_upto(*self, allies@, enemies@, i as int + 1) =~= before);
                }
            }
            i = i + 1;
        }
        out
    }

    /// Rolls this combatant's initiative: a d20 plus the initiative bonus.
    pub fn roll_initiative(&self) -> (r: i64)
        requires
            -(i64::MAX - 20) <= self.initiative_bonus <= i64::MAX - 20,
        ensures
            self.initiative_bonus + 1 <= r as int <= self.initiative_bonus + 20,
    {
        let pool = DicePool::d20().add_modifier(self.initiative_bonus);
        proof {
            lemma_d20_pool(pool.dice@);
        }
        pool.roll()
    }

    /// Resolves one action by this combatant against a target other than
    /// itself. An attack rolls to hit (with disadvantage when a condition
    /// imposes it), deals damage floored at zero, and never lifts the target
    /// below zero hit points; a natural twenty always hits critically with
    /// the doubled damage pool. A heal first checks every required resource:
    /// when all are available they are spent and the rolled healing, floored
    /// at zero, raises the target to at most its maximum; otherwise nothing
    /// is spent and nothing is healed.
    pub fn take_action(&mut self, target: &mut Character, action: &Action) -> (r: ActionResult)
        requires
            action.wf(),
            old(self).wf(),
            old(target).wf(),
        ensures
            final(self).wf(),
            final(target).wf(),
            final(target).name@ == old(target).name@,
            final(target).max_hp == old(target).max_hp,
            final(target).ac == old(target).ac,
            final(target).team == old(target).team,
            final(target).actions@ == old(target).actions@,
            final(target).initiative_bonus == old(target).initiative_bonus,
            final(target).resources.entries@ == old(target).resources.entries@,
            final(target).active_conditions@ == old(target).active_conditions@,
            final(self).name@ == old(self).name@,
            final(self).max_hp == old(self).max_hp,
            final(self).current_hp == old(self).current_hp,
            final(self).ac == old(self).ac,
            final(self).team == old(self).team,
            final(self).actions@ == old(self).actions@,
            final(self).initiative_bonus == old(self).initiative_bonus,
            final(self).active_conditions@ == old(self).active_conditions@,
            (match *action {
                Action::Attack { hit_bonus, ref damage, .. } => {
                    &&& final(self).resources.entries@ == old(self).resources.entries@
                    &&& (match r {
                        ActionResult::Attack { hit, damage: dealt } => {
                            &&& final(target).current_hp == damage_applied(
                                old(target).current_hp,
                                dealt,
                            )
                            &&& (hit is Miss ==> dealt == 0)
                            &&& (old(target).ac as int <= 1 + hit_bonus ==> !(hit is Miss))
                            &&& (hit is Hit ==> old(target).ac as int <= 20 + hit_bonus)
                            &&& (hit is Hit ==> clamp0(damage.min_total()) <= dealt as int
                                <= clamp0(damage.max_total()))
                            &&& (hit is Critical ==> clamp0(
                                2 * crate::dice::pool::dice_min_sum(damage.dice@)
                                    + damage.modifier,
                            ) <= dealt as int <= clamp0(
                                2 * crate::dice::pool::dice_max_sum(damage.dice@)
                                    + damage.modifier,
                            ))
                        },
                        _ => false,
                    })
                },
                Action::Heal { ref healing, ref required_resources, .. } => heal_ensures(
                    *old(self),
                    *final(self),
                    *old(target),
                    *final(target),
                    r,
                    *healing,
                    required_resources@,
                ),
                Action::SecondWind { ref healing, ref required_resources } => heal_ensures(
                    *old(self),
                    *final(self),
                    *old(target),
                    *final(target),
                    r,
                    *healing,
                    required_resources@,
                ),
            }),
    {
        match action {
            Action::Attack { hit_bonus, damage, .. } => {
                let has_dis = self.has_disadvantage_on(action);
                let d20 = DicePool::d20();
                proof {
                    lemma_d20_pool(d20.dice@);
                }
                let first = d20.roll();
                let face: i64 = if has_dis {
                    let second = d20.roll();
                    if second < first {
                        second
                    } else {
                        first
                    }
                } else {
                    first
                };
                let attack_roll = face + *hit_bonus;
                if face == 20 {
                    let crit = damage.critical_hit();
                    proof {
                        crate::dice::pool::lemma_dice_doubled(damage.dice@, crit.dice@);
                        crate::dice::pool::lemma_dice_sums(damage.dice@);
                    }
                    let rolled = crit.roll();
                    let dealt: u64 = if rolled > 0 {
                        rolled as u64
                    } else {
                        0
                    };
                    apply_damage(target, dealt);
                    ActionResult::Attack { hit: HitResult::Critical, damage: dealt }
                } else {
                    let hits = attack_roll >= 0 && (attack_roll as u64) >= target.ac;
                    if hits {
                        proof {
                            crate::dice::pool::lemma_dice_sums(damage.dice@);
                        }
                        let rolled = damage.roll();
                        let dealt: u64 = if rolled > 0 {
                            rolled as u64
                        } else {
                            0
                        };
                        apply_damage(target, dealt);
                        ActionResult::Attack { hit: HitResult::Hit, damage: dealt }
                    } else {
                        proof {
                            assert(final(target).current_hp == damage_applied(
                                old(target).current_hp,
                                0u64,
                            ));
                        }
                        ActionResult::Attack { hit: HitResult::Miss, damage: 0 }
                    }
                }
            },
            Action::Heal { healing, required_resources, .. } => {
                self.resolve_heal(target, healing, required_resources)
            },
            Action::SecondWind { healing, required_resources } => {
                self.resolve_heal(target, healing, required_resources)
            },
        }
    }

    /// Spends the required resources when all are available and applies the
    /// rolled healing to the target.
    fn resolve_heal(
        &mut self,
        target: &mut Character,
        healing: &DicePool,
        required_resources: &Vec<(ResourceType, u64)>,
    ) -> (r: ActionResult)
        requires
            old(self).wf(),
            old(target).wf(),
            crate::combat::action::pool_wf(*healing),
            crate::combat::action::required_distinct(required_resources@),
        ensures
            final(self).wf(),
            final(target).wf(),
            final(target).name@ == old(target).name@,
            final(target).max_hp == old(target).max_hp,
            final(target).ac == old(target).ac,
            final(target).team == old(target).team,
            final(target).actions@ == old(target).actions@,
            final(target).initiative_bonus == old(target).initiative_bonus,
            final(target).resources.entries@ == old(target).resources.entries@,
            final(target).active_conditions@ == old(target).active_conditions@,
            final(self).name@ == old(self).name@,
            final(self).max_hp == old(self).max_hp,
            final(self).current_hp == old(self).current_hp,
            final(self).ac == old(self).ac,
            final(self).team == old(self).team,
            final(self).actions@ == old(self).actions@,
            final(self).initiative_bonus == old(self).initiative_bonus,
            final(self).active_conditions@ == old(self).active_conditions@,
            heal_ensures(
                *old(self),
                *final(self),
                *old(target),
                *final(target),
                r,
                *healing,
                required_resources@,
            ),
    {
        let mut all_available = true;
        let mut i: usize = 0;
        while i < required_resources.len()
            invariant
                i <= required_resources@.len(),
                all_available == (forall|j: int| 0 <= j < i ==> has_kind(
                    self.resources.entries@,
                    kind_view(&(#[trigger] required_resources@[j]).0),
                ) && cur_of(
                    self.resources.entries@,
                    kind_view(&required_resources@[j].0),
                ) >= required_resources@[j].1),
                self.resources.entries@ == old(self).resources.entries@,
                *self == *old(self),
            decreases required_resources@.len() - i,
        {
            let pair = &required_resources[i];
            if !(self.resources.has(&pair.0) && self.has_resource(&pair.0, pair.1)) {
                all_available = false;
            }
            i = i + 1;
        }
        if !all_available {
            proof {
                assert(!spendable_spec(*old(self), required_resources@));
            }
            return ActionResult::Heal { amount: 0 };
        }
        proof {
            assert(spendable_spec(*old(self), required_resources@));
        }
        // every required kind is available and kinds are distinct, so each
        // spend in turn succeeds
        let mut s: usize = 0;
        proof {
            assert(required_resources@.take(0) =~= Seq::<(ResourceType, u64)>::empty());
        }
        while s < required_resources.len()
            invariant
                s <= required_resources@.len(),
                self.wf(),
                crate::combat::action::required_distinct(required_resources@),
                spendable_spec(*old(self), required_resources@),
                forall|k2: KindView| #[trigger] cur_of(self.resources.entries@, k2) == cur_of(
                    old(self).resources.entries@,
                    k2,
                ) - spent_of(required_resources@.take(s as int), k2),
                forall|k2: KindView| #[trigger] max_of(self.resources.entries@, k2) == max_of(
                    old(self).resources.entries@,
                    k2,
                ),
                forall|k2: KindView| #[trigger] has_kind(self.resources.entries@, k2) == has_kind(
                    old(self).resources.entries@,
                    k2,
                ),
                self.name@ == old(self).name@,
                self.max_hp == old(self).max_hp,
                self.current_hp == old(self).current_hp,
                self.ac == old(self).ac,
                self.team == old(self).team,
                self.actions@ == old(self).actions@,
                self.initiative_bonus == old(self).initiative_bonus,
                self.active_conditions@ == old(self).active_conditions@,
            decreases required_resources@.len() - s,
        {
            let pair = &required_resources[s];
            let ghost kcur = kind_view(&pair.0);
            proof {
                assert forall|j: int| 0 <= j < s implies kind_view(
                    &(#[trigger] required_resources@.take(s as int)[j]).0,
                ) != kcur by {
                    assert(required_resources@.take(s as int)[j] == required_resources@[j]);
                }
                lemma_spent_absent(required_resources@.take(s as int), kcur);
                assert(cur_of(self.resources.entries@, kcur) == cur_of(
                    old(self).resources.entries@,
                    kcur,
                ));
            }
            let res = self.resources.spend_ref(&pair.0, pair.1);
            proof {
                assert(res is Ok);
                assert forall|k2: KindView| #[trigger] cur_of(self.resources.entries@, k2)
                    == cur_of(old(self).resources.entries@, k2) - spent_of(
                    required_resources@.take(s as int + 1),
                    k2,
                ) by {
                    lemma_spent_take_succ(required_resources@, k2, s as int);
                }
            }
            s = s + 1;
        }
        proof {
            assert(required_resources@.take(s as int) =~= required_resources@);
            crate::dice::pool::lemma_dice_sums(healing.dice@);
        }
        let rolled = healing.roll();
        let amount: u64 = if rolled > 0 {
            rolled as u64
        } else {
            0
        };
        let new_hp: u64 = if amount > target.max_hp - target.current_hp {
            target.max_hp
        } else {
            target.current_hp + amount
        };
        target.current_hp = new_hp;
        ActionResult::Heal { amount }
    }
}

/// Every required kind is registered with a sufficient balance, so every
/// spend will succeed.
pub open spec fn spendable_spec(actor: Character, rs: Seq<(ResourceType, u64)>) -> bool {
    forall|i: int| 0 <= i < rs.len() ==> has_kind(
        actor.resources.entries@,
        kind_view(&(#[trigger] rs[i]).0),
    ) && cur_of(actor.resources.entries@, kind_view(&rs[i].0)) >= rs[i].1
}

/// What resolving a heal or second wind promises: with every required kind
/// registered and sufficient, the resources are spent exactly and the rolled
/// amount, floored at zero and capped at the maximum, is healed; otherwise
/// nothing changes and the healing is zero.
pub open spec fn heal_ensures(
    olds: Character,
    news: Character,
    oldt: Character,
    newt: Character,
    r: ActionResult,
    healing: DicePool,
    rs: Seq<(ResourceType, u64)>,
) -> bool {
    match r {
        ActionResult::Heal { amount } => {
            if spendable_spec(olds, rs) {
                &&& resources_spent(olds.resources, news.resources, rs)
                &&& clamp0(healing.min_total()) <= amount as int <= clamp0(healing.max_total())
                &&& newt.current_hp == heal_applied(oldt.current_hp, oldt.max_hp, amount)
            } else {
                &&& news.resources.entries@ == olds.resources.entries@
                &&& amount == 0
                &&& newt.current_hp == oldt.current_hp
            }
        },
        _ => false,
    }
}

/// Applies damage to a target: hit points drop by the amount, floored at
/// zero.
fn apply_damage(target: &mut Character, dealt: u64)
    ensures
        final(target).current_hp == damage_applied(old(target).current_hp, dealt),
        final(target).name@ == old(target).name@,
        final(target).max_hp == old(target).max_hp,
        final(target).ac == old(target).ac,
        final(target).team == old(target).team,
        final(target).actions@ == old(target).actions@,
        final(target).initiative_bonus == old(target).initiative_bonus,
        final(target).resources.entries@ == old(target).resources.entries@,
        final(target).active_conditions@ == old(target).active_conditions@,
        old(target).wf() ==> final(target).wf(),
{
    if dealt > target.current_hp {
        target.current_hp = 0;
    } else {
        target.current_hp = target.current_hp - dealt;
    }
}

/// A single twenty-sided die: its extreme sums and gross.
proof fn lemma_d20_pool(s: Seq<crate::dice::pool::Dice>)
    requires
        s == seq![(crate::dice::pool::Dice { sides: 20, count: 1, negative: false })],
    ensures
        crate::dice::pool::dice_rollable(s),
        crate::dice::pool::dice_gross(s) == 20,
        crate::dice::pool::dice_min_sum(s) == 1,
        crate::dice::pool::dice_max_sum(s) == 20,
{
    let d = crate::dice::pool::Dice { sides: 20, count: 1, negative: false };
    assert(s.drop_last() =~= Seq::<crate::dice::pool::Dice>::empty());
    assert(s.last() == d);
    assert(crate::dice::pool::dice_gross(Seq::<crate::dice::pool::Dice>::empty()) == 0);
    assert(crate::dice::pool::dice_min_sum(Seq::<crate::dice::pool::Dice>::empty()) == 0);
    assert(crate::dice::pool::dice_max_sum(Seq::<crate::dice::pool::Dice>::empty()) == 0);
}

} // verus!
