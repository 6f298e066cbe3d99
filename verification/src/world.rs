//! The entity world the synchronization engine runs against: an arena of
//! entity slots (spawning appends, despawning clears a slot and never reuses
//! its index), per-entity component and blueprint stores, a parent link for
//! the child-attach strategy, the injected derivation parameters, and the
//! two event queues that change detection reads — blueprints changed and
//! blueprints removed since the previous cycle.

use vstd::prelude::*;

use crate::data::Component;
use crate::store::Blueprint;
use crate::store::bp_at;
use crate::store::bps_unique;
use crate::store::comps_unique;
use crate::store::has_bp;
use crate::store::has_ty;
use crate::store::comp_at;
use crate::store::lemma_remove_bp;
use crate::store::lemma_upsert;
use crate::store::lemma_upsert_bp;
use crate::store::remove_bp;
use crate::store::upsert;
use crate::store::upsert_bp;
use crate::store::vec_remove_bp;
use crate::store::vec_upsert;
use crate::store::vec_upsert_bp;
use crate::store::find_comp_idx;
use crate::store::find_bp_idx;

verus! {

/// A change-detection event: the blueprint of payload type `ty` on entity
/// `entity` was written (changed queue) or detached (removed queue).
#[derive(Clone, Copy, Debug, PartialEq, Eq, Structural)]
pub struct Event {
    pub entity: usize,
    pub ty: u64,
}

/// The data of one live entity.
pub struct EntityData {
    pub components: Vec<Component>,
    pub blueprints: Vec<Blueprint>,
    pub parent: Option<usize>,
}

/// The mathematical value of one live entity.
#[verifier::ext_equal]
pub struct EntityModel {
    pub comps: Seq<Component>,
    pub bps: Seq<Blueprint>,
    pub parent: Option<usize>,
}

impl View for EntityData {
    type V = EntityModel;

    open spec fn view(&self) -> EntityModel {
        EntityModel { comps: self.components@, bps: self.blueprints@, parent: self.parent }
    }
}

/// The world.
pub struct World {
    pub slots: Vec<Option<EntityData>>,
    pub changed: Vec<Event>,
    pub removed: Vec<Event>,
    pub params: Vec<u64>,
}

/// The mathematical value of a world.
#[verifier::ext_equal]
pub struct WorldModel {
    pub slots: Seq<Option<EntityModel>>,
    pub changed: Seq<Event>,
    pub removed: Seq<Event>,
    pub params: Seq<u64>,
}

impl View for World {
    type V = WorldModel;

    open spec fn view(&self) -> WorldModel {
        WorldModel {
            slots: Seq::new(
                self.slots@.len(),
                |i: int|
                    match self.slots@[i] {
                        Some(d) => Some(d@),
                        None => None,
                    },
            ),
            changed: self.changed@,
            removed: self.removed@,
            params: self.params@,
        }
    }
}

/// Whether entity `e` exists (was spawned and not despawned).
pub open spec fn alive(w: WorldModel, e: int) -> bool {
    0 <= e < w.slots.len() && w.slots[e] is Some
}

/// The data of a live entity.
pub open spec fn ent(w: WorldModel, e: int) -> EntityModel
    recommends
        alive(w, e),
{
    w.slots[e].unwrap()
}

/// Well-formedness of one entity slot: unique component types, unique
/// blueprint payload types, and a parent spawned strictly earlier — parent
/// links always point backwards, so the hierarchy is acyclic.
pub open spec fn ent_wf(m: EntityModel, e: int) -> bool {
    &&& comps_unique(m.comps)
    &&& bps_unique(m.bps)
    &&& match m.parent {
        Some(p) => (p as int) < e,
        None => true,
    }
}

/// World invariant: every live slot is well-formed and every queued event
/// names a slot index that exists (the entity itself may be dead — removal
/// events routinely outlive their entity).
pub open spec fn wm_inv(w: WorldModel) -> bool {
    &&& forall|e: int|
        0 <= e < w.slots.len() && w.slots[e] is Some ==> ent_wf((#[trigger] w.slots[e]).unwrap(), e)
    &&& forall|i: int| 0 <= i < w.changed.len() ==> (#[trigger] w.changed[i]).entity < w.slots.len()
    &&& forall|i: int| 0 <= i < w.removed.len() ==> (#[trigger] w.removed[i]).entity < w.slots.len()
}

/// Queue an event unless an equal one is already queued: a blueprint written
/// several times within one cycle is still one change.
pub open spec fn push_event(evs: Seq<Event>, ev: Event) -> Seq<Event> {
    if evs.contains(ev) {
        evs
    } else {
        evs.push(ev)
    }
}

/// Queue removal events for the first `n` blueprints of a despawned entity.
pub open spec fn push_bp_events_upto(evs: Seq<Event>, e: usize, bps: Seq<Blueprint>, n: int) -> Seq<
    Event,
>
    decreases n,
{
    if n <= 0 {
        evs
    } else {
        push_event(
            push_bp_events_upto(evs, e, bps, n - 1),
            Event { entity: e, ty: bps[n - 1].payload.ty },
        )
    }
}

/// Whether entity `e` is connected to entity `x` by a chain of parent links
/// running through live entities only. This is what the child-attach
/// strategy's removal traverses; a dead entity on the chain breaks it, so
/// dangling parent references are tolerated rather than followed.
pub open spec fn chain_to(slots: Seq<Option<EntityModel>>, e: int, x: int) -> bool
    decreases e,
{
    &&& 0 <= e < slots.len()
    &&& slots[e] is Some
    &&& match slots[e].unwrap().parent {
        Some(p) => (p as int) == x || ((p as int) < e && chain_to(slots, p as int, x)),
        None => false,
    }
}

/// Chains only read liveness and parent links: worlds that agree on those
/// agree on every chain.
pub proof fn lemma_chain_same(s1: Seq<Option<EntityModel>>, s2: Seq<Option<EntityModel>>, e: int, x: int)
    requires
        s1.len() == s2.len(),
        forall|i: int| 0 <= i < s1.len() ==> ((#[trigger] s1[i]) is Some <==> (#[trigger] s2[i]) is Some),
        forall|i: int|
            0 <= i < s1.len() && s1[i] is Some ==> (#[trigger] s1[i]).unwrap().parent == (
            #[trigger] s2[i]).unwrap().parent,
    ensures
        chain_to(s1, e, x) == chain_to(s2, e, x),
    decreases e,
{
    if 0 <= e < s1.len() && s1[e] is Some {
        match s1[e].unwrap().parent {
            Some(p) => {
                if (p as int) < e {
                    lemma_chain_same(s1, s2, p as int, x);
                }
            },
            None => {},
        }
    }
}

/// Parent links point backwards, so a chain only ever reaches an entity
/// spawned earlier: nothing chains to itself or to a later entity.
pub proof fn lemma_chain_implies_greater(slots: Seq<Option<EntityModel>>, i: int, x: int)
    requires
        forall|j: int|
            0 <= j < slots.len() && slots[j] is Some ==> ent_wf((#[trigger] slots[j]).unwrap(), j),
    ensures
        chain_to(slots, i, x) ==> i > x,
    decreases i,
{
    if chain_to(slots, i, x) {
        assert(ent_wf(slots[i].unwrap(), i));
        match slots[i].unwrap().parent {
            Some(p) => {
                if (p as int) == x {
                    assert((p as int) < i);
                } else {
                    lemma_chain_implies_greater(slots, p as int, x);
                }
            },
            None => {},
        }
    }
}

// ---------------------------------------------------------------------------
// Event queue helpers
// ---------------------------------------------------------------------------
/// Whether this event is already queued.
fn contains_event(evs: &Vec<Event>, ev: Event) -> (b: bool)
    ensures
        b == evs@.contains(ev),
{
    let n = evs.len();
    let mut i: usize = 0;
    while i < n
        invariant
            n == evs@.len(),
            0 <= i <= n,
            forall|j: int| 0 <= j < i ==> (#[trigger] evs@[j]) != ev,
        decreases n - i,
    {
        if evs[i].entity == ev.entity && evs[i].ty == ev.ty {
            proof {
                assert(evs@[i as int] == ev);
            }
            return true;
        }
        i = i + 1;
    }
    proof {
        if evs@.contains(ev) {
            let j = choose|j: int| 0 <= j < evs@.len() && evs@[j] == ev;
            assert(evs@[j] == ev);
        }
    }
    false
}

/// Queue an event, deduplicated.
fn push_event_exec(evs: &mut Vec<Event>, ev: Event)
    ensures
        final(evs)@ == push_event(old(evs)@, ev),
{
    if !contains_event(evs, ev) {
        evs.push(ev);
    }
}

impl World {
    /// A fresh world: no entities, no pending events, no parameters.
    pub fn new() -> (w: World)
        ensures
            w@ == (WorldModel {
                slots: Seq::<Option<EntityModel>>::empty(),
                changed: Seq::<Event>::empty(),
                removed: Seq::<Event>::empty(),
                params: Seq::<u64>::empty(),
            }),
            wm_inv(w@),
    {
        let w = World { slots: Vec::new(), changed: Vec::new(), removed: Vec::new(), params: Vec::new() };
        proof {
            assert(w@.slots =~= Seq::<Option<EntityModel>>::empty());
            assert(w@ =~= (WorldModel {
                slots: Seq::<Option<EntityModel>>::empty(),
                changed: Seq::<Event>::empty(),
                removed: Seq::<Event>::empty(),
                params: Seq::<u64>::empty(),
            }));
        }
        w
    }

    /// Replace the injected derivation parameters.
    pub fn set_params(&mut self, params: Vec<u64>)
        requires
            wm_inv(old(self)@),
        ensures
            wm_inv(final(self)@),
            final(self)@ == (WorldModel { params: params@, ..old(self)@ }),
    {
        self.params = params;
        proof {
            assert(self@ =~= (WorldModel { params: self.params@, ..old(self)@ }));
        }
    }

    /// The number of entity slots ever spawned (live or not); slot indices
    /// range below this.
    pub fn slot_count(&self) -> (n: usize)
        ensures
            n == self@.slots.len(),
    {
        self.slots.len()
    }

    /// Whether this entity exists.
    pub fn is_alive(&self, e: usize) -> (b: bool)
        ensures
            b == alive(self@, e as int),
    {
        e < self.slots.len() && self.slots[e].is_some()
    }

    /// Spawn a fresh, empty entity. Returns its index.
    pub fn spawn_empty(&mut self) -> (e: usize)
        requires
            wm_inv(old(self)@),
        ensures
            wm_inv(final(self)@),
            e == old(self)@.slots.len(),
            final(self)@ == (WorldModel {
                slots: old(self)@.slots.push(
                    Some(EntityModel { comps: Seq::empty(), bps: Seq::empty(), parent: None }),
                ),
                ..old(self)@
            }),
    {
        let e = self.slots.len();
        self.slots.push(Some(EntityData { components: Vec::new(), blueprints: Vec::new(), parent: None }));
        proof {
            assert(self@.slots =~= old(self)@.slots.push(
                Some(EntityModel { comps: Seq::empty(), bps: Seq::empty(), parent: None }),
            ));
            assert(self@ =~= (WorldModel {
                slots: old(self)@.slots.push(
                    Some(EntityModel { comps: Seq::empty(), bps: Seq::empty(), parent: None }),
                ),
                ..old(self)@
            }));
        }
        e
    }

    /// Spawn a fresh entity carrying one blueprint; queues the change event
    /// that makes the next Sync phase derive its output (insertion counts as
    /// a change).
    pub fn spawn_with(&mut self, bp: Blueprint) -> (e: usize)
        requires
            wm_inv(old(self)@),
        ensures
            wm_inv(final(self)@),
            e == old(self)@.slots.len(),
            final(self)@ == (WorldModel {
                slots: old(self)@.slots.push(
                    Some(EntityModel { comps: Seq::empty(), bps: seq![bp], parent: None }),
                ),
                changed: push_event(old(self)@.changed, Event { entity: e, ty: bp.payload.ty }),
                ..old(self)@
            }),
    {
        let e = self.slots.len();
        let mut blueprints: Vec<Blueprint> = Vec::new();
        blueprints.push(bp);
        proof {
            assert(blueprints@ =~= seq![bp]);
        }
        self.slots.push(Some(EntityData { components: Vec::new(), blueprints, parent: None }));
        push_event_exec(&mut self.changed, Event { entity: e, ty: bp.payload.ty });
        proof {
            assert(self@.slots =~= old(self)@.slots.push(
                Some(EntityModel { comps: Seq::empty(), bps: seq![bp], parent: None }),
            ));
            assert(self@ =~= (WorldModel {
                slots: old(self)@.slots.push(
                    Some(EntityModel { comps: Seq::empty(), bps: seq![bp], parent: None }),
                ),
                changed: push_event(old(self)@.changed, Event { entity: e, ty: bp.payload.ty }),
                ..old(self)@
            }));
        }
        e
    }

    /// Spawn a fresh, empty entity as a child of an existing one.
    pub fn spawn_child_of(&mut self, parent: usize) -> (e: usize)
        requires
            wm_inv(old(self)@),
            alive(old(self)@, parent as int),
        ensures
            wm_inv(final(self)@),
            e == old(self)@.slots.len(),
            final(self)@ == (WorldModel {
                slots: old(self)@.slots.push(
                    Some(EntityModel { comps: Seq::empty(), bps: Seq::empty(), parent: Some(parent) }),
                ),
                ..old(self)@
            }),
    {
        let e = self.slots.len();
        self.slots.push(
            Some(EntityData { components: Vec::new(), blueprints: Vec::new(), parent: Some(parent) }),
        );
        proof {
            assert(self@.slots =~= old(self)@.slots.push(
                Some(EntityModel { comps: Seq::empty(), bps: Seq::empty(), parent: Some(parent) }),
            ));
            assert(self@ =~= (WorldModel {
                slots: old(self)@.slots.push(
                    Some(EntityModel { comps: Seq::empty(), bps: Seq::empty(), parent: Some(parent) }),
                ),
                ..old(self)@
            }));
        }
        e
    }

    /// Attach a blueprint to a live entity, replacing the record of the same
    /// payload type if one is attached, and queue the change event. Writing
    /// an equal payload still counts as a change.
    pub fn insert_blueprint(&mut self, e: usize, bp: Blueprint)
        requires
            wm_inv(old(self)@),
            alive(old(self)@, e as int),
        ensures
            wm_inv(final(self)@),
            final(self)@ == (WorldModel {
                slots: old(self)@.slots.update(
                    e as int,
                    Some(EntityModel {
                        bps: upsert_bp(ent(old(self)@, e as int).bps, bp),
                        ..ent(old(self)@, e as int)
                    }),
                ),
                changed: push_event(old(self)@.changed, Event { entity: e, ty: bp.payload.ty }),
                ..old(self)@
            }),
    {
        let ghost m0 = ent(old(self)@, e as int);
        let slot = self.slots.remove(e);
        let mut d = slot.unwrap();
        proof {
            assert(d@ == m0);
            lemma_upsert_bp(m0.bps, bp);
        }
        vec_upsert_bp(&mut d.blueprints, bp);
        self.slots.insert(e, Some(d));
        push_event_exec(&mut self.changed, Event { entity: e, ty: bp.payload.ty });
        proof {
            assert(self.slots@ =~= old(self).slots@.update(e as int, Some(d)));
            assert(self@.slots =~= old(self)@.slots.update(
                e as int,
                Some(EntityModel { bps: upsert_bp(m0.bps, bp), ..m0 }),
            ));
            assert(self@ =~= (WorldModel {
                slots: old(self)@.slots.update(
                    e as int,
                    Some(EntityModel { bps: upsert_bp(m0.bps, bp), ..m0 }),
                ),
                changed: push_event(old(self)@.changed, Event { entity: e, ty: bp.payload.ty }),
                ..old(self)@
            }));
        }
    }

    /// Detach the blueprint of this payload type from a live entity, if
    /// attached, and queue the removal event that makes the next Cleanup
    /// phase tear its output down. Detaching an absent blueprint queues
    /// nothing.
    pub fn remove_blueprint(&mut self, e: usize, ty: u64)
        requires
            wm_inv(old(self)@),
            alive(old(self)@, e as int),
        ensures
            wm_inv(final(self)@),
            final(self)@ == (WorldModel {
                slots: old(self)@.slots.update(
                    e as int,
                    Some(EntityModel {
                        bps: remove_bp(ent(old(self)@, e as int).bps, ty),
                        ..ent(old(self)@, e as int)
                    }),
                ),
                removed: if has_bp(ent(old(self)@, e as int).bps, ty) {
                    push_event(old(self)@.removed, Event { entity: e, ty })
                } else {
                    old(self)@.removed
                },
                ..old(self)@
            }),
    {
        let ghost m0 = ent(old(self)@, e as int);
        let slot = self.slots.remove(e);
        let mut d = slot.unwrap();
        proof {
            assert(d@ == m0);
            lemma_remove_bp(m0.bps, ty);
        }
        let was = vec_remove_bp(&mut d.blueprints, ty);
        self.slots.insert(e, Some(d));
        if was {
            push_event_exec(&mut self.removed, Event { entity: e, ty });
        }
        proof {
            assert(self.slots@ =~= old(self).slots@.update(e as int, Some(d)));
            assert(self@.slots =~= old(self)@.slots.update(
                e as int,
                Some(EntityModel { bps: remove_bp(m0.bps, ty), ..m0 }),
            ));
            assert(self@ =~= (WorldModel {
                slots: old(self)@.slots.update(
                    e as int,
                    Some(EntityModel { bps: remove_bp(m0.bps, ty), ..m0 }),
                ),
                removed: if has_bp(m0.bps, ty) {
                    push_event(old(self)@.removed, Event { entity: e, ty })
                } else {
                    old(self)@.removed
                },
                ..old(self)@
            }));
        }
    }

    /// Insert a component on a live entity, replacing the component of the
    /// same type if present. Components are not change-detected; only
    /// blueprints are.
    pub fn insert_component(&mut self, e: usize, c: Component)
        requires
            wm_inv(old(self)@),
            alive(old(self)@, e as int),
        ensures
            wm_inv(final(self)@),
            final(self)@ == (WorldModel {
                slots: old(self)@.slots.update(
                    e as int,
                    Some(EntityModel {
                        comps: upsert(ent(old(self)@, e as int).comps, c),
                        ..ent(old(self)@, e as int)
                    }),
                ),
                ..old(self)@
            }),
    {
        let ghost m0 = ent(old(self)@, e as int);
        let slot = self.slots.remove(e);
        let mut d = slot.unwrap();
        proof {
            assert(d@ == m0);
            lemma_upsert(m0.comps, c);
        }
        vec_upsert(&mut d.components, c);
        self.slots.insert(e, Some(d));
        proof {
            assert(self.slots@ =~= old(self).slots@.update(e as int, Some(d)));
            assert(self@.slots =~= old(self)@.slots.update(
                e as int,
                Some(EntityModel { comps: upsert(m0.comps, c), ..m0 }),
            ));
            assert(self@ =~= (WorldModel {
                slots: old(self)@.slots.update(
                    e as int,
                    Some(EntityModel { comps: upsert(m0.comps, c), ..m0 }),
                ),
                ..old(self)@
            }));
        }
    }

    /// Destroy an entity directly: its slot is cleared (children are left
    /// in place with a dangling parent link) and a removal event is queued
    /// for each blueprint it carried, so the next Cleanup phase can tear
    /// down or orphan-clean its output. Despawning a dead entity is a no-op.
    pub fn despawn(&mut self, e: usize)
        requires
            wm_inv(old(self)@),
        ensures
            wm_inv(final(self)@),
            final(self)@ == despawn_spec(old(self)@, e),
    {
        if e < self.slots.len() && self.slots[e].is_some() {
            let ghost m0 = ent(old(self)@, e as int);
            let slot = self.slots.remove(e);
            let d = slot.unwrap();
            self.slots.insert(e, None);
            proof {
                assert(d@ == m0);
                assert(self.slots@ =~= old(self).slots@.update(e as int, None));
                assert(self@.slots =~= old(self)@.slots.update(e as int, None));
            }
            let n = d.blueprints.len();
            let mut j: usize = 0;
            while j < n
                invariant
                    n == d.blueprints@.len(),
                    0 <= j <= n,
                    self@.removed == push_bp_events_upto(old(self)@.removed, e, d.blueprints@, j as int),
                    self@.slots == old(self)@.slots.update(e as int, None),
                    self@.changed == old(self)@.changed,
                    self@.params == old(self)@.params,
                decreases n - j,
            {
                push_event_exec(
                    &mut self.removed,
                    Event { entity: e, ty: d.blueprints[j].payload.ty },
                );
                j = j + 1;
            }
            proof {
                assert(self@ =~= despawn_spec(old(self)@, e));
                lemma_push_bp_events_bounded(old(self)@.removed, e, d.blueprints@, n as int);
            }
        } else {
            proof {
                assert(self@ =~= despawn_spec(old(self)@, e));
            }
        }
    }

    /// Drop both event queues; the scheduler does this at the start of the
    /// Flush phase, once every unit has read them.
    pub fn clear_events(&mut self)
        requires
            wm_inv(old(self)@),
        ensures
            wm_inv(final(self)@),
            final(self)@ == (WorldModel {
                changed: Seq::<Event>::empty(),
                removed: Seq::<Event>::empty(),
                ..old(self)@
            }),
    {
        self.changed.clear();
        self.removed.clear();
        proof {
            assert(self@ =~= (WorldModel {
                changed: Seq::<Event>::empty(),
                removed: Seq::<Event>::empty(),
                ..old(self)@
            }));
        }
    }

    /// The component of this type on this entity, if the entity is alive and
    /// holds one.
    pub fn get_component(&self, e: usize, ty: u64) -> (r: Option<Component>)
        requires
            wm_inv(self@),
        ensures
            r == if alive(self@, e as int) && has_ty(ent(self@, e as int).comps, ty) {
                Some(comp_at(ent(self@, e as int).comps, ty))
            } else {
                None::<Component>
            },
    {
        if e < self.slots.len() {
            match &self.slots[e] {
                Some(d) => {
                    match find_comp_idx(&d.components, ty) {
                        Some(i) => {
                            let c = d.components[i];
                            proof {
                                let cs = ent(self@, e as int).comps;
                                let k = crate::store::comp_index(cs, ty);
                                assert(cs[k].ty == ty);
                                assert(k == i);
                            }
                            Some(c)
                        },
                        None => None,
                    }
                },
                None => None,
            }
        } else {
            None
        }
    }

    /// The blueprint of this payload type on this entity, if the entity is
    /// alive and holds one.
    pub fn get_blueprint(&self, e: usize, ty: u64) -> (r: Option<Blueprint>)
        requires
            wm_inv(self@),
        ensures
            r == if alive(self@, e as int) && has_bp(ent(self@, e as int).bps, ty) {
                Some(bp_at(ent(self@, e as int).bps, ty))
            } else {
                None::<Blueprint>
            },
    {
        if e < self.slots.len() {
            match &self.slots[e] {
                Some(d) => {
                    match find_bp_idx(&d.blueprints, ty) {
                        Some(i) => {
                            let b = d.blueprints[i];
                            proof {
                                let bs = ent(self@, e as int).bps;
                                assert(has_bp(bs, ty));
                                let k = crate::store::bp_index(bs, ty);
                                assert(bs[k].payload.ty == ty);
                                assert(k == i);
                            }
                            Some(b)
                        },
                        None => None,
                    }
                },
                None => None,
            }
        } else {
            None
        }
    }

    /// The parent of this entity, if it is alive and has one.
    pub fn parent_of(&self, e: usize) -> (r: Option<usize>)
        ensures
            r == if alive(self@, e as int) {
                ent(self@, e as int).parent
            } else {
                None::<usize>
            },
    {
        if e < self.slots.len() {
            match &self.slots[e] {
                Some(d) => d.parent,
                None => None,
            }
        } else {
            None
        }
    }
}

/// Whether an entity holds a component of every one of these types.
pub open spec fn has_all_tys(m: EntityModel, tys: Seq<u64>) -> bool {
    forall|j: int| 0 <= j < tys.len() ==> has_ty(m.comps, #[trigger] tys[j])
}

/// Whether an entity holds a component of at least one of these types.
pub open spec fn has_any_ty(m: EntityModel, tys: Seq<u64>) -> bool {
    exists|j: int| 0 <= j < tys.len() && has_ty(m.comps, #[trigger] tys[j])
}

/// The live entities below index `n` holding all of these component types,
/// in index order.
pub open spec fn ids_with_all_upto(w: WorldModel, tys: Seq<u64>, n: int) -> Seq<usize>
    decreases n,
{
    if n <= 0 {
        Seq::empty()
    } else {
        ids_with_all_upto(w, tys, n - 1) + (if alive(w, n - 1) && has_all_tys(ent(w, n - 1), tys) {
            seq![(n - 1) as usize]
        } else {
            Seq::empty()
        })
    }
}

/// The live entities below index `n` holding any of these component types,
/// in index order.
pub open spec fn ids_with_any_upto(w: WorldModel, tys: Seq<u64>, n: int) -> Seq<usize>
    decreases n,
{
    if n <= 0 {
        Seq::empty()
    } else {
        ids_with_any_upto(w, tys, n - 1) + (if alive(w, n - 1) && has_any_ty(ent(w, n - 1), tys) {
            seq![(n - 1) as usize]
        } else {
            Seq::empty()
        })
    }
}

/// The live direct children of `e` below index `n`, in index order.
pub open spec fn children_upto(w: WorldModel, e: usize, n: int) -> Seq<usize>
    decreases n,
{
    if n <= 0 {
        Seq::empty()
    } else {
        children_upto(w, e, n - 1) + (if alive(w, n - 1) && ent(w, n - 1).parent == Some(e) {
            seq![(n - 1) as usize]
        } else {
            Seq::empty()
        })
    }
}

/// Whether this entity holds a component of every one of these types.
fn entity_has_all(d: &EntityData, tys: &Vec<u64>) -> (b: bool)
    ensures
        b == has_all_tys(d@, tys@),
{
    let n = tys.len();
    let mut j: usize = 0;
    while j < n
        invariant
            n == tys@.len(),
            0 <= j <= n,
            forall|k: int| 0 <= k < j ==> has_ty(d@.comps, #[trigger] tys@[k]),
        decreases n - j,
    {
        match find_comp_idx(&d.components, tys[j]) {
            Some(_) => {},
            None => {
                return false;
            },
        }
        j = j + 1;
    }
    true
}

/// Whether this entity holds a component of at least one of these types.
fn entity_has_any(d: &EntityData, tys: &Vec<u64>) -> (b: bool)
    ensures
        b == has_any_ty(d@, tys@),
{
    let n = tys.len();
    let mut j: usize = 0;
    while j < n
        invariant
            n == tys@.len(),
            0 <= j <= n,
            forall|k: int| 0 <= k < j ==> !has_ty(d@.comps, #[trigger] tys@[k]),
        decreases n - j,
    {
        match find_comp_idx(&d.components, tys[j]) {
            Some(i) => {
                proof {
                    assert(has_ty(d@.comps, tys@[j as int]));
                }
                return true;
            },
            None => {},
        }
        j = j + 1;
    }
    proof {
        if has_any_ty(d@, tys@) {
            let k = choose|k: int| 0 <= k < tys@.len() && has_ty(d@.comps, #[trigger] tys@[k]);
            assert(!has_ty(d@.comps, tys@[k]));
        }
    }
    false
}

impl World {
    /// The live entities holding components of all these types, in spawn
    /// order.
    pub fn entities_with_all(&self, tys: &Vec<u64>) -> (r: Vec<usize>)
        ensures
            r@ == ids_with_all_upto(self@, tys@, self@.slots.len() as int),
    {
        let n = self.slots.len();
        let mut r: Vec<usize> = Vec::new();
        let mut i: usize = 0;
        while i < n
            invariant
                n == self@.slots.len(),
                0 <= i <= n,
                r@ == ids_with_all_upto(self@, tys@, i as int),
            decreases n - i,
        {
            let ghost prev = r@;
            let mut hit: bool = false;
            match &self.slots[i] {
                Some(d) => {
                    if entity_has_all(d, tys) {
                        hit = true;
                    }
                },
                None => {},
            }
            proof {
                assert(hit == (alive(self@, i as int) && has_all_tys(ent(self@, i as int), tys@)));
            }
            if hit {
                r.push(i);
                proof {
                    assert(r@ =~= prev + seq![i]);
                }
            } else {
                proof {
                    assert(ids_with_all_upto(self@, tys@, i + 1) =~= prev);
                }
            }
            i = i + 1;
        }
        r
    }

    /// The live entities holding a component of any of these types, in
    /// spawn order.
    pub fn entities_with_any(&self, tys: &Vec<u64>) -> (r: Vec<usize>)
        ensures
            r@ == ids_with_any_upto(self@, tys@, self@.slots.len() as int),
    {
        let n = self.slots.len();
        let mut r: Vec<usize> = Vec::new();
        let mut i: usize = 0;
        while i < n
            invariant
                n == self@.slots.len(),
                0 <= i <= n,
                r@ == ids_with_any_upto(self@, tys@, i as int),
            decreases n - i,
        {
            let ghost prev = r@;
            let mut hit: bool = false;
            match &self.slots[i] {
                Some(d) => {
                    if entity_has_any(d, tys) {
                        hit = true;
                    }
                },
                None => {},
            }
            proof {
                assert(hit == (alive(self@, i as int) && has_any_ty(ent(self@, i as int), tys@)));
            }
            if hit {
                r.push(i);
                proof {
                    assert(r@ =~= prev + seq![i]);
                }
            } else {
                proof {
                    assert(ids_with_any_upto(self@, tys@, i + 1) =~= prev);
                }
            }
            i = i + 1;
        }
        r
    }

    /// The live direct children of an entity, in spawn order: how
    /// child-attach output stays discoverable through the parent link.
    pub fn children_of(&self, e: usize) -> (r: Vec<usize>)
        ensures
            r@ == children_upto(self@, e, self@.slots.len() as int),
    {
        let n = self.slots.len();
        let mut r: Vec<usize> = Vec::new();
        let mut i: usize = 0;
        while i < n
            invariant
                n == self@.slots.len(),
                0 <= i <= n,
                r@ == children_upto(self@, e, i as int),
            decreases n - i,
        {
            let ghost prev = r@;
            let mut hit: bool = false;
            match &self.slots[i] {
                Some(d) => {
                    match d.parent {
                        Some(p) => {
                            if p == e {
                                hit = true;
                            }
                        },
                        None => {},
                    }
                },
                None => {},
            }
            proof {
                assert(hit == (alive(self@, i as int) && ent(self@, i as int).parent == Some(e)));
            }
            if hit {
                r.push(i);
                proof {
                    assert(r@ =~= prev + seq![i]);
                }
            } else {
                proof {
                    assert(children_upto(self@, e, i + 1) =~= prev);
                }
            }
            i = i + 1;
        }
        r
    }
}

/// What `despawn` does: clear the slot and queue a removal event per
/// attached blueprint; nothing on a dead entity.
pub open spec fn despawn_spec(w: WorldModel, e: usize) -> WorldModel {
    if alive(w, e as int) {
        WorldModel {
            slots: w.slots.update(e as int, None),
            removed: push_bp_events_upto(
                w.removed,
                e,
                ent(w, e as int).bps,
                ent(w, e as int).bps.len() as int,
            ),
            ..w
        }
    } else {
        w
    }
}

/// Queued blueprint-removal events stay within the slot range.
proof fn lemma_push_bp_events_bounded(evs: Seq<Event>, e: usize, bps: Seq<Blueprint>, n: int)
    requires
        n <= bps.len(),
    ensures
        forall|i: int|
            0 <= i < push_bp_events_upto(evs, e, bps, n).len() ==> {
                let ev = #[trigger] push_bp_events_upto(evs, e, bps, n)[i];
                evs.contains(ev) || ev.entity == e
            },
    decreases n,
{
    if n > 0 {
        lemma_push_bp_events_bounded(evs, e, bps, n - 1);
        let prev = push_bp_events_upto(evs, e, bps, n - 1);
        let ev2 = Event { entity: e, ty: bps[n - 1].payload.ty };
        assert forall|i: int|
            0 <= i < push_event(prev, ev2).len() implies {
                let ev = #[trigger] push_event(prev, ev2)[i];
                evs.contains(ev) || ev.entity == e
            } by {
            if i < prev.len() {
                assert(push_event(prev, ev2)[i] == prev[i]);
            }
        }
    }
}

} // verus!
