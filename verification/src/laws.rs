//! The engine's guarantees, stated and proved once and for all over the
//! cycle semantics `run_cycle_model`: what one cycle leaves behind after a
//! blueprint is attached, changed, detached, or its entity destroyed, for
//! either target strategy, for one unit or several.

use vstd::prelude::*;

use crate::command::CommandModel;
use crate::command::apply_all;
use crate::command::apply_command;
use crate::command::apply_upto;
use crate::command::kill_chain;
use crate::command::lemma_apply_concat;
use crate::data::Component;
use crate::data::bundle_spec;
use crate::engine::BlueprintSet;
use crate::engine::BlueprintTarget;
use crate::engine::PluginModel;
use crate::engine::cleanup_cmds;
use crate::engine::cleanup_cmds_upto;
use crate::engine::cleanup_event_cmds;
use crate::engine::clear_events_model;
use crate::engine::orphan_cmds_upto;
use crate::engine::out_tys;
use crate::engine::plugin_wf;
use crate::engine::run_cycle_model;
use crate::engine::sched_upto;
use crate::engine::schedule_cmds;
use crate::engine::schedule_phase_cmds;
use crate::engine::sync_cmds;
use crate::engine::sync_cmds_upto;
use crate::engine::sync_event_cmds;
use crate::store::bp_at;
use crate::store::comp_at;
use crate::store::has_bp;
use crate::store::has_ty;
use crate::store::lemma_remove_tys;
use crate::store::remove_tys;
use crate::world::EntityModel;
use crate::world::Event;
use crate::world::WorldModel;
use crate::world::alive;
use crate::world::chain_to;
use crate::world::ent;
use crate::world::wm_inv;

verus! {

/// Detach, self-attach: after a cycle that sees only the removal of this
/// unit's blueprint from a live entity, none of the unit's output component
/// types remains on the entity; its other components, its blueprints, its
/// parent, and every other entity are untouched, and both event queues are
/// consumed.
pub proof fn lemma_detach_self(w: WorldModel, u: PluginModel, e: usize)
    requires
        wm_inv(w),
        u.target == BlueprintTarget::AsSelf,
        w.changed == Seq::<Event>::empty(),
        w.removed == seq![Event { entity: e, ty: u.payload_ty }],
        alive(w, e as int),
    ensures
        ({
            let w2 = run_cycle_model(w, seq![u]);
            &&& w2.slots.len() == w.slots.len()
            &&& alive(w2, e as int)
            &&& ent(w2, e as int).comps == remove_tys(ent(w, e as int).comps, out_tys(u))
            &&& forall|t: u64|
                out_tys(u).contains(t) ==> !has_ty(ent(w2, e as int).comps, t)
            &&& forall|t: u64|
                !out_tys(u).contains(t) ==> #[trigger] has_ty(ent(w2, e as int).comps, t) == has_ty(
                    ent(w, e as int).comps,
                    t,
                )
            &&& ent(w2, e as int).bps == ent(w, e as int).bps
            &&& ent(w2, e as int).parent == ent(w, e as int).parent
            &&& forall|i: int| 0 <= i < w.slots.len() && i != e ==> w2.slots[i] == w.slots[i]
            &&& w2.changed == Seq::<Event>::empty()
            &&& w2.removed == Seq::<Event>::empty()
            &&& w2.params == w.params
        }),
{
    let units = seq![u];
    let w1 = clear_events_model(w);
    let rc = CommandModel::RemoveComps { entity: e, tys: out_tys(u) };
    assert(units[0] == u);
    assert(w.removed[0] == Event { entity: e, ty: u.payload_ty });
    assert(cleanup_event_cmds(w, u, w.removed[0]) == seq![rc]);
    assert(cleanup_cmds_upto(w, u, 0) == Seq::<CommandModel>::empty());
    assert(cleanup_cmds(w, u) =~= seq![rc]);
    assert(sync_cmds(w, u) == Seq::<CommandModel>::empty());
    assert(sched_upto(w, units, BlueprintSet::Cleanup, 0) == Seq::<CommandModel>::empty());
    assert(schedule_phase_cmds(w, units, BlueprintSet::Cleanup) =~= seq![rc]);
    assert(sched_upto(w, units, BlueprintSet::Sync, 0) == Seq::<CommandModel>::empty());
    assert(schedule_phase_cmds(w, units, BlueprintSet::Sync) =~= Seq::<CommandModel>::empty());
    let cmds = schedule_cmds(w, units);
    assert(cmds =~= seq![rc]);
    assert(apply_upto(w1, cmds, 0) == w1);
    let w2 = apply_all(w1, cmds);
    assert(w2 == apply_command(w1, rc));
    assert(alive(w1, e as int));
    lemma_remove_tys(ent(w, e as int).comps, out_tys(u));
    assert(run_cycle_model(w, units) == w2);
}

/// Detach, child-attach: after a cycle that sees only the removal of this
/// unit's blueprint from a live entity, every entity that hung below it by
/// a live parent chain is despawned — afterwards no live entity has it as
/// parent — and every entity outside that chain is untouched.
pub proof fn lemma_detach_child(w: WorldModel, u: PluginModel, e: usize)
    requires
        wm_inv(w),
        u.target == BlueprintTarget::AsChild,
        w.changed == Seq::<Event>::empty(),
        w.removed == seq![Event { entity: e, ty: u.payload_ty }],
        alive(w, e as int),
    ensures
        ({
            let w2 = run_cycle_model(w, seq![u]);
            &&& w2.slots.len() == w.slots.len()
            &&& forall|i: int|
                0 <= i < w.slots.len() ==> w2.slots[i] == (if chain_to(w.slots, i, e as int) {
                    None
                } else {
                    w.slots[i]
                })
            &&& forall|i: int|
                0 <= i < w2.slots.len() && alive(w2, i) ==> ent(w2, i).parent != Some(e)
            &&& w2.changed == Seq::<Event>::empty()
            &&& w2.removed == Seq::<Event>::empty()
            &&& w2.params == w.params
        }),
{
    let units = seq![u];
    let w1 = clear_events_model(w);
    let dd = CommandModel::DespawnDescendants { entity: e };
    assert(units[0] == u);
    assert(w.removed[0] == Event { entity: e, ty: u.payload_ty });
    assert(cleanup_event_cmds(w, u, w.removed[0]) == seq![dd]);
    assert(cleanup_cmds_upto(w, u, 0) == Seq::<CommandModel>::empty());
    assert(cleanup_cmds(w, u) =~= seq![dd]);
    assert(sync_cmds(w, u) == Seq::<CommandModel>::empty());
    assert(sched_upto(w, units, BlueprintSet::Cleanup, 0) == Seq::<CommandModel>::empty());
    assert(schedule_phase_cmds(w, units, BlueprintSet::Cleanup) =~= seq![dd]);
    assert(sched_upto(w, units, BlueprintSet::Sync, 0) == Seq::<CommandModel>::empty());
    assert(schedule_phase_cmds(w, units, BlueprintSet::Sync) =~= Seq::<CommandModel>::empty());
    let cmds = schedule_cmds(w, units);
    assert(cmds =~= seq![dd]);
    assert(apply_upto(w1, cmds, 0) == w1);
    let w2 = apply_all(w1, cmds);
    assert(w2 == apply_command(w1, dd));
    assert(alive(w1, e as int));
    assert(w2.slots == kill_chain(w1.slots, e as int, false));
    assert forall|i: int| 0 <= i < w2.slots.len() && alive(w2, i) implies ent(w2, i).parent
        != Some(e) by {
        if ent(w2, i).parent == Some(e) {
            assert(w2.slots[i] == w.slots[i]);
            assert(chain_to(w.slots, i, e as int));
        }
    }
    assert(run_cycle_model(w, units) == w2);
}

/// Attach and replace-not-merge, self-attach: after a cycle that sees only
/// a change of this unit's blueprint on a live entity (insertion counts as
/// a change), the entity's components at the unit's output types are
/// exactly the bundle derived from the current payload and parameters —
/// whatever stood at those types before, stale or foreign, is gone, while
/// components of other types, the blueprints, the parent, and every other
/// entity are untouched.
pub proof fn lemma_sync_replaces_output(w: WorldModel, u: PluginModel, e: usize)
    requires
        wm_inv(w),
        plugin_wf(u),
        u.target == BlueprintTarget::AsSelf,
        w.removed == Seq::<Event>::empty(),
        w.changed == seq![Event { entity: e, ty: u.payload_ty }],
        alive(w, e as int),
        has_bp(ent(w, e as int).bps, u.payload_ty),
    ensures
        ({
            let w2 = run_cycle_model(w, seq![u]);
            let b = bundle_spec(
                u.rules,
                bp_at(ent(w, e as int).bps, u.payload_ty).payload,
                w.params,
            );
            &&& w2.slots.len() == w.slots.len()
            &&& alive(w2, e as int)
            &&& ent(w2, e as int).comps == remove_tys(ent(w, e as int).comps, out_tys(u)) + b
            &&& forall|t: u64|
                out_tys(u).contains(t) ==> #[trigger] has_ty(ent(w2, e as int).comps, t) == has_ty(
                    b,
                    t,
                )
            &&& forall|t: u64|
                !out_tys(u).contains(t) ==> #[trigger] has_ty(ent(w2, e as int).comps, t) == has_ty(
                    ent(w, e as int).comps,
                    t,
                )
            &&& forall|t: u64|
                !out_tys(u).contains(t) && has_ty(ent(w, e as int).comps, t) ==> #[trigger] comp_at(
                    ent(w2, e as int).comps,
                    t,
                ) == comp_at(ent(w, e as int).comps, t)
            &&& ent(w2, e as int).bps == ent(w, e as int).bps
            &&& ent(w2, e as int).parent == ent(w, e as int).parent
            &&& forall|i: int| 0 <= i < w.slots.len() && i != e ==> w2.slots[i] == w.slots[i]
            &&& w2.changed == Seq::<Event>::empty()
            &&& w2.removed == Seq::<Event>::empty()
            &&& w2.params == w.params
        }),
{
    let units = seq![u];
    let w1 = clear_events_model(w);
    let cs = ent(w, e as int).comps;
    let b = bundle_spec(u.rules, bp_at(ent(w, e as int).bps, u.payload_ty).payload, w.params);
    let rc = CommandModel::RemoveComps { entity: e, tys: out_tys(u) };
    let ic = CommandModel::InsertComps { entity: e, comps: b };
    assert(units[0] == u);
    assert(w.changed[0] == Event { entity: e, ty: u.payload_ty });
    assert(sync_event_cmds(w, u, w.changed[0]) =~= seq![rc, ic]);
    assert(sync_cmds_upto(w, u, 0) == Seq::<CommandModel>::empty());
    assert(sync_cmds(w, u) =~= seq![rc, ic]);
    assert(cleanup_cmds(w, u) == Seq::<CommandModel>::empty());
    assert(sched_upto(w, units, BlueprintSet::Cleanup, 0) == Seq::<CommandModel>::empty());
    assert(schedule_phase_cmds(w, units, BlueprintSet::Cleanup) =~= Seq::<CommandModel>::empty());
    assert(sched_upto(w, units, BlueprintSet::Sync, 0) == Seq::<CommandModel>::empty());
    assert(schedule_phase_cmds(w, units, BlueprintSet::Sync) =~= seq![rc, ic]);
    let cmds = schedule_cmds(w, units);
    assert(cmds =~= seq![rc, ic]);
    assert(apply_upto(w1, cmds, 0) == w1);
    let wa = apply_command(w1, rc);
    let w2 = apply_command(wa, ic);
    assert(apply_upto(w1, cmds, 1) == wa);
    assert(apply_upto(w1, cmds, 2) == w2);
    assert(apply_all(w1, cmds) == w2);
    assert(alive(w1, e as int));
    lemma_remove_tys(cs, out_tys(u));
    let removed = remove_tys(cs, out_tys(u));
    assert(ent(wa, e as int).comps == removed);
    assert(alive(wa, e as int));
    // the bundle's types are the unit's output types, pairwise distinct
    assert(crate::store::comps_unique(b)) by {
        if crate::data::all_rules_eval(
            u.rules,
            bp_at(ent(w, e as int).bps, u.payload_ty).payload,
            w.params,
        ) {
            assert forall|i: int, j: int| 0 <= i < j < b.len() implies (#[trigger] b[i]).ty != (
            #[trigger] b[j]).ty by {
                assert(crate::data::rule_tys(u.rules)[i] == u.rules[i].ty);
                assert(crate::data::rule_tys(u.rules)[j] == u.rules[j].ty);
            }
        }
    }
    assert forall|j: int| 0 <= j < b.len() implies !has_ty(removed, (#[trigger] b[j]).ty) by {
        assert(b[j].ty == u.rules[j].ty);
        assert(out_tys(u)[j] == u.rules[j].ty);
        assert(out_tys(u).contains(b[j].ty));
    }
    crate::store::lemma_upsert_all_append(removed, b);
    assert(ent(w2, e as int).comps == removed + b);
    assert forall|t2: u64| #[trigger] has_ty(removed, t2) implies !has_ty(b, t2) by {
        if has_ty(b, t2) {
            let j = crate::store::comp_index(b, t2);
            assert(b[j].ty == t2);
            assert(out_tys(u)[j] == u.rules[j].ty);
            assert(out_tys(u).contains(t2));
        }
    }
    crate::store::lemma_concat_unique(removed, b);
    assert forall|t: u64| out_tys(u).contains(t) implies #[trigger] has_ty(
        ent(w2, e as int).comps,
        t,
    ) == has_ty(b, t) by {
        crate::store::lemma_has_ty_concat(removed, b, t);
    }
    assert forall|t: u64| !out_tys(u).contains(t) implies #[trigger] has_ty(
        ent(w2, e as int).comps,
        t,
    ) == has_ty(cs, t) by {
        crate::store::lemma_has_ty_concat(removed, b, t);
        if has_ty(b, t) {
            let j = crate::store::comp_index(b, t);
            assert(b[j].ty == t);
            assert(out_tys(u)[j] == u.rules[j].ty);
            assert(out_tys(u).contains(t));
        }
    }
    assert forall|t: u64| !out_tys(u).contains(t) && has_ty(cs, t) implies #[trigger] comp_at(
        ent(w2, e as int).comps,
        t,
    ) == comp_at(cs, t) by {
        crate::store::lemma_has_ty_concat(removed, b, t);
        if has_ty(b, t) {
            let j = crate::store::comp_index(b, t);
            assert(b[j].ty == t);
            assert(out_tys(u)[j] == u.rules[j].ty);
            assert(out_tys(u).contains(t));
        }
        assert(has_ty(removed, t));
        let k = crate::store::comp_index(removed, t);
        assert((removed + b)[k] == removed[k]);
        assert((removed + b)[k].ty == t);
        let k2 = crate::store::comp_index(removed + b, t);
        assert((removed + b)[k2].ty == t);
        assert(k2 == k);
        assert(comp_at(removed + b, t) == removed[k]);
        assert(comp_at(removed, t) == removed[k]);
    }
    assert(run_cycle_model(w, units) == w2);
}

/// Fan-out: two units registered for the same payload type but writing
/// disjoint output component types both regenerate from the one changed
/// blueprint, independently — after the cycle the entity carries exactly
/// both derived bundles at their respective types, every other component
/// type is untouched, and neither unit disturbed the other's output.
pub proof fn lemma_fan_out(w: WorldModel, u1: PluginModel, u2: PluginModel, e: usize)
    requires
        wm_inv(w),
        plugin_wf(u1),
        plugin_wf(u2),
        u1.target == BlueprintTarget::AsSelf,
        u2.target == BlueprintTarget::AsSelf,
        u2.payload_ty == u1.payload_ty,
        forall|t: u64| !(#[trigger] out_tys(u1).contains(t) && #[trigger] out_tys(u2).contains(t)),
        w.removed == Seq::<Event>::empty(),
        w.changed == seq![Event { entity: e, ty: u1.payload_ty }],
        alive(w, e as int),
        has_bp(ent(w, e as int).bps, u1.payload_ty),
    ensures
        ({
            let w2 = run_cycle_model(w, seq![u1, u2]);
            let p = bp_at(ent(w, e as int).bps, u1.payload_ty).payload;
            let b1 = bundle_spec(u1.rules, p, w.params);
            let b2 = bundle_spec(u2.rules, p, w.params);
            &&& w2.slots.len() == w.slots.len()
            &&& alive(w2, e as int)
            &&& ent(w2, e as int).comps == remove_tys(
                remove_tys(ent(w, e as int).comps, out_tys(u1)),
                out_tys(u2),
            ) + b1 + b2
            &&& forall|t: u64|
                out_tys(u1).contains(t) ==> #[trigger] has_ty(ent(w2, e as int).comps, t) == has_ty(
                    b1,
                    t,
                )
            &&& forall|t: u64|
                out_tys(u2).contains(t) ==> #[trigger] has_ty(ent(w2, e as int).comps, t) == has_ty(
                    b2,
                    t,
                )
            &&& ent(w2, e as int).bps == ent(w, e as int).bps
            &&& ent(w2, e as int).parent == ent(w, e as int).parent
            &&& forall|i: int| 0 <= i < w.slots.len() && i != e ==> w2.slots[i] == w.slots[i]
            &&& w2.changed == Seq::<Event>::empty()
            &&& w2.removed == Seq::<Event>::empty()
        }),
{
    let units = seq![u1, u2];
    let w1 = clear_events_model(w);
    let cs = ent(w, e as int).comps;
    let p = bp_at(ent(w, e as int).bps, u1.payload_ty).payload;
    let b1 = bundle_spec(u1.rules, p, w.params);
    let b2 = bundle_spec(u2.rules, p, w.params);
    let t1 = out_tys(u1);
    let t2 = out_tys(u2);
    let rc1 = CommandModel::RemoveComps { entity: e, tys: t1 };
    let ic1 = CommandModel::InsertComps { entity: e, comps: b1 };
    let rc2 = CommandModel::RemoveComps { entity: e, tys: t2 };
    let ic2 = CommandModel::InsertComps { entity: e, comps: b2 };
    assert(units[0] == u1);
    assert(units[1] == u2);
    assert(w.changed[0] == Event { entity: e, ty: u1.payload_ty });
    // bundle shape facts used throughout
    assert(forall|j: int| 0 <= j < b1.len() ==> (#[trigger] b1[j]).ty == u1.rules[j].ty);
    assert(forall|j: int| 0 <= j < b2.len() ==> (#[trigger] b2[j]).ty == u2.rules[j].ty);
    assert(forall|j: int| 0 <= j < t1.len() ==> (#[trigger] t1[j]) == u1.rules[j].ty);
    assert(forall|j: int| 0 <= j < t2.len() ==> (#[trigger] t2[j]) == u2.rules[j].ty);
    assert forall|j: int| 0 <= j < b1.len() implies t1.contains((#[trigger] b1[j]).ty) by {
        assert(t1[j] == b1[j].ty);
    }
    assert forall|j: int| 0 <= j < b2.len() implies t2.contains((#[trigger] b2[j]).ty) by {
        assert(t2[j] == b2[j].ty);
    }
    assert(crate::store::comps_unique(b1)) by {
        assert forall|i: int, j: int| 0 <= i < j < b1.len() implies (#[trigger] b1[i]).ty != (
        #[trigger] b1[j]).ty by {
            assert(t1[i] == u1.rules[i].ty);
            assert(t1[j] == u1.rules[j].ty);
        }
    }
    assert(crate::store::comps_unique(b2)) by {
        assert forall|i: int, j: int| 0 <= i < j < b2.len() implies (#[trigger] b2[i]).ty != (
        #[trigger] b2[j]).ty by {
            assert(t2[i] == u2.rules[i].ty);
            assert(t2[j] == u2.rules[j].ty);
        }
    }
    // the recorded cycle: no cleanup, then both units' regenerations
    assert(cleanup_cmds(w, u1) == Seq::<CommandModel>::empty());
    assert(cleanup_cmds(w, u2) == Seq::<CommandModel>::empty());
    assert(sync_event_cmds(w, u1, w.changed[0]) =~= seq![rc1, ic1]);
    assert(sync_event_cmds(w, u2, w.changed[0]) =~= seq![rc2, ic2]);
    assert(sync_cmds_upto(w, u1, 0) == Seq::<CommandModel>::empty());
    assert(sync_cmds_upto(w, u2, 0) == Seq::<CommandModel>::empty());
    assert(sync_cmds(w, u1) =~= seq![rc1, ic1]);
    assert(sync_cmds(w, u2) =~= seq![rc2, ic2]);
    assert(sched_upto(w, units, BlueprintSet::Cleanup, 0) == Seq::<CommandModel>::empty());
    assert(sched_upto(w, units, BlueprintSet::Cleanup, 1) =~= Seq::<CommandModel>::empty());
    assert(schedule_phase_cmds(w, units, BlueprintSet::Cleanup) =~= Seq::<CommandModel>::empty());
    assert(sched_upto(w, units, BlueprintSet::Sync, 0) == Seq::<CommandModel>::empty());
    assert(sched_upto(w, units, BlueprintSet::Sync, 1) =~= seq![rc1, ic1]);
    assert(schedule_phase_cmds(w, units, BlueprintSet::Sync) =~= seq![rc1, ic1, rc2, ic2]);
    let cmds = schedule_cmds(w, units);
    assert(cmds =~= seq![rc1, ic1, rc2, ic2]);
    // apply the four commands in order
    assert(apply_upto(w1, cmds, 0) == w1);
    let wa = apply_command(w1, rc1);
    let wb = apply_command(wa, ic1);
    let wc = apply_command(wb, rc2);
    let w2 = apply_command(wc, ic2);
    assert(apply_upto(w1, cmds, 1) == wa);
    assert(apply_upto(w1, cmds, 2) == wb);
    assert(apply_upto(w1, cmds, 3) == wc);
    assert(apply_upto(w1, cmds, 4) == w2);
    assert(apply_all(w1, cmds) == w2);
    assert(alive(w1, e as int));
    // first unit: remove its types, append its bundle
    lemma_remove_tys(cs, t1);
    let r1 = remove_tys(cs, t1);
    assert(ent(wa, e as int).comps == r1);
    assert forall|j: int| 0 <= j < b1.len() implies !has_ty(r1, (#[trigger] b1[j]).ty) by {
        assert(t1.contains(b1[j].ty));
    }
    crate::store::lemma_upsert_all_append(r1, b1);
    assert(ent(wb, e as int).comps == r1 + b1);
    // second unit: its removal passes over the first unit's fresh bundle
    assert forall|t: u64| #[trigger] has_ty(r1, t) implies !has_ty(b1, t) by {
        if has_ty(b1, t) {
            let j = crate::store::comp_index(b1, t);
            assert(t1.contains(b1[j].ty));
        }
    }
    assert forall|k: int| 0 <= k < t2.len() implies !has_ty(b1, #[trigger] t2[k]) by {
        if has_ty(b1, t2[k]) {
            let j = crate::store::comp_index(b1, t2[k]);
            assert(t1.contains(b1[j].ty));
            assert(t2.contains(t2[k]));
        }
    }
    crate::store::lemma_remove_tys_concat(r1, b1, t2, t2.len() as int);
    lemma_remove_tys(r1, t2);
    let r12 = remove_tys(r1, t2);
    assert(ent(wc, e as int).comps == r12 + b1);
    // and its bundle appends after both
    assert forall|t: u64| #[trigger] has_ty(r12, t) implies !has_ty(b1, t) by {
        assert(has_ty(r1, t));
    }
    crate::store::lemma_concat_unique(r12, b1);
    assert forall|j: int| 0 <= j < b2.len() implies !has_ty(r12 + b1, (#[trigger] b2[j]).ty) by {
        crate::store::lemma_has_ty_concat(r12, b1, b2[j].ty);
        assert(t2.contains(b2[j].ty));
        if has_ty(b1, b2[j].ty) {
            let k = crate::store::comp_index(b1, b2[j].ty);
            assert(t1.contains(b1[k].ty));
        }
    }
    crate::store::lemma_upsert_all_append(r12 + b1, b2);
    assert(ent(w2, e as int).comps == r12 + b1 + b2);
    // presence of both bundles at their types
    assert forall|t: u64| t1.contains(t) implies #[trigger] has_ty(ent(w2, e as int).comps, t)
        == has_ty(b1, t) by {
        crate::store::lemma_has_ty_concat(r12 + b1, b2, t);
        crate::store::lemma_has_ty_concat(r12, b1, t);
        assert(!has_ty(r12, t)) by {
            if has_ty(r12, t) {
                assert(has_ty(r1, t));
            }
        }
        assert(!has_ty(b2, t)) by {
            if has_ty(b2, t) {
                let j = crate::store::comp_index(b2, t);
                assert(t2.contains(b2[j].ty));
            }
        }
    }
    assert forall|t: u64| t2.contains(t) implies #[trigger] has_ty(ent(w2, e as int).comps, t)
        == has_ty(b2, t) by {
        crate::store::lemma_has_ty_concat(r12 + b1, b2, t);
        crate::store::lemma_has_ty_concat(r12, b1, t);
        assert(!has_ty(r12, t));
        assert(!has_ty(b1, t)) by {
            if has_ty(b1, t) {
                let j = crate::store::comp_index(b1, t);
                assert(t1.contains(b1[j].ty));
            }
        }
    }
    assert(run_cycle_model(w, units) == w2);
}

/// Fan-out removal: the one removal event reaches both units registered
/// for the payload type, and each tears down its own output types — after
/// the cycle neither unit's output component types remain on the entity,
/// while everything else is untouched.
pub proof fn lemma_fan_out_detach(w: WorldModel, u1: PluginModel, u2: PluginModel, e: usize)
    requires
        wm_inv(w),
        u1.target == BlueprintTarget::AsSelf,
        u2.target == BlueprintTarget::AsSelf,
        u2.payload_ty == u1.payload_ty,
        w.changed == Seq::<Event>::empty(),
        w.removed == seq![Event { entity: e, ty: u1.payload_ty }],
        alive(w, e as int),
    ensures
        ({
            let w2 = run_cycle_model(w, seq![u1, u2]);
            &&& w2.slots.len() == w.slots.len()
            &&& alive(w2, e as int)
            &&& ent(w2, e as int).comps == remove_tys(
                remove_tys(ent(w, e as int).comps, out_tys(u1)),
                out_tys(u2),
            )
            &&& forall|t: u64|
                out_tys(u1).contains(t) || out_tys(u2).contains(t) ==> !has_ty(
                    ent(w2, e as int).comps,
                    t,
                )
            &&& ent(w2, e as int).bps == ent(w, e as int).bps
            &&& ent(w2, e as int).parent == ent(w, e as int).parent
            &&& forall|i: int| 0 <= i < w.slots.len() && i != e ==> w2.slots[i] == w.slots[i]
            &&& w2.changed == Seq::<Event>::empty()
            &&& w2.removed == Seq::<Event>::empty()
        }),
{
    let units = seq![u1, u2];
    let w1 = clear_events_model(w);
    let cs = ent(w, e as int).comps;
    let rc1 = CommandModel::RemoveComps { entity: e, tys: out_tys(u1) };
    let rc2 = CommandModel::RemoveComps { entity: e, tys: out_tys(u2) };
    assert(units[0] == u1);
    assert(units[1] == u2);
    assert(w.removed[0] == Event { entity: e, ty: u1.payload_ty });
    assert(cleanup_event_cmds(w, u1, w.removed[0]) == seq![rc1]);
    assert(cleanup_event_cmds(w, u2, w.removed[0]) == seq![rc2]);
    assert(cleanup_cmds_upto(w, u1, 0) == Seq::<CommandModel>::empty());
    assert(cleanup_cmds_upto(w, u2, 0) == Seq::<CommandModel>::empty());
    assert(cleanup_cmds(w, u1) =~= seq![rc1]);
    assert(cleanup_cmds(w, u2) =~= seq![rc2]);
    assert(sync_cmds(w, u1) == Seq::<CommandModel>::empty());
    assert(sync_cmds(w, u2) == Seq::<CommandModel>::empty());
    assert(sched_upto(w, units, BlueprintSet::Cleanup, 0) == Seq::<CommandModel>::empty());
    assert(sched_upto(w, units, BlueprintSet::Cleanup, 1) =~= seq![rc1]);
    assert(schedule_phase_cmds(w, units, BlueprintSet::Cleanup) =~= seq![rc1, rc2]);
    assert(sched_upto(w, units, BlueprintSet::Sync, 0) == Seq::<CommandModel>::empty());
    assert(sched_upto(w, units, BlueprintSet::Sync, 1) =~= Seq::<CommandModel>::empty());
    assert(schedule_phase_cmds(w, units, BlueprintSet::Sync) =~= Seq::<CommandModel>::empty());
    let cmds = schedule_cmds(w, units);
    assert(cmds =~= seq![rc1, rc2]);
    assert(apply_upto(w1, cmds, 0) == w1);
    let wa = apply_command(w1, rc1);
    let w2 = apply_command(wa, rc2);
    assert(apply_upto(w1, cmds, 1) == wa);
    assert(apply_upto(w1, cmds, 2) == w2);
    assert(apply_all(w1, cmds) == w2);
    assert(alive(w1, e as int));
    lemma_remove_tys(cs, out_tys(u1));
    let r1 = remove_tys(cs, out_tys(u1));
    assert(ent(wa, e as int).comps == r1);
    assert(alive(wa, e as int));
    lemma_remove_tys(r1, out_tys(u2));
    assert(run_cycle_model(w, units) == w2);
}

/// Multi-target: a self-attach unit and a child-attach unit registered for
/// the same payload type each attach their own output from the one changed
/// blueprint — after the cycle the entity carries the self-attach bundle,
/// and exactly one live entity has it as parent: the fresh child carrying
/// the child-attach bundle. Previous chain descendants are gone; everything
/// else is untouched.
pub proof fn lemma_multi_target(w: WorldModel, us: PluginModel, uc: PluginModel, e: usize)
    requires
        wm_inv(w),
        plugin_wf(us),
        plugin_wf(uc),
        us.target == BlueprintTarget::AsSelf,
        uc.target == BlueprintTarget::AsChild,
        uc.payload_ty == us.payload_ty,
        w.removed == Seq::<Event>::empty(),
        w.changed == seq![Event { entity: e, ty: us.payload_ty }],
        alive(w, e as int),
        has_bp(ent(w, e as int).bps, us.payload_ty),
    ensures
        ({
            let w2 = run_cycle_model(w, seq![us, uc]);
            let p = bp_at(ent(w, e as int).bps, us.payload_ty).payload;
            let b1 = bundle_spec(us.rules, p, w.params);
            let b2 = bundle_spec(uc.rules, p, w.params);
            let child = w.slots.len();
            &&& w2.slots.len() == w.slots.len() + 1
            &&& alive(w2, e as int)
            &&& ent(w2, e as int).comps == remove_tys(ent(w, e as int).comps, out_tys(us)) + b1
            &&& ent(w2, e as int).bps == ent(w, e as int).bps
            &&& ent(w2, e as int).parent == ent(w, e as int).parent
            &&& alive(w2, child as int)
            &&& ent(w2, child as int) == (EntityModel {
                comps: b2,
                bps: Seq::empty(),
                parent: Some(e),
            })
            &&& forall|i: int|
                0 <= i < w.slots.len() && i != e ==> w2.slots[i] == (if chain_to(
                    w.slots,
                    i,
                    e as int,
                ) {
                    None
                } else {
                    w.slots[i]
                })
            &&& forall|i: int|
                0 <= i < w2.slots.len() && #[trigger] alive(w2, i) && ent(w2, i).parent == Some(e)
                    ==> i == child
            &&& w2.changed == Seq::<Event>::empty()
            &&& w2.removed == Seq::<Event>::empty()
        }),
{
    let units = seq![us, uc];
    let w1 = clear_events_model(w);
    let cs = ent(w, e as int).comps;
    let p = bp_at(ent(w, e as int).bps, us.payload_ty).payload;
    let b1 = bundle_spec(us.rules, p, w.params);
    let b2 = bundle_spec(uc.rules, p, w.params);
    let t1 = out_tys(us);
    let rc1 = CommandModel::RemoveComps { entity: e, tys: t1 };
    let ic1 = CommandModel::InsertComps { entity: e, comps: b1 };
    let dd = CommandModel::DespawnDescendants { entity: e };
    let sc = CommandModel::SpawnChild { parent: e, comps: b2 };
    assert(units[0] == us);
    assert(units[1] == uc);
    assert(w.changed[0] == Event { entity: e, ty: us.payload_ty });
    // the recorded cycle
    assert(cleanup_cmds(w, us) == Seq::<CommandModel>::empty());
    assert(cleanup_cmds(w, uc) == Seq::<CommandModel>::empty());
    assert(sync_event_cmds(w, us, w.changed[0]) =~= seq![rc1, ic1]);
    assert(sync_event_cmds(w, uc, w.changed[0]) =~= seq![dd, sc]);
    assert(sync_cmds_upto(w, us, 0) == Seq::<CommandModel>::empty());
    assert(sync_cmds_upto(w, uc, 0) == Seq::<CommandModel>::empty());
    assert(sync_cmds(w, us) =~= seq![rc1, ic1]);
    assert(sync_cmds(w, uc) =~= seq![dd, sc]);
    assert(sched_upto(w, units, BlueprintSet::Cleanup, 0) == Seq::<CommandModel>::empty());
    assert(sched_upto(w, units, BlueprintSet::Cleanup, 1) =~= Seq::<CommandModel>::empty());
    assert(schedule_phase_cmds(w, units, BlueprintSet::Cleanup) =~= Seq::<CommandModel>::empty());
    assert(sched_upto(w, units, BlueprintSet::Sync, 0) == Seq::<CommandModel>::empty());
    assert(sched_upto(w, units, BlueprintSet::Sync, 1) =~= seq![rc1, ic1]);
    assert(schedule_phase_cmds(w, units, BlueprintSet::Sync) =~= seq![rc1, ic1, dd, sc]);
    let cmds = schedule_cmds(w, units);
    assert(cmds =~= seq![rc1, ic1, dd, sc]);
    // apply the four commands in order
    assert(apply_upto(w1, cmds, 0) == w1);
    let wa = apply_command(w1, rc1);
    let wb = apply_command(wa, ic1);
    let wc = apply_command(wb, dd);
    let w2 = apply_command(wc, sc);
    assert(apply_upto(w1, cmds, 1) == wa);
    assert(apply_upto(w1, cmds, 2) == wb);
    assert(apply_upto(w1, cmds, 3) == wc);
    assert(apply_upto(w1, cmds, 4) == w2);
    assert(apply_all(w1, cmds) == w2);
    assert(alive(w1, e as int));
    assert(wm_inv(w1));
    crate::command::lemma_apply_command_inv(w1, rc1);
    crate::command::lemma_apply_command_inv(wa, ic1);
    // self-attach regeneration on the entity
    lemma_remove_tys(cs, t1);
    let r1 = remove_tys(cs, t1);
    assert(ent(wa, e as int).comps == r1);
    assert(crate::store::comps_unique(b1)) by {
        assert forall|i: int, j: int| 0 <= i < j < b1.len() implies (#[trigger] b1[i]).ty != (
        #[trigger] b1[j]).ty by {
            assert(t1[i] == us.rules[i].ty);
            assert(t1[j] == us.rules[j].ty);
        }
    }
    assert forall|j: int| 0 <= j < b1.len() implies !has_ty(r1, (#[trigger] b1[j]).ty) by {
        assert(t1[j] == us.rules[j].ty);
        assert(t1.contains(b1[j].ty));
    }
    crate::store::lemma_upsert_all_append(r1, b1);
    assert(ent(wb, e as int).comps == r1 + b1);
    // wb agrees with w on liveness and parent links
    assert(wb.slots.len() == w.slots.len());
    assert(forall|i: int|
        0 <= i < wb.slots.len() ==> ((#[trigger] wb.slots[i]) is Some <==> (#[trigger] w.slots[i]) is Some));
    assert(forall|i: int|
        0 <= i < wb.slots.len() && wb.slots[i] is Some ==> (#[trigger] wb.slots[i]).unwrap().parent
            == (#[trigger] w.slots[i]).unwrap().parent);
    // the child-attach removal: descendants of the entity die; the entity stays
    assert(alive(wb, e as int));
    assert(wc.slots == kill_chain(wb.slots, e as int, false));
    assert(!chain_to(wb.slots, e as int, e as int)) by {
        crate::world::lemma_chain_implies_greater(wb.slots, e as int, e as int);
    }
    assert(alive(wc, e as int));
    assert(ent(wc, e as int) == ent(wb, e as int));
    // the child-attach attachment: a fresh child of the entity
    let child = w.slots.len();
    assert(wc.slots.len() == child);
    assert(crate::store::comps_unique(b2)) by {
        assert forall|i: int, j: int| 0 <= i < j < b2.len() implies (#[trigger] b2[i]).ty != (
        #[trigger] b2[j]).ty by {
            assert(out_tys(uc)[i] == uc.rules[i].ty);
            assert(out_tys(uc)[j] == uc.rules[j].ty);
        }
    }
    assert(crate::store::comps_unique(Seq::<Component>::empty()));
    crate::store::lemma_upsert_all_append(Seq::<Component>::empty(), b2);
    assert(crate::store::upsert_all(Seq::<Component>::empty(), b2) =~= b2);
    assert(w2.slots == wc.slots.push(
        Some(EntityModel { comps: b2, bps: Seq::empty(), parent: Some(e) }),
    ));
    assert(ent(w2, child as int) == (EntityModel { comps: b2, bps: Seq::empty(), parent: Some(e) }));
    // untouched entities, and chains read over the pre-cycle world
    assert forall|i: int| 0 <= i < w.slots.len() && i != e implies w2.slots[i] == (if chain_to(
        w.slots,
        i,
        e as int,
    ) {
        None
    } else {
        w.slots[i]
    }) by {
        crate::world::lemma_chain_same(wb.slots, w.slots, i, e as int);
        assert(wc.slots[i] == kill_chain(wb.slots, e as int, false)[i]);
        if !chain_to(w.slots, i, e as int) {
            assert(wc.slots[i] == wb.slots[i]);
            assert(wb.slots[i] == w.slots[i]);
        }
    }
    // the fresh child is the only live entity parented to the blueprint entity
    assert forall|i: int|
        0 <= i < w2.slots.len() && #[trigger] alive(w2, i) && ent(w2, i).parent == Some(e) implies i
        == child as int by {
        if i < child as int {
            if i == e as int {
                assert(crate::world::ent_wf(ent(w, e as int), e as int));
            } else {
                assert(w2.slots[i] == (if chain_to(w.slots, i, e as int) {
                    None
                } else {
                    w.slots[i]
                }));
                assert(w2.slots[i] == w.slots[i]);
                assert(chain_to(w.slots, i, e as int));
            }
        }
    }
    assert(run_cycle_model(w, units) == w2);
}

/// Applying a prefix of an orphan sweep: no slot is ever revived, survivors
/// are untouched, and every entity the swept prefix found parented to the
/// destroyed entity is despawned.
proof fn lemma_apply_orphans(w0: WorldModel, wc: WorldModel, e: usize, n: int)
    requires
        wc.slots.len() == w0.slots.len(),
        w0.slots.len() <= usize::MAX,
        0 <= n <= w0.slots.len(),
    ensures
        ({
            let r = apply_all(wc, orphan_cmds_upto(w0, e, n));
            &&& r.slots.len() == wc.slots.len()
            &&& r.changed == wc.changed
            &&& r.removed == wc.removed
            &&& r.params == wc.params
            &&& forall|i: int|
                0 <= i < r.slots.len() && (#[trigger] r.slots[i]) is Some ==> r.slots[i]
                    == wc.slots[i]
            &&& forall|i: int|
                0 <= i < n && #[trigger] alive(w0, i) && ent(w0, i).parent == Some(e) ==> !alive(
                    r,
                    i,
                )
        }),
    decreases n,
{
    if n <= 0 {
        assert(apply_all(wc, orphan_cmds_upto(w0, e, n)) == wc);
    } else {
        let pre = orphan_cmds_upto(w0, e, n - 1);
        let is_child = alive(w0, n - 1) && ent(w0, n - 1).parent == Some(e);
        let tail = if is_child {
            seq![CommandModel::DespawnRecursive { entity: (n - 1) as usize }]
        } else {
            Seq::<CommandModel>::empty()
        };
        assert(orphan_cmds_upto(w0, e, n) == pre + tail);
        lemma_apply_orphans(w0, wc, e, n - 1);
        let r1 = apply_all(wc, pre);
        lemma_apply_concat(wc, pre, tail);
        assert(apply_all(wc, orphan_cmds_upto(w0, e, n)) == apply_all(r1, tail));
        if is_child {
            let c = CommandModel::DespawnRecursive { entity: (n - 1) as usize };
            assert(tail[0] == c);
            assert(apply_upto(r1, tail, 0) == r1);
            assert(apply_all(r1, tail) == apply_command(r1, c));
            let r2 = apply_command(r1, c);
            if alive(r1, n - 1) {
                assert(r2.slots == kill_chain(r1.slots, n - 1, true));
                assert(r2.slots[n - 1] is None);
                assert forall|i: int|
                    0 <= i < r2.slots.len() && (#[trigger] r2.slots[i]) is Some implies r2.slots[i]
                    == wc.slots[i] by {
                    assert(r2.slots[i] == r1.slots[i]);
                }
                assert forall|i: int|
                    0 <= i < n && #[trigger] alive(w0, i) && ent(w0, i).parent == Some(e) implies
                    !alive(r2, i) by {
                    if i < n - 1 {
                        assert(!alive(r1, i));
                        assert(r2.slots[i] == (if (i == n - 1) || chain_to(r1.slots, i, n - 1) {
                            None
                        } else {
                            r1.slots[i]
                        }));
                    }
                }
            } else {
                assert(apply_command(r1, c) == r1);
            }
        } else {
            assert(pre + tail =~= pre);
            assert(apply_all(r1, tail) == r1);
        }
    }
}

/// Orphan cleanup: when the blueprint entity was destroyed outright rather
/// than having its blueprint removed first, a cycle that sees the queued
/// removal event despawns every live entity still parented to the dead
/// entity (child-attach), leaves every surviving entity untouched, never
/// revives anything, and consumes the event queues.
pub proof fn lemma_orphan_cleanup(w: WorldModel, u: PluginModel, e: usize)
    requires
        wm_inv(w),
        u.target == BlueprintTarget::AsChild,
        w.slots.len() <= usize::MAX,
        w.changed == Seq::<Event>::empty(),
        w.removed == seq![Event { entity: e, ty: u.payload_ty }],
        !alive(w, e as int),
    ensures
        ({
            let w2 = run_cycle_model(w, seq![u]);
            &&& w2.slots.len() == w.slots.len()
            &&& forall|i: int|
                0 <= i < w2.slots.len() && #[trigger] alive(w2, i) ==> w2.slots[i] == w.slots[i]
            &&& forall|i: int|
                0 <= i < w.slots.len() && #[trigger] alive(w, i) && ent(w, i).parent == Some(e)
                    ==> !alive(w2, i)
            &&& w2.changed == Seq::<Event>::empty()
            &&& w2.removed == Seq::<Event>::empty()
            &&& w2.params == w.params
        }),
{
    let units = seq![u];
    let w1 = clear_events_model(w);
    let len = w.slots.len() as int;
    let orphans = orphan_cmds_upto(w, e, len);
    assert(units[0] == u);
    assert(w.removed[0] == Event { entity: e, ty: u.payload_ty });
    assert(cleanup_event_cmds(w, u, w.removed[0]) == orphans);
    assert(cleanup_cmds_upto(w, u, 0) == Seq::<CommandModel>::empty());
    assert(cleanup_cmds(w, u) =~= orphans);
    assert(sync_cmds(w, u) == Seq::<CommandModel>::empty());
    assert(sched_upto(w, units, BlueprintSet::Cleanup, 0) == Seq::<CommandModel>::empty());
    assert(schedule_phase_cmds(w, units, BlueprintSet::Cleanup) =~= orphans);
    assert(sched_upto(w, units, BlueprintSet::Sync, 0) == Seq::<CommandModel>::empty());
    assert(schedule_phase_cmds(w, units, BlueprintSet::Sync) =~= Seq::<CommandModel>::empty());
    let cmds = schedule_cmds(w, units);
    assert(cmds =~= orphans + Seq::<CommandModel>::empty());
    assert(orphans + Seq::<CommandModel>::empty() =~= orphans);
    assert(cmds == orphans);
    lemma_apply_orphans(w, w1, e, len);
    let w2 = apply_all(w1, orphans);
    assert(run_cycle_model(w, units) == w2);
    assert forall|i: int| 0 <= i < w2.slots.len() && #[trigger] alive(w2, i) implies w2.slots[i]
        == w.slots[i] by {
        assert(w2.slots[i] == w1.slots[i]);
    }
}

/// Destroying an output tree is tolerant of repetition: applying the same
/// recursive despawn twice leaves exactly what applying it once leaves —
/// nothing is freed twice and nothing else is touched.
pub proof fn lemma_despawn_recursive_idempotent(w: WorldModel, x: usize)
    ensures
        apply_command(
            apply_command(w, CommandModel::DespawnRecursive { entity: x }),
            CommandModel::DespawnRecursive { entity: x },
        ) == apply_command(w, CommandModel::DespawnRecursive { entity: x }),
{
    let c = CommandModel::DespawnRecursive { entity: x };
    let r = apply_command(w, c);
    if alive(w, x as int) {
        assert(r.slots[x as int] == kill_chain(w.slots, x as int, true)[x as int]);
        assert(!alive(r, x as int));
    }
}

} // verus!
