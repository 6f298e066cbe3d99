//! The synchronization engine: target strategies, synchronization units and
//! the three-phase scheduler. Each registered unit contributes removal
//! detection to the Cleanup phase and change detection plus regeneration to
//! the Sync phase; both only record commands. The Flush phase consumes the
//! event queues and applies the buffered commands, so every unit of a cycle
//! reads the same world snapshot.

use vstd::prelude::*;

use crate::command::Command;
use crate::command::CommandModel;
use crate::command::apply_all;
use crate::command::cmd_views;
use crate::data::ComponentRule;
use crate::data::Derivation;
use crate::data::bundle_spec;
use crate::data::rule_tys;
use crate::store::bp_at;
use crate::store::has_bp;
use crate::store::tys_unique;
use crate::world::Event;
use crate::world::World;
use crate::world::WorldModel;
use crate::world::alive;
use crate::world::ent;
use crate::world::wm_inv;

verus! {

/// Where a unit attaches its derived output: onto the blueprint's own
/// entity, or onto a freshly spawned child entity. A zero-sized policy
/// choice made at registration time.
#[derive(Clone, Copy, Debug, PartialEq, Eq, Structural)]
pub enum BlueprintTarget {
    AsSelf,
    AsChild,
}

/// The three phases of one cycle, strictly ordered: removal handling, then
/// change handling, then application of the buffered structural commands.
#[derive(Clone, Copy, Debug, PartialEq, Eq, Structural)]
pub enum BlueprintSet {
    Cleanup,
    Sync,
    Flush,
}

/// One synchronization unit: watches blueprints of one payload type and
/// keeps one derived output bundle in step with them, attached according to
/// its target strategy. Applications register one unit per (payload type,
/// derivation, target) combination.
pub struct BlueprintPlugin {
    pub payload_ty: u64,
    pub derivation: Derivation,
    pub target: BlueprintTarget,
}

/// The mathematical value of a synchronization unit.
#[verifier::ext_equal]
pub struct PluginModel {
    pub payload_ty: u64,
    pub rules: Seq<ComponentRule>,
    pub target: BlueprintTarget,
}

impl View for BlueprintPlugin {
    type V = PluginModel;

    open spec fn view(&self) -> PluginModel {
        PluginModel { payload_ty: self.payload_ty, rules: self.derivation@, target: self.target }
    }
}

/// The component types a unit writes.
pub open spec fn out_tys(u: PluginModel) -> Seq<u64> {
    rule_tys(u.rules)
}

/// A well-formed unit derives at most one component per type, as a bundle
/// of distinct component types.
pub open spec fn plugin_wf(u: PluginModel) -> bool {
    tys_unique(rule_tys(u.rules))
}

/// The commands of Remove-output for one entity: self-attach strips the
/// unit's component types in place; child-attach despawns the entity's
/// descendants.
pub open spec fn remove_output_cmds(u: PluginModel, e: usize) -> Seq<CommandModel> {
    match u.target {
        BlueprintTarget::AsSelf => seq![CommandModel::RemoveComps { entity: e, tys: out_tys(u) }],
        BlueprintTarget::AsChild => seq![CommandModel::DespawnDescendants { entity: e }],
    }
}

/// The commands of Attach-output for one entity: self-attach inserts the
/// bundle onto the entity; child-attach spawns a child holding it.
pub open spec fn attach_output_cmds(u: PluginModel, e: usize, bundle: Seq<
    crate::data::Component,
>) -> Seq<CommandModel> {
    match u.target {
        BlueprintTarget::AsSelf => seq![CommandModel::InsertComps { entity: e, comps: bundle }],
        BlueprintTarget::AsChild => seq![CommandModel::SpawnChild { parent: e, comps: bundle }],
    }
}

/// The commands of Cleanup-orphans for a blueprint entity that no longer
/// exists: every live entity still parented to it is despawned recursively
/// (child-attach only; for self-attach the output died with the entity).
pub open spec fn orphan_cmds_upto(w: WorldModel, e: usize, n: int) -> Seq<CommandModel>
    decreases n,
{
    if n <= 0 {
        Seq::empty()
    } else {
        orphan_cmds_upto(w, e, n - 1) + (if alive(w, n - 1) && ent(w, n - 1).parent == Some(e) {
            seq![CommandModel::DespawnRecursive { entity: (n - 1) as usize }]
        } else {
            Seq::empty()
        })
    }
}

/// What one removal event makes a unit record: nothing for a foreign
/// payload type; Remove-output while the entity still exists; orphan
/// cleanup when the entity itself was destroyed.
pub open spec fn cleanup_event_cmds(w: WorldModel, u: PluginModel, ev: Event) -> Seq<
    CommandModel,
> {
    if ev.ty != u.payload_ty {
        Seq::empty()
    } else if alive(w, ev.entity as int) {
        remove_output_cmds(u, ev.entity)
    } else {
        match u.target {
            BlueprintTarget::AsSelf => Seq::empty(),
            BlueprintTarget::AsChild => orphan_cmds_upto(w, ev.entity, w.slots.len() as int),
        }
    }
}

/// A unit's Cleanup phase over the first `n` removal events.
pub open spec fn cleanup_cmds_upto(w: WorldModel, u: PluginModel, n: int) -> Seq<CommandModel>
    decreases n,
{
    if n <= 0 {
        Seq::empty()
    } else {
        cleanup_cmds_upto(w, u, n - 1) + cleanup_event_cmds(w, u, w.removed[n - 1])
    }
}

/// A unit's whole Cleanup phase: one reaction per queued removal event.
pub open spec fn cleanup_cmds(w: WorldModel, u: PluginModel) -> Seq<CommandModel> {
    cleanup_cmds_upto(w, u, w.removed.len() as int)
}

/// What one change event makes a unit record: for a live entity still
/// carrying a blueprint of the unit's payload type, a full regeneration —
/// Remove-output then Attach-output of the freshly derived bundle, never a
/// partial patch.
pub open spec fn sync_event_cmds(w: WorldModel, u: PluginModel, ev: Event) -> Seq<CommandModel> {
    if ev.ty == u.payload_ty && alive(w, ev.entity as int) && has_bp(
        ent(w, ev.entity as int).bps,
        ev.ty,
    ) {
        remove_output_cmds(u, ev.entity) + attach_output_cmds(
            u,
            ev.entity,
            bundle_spec(u.rules, bp_at(ent(w, ev.entity as int).bps, ev.ty).payload, w.params),
        )
    } else {
        Seq::empty()
    }
}

/// A unit's Sync phase over the first `n` change events.
pub open spec fn sync_cmds_upto(w: WorldModel, u: PluginModel, n: int) -> Seq<CommandModel>
    decreases n,
{
    if n <= 0 {
        Seq::empty()
    } else {
        sync_cmds_upto(w, u, n - 1) + sync_event_cmds(w, u, w.changed[n - 1])
    }
}

/// A unit's whole Sync phase: one reaction per queued change event.
pub open spec fn sync_cmds(w: WorldModel, u: PluginModel) -> Seq<CommandModel> {
    sync_cmds_upto(w, u, w.changed.len() as int)
}

/// What one unit records in one phase. The Flush phase records nothing: it
/// applies what the other two recorded.
pub open spec fn unit_phase_cmds(w: WorldModel, u: PluginModel, phase: BlueprintSet) -> Seq<
    CommandModel,
> {
    match phase {
        BlueprintSet::Cleanup => cleanup_cmds(w, u),
        BlueprintSet::Sync => sync_cmds(w, u),
        BlueprintSet::Flush => Seq::empty(),
    }
}

/// One phase across the first `n` registered units, in registration order.
pub open spec fn sched_upto(
    w: WorldModel,
    units: Seq<PluginModel>,
    phase: BlueprintSet,
    n: int,
) -> Seq<CommandModel>
    decreases n,
{
    if n <= 0 {
        Seq::empty()
    } else {
        sched_upto(w, units, phase, n - 1) + unit_phase_cmds(w, units[n - 1], phase)
    }
}

/// One phase across all registered units.
pub open spec fn schedule_phase_cmds(
    w: WorldModel,
    units: Seq<PluginModel>,
    phase: BlueprintSet,
) -> Seq<CommandModel> {
    sched_upto(w, units, phase, units.len() as int)
}

/// Everything one cycle records, phase by phase: every unit's Cleanup
/// strictly before every unit's Sync. All units read the same pre-cycle
/// snapshot `w`; their order within a phase only orders the buffer.
pub open spec fn schedule_cmds(w: WorldModel, units: Seq<PluginModel>) -> Seq<CommandModel> {
    schedule_phase_cmds(w, units, BlueprintSet::Cleanup) + schedule_phase_cmds(
        w,
        units,
        BlueprintSet::Sync,
    )
}

/// The world with both event queues consumed.
pub open spec fn clear_events_model(w: WorldModel) -> WorldModel {
    WorldModel { changed: Seq::empty(), removed: Seq::empty(), ..w }
}

/// One whole cycle: record Cleanup then Sync commands against the pre-cycle
/// snapshot, consume the event queues, and flush the buffer in order.
pub open spec fn run_cycle_model(w: WorldModel, units: Seq<PluginModel>) -> WorldModel {
    apply_all(clear_events_model(w), schedule_cmds(w, units))
}

impl BlueprintPlugin {
    pub fn new(payload_ty: u64, derivation: Derivation, target: BlueprintTarget) -> (u:
        BlueprintPlugin)
        ensures
            u@ == (PluginModel { payload_ty, rules: derivation@, target }),
    {
        BlueprintPlugin { payload_ty, derivation, target }
    }

    /// Record Remove-output for one entity.
    fn push_remove_output(&self, e: usize, cmds: &mut Vec<Command>)
        ensures
            cmd_views(final(cmds)@) == cmd_views(old(cmds)@) + remove_output_cmds(self@, e),
    {
        match self.target {
            BlueprintTarget::AsSelf => {
                let tys = self.derivation.output_tys();
                cmds.push(Command::RemoveComps { entity: e, tys });
            },
            BlueprintTarget::AsChild => {
                cmds.push(Command::DespawnDescendants { entity: e });
            },
        }
        proof {
            assert(cmd_views(cmds@) =~= cmd_views(old(cmds)@) + remove_output_cmds(self@, e));
        }
    }

    /// Record Attach-output of a derived bundle for one entity.
    fn push_attach_output(&self, e: usize, bundle: Vec<crate::data::Component>, cmds: &mut Vec<
        Command,
    >)
        ensures
            cmd_views(final(cmds)@) == cmd_views(old(cmds)@) + attach_output_cmds(
                self@,
                e,
                bundle@,
            ),
    {
        let ghost b = bundle@;
        match self.target {
            BlueprintTarget::AsSelf => {
                cmds.push(Command::InsertComps { entity: e, comps: bundle });
            },
            BlueprintTarget::AsChild => {
                cmds.push(Command::SpawnChild { parent: e, comps: bundle });
            },
        }
        proof {
            assert(cmd_views(cmds@) =~= cmd_views(old(cmds)@) + attach_output_cmds(self@, e, b));
        }
    }

    /// Record Cleanup-orphans: despawn every live entity still parented to
    /// the destroyed blueprint entity.
    fn push_orphans(&self, world: &World, e: usize, cmds: &mut Vec<Command>)
        ensures
            cmd_views(final(cmds)@) == cmd_views(old(cmds)@) + orphan_cmds_upto(
                world@,
                e,
                world@.slots.len() as int,
            ),
    {
        let ghost c0 = cmd_views(old(cmds)@);
        let n = world.slots.len();
        let mut j: usize = 0;
        while j < n
            invariant
                n == world@.slots.len(),
                0 <= j <= n,
                cmd_views(cmds@) == c0 + orphan_cmds_upto(world@, e, j as int),
            decreases n - j,
        {
            let mut is_child: bool = false;
            match &world.slots[j] {
                Some(d) => {
                    match d.parent {
                        Some(p) => {
                            if p == e {
                                is_child = true;
                            }
                        },
                        None => {},
                    }
                },
                None => {},
            }
            proof {
                assert(is_child == (alive(world@, j as int) && ent(world@, j as int).parent
                    == Some(e)));
            }
            if is_child {
                let ghost pre = cmds@;
                cmds.push(Command::DespawnRecursive { entity: j });
                proof {
                    crate::command::lemma_cmd_views_push(pre, Command::DespawnRecursive { entity: j });
                    assert(orphan_cmds_upto(world@, e, j + 1) =~= orphan_cmds_upto(world@, e, j as int)
                        + seq![CommandModel::DespawnRecursive { entity: j }]);
                    assert(cmd_views(cmds@) =~= c0 + orphan_cmds_upto(world@, e, j + 1));
                }
            } else {
                proof {
                    assert(orphan_cmds_upto(world@, e, j + 1) =~= orphan_cmds_upto(
                        world@,
                        e,
                        j as int,
                    ));
                }
            }
            j = j + 1;
        }
    }

    /// This unit's Cleanup system: react to every queued removal event of
    /// its payload type. Runs in the Cleanup phase, strictly before any Sync
    /// system, so a remove-then-re-add within one cycle is first torn down
    /// and then regenerated.
    fn push_cleanup(&self, world: &World, cmds: &mut Vec<Command>)
        requires
            wm_inv(world@),
        ensures
            cmd_views(final(cmds)@) == cmd_views(old(cmds)@) + cleanup_cmds(world@, self@),
    {
        let ghost c0 = cmd_views(old(cmds)@);
        let n = world.removed.len();
        let mut i: usize = 0;
        while i < n
            invariant
                wm_inv(world@),
                n == world@.removed.len(),
                0 <= i <= n,
                cmd_views(cmds@) == c0 + cleanup_cmds_upto(world@, self@, i as int),
            decreases n - i,
        {
            let ev = world.removed[i];
            let ghost cprev = cmd_views(cmds@);
            if ev.ty == self.payload_ty {
                if world.is_alive(ev.entity) {
                    self.push_remove_output(ev.entity, cmds);
                } else {
                    match self.target {
                        BlueprintTarget::AsSelf => {},
                        BlueprintTarget::AsChild => {
                            self.push_orphans(world, ev.entity, cmds);
                        },
                    }
                }
            }
            proof {
                assert(cmd_views(cmds@) =~= cprev + cleanup_event_cmds(world@, self@, ev));
                assert(cmd_views(cmds@) =~= c0 + cleanup_cmds_upto(world@, self@, i + 1));
            }
            i = i + 1;
        }
    }

    /// This unit's Sync system: for every queued change event of its payload
    /// type whose entity still exists and still carries the blueprint,
    /// record a full regeneration — Remove-output, then Attach-output of
    /// the bundle derived from the current payload and parameters.
    fn push_sync(&self, world: &World, cmds: &mut Vec<Command>)
        requires
            wm_inv(world@),
        ensures
            cmd_views(final(cmds)@) == cmd_views(old(cmds)@) + sync_cmds(world@, self@),
    {
        let ghost c0 = cmd_views(old(cmds)@);
        let n = world.changed.len();
        let mut i: usize = 0;
        while i < n
            invariant
                wm_inv(world@),
                n == world@.changed.len(),
                0 <= i <= n,
                cmd_views(cmds@) == c0 + sync_cmds_upto(world@, self@, i as int),
            decreases n - i,
        {
            let ev = world.changed[i];
            let ghost cprev = cmd_views(cmds@);
            if ev.ty == self.payload_ty {
                match world.get_blueprint(ev.entity, ev.ty) {
                    Some(bp) => {
                        self.push_remove_output(ev.entity, cmds);
                        let bundle = self.derivation.derive(&bp.payload, &world.params);
                        self.push_attach_output(ev.entity, bundle, cmds);
                    },
                    None => {},
                }
            }
            proof {
                assert(cmd_views(cmds@) =~= cprev + sync_event_cmds(world@, self@, ev));
                assert(cmd_views(cmds@) =~= c0 + sync_cmds_upto(world@, self@, i + 1));
            }
            i = i + 1;
        }
    }
}

/// The shared scheduler: holds every registered synchronization unit and
/// drives the three phases of a cycle in their fixed order. Registration
/// only adds units into the shared phases; it never creates a second
/// ordering domain.
pub struct BlueprintsPlugin {
    pub plugins: Vec<BlueprintPlugin>,
}

impl View for BlueprintsPlugin {
    type V = Seq<PluginModel>;

    open spec fn view(&self) -> Seq<PluginModel> {
        Seq::new(self.plugins@.len(), |i: int| self.plugins@[i]@)
    }
}

impl BlueprintsPlugin {
    /// A scheduler with no units registered.
    pub fn new() -> (s: BlueprintsPlugin)
        ensures
            s@ == Seq::<PluginModel>::empty(),
    {
        let s = BlueprintsPlugin { plugins: Vec::new() };
        proof {
            assert(s@ =~= Seq::<PluginModel>::empty());
        }
        s
    }

    /// Register one synchronization unit: its cleanup and sync systems join
    /// the shared Cleanup and Sync phases.
    pub fn register(&mut self, plugin: BlueprintPlugin)
        ensures
            final(self)@ == old(self)@.push(plugin@),
    {
        let ghost p = plugin@;
        self.plugins.push(plugin);
        proof {
            assert(self@ =~= old(self)@.push(p));
        }
    }

    /// Run one whole cycle: every unit's Cleanup, then every unit's Sync,
    /// all reading the same pre-cycle snapshot; then Flush, which consumes
    /// the event queues and applies the buffered structural commands in
    /// order, leaving the world in its post-cycle state before anything
    /// else observes it.
    pub fn update(&self, world: &mut World)
        requires
            wm_inv(old(world)@),
        ensures
            wm_inv(final(world)@),
            final(world)@ == run_cycle_model(old(world)@, self@),
    {
        let ghost w0 = world@;
        let ghost units = self@;
        let mut cmds: Vec<Command> = Vec::new();
        proof {
            assert(cmd_views(cmds@) =~= Seq::<CommandModel>::empty());
            assert(Seq::<CommandModel>::empty() =~= sched_upto(w0, units, BlueprintSet::Cleanup, 0));
        }
        let n = self.plugins.len();
        let mut i: usize = 0;
        while i < n
            invariant
                wm_inv(world@),
                world@ == w0,
                units == self@,
                n == self.plugins@.len(),
                0 <= i <= n,
                cmd_views(cmds@) == sched_upto(w0, units, BlueprintSet::Cleanup, i as int),
            decreases n - i,
        {
            let ghost cprev = cmd_views(cmds@);
            let u = &self.plugins[i];
            u.push_cleanup(world, &mut cmds);
            proof {
                assert(u@ == units[i as int]);
                assert(cmd_views(cmds@) == cprev + cleanup_cmds(w0, units[i as int]));
                assert(cmd_views(cmds@) == sched_upto(w0, units, BlueprintSet::Cleanup, i + 1));
            }
            i = i + 1;
        }
        let ghost cleanup_part = cmd_views(cmds@);
        proof {
            assert(cleanup_part == schedule_phase_cmds(w0, units, BlueprintSet::Cleanup));
        }
        let mut i2: usize = 0;
        while i2 < n
            invariant
                wm_inv(world@),
                world@ == w0,
                units == self@,
                n == self.plugins@.len(),
                0 <= i2 <= n,
                cleanup_part == schedule_phase_cmds(w0, units, BlueprintSet::Cleanup),
                cmd_views(cmds@) == cleanup_part + sched_upto(w0, units, BlueprintSet::Sync, i2 as int),
            decreases n - i2,
        {
            let ghost cprev = cmd_views(cmds@);
            let u = &self.plugins[i2];
            u.push_sync(world, &mut cmds);
            proof {
                assert(u@ == units[i2 as int]);
                assert(cmd_views(cmds@) == cprev + sync_cmds(w0, units[i2 as int]));
                assert(cmd_views(cmds@) =~= cleanup_part + (sched_upto(
                    w0,
                    units,
                    BlueprintSet::Sync,
                    i2 as int,
                ) + sync_cmds(w0, units[i2 as int])));
                assert(cmd_views(cmds@) == cleanup_part + sched_upto(
                    w0,
                    units,
                    BlueprintSet::Sync,
                    i2 + 1,
                ));
            }
            i2 = i2 + 1;
        }
        proof {
            assert(cmd_views(cmds@) == schedule_cmds(w0, units));
        }
        world.clear_events();
        proof {
            assert(world@ =~= clear_events_model(w0));
        }
        world.apply_commands(&cmds);
        proof {
            assert(world@ == apply_all(clear_events_model(w0), schedule_cmds(w0, units)));
        }
    }
}

} // verus!
