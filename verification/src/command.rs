//! Deferred structural commands. Cleanup and Sync never mutate the world in
//! place: they record commands into a buffer, and the Flush phase applies
//! the whole buffer in order. Application is total: a command aimed at an
//! entity that has died earlier in the same flush is skipped, never an
//! error, and an entity is never destroyed twice.

use vstd::prelude::*;

use crate::data::Component;
use crate::store::comps_unique;
use crate::store::lemma_remove_tys;
use crate::store::lemma_upsert_all_unique;
use crate::store::remove_tys;
use crate::store::upsert_all;
use crate::store::vec_remove_tys;
use crate::store::vec_upsert_all;
use crate::world::EntityData;
use crate::world::EntityModel;
use crate::world::World;
use crate::world::WorldModel;
use crate::world::alive;
use crate::world::chain_to;
use crate::world::ent;
use crate::world::ent_wf;
use crate::world::wm_inv;

verus! {

/// One buffered structural mutation.
pub enum Command {
    /// Self-attach removal: strip these component types from the entity.
    RemoveComps { entity: usize, tys: Vec<u64> },
    /// Self-attach attachment: insert this bundle onto the entity.
    InsertComps { entity: usize, comps: Vec<Component> },
    /// Child-attach attachment: spawn a fresh child of `parent` holding
    /// this bundle.
    SpawnChild { parent: usize, comps: Vec<Component> },
    /// Child-attach removal: despawn every live descendant of the entity.
    DespawnDescendants { entity: usize },
    /// Orphan cleanup: despawn the entity together with its descendants.
    DespawnRecursive { entity: usize },
}

/// The mathematical value of a command.
#[verifier::ext_equal]
pub enum CommandModel {
    RemoveComps { entity: usize, tys: Seq<u64> },
    InsertComps { entity: usize, comps: Seq<Component> },
    SpawnChild { parent: usize, comps: Seq<Component> },
    DespawnDescendants { entity: usize },
    DespawnRecursive { entity: usize },
}

impl View for Command {
    type V = CommandModel;

    open spec fn view(&self) -> CommandModel {
        match self {
            Command::RemoveComps { entity, tys } => CommandModel::RemoveComps {
                entity: *entity,
                tys: tys@,
            },
            Command::InsertComps { entity, comps } => CommandModel::InsertComps {
                entity: *entity,
                comps: comps@,
            },
            Command::SpawnChild { parent, comps } => CommandModel::SpawnChild {
                parent: *parent,
                comps: comps@,
            },
            Command::DespawnDescendants { entity } => CommandModel::DespawnDescendants {
                entity: *entity,
            },
            Command::DespawnRecursive { entity } => CommandModel::DespawnRecursive {
                entity: *entity,
            },
        }
    }
}

/// The views of a command list.
pub open spec fn cmd_views(cs: Seq<Command>) -> Seq<CommandModel> {
    Seq::new(cs.len(), |i: int| cs[i]@)
}

/// Appending one command appends its view.
pub proof fn lemma_cmd_views_push(cs: Seq<Command>, c: Command)
    ensures
        cmd_views(cs.push(c)) == cmd_views(cs).push(c@),
{
    assert(cmd_views(cs.push(c)) =~= cmd_views(cs).push(c@));
}

/// Clear every slot connected to `x` by a live parent chain (and `x` itself
/// when `include_root`); everything else is untouched. Entities already
/// dead stay dead — a second destruction of the same tree is a no-op.
pub open spec fn kill_chain(
    slots: Seq<Option<EntityModel>>,
    x: int,
    include_root: bool,
) -> Seq<Option<EntityModel>> {
    Seq::new(
        slots.len(),
        |i: int|
            if (include_root && i == x) || chain_to(slots, i, x) {
                None
            } else {
                slots[i]
            },
    )
}

/// What applying one command to the world means.
pub open spec fn apply_command(w: WorldModel, c: CommandModel) -> WorldModel {
    match c {
        CommandModel::RemoveComps { entity, tys } => if alive(w, entity as int) {
            WorldModel {
                slots: w.slots.update(
                    entity as int,
                    Some(
                        EntityModel {
                            comps: remove_tys(ent(w, entity as int).comps, tys),
                            ..ent(w, entity as int)
                        },
                    ),
                ),
                ..w
            }
        } else {
            w
        },
        CommandModel::InsertComps { entity, comps } => if alive(w, entity as int) {
            WorldModel {
                slots: w.slots.update(
                    entity as int,
                    Some(
                        EntityModel {
                            comps: upsert_all(ent(w, entity as int).comps, comps),
                            ..ent(w, entity as int)
                        },
                    ),
                ),
                ..w
            }
        } else {
            w
        },
        CommandModel::SpawnChild { parent, comps } => if alive(w, parent as int) {
            WorldModel {
                slots: w.slots.push(
                    Some(
                        EntityModel {
                            comps: upsert_all(Seq::empty(), comps),
                            bps: Seq::empty(),
                            parent: Some(parent),
                        },
                    ),
                ),
                ..w
            }
        } else {
            w
        },
        CommandModel::DespawnDescendants { entity } => if alive(w, entity as int) {
            WorldModel { slots: kill_chain(w.slots, entity as int, false), ..w }
        } else {
            w
        },
        CommandModel::DespawnRecursive { entity } => if alive(w, entity as int) {
            WorldModel { slots: kill_chain(w.slots, entity as int, true), ..w }
        } else {
            w
        },
    }
}

/// Applying the first `n` commands in order.
pub open spec fn apply_upto(w: WorldModel, cs: Seq<CommandModel>, n: int) -> WorldModel
    decreases n,
{
    if n <= 0 {
        w
    } else {
        apply_command(apply_upto(w, cs, n - 1), cs[n - 1])
    }
}

/// Applying a whole command list in order.
pub open spec fn apply_all(w: WorldModel, cs: Seq<CommandModel>) -> WorldModel {
    apply_upto(w, cs, cs.len() as int)
}

/// One command preserves the world invariant, never shrinks the slot range,
/// and touches no event queue and no parameters.
pub proof fn lemma_apply_command_inv(w: WorldModel, c: CommandModel)
    requires
        wm_inv(w),
    ensures
        wm_inv(apply_command(w, c)),
        apply_command(w, c).slots.len() >= w.slots.len(),
        apply_command(w, c).changed == w.changed,
        apply_command(w, c).removed == w.removed,
        apply_command(w, c).params == w.params,
{
    let r = apply_command(w, c);
    match c {
        CommandModel::RemoveComps { entity, tys } => {
            if alive(w, entity as int) {
                lemma_remove_tys(ent(w, entity as int).comps, tys);
                assert forall|e: int| 0 <= e < r.slots.len() && r.slots[e] is Some implies ent_wf(
                    (#[trigger] r.slots[e]).unwrap(),
                    e,
                ) by {
                    if e != entity as int {
                        assert(r.slots[e] == w.slots[e]);
                    }
                }
            }
        },
        CommandModel::InsertComps { entity, comps } => {
            if alive(w, entity as int) {
                lemma_upsert_all_unique(ent(w, entity as int).comps, comps, comps.len() as int);
                assert forall|e: int| 0 <= e < r.slots.len() && r.slots[e] is Some implies ent_wf(
                    (#[trigger] r.slots[e]).unwrap(),
                    e,
                ) by {
                    if e != entity as int {
                        assert(r.slots[e] == w.slots[e]);
                    }
                }
            }
        },
        CommandModel::SpawnChild { parent, comps } => {
            if alive(w, parent as int) {
                lemma_upsert_all_unique(Seq::empty(), comps, comps.len() as int);
                assert forall|e: int| 0 <= e < r.slots.len() && r.slots[e] is Some implies ent_wf(
                    (#[trigger] r.slots[e]).unwrap(),
                    e,
                ) by {
                    if e < w.slots.len() {
                        assert(r.slots[e] == w.slots[e]);
                    }
                }
            }
        },
        CommandModel::DespawnDescendants { entity } => {
            if alive(w, entity as int) {
                assert forall|e: int| 0 <= e < r.slots.len() && r.slots[e] is Some implies ent_wf(
                    (#[trigger] r.slots[e]).unwrap(),
                    e,
                ) by {
                    assert(r.slots[e] == w.slots[e]);
                }
            }
        },
        CommandModel::DespawnRecursive { entity } => {
            if alive(w, entity as int) {
                assert forall|e: int| 0 <= e < r.slots.len() && r.slots[e] is Some implies ent_wf(
                    (#[trigger] r.slots[e]).unwrap(),
                    e,
                ) by {
                    assert(r.slots[e] == w.slots[e]);
                }
            }
        },
    }
}

/// Applying commands only reads the prefix it applies.
pub proof fn lemma_apply_upto_prefix(
    w: WorldModel,
    cs1: Seq<CommandModel>,
    cs2: Seq<CommandModel>,
    n: int,
)
    requires
        0 <= n,
        n <= cs1.len(),
        n <= cs2.len(),
        forall|i: int| 0 <= i < n ==> cs1[i] == cs2[i],
    ensures
        apply_upto(w, cs1, n) == apply_upto(w, cs2, n),
    decreases n,
{
    if n > 0 {
        lemma_apply_upto_prefix(w, cs1, cs2, n - 1);
    }
}

/// Applying a concatenation applies the two halves in turn.
pub proof fn lemma_apply_concat(w: WorldModel, a: Seq<CommandModel>, b: Seq<CommandModel>)
    ensures
        apply_all(w, a + b) == apply_all(apply_all(w, a), b),
    decreases b.len(),
{
    if b.len() == 0 {
        assert(a + b =~= a);
        lemma_apply_upto_prefix(w, a + b, a, a.len() as int);
    } else {
        let b0 = b.drop_last();
        lemma_apply_concat(w, a, b0);
        assert(a + b0 =~= (a + b).take(a.len() + b.len() - 1));
        lemma_apply_upto_prefix(w, a + b0, a + b, a.len() + b.len() - 1);
        assert(apply_all(w, a + b) == apply_command(
            apply_upto(w, a + b, a.len() + b.len() - 1),
            (a + b)[a.len() + b.len() - 1],
        ));
        assert((a + b)[a.len() + b.len() - 1] == b[b.len() - 1]);
        assert(apply_all(apply_all(w, a), b) == apply_command(
            apply_upto(apply_all(w, a), b, b.len() - 1),
            b[b.len() - 1],
        ));
        lemma_apply_upto_prefix(apply_all(w, a), b0, b, b.len() - 1);
    }
}

impl World {
    /// Despawn the live parent-chain tree under `x` (and `x` itself when
    /// `include_root`), by a single forward pass over the arena: parent
    /// links point backwards, so each slot's fate follows from its
    /// parent's. Slots already dead are skipped, never freed twice.
    pub(crate) fn despawn_tree(&mut self, x: usize, include_root: bool)
        requires
            wm_inv(old(self)@),
        ensures
            wm_inv(final(self)@),
            final(self)@ == (WorldModel {
                slots: kill_chain(old(self)@.slots, x as int, include_root),
                ..old(self)@
            }),
    {
        let ghost w0 = self@;
        let n = self.slots.len();
        let mut marks: Vec<bool> = Vec::new();
        let mut i: usize = 0;
        while i < n
            invariant
                wm_inv(w0),
                self@ == w0,
                n == w0.slots.len(),
                0 <= i <= n,
                marks@.len() == i,
                forall|j: int|
                    0 <= j < i ==> marks@[j] == ((include_root && j == x as int) || chain_to(
                        w0.slots,
                        j,
                        x as int,
                    )),
            decreases n - i,
        {
            let mut m: bool = false;
            if include_root && i == x {
                m = true;
            } else {
                match &self.slots[i] {
                    Some(d) => {
                        match d.parent {
                            Some(p) => {
                                if p == x {
                                    m = true;
                                } else {
                                    proof {
                                        assert(w0.slots[i as int] is Some);
                                        assert(ent_wf(w0.slots[i as int].unwrap(), i as int));
                                        assert((p as int) < i as int);
                                    }
                                    m = marks[p];
                                }
                            },
                            None => {},
                        }
                    },
                    None => {},
                }
            }
            proof {
                assert(m == ((include_root && i == x as int) || chain_to(
                    w0.slots,
                    i as int,
                    x as int,
                )));
            }
            marks.push(m);
            i = i + 1;
        }
        let mut k: usize = 0;
        while k < n
            invariant
                wm_inv(w0),
                n == w0.slots.len(),
                0 <= k <= n,
                marks@.len() == n,
                forall|j: int|
                    0 <= j < n ==> marks@[j] == ((include_root && j == x as int) || chain_to(
                        w0.slots,
                        j,
                        x as int,
                    )),
                self@.slots.len() == n,
                self@.changed == w0.changed,
                self@.removed == w0.removed,
                self@.params == w0.params,
                forall|j: int|
                    0 <= j < k ==> self@.slots[j] == kill_chain(w0.slots, x as int, include_root)[j],
                forall|j: int| k <= j < n ==> self@.slots[j] == w0.slots[j],
            decreases n - k,
        {
            if marks[k] {
                let ghost before = self@.slots;
                self.slots.remove(k);
                self.slots.insert(k, None);
                proof {
                    assert(self@.slots =~= before.update(k as int, None));
                }
            }
            k = k + 1;
        }
        proof {
            assert(self@.slots =~= kill_chain(w0.slots, x as int, include_root));
            assert(self@ =~= (WorldModel {
                slots: kill_chain(w0.slots, x as int, include_root),
                ..w0
            }));
            assert forall|e: int| 0 <= e < self@.slots.len() && self@.slots[e] is Some implies
                ent_wf((#[trigger] self@.slots[e]).unwrap(), e) by {
                assert(self@.slots[e] == w0.slots[e]);
            }
        }
    }

    /// Apply one buffered command; see `apply_command` for its meaning.
    pub(crate) fn apply_one(&mut self, c: &Command)
        requires
            wm_inv(old(self)@),
        ensures
            wm_inv(final(self)@),
            final(self)@ == apply_command(old(self)@, c@),
    {
        match c {
            Command::RemoveComps { entity, tys } => {
                let e = *entity;
                if e < self.slots.len() && self.slots[e].is_some() {
                    let ghost m0 = ent(old(self)@, e as int);
                    let slot = self.slots.remove(e);
                    let mut d = slot.unwrap();
                    proof {
                        assert(d@ == m0);
                        lemma_remove_tys(m0.comps, tys@);
                    }
                    vec_remove_tys(&mut d.components, tys);
                    self.slots.insert(e, Some(d));
                    proof {
                        assert(self.slots@ =~= old(self).slots@.update(e as int, Some(d)));
                        assert(self@.slots =~= old(self)@.slots.update(
                            e as int,
                            Some(EntityModel { comps: remove_tys(m0.comps, tys@), ..m0 }),
                        ));
                        assert(self@ =~= apply_command(old(self)@, c@));
                        assert forall|j: int|
                            0 <= j < self@.slots.len() && self@.slots[j] is Some implies ent_wf(
                            (#[trigger] self@.slots[j]).unwrap(),
                            j,
                        ) by {
                            if j != e as int {
                                assert(self@.slots[j] == old(self)@.slots[j]);
                            }
                        }
                    }
                } else {
                    proof {
                        assert(self@ =~= apply_command(old(self)@, c@));
                    }
                }
            },
            Command::InsertComps { entity, comps } => {
                let e = *entity;
                if e < self.slots.len() && self.slots[e].is_some() {
                    let ghost m0 = ent(old(self)@, e as int);
                    let slot = self.slots.remove(e);
                    let mut d = slot.unwrap();
                    proof {
                        assert(d@ == m0);
                        lemma_upsert_all_unique(m0.comps, comps@, comps@.len() as int);
                    }
                    vec_upsert_all(&mut d.components, comps);
                    self.slots.insert(e, Some(d));
                    proof {
                        assert(self.slots@ =~= old(self).slots@.update(e as int, Some(d)));
                        assert(self@.slots =~= old(self)@.slots.update(
                            e as int,
                            Some(EntityModel { comps: upsert_all(m0.comps, comps@), ..m0 }),
                        ));
                        assert(self@ =~= apply_command(old(self)@, c@));
                        assert forall|j: int|
                            0 <= j < self@.slots.len() && self@.slots[j] is Some implies ent_wf(
                            (#[trigger] self@.slots[j]).unwrap(),
                            j,
                        ) by {
                            if j != e as int {
                                assert(self@.slots[j] == old(self)@.slots[j]);
                            }
                        }
                    }
                } else {
                    proof {
                        assert(self@ =~= apply_command(old(self)@, c@));
                    }
                }
            },
            Command::SpawnChild { parent, comps } => {
                let p = *parent;
                if p < self.slots.len() && self.slots[p].is_some() {
                    let mut bundle: Vec<Component> = Vec::new();
                    proof {
                        lemma_upsert_all_unique(Seq::empty(), comps@, comps@.len() as int);
                        assert(comps_unique(bundle@));
                    }
                    vec_upsert_all(&mut bundle, comps);
                    proof {
                        assert(bundle@ == upsert_all(Seq::empty(), comps@));
                    }
                    self.slots.push(
                        Some(EntityData { components: bundle, blueprints: Vec::new(), parent: Some(p) }),
                    );
                    proof {
                        assert(self@.slots =~= old(self)@.slots.push(
                            Some(
                                EntityModel {
                                    comps: upsert_all(Seq::empty(), comps@),
                                    bps: Seq::empty(),
                                    parent: Some(p),
                                },
                            ),
                        ));
                        assert(self@ =~= apply_command(old(self)@, c@));
                        assert forall|j: int|
                            0 <= j < self@.slots.len() && self@.slots[j] is Some implies ent_wf(
                            (#[trigger] self@.slots[j]).unwrap(),
                            j,
                        ) by {
                            if j < old(self)@.slots.len() {
                                assert(self@.slots[j] == old(self)@.slots[j]);
                            }
                        }
                    }
                } else {
                    proof {
                        assert(self@ =~= apply_command(old(self)@, c@));
                    }
                }
            },
            Command::DespawnDescendants { entity } => {
                let e = *entity;
                if e < self.slots.len() && self.slots[e].is_some() {
                    self.despawn_tree(e, false);
                } else {
                    proof {
                        assert(self@ =~= apply_command(old(self)@, c@));
                    }
                }
            },
            Command::DespawnRecursive { entity } => {
                let e = *entity;
                if e < self.slots.len() && self.slots[e].is_some() {
                    self.despawn_tree(e, true);
                } else {
                    proof {
                        assert(self@ =~= apply_command(old(self)@, c@));
                    }
                }
            },
        }
    }

    /// Flush: apply a whole buffer of commands in order.
    pub(crate) fn apply_commands(&mut self, cmds: &Vec<Command>)
        requires
            wm_inv(old(self)@),
        ensures
            wm_inv(final(self)@),
            final(self)@ == apply_all(old(self)@, cmd_views(cmds@)),
    {
        let ghost w0 = self@;
        let n = cmds.len();
        let mut i: usize = 0;
        while i < n
            invariant
                wm_inv(self@),
                n == cmds@.len(),
                0 <= i <= n,
                self@ == apply_upto(w0, cmd_views(cmds@), i as int),
            decreases n - i,
        {
            self.apply_one(&cmds[i]);
            i = i + 1;
        }
    }
}

} // verus!
