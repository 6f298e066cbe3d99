//! End-to-end tests of the synchronization engine: blueprints attached,
//! changed, detached and orphaned, for both target strategies, driven
//! through whole cycles of the shared scheduler.

use reactive_blueprints::Blueprint;
use reactive_blueprints::Component;
use reactive_blueprints::Payload;
use reactive_blueprints::data::ComponentRule;
use reactive_blueprints::data::Derivation;
use reactive_blueprints::data::Expr;
use reactive_blueprints::engine::BlueprintPlugin;
use reactive_blueprints::engine::BlueprintTarget;
use reactive_blueprints::engine::BlueprintsPlugin;
use reactive_blueprints::world::World;

const RECT: u64 = 1;
const SPECIFIC_RECT: u64 = 2;

const SIZE: u64 = 1;
const COLOR: u64 = 2;
const AREA: u64 = 3;

const RED: u64 = 1;
const BLUE: u64 = 2;

/// Size from the payload, a fixed red color, and the payload's area.
fn rect_bundle() -> Derivation {
    Derivation::new(vec![
        ComponentRule { ty: SIZE, x: Expr::PayloadX, y: Expr::PayloadY },
        ComponentRule { ty: COLOR, x: Expr::Const(RED), y: Expr::Const(0) },
        ComponentRule { ty: AREA, x: Expr::Product, y: Expr::Const(0) },
    ])
}

#[test]
fn single_blueprint() {
    let mut app = BlueprintsPlugin::new();
    // whereas the scheduler prepares the framework, individual units must
    // be registered to define which blueprints to reactively manage
    app.register(BlueprintPlugin::new(RECT, rect_bundle(), BlueprintTarget::AsSelf));
    let mut world = World::new();
    // when spawning an entity of this kind, spawn a blueprint of its
    // payload type
    let entity = world.spawn_with(Blueprint::new(Payload::default_of(RECT)));
    app.update(&mut world);
    assert_eq!(world.entities_with_all(&vec![SIZE, COLOR, AREA]).len(), 1);
    assert_eq!(world.entities_with_any(&vec![SIZE, COLOR, AREA]).len(), 1);
    // when the blueprint component is removed, the derived components are
    // removed as well
    world.remove_blueprint(entity, RECT);
    app.update(&mut world);
    assert_eq!(world.entities_with_any(&vec![SIZE, COLOR, AREA]).len(), 0);
}

#[test]
fn multiple_blueprint() {
    // a second payload type deriving the same bundle shape from constants
    let specific_bundle = Derivation::new(vec![
        ComponentRule { ty: SIZE, x: Expr::Const(10), y: Expr::Const(10) },
        ComponentRule { ty: COLOR, x: Expr::Const(BLUE), y: Expr::Const(0) },
        ComponentRule { ty: AREA, x: Expr::Const(10 * 10), y: Expr::Const(0) },
    ]);
    let mut app = BlueprintsPlugin::new();
    // can register as many blueprints as we want (including overlapping
    // ones, be careful!)
    app.register(BlueprintPlugin::new(RECT, rect_bundle(), BlueprintTarget::AsSelf));
    app.register(BlueprintPlugin::new(SPECIFIC_RECT, specific_bundle, BlueprintTarget::AsSelf));
    let mut world = World::new();
    // spawn one entity for each blueprint
    let entity1 = world.spawn_with(Blueprint::new(Payload::default_of(RECT)));
    let entity2 = world.spawn_with(Blueprint::new(Payload::default_of(SPECIFIC_RECT)));
    app.update(&mut world);
    assert_eq!(world.entities_with_all(&vec![SIZE, COLOR, AREA]).len(), 2);
    // clean up one at a time
    world.remove_blueprint(entity1, RECT);
    app.update(&mut world);
    assert_eq!(world.entities_with_any(&vec![SIZE, COLOR, AREA]).len(), 1);
    world.remove_blueprint(entity2, SPECIFIC_RECT);
    app.update(&mut world);
    assert_eq!(world.entities_with_any(&vec![SIZE, COLOR, AREA]).len(), 0);
}

#[test]
fn multiple_prefab() {
    let first_bundle = Derivation::new(vec![
        ComponentRule { ty: SIZE, x: Expr::PayloadX, y: Expr::PayloadY },
        ComponentRule { ty: COLOR, x: Expr::Const(RED), y: Expr::Const(0) },
    ]);
    // this bundle is produced separately, e.g. it is owned by another part
    // of the application
    let second_bundle = Derivation::new(vec![
        ComponentRule { ty: AREA, x: Expr::Product, y: Expr::Const(0) },
    ]);
    let mut app = BlueprintsPlugin::new();
    // can register multiple output bundles for the same blueprint payload
    app.register(BlueprintPlugin::new(RECT, first_bundle, BlueprintTarget::AsSelf));
    app.register(BlueprintPlugin::new(RECT, second_bundle, BlueprintTarget::AsSelf));
    let mut world = World::new();
    // spawn the blueprint
    let entity = world.spawn_with(Blueprint::new(Payload::default_of(RECT)));
    app.update(&mut world);
    assert_eq!(world.entities_with_all(&vec![SIZE, COLOR, AREA]).len(), 1);
    // cleanup is handled automatically
    world.remove_blueprint(entity, RECT);
    app.update(&mut world);
    assert_eq!(world.entities_with_any(&vec![SIZE, COLOR, AREA]).len(), 0);
}

#[test]
fn self_and_child() {
    let self_bundle = Derivation::new(vec![
        ComponentRule { ty: COLOR, x: Expr::Const(RED), y: Expr::Const(0) },
    ]);
    let child_bundle = Derivation::new(vec![
        ComponentRule { ty: AREA, x: Expr::Product, y: Expr::Const(0) },
        ComponentRule { ty: SIZE, x: Expr::PayloadX, y: Expr::PayloadY },
    ]);
    let mut app = BlueprintsPlugin::new();
    // the same payload type can drive output on the entity and on a child
    app.register(BlueprintPlugin::new(RECT, self_bundle, BlueprintTarget::AsSelf));
    app.register(BlueprintPlugin::new(RECT, child_bundle, BlueprintTarget::AsChild));
    let mut world = World::new();
    // spawn the blueprint
    let entity = world.spawn_with(Blueprint::new(Payload::default_of(RECT)));
    app.update(&mut world);
    let parent_entities = world.entities_with_all(&vec![COLOR]);
    assert_eq!(parent_entities.len(), 1);
    let parent_entity = parent_entities[0];
    let child_entities = world.entities_with_all(&vec![SIZE, AREA]);
    assert_eq!(child_entities.len(), 1);
    assert_eq!(world.parent_of(child_entities[0]), Some(parent_entity));
    // cleanup is handled automatically
    world.remove_blueprint(entity, RECT);
    app.update(&mut world);
    assert_eq!(world.entities_with_any(&vec![SIZE, COLOR, AREA]).len(), 0);
}

#[test]
fn rect_scenario() {
    let mut app = BlueprintsPlugin::new();
    app.register(BlueprintPlugin::new(RECT, rect_bundle(), BlueprintTarget::AsSelf));
    let mut world = World::new();
    let entity = world.spawn_with(Blueprint::new(Payload::new(RECT, 4, 4)));
    app.update(&mut world);
    assert_eq!(world.get_component(entity, SIZE), Some(Component { ty: SIZE, x: 4, y: 4 }));
    assert_eq!(world.get_component(entity, AREA), Some(Component { ty: AREA, x: 16, y: 0 }));
    assert_eq!(world.entities_with_all(&vec![AREA]).len(), 1);
    // replacing the payload replaces the whole output: exactly the new
    // values, no entity holds both the old and the new area
    world.insert_blueprint(entity, Blueprint::new(Payload::new(RECT, 10, 10)));
    app.update(&mut world);
    assert_eq!(world.get_component(entity, SIZE), Some(Component { ty: SIZE, x: 10, y: 10 }));
    assert_eq!(world.get_component(entity, AREA), Some(Component { ty: AREA, x: 100, y: 0 }));
    assert_eq!(world.entities_with_all(&vec![AREA]).len(), 1);
}

#[test]
fn replace_not_merge() {
    let mut app = BlueprintsPlugin::new();
    app.register(BlueprintPlugin::new(RECT, rect_bundle(), BlueprintTarget::AsSelf));
    let mut world = World::new();
    let entity = world.spawn_with(Blueprint::new(Payload::new(RECT, 4, 4)));
    // a stale component at an output type, planted before the first cycle
    world.insert_component(entity, Component { ty: AREA, x: 999, y: 999 });
    app.update(&mut world);
    // regeneration is a full replace: the stale value is gone
    assert_eq!(world.get_component(entity, AREA), Some(Component { ty: AREA, x: 16, y: 0 }));
    // a component outside the unit's output types survives regeneration
    world.insert_component(entity, Component { ty: 77, x: 5, y: 5 });
    world.insert_blueprint(entity, Blueprint::new(Payload::new(RECT, 2, 3)));
    app.update(&mut world);
    assert_eq!(world.get_component(entity, AREA), Some(Component { ty: AREA, x: 6, y: 0 }));
    assert_eq!(world.get_component(entity, 77), Some(Component { ty: 77, x: 5, y: 5 }));
}

#[test]
fn orphan_cleanup() {
    let child_bundle = Derivation::new(vec![
        ComponentRule { ty: SIZE, x: Expr::PayloadX, y: Expr::PayloadY },
        ComponentRule { ty: AREA, x: Expr::Product, y: Expr::Const(0) },
    ]);
    let mut app = BlueprintsPlugin::new();
    app.register(BlueprintPlugin::new(RECT, child_bundle, BlueprintTarget::AsChild));
    let mut world = World::new();
    let bystander = world.spawn_empty();
    let entity = world.spawn_with(Blueprint::new(Payload::new(RECT, 4, 4)));
    app.update(&mut world);
    let children = world.children_of(entity);
    assert_eq!(children.len(), 1);
    // destroy the blueprint entity directly, without removing the
    // blueprint first: the next cycle still cleans the orphaned child up
    world.despawn(entity);
    app.update(&mut world);
    assert!(!world.is_alive(children[0]));
    assert_eq!(world.entities_with_any(&vec![SIZE, AREA]).len(), 0);
    // unrelated entities are untouched by the sweep
    assert!(world.is_alive(bystander));
}

#[test]
fn deep_hierarchy_detach() {
    let child_bundle = Derivation::new(vec![
        ComponentRule { ty: SIZE, x: Expr::PayloadX, y: Expr::PayloadY },
    ]);
    let mut app = BlueprintsPlugin::new();
    app.register(BlueprintPlugin::new(RECT, child_bundle, BlueprintTarget::AsChild));
    let mut world = World::new();
    let entity = world.spawn_with(Blueprint::new(Payload::new(RECT, 4, 4)));
    app.update(&mut world);
    let child = world.children_of(entity)[0];
    // hang a manually-made grandchild below the derived child
    let grandchild = world.spawn_child_of(child);
    world.remove_blueprint(entity, RECT);
    app.update(&mut world);
    // the whole subtree is despawned; the blueprint entity survives
    assert!(world.is_alive(entity));
    assert!(!world.is_alive(child));
    assert!(!world.is_alive(grandchild));
}

#[test]
fn missing_param_derives_empty() {
    // a derivation reading an injected parameter that is not there
    let param_bundle = Derivation::new(vec![
        ComponentRule { ty: SIZE, x: Expr::Param(0), y: Expr::Const(0) },
    ]);
    let mut app = BlueprintsPlugin::new();
    app.register(BlueprintPlugin::new(RECT, param_bundle, BlueprintTarget::AsSelf));
    let mut world = World::new();
    let entity = world.spawn_with(Blueprint::new(Payload::default_of(RECT)));
    app.update(&mut world);
    // derivation degrades to the empty bundle rather than failing
    assert_eq!(world.entities_with_any(&vec![SIZE]).len(), 0);
    // once the parameter exists, the next change derives the real bundle
    world.set_params(vec![7]);
    world.insert_blueprint(entity, Blueprint::new(Payload::default_of(RECT)));
    app.update(&mut world);
    assert_eq!(world.get_component(entity, SIZE), Some(Component { ty: SIZE, x: 7, y: 0 }));
}

#[test]
fn remove_and_readd_same_cycle() {
    let mut app = BlueprintsPlugin::new();
    app.register(BlueprintPlugin::new(RECT, rect_bundle(), BlueprintTarget::AsSelf));
    let mut world = World::new();
    let entity = world.spawn_with(Blueprint::new(Payload::new(RECT, 4, 4)));
    app.update(&mut world);
    // removal and re-insertion observed within one cycle window: cleanup
    // still fires, and the sync that follows regenerates from the new value
    world.remove_blueprint(entity, RECT);
    world.insert_blueprint(entity, Blueprint::new(Payload::new(RECT, 5, 5)));
    app.update(&mut world);
    assert_eq!(world.get_component(entity, AREA), Some(Component { ty: AREA, x: 25, y: 0 }));
    assert_eq!(world.entities_with_all(&vec![SIZE, COLOR, AREA]).len(), 1);
}

#[test]
fn derive_exact_values() {
    let bundle = rect_bundle();
    let params: Vec<u64> = Vec::new();
    let out = bundle.derive(&Payload::new(RECT, 3, 5), &params);
    assert_eq!(out.len(), 3);
    assert_eq!(out[0], Component { ty: SIZE, x: 3, y: 5 });
    assert_eq!(out[1], Component { ty: COLOR, x: RED, y: 0 });
    assert_eq!(out[2], Component { ty: AREA, x: 15, y: 0 });
}

#[test]
fn despawn_is_tolerant() {
    let mut world = World::new();
    let entity = world.spawn_with(Blueprint::new(Payload::default_of(RECT)));
    world.despawn(entity);
    assert!(!world.is_alive(entity));
    // despawning again is a no-op, never a double free
    world.despawn(entity);
    assert!(!world.is_alive(entity));
    assert_eq!(world.slot_count(), 1);
}

#[test]
fn writing_equal_payload_counts_as_change() {
    let mut app = BlueprintsPlugin::new();
    app.register(BlueprintPlugin::new(RECT, rect_bundle(), BlueprintTarget::AsSelf));
    let mut world = World::new();
    let entity = world.spawn_with(Blueprint::new(Payload::new(RECT, 4, 4)));
    app.update(&mut world);
    // plant a stale value, then write the same payload value again: a
    // write triggers change detection, not a deep comparison
    world.insert_component(entity, Component { ty: AREA, x: 999, y: 0 });
    world.insert_blueprint(entity, Blueprint::new(Payload::new(RECT, 4, 4)));
    app.update(&mut world);
    assert_eq!(world.get_component(entity, AREA), Some(Component { ty: AREA, x: 16, y: 0 }));
}
