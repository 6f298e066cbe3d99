//! A reactive blueprint-to-prefab synchronization engine.
//!
//! A *blueprint* is a small declarative record attached to an entity. Each
//! world cycle, registered synchronization units watch for blueprints being
//! added, changed or removed, and regenerate or tear down the richer set of
//! *output components* derived from them. Structural mutations are buffered
//! as commands and applied in a final flush phase, so that all units observe
//! one consistent world snapshot per cycle.

pub mod command;
pub mod data;
pub mod engine;
pub mod laws;
pub mod store;
pub mod world;

pub use data::Component;
pub use data::Derivation;
pub use data::Payload;
pub use engine::BlueprintPlugin;
pub use engine::BlueprintTarget;
pub use engine::BlueprintsPlugin;
pub use store::Blueprint;
pub use world::World;
