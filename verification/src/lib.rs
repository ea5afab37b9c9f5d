//! A scene database: entities with typed components in archetype tables, the
//! replication data pipeline on top of them, and the host side of a GPU mirror.

pub mod entity;
pub mod component;
pub mod ascending;
pub mod archetype;
pub mod hash_index;
pub mod pairs;
pub mod dense;
pub mod cell;
pub mod world;
pub mod query;
pub mod replication;
pub mod gpu;
pub mod subsystem;
pub mod component_store;
