//! A verified model of the core bookkeeping of an entity-component-system
//! world: archetype indices and column plans, dirty lists and event lists,
//! component blobs, and the execution graph that orders systems.
#![allow(unused_imports)]

pub mod world;
pub mod exec_graph;
pub mod index_order;
pub mod ngraph;
pub mod archetype;
pub mod dirty;
pub mod event;
pub mod blob_vec;
pub mod components;
pub mod multi_res;
pub mod event_deal;
pub mod blob;
pub mod column;
pub mod example;
pub mod example_bevy;
pub mod exec;
pub mod debug;
pub mod listener;
pub mod mutate;
pub mod filter;
pub mod fetch;
pub mod system;
pub mod dot;
pub mod alter;
pub mod editor;
