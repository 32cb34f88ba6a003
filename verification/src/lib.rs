//! An in-process entity/component store with a typed event scheduler.
//!
//! The crate has two halves:
//!
//! - `entity`, `components`, `query` and `world` form a sparse-set component
//!   store: entities are versioned ids, components live in densely packed
//!   per-component storages, and queries intersect or subtract storages.
//! - `observer` and `scheduler` form the event engine: a scheduler routes
//!   events, batched into epochs, through priority-ordered handler chains,
//!   and republishes fully processed events onto per-kind observable logs.

pub mod entity;

pub use entity::Entity;
pub use entity::EntityStorage;
pub use entity::IdSize;
pub use entity::valid_recycle_order;

pub mod components;

pub use components::ComponentSet;
pub use components::ComponentStorage;

pub mod query;

pub use query::filter_with;
pub use query::filter_without;

pub mod world;

pub use world::WorldStorage;

pub mod observer;

pub use observer::ObservableQueue;
pub use observer::Observer;

pub mod scheduler;

pub use scheduler::chain_sorted;
pub use scheduler::tag_events;
pub use scheduler::CommandError;
pub use scheduler::EventError;
pub use scheduler::EventHandler;
pub use scheduler::EventResult;
pub use scheduler::HandlerEntry;
pub use scheduler::ScheduledEvent;
pub use scheduler::Scheduler;
pub use scheduler::SchedulerContext;
pub use scheduler::Sender;
pub use scheduler::chain_broke;
pub use scheduler::chain_run;
pub use scheduler::event_step;
pub use scheduler::events_of_kind;
pub use scheduler::published_events;
pub use scheduler::published_upto;
pub use scheduler::step_run;
pub use scheduler::DispatchState;
pub use scheduler::StepState;
pub use scheduler::lemma_equal_priority_stable;
pub use scheduler::lemma_priority_order;
pub use scheduler::singleton_epochs;
pub use scheduler::stable_insert;

pub use observer::lemma_reads_drain;
pub use observer::lemma_round_trip;
pub use observer::push_effect;
pub use observer::push_run;
