//! A retained-mode, incremental re-rendering engine.
//!
//! Render logic describes what should exist as a tree of [`Element`]s. The
//! [`AppModel`] keeps a persistent shadow tree of scopes, one per component
//! instance, and on every update matches the children that a render
//! declares against the children its scope had before: scopes are reused
//! where an element continues a previous child, created where it does not,
//! and destroyed, with everything below them, where a previous child is
//! no longer declared. Hooks give each component instance state that
//! survives re-renders.
//!
//! The engine never runs host code other than the render logic. Effects,
//! cleanups and deferred callbacks are tokens; the engine records when they
//! fall due, and the host collects the record with
//! [`AppModel::take_actions`] and performs it in order.
//!
//! Everything here is verified: the contracts speak of the mathematical
//! state in [`model`], and the laws that relate several operations are
//! public proof functions next to what they are about.

pub mod app_model;
pub mod components;
pub mod element;
pub mod hooks;
pub mod matching;
pub mod model;
pub mod output;
pub mod props;
pub mod reconciled;
pub mod schedule;
pub mod scope;
pub mod tree;
pub mod value;

pub use app_model::{create_app_model, AppModel};
pub use components::{component_id, component_named, Component, ComponentID};
pub use element::{create_element, Element, Receiver, ValueReceiver};
pub use model::UpdateMode;
pub use props::Props;
pub use value::{Action, Callback, Slot, Value};
