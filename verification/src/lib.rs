//! Game rules of a life simulation: wall connectivity and mesh indexing,
//! task scheduling, control bindings, and the UI widget state machines,
//! each stated with a contract and proved.
pub mod modal;
pub mod wall;
pub mod task;
pub mod settings;
pub mod widget;
pub mod menu;
pub mod family;
