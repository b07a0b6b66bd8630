//! Verified core of a recursive Kanban planner: cards that form a tree, note
//! pages, due dates, labels, rules, a command layer and the pure helpers that the
//! user interface relies on.

pub mod text;
pub mod ids;
pub mod error;
pub mod title;
pub mod note;
pub mod due_date;
pub mod label;
pub mod bucket;
pub mod rule;
pub mod card;
pub mod registry;
pub mod ordering;
pub mod interface;
pub mod application;
pub mod logging;
pub mod repository;
pub mod search;
