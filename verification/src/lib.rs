//! Plans the cheapest sequence of plate changes that takes a set of exercise
//! bars through an ordered list of target loads, given a finite plate
//! inventory.

pub mod bar;
pub mod bar_kind;
pub mod combinations;
pub mod configurations;
pub mod dumbbell;
pub mod gym;
pub mod gym_error;
pub mod gym_state;
pub mod inventory;
pub mod plan;
pub mod plate;
pub mod reach;
pub mod requirement;
pub mod sequence;
pub mod state_space;
pub mod workout;
pub mod links;
