//! Production planning for a factory game: a catalog of items, buildings and
//! recipes; a linear program that says how often each recipe must run to deliver
//! items at given rates; and the bill of materials and graph drawn from its answer.

pub mod bom;
pub mod bom_graph;
pub mod book;
pub mod building;
pub mod catalog;
pub mod complexity;
pub mod error;
pub mod input_item;
pub mod item;
pub mod laws;
pub mod problem;
pub mod problem_input;
pub mod ratio;
pub mod reactant;
pub mod recipe;
pub mod recipe_filter;
pub mod text;
