//! Verified core of a game-data alchemy toolkit: load-order-aware global
//! form-id resolution, game-data validation and pruning, and the
//! combinatorial potion search with its scoring and ranking rules.

pub mod form_id;
pub mod game_data;
pub mod ingredient;
pub mod load_order;
pub mod magic_effect;
pub mod potion;
pub mod potions_list;
pub mod shared_effects_cache;
pub mod utils;
