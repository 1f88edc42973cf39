pub mod animation;
pub mod character;
pub mod expression;
pub mod input;
pub mod model;
pub mod options;
pub mod spell;
pub mod vault;
pub mod world;
