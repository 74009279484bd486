//! Meal planning over a food composition table: nutrient records in fixed-point amounts,
//! personal reference intakes, a score of how well a set of foods meets them, and an
//! exhaustive search for the best-scoring combinations of foods.

pub mod automatic_selection;
pub mod color;
pub mod combination;
pub mod food;
pub mod food_data;
pub mod food_table;
pub mod kijun;
pub mod options;
