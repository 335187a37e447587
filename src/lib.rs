pub mod error;
pub mod text;
pub mod score;
pub mod scorer;
pub mod registry;
pub mod rank;
pub mod finder;
