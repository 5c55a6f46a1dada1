//! Exact rational numbers kept in lowest terms with a positive denominator.

pub mod decimal;
pub mod fraction;
pub mod laws;
pub mod number_theory;
pub mod text;

pub use decimal::ConversionError;
pub use fraction::Fraction;
pub use text::DECIMAL_PLACES;
