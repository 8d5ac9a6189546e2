//! Normalisation of localized UI strings: format directives are made
//! positional and platform-neutral, markup characters are escaped, and plural
//! variants are grouped by language.
pub mod placeholder;
pub mod text;
pub mod normalize;
pub mod model;
pub mod ordered;
pub mod keys;
