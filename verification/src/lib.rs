pub mod digits;
pub mod number;

pub use digits::BASE;
pub use number::Number;
pub use number::text::ParseError;
