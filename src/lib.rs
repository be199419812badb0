pub mod mod3;
pub mod replacement;
pub mod text;
pub mod wreath;

pub use mod3::Mod3;
pub use replacement::Replacement;
pub use wreath::{decode, rotate, Matrix, WreathElm};
