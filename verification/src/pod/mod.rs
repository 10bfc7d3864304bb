pub mod elem;
pub mod number;
pub mod option;
pub mod prefix;
pub mod string;
pub mod text;
pub mod vec;
