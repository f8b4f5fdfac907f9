pub mod cascade;
pub mod css;
pub mod dom;
pub mod layout;
pub mod painting;
pub mod style;
pub mod table;
pub mod text;
