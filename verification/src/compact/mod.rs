pub mod bytes;
pub mod commit;
pub mod edit;
pub mod enums;
pub mod laws;
pub mod lemmas;
pub mod model;
pub mod schema;
pub mod view;
