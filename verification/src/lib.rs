pub mod compact;
pub mod error;
pub mod pod;
pub mod view_state;

pub use error::ZeroPodError;
pub use view_state::ViewState;
