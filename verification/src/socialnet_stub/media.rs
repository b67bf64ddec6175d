//! Media types of the social network application.
pub use super::Image;
