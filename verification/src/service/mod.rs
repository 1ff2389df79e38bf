pub mod distributor;
pub mod merger;
pub mod moderator;
