pub mod play;
pub mod save;
pub mod shadow_realm;
