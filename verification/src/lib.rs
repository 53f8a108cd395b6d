pub mod corrupt;
pub mod fix;
pub mod hash;
pub mod record;
pub mod scan;
pub mod store;
