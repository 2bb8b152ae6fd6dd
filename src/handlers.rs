//! Request and response bodies of the server's handlers, as plain data.

pub mod addresses_delete;
pub mod labels_update;
pub mod tags_delete;
pub mod upstream_get;
