//! Server selection and failover for a proxying client: which upstream
//! server new proxied connections go through, how probe results rank the
//! servers, which live connections to cut when a server is demoted, and
//! per-destination traffic statistics.
pub mod chooser;
pub mod maintenance;
pub mod probe;
pub mod registry;
pub mod server;
pub mod stats;
