pub mod api_client;
pub mod queue;
pub mod service;
pub mod vad;
