pub mod idempotence;
pub mod scrubbing;
