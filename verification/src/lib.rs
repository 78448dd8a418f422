//! Offline reinforcement learning for language models: trajectory data, the
//! replay buffer, the training plan and the serving rules.

pub mod batch;
pub mod checkpoint;
pub mod double;
pub mod dpo;
pub mod eval;
pub mod grid;
pub mod ilql;
pub mod ingest;
pub mod inspect;
pub mod loader;
pub mod model;
pub mod paged_adamw;
pub mod pipeline;
pub mod preference;
pub mod replay_buffer;
pub mod rw_sft;
pub mod scheduler;
pub mod serve;
pub mod targets;
pub mod text;
pub mod tokenize;
pub mod trainer;
pub mod trajectory;
pub mod value_head;
