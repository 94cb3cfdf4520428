//! Core of a local inference dashboard: a GGUF metadata reader, a model
//! catalogue builder, a model slot table with LRU eviction guarded by
//! reference pins, and the decisions of the streaming generation loop.

pub mod catalog;
pub mod chat;
pub mod decoder;
pub mod generate;
pub mod reader;
pub mod sampler;
pub mod slots;
pub mod text;
pub mod types;

pub use catalog::{detect_split_base, generate_model_id, scan_directory, FoundFile, ModelEntry};
pub use chat::{chat_prompt, fallback_prompt, ChatMessage};
pub use decoder::{prompt_batch, BatchEntry, ContextParams, LlamaError, ModelParams, NumaStrategy};
pub use generate::{FinishReason, GenerateEvent, Generation, Phase, Step, StepInput};
pub use reader::{quick_scan, QuickScanResult};
pub use sampler::{plan_sampler_chain, ChainChoice, SamplerStage};
pub use slots::{
    EnsureLoaded, LoadStart, LoadedModel, ModelManager, ModelManagerConfig, ModelStatus, SlotInfo,
};
pub use types::{file_type_name, GGUFError, GGUFHeader, GGUFMetadataKV, GGUFValue, GGUFValueType};
