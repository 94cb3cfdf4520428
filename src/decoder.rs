use vstd::prelude::*;

verus! {

/// Why a decoder operation failed.
#[derive(Debug, Clone, PartialEq, Eq)]
pub enum LlamaError {
    ModelLoadFailed { path: String, reason: String },
    ContextCreationFailed(String),
    DecodeFailed(i32),
    EncodeFailed(i32),
    TokenizationFailed(String),
    SamplerError(String),
    BackendNotInitialized,
    ModelNotLoaded,
    NullPointer,
    FfiPanic(String),
    Other(String),
}

/// How a model file is loaded.
#[derive(Debug, Clone, Copy, PartialEq, Eq, Structural)]
pub struct ModelParams {
    /// Layers to offload to the GPU (-1: all).
    pub n_gpu_layers: i32,
    /// Map the file into memory.
    pub use_mmap: bool,
    /// Lock the model's memory against swapping.
    pub use_mlock: bool,
}

impl Default for ModelParams {
    fn default() -> (r: ModelParams)
        ensures
            r == (ModelParams { n_gpu_layers: -1i32, use_mmap: true, use_mlock: false }),
    {
        ModelParams { n_gpu_layers: -1, use_mmap: true, use_mlock: false }
    }
}

/// How a decoding context is created.
#[derive(Debug, Clone, Copy, PartialEq, Eq, Structural)]
pub struct ContextParams {
    /// Context length in tokens (0: the model's training context).
    pub n_ctx: u32,
    pub n_batch: u32,
    pub n_ubatch: u32,
    pub n_threads: i32,
    pub n_threads_batch: i32,
    pub embeddings: bool,
}

impl ContextParams {
    /// The default parameters for a machine with `threads` hardware threads.
    pub fn with_threads(threads: i32) -> (r: ContextParams)
        ensures
            r == (ContextParams {
                n_ctx: 0,
                n_batch: 2048,
                n_ubatch: 512,
                n_threads: threads,
                n_threads_batch: threads,
                embeddings: false,
            }),
    {
        ContextParams {
            n_ctx: 0,
            n_batch: 2048,
            n_ubatch: 512,
            n_threads: threads,
            n_threads_batch: threads,
            embeddings: false,
        }
    }
}

/// How the decoder places its work on NUMA nodes.
#[derive(Debug, Clone, Copy, PartialEq, Eq, Structural)]
pub enum NumaStrategy {
    Disabled,
    Distribute,
    Isolate,
    NUMACtl,
    Mirror,
}

impl NumaStrategy {
    /// The decoder library's number for the strategy.
    pub fn as_raw(self) -> (r: u32)
        ensures
            r == match self {
                NumaStrategy::Disabled => 0u32,
                NumaStrategy::Distribute => 1,
                NumaStrategy::Isolate => 2,
                NumaStrategy::NUMACtl => 3,
                NumaStrategy::Mirror => 4,
            },
    {
        match self {
            NumaStrategy::Disabled => 0,
            NumaStrategy::Distribute => 1,
            NumaStrategy::Isolate => 2,
            NumaStrategy::NUMACtl => 3,
            NumaStrategy::Mirror => 4,
        }
    }
}

/// One token of a decode batch.
#[derive(Debug, Clone, Copy, PartialEq, Eq, Structural)]
pub struct BatchEntry {
    pub token: i32,
    /// Absolute position in the sequence.
    pub pos: i32,
    /// Whether the decoder keeps the logits of this position.
    pub logits: bool,
}

/// The batch that decodes a prompt: each token at its position, in
/// sequence 0, with logits kept for the last token only.
pub fn prompt_batch(tokens: &Vec<i32>) -> (r: Vec<BatchEntry>)
    requires
        tokens.len() <= i32::MAX,
    ensures
        r@.len() == tokens@.len(),
        forall|i: int|
            0 <= i < r@.len() ==> #[trigger] r@[i] == (BatchEntry {
                token: tokens@[i],
                pos: i as i32,
                logits: i == tokens@.len() - 1,
            }),
{
    let mut out: Vec<BatchEntry> = Vec::new();
    let n = tokens.len();
    let mut i: usize = 0;
    while i < n
        invariant
            n == tokens.len() <= i32::MAX,
            i <= n,
            out@.len() == i,
            forall|k: int|
                0 <= k < i ==> #[trigger] out@[k] == (BatchEntry {
                    token: tokens@[k],
                    pos: k as i32,
                    logits: k == tokens@.len() - 1,
                }),
        decreases n - i,
    {
        out.push(BatchEntry { token: tokens[i], pos: i as i32, logits: i == n - 1 });
        i = i + 1;
    }
    out
}

} // verus!
