//! Greedy, size-bounded chunking of hierarchical programs.
pub mod chunker;
pub mod program;
pub mod stack_effect;

pub use chunker::AnalyzeError;
pub use chunker::Chunker;
pub use chunker::ChunkerError;
pub use program::Block;
pub use program::Builder;
pub use stack_effect::StackAnalyzer;
pub use stack_effect::StackStatus;
pub use stack_effect::stack_io_sizes;
