//! Chunked pagination engine: repackages the textual content of an ordered
//! list of source files into fixed-capacity output containers, each holding
//! framed pages that record which file and page the enclosed lines belong to.

pub mod file_operations;
pub mod file_splitting;
pub mod openai;
pub mod output_formatting;
pub mod text;

pub use file_operations::SizeLimitError;
pub use file_operations::check_size_limits;
pub use file_operations::to_relative_path;
pub use file_operations::total_file_size;
pub use file_splitting::Container;
pub use file_splitting::Page;
pub use file_splitting::SourceFile;
pub use file_splitting::SplitError;
pub use file_splitting::SplitOutcome;
pub use file_splitting::check_max_output_file_size;
pub use file_splitting::chunk_file_name;
pub use file_splitting::split_files_into_chunks;
pub use openai::ApiKeyError;
pub use openai::resolve_api_key;
pub use output_formatting::PageFormat;
pub use text::u64_to_string;
