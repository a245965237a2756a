//! Paged reading of large text files through a line-offset index, and
//! normalization of a line-oriented search tool's output into structured
//! match records and statistics.

pub mod line_split;
pub mod text;
pub mod line_index;
pub mod chunk;
pub mod normalize;
pub mod cache;
pub mod search;
pub mod workspace;
pub mod netstat;

pub use cache::IndexCache;
pub use chunk::{read_chunk, ChunkResponse};
pub use line_index::LineIndex;
pub use netstat::listening_pid;
pub use normalize::{
    normalize_output, normalize_text, render_matches, MatchRecord, SearchOutput, SearchStats,
};
pub use search::{check_request, search_arguments, SearchError, SearchRequest};
pub use workspace::{classify_path, path_target, PathTarget, Workspace};
