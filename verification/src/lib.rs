pub mod unicode;
pub mod text;
pub mod model;
pub mod metrics;
pub mod parse;
pub mod table;
pub mod lang;
pub mod mapper;
pub mod cycles;
pub mod callgraph;
pub mod ranking;
pub mod scan;
pub mod report;
pub mod issue;

pub use mapper::CodeMapper;
pub use model::{FileNode, FunctionNode, Issue};
pub use report::AnalysisReport;
