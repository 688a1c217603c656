//! Markdown knowledge-base parsing, indexing and analysis.

pub mod analyzer;
pub mod cli;
pub mod console;
pub mod error;
pub mod index;
pub mod insights;
pub mod parser;
pub mod paths;
pub mod report;
pub mod scanner;
pub mod search;
pub mod sort;
pub mod storage;
pub mod text;
pub mod tokenizer;
pub mod types;

pub use analyzer::{analyze_documents, KnowledgeReport};
pub use error::MdSeekError;
pub use index::SearchIndex;
pub use insights::{
    diagnose_knowledge_base, suggest_links, KnowledgeHealth, KnowledgeIssue, LinkSuggestion, Severity,
    SuggestionOptions,
};
pub use parser::parse_markdown;
pub use report::{render_report, render_report_with_extras, ReportExtras, ReportFormat, ReportRenderer};
pub use scanner::load_documents;
pub use search::SearchOptions;
pub use tokenizer::{SimpleTokenizer, Tokenizer};
pub use types::{Document, DocumentId, Field, Heading, Link, LinkKind};
