//! A TF-IDF index over short text documents: interning of terms and
//! document names, tokenization with stopwords, raw count triplets of the
//! document-by-term matrix, document lengths and frequencies, and the
//! single-shot fitting state machine that guards queries.

mod outside;
pub mod counting;
pub mod model;
pub mod store;
pub mod text;

pub use counting::{count_occurrences, fit_counts};
pub use model::{FitState, Scaling, TFIDFModel, TfidfError};
pub use store::{create_indices, intern, DocumentStore};
pub use text::normalize_word;
