//! Analysis core for the Compact language: syntax trees, item trees, name
//! resolution, types and witness-disclosure analysis, each proved against its
//! contract.

pub mod analysis;
pub mod calls;
pub mod check_laws;
pub mod checks;
pub mod db;
pub mod diagnostics;
pub mod disclosure;
pub mod disk;
pub mod filemap;
pub mod fixture;
pub mod host_laws;
pub mod host_model;
pub mod idset;
pub mod infer;
pub mod item_tree;
pub mod kinds;
pub mod ledger_adts;
pub mod line_index;
pub mod name_laws;
pub mod path_laws;
pub mod resolution_laws;
pub mod resolve;
pub mod scope_laws;
pub mod source_path;
pub mod syntax;
pub mod text;
pub mod text_laws;
pub mod tree_laws;
pub mod ty;
pub mod typing;
pub mod typing_laws;
pub mod vfs;
pub mod workspace;

use vstd::prelude::*;

pub use analysis::AnalysisHost;
pub use db::FileAnalysis;
pub use diagnostics::{Diagnostic, DiagnosticCode, LabeledSpan, Severity};
pub use disclosure::version::{version_mismatch, PINNED_COMPILER_VERSION};
pub use item_tree::{ItemTree, Symbol, SymbolKind};
pub use ledger_adts::LedgerMethod;
pub use line_index::{LineCol, LineIndex};
pub use resolve::{scope_bindings_at, Binding, Definition, FilePosition};
pub use source_path::{find_source_pathname, path_module_name, string_lit_text};
pub use text::TextRange;
pub use ty::{display_kind, ty_display, Ty, TyKind};
pub use vfs::{FileId, Vfs};

verus! {

} // verus!
