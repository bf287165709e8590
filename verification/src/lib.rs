//! Writing-app logic for a Markdown editor: the open document and its file,
//! Markdown editing helpers (inline markup, smart return, links, search),
//! draft recovery, theme colors and the application's own icons.

pub mod document;
pub mod icons;
pub mod inline;
pub mod links;
pub mod markdown;
pub mod paths;
pub mod recovery;
pub mod session;
pub mod text;
pub mod theme;
pub mod unicode;

pub use document::{count_words, suggested_file_name, AppSettings, DocumentStore, SaveError};
pub use icons::SaveIcon;
pub use inline::{inline_markup, InlineKind, InlineMarkup, Span};
pub use links::{
    escape_link_destination, escape_link_text, insert_link_markdown, normalized_link_url,
};
pub use markdown::{
    find_all, hidden_ranges_at, normalize_plain_text, smart_return, wrap_selection, SearchMatch,
};
pub use recovery::RecoverySnapshot;
pub use theme::{parse_hex_rgba, OmarchyPalette};
