//! Verified core of the panache Markdown language tooling: label and slug
//! normalisation, link, footnote and list conversions, syntax-tree
//! queries, shortcode argument scanning, semantic-token encoding,
//! completion, folding, document outlines, the symbol under the cursor,
//! heading links, references, rename, definitions and hover over the
//! documents' symbol indexes,
//! symbol highlighting, lint-fix
//! selection, the language server's settle and file-watch decisions, and
//! the decision logic of the command line front end.

pub mod text;
pub mod syntax;
pub mod helpers;
pub mod footnotes;
pub mod links;
pub mod semantic;
pub mod shortcode;
pub mod diagnostics;
pub mod cli;
pub mod metadata;
pub mod completion;
pub mod uri;
pub mod settle;
pub mod actions;
pub mod folding;
pub mod outline;
pub mod locate;
pub mod paths;
pub mod preview;
pub mod overrides;
pub mod fixes;
pub mod doclinks;
pub mod workspace;
pub mod watcher;
pub mod highlight;
pub mod lists;
pub mod notices;
pub mod locations;
pub mod fileuri;
pub mod docsymbols;
pub mod symbols;
pub mod headinglinks;
pub mod navigation;
pub mod hover;
