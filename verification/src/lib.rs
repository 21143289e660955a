//! Oxipress: a static Markdown blog. This library holds its logic, with
//! contracts proved by Verus: reading a post's frontmatter and plain text,
//! reading time, XML escaping, feed dates, the order of the listing, tag
//! pages, the RSS feed, the sitemap, the search index, and full-text search.
use vstd::prelude::*;

pub mod content;
pub mod page;
pub mod search;
pub mod site;
pub mod text;

verus! {

} // verus!
