//! The site configuration (`config.toml`) and the rule that picks the source
//! documents out of the content directory.
use vstd::prelude::*;

use crate::text::chars_of;

verus! {

/// The site configuration.
pub struct Config {
    pub themes: Themes,
    pub tagging: Tagging,
}

/// The syntax-highlighting theme: a file name under `assets/syntax/`.
pub struct Themes {
    pub syntax: String,
}

/// How tag indexes are laid out.
pub struct Tagging {
    pub sorted: bool,
}

/// What `Path::extension` gives for a path.
pub uninterp spec fn extension_of(path: Seq<char>) -> Option<Seq<char>>;

/// Relies on `std::path::Path::extension`: the part of the last component's
/// name after its final `.`, which depends on the path alone. An extension
/// taken from a `&str` is valid UTF-8, so the lossy conversion changes nothing.
#[verifier::external_body]
fn file_extension(path: &str) -> (r: Option<String>)
    ensures
        r is None <==> extension_of(path@) is None,
        r matches Some(e) ==> extension_of(path@) == Some(e@),
{
    match std::path::Path::new(path).extension() {
        Some(ext) => Some(ext.to_string_lossy().into_owned()),
        None => None,
    }
}

/// Whether the file at `path` is a Markdown source document: `None` when the
/// path has no extension (such a file is passed over silently), else whether
/// the extension is `md` (any other file is reported as skipped).
pub fn is_markdown_file(path: &str) -> (r: Option<bool>)
    ensures
        r == match extension_of(path@) {
            Some(e) => Some(e == "md"@),
            None => None::<bool>,
        },
{
    proof {
        reveal_strlit("md");
    }
    match file_extension(path) {
        Some(e) => {
            let cs = chars_of(e.as_str());
            let md = cs.len() == 2 && cs[0] == 'm' && cs[1] == 'd';
            assert(md ==> cs@ =~= "md"@);
            Some(md)
        },
        None => None,
    }
}

} // verus!
