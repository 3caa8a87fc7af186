use vstd::prelude::*;

verus! {

/// The path `path` with the extension of its file name set to `extension`,
/// as `std::path::Path::with_extension` gives it.
pub uninterp spec fn path_with_extension(path: Seq<char>, extension: Seq<char>) -> Seq<char>;

/// Relies on `std::path::Path::with_extension`: a path built from UTF-8 text
/// and a UTF-8 extension is UTF-8 again, and depends on the two texts alone.
/// It panics on an extension that holds a path separator, which is excluded.
#[verifier::external_body]
fn with_extension(path: &str, extension: &str) -> (r: String)
    requires
        forall|i: int| 0 <= i < extension@.len() ==> extension@[i] != '/' && extension@[i] != '\\',
    ensures
        r@ == path_with_extension(path@, extension@),
{
    std::path::Path::new(path).with_extension(extension).to_string_lossy().into_owned()
}

/// The command line of the converter.
pub struct Args {
    /// Input JSON file to convert.
    pub input: String,
    /// Output TOON file; by default the input with the extension `.toon`.
    pub output: Option<String>,
    /// Show version information.
    pub version: bool,
    /// Show what would be done without modifying files.
    pub dry_run: bool,
    /// Show detailed progress.
    pub verbose: bool,
}

impl Args {
    /// The file to write: the one given, else the input with the extension `.toon`.
    pub fn get_output_path(&self) -> (r: String)
        ensures
            self.output matches Some(o) ==> r@ == o@,
            self.output is None ==> r@ == path_with_extension(self.input@, "toon"@),
    {
        match &self.output {
            Some(o) => o.clone(),
            None => {
                proof {
                    reveal_strlit("toon");
                }
                with_extension(self.input.as_str(), "toon")
            },
        }
    }
}

} // verus!
