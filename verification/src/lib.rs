use vstd::prelude::*;
use vstd::string::StringExecFns;

pub mod app;

verus! {

/// Relies on `home::home_dir`: the user's home directory rendered as text,
/// `None` when it cannot be determined or is not valid text. The result
/// depends on the environment, so nothing more is stated.
#[verifier::external_body]
fn home_dir_text() -> (r: Option<String>) {
    home::home_dir().and_then(|p| p.to_str().map(|s| s.to_string()))
}

/// The home directory with the given components appended as path segments;
/// `None` when no home directory can be determined.
pub fn append_home_dir(vec: [&str; 3]) -> (r: Option<String>) {
    match home_dir_text() {
        Option::None => Option::None,
        Option::Some(base) => {
            let mut path = base;
            let mut i: usize = 0;
            while i < 3
                decreases 3 - i,
            {
                path.append("/");
                path.append(vec[i]);
                i = i + 1;
            }
            Option::Some(path)
        },
    }
}

/// The default journal directory: `.local/share/jou` under the home
/// directory.
pub fn default_directory() -> (r: Option<String>) {
    append_home_dir([".local", "share", "jou"])
}

/// Command-line options the journal runs under: the store directory, an
/// optional passphrase supplied non-interactively, entries to add before the
/// first read, and whether to stay in non-interactive mode.
pub struct Args {
    pub path: String,
    pub passphrase: Option<String>,
    pub add: Vec<String>,
    pub list: bool,
}

impl Args {
    /// Non-interactive mode is requested by listing or by adding entries.
    pub fn is_cli(&self) -> (r: bool)
        ensures
            r == (self.list || self.add@.len() > 0),
    {
        self.list || !self.add.is_empty()
    }
}

} // verus!
