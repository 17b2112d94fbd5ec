//! Paths of the surrounding system: file URLs and the directory of the log.

use vstd::prelude::*;

verus! {

/// The name of the server's log file.
pub const LOG_FILE_NAME: &'static str = "LanguageServer.log";

/// The directory for temporary files where no setting names one.
pub const DEFAULT_TMP_DIR: &'static str = "/tmp";

/// A path that has no file URL.
#[derive(Debug)]
pub struct UrlError {
    /// The path as it was given.
    pub path: String,
}

/// The opening of every URL in the `file` scheme.
pub const FILE_SCHEME: &'static str = "file://";

/// Whether the text opens as a URL in the `file` scheme does.
pub open spec fn has_file_scheme(url: Seq<char>) -> bool {
    FILE_SCHEME@.is_prefix_of(url)
}

/// Asks `url::Url::from_file_path` for the URL of the path, and hands it out
/// as text.
///
/// Trusted: a URL that comes back opens with `file://`, to which the crate
/// only appends; and the empty path, which is absolute on no platform, has
/// none. Which other paths have a file URL, and what follows the opening,
/// depends on the platform's notion of an absolute path, and nothing is
/// claimed of it.
#[verifier::external_body]
fn file_url(path: &str) -> (found: Option<String>)
    ensures
        found matches Some(url) ==> has_file_scheme(url@),
        path@.len() == 0 ==> found is None,
{
    match url::Url::from_file_path(path) {
        Ok(url) => Some(url.into()),
        Err(()) => None,
    }
}

/// The URL that was found for the path, or the error that names the path.
pub fn url_or_error(found: Option<String>, path: &str) -> (r: Result<String, UrlError>)
    ensures
        match found {
            Some(url) => r == Ok::<String, UrlError>(url),
            None => r matches Err(e) && e.path@ == path@,
        },
{
    match found {
        Some(url) => Ok(url),
        None => Err(UrlError { path: path.to_owned() }),
    }
}

/// A path that can be turned into a `file` URL.
pub trait ToUrl {
    /// The characters of the path.
    spec fn path_text(&self) -> Seq<char>;

    /// The `file` URL of the path, as text; an error that names the path
    /// where it has none, as the empty path does.
    fn to_url(&self) -> (r: Result<String, UrlError>)
        ensures
            r matches Ok(url) ==> has_file_scheme(url@),
            r matches Err(e) ==> e.path@ == self.path_text(),
            self.path_text().len() == 0 ==> r is Err,
    ;
}

impl<'a> ToUrl for &'a str {
    open spec fn path_text(&self) -> Seq<char> {
        (*self)@
    }

    fn to_url(&self) -> (r: Result<String, UrlError>) {
        url_or_error(file_url(*self), *self)
    }
}

/// The directory in which the server's log goes: the first of the two
/// settings that is there, else the default directory.
pub open spec fn log_dir_of(tmp: Option<String>, temp: Option<String>) -> Seq<char> {
    match tmp {
        Some(dir) => dir@,
        None => match temp {
            Some(dir) => dir@,
            None => DEFAULT_TMP_DIR@,
        },
    }
}

/// The directory in which the server's log goes, given the settings `TMP` and
/// `TEMP`.
pub fn get_server_logdir(tmp: Option<String>, temp: Option<String>) -> (dir: String)
    ensures
        dir@ == log_dir_of(tmp, temp),
{
    match tmp {
        Some(dir) => dir,
        None => match temp {
            Some(dir) => dir,
            None => DEFAULT_TMP_DIR.to_owned(),
        },
    }
}

} // verus!
