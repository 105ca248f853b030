//! Identifier minting and package-name detection: the UUIDs that key
//! workers and temporary modules, and the manifest patterns that reveal a
//! project's declared package name.

use vstd::prelude::*;

verus! {

/// Relies on uuid::Uuid::new_v4 and Uuid's hyphenated text form, which is
/// always 36 characters.  The value is random: nothing else is assumed.
#[verifier::external_body]
pub(crate) fn new_worker_uuid() -> (r: String)
    ensures
        r@.len() == 36,
{
    uuid::Uuid::new_v4().to_string()
}

/// A lowercase hexadecimal digit.
pub open spec fn is_lower_hex(c: char) -> bool {
    ('0' <= c && c <= '9') || ('a' <= c && c <= 'f')
}

/// Relies on uuid::Uuid::new_v4 and Uuid's simple text form, which is
/// always 32 lowercase hexadecimal characters.  The value is random:
/// nothing else is assumed.
#[verifier::external_body]
fn new_uuid_hex() -> (r: String)
    ensures
        r@.len() == 32,
        forall|i: int| 0 <= i < r@.len() ==> is_lower_hex(#[trigger] r@[i]),
{
    uuid::Uuid::new_v4().simple().to_string()
}

/// A fresh, valid module-directory name: the fixed prefix and the hex of a
/// newly minted UUID — a letter followed by letters and digits, so a valid
/// module name.
pub fn fresh_module_dir() -> (r: String)
    ensures
        r@.len() == 40,
        r@.subrange(0, 8) == "pymodule"@,
        forall|i: int| 8 <= i < r@.len() ==> is_lower_hex(#[trigger] r@[i]),
{
    let hex = new_uuid_hex();
    let r = crate::script::module_dir_name(&hex);
    proof {
        reveal_strlit("pymodule");
        assert(r@.subrange(0, 8) =~= "pymodule"@);
        assert forall|i: int| 8 <= i < r@.len() implies is_lower_hex(#[trigger] r@[i]) by {
            assert(r@[i] == hex@[i - 8]);
        }
    }
    r
}

/// What the first capture group of a regular expression matches in a text:
/// a function of the pattern and the text alone.
pub uninterp spec fn regex_first_capture(pattern: Seq<char>, text: Seq<char>) -> Option<Seq<char>>;

/// Relies on regex::Regex::captures: the first capture group of the first
/// match, a deterministic function of the pattern and the text.  An
/// invalid pattern yields nothing.
#[verifier::external_body]
fn regex_capture_first(pattern: &str, text: &str) -> (r: Option<String>)
    ensures
        r matches Some(s) ==> regex_first_capture(pattern@, text@) == Some(s@),
        r is None ==> regex_first_capture(pattern@, text@) is None,
{
    match regex::Regex::new(pattern) {
        Ok(re) => re.captures(text).and_then(|c| c.get(1)).map(|m| m.as_str().to_string()),
        Err(_) => None,
    }
}

/// The package manifests a project may declare its name in.
#[derive(Debug, Clone, Copy, PartialEq, Eq, Structural)]
pub enum ManifestKind {
    /// `setup.py`, with `name='package'` or `name="package"`.
    SetupPy,
    /// `pyproject.toml`, with `name = "package"` after `[project]` or
    /// `[tool.poetry]`, on any later line.
    PyprojectToml,
}

/// The pattern that extracts the declared name from a manifest's text.
pub open spec fn manifest_pattern(kind: ManifestKind) -> Seq<char> {
    match kind {
        ManifestKind::SetupPy => "name=[\"']([^\"']+)[\"']"@,
        ManifestKind::PyprojectToml => "(?s)(?:\\[project\\]|\\[tool\\.poetry\\]).*?name\\s*=\\s*[\"']([^\"']+)[\"']"@,
    }
}

/// The declared package name in one manifest's text, if the manifest's
/// pattern finds one.
pub fn package_name_from_manifest(content: &str, kind: ManifestKind) -> (r: Option<String>)
    ensures
        r matches Some(s) ==> regex_first_capture(manifest_pattern(kind), content@) == Some(s@),
        r is None ==> regex_first_capture(manifest_pattern(kind), content@) is None,
{
    match kind {
        ManifestKind::SetupPy => regex_capture_first("name=[\"']([^\"']+)[\"']", content),
        ManifestKind::PyprojectToml => regex_capture_first(
            "(?s)(?:\\[project\\]|\\[tool\\.poetry\\]).*?name\\s*=\\s*[\"']([^\"']+)[\"']",
            content,
        ),
    }
}

} // verus!
