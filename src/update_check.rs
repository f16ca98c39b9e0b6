use vstd::prelude::*;
use crate::text::{chars_of, owned};

verus! {

/// The semver crate's parsed version, carried as an opaque value.
#[verifier::external_type_specification]
#[verifier::external_body]
pub struct ExVersion(semver::Version);

/// The semver crate's parse error, carried as an opaque value.
#[verifier::external_type_specification]
#[verifier::external_body]
pub struct ExSemverError(semver::Error);

/// Whether a text is a valid semantic version.
pub uninterp spec fn semver_valid(text: Seq<char>) -> bool;

/// Whether version `a` orders after version `b` as semver's `Version`
/// orders them: by precedence, and then by build metadata.
pub uninterp spec fn semver_newer(a: Seq<char>, b: Seq<char>) -> bool;

/// A parsed version with the text it came from.
pub struct ParsedVersion {
    version: semver::Version,
    text: String,
}

/// Relies on semver::Version::parse: it accepts exactly the valid semantic
/// versions, which depends on the text alone.
#[verifier::external_body]
fn parse_version(text: String) -> (r: Result<ParsedVersion, semver::Error>)
    ensures
        r is Ok <==> semver_valid(text@),
        r matches Ok(p) ==> p.text@ == text@,
{
    match semver::Version::parse(&text) {
        Ok(version) => Ok(ParsedVersion { version, text }),
        Err(e) => Err(e),
    }
}

/// Relies on the ordering of semver::Version: whether `a` comes after `b`.
#[verifier::external_body]
fn is_newer(a: &ParsedVersion, b: &ParsedVersion) -> (r: bool)
    ensures
        r == semver_newer(a.text@, b.text@),
{
    a.version > b.version
}

/// Relies on the Display of semver::Error: why a version was refused.
#[verifier::external_body]
fn semver_error_text(e: &semver::Error) -> String {
    e.to_string()
}

/// Where an update check stands.
#[derive(Debug, Clone, PartialEq)]
pub enum UpdateCheckState {
    /// No check running, nothing to show.
    Idle,
    Checking,
    UpdateAvailable { version: String, release_url: String },
    UpToDate,
    Error(String),
}

/// The part of a release description that the check reads.
#[derive(Debug, Clone)]
pub struct GitHubRelease {
    pub tag_name: String,
    pub html_url: String,
}

/// A tag without its leading `v` characters.
pub open spec fn strip_v(s: Seq<char>) -> Seq<char>
    decreases s.len(),
{
    if s.len() > 0 && s[0] == 'v' {
        strip_v(s.drop_first())
    } else {
        s
    }
}

fn strip_leading_v(s: &str) -> (r: &str)
    ensures
        r@ == strip_v(s@),
{
    let cs = chars_of(s);
    let mut i: usize = 0;
    assert(s@.subrange(0, s@.len() as int) =~= s@);
    while i < cs.len() && cs[i] == 'v'
        invariant
            cs@ == s@,
            i <= cs@.len(),
            strip_v(s@) == strip_v(s@.subrange(i as int, s@.len() as int)),
        decreases cs@.len() - i,
    {
        proof {
            let t = s@.subrange(i as int, s@.len() as int);
            assert(t.drop_first() =~= s@.subrange(i + 1, s@.len() as int));
        }
        i = i + 1;
    }
    proof {
        assert(s@.subrange(i as int, s@.len() as int) =~= s@.skip(i as int));
    }
    s.substring_char(i, cs.len())
}

/// The outcome of an HTTP status: nothing to report for a success, else the
/// error to show.
pub fn status_state(code: u16, status_text: &str) -> (r: Option<UpdateCheckState>)
    ensures
        200 <= code < 300 ==> r is None,
        code == 404 ==> (r matches Some(UpdateCheckState::Error(m)) && m@ == "No releases found on GitHub"@),
        !(200 <= code < 300) && code != 404 ==> (r matches Some(UpdateCheckState::Error(m)) && m@ == "GitHub API error: "@ + status_text@),
{
    if 200 <= code && code < 300 {
        None
    } else if code == 404 {
        Some(UpdateCheckState::Error(owned("No releases found on GitHub")))
    } else {
        let mut m = owned("GitHub API error: ");
        m.append(status_text);
        Some(UpdateCheckState::Error(m))
    }
}

/// Compares the latest release with the running version: an update is
/// available when the release tag, without its leading `v`, is a newer
/// semantic version.
pub fn release_state(release: &GitHubRelease, current_version: &str) -> (r: UpdateCheckState)
    ensures
        !semver_valid(current_version@) ==> (r matches UpdateCheckState::Error(m)
            && exists|d: Seq<char>| m@ == "Invalid current version: "@ + d),
        semver_valid(current_version@) && !semver_valid(strip_v(release.tag_name@)) ==> (
            r matches UpdateCheckState::Error(m) && exists|d: Seq<char>|
                m@ == "Invalid release version '"@ + strip_v(release.tag_name@) + "': "@ + d),
        semver_valid(current_version@) && semver_valid(strip_v(release.tag_name@)) ==> if semver_newer(
            strip_v(release.tag_name@),
            current_version@,
        ) {
            r == UpdateCheckState::UpdateAvailable {
                version: release.tag_name,
                release_url: release.html_url,
            }
        } else {
            r == UpdateCheckState::UpToDate
        },
{
    let latest_text = strip_leading_v(release.tag_name.as_str());
    let current = match parse_version(owned(current_version)) {
        Ok(v) => v,
        Err(e) => {
            let mut m = owned("Invalid current version: ");
            let detail = semver_error_text(&e);
            m.append(detail.as_str());
            return UpdateCheckState::Error(m);
        },
    };
    let latest = match parse_version(owned(latest_text)) {
        Ok(v) => v,
        Err(e) => {
            let mut m = owned("Invalid release version '");
            m.append(latest_text);
            m.append("': ");
            let detail = semver_error_text(&e);
            m.append(detail.as_str());
            return UpdateCheckState::Error(m);
        },
    };
    if is_newer(&latest, &current) {
        UpdateCheckState::UpdateAvailable {
            version: release.tag_name.clone(),
            release_url: release.html_url.clone(),
        }
    } else {
        UpdateCheckState::UpToDate
    }
}

} // verus!
