use vstd::prelude::*;

use crate::library::{version_gt, version_newer};
use crate::text::{chars_equal, chars_of, push_all, string_from_chars};

verus! {

/// What a check for a newer release found.
#[derive(Clone, Debug, PartialEq)]
pub struct UpdateCheckResult {
    /// A newer version than the running one has been released.
    pub update_available: bool,
    /// The running version.
    pub current_version: String,
    /// The latest release's version, without a leading 'v'.
    pub latest_version: String,
    /// The release's page.
    pub release_url: String,
    /// The release's notes.
    pub release_notes: String,
    /// A sentence for the user.
    pub message: String,
}

/// The repository name that stands in the configuration until one is set.
pub open spec fn placeholder_repo() -> Seq<char> {
    "OWNER/REPO"@
}

/// A repository has been configured: one is set, and it is neither empty
/// nor the placeholder.
pub open spec fn configured(repo: Option<Seq<char>>) -> bool {
    match repo {
        Some(r) => r.len() > 0 && r != placeholder_repo(),
        None => false,
    }
}

/// The text of an optional string.
pub open spec fn opt_view(o: Option<String>) -> Option<Seq<char>> {
    match o {
        Some(s) => Some(s@),
        None => None,
    }
}

/// Whether a repository is configured for update checks.
pub fn repo_is_configured(repo: &Option<String>) -> (b: bool)
    ensures
        b == configured(opt_view(*repo)),
{
    match repo {
        Some(r) => {
            let chars = chars_of(r.as_str());
            let placeholder = chars_of("OWNER/REPO");
            proof {
                reveal_strlit("OWNER/REPO");
            }
            chars.len() > 0 && !chars_equal(&chars, &placeholder)
        },
        None => false,
    }
}

/// The address of the latest release of a repository.
pub open spec fn latest_release_url(repo: Seq<char>) -> Seq<char> {
    "https://api.github.com/repos/"@ + repo + "/releases/latest"@
}

/// The address that reports the latest release of `repo`.
pub fn releases_url(repo: &str) -> (url: String)
    ensures
        url@ == latest_release_url(repo@),
{
    let mut out = chars_of("https://api.github.com/repos/");
    push_all(&mut out, &chars_of(repo));
    push_all(&mut out, &chars_of("/releases/latest"));
    string_from_chars(&out)
}

/// The message when no repository is configured.
pub open spec fn unconfigured_message() -> Seq<char> {
    "GitHub repository not configured. Set it in the app config."@
}

/// The answer of an update check when no repository is configured.
pub fn unconfigured_update_result(current: &str) -> (r: UpdateCheckResult)
    ensures
        !r.update_available,
        r.current_version@ == current@,
        r.latest_version@.len() == 0,
        r.release_url@.len() == 0,
        r.release_notes@.len() == 0,
        r.message@ == unconfigured_message(),
{
    UpdateCheckResult {
        update_available: false,
        current_version: string_from_chars(&chars_of(current)),
        latest_version: String::new(),
        release_url: String::new(),
        release_notes: String::new(),
        message: string_from_chars(&chars_of("GitHub repository not configured. Set it in the app config.")),
    }
}

/// `s` without its leading 'v' characters (`trim_start_matches('v')`).
pub open spec fn without_leading_v(s: Seq<char>) -> Seq<char>
    decreases s.len(),
{
    if s.len() > 0 && s[0] == 'v' {
        without_leading_v(s.drop_first())
    } else {
        s
    }
}

/// The text of an optional string, empty when there is none.
pub open spec fn text_or_empty(o: Option<Seq<char>>) -> Seq<char> {
    match o {
        Some(s) => s,
        None => Seq::empty(),
    }
}

/// A release tagged `tag` is an update for the running version `current`.
pub open spec fn is_update(tag: Seq<char>, current: Seq<char>) -> bool {
    tag.len() > 0 && tag != current && version_newer(tag, current)
}

/// The sentence that reports the outcome of an update check.
pub open spec fn update_message(tag: Seq<char>, current: Seq<char>) -> Seq<char> {
    if tag.len() == 0 {
        "Could not determine latest version."@
    } else if is_update(tag, current) {
        "Version "@ + tag + " is available (you have "@ + current + ")."@
    } else {
        "You're on the latest version ("@ + current + ")."@
    }
}

/// `r` reports a release with the given tag, page and notes to a user
/// running version `current`.
pub open spec fn describes_release(
    r: UpdateCheckResult,
    current: Seq<char>,
    tag_name: Option<Seq<char>>,
    html_url: Option<Seq<char>>,
    notes: Option<Seq<char>>,
) -> bool {
    let tag = without_leading_v(text_or_empty(tag_name));
    &&& r.latest_version@ == tag
    &&& r.update_available == is_update(tag, current)
    &&& r.current_version@ == current
    &&& r.release_url@ == text_or_empty(html_url)
    &&& r.release_notes@ == text_or_empty(notes)
    &&& r.message@ == update_message(tag, current)
}

fn strip_leading_v(s: &Vec<char>) -> (t: Vec<char>)
    ensures
        t@ == without_leading_v(s@),
{
    let mut i: usize = 0;
    proof {
        assert(s@.skip(0) =~= s@);
    }
    while i < s.len() && s[i] == 'v'
        invariant
            i <= s@.len(),
            without_leading_v(s@) == without_leading_v(s@.skip(i as int)),
        decreases s@.len() - i,
    {
        proof {
            assert(s@.skip(i as int).drop_first() =~= s@.skip(i + 1));
        }
        i = i + 1;
    }
    let mut t: Vec<char> = Vec::new();
    let mut j: usize = i;
    while j < s.len()
        invariant
            i <= j <= s@.len(),
            t@ == s@.subrange(i as int, j as int),
        decreases s@.len() - j,
    {
        t.push(s[j]);
        j = j + 1;
        proof {
            assert(t@ =~= s@.subrange(i as int, j as int));
        }
    }
    proof {
        assert(t@ =~= s@.skip(i as int));
    }
    t
}

fn text_of(o: &Option<String>) -> (v: Vec<char>)
    ensures
        v@ == text_or_empty(opt_view(*o)),
{
    match o {
        Some(s) => chars_of(s.as_str()),
        None => Vec::new(),
    }
}

/// The answer of an update check, from the running version and the fields
/// of the latest release: its tag, its page and its notes, each absent
/// where the release record has no such text.
pub fn update_check_result(
    current: &str,
    tag_name: Option<String>,
    html_url: Option<String>,
    notes: Option<String>,
) -> (r: UpdateCheckResult)
    ensures
        describes_release(r, current@, opt_view(tag_name), opt_view(html_url), opt_view(notes)),
{
    let tag = strip_leading_v(&text_of(&tag_name));
    let cur = chars_of(current);
    let tag_text = string_from_chars(&tag);
    let update_available = if tag.len() == 0 {
        false
    } else if chars_equal(&tag, &cur) {
        false
    } else {
        version_gt(tag_text.as_str(), current)
    };
    let message = if tag.len() == 0 {
        chars_of("Could not determine latest version.")
    } else if update_available {
        let mut m = chars_of("Version ");
        push_all(&mut m, &tag);
        push_all(&mut m, &chars_of(" is available (you have "));
        push_all(&mut m, &cur);
        push_all(&mut m, &chars_of(")."));
        m
    } else {
        let mut m = chars_of("You're on the latest version (");
        push_all(&mut m, &cur);
        push_all(&mut m, &chars_of(")."));
        m
    };
    UpdateCheckResult {
        update_available,
        current_version: string_from_chars(&cur),
        latest_version: tag_text,
        release_url: string_from_chars(&text_of(&html_url)),
        release_notes: string_from_chars(&text_of(&notes)),
        message: string_from_chars(&message),
    }
}

/// The fields of a release record that an update check reads.
pub struct ReleaseFields {
    /// The release's tag, where the record has it as text.
    pub tag_name: Option<String>,
    /// The release's page, where the record has it as text.
    pub html_url: Option<String>,
    /// The release's notes, where the record has them as text.
    pub body: Option<String>,
}

/// What `serde_json` reads from a JSON text: its fields `tag_name`,
/// `html_url` and `body` where each is a string, or the parser's error.
pub uninterp spec fn release_record(json: Seq<char>) -> Result<(Option<Seq<char>>, Option<Seq<char>>, Option<Seq<char>>), Seq<char>>;

/// The view of a parsed release record.
pub open spec fn fields_view(r: Result<ReleaseFields, String>) -> Result<(Option<Seq<char>>, Option<Seq<char>>, Option<Seq<char>>), Seq<char>> {
    match r {
        Ok(f) => Ok((opt_view(f.tag_name), opt_view(f.html_url), opt_view(f.body))),
        Err(e) => Err(e@),
    }
}

/// Parses `json` with `serde_json::from_str` into a `serde_json::Value` and
/// reads its fields `tag_name`, `html_url` and `body` with `as_str`; on a
/// parse error, gives the error's text. The contract says only that the
/// outcome is the one named `release_record` of the text: what JSON parses,
/// and the wording of the errors, are serde_json's.
#[verifier::external_body]
fn parse_release(json: &str) -> (r: Result<ReleaseFields, String>)
    ensures
        fields_view(r) == release_record(json@),
{
    match serde_json::from_str::<serde_json::Value>(json) {
        Ok(v) => Ok(ReleaseFields {
            tag_name: v["tag_name"].as_str().map(String::from),
            html_url: v["html_url"].as_str().map(String::from),
            body: v["body"].as_str().map(String::from),
        }),
        Err(e) => Err(e.to_string()),
    }
}

/// The answer of an update check from the text of the release service's
/// reply: an error where the reply is not JSON, else the report of the
/// release it describes.
pub fn update_check_from_response(current: &str, response: &str) -> (r: Result<UpdateCheckResult, String>)
    ensures
        match release_record(response@) {
            Ok((tag, url, notes)) => r is Ok && describes_release(r->Ok_0, current@, tag, url, notes),
            Err(e) => r is Err && r->Err_0@ == "Invalid API response: "@ + e,
        },
{
    match parse_release(response) {
        Ok(f) => Ok(update_check_result(current, f.tag_name, f.html_url, f.body)),
        Err(e) => {
            let mut m = chars_of("Invalid API response: ");
            push_all(&mut m, &chars_of(e.as_str()));
            Err(string_from_chars(&m))
        },
    }
}

} // verus!
