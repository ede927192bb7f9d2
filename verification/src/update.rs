//! Whether a newer build has been released.

use vstd::prelude::*;

use crate::text::{chars_of, same, slice_string};

verus! {

/// A release other than the running build.
#[derive(Debug, Clone, PartialEq, Eq)]
pub struct UpdateInfo {
    pub version: String,
    pub url: String,
}

/// Model of an [`UpdateInfo`].
#[verifier::ext_equal]
pub struct UpdateModel {
    pub version: Seq<char>,
    pub url: Seq<char>,
}

impl DeepView for UpdateInfo {
    type V = UpdateModel;

    open spec fn deep_view(&self) -> UpdateModel {
        UpdateModel { version: self.version@, url: self.url@ }
    }
}

/// `serde_json::Value`, a parsed JSON value.
#[verifier::external_type_specification]
#[verifier::external_body]
pub struct ExValue(serde_json::Value);

/// The members of a JSON object whose values are strings; nothing for any other JSON value.
pub uninterp spec fn text_members(body: serde_json::Value) -> Map<Seq<char>, Seq<char>>;

/// The string at `key`: `serde_json::Value::get` finds the member of an object and
/// `serde_json::Value::as_str` its text. The claim is that the answer is what [`text_members`]
/// holds at `key`, and `None` where it holds nothing there.
#[verifier::external_body]
fn text_member(body: &serde_json::Value, key: &str) -> (r: Option<String>)
    ensures
        r.deep_view() == text_members(*body).index_opt(key@),
{
    body.get(key)?.as_str().map(|s| s.to_owned())
}

/// `tag` without the `v`s that it starts with.
pub open spec fn bare_version(tag: Seq<char>) -> Seq<char>
    decreases tag.len(),
{
    if tag.len() > 0 && tag[0] == 'v' {
        bare_version(tag.skip(1))
    } else {
        tag
    }
}

/// What a release with this tag and page is to the build `current`: nothing where a part is missing
/// or the version is the running one.
pub open spec fn release(
    tag: Option<Seq<char>>,
    url: Option<Seq<char>>,
    current: Seq<char>,
) -> Option<UpdateModel> {
    match (tag, url) {
        (Some(t), Some(u)) => if bare_version(t) != current {
            Some(UpdateModel { version: bare_version(t), url: u })
        } else {
            None
        },
        _ => None,
    }
}

/// The running version is never reported, whether or not the tag starts with `v`.
pub proof fn the_running_version_is_no_update(url: Option<Seq<char>>, current: Seq<char>)
    requires
        current.len() > 0 && current[0] != 'v',
    ensures
        release(Some(current), url, current) is None,
        release(Some(seq!['v'] + current), url, current) is None,
{
    let tag = seq!['v'] + current;
    assert(tag.skip(1) =~= current);
    assert(bare_version(tag) == bare_version(current));
}

/// `tag` without the `v`s that it starts with.
fn version_of(tag: &str) -> (r: String)
    ensures
        r@ == bare_version(tag@),
{
    let v = chars_of(tag);
    let n: usize = v.len();
    let mut i: usize = 0;
    assert(v@.skip(0) =~= v@);
    while i < n && v[i] == 'v'
        invariant
            i <= n == v@.len(),
            bare_version(v@) == bare_version(v@.skip(i as int)),
        decreases n - i,
    {
        assert(v@.skip(i as int).skip(1) =~= v@.skip(i as int + 1));
        i = i + 1;
    }
    assert(v@.subrange(i as int, n as int) =~= v@.skip(i as int));
    slice_string(&v, i, n)
}

/// What a release with this tag and page is to the build `current`.
pub fn release_of(tag: Option<String>, url: Option<String>, current: &str) -> (r: Option<UpdateInfo>)
    ensures
        r.deep_view() == release(tag.deep_view(), url.deep_view(), current@),
{
    match (tag, url) {
        (Some(t), Some(u)) => {
            let version = version_of(t.as_str());
            if same(version.as_str(), current) {
                None
            } else {
                Some(UpdateInfo { version, url: u })
            }
        },
        _ => None,
    }
}

/// Reads the answer of the release service: its `tag_name` and `html_url`, held against the
/// running version `current`.
pub fn parse_release(body: &serde_json::Value, current: &str) -> (r: Option<UpdateInfo>)
    ensures
        r.deep_view() == release(
            text_members(*body).index_opt("tag_name"@),
            text_members(*body).index_opt("html_url"@),
            current@,
        ),
{
    release_of(text_member(body, "tag_name"), text_member(body, "html_url"), current)
}

} // verus!
