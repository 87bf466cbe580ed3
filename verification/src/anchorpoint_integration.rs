//! Version control of game assets in an Anchorpoint (Git LFS) repository:
//! configuration, asset metadata, and the tag bookkeeping kept beside the
//! assets.
use vstd::prelude::*;
use crate::text::{chars_of, contains_chars, contains_seq, ends_with, ends_with_chars, string_of, sub_chars, owned};

verus! {

/// Where the repository lives and how to reach Anchorpoint.
#[derive(Debug, Clone)]
pub struct AnchorpointConfig {
    pub repo_path: String,
    pub anchorpoint_cli: String,
    pub api_endpoint: String,
    pub project_name: String,
}

impl Default for AnchorpointConfig {
    /// The repository `./athanor-repo`, the `anchorpoint` command, the local
    /// API at `http://127.0.0.1:9090` and the project `Athanor`.
    fn default() -> (r: Self)
        ensures
            r.repo_path@ == "./athanor-repo"@,
            r.anchorpoint_cli@ == "anchorpoint"@,
            r.api_endpoint@ == "http://127.0.0.1:9090"@,
            r.project_name@ == "Athanor"@,
    {
        AnchorpointConfig {
            repo_path: owned("./athanor-repo"),
            anchorpoint_cli: owned("anchorpoint"),
            api_endpoint: owned("http://127.0.0.1:9090"),
            project_name: owned("Athanor"),
        }
    }
}

/// What is recorded beside an asset.
#[derive(Debug, Clone)]
pub struct AssetMetadata {
    pub path: String,
    pub tags: Vec<String>,
    pub description: Option<String>,
    pub locked_by: Option<String>,
    pub review_status: ReviewStatus,
    pub asset_type: AssetType,
}

#[derive(Debug, Clone, Copy, PartialEq, Eq, Structural)]
pub enum ReviewStatus {
    Pending,
    Approved,
    Rejected,
    InReview,
}

#[derive(Debug, Clone, Copy, PartialEq, Eq, Structural)]
pub enum AssetType {
    Xmlb,
    Bnx,
    Igb,
    Zsm,
    Zam,
    Anim,
    Phys,
    Audio,
    Texture,
    Model,
    Unknown,
}

/// A client of one repository.
pub struct AnchorpointClient {
    config: AnchorpointConfig,
}

impl AnchorpointClient {
    /// A client of the repository that `config` describes.
    pub fn new(config: AnchorpointConfig) -> (r: Self)
        ensures
            r.config_view() == config,
    {
        AnchorpointClient { config }
    }

    /// The configuration of this client.
    pub closed spec fn config_view(&self) -> AnchorpointConfig {
        self.config
    }

    /// The configuration of this client.
    pub fn config(&self) -> (r: &AnchorpointConfig)
        ensures
            *r == self.config_view(),
    {
        &self.config
    }
}

/// The Git LFS attributes written when a repository is initialised: the game
/// data formats and the usual art formats are stored through LFS.
pub fn lfs_attributes() -> (r: &'static str)
    ensures
        r@ == "
# Anchorpoint Git LFS configuration
*.xmlb filter=lfs diff=lfs merge=lfs -text
*.bnx filter=lfs diff=lfs merge=lfs -text
*.igb filter=lfs diff=lfs merge=lfs -text
*.zsm filter=lfs diff=lfs merge=lfs -text
*.zss filter=lfs diff=lfs merge=lfs -text
*.zam filter=lfs diff=lfs merge=lfs -text
*.anim filter=lfs diff=lfs merge=lfs -text
*.phys filter=lfs diff=lfs merge=lfs -text
*.aud filter=lfs diff=lfs merge=lfs -text
*.comp filter=lfs diff=lfs merge=lfs -text
*.pbr filter=lfs diff=lfs merge=lfs -text
*.plgn filter=lfs diff=lfs merge=lfs -text
*.save filter=lfs diff=lfs merge=lfs -text
*.pipe filter=lfs diff=lfs merge=lfs -text
*.blend filter=lfs diff=lfs merge=lfs -text
*.fbx filter=lfs diff=lfs merge=lfs -text
*.png filter=lfs diff=lfs merge=lfs -text
*.dds filter=lfs diff=lfs merge=lfs -text
"@,
{
    "
# Anchorpoint Git LFS configuration
*.xmlb filter=lfs diff=lfs merge=lfs -text
*.bnx filter=lfs diff=lfs merge=lfs -text
*.igb filter=lfs diff=lfs merge=lfs -text
*.zsm filter=lfs diff=lfs merge=lfs -text
*.zss filter=lfs diff=lfs merge=lfs -text
*.zam filter=lfs diff=lfs merge=lfs -text
*.anim filter=lfs diff=lfs merge=lfs -text
*.phys filter=lfs diff=lfs merge=lfs -text
*.aud filter=lfs diff=lfs merge=lfs -text
*.comp filter=lfs diff=lfs merge=lfs -text
*.pbr filter=lfs diff=lfs merge=lfs -text
*.plgn filter=lfs diff=lfs merge=lfs -text
*.save filter=lfs diff=lfs merge=lfs -text
*.pipe filter=lfs diff=lfs merge=lfs -text
*.blend filter=lfs diff=lfs merge=lfs -text
*.fbx filter=lfs diff=lfs merge=lfs -text
*.png filter=lfs diff=lfs merge=lfs -text
*.dds filter=lfs diff=lfs merge=lfs -text
"
}

/// The tag list `tags` after tagging with `tag`: unchanged when `tag` already
/// occurs in it, else with `tag` and a line feed appended.
pub open spec fn tagged(tags: Seq<char>, tag: Seq<char>) -> Seq<char> {
    if contains_seq(tags, tag) {
        tags
    } else {
        tags + tag + seq!['\n']
    }
}

/// After tagging with `tag`, the tag list mentions `tag`, and tagging with it
/// again changes nothing.
pub proof fn tagging_is_idempotent(tags: Seq<char>, tag: Seq<char>)
    ensures
        contains_seq(tagged(tags, tag), tag),
        tagged(tagged(tags, tag), tag) == tagged(tags, tag),
{
    if !contains_seq(tags, tag) {
        let t = tagged(tags, tag);
        let i = tags.len() as int;
        assert(t.subrange(i, i + tag.len()) =~= tag);
    }
}

/// Adds `tag` to the text of a tag file.
pub fn add_tag(tags: String, tag: &str) -> (r: String)
    ensures
        r@ == tagged(tags@, tag@),
{
    let mut v = chars_of(tags.as_str());
    let t = chars_of(tag);
    if contains_chars(v.as_slice(), t.as_slice()) {
        return tags;
    }
    let ghost start = v@;
    let mut i: usize = 0;
    while i < t.len()
        invariant
            i <= t@.len(),
            v@ == start + t@.take(i as int),
        decreases t@.len() - i,
    {
        v.push(t[i]);
        i += 1;
        assert(v@ =~= start + t@.take(i as int));
    }
    v.push('\n');
    assert(v@ =~= start + t@ + seq!['\n']);
    string_of(v.as_slice())
}

/// Whether a tag file's text mentions `tag`.
pub fn tags_contain(content: &str, tag: &str) -> (r: bool)
    ensures
        r == contains_seq(content@, tag@),
{
    let c = chars_of(content);
    let t = chars_of(tag);
    contains_chars(c.as_slice(), t.as_slice())
}

/// `s` with every trailing copy of the non-empty `t` removed
/// (`str::trim_end_matches` with a string).
pub open spec fn trim_end_str(s: Seq<char>, t: Seq<char>) -> Seq<char>
    decreases s.len(),
{
    if t.len() > 0 && ends_with(s, t) {
        trim_end_str(s.take(s.len() - t.len()), t)
    } else {
        s
    }
}

/// A file name whose extension is `tags`: it ends with `.tags` after a
/// non-empty stem.
pub open spec fn is_tag_file(name: Seq<char>) -> bool {
    name.len() > 5 && ends_with(name, ".tags"@)
}

/// The asset that a file of the tags directory describes: for a file with
/// extension `tags`, its name without its trailing `.tags` suffixes.
pub fn tag_file_asset(file_name: &str) -> (r: Option<String>)
    ensures
        r is Some <==> is_tag_file(file_name@),
        r matches Some(a) ==> a@ == trim_end_str(file_name@, ".tags"@),
{
    let suffix = chars_of(".tags");
    proof {
        reveal_strlit(".tags");
    }
    let mut cur = chars_of(file_name);
    if !(cur.len() > 5 && ends_with_chars(cur.as_slice(), suffix.as_slice())) {
        return None;
    }
    while ends_with_chars(cur.as_slice(), suffix.as_slice())
        invariant
            suffix@ == ".tags"@,
            suffix@.len() == 5,
            trim_end_str(cur@, suffix@) == trim_end_str(file_name@, suffix@),
        decreases cur@.len(),
    {
        cur = sub_chars(cur.as_slice(), 0, cur.len() - 5);
    }
    Some(string_of(cur.as_slice()))
}

} // verus!
