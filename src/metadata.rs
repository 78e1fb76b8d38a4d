//! What an index records about its sources, and the update decision.
use vstd::prelude::*;
use crate::builder::find_pair_text;

verus! {

/// The sources an index was built from and their ETags, as (source, ETag).
pub struct EngineSourceMetadata {
    pub cities: String,
    pub names: Option<String>,
    pub countries: Option<String>,
    pub admin1_codes: Option<String>,
    pub admin2_codes: Option<String>,
    pub filter_languages: Vec<String>,
    pub etag: Vec<(String, String)>,
}

/// Metadata stored ahead of an index.
pub struct EngineMetadata {
    /// Library version the index was built with.
    pub geosuggest_version: String,
    /// Creation time, in seconds since the Unix epoch.
    pub created_at: u64,
    pub source: EngineSourceMetadata,
    /// Free-form (key, value) pairs.
    pub extra: Vec<(String, String)>,
}

/// The value of the last pair with key `k`.
pub open spec fn text_lookup(s: Seq<(String, String)>, k: Seq<char>) -> Option<Seq<char>>
    decreases s.len(),
{
    if s.len() == 0 {
        None
    } else if s.last().0@ == k {
        Some(s.last().1@)
    } else {
        text_lookup(s.drop_last(), k)
    }
}

/// The recorded ETag of a source, empty when none is recorded.
pub open spec fn recorded_etag(recorded: Seq<(String, String)>, source: Seq<char>) -> Seq<char> {
    match text_lookup(recorded, source) {
        Some(e) => e,
        None => Seq::empty(),
    }
}

/// Whether the sources need fetching again: nothing is recorded, or a current
/// ETag differs from the recorded one.
pub open spec fn needs_update(recorded: Seq<(String, String)>, current: Seq<(String, String)>) -> bool {
    recorded.len() == 0 || exists|i: int| 0 <= i < current.len() && (#[trigger] current[i]).1@ != recorded_etag(recorded, current[i].0@)
}

/// Decides whether the index is out of date, from the recorded ETags and the
/// current (source, ETag) pairs.
pub fn has_updates(metadata: &EngineMetadata, current: &Vec<(String, String)>) -> (r: bool)
    ensures
        r == needs_update(metadata.source.etag@, current@),
{
    let recorded = &metadata.source.etag;
    if recorded.len() == 0 {
        return true;
    }
    let mut i: usize = 0;
    while i < current.len()
        invariant
            i <= current.len(),
            recorded@.len() > 0,
            recorded == &metadata.source.etag,
            forall|j: int| 0 <= j < i ==> (#[trigger] current@[j]).1@ == recorded_etag(recorded@, current@[j].0@),
        decreases current.len() - i,
    {
        let same = match find_pair_text(recorded, &current[i].0) {
            Some(e) => *e == current[i].1,
            None => current[i].1.as_str().is_empty(),
        };
        if !same {
            return true;
        }
        i += 1;
    }
    false
}

} // verus!
