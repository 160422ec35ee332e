//! The tag-filter engine: does an image's comma-separated tag string
//! satisfy a subscription's filter? A filter is either the match-all
//! sentinel `"any"` or a single literal tag, matched exactly against each
//! trimmed segment of the tag string.

use vstd::prelude::*;
use crate::strutil::{
    split_seq, split_char, trim_seq, trim_str, contains_seq, contains_str, str_eq,
};

verus! {

/// The view of the match-all filter sentinel `"any"`.
pub open spec fn match_all_seq() -> Seq<char> {
    seq!['a', 'n', 'y']
}

/// Does the tag string satisfy the filter? True when the filter is the
/// match-all sentinel, or when the tag string is non-empty and some
/// comma-separated segment of it, trimmed of whitespace, equals the
/// filter exactly. An empty tag string satisfies only the sentinel, so
/// no filter — not even the empty one — matches an image without tags.
pub open spec fn tags_match(tags: Seq<char>, filter: Seq<char>) -> bool {
    ||| filter == match_all_seq()
    ||| (tags.len() > 0 && exists|k: int|
        0 <= k < split_seq(tags, ',').len() && trim_seq(
            #[trigger] split_seq(tags, ',')[k],
        ) == filter)
}

/// Law: the match-all sentinel accepts every tag string.
pub proof fn lemma_match_all_accepts(tags: Seq<char>)
    ensures
        tags_match(tags, match_all_seq()),
{
}

/// Decides `tags_match`: whether the filter accepts the tag string.
pub fn tags_fit(tags: &str, filter: &str) -> (r: bool)
    ensures
        r == tags_match(tags@, filter@),
{
    proof {
        reveal_strlit("any");
        assert("any"@ =~= match_all_seq());
    }
    if str_eq(filter, "any") {
        return true;
    }
    if tags.is_empty() {
        return false;
    }
    let parts = split_char(tags, ',');
    let ghost pv = split_seq(tags@, ',');
    let mut k: usize = 0;
    while k < parts.len()
        invariant
            0 <= k <= parts.len(),
            parts.deep_view() == pv,
            pv == split_seq(tags@, ','),
            tags@.len() > 0,
            filter@ != match_all_seq(),
            forall|j: int| 0 <= j < k ==> trim_seq(#[trigger] pv[j]) != filter@,
        decreases parts.len() - k,
    {
        proof {
            assert(parts@[k as int]@ == parts.deep_view()[k as int]);
        }
        let t = trim_str(parts[k].as_str());
        if str_eq(t, filter) {
            return true;
        }
        k = k + 1;
    }
    false
}

/// The first trimmed comma-segment at or after `k` that contains
/// `"artist:"`, or the empty string when there is none.
pub open spec fn artist_from(parts: Seq<Seq<char>>, k: int) -> Seq<char>
    decreases parts.len() - k,
{
    if k < 0 || k >= parts.len() {
        Seq::empty()
    } else if contains_seq(trim_seq(parts[k]), "artist:"@) {
        trim_seq(parts[k])
    } else {
        artist_from(parts, k + 1)
    }
}

/// The artist credit of a tag string: its first trimmed comma-segment that
/// contains `"artist:"`, or the empty string.
pub open spec fn artist_seq(tags: Seq<char>) -> Seq<char> {
    artist_from(split_seq(tags, ','), 0)
}

/// Extracts the artist credit for a delivery caption.
pub fn get_artist(tags: &str) -> (r: String)
    ensures
        r@ == artist_seq(tags@),
{
    let parts = split_char(tags, ',');
    let ghost pv = split_seq(tags@, ',');
    let mut k: usize = 0;
    while k < parts.len()
        invariant
            0 <= k <= parts.len(),
            parts.deep_view() == pv,
            pv == split_seq(tags@, ','),
            artist_seq(tags@) == artist_from(pv, k as int),
        decreases parts.len() - k,
    {
        proof {
            assert(parts@[k as int]@ == parts.deep_view()[k as int]);
        }
        let t = trim_str(parts[k].as_str());
        if contains_str(t, "artist:") {
            return t.to_owned();
        }
        k = k + 1;
    }
    String::new()
}

} // verus!
