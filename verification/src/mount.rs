//! The mount table and mount resolution: a request path belongs to the
//! candidate mount whose public segment, trimmed of slashes, is the longest
//! prefix of the path; on a tie of lengths the earliest mount wins.

use vstd::prelude::*;
use crate::text::SLASH;
use crate::text::is_prefix;
use crate::text::starts_with_bytes;
use crate::text::strip_both;
use crate::text::strip_both_bytes;
use crate::text::strip_leading;
use crate::text::strip_leading_bytes;

verus! {

/// A configured mount: a filesystem root directory served under a public
/// URL segment. The table of mounts is built once at startup and is only
/// read afterwards.
#[derive(Clone)]
pub struct Mount {
    pub root_dir: Vec<u8>,
    pub public_segment: Vec<u8>,
}

/// The mathematical view of a [`Mount`].
pub struct MountV {
    pub root_dir: Seq<u8>,
    pub public_segment: Seq<u8>,
}

impl View for Mount {
    type V = MountV;

    open spec fn view(&self) -> MountV {
        MountV { root_dir: self.root_dir@, public_segment: self.public_segment@ }
    }
}

/// The views of a sequence of mounts.
pub open spec fn views(mounts: Seq<Mount>) -> Seq<MountV> {
    mounts.map_values(|m: Mount| m@)
}

/// The segment of `m` as matched against request paths: trimmed of leading
/// and trailing slashes.
pub open spec fn seg_of(m: MountV) -> Seq<u8> {
    strip_both(m.public_segment, SLASH)
}

/// `m` is a candidate for `path`: its trimmed segment is non-empty and a
/// prefix of `path` with leading slashes removed.
pub open spec fn is_candidate(m: MountV, path: Seq<u8>) -> bool {
    seg_of(m).len() > 0 && is_prefix(seg_of(m), strip_leading(path, SLASH))
}

/// The resolved mount among the first `n`: scanning left to right, a later
/// candidate replaces an earlier one only if its trimmed segment is
/// strictly longer.
pub open spec fn resolve_upto(mounts: Seq<MountV>, path: Seq<u8>, n: int) -> Option<int>
    decreases n,
{
    if n <= 0 {
        None
    } else {
        let prev = resolve_upto(mounts, path, n - 1);
        let better = match prev {
            Option::None => true,
            Option::Some(j) => seg_of(mounts[j]).len() < seg_of(mounts[n - 1]).len(),
        };
        if is_candidate(mounts[n - 1], path) && better {
            Some(n - 1)
        } else {
            prev
        }
    }
}

/// The resolved mount for `path`: the candidate with the longest trimmed
/// segment, the earliest on a tie; `None` when no mount is a candidate.
pub open spec fn resolve_spec(mounts: Seq<MountV>, path: Seq<u8>) -> Option<int> {
    resolve_upto(mounts, path, mounts.len() as int)
}

proof fn lemma_resolve_upto_props(mounts: Seq<MountV>, path: Seq<u8>, n: int)
    requires
        0 <= n <= mounts.len(),
    ensures
        resolve_upto(mounts, path, n) is None ==> (forall|j: int|
            0 <= j < n ==> !is_candidate(mounts[j], path)),
        (match resolve_upto(mounts, path, n) {
            Option::Some(w) => 0 <= w < n && is_candidate(mounts[w], path) && (forall|j: int|
                0 <= j < n && is_candidate(mounts[j], path) ==> seg_of(mounts[j]).len() <= seg_of(
                    mounts[w],
                ).len()),
            Option::None => true,
        }),
    decreases n,
{
    if n > 0 {
        lemma_resolve_upto_props(mounts, path, n - 1);
    }
}

/// Resolving a request path against the mount table: returns the index of
/// the matching mount with the longest trimmed public segment (the
/// earliest such mount on a tie of lengths), or `None` when no mount
/// matches.
pub fn resolve_mount(mounts: &Vec<Mount>, path: &Vec<u8>) -> (r: Option<usize>)
    ensures
        resolve_spec(views(mounts@), path@) == (match r {
            Option::Some(i) => Some(i as int),
            Option::None => None::<int>,
        }),
        (r matches Some(i) ==> i < mounts@.len()),
{
    let stripped_path = strip_leading_bytes(path, SLASH);
    let mut best: Option<usize> = None;
    let mut best_len: usize = 0;
    let mut k: usize = 0;
    while k < mounts.len()
        invariant
            k <= mounts@.len(),
            stripped_path@ == strip_leading(path@, SLASH),
            resolve_upto(views(mounts@), path@, k as int) == (match best {
                Option::Some(i) => Some(i as int),
                Option::None => None::<int>,
            }),
            (match best {
                Option::Some(i) => i < k && best_len == seg_of(views(mounts@)[i as int]).len(),
                Option::None => true,
            }),
        decreases mounts@.len() - k,
    {
        let m = &mounts[k];
        let seg = strip_both_bytes(&m.public_segment, SLASH);
        assert(views(mounts@)[k as int] == mounts@[k as int]@);
        assert(seg@ == seg_of(views(mounts@)[k as int]));
        let cand = seg.len() > 0 && starts_with_bytes(&stripped_path, &seg);
        assert(cand == is_candidate(views(mounts@)[k as int], path@));
        let better = match best {
            Option::Some(_) => best_len < seg.len(),
            Option::None => true,
        };
        if cand && better {
            best = Some(k);
            best_len = seg.len();
        }
        k += 1;
    }
    best
}

/// Disjoint mounts resolve uniquely: if `path` falls under mount `i`'s
/// segment and under no other mount's, resolution returns exactly `i`.
pub proof fn lemma_resolution_unique(mounts: Seq<MountV>, path: Seq<u8>, i: int)
    requires
        0 <= i < mounts.len(),
        is_candidate(mounts[i], path),
        forall|j: int| 0 <= j < mounts.len() && j != i ==> !is_candidate(mounts[j], path),
    ensures
        resolve_spec(mounts, path) == Some(i),
{
    lemma_resolve_upto_props(mounts, path, mounts.len() as int);
    match resolve_spec(mounts, path) {
        Option::Some(w) => {
            assert(is_candidate(mounts[w], path));
        },
        Option::None => {
            assert(!is_candidate(mounts[i], path));
        },
    }
}

/// Longest prefix wins: if mounts `i` and `j` are both candidates for
/// `path` and `i`'s trimmed segment is strictly longer than `j`'s, then
/// resolution picks some mount whose segment is at least as long as `i`'s,
/// and never `j`.
pub proof fn lemma_longer_prefix_wins(mounts: Seq<MountV>, path: Seq<u8>, i: int, j: int)
    requires
        0 <= i < mounts.len(),
        0 <= j < mounts.len(),
        is_candidate(mounts[i], path),
        is_candidate(mounts[j], path),
        seg_of(mounts[i]).len() > seg_of(mounts[j]).len(),
    ensures
        resolve_spec(mounts, path) is Some,
        resolve_spec(mounts, path) != Some(j),
        seg_of(mounts[resolve_spec(mounts, path)->Some_0]).len() >= seg_of(mounts[i]).len(),
{
    lemma_resolve_upto_props(mounts, path, mounts.len() as int);
}

} // verus!
