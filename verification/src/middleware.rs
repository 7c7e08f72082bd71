//! The interception state machine: what to do with a downstream response,
//! decided purely from its status code, its `Location` header, the raw
//! request path, the mount table, and the externally visible serve prefix.
//!
//! A `200` and every unrecognized situation pass the downstream response
//! through unchanged. A `404` under a resolvable mount becomes a plan for
//! a synthesized index page. A `307` whose `Location` has the expected
//! shape becomes a corrected redirect that restores the external prefix.

use vstd::prelude::*;
use crate::codec::decode_spec;
use crate::codec::encode_spec;
use crate::codec::percent_decode;
use crate::codec::percent_encode;
use crate::listing::DirEntry;
use crate::listing::DirEntryV;
use crate::listing::entry_views;
use crate::mount::Mount;
use crate::mount::MountV;
use crate::mount::resolve_mount;
use crate::mount::resolve_spec;
use crate::mount::seg_of;
use crate::mount::views;
use crate::render::fragment_spec;
use crate::render::render_index;
use crate::text::SLASH;
use crate::text::concat_bytes;
use crate::text::copy_range;
use crate::text::ends_with_bytes;
use crate::text::is_suffix;
use crate::text::join_one_slash;
use crate::text::join_one_slash_bytes;
use crate::text::lit;
use crate::text::str_to_bytes;
use crate::text::strip_both;
use crate::text::strip_both_bytes;
use crate::text::strip_prefix_once;
use crate::text::strip_prefix_once_bytes;

verus! {

/// The downstream status on which the layer passes a response through
/// unchanged without looking further.
pub const STATUS_OK: u16 = 200;

/// The downstream status that triggers index synthesis.
pub const STATUS_NOT_FOUND: u16 = 404;

/// The downstream status that triggers redirect correction.
pub const STATUS_TEMPORARY_REDIRECT: u16 = 307;

/// Everything needed to synthesize the index page for one request.
pub struct IndexPlan {
    /// The absolute filesystem directory to list.
    pub fs_dir: Vec<u8>,
    /// The URL base for child links, already percent-encoded.
    pub url_base: Vec<u8>,
    /// The percent-decoded request path, shown in the heading.
    pub decoded_path: Vec<u8>,
    /// The resolved mount's root directory, shown in the page.
    pub root_dir: Vec<u8>,
}

/// The mathematical view of an [`IndexPlan`].
pub struct IndexPlanV {
    pub fs_dir: Seq<u8>,
    pub url_base: Seq<u8>,
    pub decoded_path: Seq<u8>,
    pub root_dir: Seq<u8>,
}

impl View for IndexPlan {
    type V = IndexPlanV;

    open spec fn view(&self) -> IndexPlanV {
        IndexPlanV {
            fs_dir: self.fs_dir@,
            url_base: self.url_base@,
            decoded_path: self.decoded_path@,
            root_dir: self.root_dir@,
        }
    }
}

/// What the layer does with a downstream response.
pub enum Decision {
    /// Return the downstream response unchanged.
    Passthrough,
    /// Synthesize a directory-index page from the plan.
    Index(IndexPlan),
    /// Replace the response with a redirect to the corrected location.
    Redirect(Vec<u8>),
}

/// The filesystem directory for an index request: the mount's root
/// followed by the decoded request path with `/` and the mount's trimmed
/// segment stripped from its front.
pub open spec fn fs_dir_spec(m: MountV, path: Seq<u8>) -> Seq<u8> {
    m.root_dir + strip_prefix_once(decode_spec(path), seq![SLASH] + seg_of(m))
}

/// The URL base for child links: the external serve prefix joined to the
/// decoded request path, percent-encoded.
pub open spec fn url_base_spec(prefix: Seq<u8>, path: Seq<u8>) -> Seq<u8> {
    encode_spec(join_one_slash(prefix, decode_spec(path)))
}

/// A downstream redirect has the expected shape: the request path,
/// trimmed of slashes, ends with the trimmed `Location` value, and the
/// `Location` value itself ends with a slash.
pub open spec fn redirect_ok(path: Seq<u8>, loc: Seq<u8>) -> bool {
    is_suffix(strip_both(loc, SLASH), strip_both(path, SLASH)) && loc.len() > 0 && loc.last()
        == SLASH
}

/// The corrected `Location`: the external serve prefix, the request path,
/// and a trailing slash.
pub open spec fn corrected_location_spec(prefix: Seq<u8>, path: Seq<u8>) -> Seq<u8> {
    prefix + path + seq![SLASH]
}

/// Decide what to do with a downstream response.
///
/// A `404` resolves the request path against the mount table; with no
/// matching mount the downstream response passes through (the defensive
/// fallback for an unresolvable path). A `307` without a `Location`
/// header, or with one of an unrecognized shape, passes through
/// unchanged; one of the expected shape becomes a redirect to the
/// corrected location. Every other status passes through.
pub fn classify(
    status: u16,
    path: &Vec<u8>,
    location: &Option<Vec<u8>>,
    mounts: &Vec<Mount>,
    prefix: &Vec<u8>,
) -> (d: Decision)
    ensures
        status != STATUS_NOT_FOUND && status != STATUS_TEMPORARY_REDIRECT ==> (d is Passthrough),
        status == STATUS_NOT_FOUND ==> (match resolve_spec(views(mounts@), path@) {
            Option::Some(i) => (match d {
                Decision::Index(plan) => plan.fs_dir@ == fs_dir_spec(views(mounts@)[i], path@)
                    && plan.url_base@ == url_base_spec(prefix@, path@) && plan.decoded_path@
                    == decode_spec(path@) && plan.root_dir@ == views(mounts@)[i].root_dir,
                _ => false,
            }),
            Option::None => d is Passthrough,
        }),
        status == STATUS_TEMPORARY_REDIRECT ==> (match location {
            Option::Some(loc) => (if redirect_ok(path@, loc@) {
                (match d {
                    Decision::Redirect(l) => l@ == corrected_location_spec(prefix@, path@),
                    _ => false,
                })
            } else {
                d is Passthrough
            }),
            Option::None => d is Passthrough,
        }),
{
    if status == STATUS_NOT_FOUND {
        match resolve_mount(mounts, path) {
            Option::None => Decision::Passthrough,
            Option::Some(i) => {
                let m = &mounts[i];
                proof {
                    assert(views(mounts@)[i as int] == mounts@[i as int]@);
                }
                let decoded = percent_decode(path);
                let seg = strip_both_bytes(&m.public_segment, SLASH);
                let mut pat: Vec<u8> = Vec::new();
                pat.push(SLASH);
                pat.extend_from_slice(seg.as_slice());
                proof {
                    assert(pat@ =~= seq![SLASH] + seg_of(views(mounts@)[i as int]));
                }
                let tail = strip_prefix_once_bytes(&decoded, &pat);
                let fs_dir = concat_bytes(&m.root_dir, &tail);
                let joined = join_one_slash_bytes(prefix, &decoded);
                let url_base = percent_encode(&joined);
                let root_dir = copy_range(&m.root_dir, 0, m.root_dir.len());
                proof {
                    assert(root_dir@ =~= views(mounts@)[i as int].root_dir);
                }
                Decision::Index(IndexPlan { fs_dir, url_base, decoded_path: decoded, root_dir })
            },
        }
    } else if status == STATUS_TEMPORARY_REDIRECT {
        match location {
            Option::None => Decision::Passthrough,
            Option::Some(loc) => {
                let loc_trimmed = strip_both_bytes(loc, SLASH);
                let path_trimmed = strip_both_bytes(path, SLASH);
                let ok = ends_with_bytes(&path_trimmed, &loc_trimmed) && loc.len() > 0 && loc[loc.len()
                    - 1] == SLASH;
                if ok {
                    let mut l = concat_bytes(prefix, path);
                    l.push(SLASH);
                    proof {
                        assert(l@ =~= (prefix@ + path@) + seq![SLASH]);
                    }
                    Decision::Redirect(l)
                } else {
                    Decision::Passthrough
                }
            },
        }
    } else {
        Decision::Passthrough
    }
}

/// The views of a listing outcome.
pub open spec fn listing_views(listing: Option<Vec<DirEntry>>) -> Option<Seq<DirEntryV>> {
    match listing {
        Option::Some(es) => Some(entry_views(es@)),
        Option::None => None,
    }
}

/// The synthesized index page: a heading anchor to the directory's own
/// externally visible URL, a paragraph naming the resolved mount's
/// filesystem root, and the rendered table — empty when the listing
/// failed.
pub open spec fn page_spec(plan: IndexPlanV, listing: Option<Seq<DirEntryV>>) -> Seq<u8> {
    lit("<!DOCTYPE html><html><head><meta charset=\"utf-8\"></head><body><h1><a href=")
        + plan.url_base + lit(">") + plan.decoded_path + lit("</a></h1> <p>") + plan.root_dir + lit(
        "</p>",
    ) + fragment_spec(listing, plan.url_base) + lit("</body></html>")
}

/// Build the synthesized index page for a plan and a listing outcome.
/// The result is a function of the arguments alone.
pub fn build_index_page(plan: &IndexPlan, listing: Option<Vec<DirEntry>>) -> (r: Vec<u8>)
    ensures
        r@ == page_spec(plan@, listing_views(listing)),
{
    let fragment = render_index(listing, &plan.url_base);
    let mut r = str_to_bytes(
        "<!DOCTYPE html><html><head><meta charset=\"utf-8\"></head><body><h1><a href=",
    );
    r.extend_from_slice(plan.url_base.as_slice());
    let gt = str_to_bytes(">");
    r.extend_from_slice(gt.as_slice());
    r.extend_from_slice(plan.decoded_path.as_slice());
    let close_h1 = str_to_bytes("</a></h1> <p>");
    r.extend_from_slice(close_h1.as_slice());
    r.extend_from_slice(plan.root_dir.as_slice());
    let close_p = str_to_bytes("</p>");
    r.extend_from_slice(close_p.as_slice());
    r.extend_from_slice(fragment.as_slice());
    let tail = str_to_bytes("</body></html>");
    r.extend_from_slice(tail.as_slice());
    r
}

} // verus!
