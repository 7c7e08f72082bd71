//! Directory listings: the per-entry metadata record and the tolerant
//! collection step that keeps every readable entry and skips entries whose
//! metadata could not be read.
//!
//! Enumerating a directory and reading metadata is I/O and happens outside
//! this crate; each child arrives here as `Some` metadata record or `None`
//! for an unreadable entry.

use vstd::prelude::*;

verus! {

/// Metadata of one directory entry. `created` is a sort key (nanoseconds
/// since the Unix epoch); `created_display` is the human-readable local
/// time that the index page shows for it.
pub struct DirEntry {
    pub name: Vec<u8>,
    pub is_file: bool,
    pub size: u64,
    pub created: i64,
    pub created_display: Vec<u8>,
}

/// The mathematical view of a [`DirEntry`].
pub struct DirEntryV {
    pub name: Seq<u8>,
    pub is_file: bool,
    pub size: u64,
    pub created: i64,
    pub created_display: Seq<u8>,
}

impl View for DirEntry {
    type V = DirEntryV;

    open spec fn view(&self) -> DirEntryV {
        DirEntryV {
            name: self.name@,
            is_file: self.is_file,
            size: self.size,
            created: self.created,
            created_display: self.created_display@,
        }
    }
}

/// The views of a sequence of entries.
pub open spec fn entry_views(s: Seq<DirEntry>) -> Seq<DirEntryV> {
    s.map_values(|e: DirEntry| e@)
}

/// The view of one possibly unreadable entry.
pub open spec fn opt_view(o: Option<DirEntry>) -> Option<DirEntryV> {
    match o {
        Option::Some(e) => Some(e@),
        Option::None => None,
    }
}

/// The views of a sequence of possibly unreadable entries.
pub open spec fn opt_views(s: Seq<Option<DirEntry>>) -> Seq<Option<DirEntryV>> {
    s.map_values(|o: Option<DirEntry>| opt_view(o))
}

/// The readable entries of a listing, in enumeration order.
pub open spec fn readable_of(s: Seq<Option<DirEntryV>>) -> Seq<DirEntryV>
    decreases s.len(),
{
    if s.len() == 0 {
        Seq::empty()
    } else {
        (match s[0] {
            Option::Some(e) => seq![e],
            Option::None => Seq::empty(),
        }) + readable_of(s.drop_first())
    }
}

/// The number of readable entries in a listing.
pub open spec fn count_readable(s: Seq<Option<DirEntryV>>) -> nat
    decreases s.len(),
{
    if s.len() == 0 {
        0
    } else {
        (match s[0] {
            Option::Some(e) => 1nat,
            Option::None => 0nat,
        }) + count_readable(s.drop_first())
    }
}

/// Keep every readable entry of a listing, in order, and skip the
/// unreadable ones.
pub fn collect_readable(items: Vec<Option<DirEntry>>) -> (r: Vec<DirEntry>)
    ensures
        entry_views(r@) == readable_of(opt_views(items@)),
{
    let ghost orig = opt_views(items@);
    let mut rest = items;
    let mut out: Vec<DirEntry> = Vec::new();
    proof {
        assert(entry_views(out@) =~= Seq::<DirEntryV>::empty());
        assert(Seq::<DirEntryV>::empty() + readable_of(orig) =~= readable_of(orig));
    }
    while rest.len() > 0
        invariant
            readable_of(orig) == entry_views(out@) + readable_of(opt_views(rest@)),
        decreases rest.len(),
    {
        let ghost rest0 = opt_views(rest@);
        let ghost out0 = out@;
        let it = rest.remove(0);
        proof {
            assert(opt_views(rest@) =~= rest0.drop_first());
            assert(rest0[0] == opt_view(it));
        }
        match it {
            Option::Some(e) => {
                proof {
                    assert(readable_of(rest0) == seq![e@] + readable_of(rest0.drop_first()));
                }
                out.push(e);
                proof {
                    assert(entry_views(out@) =~= entry_views(out0).push(e@));
                    assert(entry_views(out0) + (seq![e@] + readable_of(rest0.drop_first()))
                        =~= entry_views(out0).push(e@) + readable_of(rest0.drop_first()));
                }
            },
            Option::None => {
                proof {
                    assert(readable_of(rest0) == Seq::<DirEntryV>::empty() + readable_of(
                        rest0.drop_first(),
                    ));
                    assert(Seq::<DirEntryV>::empty() + readable_of(rest0.drop_first())
                        =~= readable_of(rest0.drop_first()));
                }
            },
        }
    }
    proof {
        assert(opt_views(rest@) =~= Seq::<Option<DirEntryV>>::empty());
        assert(readable_of(opt_views(rest@)) =~= Seq::<DirEntryV>::empty());
        assert(entry_views(out@) + Seq::<DirEntryV>::empty() =~= entry_views(out@));
    }
    out
}

/// Listing is tolerant: the collected entries are exactly the readable
/// ones — with `N` readable and `M` unreadable items the listing yields
/// exactly `N` entries, and never aborts on the `M` failures.
pub proof fn lemma_listing_tolerant(s: Seq<Option<DirEntryV>>)
    ensures
        readable_of(s).len() == count_readable(s),
    decreases s.len(),
{
    if s.len() > 0 {
        lemma_listing_tolerant(s.drop_first());
    }
}

} // verus!
