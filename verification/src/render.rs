//! Rendering of the directory-index fragment: entries sorted by creation
//! time, newest first, with ties broken by name so that rendering is
//! deterministic; each entry becomes a table row whose link is the URL
//! base followed by the percent-encoded entry name.

use vstd::prelude::*;
use crate::codec::encode_spec;
use crate::codec::percent_encode;
use crate::listing::DirEntry;
use crate::listing::DirEntryV;
use crate::listing::entry_views;
use crate::text::lit;
use crate::text::str_to_bytes;

verus! {

/// Lexicographic byte order: `a` at or before `b`.
pub open spec fn lex_le(a: Seq<u8>, b: Seq<u8>) -> bool
    decreases a.len(),
{
    if a.len() == 0 {
        true
    } else if b.len() == 0 {
        false
    } else {
        a[0] < b[0] || (a[0] == b[0] && lex_le(a.drop_first(), b.drop_first()))
    }
}

/// Index order of two entries: newer creation time first; on equal
/// creation times, names in ascending lexicographic byte order.
pub open spec fn entry_le(a: DirEntryV, b: DirEntryV) -> bool {
    a.created > b.created || (a.created == b.created && lex_le(a.name, b.name))
}

/// `s` is ordered for the index: pairwise in [`entry_le`] order.
pub open spec fn sorted(s: Seq<DirEntryV>) -> bool {
    forall|i: int, j: int| 0 <= i < j < s.len() ==> #[trigger] entry_le(s[i], s[j])
}

/// `e` inserted into `s` before the first element it precedes.
pub open spec fn insert_sorted_spec(s: Seq<DirEntryV>, e: DirEntryV) -> Seq<DirEntryV>
    decreases s.len(),
{
    if s.len() == 0 {
        seq![e]
    } else if entry_le(e, s[0]) {
        seq![e] + s
    } else {
        seq![s[0]] + insert_sorted_spec(s.drop_first(), e)
    }
}

/// The index order of `s`: insertion sort, taking elements from the back.
pub open spec fn sort_spec(s: Seq<DirEntryV>) -> Seq<DirEntryV>
    decreases s.len(),
{
    if s.len() == 0 {
        Seq::empty()
    } else {
        insert_sorted_spec(sort_spec(s.drop_first()), s[0])
    }
}

proof fn lemma_lex_total(a: Seq<u8>, b: Seq<u8>)
    ensures
        lex_le(a, b) || lex_le(b, a),
    decreases a.len(),
{
    if a.len() > 0 && b.len() > 0 && a[0] == b[0] {
        lemma_lex_total(a.drop_first(), b.drop_first());
    }
}

proof fn lemma_lex_trans(a: Seq<u8>, b: Seq<u8>, c: Seq<u8>)
    requires
        lex_le(a, b),
        lex_le(b, c),
    ensures
        lex_le(a, c),
    decreases a.len(),
{
    if a.len() > 0 && b.len() > 0 && c.len() > 0 && a[0] == b[0] && b[0] == c[0] {
        lemma_lex_trans(a.drop_first(), b.drop_first(), c.drop_first());
    }
}

proof fn lemma_entry_le_total(a: DirEntryV, b: DirEntryV)
    ensures
        entry_le(a, b) || entry_le(b, a),
{
    lemma_lex_total(a.name, b.name);
}

proof fn lemma_entry_le_trans(a: DirEntryV, b: DirEntryV, c: DirEntryV)
    requires
        entry_le(a, b),
        entry_le(b, c),
    ensures
        entry_le(a, c),
{
    if a.created == b.created && b.created == c.created {
        lemma_lex_trans(a.name, b.name, c.name);
    }
}

proof fn lemma_insert_sorted_props(s: Seq<DirEntryV>, e: DirEntryV)
    requires
        sorted(s),
    ensures
        sorted(insert_sorted_spec(s, e)),
        insert_sorted_spec(s, e).len() == s.len() + 1,
        insert_sorted_spec(s, e).to_multiset() == s.to_multiset().insert(e),
    decreases s.len(),
{
    broadcast use vstd::seq_lib::group_to_multiset_ensures;

    if s.len() == 0 {
        lemma_multiset_of_cons(s, e);
        assert(seq![e] + s =~= seq![e]);
    } else if entry_le(e, s[0]) {
        let r = seq![e] + s;
        assert forall|i: int, j: int| 0 <= i < j < r.len() implies #[trigger] entry_le(
            r[i],
            r[j],
        ) by {
            if i == 0 {
                if j > 1 {
                    lemma_entry_le_trans(e, s[0], s[j - 1]);
                }
            }
        }
        lemma_multiset_of_cons(s, e);
    } else {
        let tail = insert_sorted_spec(s.drop_first(), e);
        assert(sorted(s.drop_first())) by {
            assert(forall|i: int, j: int|
                0 <= i < j < s.drop_first().len() ==> entry_le(s[i + 1], s[j + 1])
                    && s.drop_first()[i] == s[i + 1] && s.drop_first()[j] == s[j + 1]);
        }
        lemma_insert_sorted_props(s.drop_first(), e);
        let r = seq![s[0]] + tail;
        assert forall|i: int, j: int| 0 <= i < j < r.len() implies #[trigger] entry_le(
            r[i],
            r[j],
        ) by {
            if i == 0 {
                // r[j] is either e or an element of s.drop_first()
                assert(tail.to_multiset().count(r[j]) > 0);
                assert(tail.contains(r[j]));
                if r[j] == e {
                    lemma_entry_le_total(e, s[0]);
                } else {
                    assert(s.drop_first().to_multiset().count(r[j]) > 0 || r[j] == e);
                    assert(s.drop_first().contains(r[j]));
                    let k = choose|k: int|
                        0 <= k < s.drop_first().len() && s.drop_first()[k] == r[j];
                    assert(entry_le(s[0], s[k + 1]));
                }
            }
        }
        lemma_multiset_of_cons(tail, s[0]);
        lemma_multiset_of_cons(s.drop_first(), s[0]);
        assert(s.drop_first().to_multiset().insert(e).insert(s[0])
            =~= s.drop_first().to_multiset().insert(s[0]).insert(e));
        assert(seq![s[0]] + s.drop_first() =~= s);
    }
}

/// The multiset of a sequence with one element put in front.
proof fn lemma_multiset_of_cons(s: Seq<DirEntryV>, e: DirEntryV)
    ensures
        (seq![e] + s).to_multiset() == s.to_multiset().insert(e),
    decreases s.len(),
{
    broadcast use vstd::seq_lib::group_to_multiset_ensures;

    if s.len() == 0 {
        assert(seq![e] + s =~= Seq::<DirEntryV>::empty().push(e));
    } else {
        lemma_multiset_of_cons(s.drop_last(), e);
        assert(seq![e] + s =~= (seq![e] + s.drop_last()).push(s.last()));
        assert((seq![e] + s).to_multiset() =~= (seq![e] + s.drop_last()).to_multiset().insert(
            s.last(),
        ));
        assert(s =~= s.drop_last().push(s.last()));
        assert(s.to_multiset() =~= s.drop_last().to_multiset().insert(s.last()));
        assert(s.drop_last().to_multiset().insert(e).insert(s.last())
            =~= s.drop_last().to_multiset().insert(s.last()).insert(e));
    }
}

/// Sorting yields an ordered permutation: same entries, index order.
pub proof fn lemma_sort_spec_props(s: Seq<DirEntryV>)
    ensures
        sorted(sort_spec(s)),
        sort_spec(s).len() == s.len(),
        sort_spec(s).to_multiset() == s.to_multiset(),
    decreases s.len(),
{
    broadcast use vstd::seq_lib::group_to_multiset_ensures;

    if s.len() == 0 {
    } else {
        lemma_sort_spec_props(s.drop_first());
        lemma_insert_sorted_props(sort_spec(s.drop_first()), s[0]);
        lemma_multiset_of_cons(s.drop_first(), s[0]);
        assert(seq![s[0]] + s.drop_first() =~= s);
    }
}

/// The sorting invariant of a rendered index: among entries with distinct
/// creation times, the one created later comes exactly earlier.
pub proof fn lemma_sorting_invariant(s: Seq<DirEntryV>, i: int, j: int)
    requires
        0 <= i < sort_spec(s).len(),
        0 <= j < sort_spec(s).len(),
        i != j,
        sort_spec(s)[i].created != sort_spec(s)[j].created,
    ensures
        i < j <==> sort_spec(s)[i].created > sort_spec(s)[j].created,
{
    lemma_sort_spec_props(s);
    if i < j {
        assert(entry_le(sort_spec(s)[i], sort_spec(s)[j]));
    } else {
        assert(entry_le(sort_spec(s)[j], sort_spec(s)[i]));
    }
}

fn lex_le_bytes(a: &Vec<u8>, b: &Vec<u8>) -> (r: bool)
    ensures
        r == lex_le(a@, b@),
{
    let mut i: usize = 0;
    while i < a.len() && i < b.len()
        invariant
            i <= a@.len(),
            i <= b@.len(),
            forall|j: int| 0 <= j < i ==> a@[j] == b@[j],
        decreases a.len() - i,
    {
        if a[i] < b[i] {
            proof {
                lemma_lex_le_skip(a@, b@, i as int);
            }
            return true;
        }
        if a[i] > b[i] {
            proof {
                lemma_lex_le_skip(a@, b@, i as int);
            }
            return false;
        }
        i += 1;
    }
    proof {
        lemma_lex_le_skip(a@, b@, i as int);
    }
    a.len() <= b.len()
}

proof fn lemma_lex_le_skip(a: Seq<u8>, b: Seq<u8>, i: int)
    requires
        0 <= i <= a.len(),
        i <= b.len(),
        forall|j: int| 0 <= j < i ==> a[j] == b[j],
    ensures
        lex_le(a, b) == lex_le(a.skip(i), b.skip(i)),
    decreases i,
{
    if i == 0 {
        assert(a.skip(0) =~= a);
        assert(b.skip(0) =~= b);
    } else {
        assert(a[0] == b[0]);
        assert(a.drop_first() =~= a.skip(1));
        assert(b.drop_first() =~= b.skip(1));
        lemma_lex_le_skip(a.skip(1), b.skip(1), i - 1);
        assert(a.skip(1).skip(i - 1) =~= a.skip(i));
        assert(b.skip(1).skip(i - 1) =~= b.skip(i));
    }
}

/// Whether `a` comes at or before `b` in index order.
pub fn entry_le_exec(a: &DirEntry, b: &DirEntry) -> (r: bool)
    ensures
        r == entry_le(a@, b@),
{
    if a.created > b.created {
        true
    } else if a.created < b.created {
        false
    } else {
        lex_le_bytes(&a.name, &b.name)
    }
}

proof fn lemma_insert_at(s: Seq<DirEntryV>, e: DirEntryV, i: int)
    requires
        0 <= i <= s.len(),
        forall|j: int| 0 <= j < i ==> !entry_le(e, #[trigger] s[j]),
        i == s.len() || entry_le(e, s[i]),
    ensures
        insert_sorted_spec(s, e) == s.take(i) + seq![e] + s.skip(i),
    decreases i,
{
    if i == 0 {
        if s.len() == 0 {
            assert(insert_sorted_spec(s, e) =~= s.take(0) + seq![e] + s.skip(0));
        } else {
            assert(entry_le(e, s[0]));
            assert(seq![e] + s =~= s.take(0) + seq![e] + s.skip(0));
        }
    } else {
        assert(!entry_le(e, s[0]));
        assert(s.drop_first() =~= s.skip(1));
        lemma_insert_at(s.skip(1), e, i - 1);
        assert(seq![s[0]] + (s.skip(1).take(i - 1) + seq![e] + s.skip(1).skip(i - 1)) =~= s.take(i)
            + seq![e] + s.skip(i));
    }
}

fn insert_entry(sorted_entries: Vec<DirEntry>, e: DirEntry) -> (r: Vec<DirEntry>)
    ensures
        entry_views(r@) == insert_sorted_spec(entry_views(sorted_entries@), e@),
{
    let ghost sv = entry_views(sorted_entries@);
    proof {
        assert(sv.len() == sorted_entries@.len());
        assert(forall|k: int|
            0 <= k < sv.len() ==> #[trigger] sv[k] == sorted_entries@[k]@);
    }
    let mut i: usize = 0;
    while i < sorted_entries.len() && !entry_le_exec(&e, &sorted_entries[i])
        invariant
            i <= sorted_entries@.len(),
            sv == entry_views(sorted_entries@),
            forall|j: int| 0 <= j < i ==> !entry_le(e@, #[trigger] sv[j]),
        decreases sorted_entries.len() - i,
    {
        proof {
            assert(sv[i as int] == sorted_entries@[i as int]@);
        }
        i += 1;
    }
    proof {
        if i < sorted_entries.len() {
            assert(sv[i as int] == sorted_entries@[i as int]@);
        }
        lemma_insert_at(sv, e@, i as int);
    }
    let mut r = sorted_entries;
    r.insert(i, e);
    proof {
        assert(entry_views(r@) =~= sv.take(i as int) + seq![e@] + sv.skip(i as int));
    }
    r
}

/// Sort entries into index order: creation time descending, ties broken
/// by name ascending. The result is exactly [`sort_spec`] of the input.
pub fn sort_entries(entries: Vec<DirEntry>) -> (r: Vec<DirEntry>)
    ensures
        entry_views(r@) == sort_spec(entry_views(entries@)),
{
    let ghost orig = entry_views(entries@);
    let mut rest = entries;
    let mut out: Vec<DirEntry> = Vec::new();
    proof {
        assert(orig.skip(orig.len() as int) =~= Seq::<DirEntryV>::empty());
        assert(entry_views(out@) =~= Seq::<DirEntryV>::empty());
        assert(entry_views(rest@) =~= orig);
    }
    while rest.len() > 0
        invariant
            rest@.len() <= orig.len(),
            entry_views(rest@) == orig.take(rest@.len() as int),
            entry_views(out@) == sort_spec(orig.skip(rest@.len() as int)),
        decreases rest.len(),
    {
        let ghost r0 = rest@.len() as int;
        let e = rest.pop().unwrap();
        proof {
            assert(entry_views(rest@) =~= orig.take(r0).take(r0 - 1));
            assert(orig.take(r0).take(r0 - 1) =~= orig.take(r0 - 1));
            assert(e@ == orig.take(r0)[r0 - 1]);
            assert(orig.skip(r0 - 1).drop_first() =~= orig.skip(r0));
            assert(orig.skip(r0 - 1)[0] == orig[r0 - 1]);
        }
        out = insert_entry(out, e);
        proof {
            assert(entry_views(out@) == insert_sorted_spec(
                sort_spec(orig.skip(r0)),
                orig.skip(r0 - 1)[0],
            ));
        }
    }
    proof {
        assert(orig.skip(0) =~= orig);
        assert(rest@.len() == 0);
    }
    out
}

/// The decimal digits of `n`, most significant first (for `n >= 0`).
pub open spec fn dec_spec(n: int) -> Seq<u8>
    decreases n,
{
    if n < 10 {
        seq![(48 + n) as u8]
    } else {
        dec_spec(n / 10) + seq![(48 + n % 10) as u8]
    }
}

/// The decimal digits of `n`.
pub fn u64_to_dec(n: u64) -> (r: Vec<u8>)
    ensures
        r@ == dec_spec(n as int),
    decreases n,
{
    if n < 10 {
        let mut v: Vec<u8> = Vec::new();
        v.push(48 + (n as u8));
        proof {
            assert(v@ =~= seq![(48 + n as int) as u8]);
        }
        v
    } else {
        let mut v = u64_to_dec(n / 10);
        v.push(48 + ((n % 10) as u8));
        proof {
            assert((n / 10) as int == n as int / 10);
            assert((n % 10) as int == n as int % 10);
            assert(v@ =~= dec_spec(n as int / 10) + seq![(48 + n as int % 10) as u8]);
        }
        v
    }
}

/// One table row: a link built from the URL base and the percent-encoded
/// entry name, the raw name as link text, the size in bytes, and the
/// creation time.
pub open spec fn row_spec(e: DirEntryV, url_base: Seq<u8>) -> Seq<u8> {
    lit("<tr><td><a href=") + url_base + encode_spec(e.name) + lit(">") + e.name + lit(
        "</a></td><td>",
    ) + dec_spec(e.size as int) + lit("</td><td>") + e.created_display + lit("</td></tr>")
}

/// The rows of a rendered index, in the order given.
pub open spec fn rows_spec(entries: Seq<DirEntryV>, url_base: Seq<u8>) -> Seq<u8>
    decreases entries.len(),
{
    if entries.len() == 0 {
        Seq::empty()
    } else {
        row_spec(entries[0], url_base) + rows_spec(entries.drop_first(), url_base)
    }
}

/// A rendered index table: header row `name | size | created`, then one
/// row per entry in index order (newest first).
pub open spec fn table_spec(entries: Seq<DirEntryV>, url_base: Seq<u8>) -> Seq<u8> {
    lit("<table><thead><tr><th>name</th><th>size</th><th>created</th></tr></thead><tbody>")
        + rows_spec(sort_spec(entries), url_base) + lit("</tbody></table>")
}

/// The rendered fragment for a listing outcome: a table for a successful
/// listing, the empty fragment when the directory could not be listed.
pub open spec fn fragment_spec(listing: Option<Seq<DirEntryV>>, url_base: Seq<u8>) -> Seq<u8> {
    match listing {
        Option::Some(es) => table_spec(es, url_base),
        Option::None => Seq::empty(),
    }
}

proof fn lemma_rows_push(entries: Seq<DirEntryV>, e: DirEntryV, url_base: Seq<u8>)
    ensures
        rows_spec(entries.push(e), url_base) == rows_spec(entries, url_base) + row_spec(
            e,
            url_base,
        ),
    decreases entries.len(),
{
    if entries.len() == 0 {
        assert(entries.push(e).drop_first() =~= Seq::<DirEntryV>::empty());
        assert(entries.push(e)[0] == e);
        assert(rows_spec(entries.push(e), url_base) == row_spec(e, url_base) + rows_spec(
            Seq::empty(),
            url_base,
        ));
        assert(row_spec(e, url_base) + Seq::<u8>::empty() =~= row_spec(e, url_base));
        assert(Seq::<u8>::empty() + row_spec(e, url_base) =~= row_spec(e, url_base));
    } else {
        assert(entries.push(e).drop_first() =~= entries.drop_first().push(e));
        lemma_rows_push(entries.drop_first(), e, url_base);
        assert(row_spec(entries[0], url_base) + (rows_spec(entries.drop_first(), url_base)
            + row_spec(e, url_base)) =~= (row_spec(entries[0], url_base) + rows_spec(
            entries.drop_first(),
            url_base,
        )) + row_spec(e, url_base));
    }
}

fn render_row(e: &DirEntry, url_base: &Vec<u8>) -> (r: Vec<u8>)
    ensures
        r@ == row_spec(e@, url_base@),
{
    let mut r = str_to_bytes("<tr><td><a href=");
    r.extend_from_slice(url_base.as_slice());
    let enc = percent_encode(&e.name);
    r.extend_from_slice(enc.as_slice());
    let gt = str_to_bytes(">");
    r.extend_from_slice(gt.as_slice());
    r.extend_from_slice(e.name.as_slice());
    let close_a = str_to_bytes("</a></td><td>");
    r.extend_from_slice(close_a.as_slice());
    let size = u64_to_dec(e.size);
    r.extend_from_slice(size.as_slice());
    let mid = str_to_bytes("</td><td>");
    r.extend_from_slice(mid.as_slice());
    r.extend_from_slice(e.created_display.as_slice());
    let end = str_to_bytes("</td></tr>");
    r.extend_from_slice(end.as_slice());
    r
}

/// Render the index fragment for a listing outcome: sort the entries into
/// index order and emit the table, or the empty fragment for a failed
/// listing. The result is a function of the arguments alone, so rendering
/// the same listing twice gives byte-identical output.
pub fn render_index(listing: Option<Vec<DirEntry>>, url_base: &Vec<u8>) -> (r: Vec<u8>)
    ensures
        (match listing {
            Option::Some(es) => r@ == fragment_spec(Some(entry_views(es@)), url_base@),
            Option::None => r@ == fragment_spec(None, url_base@),
        }),
{
    match listing {
        Option::None => {
            let r: Vec<u8> = Vec::new();
            proof {
                assert(r@ =~= Seq::<u8>::empty());
            }
            r
        },
        Option::Some(es) => {
            let ghost orig = entry_views(es@);
            let sorted_entries = sort_entries(es);
            let ghost sv = entry_views(sorted_entries@);
            let mut body = str_to_bytes(
                "<table><thead><tr><th>name</th><th>size</th><th>created</th></tr></thead><tbody>",
            );
            let ghost header = body@;
            let mut i: usize = 0;
            proof {
                assert(sv.take(0) =~= Seq::<DirEntryV>::empty());
                assert(header + Seq::<u8>::empty() =~= header);
            }
            while i < sorted_entries.len()
                invariant
                    i <= sorted_entries@.len(),
                    sv == entry_views(sorted_entries@),
                    body@ == header + rows_spec(sv.take(i as int), url_base@),
                decreases sorted_entries.len() - i,
            {
                let row = render_row(&sorted_entries[i], url_base);
                body.extend_from_slice(row.as_slice());
                proof {
                    assert(sv.take(i + 1) =~= sv.take(i as int).push(sv[i as int]));
                    lemma_rows_push(sv.take(i as int), sv[i as int], url_base@);
                    assert((header + rows_spec(sv.take(i as int), url_base@)) + row_spec(
                        sv[i as int],
                        url_base@,
                    ) =~= header + (rows_spec(sv.take(i as int), url_base@) + row_spec(
                        sv[i as int],
                        url_base@,
                    )));
                }
                i += 1;
            }
            let foot = str_to_bytes("</tbody></table>");
            body.extend_from_slice(foot.as_slice());
            proof {
                assert(sv.take(sv.len() as int) =~= sv);
            }
            body
        },
    }
}

} // verus!
