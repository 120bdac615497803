//! Laws of the library: properties that hold of every input, stated over
//! the specification functions and proved once and for all.

use vstd::prelude::*;
use crate::chars::contains_seq;
use crate::listing_model;
use crate::parser::{EntryModel, entries_of};
use crate::file_item::{ItemModel, nodup_paths};
use crate::order::{sort_items, lex_lt, item_lt, lemma_sort_items_props};
use crate::text::normalize_seq;
use crate::tree::{normalize_entry, normalize_entries, dedup_entries, classify_entry,
    classify_entries, backfill, denoise, is_noise, ends_slash, lemma_dedup_props,
    lemma_denoise_props, lemma_backfill_props, lemma_noise_prefix};

verus! {

/// Path normalization is idempotent: normalizing an already normalized
/// character sequence changes nothing.
pub proof fn lemma_normalize_idempotent(s: Seq<char>)
    ensures
        normalize_seq(normalize_seq(s)) == normalize_seq(s),
{
    assert forall|i: int| 0 <= i < s.len() implies #[trigger] normalize_seq(normalize_seq(s))[i]
        == normalize_seq(s)[i] by {
        assert(normalize_seq(s)[i] == (if s[i] == '\\' {
            '/'
        } else {
            s[i]
        }));
    }
    assert(normalize_seq(normalize_seq(s)) =~= normalize_seq(s));
}

/// The normalization pass over records is idempotent as well.
pub proof fn lemma_normalize_entries_idempotent(es: Seq<EntryModel>)
    ensures
        normalize_entries(normalize_entries(es)) == normalize_entries(es),
{
    assert forall|k: int| 0 <= k < es.len() implies #[trigger] normalize_entries(
        normalize_entries(es),
    )[k] == normalize_entries(es)[k] by {
        lemma_normalize_idempotent(es[k].path);
        assert(normalize_entries(es)[k] == normalize_entry(es[k]));
        assert(normalize_entries(normalize_entries(es))[k] == normalize_entry(
            normalize_entry(es[k]),
        ));
    }
    assert(normalize_entries(normalize_entries(es)) =~= normalize_entries(es));
}

/// No duplicate paths: for every input text, no two records of the
/// output carry the same path.
pub proof fn lemma_no_duplicate_paths(text: Seq<char>)
    ensures
        nodup_paths(listing_model(text)),
{
    let es = entries_of(text);
    let n = normalize_entries(es);
    let d = dedup_entries(n);
    let c = classify_entries(d);
    let b = backfill(c);
    let f = denoise(b);
    lemma_dedup_props(n);
    assert forall|i: int, j: int| 0 <= i < j < c.len() implies c[i].path != c[j].path by {
        assert(c[i] == classify_entry(d[i]));
        assert(c[j] == classify_entry(d[j]));
        assert(d[i].path != d[j].path);
    }
    assert(nodup_paths(c));
    lemma_backfill_props(c);
    lemma_denoise_props(b);
    lemma_sort_items_props(f);
}

/// Ordering invariant: in the output a file record never precedes a
/// directory record, and within records of one kind the paths never
/// decrease.
pub proof fn lemma_output_ordered(text: Seq<char>)
    ensures
        forall|i: int|
            0 <= i && i + 1 < listing_model(text).len() ==> ((#[trigger] listing_model(
                text,
            )[i]).is_dir || !listing_model(text)[i + 1].is_dir),
        forall|i: int|
            0 <= i && i + 1 < listing_model(text).len() && (#[trigger] listing_model(
                text,
            )[i]).is_dir == listing_model(text)[i + 1].is_dir ==> (lex_lt(
                listing_model(text)[i].path,
                listing_model(text)[i + 1].path,
            ) || listing_model(text)[i].path == listing_model(text)[i + 1].path),
{
    let es = entries_of(text);
    let f = denoise(backfill(classify_entries(dedup_entries(normalize_entries(es)))));
    lemma_sort_items_props(f);
    let o = sort_items(f);
    assert(listing_model(text) == o);
    assert forall|i: int| 0 <= i && i + 1 < o.len() implies ((#[trigger] o[i]).is_dir || !o[i
        + 1].is_dir) && (o[i].is_dir == o[i + 1].is_dir ==> (lex_lt(o[i].path, o[i + 1].path)
        || o[i].path == o[i + 1].path)) by {
        assert(!item_lt(o[i + 1], o[i]));
        if o[i].is_dir == o[i + 1].is_dir && !lex_lt(o[i].path, o[i + 1].path) {
            crate::order::lemma_lex_lt_connected(o[i].path, o[i + 1].path);
        }
    }
}

/// Noise exclusion: no record of the output carries a noise line as its
/// path; in particular no output path contains the error-counter marker.
pub proof fn lemma_noise_excluded(text: Seq<char>)
    ensures
        forall|k: int|
            0 <= k < listing_model(text).len() ==> !is_noise(
                (#[trigger] listing_model(text)[k]).path,
            ),
        forall|k: int|
            0 <= k < listing_model(text).len() ==> !contains_seq(
                (#[trigger] listing_model(text)[k]).path,
                "Errors:"@,
            ),
{
    let es = entries_of(text);
    let b = backfill(classify_entries(dedup_entries(normalize_entries(es))));
    let f = denoise(b);
    lemma_denoise_props(b);
    lemma_sort_items_props(f);
    let o = sort_items(f);
    assert(listing_model(text) == o);
    assert forall|k: int| 0 <= k < o.len() implies !is_noise((#[trigger] o[k]).path) by {
        assert(o.contains(o[k]));
        assert(f.contains(o[k]));
    }
}

/// Directory records carry size zero: every output record flagged a
/// directory has `size == 0`, whatever size its listing block declared.
pub proof fn lemma_directories_carry_zero_size(text: Seq<char>)
    ensures
        forall|k: int|
            0 <= k < listing_model(text).len() && (#[trigger] listing_model(text)[k]).is_dir
                ==> listing_model(text)[k].size == 0,
{
    let es = entries_of(text);
    let n = normalize_entries(es);
    let d = dedup_entries(n);
    let c = classify_entries(d);
    let b = backfill(c);
    let f = denoise(b);
    let o = sort_items(f);
    assert(listing_model(text) == o);
    lemma_backfill_props(c);
    lemma_denoise_props(b);
    lemma_sort_items_props(f);
    assert forall|k: int| 0 <= k < o.len() && (#[trigger] o[k]).is_dir implies o[k].size == 0 by {
        assert(o.contains(o[k]));
        assert(f.contains(o[k]));
        assert(b.contains(o[k]));
        let kb = choose|kb: int| 0 <= kb < b.len() && b[kb] == o[k];
        if c.contains(b[kb]) {
            let mc = choose|mc: int| 0 <= mc < c.len() && c[mc] == b[kb];
            assert(c[mc] == classify_entry(d[mc]));
        }
    }
}

/// An ancestor of a path: a proper prefix closed by a `/`.
pub open spec fn is_ancestor_of(a: Seq<char>, p: Seq<char>) -> bool {
    exists|j: int| 0 <= j && j + 1 < p.len() && p[j] == '/' && a == #[trigger] p.take(j + 1)
}

/// Ancestor completeness: every ancestor of a file record in the output
/// is present in the output as a directory record. It holds for every
/// text whose parsed records mark `/`-terminated paths as directories;
/// a block whose `Path` value ends in a separator without a `Folder = +`
/// marking (or one whose flag is retracted by a later `Folder = -` line)
/// is excluded by the hypothesis.
pub proof fn lemma_ancestors_complete(text: Seq<char>)
    requires
        forall|k: int|
            0 <= k < entries_of(text).len() && ends_slash(normalize_seq(
                (#[trigger] entries_of(text)[k]).path,
            )) ==> entries_of(text)[k].is_dir,
    ensures
        forall|k: int, a: Seq<char>|
            #![trigger is_ancestor_of(a, listing_model(text)[k].path)]
            0 <= k < listing_model(text).len() && !listing_model(text)[k].is_dir
                && is_ancestor_of(a, listing_model(text)[k].path) ==> exists|m: int|
                0 <= m < listing_model(text).len() && (#[trigger] listing_model(text)[m]).path
                    == a && listing_model(text)[m].is_dir,
{
    let es = entries_of(text);
    let n = normalize_entries(es);
    let d = dedup_entries(n);
    let c = classify_entries(d);
    let b = backfill(c);
    let f = denoise(b);
    let o = sort_items(f);
    assert(listing_model(text) == o);
    lemma_dedup_props(n);
    lemma_backfill_props(c);
    lemma_denoise_props(b);
    lemma_sort_items_props(f);
    assert forall|m: int| 0 <= m < c.len() && ends_slash((#[trigger] c[m]).path) implies
        c[m].is_dir by {
        assert(c[m] == classify_entry(d[m]));
        assert(d.contains(d[m]));
        assert(n.contains(d[m]));
        let k2 = choose|k2: int| 0 <= k2 < n.len() && n[k2] == d[m];
        assert(n[k2] == normalize_entry(es[k2]));
        assert(ends_slash(normalize_seq(es[k2].path)));
    }
    assert forall|k: int, a: Seq<char>|
        #![trigger is_ancestor_of(a, o[k].path)]
        0 <= k < o.len() && !o[k].is_dir && is_ancestor_of(a, o[k].path) implies exists|m: int|
        0 <= m < o.len() && (#[trigger] o[m]).path == a && o[m].is_dir by {
        let j = choose|j: int|
            0 <= j && j + 1 < o[k].path.len() && o[k].path[j] == '/' && a == o[k].path.take(j + 1);
        assert(o.contains(o[k]));
        assert(f.contains(o[k]));
        assert(b.contains(o[k]) && !is_noise(o[k].path));
        let kb = choose|kb: int| 0 <= kb < b.len() && b[kb] == o[k];
        assert(b[kb].path.take(j + 1) == a);
        let mb = choose|mb: int|
            0 <= mb < b.len() && (#[trigger] b[mb]).path == a && (b[mb].is_dir || ends_slash(
                b[mb].path,
            ));
        assert(ends_slash(a)) by {
            assert(a.len() == j + 1);
            assert(a.last() == o[k].path[j]);
        }
        if !b[mb].is_dir {
            assert(b.contains(b[mb]));
            assert(c.contains(b[mb]));
            let mc = choose|mc: int| 0 <= mc < c.len() && c[mc] == b[mb];
            assert(ends_slash(c[mc].path));
            assert(c[mc].is_dir);
        }
        assert(a == o[k].path.take(a.len() as int));
        lemma_noise_prefix(a, o[k].path);
        assert(!is_noise(a));
        assert(b.contains(b[mb]));
        assert(f.contains(b[mb]));
        assert(o.contains(b[mb]));
        let mo = choose|mo: int| 0 <= mo < o.len() && o[mo] == b[mb];
        assert(o[mo].path == a && o[mo].is_dir);
    }
}

} // verus!
