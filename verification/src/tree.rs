//! The tree reconstructor and cleanup passes.
//!
//! Post-processes the flat record sequence from the parser: normalizes
//! every path, drops duplicate paths (first seen wins), attaches a type
//! label to every record, synthesizes the ancestor directories implied by
//! file paths, discards noise lines that are not archive entries, and
//! orders the result deterministically, directories first.

use vstd::prelude::*;
use vstd::string::StrSliceExecFns;
use crate::chars::{contains_seq, has_prefix, match_at, str_to_chars, chars_to_string, contains_lit,
    starts_with_lit, subrange_vec};
use crate::text::{normalize_seq, normalize_chars};
use crate::parser::{RawEntry, EntryModel, entry_models};
use crate::file_item::{FileItem, ItemModel, items_model, item_path_in, nodup_paths};
use crate::classify::{label_of, label_for};
use crate::order::{sort_items, sort_file_items};

verus! {

/// A path that marks a directory record: nonempty and ending in `/`.
pub open spec fn ends_slash(p: Seq<char>) -> bool {
    p.len() > 0 && p.last() == '/'
}

/// An entry with its path normalized.
pub open spec fn normalize_entry(e: EntryModel) -> EntryModel {
    EntryModel { path: normalize_seq(e.path), ..e }
}

/// Path normalization over a whole record sequence.
pub open spec fn normalize_entries(es: Seq<EntryModel>) -> Seq<EntryModel> {
    es.map_values(|e: EntryModel| normalize_entry(e))
}

/// Whether some entry in `es` carries path `p`.
pub open spec fn entry_path_in(es: Seq<EntryModel>, p: Seq<char>) -> bool {
    exists|k: int| 0 <= k < es.len() && es[k].path == p
}

/// First-seen-wins deduplication by path.
pub open spec fn dedup_entries(es: Seq<EntryModel>) -> Seq<EntryModel>
    decreases es.len(),
{
    if es.len() == 0 {
        Seq::<EntryModel>::empty()
    } else {
        let d = dedup_entries(es.drop_last());
        if entry_path_in(es.drop_last(), es.last().path) {
            d
        } else {
            d.push(es.last())
        }
    }
}

/// Deduplication keeps exactly the paths of the input, one record each,
/// and every kept record is a record of the input.
pub proof fn lemma_dedup_props(es: Seq<EntryModel>)
    ensures
        forall|p: Seq<char>|
            #[trigger] entry_path_in(dedup_entries(es), p) <==> entry_path_in(es, p),
        forall|i: int, j: int|
            0 <= i < j < dedup_entries(es).len() ==> dedup_entries(es)[i].path != dedup_entries(
                es,
            )[j].path,
        forall|y: EntryModel| #[trigger] dedup_entries(es).contains(y) ==> es.contains(y),
    decreases es.len(),
{
    if es.len() > 0 {
        let t = es.drop_last();
        let d = dedup_entries(t);
        let r = dedup_entries(es);
        lemma_dedup_props(t);
        assert forall|y: EntryModel| #[trigger] r.contains(y) implies es.contains(y) by {
            let k = choose|k: int| 0 <= k < r.len() && r[k] == y;
            if k < d.len() {
                assert(d[k] == y);
                assert(d.contains(y));
                assert(t.contains(y));
                let m = choose|m: int| 0 <= m < t.len() && t[m] == y;
                assert(es[m] == y);
            } else {
                assert(r[k] == es.last());
                assert(es[es.len() - 1] == y);
            }
        }
        assert forall|p: Seq<char>| #[trigger] entry_path_in(r, p) implies entry_path_in(
            es,
            p,
        ) by {
            let k = choose|k: int| 0 <= k < r.len() && r[k].path == p;
            if k < d.len() {
                assert(d[k].path == p);
                assert(entry_path_in(d, p));
                assert(entry_path_in(t, p));
                let m = choose|m: int| 0 <= m < t.len() && t[m].path == p;
                assert(es[m].path == p);
            } else {
                assert(es[es.len() - 1].path == p);
            }
        }
        assert forall|p: Seq<char>| entry_path_in(es, p) implies #[trigger] entry_path_in(
            r,
            p,
        ) by {
            let k = choose|k: int| 0 <= k < es.len() && es[k].path == p;
            if k < es.len() - 1 {
                assert(t[k].path == p);
                assert(entry_path_in(t, p));
                assert(entry_path_in(d, p));
                let m = choose|m: int| 0 <= m < d.len() && d[m].path == p;
                assert(r[m].path == p);
            } else {
                if entry_path_in(t, es.last().path) {
                    assert(entry_path_in(d, p));
                    let m = choose|m: int| 0 <= m < d.len() && d[m].path == p;
                    assert(r[m].path == p);
                } else {
                    assert(r[r.len() - 1].path == p);
                }
            }
        }
        if !entry_path_in(t, es.last().path) {
            assert forall|i: int, j: int| 0 <= i < j < r.len() implies r[i].path != r[j].path by {
                if j < d.len() {
                    assert(d[i].path != d[j].path);
                } else {
                    assert(r[i] == d[i]);
                    assert(d[i].path == r[i].path);
                    assert(entry_path_in(d, d[i].path));
                    assert(r[j] == es.last());
                }
            }
        }
    }
}

/// A record with its type label attached. Directories carry size `0`,
/// whatever size the listing text gave their block.
pub open spec fn classify_entry(e: EntryModel) -> ItemModel {
    ItemModel {
        path: e.path,
        is_dir: e.is_dir,
        size: if e.is_dir {
            0
        } else {
            e.size
        },
        modified: e.modified,
        label: label_of(e.path, e.is_dir),
    }
}

/// Classification over a whole record sequence.
pub open spec fn classify_entries(es: Seq<EntryModel>) -> Seq<ItemModel> {
    es.map_values(|e: EntryModel| classify_entry(e))
}

/// Non-entry artifacts of the listing tool that must not survive: empty
/// paths, message banners, error and warning counters, scan and header
/// lines, and raw key-prefix lines.
pub open spec fn is_noise(p: Seq<char>) -> bool {
    ||| p.len() == 0
    ||| contains_seq(p, "[MESSAGES]"@)
    ||| contains_seq(p, "Errors:"@)
    ||| contains_seq(p, "Warnings:"@)
    ||| has_prefix(p, "Scanning the drive for archives"@)
    ||| has_prefix(p, "7-Zip"@)
    ||| has_prefix(p, "Listing archive:"@)
    ||| has_prefix(p, "----------"@)
    ||| has_prefix(p, "Path ="@)
    ||| has_prefix(p, "Size ="@)
    ||| has_prefix(p, "Folder ="@)
    ||| has_prefix(p, "Modified ="@)
}

/// Noise filtering: the records whose paths are not noise, in order.
pub open spec fn denoise(rs: Seq<ItemModel>) -> Seq<ItemModel>
    decreases rs.len(),
{
    if rs.len() == 0 {
        Seq::<ItemModel>::empty()
    } else {
        let d = denoise(rs.drop_last());
        if is_noise(rs.last().path) {
            d
        } else {
            d.push(rs.last())
        }
    }
}

/// Filtering keeps exactly the non-noise records: membership both ways,
/// and no duplicate paths appear.
pub proof fn lemma_denoise_props(rs: Seq<ItemModel>)
    ensures
        forall|y: ItemModel| #[trigger] denoise(rs).contains(y) ==> rs.contains(y) && !is_noise(
            y.path,
        ),
        forall|y: ItemModel|
            rs.contains(y) && !is_noise(y.path) ==> #[trigger] denoise(rs).contains(y),
        nodup_paths(rs) ==> nodup_paths(denoise(rs)),
    decreases rs.len(),
{
    if rs.len() > 0 {
        let t = rs.drop_last();
        let d = denoise(t);
        let r = denoise(rs);
        lemma_denoise_props(t);
        assert forall|y: ItemModel| #[trigger] r.contains(y) implies rs.contains(y) && !is_noise(
            y.path,
        ) by {
            let k = choose|k: int| 0 <= k < r.len() && r[k] == y;
            if k < d.len() {
                assert(d[k] == y);
                assert(d.contains(y));
                assert(t.contains(y));
                let m = choose|m: int| 0 <= m < t.len() && t[m] == y;
                assert(rs[m] == y);
            } else {
                assert(rs[rs.len() - 1] == y);
            }
        }
        assert forall|y: ItemModel| rs.contains(y) && !is_noise(y.path) implies #[trigger] r
            .contains(y) by {
            let k = choose|k: int| 0 <= k < rs.len() && rs[k] == y;
            if k < rs.len() - 1 {
                assert(t[k] == y);
                assert(t.contains(y));
                assert(d.contains(y));
                let m = choose|m: int| 0 <= m < d.len() && d[m] == y;
                assert(r[m] == y);
            } else {
                assert(r[r.len() - 1] == y);
            }
        }
        if nodup_paths(rs) {
            assert(forall|i: int, j: int| 0 <= i < j < t.len() ==> t[i].path != t[j].path);
            assert(nodup_paths(t));
            if !is_noise(rs.last().path) {
                assert forall|i: int, j: int| 0 <= i < j < r.len() implies r[i].path
                    != r[j].path by {
                    if j < d.len() {
                        assert(d[i].path != d[j].path);
                    } else {
                        assert(r[i] == d[i]);
                        assert(d.contains(d[i]));
                        assert(t.contains(d[i]));
                        let m = choose|m: int| 0 <= m < t.len() && t[m] == d[i];
                        assert(rs[m].path != rs[rs.len() - 1].path);
                    }
                }
            }
        }
    }
}

/// The synthesized record for a missing ancestor directory: size `0`,
/// empty modified string, the directory label.
pub open spec fn synth_dir(p: Seq<char>) -> ItemModel {
    ItemModel {
        path: p,
        is_dir: true,
        size: 0,
        modified: Seq::<char>::empty(),
        label: "文件夹"@,
    }
}

/// Whether some record of `rs` carries path `p` and looks like a
/// directory: its flag is set or its path ends in `/`.
pub open spec fn known_dir0(rs: Seq<ItemModel>, p: Seq<char>) -> bool {
    exists|k: int|
        0 <= k < rs.len() && rs[k].path == p && (rs[k].is_dir || ends_slash(rs[k].path))
}

/// The directory-like paths known before any ancestor is synthesized.
pub open spec fn known0_set(rs: Seq<ItemModel>) -> Set<Seq<char>> {
    Set::new(|p: Seq<char>| known_dir0(rs, p))
}

/// The ancestor walk for one file path: positions `i` down to `0`, from
/// the immediate parent upward. At every `/` that closes a proper prefix
/// not yet known, a directory record is synthesized and the prefix
/// becomes known.
pub open spec fn walk_ancestors(p: Seq<char>, i: int, known: Set<Seq<char>>) -> (Seq<ItemModel>,
    Set<Seq<char>>)
    decreases i + 1,
{
    if i < 0 {
        (Seq::<ItemModel>::empty(), known)
    } else if i + 1 < p.len() && p[i] == '/' && !known.contains(p.take(i + 1)) {
        let rest = walk_ancestors(p, i - 1, known.insert(p.take(i + 1)));
        (seq![synth_dir(p.take(i + 1))] + rest.0, rest.1)
    } else {
        walk_ancestors(p, i - 1, known)
    }
}

/// One record's contribution to the back-fill: directories contribute
/// nothing; a file record walks its ancestors.
pub open spec fn backfill_step(r: ItemModel, known: Set<Seq<char>>) -> (Seq<ItemModel>, Set<
    Seq<char>,
>) {
    if r.is_dir {
        (Seq::<ItemModel>::empty(), known)
    } else {
        walk_ancestors(r.path, r.path.len() - 2, known)
    }
}

/// The back-fill walk over a record sequence, in order, with a growing
/// set of known directory paths.
pub open spec fn backfill_walk(rs: Seq<ItemModel>, known: Set<Seq<char>>) -> (Seq<ItemModel>,
    Set<Seq<char>>)
    decreases rs.len(),
{
    if rs.len() == 0 {
        (Seq::<ItemModel>::empty(), known)
    } else {
        let prev = backfill_walk(rs.drop_last(), known);
        let st = backfill_step(rs.last(), prev.1);
        (prev.0 + st.0, st.1)
    }
}

/// Ancestor back-fill: the records, followed by the synthesized
/// directory records, in discovery order.
pub open spec fn backfill(rs: Seq<ItemModel>) -> Seq<ItemModel> {
    rs + backfill_walk(rs, known0_set(rs)).0
}

/// One ancestor walk yields only synthesized directory records with
/// fresh `/`-ending paths, pairwise distinct; the known set grows by
/// exactly those paths; afterwards every proper prefix closed by a `/`
/// at a position up to `i` is known.
pub proof fn lemma_walk_ancestors_props(p: Seq<char>, i: int, known: Set<Seq<char>>)
    ensures
        ({
            let w = walk_ancestors(p, i, known);
            &&& forall|q: Seq<char>|
                #[trigger] w.1.contains(q) <==> known.contains(q) || item_path_in(w.0, q)
            &&& forall|m: int|
                0 <= m < w.0.len() ==> (#[trigger] w.0[m]) == synth_dir(w.0[m].path)
                    && ends_slash(w.0[m].path) && !known.contains(w.0[m].path)
            &&& nodup_paths(w.0)
            &&& forall|j: int|
                0 <= j <= i && j + 1 < p.len() && p[j] == '/' ==> w.1.contains(
                    #[trigger] p.take(j + 1),
                )
        }),
    decreases i + 1,
{
    let w = walk_ancestors(p, i, known);
    if i < 0 {
    } else if i + 1 < p.len() && p[i] == '/' && !known.contains(p.take(i + 1)) {
        let q0 = p.take(i + 1);
        let k1 = known.insert(q0);
        let rest = walk_ancestors(p, i - 1, k1);
        lemma_walk_ancestors_props(p, i - 1, k1);
        assert(w.0 == seq![synth_dir(q0)] + rest.0);
        assert forall|q: Seq<char>| #[trigger] w.1.contains(q) implies known.contains(q)
            || item_path_in(w.0, q) by {
            if k1.contains(q) {
                if q == q0 {
                    assert(w.0[0].path == q0);
                }
            } else {
                assert(item_path_in(rest.0, q));
                let m = choose|m: int| 0 <= m < rest.0.len() && rest.0[m].path == q;
                assert(w.0[m + 1].path == q);
            }
        }
        assert forall|q: Seq<char>| known.contains(q) || item_path_in(w.0, q) implies #[trigger]
            w.1.contains(q) by {
            if known.contains(q) {
                assert(k1.contains(q));
            } else {
                let m = choose|m: int| 0 <= m < w.0.len() && w.0[m].path == q;
                if m == 0 {
                    assert(q == q0);
                    assert(k1.contains(q));
                } else {
                    assert(rest.0[m - 1].path == q);
                    assert(item_path_in(rest.0, q));
                }
            }
        }
        assert forall|m: int| 0 <= m < w.0.len() implies (#[trigger] w.0[m]) == synth_dir(
            w.0[m].path,
        ) && ends_slash(w.0[m].path) && !known.contains(w.0[m].path) by {
            if m == 0 {
                assert(w.0[0] == synth_dir(q0));
                assert(q0.len() == i + 1);
                assert(q0.last() == p[i]);
            } else {
                assert(w.0[m] == rest.0[m - 1]);
                assert(!k1.contains(rest.0[m - 1].path));
            }
        }
        assert forall|m1: int, m2: int| 0 <= m1 < m2 < w.0.len() implies w.0[m1].path
            != w.0[m2].path by {
            if m1 == 0 {
                assert(w.0[m2] == rest.0[m2 - 1]);
                assert(!k1.contains(rest.0[m2 - 1].path));
            } else {
                assert(rest.0[m1 - 1].path != rest.0[m2 - 1].path);
            }
        }
        assert forall|j: int| 0 <= j <= i && j + 1 < p.len() && p[j] == '/' implies w.1.contains(
            #[trigger] p.take(j + 1),
        ) by {
            if j == i {
                assert(k1.contains(q0));
            }
        }
    } else {
        lemma_walk_ancestors_props(p, i - 1, known);
        assert forall|j: int| 0 <= j <= i && j + 1 < p.len() && p[j] == '/' implies w.1.contains(
            #[trigger] p.take(j + 1),
        ) by {
            if j == i {
                assert(known.contains(p.take(i + 1)));
            }
        }
    }
}

/// The back-fill walk yields only synthesized directory records with
/// fresh `/`-ending paths, pairwise distinct; the known set grows by
/// exactly those paths; afterwards every ancestor of every file record
/// is known.
pub proof fn lemma_backfill_walk_props(rs: Seq<ItemModel>, known: Set<Seq<char>>)
    ensures
        ({
            let w = backfill_walk(rs, known);
            &&& forall|q: Seq<char>|
                #[trigger] w.1.contains(q) <==> known.contains(q) || item_path_in(w.0, q)
            &&& forall|m: int|
                0 <= m < w.0.len() ==> (#[trigger] w.0[m]) == synth_dir(w.0[m].path)
                    && ends_slash(w.0[m].path) && !known.contains(w.0[m].path)
            &&& nodup_paths(w.0)
            &&& forall|k: int, j: int|
                0 <= k < rs.len() && !rs[k].is_dir && 0 <= j && j + 1 < rs[k].path.len()
                    && rs[k].path[j] == '/' ==> w.1.contains(#[trigger] rs[k].path.take(j + 1))
        }),
    decreases rs.len(),
{
    let w = backfill_walk(rs, known);
    if rs.len() > 0 {
        let t = rs.drop_last();
        let prev = backfill_walk(t, known);
        lemma_backfill_walk_props(t, known);
        if rs.last().is_dir {
            assert(w.0 =~= prev.0 + Seq::<ItemModel>::empty());
            assert(w.0 =~= prev.0);
            assert forall|k: int, j: int|
                0 <= k < rs.len() && !rs[k].is_dir && 0 <= j && j + 1 < rs[k].path.len() && rs[k].path[j] == '/' implies w.1.contains(#[trigger] rs[k].path.take(j + 1)) by {
                assert(k < t.len());
                assert(t[k] == rs[k]);
            }
        } else {
            let wa = walk_ancestors(rs.last().path, rs.last().path.len() - 2, prev.1);
            lemma_walk_ancestors_props(rs.last().path, rs.last().path.len() - 2, prev.1);
            assert(w.0 == prev.0 + wa.0);
            assert forall|q: Seq<char>| #[trigger] w.1.contains(q) implies known.contains(q)
                || item_path_in(w.0, q) by {
                if prev.1.contains(q) {
                    if !known.contains(q) {
                        assert(item_path_in(prev.0, q));
                        let m = choose|m: int| 0 <= m < prev.0.len() && prev.0[m].path == q;
                        assert(w.0[m].path == q);
                    }
                } else {
                    assert(item_path_in(wa.0, q));
                    let m = choose|m: int| 0 <= m < wa.0.len() && wa.0[m].path == q;
                    assert(w.0[prev.0.len() + m].path == q);
                }
            }
            assert forall|q: Seq<char>| known.contains(q) || item_path_in(w.0, q) implies
                #[trigger] w.1.contains(q) by {
                if known.contains(q) {
                    assert(prev.1.contains(q));
                } else {
                    let m = choose|m: int| 0 <= m < w.0.len() && w.0[m].path == q;
                    if m < prev.0.len() {
                        assert(prev.0[m].path == q);
                        assert(item_path_in(prev.0, q));
                        assert(prev.1.contains(q));
                    } else {
                        assert(wa.0[m - prev.0.len()].path == q);
                        assert(item_path_in(wa.0, q));
                    }
                }
            }
            assert forall|m: int| 0 <= m < w.0.len() implies (#[trigger] w.0[m]) == synth_dir(
                w.0[m].path,
            ) && ends_slash(w.0[m].path) && !known.contains(w.0[m].path) by {
                if m < prev.0.len() {
                    assert(w.0[m] == prev.0[m]);
                } else {
                    assert(w.0[m] == wa.0[m - prev.0.len()]);
                    assert(!prev.1.contains(wa.0[m - prev.0.len()].path));
                }
            }
            assert forall|m1: int, m2: int| 0 <= m1 < m2 < w.0.len() implies w.0[m1].path
                != w.0[m2].path by {
                if m2 < prev.0.len() {
                    assert(prev.0[m1].path != prev.0[m2].path);
                } else if m1 >= prev.0.len() {
                    assert(wa.0[m1 - prev.0.len()].path != wa.0[m2 - prev.0.len()].path);
                } else {
                    assert(w.0[m1] == prev.0[m1]);
                    assert(w.0[m2] == wa.0[m2 - prev.0.len()]);
                    assert(item_path_in(prev.0, prev.0[m1].path)) by {
                        assert(prev.0[m1].path == prev.0[m1].path);
                    }
                    assert(prev.1.contains(prev.0[m1].path));
                    assert(!prev.1.contains(wa.0[m2 - prev.0.len()].path));
                }
            }
            assert forall|k: int, j: int|
                0 <= k < rs.len() && !rs[k].is_dir && 0 <= j && j + 1 < rs[k].path.len() && rs[k].path[j] == '/' implies w.1.contains(#[trigger] rs[k].path.take(j + 1)) by {
                if k < t.len() {
                    assert(t[k] == rs[k]);
                    assert(prev.1.contains(rs[k].path.take(j + 1)));
                } else {
                    assert(rs[k] == rs.last());
                }
            }
        }
    }
}

/// The back-fill keeps paths distinct, adds only directory records, and
/// leaves every ancestor of every file record present as a record whose
/// flag or trailing slash marks a directory.
pub proof fn lemma_backfill_props(rs: Seq<ItemModel>)
    ensures
        nodup_paths(rs) ==> nodup_paths(backfill(rs)),
        forall|m: int|
            0 <= m < backfill(rs).len() ==> rs.contains(#[trigger] backfill(rs)[m]) || (
            backfill(rs)[m] == synth_dir(backfill(rs)[m].path) && backfill(rs)[m].is_dir),
        forall|k: int, j: int|
            #![trigger backfill(rs)[k].path.take(j + 1)]
            0 <= k < backfill(rs).len() && !backfill(rs)[k].is_dir && 0 <= j && j + 1 < backfill(
                rs,
            )[k].path.len() && backfill(rs)[k].path[j] == '/' ==> exists|m: int|
                0 <= m < backfill(rs).len() && (#[trigger] backfill(rs)[m]).path == backfill(
                rs,
            )[k].path.take(j + 1) && (backfill(rs)[m].is_dir || ends_slash(backfill(rs)[m].path)),
{
    let b = backfill(rs);
    let kzero = known0_set(rs);
    let w = backfill_walk(rs, kzero);
    lemma_backfill_walk_props(rs, kzero);
    assert(b == rs + w.0);
    if nodup_paths(rs) {
        assert forall|i: int, j: int| 0 <= i < j < b.len() implies b[i].path != b[j].path by {
            if j < rs.len() {
                assert(rs[i].path != rs[j].path);
            } else if i >= rs.len() {
                assert(w.0[i - rs.len()].path != w.0[j - rs.len()].path);
            } else {
                assert(b[i] == rs[i]);
                assert(b[j] == w.0[j - rs.len()]);
                assert(!kzero.contains(w.0[j - rs.len()].path));
                assert(ends_slash(w.0[j - rs.len()].path));
                if rs[i].path == w.0[j - rs.len()].path {
                    assert(known_dir0(rs, rs[i].path)) by {
                        assert(rs[i].path == rs[i].path && ends_slash(rs[i].path));
                    }
                    assert(kzero.contains(rs[i].path));
                }
            }
        }
    }
    assert forall|m: int| 0 <= m < b.len() implies rs.contains(#[trigger] b[m]) || (b[m]
        == synth_dir(b[m].path) && b[m].is_dir) by {
        if m < rs.len() {
            assert(b[m] == rs[m]);
        } else {
            assert(b[m] == w.0[m - rs.len()]);
        }
    }
    assert forall|k: int, j: int|
        #![trigger b[k].path.take(j + 1)]
        0 <= k < b.len() && !b[k].is_dir && 0 <= j && j + 1 < b[k].path.len() && b[k].path[j]
            == '/' implies exists|m: int|
        0 <= m < b.len() && (#[trigger] b[m]).path == b[k].path.take(j + 1) && (b[m].is_dir
            || ends_slash(b[m].path)) by {
        if k < rs.len() {
            assert(b[k] == rs[k]);
            assert(w.1.contains(rs[k].path.take(j + 1)));
            let a = rs[k].path.take(j + 1);
            if kzero.contains(a) {
                assert(known_dir0(rs, a));
                let m = choose|m: int|
                    0 <= m < rs.len() && (#[trigger] rs[m]).path == a && (rs[m].is_dir
                        || ends_slash(rs[m].path));
                assert(b[m] == rs[m]);
                assert(0 <= m < b.len() && b[m].path == a && (b[m].is_dir || ends_slash(
                    b[m].path,
                )));
            } else {
                assert(item_path_in(w.0, a));
                let m = choose|m: int| 0 <= m < w.0.len() && w.0[m].path == a;
                assert(b[rs.len() + m] == w.0[m]);
                assert(w.0[m] == synth_dir(w.0[m].path));
                assert(0 <= rs.len() + m < b.len() && b[rs.len() + m].path == a && b[rs.len()
                    + m].is_dir);
            }
        } else {
            assert(b[k] == w.0[k - rs.len()]);
            assert(b[k].is_dir);
        }
    }
}

/// A pattern found in a prefix is found in the whole; so a path whose
/// proper prefixes include a noise path is itself noise.
pub proof fn lemma_noise_prefix(a: Seq<char>, q: Seq<char>)
    requires
        0 < a.len() <= q.len(),
        a == q.take(a.len() as int),
    ensures
        is_noise(a) ==> is_noise(q),
{
    assert(forall|k: int| 0 <= k < a.len() ==> a[k] == q[k]);
    if is_noise(a) {
        if contains_seq(a, "[MESSAGES]"@) {
            lemma_contains_seq_mono(a, q, "[MESSAGES]"@);
        } else if contains_seq(a, "Errors:"@) {
            lemma_contains_seq_mono(a, q, "Errors:"@);
        } else if contains_seq(a, "Warnings:"@) {
            lemma_contains_seq_mono(a, q, "Warnings:"@);
        } else if has_prefix(a, "Scanning the drive for archives"@) {
            lemma_has_prefix_mono(a, q, "Scanning the drive for archives"@);
        } else if has_prefix(a, "7-Zip"@) {
            lemma_has_prefix_mono(a, q, "7-Zip"@);
        } else if has_prefix(a, "Listing archive:"@) {
            lemma_has_prefix_mono(a, q, "Listing archive:"@);
        } else if has_prefix(a, "----------"@) {
            lemma_has_prefix_mono(a, q, "----------"@);
        } else if has_prefix(a, "Path ="@) {
            lemma_has_prefix_mono(a, q, "Path ="@);
        } else if has_prefix(a, "Size ="@) {
            lemma_has_prefix_mono(a, q, "Size ="@);
        } else if has_prefix(a, "Folder ="@) {
            lemma_has_prefix_mono(a, q, "Folder ="@);
        } else if has_prefix(a, "Modified ="@) {
            lemma_has_prefix_mono(a, q, "Modified ="@);
        }
    }
}

/// A prefix of a prefix is a prefix of the whole sequence.
pub proof fn lemma_has_prefix_mono(a: Seq<char>, q: Seq<char>, pat: Seq<char>)
    requires
        a.len() <= q.len(),
        forall|k: int| 0 <= k < a.len() ==> a[k] == q[k],
        has_prefix(a, pat),
    ensures
        has_prefix(q, pat),
{
    assert forall|j: int| 0 <= j < pat.len() implies q[j] == pat[j] by {
        assert(a[j] == pat[j]);
        assert(a[j] == q[j]);
    }
}

/// A pattern occurring in a prefix occurs in the whole sequence.
pub proof fn lemma_contains_seq_mono(a: Seq<char>, q: Seq<char>, pat: Seq<char>)
    requires
        a.len() <= q.len(),
        forall|k: int| 0 <= k < a.len() ==> a[k] == q[k],
        contains_seq(a, pat),
    ensures
        contains_seq(q, pat),
{
    let i = choose|i: int| match_at(a, pat, i);
    assert forall|j: int| 0 <= j < pat.len() implies q[i + j] == pat[j] by {
        assert(a[i + j] == pat[j]);
    }
    assert(match_at(q, pat, i));
}

/// Whether some string of `ss` spells the path `p`.
pub open spec fn strs_has(ss: Seq<String>, p: Seq<char>) -> bool {
    exists|j: int| 0 <= j < ss.len() && ss[j]@ == p
}

/// Whether the string ends in `/`.
fn string_ends_slash(s: &String) -> (r: bool)
    ensures
        r == ends_slash(s@),
{
    let n: usize = s.as_str().unicode_len();
    if n == 0 {
        false
    } else {
        s.as_str().get_char(n - 1) == '/'
    }
}

/// Whether the path spelled by `p` is among the known strings.
#[verifier::loop_isolation(false)]
fn known_has(known: &Vec<String>, p: &String) -> (r: bool)
    ensures
        r == strs_has(known@, p@),
{
    let mut j: usize = 0;
    while j < known.len()
        invariant
            j <= known@.len(),
            forall|k: int| 0 <= k < j ==> known@[k]@ != p@,
        decreases known@.len() - j,
    {
        if known[j] == *p {
            return true;
        }
        j = j + 1;
    }
    false
}

/// Ancestor back-fill over a vector of records: appends a directory
/// record for every missing ancestor of every file record.
#[verifier::loop_isolation(false)]
fn backfill_stage(items: Vec<FileItem>) -> (r: Vec<FileItem>)
    ensures
        items_model(r@) == backfill(items_model(items@)),
{
    let ghost orig: Seq<ItemModel> = items_model(items@);
    let ghost kzero: Set<Seq<char>> = known0_set(orig);
    let mut known: Vec<String> = Vec::new();
    let mut i: usize = 0;
    while i < items.len()
        invariant
            i <= items@.len(),
            forall|p: Seq<char>|
                #[trigger] strs_has(known@, p) <==> known_dir0(orig.take(i as int), p),
        decreases items@.len() - i,
    {
        let ghost oldknown: Seq<String> = known@;
        let dirlike: bool = items[i].is_dir || string_ends_slash(&items[i].name);
        proof {
            assert(orig[i as int] == items@[i as int]@);
            assert(dirlike == (orig[i as int].is_dir || ends_slash(orig[i as int].path)));
        }
        if dirlike {
            known.push(items[i].name.clone());
        }
        proof {
            assert forall|p: Seq<char>| #[trigger] strs_has(known@, p) implies known_dir0(
                orig.take(i + 1),
                p,
            ) by {
                let j = choose|j: int| 0 <= j < known@.len() && known@[j]@ == p;
                if j < oldknown.len() {
                    assert(oldknown[j]@ == p);
                    assert(strs_has(oldknown, p));
                    let k = choose|k: int|
                        0 <= k < orig.take(i as int).len() && orig.take(i as int)[k].path == p
                            && (orig.take(i as int)[k].is_dir || ends_slash(
                            orig.take(i as int)[k].path,
                        ));
                    assert(orig.take(i + 1)[k] == orig[k]);
                    assert(known_dir0(orig.take(i + 1), p));
                } else {
                    assert(known@[j]@ == orig[i as int].path);
                    assert(orig.take(i + 1)[i as int] == orig[i as int]);
                    assert(known_dir0(orig.take(i + 1), p));
                }
            }
            assert forall|p: Seq<char>| known_dir0(orig.take(i + 1), p) implies #[trigger]
                strs_has(known@, p) by {
                let k = choose|k: int|
                    0 <= k < orig.take(i + 1).len() && (#[trigger] orig.take(i + 1)[k]).path == p
                        && (orig.take(i + 1)[k].is_dir || ends_slash(orig.take(i + 1)[k].path));
                assert(orig.take(i + 1)[k] == orig[k]);
                if k < i {
                    assert(orig.take(i as int)[k] == orig[k]);
                    assert(known_dir0(orig.take(i as int), p));
                    assert(strs_has(oldknown, p));
                    let j = choose|j: int| 0 <= j < oldknown.len() && oldknown[j]@ == p;
                    assert(known@[j]@ == p);
                } else {
                    assert(dirlike);
                    assert(known@[known@.len() - 1]@ == p);
                }
            }
        }
        i = i + 1;
    }
    proof {
        assert(orig.take(orig.len() as int) =~= orig);
        assert forall|p: Seq<char>| #[trigger] strs_has(known@, p) <==> kzero.contains(p) by {
            assert(strs_has(known@, p) <==> known_dir0(orig, p));
        }
    }
    let mut adds: Vec<FileItem> = Vec::new();
    let ghost mut kset: Set<Seq<char>> = kzero;
    let mut f: usize = 0;
    proof {
        assert(orig.take(0) =~= Seq::<ItemModel>::empty());
    }
    while f < items.len()
        invariant
            f <= items@.len(),
            items_model(adds@) == backfill_walk(orig.take(f as int), kzero).0,
            kset == backfill_walk(orig.take(f as int), kzero).1,
            forall|p: Seq<char>| #[trigger] strs_has(known@, p) <==> kset.contains(p),
        decreases items@.len() - f,
    {
        proof {
            assert(orig.take(f + 1).drop_last() =~= orig.take(f as int));
            assert(orig.take(f + 1).last() == orig[f as int]);
            assert(orig[f as int] == items@[f as int]@);
        }
        if !items[f].is_dir {
            let pc: Vec<char> = str_to_chars(items[f].name.as_str());
            proof {
                assert(pc@ == orig[f as int].path);
            }
            let ghost kenter: Set<Seq<char>> = kset;
            let ghost wfull: (Seq<ItemModel>, Set<Seq<char>>) = walk_ancestors(
                pc@,
                pc@.len() - 2,
                kenter,
            );
            let ghost sdone0: Seq<ItemModel> = items_model(adds@);
            let mut ii: usize = if pc.len() > 0 {
                pc.len() - 1
            } else {
                0
            };
            proof {
                assert(items_model(adds@).skip(sdone0.len() as int) =~= Seq::<
                    ItemModel,
                >::empty());
                assert(sdone0 =~= items_model(adds@).take(sdone0.len() as int));
            }
            while ii > 0
                invariant
                    ii <= pc@.len(),
                    ii == 0 || ii + 1 <= pc@.len(),
                    items_model(adds@).len() >= sdone0.len(),
                    sdone0 == items_model(adds@).take(sdone0.len() as int),
                    wfull.0 == items_model(adds@).skip(sdone0.len() as int) + walk_ancestors(
                        pc@,
                        ii as int - 1,
                        kset,
                    ).0,
                    wfull.1 == walk_ancestors(pc@, ii as int - 1, kset).1,
                    forall|p: Seq<char>| #[trigger] strs_has(known@, p) <==> kset.contains(p),
                decreases ii,
            {
                ii = ii - 1;
                if pc[ii] == '/' {
                    let prefix: Vec<char> = subrange_vec(&pc, 0, ii + 1);
                    let ps: String = chars_to_string(&prefix);
                    proof {
                        assert(ps@ == pc@.take(ii + 1));
                    }
                    let have: bool = known_has(&known, &ps);
                    if !have {
                        let ghost oldknown: Seq<String> = known@;
                        let ghost oldadds: Seq<ItemModel> = items_model(adds@);
                        let item: FileItem = FileItem {
                            name: ps.clone(),
                            is_dir: true,
                            size: 0,
                            modified_date: String::new(),
                            type_label: String::from_str("文件夹"),
                        };
                        known.push(ps);
                        adds.push(item);
                        proof {
                            assert(item@ == synth_dir(pc@.take(ii + 1)));
                            let oldkset = kset;
                            kset = kset.insert(pc@.take(ii + 1));
                            assert forall|p: Seq<char>| #[trigger] strs_has(known@, p) implies
                                kset.contains(p) by {
                                let j = choose|j: int| 0 <= j < known@.len() && known@[j]@ == p;
                                if j < oldknown.len() {
                                    assert(oldknown[j]@ == p);
                                    assert(strs_has(oldknown, p));
                                } else {
                                    assert(known@[j]@ == pc@.take(ii + 1));
                                }
                            }
                            assert forall|p: Seq<char>| kset.contains(p) implies #[trigger]
                                strs_has(known@, p) by {
                                if oldkset.contains(p) {
                                    assert(strs_has(oldknown, p));
                                    let j = choose|j: int|
                                        0 <= j < oldknown.len() && oldknown[j]@ == p;
                                    assert(known@[j]@ == p);
                                } else {
                                    assert(p == pc@.take(ii + 1));
                                    assert(known@[known@.len() - 1]@ == p);
                                }
                            }
                            assert(items_model(adds@) =~= oldadds.push(item@));
                            assert(items_model(adds@).take(sdone0.len() as int) =~= sdone0);
                            assert(items_model(adds@).skip(sdone0.len() as int) =~= oldadds.skip(
                                sdone0.len() as int,
                            ) + seq![item@]);
                            assert(walk_ancestors(pc@, ii as int, oldkset).0 == seq![
                                synth_dir(pc@.take(ii + 1)),
                            ] + walk_ancestors(pc@, ii as int - 1, kset).0);
                            assert(wfull.0 == oldadds.skip(sdone0.len() as int) + (seq![item@]
                                + walk_ancestors(pc@, ii as int - 1, kset).0));
                            assert(oldadds.skip(sdone0.len() as int) + (seq![item@]
                                + walk_ancestors(pc@, ii as int - 1, kset).0) =~= (oldadds.skip(
                                sdone0.len() as int,
                            ) + seq![item@]) + walk_ancestors(pc@, ii as int - 1, kset).0);
                        }
                    } else {
                        proof {
                            assert(kset.contains(pc@.take(ii + 1)));
                        }
                    }
                } else {
                    proof {
                        assert(walk_ancestors(pc@, ii as int, kset) == walk_ancestors(
                            pc@,
                            ii as int - 1,
                            kset,
                        ));
                    }
                }
            }
            proof {
                assert(wfull.0 =~= items_model(adds@).skip(sdone0.len() as int));
                assert(items_model(adds@) =~= sdone0 + wfull.0);
                assert(backfill_walk(orig.take(f + 1), kzero).0 == sdone0 + wfull.0);
                assert(backfill_walk(orig.take(f + 1), kzero).1 == wfull.1);
            }
        } else {
            proof {
                assert(items_model(adds@) =~= items_model(adds@) + Seq::<ItemModel>::empty());
            }
        }
        f = f + 1;
    }
    proof {
        assert(orig.take(orig.len() as int) =~= orig);
    }
    let mut out: Vec<FileItem> = items;
    let ghost outbase: Seq<ItemModel> = items_model(out@);
    let ghost addsm: Seq<ItemModel> = items_model(adds@);
    out.append(&mut adds);
    proof {
        assert forall|k: int| 0 <= k < items_model(out@).len() implies #[trigger] items_model(
            out@,
        )[k] == (outbase + addsm)[k] by {
            if k < outbase.len() {
                assert(out@[k] == out@[k]);
                assert(items_model(out@)[k] == out@[k]@);
            } else {
                assert(items_model(out@)[k] == out@[k]@);
            }
        }
        assert(items_model(out@) =~= outbase + addsm);
        assert(items_model(out@) =~= backfill(orig));
    }
    out
}

/// Path normalization over a vector of entries.
#[verifier::loop_isolation(false)]
fn normalize_stage(entries: Vec<RawEntry>) -> (r: Vec<RawEntry>)
    ensures
        entry_models(r@) == normalize_entries(entry_models(entries@)),
{
    let ghost orig: Seq<EntryModel> = entry_models(entries@);
    let mut src: Vec<RawEntry> = entries;
    let mut out: Vec<RawEntry> = Vec::new();
    proof {
        assert(entry_models(src@) =~= orig.skip(0));
    }
    while src.len() > 0
        invariant
            src@.len() <= orig.len(),
            entry_models(src@) == orig.skip(orig.len() - src@.len()),
            entry_models(out@).len() == orig.len() - src@.len(),
            forall|k: int|
                0 <= k < orig.len() - src@.len() ==> entry_models(out@)[k] == normalize_entry(
                    orig[k],
                ),
        decreases src@.len(),
    {
        let ghost done: int = orig.len() - src@.len();
        let ghost oldsrc: Seq<RawEntry> = src@;
        let e: RawEntry = src.remove(0);
        proof {
            assert(entry_models(oldsrc)[0] == oldsrc[0]@);
            assert(orig.skip(done)[0] == orig[done]);
            assert(src@ =~= oldsrc.drop_first());
            assert forall|k: int| 0 <= k < src@.len() implies #[trigger] entry_models(src@)[k]
                == orig.skip(done + 1)[k] by {
                assert(src@[k] == oldsrc[k + 1]);
                assert(entry_models(oldsrc)[k + 1] == oldsrc[k + 1]@);
                assert(orig.skip(done)[k + 1] == orig[done + 1 + k]);
                assert(orig.skip(done + 1)[k] == orig[done + 1 + k]);
            }
            assert(entry_models(src@) =~= orig.skip(done + 1));
        }
        let pc: Vec<char> = str_to_chars(e.path.as_str());
        let nc: Vec<char> = normalize_chars(&pc);
        let ne: RawEntry = RawEntry {
            path: chars_to_string(&nc),
            is_dir: e.is_dir,
            size: e.size,
            modified: e.modified,
        };
        let ghost oldout: Seq<EntryModel> = entry_models(out@);
        out.push(ne);
        proof {
            assert(entry_models(out@) =~= oldout.push(ne@));
            assert(ne@ == normalize_entry(orig[done]));
        }
    }
    proof {
        assert(entry_models(out@) =~= normalize_entries(orig));
    }
    out
}

/// Whether some already-kept record carries this path.
#[verifier::loop_isolation(false)]
fn path_seen(out: &Vec<RawEntry>, path: &String) -> (r: bool)
    ensures
        r == entry_path_in(entry_models(out@), path@),
{
    let mut j: usize = 0;
    while j < out.len()
        invariant
            j <= out@.len(),
            forall|k: int| 0 <= k < j ==> entry_models(out@)[k].path != path@,
        decreases out@.len() - j,
    {
        if out[j].path == *path {
            proof {
                assert(entry_models(out@)[j as int].path == path@);
            }
            return true;
        }
        proof {
            assert(entry_models(out@)[j as int] == out@[j as int]@);
        }
        j = j + 1;
    }
    false
}

/// First-seen-wins deduplication over a vector of entries.
#[verifier::loop_isolation(false)]
fn dedup_stage(entries: Vec<RawEntry>) -> (r: Vec<RawEntry>)
    ensures
        entry_models(r@) == dedup_entries(entry_models(entries@)),
{
    let ghost orig: Seq<EntryModel> = entry_models(entries@);
    let mut src: Vec<RawEntry> = entries;
    let mut out: Vec<RawEntry> = Vec::new();
    proof {
        assert(entry_models(src@) =~= orig.skip(0));
        assert(orig.take(0) =~= Seq::<EntryModel>::empty());
    }
    while src.len() > 0
        invariant
            src@.len() <= orig.len(),
            entry_models(src@) == orig.skip(orig.len() - src@.len()),
            entry_models(out@) == dedup_entries(orig.take(orig.len() - src@.len())),
        decreases src@.len(),
    {
        let ghost done: int = orig.len() - src@.len();
        let ghost oldsrc: Seq<RawEntry> = src@;
        let e: RawEntry = src.remove(0);
        proof {
            assert(entry_models(oldsrc)[0] == oldsrc[0]@);
            assert(orig.skip(done)[0] == orig[done]);
            assert(e@ == orig[done]);
            assert(src@ =~= oldsrc.drop_first());
            assert forall|k: int| 0 <= k < src@.len() implies #[trigger] entry_models(src@)[k]
                == orig.skip(done + 1)[k] by {
                assert(src@[k] == oldsrc[k + 1]);
                assert(entry_models(oldsrc)[k + 1] == oldsrc[k + 1]@);
                assert(orig.skip(done)[k + 1] == orig[done + 1 + k]);
                assert(orig.skip(done + 1)[k] == orig[done + 1 + k]);
            }
            assert(entry_models(src@) =~= orig.skip(done + 1));
            assert(orig.take(done + 1).drop_last() =~= orig.take(done));
            assert(orig.take(done + 1).last() == orig[done]);
            lemma_dedup_props(orig.take(done));
        }
        let seen: bool = path_seen(&out, &e.path);
        if !seen {
            let ghost oldout: Seq<EntryModel> = entry_models(out@);
            out.push(e);
            proof {
                assert(entry_models(out@) =~= oldout.push(orig[done]));
            }
        }
    }
    proof {
        assert(orig.take(orig.len() as int) =~= orig);
    }
    out
}

/// Classification over a vector of entries: attach the type label.
#[verifier::loop_isolation(false)]
fn classify_stage(entries: Vec<RawEntry>) -> (r: Vec<FileItem>)
    ensures
        items_model(r@) == classify_entries(entry_models(entries@)),
{
    let ghost orig: Seq<EntryModel> = entry_models(entries@);
    let mut src: Vec<RawEntry> = entries;
    let mut out: Vec<FileItem> = Vec::new();
    proof {
        assert(entry_models(src@) =~= orig.skip(0));
    }
    while src.len() > 0
        invariant
            src@.len() <= orig.len(),
            entry_models(src@) == orig.skip(orig.len() - src@.len()),
            items_model(out@).len() == orig.len() - src@.len(),
            forall|k: int|
                0 <= k < orig.len() - src@.len() ==> items_model(out@)[k] == classify_entry(
                    orig[k],
                ),
        decreases src@.len(),
    {
        let ghost done: int = orig.len() - src@.len();
        let ghost oldsrc: Seq<RawEntry> = src@;
        let e: RawEntry = src.remove(0);
        proof {
            assert(entry_models(oldsrc)[0] == oldsrc[0]@);
            assert(orig.skip(done)[0] == orig[done]);
            assert(e@ == orig[done]);
            assert(src@ =~= oldsrc.drop_first());
            assert forall|k: int| 0 <= k < src@.len() implies #[trigger] entry_models(src@)[k]
                == orig.skip(done + 1)[k] by {
                assert(src@[k] == oldsrc[k + 1]);
                assert(entry_models(oldsrc)[k + 1] == oldsrc[k + 1]@);
                assert(orig.skip(done)[k + 1] == orig[done + 1 + k]);
                assert(orig.skip(done + 1)[k] == orig[done + 1 + k]);
            }
            assert(entry_models(src@) =~= orig.skip(done + 1));
        }
        let pc: Vec<char> = str_to_chars(e.path.as_str());
        let label: String = label_for(&pc, e.is_dir);
        let item: FileItem = FileItem {
            name: e.path,
            is_dir: e.is_dir,
            size: if e.is_dir {
                0
            } else {
                e.size
            },
            modified_date: e.modified,
            type_label: label,
        };
        let ghost oldout: Seq<ItemModel> = items_model(out@);
        out.push(item);
        proof {
            assert(items_model(out@) =~= oldout.push(item@));
            assert(item@ == classify_entry(orig[done]));
        }
    }
    proof {
        assert(items_model(out@) =~= classify_entries(orig));
    }
    out
}

/// Whether this path is a non-entry artifact.
fn is_noise_exec(p: &Vec<char>) -> (r: bool)
    ensures
        r == is_noise(p@),
{
    if p.len() == 0 {
        return true;
    }
    if contains_lit(p, "[MESSAGES]") || contains_lit(p, "Errors:") || contains_lit(
        p,
        "Warnings:",
    ) {
        return true;
    }
    if starts_with_lit(p, "Scanning the drive for archives") || starts_with_lit(p, "7-Zip")
        || starts_with_lit(p, "Listing archive:") || starts_with_lit(p, "----------") {
        return true;
    }
    if starts_with_lit(p, "Path =") || starts_with_lit(p, "Size =") || starts_with_lit(
        p,
        "Folder =",
    ) || starts_with_lit(p, "Modified =") {
        return true;
    }
    false
}

/// Noise filtering over a vector of records.
#[verifier::loop_isolation(false)]
fn denoise_stage(items: Vec<FileItem>) -> (r: Vec<FileItem>)
    ensures
        items_model(r@) == denoise(items_model(items@)),
{
    let ghost orig: Seq<ItemModel> = items_model(items@);
    let mut src: Vec<FileItem> = items;
    let mut out: Vec<FileItem> = Vec::new();
    proof {
        assert(items_model(src@) =~= orig.skip(0));
        assert(orig.take(0) =~= Seq::<ItemModel>::empty());
    }
    while src.len() > 0
        invariant
            src@.len() <= orig.len(),
            items_model(src@) == orig.skip(orig.len() - src@.len()),
            items_model(out@) == denoise(orig.take(orig.len() - src@.len())),
        decreases src@.len(),
    {
        let ghost done: int = orig.len() - src@.len();
        let ghost oldsrc: Seq<FileItem> = src@;
        let it: FileItem = src.remove(0);
        proof {
            assert(items_model(oldsrc)[0] == oldsrc[0]@);
            assert(orig.skip(done)[0] == orig[done]);
            assert(it@ == orig[done]);
            assert(src@ =~= oldsrc.drop_first());
            assert forall|k: int| 0 <= k < src@.len() implies #[trigger] items_model(src@)[k]
                == orig.skip(done + 1)[k] by {
                assert(src@[k] == oldsrc[k + 1]);
                assert(items_model(oldsrc)[k + 1] == oldsrc[k + 1]@);
                assert(orig.skip(done)[k + 1] == orig[done + 1 + k]);
                assert(orig.skip(done + 1)[k] == orig[done + 1 + k]);
            }
            assert(items_model(src@) =~= orig.skip(done + 1));
            assert(orig.take(done + 1).drop_last() =~= orig.take(done));
            assert(orig.take(done + 1).last() == orig[done]);
        }
        let pc: Vec<char> = str_to_chars(it.name.as_str());
        let noisy: bool = is_noise_exec(&pc);
        if !noisy {
            let ghost oldout: Seq<ItemModel> = items_model(out@);
            out.push(it);
            proof {
                assert(items_model(out@) =~= oldout.push(orig[done]));
            }
        }
    }
    proof {
        assert(orig.take(orig.len() as int) =~= orig);
    }
    out
}

/// The complete reconstruction: path normalization, first-seen-wins
/// deduplication, type classification, ancestor back-fill, noise
/// filtering, and deterministic ordering, in that order.
pub open spec fn reconstruct_model(es: Seq<EntryModel>) -> Seq<ItemModel> {
    sort_items(denoise(backfill(classify_entries(dedup_entries(normalize_entries(es))))))
}

/// Turns the flat record sequence from the parser into the final cleaned,
/// back-filled, classified and ordered record sequence.
pub fn reconstruct(entries: Vec<RawEntry>) -> (r: Vec<FileItem>)
    ensures
        items_model(r@) == reconstruct_model(entry_models(entries@)),
{
    let normalized: Vec<RawEntry> = normalize_stage(entries);
    let unique: Vec<RawEntry> = dedup_stage(normalized);
    let labelled: Vec<FileItem> = classify_stage(unique);
    let filled: Vec<FileItem> = backfill_stage(labelled);
    let clean: Vec<FileItem> = denoise_stage(filled);
    sort_file_items(clean)
}

} // verus!
