//! Deterministic ordering of the output records.
//!
//! Directory records sort before file records; within the same kind the
//! order is strict lexicographic comparison of the paths by code point.
//! The sort is specified as a stable insertion sort, so the ordered
//! sequence is pinned down exactly.

use vstd::prelude::*;
use crate::chars::str_to_chars;
use crate::file_item::{FileItem, ItemModel, items_model, item_path_in, nodup_paths};

verus! {

broadcast use vstd::utf8::char_u32_cast;

/// Strict lexicographic order on character sequences, by code point.
pub open spec fn lex_lt(a: Seq<char>, b: Seq<char>) -> bool
    decreases a.len(),
{
    if b.len() == 0 {
        false
    } else if a.len() == 0 {
        true
    } else if (a[0] as u32) < (b[0] as u32) {
        true
    } else if (b[0] as u32) < (a[0] as u32) {
        false
    } else {
        lex_lt(a.drop_first(), b.drop_first())
    }
}

/// The order is asymmetric.
pub proof fn lemma_lex_lt_asym(a: Seq<char>, b: Seq<char>)
    ensures
        lex_lt(a, b) ==> !lex_lt(b, a),
    decreases a.len(),
{
    if a.len() > 0 && b.len() > 0 && a[0] as u32 == b[0] as u32 {
        lemma_lex_lt_asym(a.drop_first(), b.drop_first());
    }
}

/// Two sequences that neither order below the other are equal.
pub proof fn lemma_lex_lt_connected(a: Seq<char>, b: Seq<char>)
    ensures
        !lex_lt(a, b) && !lex_lt(b, a) ==> a == b,
    decreases a.len(),
{
    if !lex_lt(a, b) && !lex_lt(b, a) {
        if a.len() > 0 && b.len() > 0 {
            assert(a[0] as u32 == b[0] as u32);
            vstd::utf8::char_u32_cast(a[0], a[0] as u32);
            vstd::utf8::char_u32_cast(b[0], b[0] as u32);
            assert(a[0] == b[0]);
            lemma_lex_lt_connected(a.drop_first(), b.drop_first());
            assert forall|i: int| 0 <= i < a.len() implies a[i] == b[i] by {
                if i > 0 {
                    assert(a.drop_first()[i - 1] == b.drop_first()[i - 1]);
                }
            }
            assert(a =~= b);
        }
    }
}

/// The order is transitive.
pub proof fn lemma_lex_lt_trans(a: Seq<char>, b: Seq<char>, c: Seq<char>)
    ensures
        lex_lt(a, b) && lex_lt(b, c) ==> lex_lt(a, c),
    decreases a.len(),
{
    if lex_lt(a, b) && lex_lt(b, c) {
        if a.len() > 0 && b.len() > 0 && c.len() > 0 {
            if a[0] as u32 == b[0] as u32 && b[0] as u32 == c[0] as u32 {
                lemma_lex_lt_trans(a.drop_first(), b.drop_first(), c.drop_first());
            }
        }
    }
}

/// When the first `i` characters agree, the order is decided by the rest.
pub proof fn lemma_lex_lt_skip(a: Seq<char>, b: Seq<char>, i: int)
    requires
        0 <= i <= a.len(),
        i <= b.len(),
        forall|k: int| 0 <= k < i ==> a[k] == b[k],
    ensures
        lex_lt(a, b) == lex_lt(a.skip(i), b.skip(i)),
    decreases i,
{
    if i > 0 {
        assert(a.len() > 0 && b.len() > 0);
        assert(a[0] == b[0]);
        assert(forall|k: int|
            0 <= k < i - 1 ==> #[trigger] a.drop_first()[k] == b.drop_first()[k]);
        lemma_lex_lt_skip(a.drop_first(), b.drop_first(), i - 1);
        assert(a.drop_first().skip(i - 1) =~= a.skip(i));
        assert(b.drop_first().skip(i - 1) =~= b.skip(i));
    } else {
        assert(a.skip(0) =~= a);
        assert(b.skip(0) =~= b);
    }
}

/// Whether the characters of `x` order strictly below those of `y`.
#[verifier::loop_isolation(false)]
pub fn lex_lt_chars(x: &Vec<char>, y: &Vec<char>) -> (r: bool)
    ensures
        r == lex_lt(x@, y@),
{
    let mut i: usize = 0;
    while i < x.len() && i < y.len() && x[i] == y[i]
        invariant
            i <= x@.len(),
            i <= y@.len(),
            forall|k: int| 0 <= k < i ==> x@[k] == y@[k],
        decreases x@.len() - i,
    {
        i = i + 1;
    }
    proof {
        lemma_lex_lt_skip(x@, y@, i as int);
    }
    if i == x.len() {
        proof {
            assert(x@.skip(i as int) =~= Seq::<char>::empty());
        }
        return i < y.len();
    }
    if i == y.len() {
        proof {
            assert(y@.skip(i as int) =~= Seq::<char>::empty());
        }
        return false;
    }
    proof {
        assert(x@.skip(i as int)[0] == x@[i as int]);
        assert(y@.skip(i as int)[0] == y@[i as int]);
        vstd::utf8::char_u32_cast(x@[i as int], x@[i as int] as u32);
        vstd::utf8::char_u32_cast(y@[i as int], y@[i as int] as u32);
    }
    (x[i] as u32) < (y[i] as u32)
}

/// The output order: directories before files, then paths lexicographically.
pub open spec fn item_lt(a: ItemModel, b: ItemModel) -> bool {
    (a.is_dir && !b.is_dir) || (a.is_dir == b.is_dir && lex_lt(a.path, b.path))
}

/// The record order is asymmetric and transitive.
pub proof fn lemma_item_lt_order(a: ItemModel, b: ItemModel, c: ItemModel)
    ensures
        item_lt(a, b) ==> !item_lt(b, a),
        item_lt(a, b) && item_lt(b, c) ==> item_lt(a, c),
{
    lemma_lex_lt_asym(a.path, b.path);
    lemma_lex_lt_trans(a.path, b.path, c.path);
}

/// Whether record `a` orders strictly below record `b`.
pub fn item_lt_exec(a: &FileItem, b: &FileItem) -> (r: bool)
    ensures
        r == item_lt(a@, b@),
{
    if a.is_dir != b.is_dir {
        return a.is_dir;
    }
    let ac: Vec<char> = str_to_chars(a.name.as_str());
    let bc: Vec<char> = str_to_chars(b.name.as_str());
    lex_lt_chars(&ac, &bc)
}

/// No pair of positions is out of order.
pub open spec fn sorted_items(s: Seq<ItemModel>) -> bool {
    forall|i: int, j: int| 0 <= i < j < s.len() ==> !item_lt(s[j], s[i])
}

/// Stable insertion of a record into a sequence: the record goes in front
/// of the first element it orders strictly below.
pub open spec fn insert_sorted(x: ItemModel, s: Seq<ItemModel>) -> Seq<ItemModel>
    decreases s.len(),
{
    if s.len() == 0 {
        seq![x]
    } else if item_lt(x, s[0]) {
        seq![x] + s
    } else {
        seq![s[0]] + insert_sorted(x, s.drop_first())
    }
}

/// Insertion sort of a record sequence.
pub open spec fn sort_items(s: Seq<ItemModel>) -> Seq<ItemModel>
    decreases s.len(),
{
    if s.len() == 0 {
        Seq::<ItemModel>::empty()
    } else {
        insert_sorted(s.last(), sort_items(s.drop_last()))
    }
}

/// Where the insertion lands: before the first element that the inserted
/// record orders strictly below.
pub proof fn lemma_insert_sorted_at(x: ItemModel, s: Seq<ItemModel>, j: int)
    requires
        0 <= j <= s.len(),
        forall|k: int| 0 <= k < j ==> !item_lt(x, s[k]),
        j < s.len() ==> item_lt(x, s[j]),
    ensures
        insert_sorted(x, s) == s.take(j) + seq![x] + s.skip(j),
    decreases j,
{
    if j == 0 {
        assert(s.take(0) =~= Seq::<ItemModel>::empty());
        assert(s.skip(0) =~= s);
        assert(insert_sorted(x, s) =~= s.take(0) + seq![x] + s.skip(0));
    } else {
        let t = s.drop_first();
        assert(forall|k: int| 0 <= k < j - 1 ==> #[trigger] t[k] == s[k + 1]);
        lemma_insert_sorted_at(x, t, j - 1);
        assert(seq![s[0]] + (t.take(j - 1) + seq![x] + t.skip(j - 1)) =~= s.take(j) + seq![x]
            + s.skip(j));
    }
}

/// Inserting keeps the records, adds the new one, and keeps sortedness
/// and path distinctness.
pub proof fn lemma_insert_sorted_props(x: ItemModel, s: Seq<ItemModel>)
    ensures
        insert_sorted(x, s).len() == s.len() + 1,
        forall|y: ItemModel|
            #[trigger] insert_sorted(x, s).contains(y) <==> (y == x || s.contains(y)),
        sorted_items(s) ==> sorted_items(insert_sorted(x, s)),
        forall|p: Seq<char>|
            #[trigger] item_path_in(insert_sorted(x, s), p) <==> (p == x.path || item_path_in(
                s,
                p,
            )),
        nodup_paths(s) && !item_path_in(s, x.path) ==> nodup_paths(insert_sorted(x, s)),
{
    lemma_insert_sorted_props_core(x, s);
    let r0 = insert_sorted(x, s);
    assert forall|p: Seq<char>| #[trigger] item_path_in(r0, p) implies (p == x.path
        || item_path_in(s, p)) by {
        let k = choose|k: int| 0 <= k < r0.len() && r0[k].path == p;
        assert(r0.contains(r0[k]));
        if r0[k] == x {
        } else {
            assert(s.contains(r0[k]));
            let m = choose|m: int| 0 <= m < s.len() && s[m] == r0[k];
            assert(s[m].path == p);
        }
    }
    assert forall|p: Seq<char>| p == x.path || item_path_in(s, p) implies #[trigger] item_path_in(
        r0,
        p,
    ) by {
        if p == x.path {
            assert(r0.contains(x));
            let m = choose|m: int| 0 <= m < r0.len() && r0[m] == x;
            assert(r0[m].path == p);
        } else {
            let k = choose|k: int| 0 <= k < s.len() && s[k].path == p;
            assert(s.contains(s[k]));
            assert(r0.contains(s[k]));
            let m = choose|m: int| 0 <= m < r0.len() && r0[m] == s[k];
            assert(r0[m].path == p);
        }
    }
    if nodup_paths(s) && !item_path_in(s, x.path) {
        lemma_insert_nodup(x, s);
    }
}

/// Insertion of a fresh path keeps paths distinct.
proof fn lemma_insert_nodup(x: ItemModel, s: Seq<ItemModel>)
    requires
        nodup_paths(s),
        !item_path_in(s, x.path),
    ensures
        nodup_paths(insert_sorted(x, s)),
    decreases s.len(),
{
    let r = insert_sorted(x, s);
    if s.len() == 0 {
    } else if item_lt(x, s[0]) {
        assert forall|i: int, j: int| 0 <= i < j < r.len() implies r[i].path != r[j].path by {
            if i == 0 {
                assert(r[j] == s[j - 1]);
                assert(s[j - 1].path != x.path);
            } else {
                assert(s[i - 1].path != s[j - 1].path);
            }
        }
    } else {
        let t = s.drop_first();
        assert(forall|k: int| 0 <= k < t.len() ==> #[trigger] t[k] == s[k + 1]);
        assert forall|k: int| 0 <= k < t.len() implies #[trigger] t[k].path != x.path by {
            assert(s[k + 1].path != x.path);
        }
        lemma_insert_nodup(x, t);
        lemma_insert_sorted_props_core(x, t);
        let rt = insert_sorted(x, t);
        assert forall|i: int, j: int| 0 <= i < j < r.len() implies r[i].path != r[j].path by {
            if i == 0 {
                assert(r[j] == rt[j - 1]);
                assert(rt.contains(rt[j - 1]));
                if rt[j - 1] == x {
                    assert(s[0].path != x.path);
                } else {
                    assert(t.contains(rt[j - 1]));
                    let m = choose|m: int| 0 <= m < t.len() && t[m] == rt[j - 1];
                    assert(s[m + 1].path != s[0].path);
                }
            } else {
                assert(r[i] == rt[i - 1] && r[j] == rt[j - 1]);
                assert(rt[i - 1].path != rt[j - 1].path);
            }
        }
    }
}

/// Inserting keeps the records, adds the new one, and keeps sortedness.
proof fn lemma_insert_sorted_props_core(x: ItemModel, s: Seq<ItemModel>)
    ensures
        insert_sorted(x, s).len() == s.len() + 1,
        forall|y: ItemModel|
            #[trigger] insert_sorted(x, s).contains(y) <==> (y == x || s.contains(y)),
        sorted_items(s) ==> sorted_items(insert_sorted(x, s)),
    decreases s.len(),
{
    let r = insert_sorted(x, s);
    if s.len() == 0 {
        assert forall|y: ItemModel| #[trigger] r.contains(y) implies (y == x || s.contains(y)) by {
            let k = choose|k: int| 0 <= k < r.len() && r[k] == y;
            assert(r[0] == x);
        }
        assert(r.contains(x)) by {
            assert(r[0] == x);
        }
    } else if item_lt(x, s[0]) {
        assert(r == seq![x] + s);
        assert forall|y: ItemModel| #[trigger] r.contains(y) implies (y == x || s.contains(y)) by {
            let k = choose|k: int| 0 <= k < r.len() && r[k] == y;
            if k > 0 {
                assert(s[k - 1] == y);
            }
        }
        assert(r.contains(x)) by {
            assert(r[0] == x);
        }
        assert forall|y: ItemModel| y == x || s.contains(y) implies #[trigger] r.contains(y) by {
            if s.contains(y) {
                let k = choose|k: int| 0 <= k < s.len() && s[k] == y;
                assert(r[k + 1] == y);
            }
        }
        if sorted_items(s) {
            assert forall|i: int, j: int| 0 <= i < j < r.len() implies !item_lt(r[j], r[i]) by {
                if i == 0 {
                    assert(r[0] == x);
                    if j == 1 {
                        lemma_item_lt_order(r[j], x, x);
                    } else {
                        assert(!item_lt(s[j - 1], s[0]));
                        lemma_item_lt_order(x, s[0], s[j - 1]);
                        lemma_item_lt_order(s[j - 1], x, s[0]);
                    }
                } else {
                    assert(!item_lt(s[j - 1], s[i - 1]));
                }
            }
        }
    } else {
        let t = s.drop_first();
        lemma_insert_sorted_props_core(x, t);
        let rt = insert_sorted(x, t);
        assert(r == seq![s[0]] + rt);
        assert forall|y: ItemModel| #[trigger] r.contains(y) implies (y == x || s.contains(y)) by {
            let k = choose|k: int| 0 <= k < r.len() && r[k] == y;
            if k == 0 {
                assert(s[0] == y);
            } else {
                assert(rt[k - 1] == y);
                assert(rt.contains(y));
                if t.contains(y) {
                    let m = choose|m: int| 0 <= m < t.len() && t[m] == y;
                    assert(s[m + 1] == y);
                }
            }
        }
        assert forall|y: ItemModel| y == x || s.contains(y) implies #[trigger] r.contains(y) by {
            if y == x {
                assert(rt.contains(x));
                let m = choose|m: int| 0 <= m < rt.len() && rt[m] == x;
                assert(r[m + 1] == x);
            } else {
                let k = choose|k: int| 0 <= k < s.len() && s[k] == y;
                if k == 0 {
                    assert(r[0] == y);
                } else {
                    assert(t[k - 1] == y);
                    assert(t.contains(y));
                    assert(rt.contains(y));
                    let m = choose|m: int| 0 <= m < rt.len() && rt[m] == y;
                    assert(r[m + 1] == y);
                }
            }
        }
        if sorted_items(s) {
            assert forall|i: int, j: int| 0 <= i < j < t.len() implies !item_lt(t[j], t[i]) by {
                assert(!item_lt(s[j + 1], s[i + 1]));
            }
            assert(sorted_items(t));
            assert forall|i: int, j: int| 0 <= i < j < r.len() implies !item_lt(r[j], r[i]) by {
                if i == 0 {
                    assert(r[0] == s[0]);
                    assert(r[j] == rt[j - 1]);
                    assert(rt.contains(rt[j - 1]));
                    if rt[j - 1] == x {
                        lemma_item_lt_order(x, s[0], s[0]);
                    } else {
                        assert(t.contains(rt[j - 1]));
                        let m = choose|m: int| 0 <= m < t.len() && t[m] == rt[j - 1];
                        assert(!item_lt(s[m + 1], s[0]));
                    }
                } else {
                    assert(r[i] == rt[i - 1]);
                    assert(r[j] == rt[j - 1]);
                    assert(!item_lt(rt[j - 1], rt[i - 1]));
                }
            }
        }
    }
}

/// Sorting keeps exactly the original records — and so their paths and
/// their distinctness — and yields a sorted sequence.
pub proof fn lemma_sort_items_props(s: Seq<ItemModel>)
    ensures
        sort_items(s).len() == s.len(),
        forall|y: ItemModel| #[trigger] sort_items(s).contains(y) <==> s.contains(y),
        sorted_items(sort_items(s)),
        forall|p: Seq<char>| #[trigger] item_path_in(sort_items(s), p) <==> item_path_in(s, p),
        nodup_paths(s) ==> nodup_paths(sort_items(s)),
    decreases s.len(),
{
    if s.len() > 0 {
        let t = s.drop_last();
        lemma_sort_items_props(t);
        lemma_insert_sorted_props(s.last(), sort_items(t));
        assert forall|y: ItemModel| #[trigger] sort_items(s).contains(y) implies s.contains(y) by {
            if y == s.last() {
                assert(s[s.len() - 1] == y);
            } else {
                assert(t.contains(y));
                let k = choose|k: int| 0 <= k < t.len() && t[k] == y;
                assert(s[k] == y);
            }
        }
        assert forall|y: ItemModel| s.contains(y) implies #[trigger] sort_items(s).contains(y) by {
            let k = choose|k: int| 0 <= k < s.len() && s[k] == y;
            if k < s.len() - 1 {
                assert(t[k] == y);
                assert(t.contains(y));
            }
        }
        assert forall|p: Seq<char>| #[trigger] item_path_in(sort_items(s), p) implies item_path_in(
            s,
            p,
        ) by {
            let k = choose|k: int| 0 <= k < sort_items(s).len() && sort_items(s)[k].path == p;
            assert(sort_items(s).contains(sort_items(s)[k]));
            assert(s.contains(sort_items(s)[k]));
            let m = choose|m: int| 0 <= m < s.len() && s[m] == sort_items(s)[k];
            assert(s[m].path == p);
        }
        assert forall|p: Seq<char>| item_path_in(s, p) implies #[trigger] item_path_in(
            sort_items(s),
            p,
        ) by {
            let k = choose|k: int| 0 <= k < s.len() && s[k].path == p;
            assert(s.contains(s[k]));
            assert(sort_items(s).contains(s[k]));
            let m = choose|m: int| 0 <= m < sort_items(s).len() && sort_items(s)[m] == s[k];
            assert(sort_items(s)[m].path == p);
        }
        if nodup_paths(s) {
            assert(forall|i: int, j: int| 0 <= i < j < t.len() ==> t[i].path != t[j].path);
            assert(nodup_paths(t));
            assert(!item_path_in(t, s.last().path)) by {
                if item_path_in(t, s.last().path) {
                    let k = choose|k: int| 0 <= k < t.len() && t[k].path == s.last().path;
                    assert(s[k].path != s[s.len() - 1].path);
                }
            }
            assert(!item_path_in(sort_items(t), s.last().path));
        }
    }
}

/// Sorts the records: directories first, then lexicographically by path.
#[verifier::loop_isolation(false)]
pub fn sort_file_items(items: Vec<FileItem>) -> (r: Vec<FileItem>)
    ensures
        items_model(r@) == sort_items(items_model(items@)),
{
    let ghost orig: Seq<ItemModel> = items_model(items@);
    let mut src: Vec<FileItem> = items;
    let mut out: Vec<FileItem> = Vec::new();
    proof {
        assert(items_model(src@) =~= orig.skip(0));
        assert(orig.take(0) =~= Seq::<ItemModel>::empty());
    }
    while src.len() > 0
        invariant
            src@.len() <= orig.len(),
            items_model(src@) == orig.skip(orig.len() - src@.len()),
            items_model(out@) == sort_items(orig.take(orig.len() - src@.len())),
        decreases src@.len(),
    {
        let ghost done: int = orig.len() - src@.len();
        let ghost oldsrc: Seq<FileItem> = src@;
        let it: FileItem = src.remove(0);
        proof {
            assert(items_model(oldsrc)[0] == oldsrc[0]@);
            assert(orig.skip(done)[0] == orig[done]);
            assert(orig[done] == it@);
            assert(src@ =~= oldsrc.drop_first());
            assert forall|k: int| 0 <= k < src@.len() implies #[trigger] items_model(src@)[k]
                == orig.skip(done + 1)[k] by {
                assert(src@[k] == oldsrc[k + 1]);
                assert(items_model(oldsrc)[k + 1] == oldsrc[k + 1]@);
                assert(orig.skip(done)[k + 1] == orig[done + 1 + k]);
                assert(orig.skip(done + 1)[k] == orig[done + 1 + k]);
            }
            assert(items_model(src@) =~= orig.skip(done + 1));
        }
        let mut j: usize = 0;
        while j < out.len() && !item_lt_exec(&it, &out[j])
            invariant
                j <= out@.len(),
                forall|k: int| 0 <= k < j ==> !item_lt(it@, items_model(out@)[k]),
            decreases out@.len() - j,
        {
            j = j + 1;
        }
        proof {
            lemma_insert_sorted_at(it@, items_model(out@), j as int);
        }
        let ghost oldmodel: Seq<ItemModel> = items_model(out@);
        out.insert(j, it);
        proof {
            assert(items_model(out@) =~= oldmodel.take(j as int) + seq![it@] + oldmodel.skip(
                j as int,
            ));
            assert(orig.take(done + 1).drop_last() =~= orig.take(done));
            assert(orig.take(done + 1).last() == orig[done]);
            assert(items_model(out@) == insert_sorted(it@, sort_items(orig.take(done))));
        }
    }
    proof {
        assert(orig.take(orig.len() as int) =~= orig);
        assert(items_model(items@) == orig);
    }
    out
}

} // verus!
