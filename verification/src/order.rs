//! The order in which a directory's entries are hashed.
//!
//! Sibling paths compare by their last component, and a component compares as
//! its bytes do, lexicographically. Entries are sorted stably by that order: an
//! entry goes after every entry already placed whose name is not greater.

use vstd::prelude::*;
use vstd::utf8::encode_utf8;

verus! {

broadcast use {vstd::seq_lib::to_multiset_build, vstd::seq_lib::to_multiset_insert,
    vstd::seq_lib::to_multiset_remove, vstd::seq_lib::to_multiset_contains,
    vstd::seq_lib::to_multiset_len};

/// A directory entry as the hash sees it: the bytes of its name and the bytes
/// of its digest.
pub type EntryView = (Seq<u8>, Seq<u8>);

/// A directory entry as the library holds it: its name and its digest.
pub type ChildDigest = (String, [u8; 32]);

/// The view of an entry: its name encoded as UTF-8, and its digest.
pub open spec fn entry_view(e: ChildDigest) -> EntryView {
    (encode_utf8(e.0@), e.1@)
}

/// The views of a list of entries, in the same order.
pub open spec fn entry_views(s: Seq<ChildDigest>) -> Seq<EntryView> {
    s.map_values(|e: ChildDigest| entry_view(e))
}

/// `a` comes no later than `b` in lexicographic byte order.
pub open spec fn lex_le(a: Seq<u8>, b: Seq<u8>) -> bool
    decreases a.len(),
{
    if a.len() == 0 {
        true
    } else if b.len() == 0 {
        false
    } else if a[0] != b[0] {
        a[0] < b[0]
    } else {
        lex_le(a.drop_first(), b.drop_first())
    }
}

/// Lexicographic byte order is total.
pub proof fn lemma_lex_le_total(a: Seq<u8>, b: Seq<u8>)
    ensures
        lex_le(a, b) || lex_le(b, a),
    decreases a.len(),
{
    if a.len() > 0 && b.len() > 0 && a[0] == b[0] {
        lemma_lex_le_total(a.drop_first(), b.drop_first());
    }
}

/// Lexicographic byte order is antisymmetric: two names that each come no later
/// than the other are the same name.
pub proof fn lemma_lex_le_antisymmetric(a: Seq<u8>, b: Seq<u8>)
    requires
        lex_le(a, b),
        lex_le(b, a),
    ensures
        a == b,
    decreases a.len(),
{
    if a.len() > 0 {
        lemma_lex_le_antisymmetric(a.drop_first(), b.drop_first());
        assert(a =~= seq![a[0]] + a.drop_first());
        assert(b =~= seq![b[0]] + b.drop_first());
    } else {
        assert(a =~= b);
    }
}

/// Lexicographic byte order is transitive.
pub proof fn lemma_lex_le_transitive(a: Seq<u8>, b: Seq<u8>, c: Seq<u8>)
    requires
        lex_le(a, b),
        lex_le(b, c),
    ensures
        lex_le(a, c),
    decreases a.len(),
{
    if a.len() > 0 && a[0] == b[0] && b[0] == c[0] {
        lemma_lex_le_transitive(a.drop_first(), b.drop_first(), c.drop_first());
    }
}

/// Every name comes no later than itself.
pub proof fn lemma_lex_le_reflexive(a: Seq<u8>)
    ensures
        lex_le(a, a),
    decreases a.len(),
{
    if a.len() > 0 {
        lemma_lex_le_reflexive(a.drop_first());
    }
}

/// Where two names first differ, the one with the smaller byte there comes first.
proof fn lemma_lex_le_first_difference(a: Seq<u8>, b: Seq<u8>, k: int)
    requires
        0 <= k < a.len(),
        k < b.len(),
        forall|i: int| 0 <= i < k ==> a[i] == b[i],
        a[k] != b[k],
    ensures
        lex_le(a, b) == (a[k] < b[k]),
    decreases k,
{
    if k > 0 {
        let a1 = a.drop_first();
        let b1 = b.drop_first();
        assert forall|i: int| 0 <= i < k - 1 implies a1[i] == b1[i] by {
            assert(a[i + 1] == b[i + 1]);
        }
        assert(a[0] == b[0]);
        lemma_lex_le_first_difference(a1, b1, k - 1);
    }
}

/// A name that begins another comes first; a name that another begins, and is
/// longer, does not.
proof fn lemma_lex_le_prefix(a: Seq<u8>, b: Seq<u8>)
    requires
        forall|i: int| 0 <= i < a.len() && i < b.len() ==> a[i] == b[i],
    ensures
        lex_le(a, b) == (a.len() <= b.len()),
    decreases a.len(),
{
    if a.len() > 0 && b.len() > 0 {
        let a1 = a.drop_first();
        let b1 = b.drop_first();
        assert forall|i: int| 0 <= i < a1.len() && i < b1.len() implies a1[i] == b1[i] by {
            assert(a[i + 1] == b[i + 1]);
        }
        assert(a[0] == b[0]);
        lemma_lex_le_prefix(a1, b1);
    }
}

/// Law: `lex_le` is the plain lexicographic order on bytes. Where two names
/// first differ, the one whose byte there is smaller (as a number) comes first;
/// when one name begins the other, the shorter comes first.
pub proof fn lemma_lex_le_is_byte_order(a: Seq<u8>, b: Seq<u8>)
    ensures
        forall|k: int|
            0 <= k < a.len() && k < b.len() && (forall|i: int| 0 <= i < k ==> a[i] == b[i]) && a[k]
                != b[k] ==> (lex_le(a, b) <==> #[trigger] a[k] < b[k]),
        (forall|i: int| 0 <= i < a.len() && i < b.len() ==> a[i] == b[i]) ==> (lex_le(a, b) <==> a.len()
            <= b.len()),
{
    assert forall|k: int|
        0 <= k < a.len() && k < b.len() && (forall|i: int| 0 <= i < k ==> a[i] == b[i]) && a[k]
            != b[k] implies (lex_le(a, b) <==> #[trigger] a[k] < b[k]) by {
        lemma_lex_le_first_difference(a, b, k);
    }
    if forall|i: int| 0 <= i < a.len() && i < b.len() ==> a[i] == b[i] {
        lemma_lex_le_prefix(a, b);
    }
}

/// The entries are in ascending order of name.
pub open spec fn sorted_by_name(s: Seq<EntryView>) -> bool {
    forall|i: int, j: int| 0 <= i < j < s.len() ==> lex_le(#[trigger] s[i].0, #[trigger] s[j].0)
}

/// No two entries have the same name.
pub open spec fn distinct_names(s: Seq<EntryView>) -> bool {
    forall|i: int, j: int|
        0 <= i < s.len() && 0 <= j < s.len() && i != j ==> #[trigger] s[i].0 != #[trigger] s[j].0
}

/// Where `e` goes into `s`: after the last entry whose name is not greater than its own.
pub open spec fn insert_index(s: Seq<EntryView>, e: EntryView) -> int
    decreases s.len(),
{
    if s.len() == 0 {
        0
    } else if lex_le(s.last().0, e.0) {
        s.len() as int
    } else {
        insert_index(s.drop_last(), e)
    }
}

/// The entries of `s` sorted stably by name.
pub open spec fn sort_by_name(s: Seq<EntryView>) -> Seq<EntryView>
    decreases s.len(),
{
    if s.len() == 0 {
        s
    } else {
        let t = sort_by_name(s.drop_last());
        t.insert(insert_index(t, s.last()), s.last())
    }
}

/// The insertion point lies within the list.
pub proof fn lemma_insert_index_bounds(s: Seq<EntryView>, e: EntryView)
    ensures
        0 <= insert_index(s, e) <= s.len(),
    decreases s.len(),
{
    if s.len() > 0 {
        lemma_insert_index_bounds(s.drop_last(), e);
    }
}

/// In a sorted list, the entries before the insertion point of `e` are not greater
/// than `e`, and those from it on are greater.
proof fn lemma_insert_index(s: Seq<EntryView>, e: EntryView)
    requires
        sorted_by_name(s),
    ensures
        0 <= insert_index(s, e) <= s.len(),
        forall|k: int| 0 <= k < insert_index(s, e) ==> lex_le(#[trigger] s[k].0, e.0),
        forall|k: int| insert_index(s, e) <= k < s.len() ==> !lex_le(#[trigger] s[k].0, e.0),
    decreases s.len(),
{
    if s.len() > 0 {
        let t = s.drop_last();
        assert(sorted_by_name(t)) by {
            assert forall|i: int, j: int| 0 <= i < j < t.len() implies lex_le(
                #[trigger] t[i].0,
                #[trigger] t[j].0,
            ) by {
                assert(t[i] == s[i] && t[j] == s[j]);
            }
        }
        lemma_insert_index(t, e);
        if lex_le(s.last().0, e.0) {
            assert forall|k: int| 0 <= k < s.len() implies lex_le(#[trigger] s[k].0, e.0) by {
                if k < s.len() - 1 {
                    lemma_lex_le_transitive(s[k].0, s[s.len() - 1].0, e.0);
                }
            }
        } else {
            assert forall|k: int| 0 <= k < insert_index(s, e) implies lex_le(
                #[trigger] s[k].0,
                e.0,
            ) by {
                assert(t[k] == s[k]);
            }
            assert forall|k: int| insert_index(s, e) <= k < s.len() implies !lex_le(
                #[trigger] s[k].0,
                e.0,
            ) by {
                if k < s.len() - 1 {
                    assert(t[k] == s[k]);
                }
            }
        }
    }
}

/// Sorting puts the entries in ascending order of name, and keeps every entry
/// as many times as it occurs.
pub proof fn lemma_sort_by_name(s: Seq<EntryView>)
    ensures
        sorted_by_name(sort_by_name(s)),
        sort_by_name(s).to_multiset() == s.to_multiset(),
        sort_by_name(s).len() == s.len(),
    decreases s.len(),
{
    if s.len() > 0 {
        let x = s.last();
        let t = sort_by_name(s.drop_last());
        lemma_sort_by_name(s.drop_last());
        lemma_insert_index(t, x);
        let p = insert_index(t, x);
        let r = t.insert(p, x);
        assert(r == sort_by_name(s));
        t.insert_ensures(p, x);
        assert forall|i: int, j: int| 0 <= i < j < r.len() implies lex_le(
            #[trigger] r[i].0,
            #[trigger] r[j].0,
        ) by {
            if j < p {
                assert(r[i] == t[i] && r[j] == t[j]);
            } else if j == p {
                assert(r[i] == t[i]);
            } else if i < p {
                assert(r[i] == t[i] && r[j] == t[j - 1]);
            } else if i == p {
                assert(r[j] == t[j - 1]);
                lemma_lex_le_total(t[j - 1].0, x.0);
            } else {
                assert(r[i] == t[i - 1] && r[j] == t[j - 1]);
            }
        }
        assert(s.drop_last().push(x) =~= s);
    }
}

/// Every entry of the sorted list comes from the list, and back.
proof fn lemma_sort_contains(s: Seq<EntryView>, x: EntryView)
    ensures
        sort_by_name(s).contains(x) <==> s.contains(x),
{
    lemma_sort_by_name(s);
    assert(sort_by_name(s).to_multiset().count(x) == s.to_multiset().count(x));
}

/// Sorting a list whose names are distinct gives a list whose names are distinct.
proof fn lemma_sort_distinct(s: Seq<EntryView>)
    requires
        distinct_names(s),
    ensures
        distinct_names(sort_by_name(s)),
    decreases s.len(),
{
    if s.len() > 0 {
        let x = s.last();
        let u = s.drop_last();
        assert(distinct_names(u)) by {
            assert forall|i: int, j: int|
                0 <= i < u.len() && 0 <= j < u.len() && i != j implies #[trigger] u[i].0
                != #[trigger] u[j].0 by {
                assert(u[i] == s[i] && u[j] == s[j]);
            }
        }
        lemma_sort_distinct(u);
        let t = sort_by_name(u);
        lemma_sort_by_name(u);
        let p = insert_index(t, x);
        lemma_insert_index(t, x);
        let r = t.insert(p, x);
        t.insert_ensures(p, x);
        assert forall|k: int| 0 <= k < t.len() implies #[trigger] t[k].0 != x.0 by {
            lemma_sort_contains(u, t[k]);
            assert(t.contains(t[k]));
            let m = choose|m: int| 0 <= m < u.len() && u[m] == t[k];
            assert(s[m] == u[m]);
            assert(s[s.len() - 1] == x);
        }
        assert forall|i: int, j: int|
            0 <= i < r.len() && 0 <= j < r.len() && i != j implies #[trigger] r[i].0
            != #[trigger] r[j].0 by {
            let ti = if i < p {
                i
            } else {
                i - 1
            };
            let tj = if j < p {
                j
            } else {
                j - 1
            };
            if i != p && j != p {
                assert(r[i] == t[ti] && r[j] == t[tj]);
            } else if i == p {
                assert(r[j] == t[tj]);
            } else {
                assert(r[i] == t[ti]);
            }
        }
    }
}

/// Two lists sorted by name, each with distinct names, that hold the same entries
/// are the same list.
proof fn lemma_sorted_unique(r1: Seq<EntryView>, r2: Seq<EntryView>)
    requires
        sorted_by_name(r1),
        sorted_by_name(r2),
        distinct_names(r1),
        distinct_names(r2),
        r1.to_multiset() == r2.to_multiset(),
    ensures
        r1 == r2,
    decreases r1.len(),
{
    assert(r1.len() == r1.to_multiset().len());
    assert(r2.len() == r2.to_multiset().len());
    if r1.len() == 0 {
        assert(r1 =~= r2);
    } else {
        let a = r1[0];
        let b = r2[0];
        assert(r1.to_multiset().count(a) > 0) by {
            assert(r1.contains(a));
        }
        assert(r2.contains(a));
        let k = choose|k: int| 0 <= k < r2.len() && r2[k] == a;
        if k > 0 {
            assert(lex_le(r2[0].0, r2[k].0));
        } else {
            lemma_lex_le_reflexive(a.0);
        }
        assert(r2.to_multiset().count(b) > 0) by {
            assert(r2.contains(b));
        }
        assert(r1.contains(b));
        let m = choose|m: int| 0 <= m < r1.len() && r1[m] == b;
        if m > 0 {
            assert(lex_le(r1[0].0, r1[m].0));
        } else {
            lemma_lex_le_reflexive(a.0);
        }
        lemma_lex_le_antisymmetric(a.0, b.0);
        assert(m == 0);
        assert(a == b);
        let t1 = r1.drop_first();
        let t2 = r2.drop_first();
        assert(r1.remove(0) =~= t1);
        assert(r2.remove(0) =~= t2);
        assert(t1.to_multiset() == r1.to_multiset().remove(a));
        assert(t2.to_multiset() == r2.to_multiset().remove(b));
        assert(sorted_by_name(t1)) by {
            assert forall|i: int, j: int| 0 <= i < j < t1.len() implies lex_le(
                #[trigger] t1[i].0,
                #[trigger] t1[j].0,
            ) by {
                assert(t1[i] == r1[i + 1] && t1[j] == r1[j + 1]);
            }
        }
        assert(sorted_by_name(t2)) by {
            assert forall|i: int, j: int| 0 <= i < j < t2.len() implies lex_le(
                #[trigger] t2[i].0,
                #[trigger] t2[j].0,
            ) by {
                assert(t2[i] == r2[i + 1] && t2[j] == r2[j + 1]);
            }
        }
        assert(distinct_names(t1)) by {
            assert forall|i: int, j: int|
                0 <= i < t1.len() && 0 <= j < t1.len() && i != j implies #[trigger] t1[i].0
                != #[trigger] t1[j].0 by {
                assert(t1[i] == r1[i + 1] && t1[j] == r1[j + 1]);
            }
        }
        assert(distinct_names(t2)) by {
            assert forall|i: int, j: int|
                0 <= i < t2.len() && 0 <= j < t2.len() && i != j implies #[trigger] t2[i].0
                != #[trigger] t2[j].0 by {
                assert(t2[i] == r2[i + 1] && t2[j] == r2[j + 1]);
            }
        }
        lemma_sorted_unique(t1, t2);
        assert(r1 =~= r2) by {
            assert forall|i: int| 0 <= i < r1.len() implies r1[i] == r2[i] by {
                if i > 0 {
                    assert(r1[i] == t1[i - 1] && r2[i] == t2[i - 1]);
                }
            }
        }
    }
}

/// Law: a listing with distinct names sorts to the same list whatever order the
/// entries were listed in.
pub proof fn lemma_sort_ignores_listing_order(s1: Seq<EntryView>, s2: Seq<EntryView>)
    requires
        s1.to_multiset() == s2.to_multiset(),
        distinct_names(s1),
        distinct_names(s2),
    ensures
        sort_by_name(s1) == sort_by_name(s2),
{
    lemma_sort_by_name(s1);
    lemma_sort_by_name(s2);
    lemma_sort_distinct(s1);
    lemma_sort_distinct(s2);
    lemma_sorted_unique(sort_by_name(s1), sort_by_name(s2));
}

/// Law: a list that holds the entries of `s`, with distinct names, in ascending
/// order of name, is the sorted listing of `s`.
pub proof fn lemma_sorted_listing_is_sort_by_name(s: Seq<EntryView>, r: Seq<EntryView>)
    requires
        distinct_names(s),
        distinct_names(r),
        sorted_by_name(r),
        r.to_multiset() == s.to_multiset(),
    ensures
        r == sort_by_name(s),
{
    lemma_sort_by_name(s);
    lemma_sort_distinct(s);
    lemma_sorted_unique(r, sort_by_name(s));
}

/// `p` maps the positions `0..n` one to one onto positions `0..n`.
pub open spec fn is_permutation(p: Seq<int>, n: nat) -> bool {
    &&& p.len() == n
    &&& forall|i: int| 0 <= i < n ==> 0 <= #[trigger] p[i] < n
    &&& forall|i: int, j: int|
        0 <= i < n && 0 <= j < n && i != j ==> #[trigger] p[i] != #[trigger] p[j]
}

/// Law: a list whose entries are those of another, rearranged by a permutation,
/// holds the same entries.
pub proof fn lemma_permuted_same_multiset<A>(s1: Seq<A>, s2: Seq<A>, p: Seq<int>)
    requires
        s1.len() == s2.len(),
        is_permutation(p, s1.len()),
        forall|i: int| 0 <= i < s1.len() ==> #[trigger] s1[i] == s2[p[i]],
    ensures
        s1.to_multiset() == s2.to_multiset(),
    decreases s1.len(),
{
    broadcast use vstd::multiset::group_multiset_axioms;

    let n = s1.len() as int;
    if n == 0 {
        assert(s1 =~= s2);
    } else {
        let k = p[n - 1];
        let t1 = s1.drop_last();
        let t2 = s2.remove(k);
        let q = Seq::new((n - 1) as nat, |i: int| if p[i] < k { p[i] } else { p[i] - 1 });
        assert forall|i: int| 0 <= i < n - 1 implies 0 <= #[trigger] q[i] < n - 1 by {
            assert(p[i] != p[n - 1]);
        }
        assert forall|i: int, j: int|
            0 <= i < n - 1 && 0 <= j < n - 1 && i != j implies #[trigger] q[i] != #[trigger] q[j] by {
            assert(p[i] != p[j]);
            assert(p[i] != p[n - 1]);
            assert(p[j] != p[n - 1]);
        }
        assert forall|i: int| 0 <= i < n - 1 implies #[trigger] t1[i] == t2[q[i]] by {
            assert(s1[i] == s2[p[i]]);
            assert(p[i] != p[n - 1]);
        }
        lemma_permuted_same_multiset(t1, t2, q);
        assert(s1 =~= t1.push(s1[n - 1]));
        assert(s1[n - 1] == s2[k]);
        assert(s2.contains(s2[k]));
        assert(s2.to_multiset().count(s2[k]) > 0);
        assert(t2.to_multiset() == s2.to_multiset().remove(s2[k]));
        assert(s2.to_multiset() =~= t2.to_multiset().insert(s2[k]));
    }
}

/// Compares two names byte by byte.
pub fn bytes_le(a: &[u8], b: &[u8]) -> (le: bool)
    ensures
        le == lex_le(a@, b@),
{
    let mut i: usize = 0;
    assert(a@.skip(0) =~= a@ && b@.skip(0) =~= b@);
    while i < a.len() && i < b.len()
        invariant
            i <= a@.len(),
            i <= b@.len(),
            lex_le(a@, b@) == lex_le(a@.skip(i as int), b@.skip(i as int)),
        decreases a@.len() - i,
    {
        if a[i] != b[i] {
            return a[i] < b[i];
        }
        assert(a@.skip(i as int).drop_first() =~= a@.skip(i + 1));
        assert(b@.skip(i as int).drop_first() =~= b@.skip(i + 1));
        i = i + 1;
    }
    i == a.len()
}

/// One step of sorting by insertion: the first `i + 1` entries sort to the first
/// `i` sorted, with entry `i` inserted at its place.
proof fn lemma_sort_prefix_step(c: Seq<EntryView>, i: int)
    requires
        0 <= i < c.len(),
    ensures
        ({
            let t = sort_by_name(c.take(i));
            sort_by_name(c.take(i + 1)) == t.insert(insert_index(t, c[i]), c[i])
        }),
{
    assert(c.take(i + 1).drop_last() =~= c.take(i));
    assert(c.take(i + 1).last() == c[i]);
}

/// Inserting into a list of entries inserts the view into the list of views.
proof fn lemma_views_insert(s: Seq<ChildDigest>, j: int, e: ChildDigest)
    requires
        0 <= j <= s.len(),
    ensures
        entry_views(s.insert(j, e)) == entry_views(s).insert(j, entry_view(e)),
{
    s.insert_ensures(j, e);
    entry_views(s).insert_ensures(j, entry_view(e));
    assert(entry_views(s.insert(j, e)) =~= entry_views(s).insert(j, entry_view(e)));
}

/// Finds where `e` goes into the sorted list `out`: after the last entry whose
/// name is not greater than its own.
fn insertion_point(out: &Vec<ChildDigest>, e: &ChildDigest) -> (j: usize)
    ensures
        j <= out@.len(),
        j == insert_index(entry_views(out@), entry_view(*e)),
{
    let ghost before = entry_views(out@);
    let ghost ev = entry_view(*e);
    let mut j: usize = out.len();
    assert(before.take(j as int) =~= before);
    while j > 0 && !bytes_le(out[j - 1].0.as_str().as_bytes(), e.0.as_str().as_bytes())
        invariant
            j <= out@.len(),
            before == entry_views(out@),
            ev == entry_view(*e),
            insert_index(before, ev) == insert_index(before.take(j as int), ev),
        decreases j,
    {
        assert(before.take(j as int).drop_last() =~= before.take(j - 1));
        assert(before.take(j as int).last() == before[j - 1]);
        j = j - 1;
    }
    proof {
        if j > 0 {
            assert(before.take(j as int).last() == before[j - 1]);
        }
    }
    j
}

/// Sorts a directory's entries stably by name, by insertion.
pub fn sort_children(children: &Vec<ChildDigest>) -> (sorted: Vec<ChildDigest>)
    ensures
        entry_views(sorted@) == sort_by_name(entry_views(children@)),
{
    let ghost cv = entry_views(children@);
    let mut out: Vec<ChildDigest> = Vec::new();
    let n = children.len();
    assert(cv.take(0) =~= Seq::<EntryView>::empty());
    for i in 0..n
        invariant
            n == children@.len(),
            cv == entry_views(children@),
            entry_views(out@) == sort_by_name(cv.take(i as int)),
    {
        let e: ChildDigest = (children[i].0.clone(), children[i].1);
        assert(entry_view(e) == cv[i as int]);
        proof {
            lemma_sort_prefix_step(cv, i as int);
        }
        let j = insertion_point(&out, &e);
        proof {
            lemma_views_insert(out@, j as int, e);
        }
        out.insert(j, e);
    }
    assert(cv.take(n as int) =~= cv);
    out
}

} // verus!
