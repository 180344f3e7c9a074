//! The traversal-and-rank engine: aggregate counters and bounded top-K
//! selection over a stream of discovered files.

use vstd::multiset::Multiset;
use vstd::prelude::*;

use crate::entry::{EntryView, FileEntry, views};

verus! {

broadcast use
    vstd::seq_lib::group_to_multiset_ensures,
    vstd::multiset::group_multiset_axioms;

/// Running totals over the files that the traversal accepted.
#[derive(Clone, Copy, Debug, PartialEq, Eq, Structural)]
pub struct AggregateCounters {
    pub total_file_count: u64,
    pub total_size_bytes: u64,
}

/// The sum, as a mathematical integer, of the sizes of the entries.
pub open spec fn total_size_of(s: Seq<EntryView>) -> int
    decreases s.len(),
{
    if s.len() == 0 {
        0
    } else {
        total_size_of(s.drop_last()) + s.last().size
    }
}

/// Sorted by size, largest first.
pub open spec fn sorted_desc(s: Seq<EntryView>) -> bool {
    forall|i: int, j: int| 0 <= i < j < s.len() ==> s[i].size >= s[j].size
}

/// The smallest retained size: the last entry of a descending sequence,
/// or 0 of an empty one.
pub open spec fn min_size(s: Seq<EntryView>) -> u64 {
    if s.len() == 0 {
        0
    } else {
        s.last().size
    }
}

/// Insertion into a descending sequence: the new entry goes after every
/// entry at least as large, so equal sizes keep discovery order.
pub open spec fn insert_desc(s: Seq<EntryView>, e: EntryView) -> Seq<EntryView>
    decreases s.len(),
{
    if s.len() == 0 {
        seq![e]
    } else if s.first().size >= e.size {
        seq![s.first()] + insert_desc(s.drop_first(), e)
    } else {
        seq![e] + s
    }
}

/// One step of the bounded selection: admit the entry when the set has room
/// or the entry beats the smallest retained size, then evict past the bound.
pub open spec fn select_step(s: Seq<EntryView>, e: EntryView, k: nat) -> Seq<EntryView> {
    if s.len() < k || e.size > min_size(s) {
        let t = insert_desc(s, e);
        if t.len() > k {
            t.drop_last()
        } else {
            t
        }
    } else {
        s
    }
}

/// The bounded selection folded over the whole stream, in discovery order.
pub open spec fn select(entries: Seq<EntryView>, k: nat) -> Seq<EntryView>
    decreases entries.len(),
{
    if entries.len() == 0 {
        Seq::empty()
    } else {
        select_step(select(entries.drop_last(), k), entries.last(), k)
    }
}

/// Sizes are non-negative, so a total never is either.
pub proof fn lemma_total_size_nonneg(s: Seq<EntryView>)
    ensures
        0 <= total_size_of(s),
    decreases s.len(),
{
    if s.len() > 0 {
        lemma_total_size_nonneg(s.drop_last());
    }
}

/// A prefix never sums to more than the whole stream.
pub proof fn lemma_total_size_prefix(s: Seq<EntryView>, j: int)
    requires
        0 <= j <= s.len(),
    ensures
        total_size_of(s.take(j)) <= total_size_of(s),
    decreases s.len() - j,
{
    if j == s.len() {
        assert(s.take(j) =~= s);
    } else {
        assert(s.take(j + 1).drop_last() =~= s.take(j));
        assert(s.take(j + 1).last() == s[j]);
        lemma_total_size_prefix(s, j + 1);
    }
}

/// Inserting into a descending sequence keeps it descending, grows it by one
/// entry, adds exactly that entry to its contents, and leaves the last entry
/// in place whenever the new one is strictly larger.
pub proof fn lemma_insert_desc_props(s: Seq<EntryView>, e: EntryView)
    requires
        sorted_desc(s),
    ensures
        sorted_desc(insert_desc(s, e)),
        insert_desc(s, e).len() == s.len() + 1,
        insert_desc(s, e).to_multiset() == s.to_multiset().insert(e),
        s.len() > 0 && e.size > s.last().size ==> insert_desc(s, e).last() == s.last(),
    decreases s.len(),
{
    let ins = insert_desc(s, e);
    if s.len() == 0 {
        assert(seq![e] =~= Seq::<EntryView>::empty().push(e));
        assert(ins.to_multiset() =~= s.to_multiset().insert(e));
    } else if s.first().size >= e.size {
        let rest = s.drop_first();
        assert(forall|i: int, j: int|
            0 <= i < j < rest.len() ==> rest[i].size >= rest[j].size) by {
            assert(forall|i: int| 0 <= i < rest.len() ==> rest[i] == s[i + 1]);
        }
        lemma_insert_desc_props(rest, e);
        let ir = insert_desc(rest, e);
        assert(ins =~= seq![s.first()] + ir);
        assert(s =~= seq![s.first()] + rest);
        vstd::seq_lib::lemma_multiset_commutative(seq![s.first()], ir);
        vstd::seq_lib::lemma_multiset_commutative(seq![s.first()], rest);
        assert(ins.to_multiset() =~= s.to_multiset().insert(e));
        // every entry of `ir` is an entry of `rest` or is `e`, so the head stays largest
        assert forall|jj: int| 0 <= jj < ir.len() implies ir[jj].size <= s.first().size by {
            assert(ir.contains(ir[jj]));
            assert(ir.to_multiset().count(ir[jj]) > 0);
            if ir[jj] != e {
                assert(rest.to_multiset().count(ir[jj]) > 0);
                assert(rest.contains(ir[jj]));
                let idx = choose|idx: int| 0 <= idx < rest.len() && rest[idx] == ir[jj];
                assert(s[0].size >= s[idx + 1].size);
            }
        }
        assert forall|i: int, j: int| 0 <= i < j < ins.len() implies ins[i].size >= ins[j].size by {
            if i == 0 {
                assert(ins[j] == ir[j - 1]);
            } else {
                assert(ins[i] == ir[i - 1]);
                assert(ins[j] == ir[j - 1]);
            }
        }
        if e.size > s.last().size {
            // the head is at least the last entry, so the recursion got a
            // non-empty sequence with the same last entry
            assert(rest.len() > 0) by {
                if rest.len() == 0 {
                    assert(s.last() == s.first());
                }
            }
            assert(rest.last() == s.last());
            assert(ins.last() == ir.last());
        }
    } else {
        assert(ins =~= seq![e] + s);
        vstd::seq_lib::lemma_multiset_commutative(seq![e], s);
        assert(seq![e].to_multiset() =~= Multiset::<EntryView>::empty().insert(e)) by {
            assert(seq![e] =~= Seq::<EntryView>::empty().push(e));
        }
        assert(ins.to_multiset() =~= s.to_multiset().insert(e));
        assert forall|i: int, j: int| 0 <= i < j < ins.len() implies ins[i].size >= ins[j].size by {
            if i == 0 {
                assert(ins[j] == s[j - 1]);
                if j > 1 {
                    assert(s[0].size >= s[j - 1].size);
                }
            } else {
                assert(ins[i] == s[i - 1]);
                assert(ins[j] == s[j - 1]);
            }
        }
        assert(ins.last() == s.last());
    }
}

/// Insertion lands exactly at the first position whose entry is smaller.
pub proof fn lemma_insert_desc_at(s: Seq<EntryView>, e: EntryView, j: int)
    requires
        sorted_desc(s),
        0 <= j <= s.len(),
        forall|i: int| 0 <= i < j ==> s[i].size >= e.size,
        j < s.len() ==> s[j].size < e.size,
    ensures
        insert_desc(s, e) == s.insert(j, e),
    decreases s.len(),
{
    if s.len() == 0 {
        assert(insert_desc(s, e) =~= s.insert(0, e));
    } else if s.first().size >= e.size {
        assert(j > 0);
        let rest = s.drop_first();
        assert(forall|i: int, jj: int|
            0 <= i < jj < rest.len() ==> rest[i].size >= rest[jj].size) by {
            assert(forall|i: int| 0 <= i < rest.len() ==> rest[i] == s[i + 1]);
        }
        assert(forall|i: int| 0 <= i < j - 1 ==> rest[i] == s[i + 1] && s[i + 1].size >= e.size);
        assert(j - 1 < rest.len() ==> rest[j - 1] == s[j] && s[j].size < e.size);
        lemma_insert_desc_at(rest, e, j - 1);
        assert(insert_desc(s, e) =~= s.insert(j, e)) by {
            assert(insert_desc(s, e) == seq![s.first()] + rest.insert(j - 1, e));
        }
    } else {
        assert(j == 0) by {
            if j > 0 {
                assert(s[0].size >= e.size);
            }
        }
        assert(insert_desc(s, e) =~= s.insert(0, e));
    }
}

/// What the bounded selection guarantees, for any stream and any bound:
/// it is sorted descending; it holds `min(k, n)` entries of the `n` seen;
/// every retained entry was seen; while there is room everything seen is
/// retained; and, for a positive bound, nothing passed over beats the
/// smallest retained size.
pub proof fn lemma_select_props(entries: Seq<EntryView>, k: nat)
    ensures
        sorted_desc(select(entries, k)),
        select(entries, k).len() == vstd::math::min(k as int, entries.len() as int),
        select(entries, k).to_multiset().subset_of(entries.to_multiset()),
        entries.len() <= k ==> select(entries, k).to_multiset() == entries.to_multiset(),
        k > 0 ==> forall|x: EntryView|
            entries.to_multiset().count(x) > select(entries, k).to_multiset().count(x)
                ==> x.size <= min_size(select(entries, k)),
    decreases entries.len(),
{
    if entries.len() == 0 {
        assert(select(entries, k) =~= Seq::<EntryView>::empty());
        assert(entries.to_multiset() =~= Seq::<EntryView>::empty().to_multiset());
        assert(select(entries, k).to_multiset() =~= entries.to_multiset());
    } else {
        let p = entries.drop_last();
        let e = entries.last();
        let s = select(p, k);
        let t = select(entries, k);
        lemma_select_props(p, k);
        assert(entries =~= p.push(e));
        assert(entries.to_multiset() =~= p.to_multiset().insert(e));
        let pm = p.to_multiset();
        let em = entries.to_multiset();
        let sm = s.to_multiset();
        if s.len() < k || e.size > min_size(s) {
            let u = insert_desc(s, e);
            lemma_insert_desc_props(s, e);
            if u.len() > k && k == 0 {
                // a zero bound: the entry goes in and leaves at once
                assert(s.len() == 0);
                assert(u =~= seq![e]);
                assert(t == u.drop_last());
                assert(t =~= Seq::<EntryView>::empty());
                assert(t.to_multiset() =~= Multiset::<EntryView>::empty());
                assert(forall|x: EntryView| t.to_multiset().count(x) <= em.count(x));
                assert(t.to_multiset().subset_of(em));
            } else if u.len() > k {
                // the set was full: the new entry beat the smallest, which leaves
                assert(s.len() == k);
                assert(k > 0);
                assert(e.size > min_size(s));
                assert(s.len() > 0);
                let dropped = u.last();
                assert(dropped == s.last());
                assert(t == u.drop_last());
                assert(u =~= t.push(u.last()));
                assert(u.to_multiset() =~= t.to_multiset().insert(dropped));
                assert(u.to_multiset() == sm.insert(e));
                // the evicted entry was in the selection
                assert(s.contains(s.last()));
                assert(sm.count(s.last()) > 0);
                assert forall|x: EntryView| t.to_multiset().count(x) <= em.count(x) by {
                    assert(u.to_multiset().count(x) == t.to_multiset().count(x) + (if x == dropped { 1int } else { 0 }));
                    assert(u.to_multiset().count(x) == sm.count(x) + (if x == e { 1int } else { 0 }));
                    assert(sm.count(x) <= pm.count(x));
                    assert(em.count(x) == pm.count(x) + (if x == e { 1int } else { 0 }));
                }
                assert(t.to_multiset().subset_of(em));
                // sortedness and length of the trimmed insertion
                assert(t =~= u.take(u.len() - 1));
                assert(sorted_desc(t)) by {
                    assert(forall|i: int| 0 <= i < t.len() ==> t[i] == u[i]);
                }
                assert(t.len() == k);
                // the smallest retained size did not fall
                assert(min_size(t) == u[k - 1].size);
                assert(u[k as int] == dropped);
                assert(u[k - 1].size >= u[k as int].size);
                assert(min_size(t) >= s.last().size);
                assert forall|x: EntryView|
                    em.count(x) > t.to_multiset().count(x) implies x.size <= min_size(t) by {
                    assert(u.to_multiset().count(x) == t.to_multiset().count(x) + (if x == dropped { 1int } else { 0 }));
                    assert(u.to_multiset().count(x) == sm.count(x) + (if x == e { 1int } else { 0 }));
                    assert(em.count(x) == pm.count(x) + (if x == e { 1int } else { 0 }));
                    if x == dropped {
                        assert(x.size <= min_size(t));
                    } else {
                        assert(pm.count(x) > sm.count(x));
                        assert(x.size <= min_size(s));
                        assert(min_size(s) == s.last().size);
                    }
                }
            } else {
                // there was room: everything seen so far stays retained
                assert(t == u);
                assert(s.len() < k);
                assert(p.len() < k);
                assert(sm == pm);
                assert(t.to_multiset() == sm.insert(e));
                assert(t.to_multiset() =~= em);
                assert(t.to_multiset().subset_of(em));
            }
        } else {
            // the entry was passed over: the set was full and the entry did not
            // beat the smallest retained size
            assert(t == s);
            assert(s.len() == k);
            assert(k > 0 ==> s.len() > 0);
            assert(p.len() >= k);
            assert forall|x: EntryView| t.to_multiset().count(x) <= em.count(x) by {
                assert(sm.count(x) <= pm.count(x));
                assert(em.count(x) == pm.count(x) + (if x == e { 1int } else { 0 }));
            }
            assert(t.to_multiset().subset_of(em));
            if k > 0 {
                assert forall|x: EntryView|
                    em.count(x) > t.to_multiset().count(x) implies x.size <= min_size(t) by {
                    assert(em.count(x) == pm.count(x) + (if x == e { 1int } else { 0 }));
                    if pm.count(x) > sm.count(x) {
                        assert(x.size <= min_size(s));
                    } else {
                        assert(x == e);
                        assert(x.size <= min_size(s));
                    }
                }
            }
        }
    }
}

/// What a completed traversal reports of a stream of entries and a bound:
/// the count of entries seen, their total size, and the bounded selection.
pub open spec fn scan_post(
    entries: Seq<EntryView>,
    k: nat,
    count: u64,
    total: u64,
    tops: Seq<EntryView>,
) -> bool {
    &&& count == entries.len()
    &&& total == total_size_of(entries)
    &&& tops == select(entries, k)
}

/// Law: the outcome of a traversal is a function of the observed entries and
/// the requested bound alone, so two runs over an unchanged stream report
/// identical counters and an identical selection.
pub proof fn lemma_scan_idempotent(
    entries: Seq<EntryView>,
    k: nat,
    count1: u64,
    total1: u64,
    tops1: Seq<EntryView>,
    count2: u64,
    total2: u64,
    tops2: Seq<EntryView>,
)
    requires
        scan_post(entries, k, count1, total1, tops1),
        scan_post(entries, k, count2, total2, tops2),
    ensures
        count1 == count2,
        total1 == total2,
        tops1 == tops2,
{
}

/// Walk once over the discovered entries: count them, sum their sizes, and
/// keep the `top_n` largest, sorted descending, equal sizes in discovery
/// order.  The stream order is the discovery order; the caller owes only
/// that the total size fits the machine word, which any real filesystem does.
pub fn scan(entries: &Vec<FileEntry>, top_n: usize) -> (r: (AggregateCounters, Vec<FileEntry>))
    requires
        total_size_of(views(entries@)) <= u64::MAX,
    ensures
        r.0.total_file_count == entries@.len(),
        r.0.total_size_bytes == total_size_of(views(entries@)),
        views(r.1@) == select(views(entries@), top_n as nat),
        scan_post(
            views(entries@),
            top_n as nat,
            r.0.total_file_count,
            r.0.total_size_bytes,
            views(r.1@),
        ),
        r.1@.len() <= top_n,
        r.1@.len() == vstd::math::min(top_n as int, entries@.len() as int),
        sorted_desc(views(r.1@)),
        top_n == 0 ==> r.1@.len() == 0,
        views(r.1@).to_multiset().subset_of(views(entries@).to_multiset()),
        top_n > 0 ==> forall|x: EntryView|
            views(entries@).to_multiset().count(x) > views(r.1@).to_multiset().count(x)
                ==> x.size <= min_size(views(r.1@)),
{
    let ghost evs = views(entries@);
    let mut tops: Vec<FileEntry> = Vec::new();
    let mut count: u64 = 0;
    let mut total: u64 = 0;
    let mut i: usize = 0;
    let n = entries.len();
    proof {
        assert(evs.take(0) =~= Seq::<EntryView>::empty());
        assert(views(tops@) =~= select(evs.take(0), top_n as nat));
    }
    while i < n
        invariant
            i <= n,
            n == entries@.len(),
            evs == views(entries@),
            evs.len() == n,
            count == i,
            total == total_size_of(evs.take(i as int)),
            total_size_of(evs) <= u64::MAX,
            views(tops@) == select(evs.take(i as int), top_n as nat),
        decreases n - i,
    {
        let e = &entries[i];
        proof {
            assert(evs[i as int] == entries@[i as int]@);
            assert(evs.take(i + 1).drop_last() =~= evs.take(i as int));
            assert(evs.take(i + 1).last() == evs[i as int]);
            lemma_total_size_prefix(evs, i + 1);
            lemma_total_size_nonneg(evs.take(i as int));
            lemma_select_props(evs.take(i as int), top_n as nat);
        }
        total = total + e.size;
        count = count + 1;
        let ghost s_old = views(tops@);
        let room = tops.len() < top_n;
        let min_s: u64 = if tops.len() == 0 {
            0
        } else {
            proof {
                assert(s_old[tops@.len() - 1] == tops@[tops@.len() - 1]@);
            }
            tops[tops.len() - 1].size
        };
        proof {
            assert(min_s == min_size(s_old));
        }
        if room || e.size > min_s {
            let mut j: usize = 0;
            while j < tops.len() && tops[j].size >= e.size
                invariant
                    j <= tops@.len(),
                    s_old == views(tops@),
                    forall|t: int| 0 <= t < j ==> s_old[t].size >= e@.size,
                decreases tops@.len() - j,
            {
                proof {
                    assert(s_old[j as int] == tops@[j as int]@);
                }
                j = j + 1;
            }
            proof {
                assert(j < tops@.len() ==> s_old[j as int] == tops@[j as int]@);
                lemma_insert_desc_at(s_old, e@, j as int);
                lemma_insert_desc_props(s_old, e@);
            }
            tops.insert(j, e.clone());
            proof {
                assert(views(tops@) =~= s_old.insert(j as int, e@));
            }
            if tops.len() > top_n {
                let ghost inserted = views(tops@);
                tops.pop();
                proof {
                    assert(views(tops@) =~= inserted.drop_last());
                }
            }
        }
        proof {
            assert(views(tops@) =~= select_step(s_old, e@, top_n as nat));
            assert(views(tops@) == select(evs.take(i + 1), top_n as nat));
        }
        i = i + 1;
    }
    proof {
        assert(evs.take(n as int) =~= evs);
        lemma_select_props(evs, top_n as nat);
    }
    (AggregateCounters { total_file_count: count, total_size_bytes: total }, tops)
}

} // verus!
