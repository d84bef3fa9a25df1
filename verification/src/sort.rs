//! Sorting items by descending size.
//!
//! The layout algorithm requires its input in non-increasing size order. The
//! executable sort is a stable insertion sort, pinned exactly to the spec
//! function [`sort_spec`], so two runs on the same input give the same
//! permutation (ties keep their original relative order).

use vstd::prelude::*;
use vstd::seq_lib::group_to_multiset_ensures;
use crate::item::Mappable;
use crate::rat::{rat_wf, rat_le, rat_lt, lemma_rat_le_trans};

verus! {

/// The sequence of item sizes.
pub open spec fn sizes_of<T: Mappable>(s: Seq<T>) -> Seq<crate::rat::Rat> {
    s.map_values(|t: T| t.size_v())
}

/// Every item of the sequence is well formed.
pub open spec fn all_inv<T: Mappable>(s: Seq<T>) -> bool {
    forall|k: int| 0 <= k < s.len() ==> #[trigger] s[k].inv()
}

/// The sizes are non-increasing from position `start` on.
pub open spec fn sorted_desc_from<T: Mappable>(s: Seq<T>, start: int) -> bool {
    forall|i: int, j: int|
        start <= i <= j < s.len() ==> rat_le(#[trigger] s[j].size_v(), #[trigger] s[i].size_v())
}

/// The sizes are non-increasing.
pub open spec fn sorted_desc<T: Mappable>(s: Seq<T>) -> bool {
    sorted_desc_from(s, 0)
}

/// Insert `x` into a non-increasing sequence, after every element of equal
/// size (stable insertion from the right).
pub open spec fn insert_desc<T: Mappable>(s: Seq<T>, x: T) -> Seq<T>
    decreases s.len(),
{
    if s.len() == 0 {
        seq![x]
    } else if rat_lt(s.last().size_v(), x.size_v()) {
        insert_desc(s.drop_last(), x).push(s.last())
    } else {
        s.push(x)
    }
}

/// Stable insertion sort by descending size.
pub open spec fn sort_spec<T: Mappable>(s: Seq<T>) -> Seq<T>
    decreases s.len(),
{
    if s.len() == 0 {
        s
    } else {
        insert_desc(sort_spec(s.drop_last()), s.last())
    }
}

proof fn lemma_insert_desc_multiset<T: Mappable>(s: Seq<T>, x: T)
    ensures
        insert_desc(s, x).to_multiset() == s.to_multiset().insert(x),
        insert_desc(s, x).len() == s.len() + 1,
    decreases s.len(),
{
    broadcast use group_to_multiset_ensures;

    if s.len() == 0 {
        assert(seq![x] =~= Seq::empty().push(x));
        assert(insert_desc(s, x).to_multiset() =~= s.to_multiset().insert(x));
    } else if rat_lt(s.last().size_v(), x.size_v()) {
        lemma_insert_desc_multiset(s.drop_last(), x);
        assert(s =~= s.drop_last().push(s.last()));
        assert(s.to_multiset() == s.drop_last().to_multiset().insert(s.last()));
        assert(insert_desc(s, x).to_multiset() == s.drop_last().to_multiset().insert(x).insert(
            s.last(),
        ));
        assert(s.drop_last().to_multiset().insert(x).insert(s.last())
            =~= s.drop_last().to_multiset().insert(s.last()).insert(x));
        assert(insert_desc(s, x).to_multiset() =~= s.to_multiset().insert(x));
    } else {
        assert(insert_desc(s, x).to_multiset() =~= s.to_multiset().insert(x));
    }
}

/// Every element of a sequence with the multiset of `a` comes from `a`.
pub proof fn lemma_elems_from_multiset<T: Mappable>(a: Seq<T>, b: Seq<T>)
    requires
        a.to_multiset() == b.to_multiset(),
    ensures
        forall|k: int| 0 <= k < b.len() ==> a.contains(#[trigger] b[k]),
{
    broadcast use group_to_multiset_ensures;

    assert forall|k: int| 0 <= k < b.len() implies a.contains(#[trigger] b[k]) by {
        assert(b.contains(b[k]));
        assert(b.to_multiset().count(b[k]) > 0);
        assert(a.to_multiset().count(b[k]) > 0);
    }
}

proof fn lemma_insert_desc_sorted<T: Mappable>(s: Seq<T>, x: T)
    requires
        sorted_desc(s),
        rat_wf(x.size_v()),
        forall|k: int| 0 <= k < s.len() ==> rat_wf(#[trigger] s[k].size_v()),
    ensures
        sorted_desc(insert_desc(s, x)),
    decreases s.len(),
{
    broadcast use group_to_multiset_ensures;

    if s.len() == 0 {
    } else if rat_lt(s.last().size_v(), x.size_v()) {
        let t = insert_desc(s.drop_last(), x);
        lemma_insert_desc_sorted(s.drop_last(), x);
        lemma_insert_desc_multiset(s.drop_last(), x);
        assert(s.drop_last().push(x).to_multiset() =~= s.drop_last().to_multiset().insert(x));
        lemma_elems_from_multiset(s.drop_last().push(x), t);
        let r = t.push(s.last());
        assert forall|i: int, j: int| 0 <= i <= j < r.len() implies rat_le(
            r[j].size_v(),
            r[i].size_v(),
        ) by {
            if j < t.len() {
                assert(rat_le(t[j].size_v(), t[i].size_v()));
            } else {
                // r[j] is s.last(); r[i] is x or an element of s.drop_last(),
                // and both are at least s.last() in size.
                if i < t.len() {
                    assert(s.drop_last().push(x).contains(t[i]));
                    let src = choose|m: int|
                        0 <= m < s.drop_last().push(x).len() && s.drop_last().push(x)[m] == t[i];
                    if src < s.len() - 1 {
                        assert(rat_le(s.last().size_v(), s[src].size_v()));
                    } else {
                        assert(t[i] == x);
                        assert(rat_le(s.last().size_v(), x.size_v()));
                    }
                } else {
                    assert(r[i] == s.last());
                }
            }
        }
    } else {
        let r = s.push(x);
        assert forall|i: int, j: int| 0 <= i <= j < r.len() implies rat_le(
            r[j].size_v(),
            r[i].size_v(),
        ) by {
            if j < s.len() {
            } else if i < s.len() {
                // x is at most s.last(), which is at most every earlier element.
                assert(rat_le(x.size_v(), s.last().size_v()));
                assert(rat_le(s.last().size_v(), s[i].size_v()));
                lemma_rat_le_trans(x.size_v(), s.last().size_v(), s[i].size_v());
            }
        }
    }
}

/// `sort_spec` returns a non-increasing permutation of its input.
pub proof fn lemma_sort_spec_correct<T: Mappable>(s: Seq<T>)
    requires
        forall|k: int| 0 <= k < s.len() ==> rat_wf(#[trigger] s[k].size_v()),
    ensures
        sort_spec(s).to_multiset() == s.to_multiset(),
        sort_spec(s).len() == s.len(),
        sorted_desc(sort_spec(s)),
    decreases s.len(),
{
    broadcast use group_to_multiset_ensures;

    if s.len() == 0 {
    } else {
        let d = s.drop_last();
        lemma_sort_spec_correct(d);
        lemma_insert_desc_multiset(sort_spec(d), s.last());
        assert(s =~= d.push(s.last()));
        assert(s.to_multiset() == d.to_multiset().insert(s.last()));
        assert(sort_spec(s).to_multiset() =~= s.to_multiset());
        lemma_elems_from_multiset(d, sort_spec(d));
        assert forall|k: int| 0 <= k < sort_spec(d).len() implies rat_wf(
            #[trigger] sort_spec(d)[k].size_v(),
        ) by {
            assert(d.contains(sort_spec(d)[k]));
            let i = choose|i: int| 0 <= i < d.len() && d[i] == sort_spec(d)[k];
            assert(rat_wf(s[i].size_v()));
        }
        lemma_insert_desc_sorted(sort_spec(d), s.last());
    }
}

proof fn lemma_sizes_insert_desc<T: Mappable>(s: Seq<T>, x: T)
    ensures
        sizes_of(insert_desc(s, x)).to_multiset() == sizes_of(s).to_multiset().insert(x.size_v()),
    decreases s.len(),
{
    broadcast use group_to_multiset_ensures;

    if s.len() == 0 {
        assert(sizes_of(insert_desc(s, x)) =~= Seq::<crate::rat::Rat>::empty().push(x.size_v()));
        assert(sizes_of(s) =~= Seq::<crate::rat::Rat>::empty());
        assert(sizes_of(insert_desc(s, x)).to_multiset() =~= sizes_of(s).to_multiset().insert(
            x.size_v(),
        ));
    } else if rat_lt(s.last().size_v(), x.size_v()) {
        let t = insert_desc(s.drop_last(), x);
        lemma_sizes_insert_desc(s.drop_last(), x);
        assert(sizes_of(t.push(s.last())) =~= sizes_of(t).push(s.last().size_v()));
        assert(sizes_of(s.drop_last()) =~= sizes_of(s).drop_last());
        assert(sizes_of(s) =~= sizes_of(s).drop_last().push(s.last().size_v()));
        assert(sizes_of(s).to_multiset() == sizes_of(s).drop_last().to_multiset().insert(
            s.last().size_v(),
        ));
        assert(sizes_of(insert_desc(s, x)).to_multiset() == sizes_of(s).drop_last().to_multiset()
            .insert(x.size_v()).insert(s.last().size_v()));
        assert(sizes_of(s).drop_last().to_multiset().insert(x.size_v()).insert(s.last().size_v())
            =~= sizes_of(s).drop_last().to_multiset().insert(s.last().size_v()).insert(
            x.size_v(),
        ));
        assert(sizes_of(insert_desc(s, x)).to_multiset() =~= sizes_of(s).to_multiset().insert(
            x.size_v(),
        ));
    } else {
        assert(sizes_of(s.push(x)) =~= sizes_of(s).push(x.size_v()));
        assert(sizes_of(insert_desc(s, x)).to_multiset() =~= sizes_of(s).to_multiset().insert(
            x.size_v(),
        ));
    }
}

/// Sorting preserves the multiset of sizes: no size is dropped or
/// duplicated, ties included.
pub proof fn lemma_sort_sizes_multiset<T: Mappable>(s: Seq<T>)
    ensures
        sizes_of(sort_spec(s)).to_multiset() == sizes_of(s).to_multiset(),
    decreases s.len(),
{
    broadcast use group_to_multiset_ensures;

    if s.len() == 0 {
    } else {
        let d = s.drop_last();
        lemma_sort_sizes_multiset(d);
        lemma_sizes_insert_desc(sort_spec(d), s.last());
        assert(sizes_of(d) =~= sizes_of(s).drop_last());
        assert(sizes_of(s) =~= sizes_of(s).drop_last().push(s.last().size_v()));
        assert(sizes_of(s).to_multiset() == sizes_of(s).drop_last().to_multiset().insert(
            s.last().size_v(),
        ));
        assert(sizes_of(sort_spec(s)).to_multiset() =~= sizes_of(s).to_multiset());
    }
}

/// Where stable insertion places `x`: before position `j` every size is at
/// least `x`'s, from `j` on every size is below it.
proof fn lemma_insert_desc_at<T: Mappable>(s: Seq<T>, x: T, j: int)
    requires
        0 <= j <= s.len(),
        forall|k: int| j <= k < s.len() ==> rat_lt(#[trigger] s[k].size_v(), x.size_v()),
        j > 0 ==> !rat_lt(s[j - 1].size_v(), x.size_v()),
    ensures
        insert_desc(s, x) == s.subrange(0, j) + seq![x] + s.subrange(j, s.len() as int),
    decreases s.len() - j,
{
    if j == s.len() {
        if s.len() == 0 {
            assert(insert_desc(s, x) =~= s.subrange(0, j) + seq![x] + s.subrange(
                j,
                s.len() as int,
            ));
        } else {
            assert(!rat_lt(s.last().size_v(), x.size_v()));
            assert(s.push(x) =~= s.subrange(0, j) + seq![x] + s.subrange(j, s.len() as int));
        }
    } else {
        assert(rat_lt(s.last().size_v(), x.size_v()));
        let d = s.drop_last();
        lemma_insert_desc_at(d, x, j);
        assert(insert_desc(d, x).push(s.last()) =~= s.subrange(0, j) + seq![x] + s.subrange(
            j,
            s.len() as int,
        ));
    }
}

/// Sort the items by descending size, stably: equal sizes keep their
/// original relative order, so the result is a fixed function of the input.
pub fn sort_descending<T: Mappable>(items: &mut Vec<T>)
    requires
        all_inv(old(items)@),
    ensures
        final(items)@ == sort_spec(old(items)@),
        sorted_desc(final(items)@),
        final(items)@.to_multiset() == old(items)@.to_multiset(),
        final(items)@.len() == old(items)@.len(),
        all_inv(final(items)@),
{
    let ghost orig: Seq<T> = items@;
    proof {
        assert forall|k: int| 0 <= k < orig.len() implies rat_wf(#[trigger] orig[k].size_v()) by {
            orig[k].lemma_inv();
        }
    }
    if items.len() == 0 {
        proof {
            assert(items@ =~= sort_spec(orig));
            lemma_sort_spec_correct(orig);
        }
        return ;
    }
    proof {
        let t1 = orig.take(1);
        assert(t1.len() == 1);
        assert(sort_spec(t1.drop_last()) == t1.drop_last());
        assert(sort_spec(t1) == insert_desc(t1.drop_last(), t1.last()));
        assert(sort_spec(t1) =~= t1);
        assert(items@ =~= sort_spec(t1) + orig.skip(1));
    }
    let mut i: usize = 1;
    while i < items.len()
        invariant
            1 <= i <= items@.len(),
            items@.len() == orig.len(),
            all_inv(orig),
            forall|k: int| 0 <= k < orig.len() ==> rat_wf(#[trigger] orig[k].size_v()),
            items@ == sort_spec(orig.take(i as int)) + orig.skip(i as int),
            all_inv(items@),
        decreases items@.len() - i,
    {
        let ghost pre: Seq<T> = items@;
        let ghost sorted_prefix: Seq<T> = sort_spec(orig.take(i as int));
        proof {
            assert forall|k: int| 0 <= k < i implies rat_wf(
                #[trigger] orig.take(i as int)[k].size_v(),
            ) by {
                assert(orig.take(i as int)[k] == orig[k]);
            }
            lemma_sort_spec_correct(orig.take(i as int));
            assert(pre[i as int] == orig.skip(i as int)[0]);
            assert(pre[i as int] == orig[i as int]);
        }
        let mut j: usize = i;
        let mut searching: bool = true;
        while searching && j > 0
            invariant
                0 <= j <= i < items@.len(),
                items@ == pre,
                all_inv(items@),
                items@ == sorted_prefix + orig.skip(i as int),
                sorted_prefix.len() == i,
                forall|k: int| j <= k < i ==> rat_lt(
                    #[trigger] pre[k].size_v(),
                    pre[i as int].size_v(),
                ),
                !searching ==> j > 0 && !rat_lt(pre[j - 1].size_v(), pre[i as int].size_v()),
            decreases (if searching { 1int } else { 0int }), j,
        {
            let prev = items[j - 1].size();
            let xs = items[i].size();
            if prev.lt(&xs) {
                j = j - 1;
            } else {
                searching = false;
            }
        }
        proof {
            assert forall|k: int| j <= k < i implies rat_lt(
                #[trigger] sorted_prefix[k].size_v(),
                pre[i as int].size_v(),
            ) by {
                assert(sorted_prefix[k] == pre[k]);
            }
            if j > 0 {
                assert(sorted_prefix[j - 1] == pre[j - 1]);
            }
            lemma_insert_desc_at(sorted_prefix, pre[i as int], j as int);
        }
        if j < i {
            let x = items.remove(i);
            items.insert(j, x);
        }
        proof {
            let x = pre[i as int];
            let ins = insert_desc(sorted_prefix, x);
            assert(sorted_prefix.subrange(0, j as int) =~= pre.subrange(0, j as int));
            assert(items@ =~= pre.subrange(0, j as int) + seq![x] + pre.subrange(
                j as int,
                i as int,
            ) + pre.skip(i as int + 1));
            assert(sorted_prefix.subrange(j as int, i as int) =~= pre.subrange(j as int, i as int));
            assert(orig.take(i as int + 1).drop_last() =~= orig.take(i as int));
            assert(orig.take(i as int + 1).last() == orig[i as int]);
            assert(sort_spec(orig.take(i as int + 1)) == ins);
            assert(items@ =~= ins + orig.skip(i as int + 1));
            broadcast use group_to_multiset_ensures;

            lemma_insert_desc_multiset(sorted_prefix, x);
            assert(sorted_prefix.push(x).to_multiset() =~= sorted_prefix.to_multiset().insert(x));
            lemma_elems_from_multiset(sorted_prefix.push(x), ins);
            assert forall|k: int| 0 <= k < items@.len() implies #[trigger] items@[k].inv() by {
                if k < ins.len() {
                    assert(sorted_prefix.push(x).contains(ins[k]));
                    let m = choose|m: int|
                        0 <= m < sorted_prefix.push(x).len() && sorted_prefix.push(x)[m]
                            == ins[k];
                    assert(sorted_prefix.push(x)[m].inv());
                } else {
                    assert(items@[k] == orig.skip(i as int + 1)[k - ins.len()]);
                    assert(items@[k] == orig[k]);
                }
            }
        }
        i = i + 1;
    }
    proof {
        assert(orig.take(orig.len() as int) =~= orig);
        assert(orig.skip(orig.len() as int) =~= Seq::empty());
        assert(items@ =~= sort_spec(orig));
        lemma_sort_spec_correct(orig);
    }
}

} // verus!
