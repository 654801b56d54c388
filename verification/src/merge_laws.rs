//! What a merge makes of inputs that need not be in order.

use crate::index::nat_int;
use crate::merge::{
    concatenated, least_head, lemma_concatenated_element, lemma_least_head, lemma_merged_len,
    lemma_without_head, merged, total_len, without_head,
};
use std::cmp::Ordering;
use vstd::multiset::Multiset;
use vstd::prelude::*;
use vstd::seq_lib::{lemma_multiset_commutative, to_multiset_build};

verus! {

/// A concatenation holds a first element and what it holds without it.
proof fn lemma_elements_without_head<T>(files: Seq<Seq<T>>, f: int)
    requires
        0 <= f < files.len(),
        files[f].len() > 0,
    ensures
        concatenated(files).to_multiset() == concatenated(
            without_head(files, f),
        ).to_multiset().insert(files[f][0]),
    decreases files.len(),
{
    let init = files.drop_last();
    let rest = without_head(files, f);
    let h = files[f][0];
    lemma_multiset_commutative(concatenated(init), files.last());
    lemma_multiset_commutative(concatenated(rest.drop_last()), rest.last());
    if f < files.len() - 1 {
        lemma_elements_without_head(init, f);
        assert(rest.drop_last() =~= without_head(init, f));
        assert(concatenated(files).to_multiset() =~= concatenated(rest).to_multiset().insert(h));
    } else {
        let tail = files.last().drop_first();
        assert(rest.drop_last() =~= init);
        assert(files.last() =~= seq![h] + tail);
        lemma_multiset_commutative(seq![h], tail);
        to_multiset_build(Seq::<T>::empty(), h);
        assert(Seq::<T>::empty().push(h) =~= seq![h]);
        Seq::<T>::empty().to_multiset_ensures();
        assert(Seq::<T>::empty().to_multiset() =~= Multiset::<T>::empty());
        assert(concatenated(files).to_multiset() =~= concatenated(rest).to_multiset().insert(h));
    }
}

/// Merging any inputs writes all their lines, no more and no fewer.
pub proof fn merging_keeps_lines<T>(files: Seq<Seq<T>>, c: spec_fn(T, T) -> Ordering)
    ensures
        merged(files, c).to_multiset() == concatenated(files).to_multiset(),
    decreases total_len(files),
{
    let n = nat_int(files.len());
    lemma_least_head(files, c, n);
    match least_head(files, c, n) {
        None => {
            lemma_merged_len(files, c);
            let all = concatenated(files);
            if all.len() > 0 {
                lemma_concatenated_element(files, 0);
                let (f, k) = choose|f: int, k: int|
                    0 <= f < files.len() && 0 <= k < files[f].len() && #[trigger] files[f][k]
                        == all[0];
                assert(files[f].len() == 0);
            }
            assert(all =~= Seq::<T>::empty());
        },
        Some(b) => {
            let rest = without_head(files, b);
            lemma_without_head(files, b);
            merging_keeps_lines(rest, c);
            lemma_elements_without_head(files, b);
            let h = files[b][0];
            lemma_multiset_commutative(seq![h], merged(rest, c));
            to_multiset_build(Seq::<T>::empty(), h);
            assert(Seq::<T>::empty().push(h) =~= seq![h]);
            Seq::<T>::empty().to_multiset_ensures();
            assert(Seq::<T>::empty().to_multiset() =~= Multiset::<T>::empty());
            assert(merged(files, c).to_multiset() =~= concatenated(files).to_multiset());
        },
    }
}

} // verus!
