//! The order of keys: that of their characters, the first that differs deciding.

use crate::params::ParamMap;
use vstd::prelude::*;

verus! {

/// Whether the first text does not come after the second.
pub open spec fn not_after(first: Seq<char>, second: Seq<char>) -> bool
    decreases first.len(),
{
    if first.len() == 0 {
        true
    } else if second.len() == 0 {
        false
    } else if first[0] == second[0] {
        not_after(first.drop_first(), second.drop_first())
    } else {
        first[0] < second[0]
    }
}

/// Whether the first text comes before the second.
pub open spec fn before(first: Seq<char>, second: Seq<char>) -> bool {
    first != second && not_after(first, second)
}

/// Whether each text comes before all that follow it.
pub open spec fn is_ascending(texts: Seq<Seq<char>>) -> bool {
    forall|i: int, j: int|
        0 <= i < j < texts.len() ==> before(#[trigger] texts[i], #[trigger] texts[j])
}

/// The keys of the map, in their order.
pub open spec fn keys_in_order(params: ParamMap) -> Seq<Seq<char>> {
    params.dom().to_sorted_seq(|first: Seq<char>, second: Seq<char>| not_after(first, second))
}

proof fn lemma_not_after_reflexive(text: Seq<char>)
    ensures
        not_after(text, text),
    decreases text.len(),
{
    if text.len() > 0 {
        lemma_not_after_reflexive(text.drop_first());
    }
}

proof fn lemma_not_after_antisymmetric(first: Seq<char>, second: Seq<char>)
    requires
        not_after(first, second),
        not_after(second, first),
    ensures
        first == second,
    decreases first.len(),
{
    if first.len() == 0 {
        assert(first =~= second);
    } else {
        lemma_not_after_antisymmetric(first.drop_first(), second.drop_first());
        assert(first =~= seq![first[0]] + first.drop_first());
        assert(second =~= seq![second[0]] + second.drop_first());
    }
}

proof fn lemma_not_after_transitive(first: Seq<char>, second: Seq<char>, third: Seq<char>)
    requires
        not_after(first, second),
        not_after(second, third),
    ensures
        not_after(first, third),
    decreases first.len(),
{
    if first.len() > 0 && first[0] == second[0] && second[0] == third[0] {
        lemma_not_after_transitive(first.drop_first(), second.drop_first(), third.drop_first());
    }
}

proof fn lemma_not_after_total(first: Seq<char>, second: Seq<char>)
    ensures
        not_after(first, second) || not_after(second, first),
    decreases first.len(),
{
    if first.len() > 0 && second.len() > 0 && first[0] == second[0] {
        lemma_not_after_total(first.drop_first(), second.drop_first());
    }
}

/// The order of keys is total.
proof fn lemma_order_is_total()
    ensures
        vstd::relations::total_ordering(
            |first: Seq<char>, second: Seq<char>| not_after(first, second),
        ),
{
    let leq = |first: Seq<char>, second: Seq<char>| not_after(first, second);
    assert forall|a: Seq<char>| #[trigger] leq(a, a) by {
        lemma_not_after_reflexive(a);
    }
    assert forall|a: Seq<char>, b: Seq<char>| #[trigger] leq(a, b) && #[trigger] leq(b, a) implies a
        == b by {
        lemma_not_after_antisymmetric(a, b);
    }
    assert forall|a: Seq<char>, b: Seq<char>, c: Seq<char>| #[trigger]
        leq(a, b) && #[trigger] leq(b, c) implies leq(a, c) by {
        lemma_not_after_transitive(a, b, c);
    }
    assert forall|a: Seq<char>, b: Seq<char>| #[trigger] leq(a, b) || #[trigger] leq(b, a) by {
        lemma_not_after_total(a, b);
    }
}

/// A set in any order holds each of its members once.
proof fn lemma_to_seq_is_unique(keys: Set<Seq<char>>)
    requires
        keys.finite(),
    ensures
        keys.to_seq().no_duplicates(),
    decreases keys.len(),
{
    if keys.len() > 0 {
        let key = keys.choose();
        let rest = keys.remove(key);
        lemma_to_seq_is_unique(rest);
        rest.lemma_to_seq_to_set_id();
        assert forall|i: int, j: int|
            0 <= i < j < keys.to_seq().len() implies keys.to_seq()[i] != keys.to_seq()[j] by {
            if i == 0 {
                assert(rest.to_seq()[j - 1] == keys.to_seq()[j]);
                assert(rest.to_seq().to_set().contains(rest.to_seq()[j - 1]));
            } else {
                assert(rest.to_seq()[i - 1] != rest.to_seq()[j - 1]);
            }
        }
    }
}

/// The keys of a map, in their order, are all its keys, each before those that
/// follow it.
pub proof fn law_keys_are_all_and_ascending(params: ParamMap)
    requires
        params.dom().finite(),
    ensures
        is_ascending(keys_in_order(params)),
        keys_in_order(params).to_set() == params.dom(),
{
    let leq = |first: Seq<char>, second: Seq<char>| not_after(first, second);
    let any = params.dom().to_seq();
    let keys = any.sort_by(leq);
    lemma_order_is_total();
    any.lemma_sort_by_ensures(leq);
    lemma_to_seq_is_unique(params.dom());
    any.lemma_multiset_has_no_duplicates();
    keys.lemma_multiset_has_no_duplicates_conv();
    params.dom().lemma_to_seq_to_set_id();
    assert forall|i: int, j: int| 0 <= i < j < keys.len() implies before(
        #[trigger] keys[i],
        #[trigger] keys[j],
    ) by {
        assert(leq(keys[i], keys[j]));
    }
    assert forall|key: Seq<char>| keys.to_set().contains(key) <==> params.dom().contains(key) by {
        vstd::seq_lib::to_multiset_contains(keys, key);
        vstd::seq_lib::to_multiset_contains(any, key);
        assert(any.to_set().contains(key) <==> any.contains(key));
    }
    assert(keys.to_set() =~= params.dom());
}

/// There is one way only to put texts in their order.
pub proof fn law_ascending_texts_are_one(first: Seq<Seq<char>>, second: Seq<Seq<char>>)
    requires
        is_ascending(first),
        is_ascending(second),
        first.to_set() == second.to_set(),
    ensures
        first == second,
    decreases first.len(),
{
    if first.len() == 0 || second.len() == 0 {
        if first.len() > 0 {
            assert(second.to_set().contains(first[0]));
        }
        if second.len() > 0 {
            assert(first.to_set().contains(second[0]));
        }
        assert(first =~= second);
    } else {
        let a = first.last();
        let b = second.last();
        assert(second.to_set().contains(a)) by {
            assert(first.to_set().contains(first[first.len() - 1]));
        }
        assert(first.to_set().contains(b)) by {
            assert(second.to_set().contains(second[second.len() - 1]));
        }
        let i = choose|i: int| 0 <= i < first.len() && first[i] == b;
        let j = choose|j: int| 0 <= j < second.len() && second[j] == a;
        if a != b {
            assert(before(first[i], first[first.len() - 1]));
            assert(before(second[j], second[second.len() - 1]));
            lemma_not_after_antisymmetric(a, b);
        }
        let mine = first.drop_last();
        let theirs = second.drop_last();
        assert forall|text: Seq<char>|
            mine.to_set().contains(text) <==> theirs.to_set().contains(text) by {
            if mine.to_set().contains(text) {
                let k = choose|k: int| 0 <= k < mine.len() && mine[k] == text;
                assert(before(first[k], first[first.len() - 1]));
                assert(first.to_set().contains(first[k]));
                let l = choose|l: int| 0 <= l < second.len() && second[l] == text;
                assert(theirs[l] == text);
            }
            if theirs.to_set().contains(text) {
                let k = choose|k: int| 0 <= k < theirs.len() && theirs[k] == text;
                assert(before(second[k], second[second.len() - 1]));
                assert(second.to_set().contains(second[k]));
                let l = choose|l: int| 0 <= l < first.len() && first[l] == text;
                assert(mine[l] == text);
            }
        }
        assert(mine.to_set() =~= theirs.to_set());
        assert forall|k: int, l: int| 0 <= k < l < mine.len() implies before(
            #[trigger] mine[k],
            #[trigger] mine[l],
        ) by {
            assert(before(first[k], first[l]));
        }
        assert forall|k: int, l: int| 0 <= k < l < theirs.len() implies before(
            #[trigger] theirs[k],
            #[trigger] theirs[l],
        ) by {
            assert(before(second[k], second[l]));
        }
        law_ascending_texts_are_one(mine, theirs);
        assert(first =~= mine.push(a));
        assert(second =~= theirs.push(b));
    }
}

} // verus!
