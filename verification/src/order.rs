//! That the order of the members of an object does not matter.

use crate::json::{lemma_ordered_names_are_unique, names, Json};
use crate::keys::law_ascending_texts_are_one;
use crate::params::{
    flattened, joined, lemma_members_visits_split, member_visits, members_visits, recorded, visits,
    ParamMap, Visit,
};
use crate::walk::{is_clean, law_record_holds_the_leaves};
use vstd::prelude::*;

verus! {

/// Whether the two values differ at most in the order of the members of objects.
pub open spec fn reordered(first: Json, second: Json) -> bool
    decreases first,
{
    match (first, second) {
        (Json::Array(a), Json::Array(b)) => {
            &&& a.len() == b.len()
            &&& forall|i: int| 0 <= i < a.len() ==> reordered(#[trigger] a[i], b[i])
        },
        (Json::Object(a), Json::Object(b)) => {
            &&& a.len() == b.len()
            &&& forall|i: int| 0 <= i < a.len() ==> has_its_like(#[trigger] a[i], b)
        },
        _ => first == second,
    }
}

/// Whether one of the members has the same name, and the same value but for the
/// order of members in it.
pub open spec fn has_its_like(member: (Seq<char>, Json), members: Seq<(Seq<char>, Json)>) -> bool
    decreases member,
{
    exists|j: int|
        0 <= j < members.len() && (#[trigger] members[j]).0 == member.0 && reordered(
            member.1,
            members[j].1,
        )
}

/// Whether each of the first members has its like among the second.
spec fn members_reordered(first: Seq<(Seq<char>, Json)>, second: Seq<(Seq<char>, Json)>) -> bool {
    &&& first.len() == second.len()
    &&& names(first).no_duplicates()
    &&& names(second).no_duplicates()
    &&& forall|i: int| 0 <= i < first.len() ==> (#[trigger] first[i]).1.unique_names()
    &&& forall|i: int| 0 <= i < second.len() ==> (#[trigger] second[i]).1.unique_names()
    &&& forall|i: int| 0 <= i < first.len() ==> has_its_like(#[trigger] first[i], second)
}

/// The stops of an object are those of one member and those of the others.
proof fn lemma_members_visits_remove(
    prefix: Seq<char>,
    members: Seq<(Seq<char>, Json)>,
    at: int,
)
    requires
        0 <= at < members.len(),
    ensures
        members_visits(prefix, members).to_multiset() =~= members_visits(
            prefix,
            members.remove(at),
        ).to_multiset().add(member_visits(prefix, members[at]).to_multiset()),
{
    let before = members_visits(prefix, members.take(at));
    let own = member_visits(prefix, members[at]);
    let after = members_visits(prefix, members.skip(at + 1));
    lemma_members_visits_split(prefix, members, at + 1);
    assert(members.take(at + 1).drop_last() =~= members.take(at));
    assert(members.take(at + 1).last() == members[at]);
    lemma_members_visits_split(prefix, members.remove(at), at);
    assert(members.remove(at).take(at) =~= members.take(at));
    assert(members.remove(at).skip(at) =~= members.skip(at + 1));
    vstd::seq_lib::lemma_multiset_commutative(before, own);
    vstd::seq_lib::lemma_multiset_commutative(before + own, after);
    vstd::seq_lib::lemma_multiset_commutative(before, after);
}

/// Removing a member keeps the names apart.
proof fn lemma_remove_keeps_names_apart(members: Seq<(Seq<char>, Json)>, at: int)
    requires
        0 <= at < members.len(),
        names(members).no_duplicates(),
    ensures
        names(members.remove(at)).no_duplicates(),
{
    let rest = names(members.remove(at));
    assert forall|i: int, j: int|
        0 <= i < rest.len() && 0 <= j < rest.len() && i != j implies rest[i] != rest[j] by {
        let a = if i < at {
            i
        } else {
            i + 1
        };
        let b = if j < at {
            j
        } else {
            j + 1
        };
        assert(rest[i] == names(members)[a]);
        assert(rest[j] == names(members)[b]);
    }
}

/// Members in another order make the same stops.
proof fn lemma_reordered_members(
    prefix: Seq<char>,
    first: Seq<(Seq<char>, Json)>,
    second: Seq<(Seq<char>, Json)>,
)
    requires
        members_reordered(first, second),
    ensures
        members_visits(prefix, first).to_multiset() == members_visits(prefix, second).to_multiset(),
    decreases first,
{
    if first.len() == 0 {
        assert(members_visits(prefix, first) =~= members_visits(prefix, second));
    } else {
        let last = first.len() - 1;
        assert(has_its_like(first[last], second));
        let j = choose|j: int|
            0 <= j < second.len() && (#[trigger] second[j]).0 == first[last].0 && reordered(
                first[last].1,
                second[j].1,
            );
        let rest = second.remove(j);
        assert(first.remove(last) =~= first.drop_last());
        lemma_remove_keeps_names_apart(first, last);
        lemma_remove_keeps_names_apart(second, j);
        assert forall|i: int| 0 <= i < rest.len() implies (#[trigger] rest[i]).1.unique_names() by {
            assert(rest[i] == second[if i < j {
                i
            } else {
                i + 1
            }]);
        }
        assert forall|i: int| 0 <= i < first.drop_last().len() implies has_its_like(
            #[trigger] first.drop_last()[i],
            rest,
        ) by {
            assert(first.drop_last()[i] == first[i]);
            assert(has_its_like(first[i], second));
            let k = choose|k: int|
                0 <= k < second.len() && (#[trigger] second[k]).0 == first[i].0 && reordered(
                    first[i].1,
                    second[k].1,
                );
            assert(names(first)[i] != names(first)[last]);
            assert(k != j);
            let place = if k < j {
                k
            } else {
                k - 1
            };
            assert(rest[place] == second[k]);
        }
        lemma_reordered_members(prefix, first.drop_last(), rest);
        lemma_members_visits_remove(prefix, second, j);
        lemma_members_visits_remove(prefix, first, last);
        if !first[last].0.contains('.') {
            assert(decreases_to!(first => first[last]));
            assert(decreases_to!(first[last] => first[last].1));
            lemma_reordered_visits(joined(prefix, first[last].0), first[last].1, second[j].1);
        }
    }
}

/// A value with its members in another order makes the same stops.
proof fn lemma_reordered_visits(prefix: Seq<char>, first: Json, second: Json)
    requires
        reordered(first, second),
        first.unique_names(),
        second.unique_names(),
    ensures
        visits(prefix, first).to_multiset() == visits(prefix, second).to_multiset(),
    decreases first,
{
    match (first, second) {
        (Json::Object(a), Json::Object(b)) => {
            assert(decreases_to!(first => first->Object_0));
            lemma_reordered_members(prefix, a, b);
        },
        _ => {},
    }
}

/// The same leaves in another order make the same record.
proof fn lemma_permuted_record(first: Seq<Visit>, second: Seq<Visit>)
    requires
        first.to_multiset() == second.to_multiset(),
        recorded(Map::empty(), first).error is None,
    ensures
        recorded(Map::empty(), second) == recorded(Map::empty(), first),
{
    let held = ParamMap::empty();
    law_record_holds_the_leaves(held, first);
    law_record_holds_the_leaves(held, second);
    assert(first.no_duplicates()) by {
        assert forall|i: int, j: int|
            0 <= i < first.len() && 0 <= j < first.len() && i != j implies first[i] != first[j] by {
            if i < j {
                assert(first[i]->path != first[j]->path);
            } else {
                assert(first[j]->path != first[i]->path);
            }
        }
    }
    first.lemma_multiset_has_no_duplicates();
    second.lemma_multiset_has_no_duplicates_conv();
    assert forall|stop: Visit|
        #![trigger first.contains(stop)]
        #![trigger second.contains(stop)]
        first.contains(stop) <==> second.contains(stop) by {
        vstd::seq_lib::to_multiset_contains(first, stop);
        vstd::seq_lib::to_multiset_contains(second, stop);
    }
    assert forall|i: int| 0 <= i < second.len() implies (#[trigger] second[i]) is Leaf by {
        assert(second.contains(second[i]));
        let k = choose|k: int| 0 <= k < first.len() && first[k] == second[i];
        assert(first[k] is Leaf);
    }
    assert forall|i: int, j: int| 0 <= i < j < second.len() implies (#[trigger] second[i])->path
        != (#[trigger] second[j])->path by {
        assert(second.contains(second[i]) && second.contains(second[j]));
        let k = choose|k: int| 0 <= k < first.len() && first[k] == second[i];
        let l = choose|l: int| 0 <= l < first.len() && first[l] == second[j];
        assert(second[i] != second[j]);
        if k < l {
            assert(first[k]->path != first[l]->path);
        } else {
            assert(first[l]->path != first[k]->path);
        }
    }
    assert(is_clean(held, second));
    let a = recorded(held, first).params;
    let b = recorded(held, second).params;
    assert forall|path: Seq<char>| a.contains_key(path) <==> b.contains_key(path) by {
        if a.contains_key(path) {
            let i = choose|i: int| 0 <= i < first.len() && (#[trigger] first[i])->path == path;
            assert(first.contains(first[i]));
            let k = choose|k: int| 0 <= k < second.len() && second[k] == first[i];
            assert(second[k]->path == path);
        }
        if b.contains_key(path) {
            let i = choose|i: int| 0 <= i < second.len() && (#[trigger] second[i])->path == path;
            assert(second.contains(second[i]));
            let k = choose|k: int| 0 <= k < first.len() && first[k] == second[i];
            assert(first[k]->path == path);
        }
    }
    assert forall|path: Seq<char>| a.contains_key(path) implies a[path] == b[path] by {
        let i = choose|i: int| 0 <= i < first.len() && (#[trigger] first[i])->path == path;
        assert(first.contains(first[i]));
        let k = choose|k: int| 0 <= k < second.len() && second[k] == first[i];
        assert(second[k]->path == path);
    }
    assert(a =~= b);
}

/// Flattened params do not depend on the order of members.
pub proof fn law_flattening_ignores_member_order(first: Json, second: Json)
    requires
        first.unique_names(),
        second.unique_names(),
        reordered(first, second),
        flattened(first) is Ok,
    ensures
        flattened(second) == flattened(first),
{
    lemma_reordered_visits(Seq::empty(), first, second);
    lemma_permuted_record(visits(Seq::empty(), first), visits(Seq::empty(), second));
}

/// Members in another order have the same names.
pub proof fn lemma_reordered_names(
    first: Seq<(Seq<char>, Json)>,
    second: Seq<(Seq<char>, Json)>,
)
    requires
        first.len() == second.len(),
        names(first).no_duplicates(),
        names(second).no_duplicates(),
        forall|i: int| 0 <= i < first.len() ==> has_its_like(#[trigger] first[i], second),
    ensures
        names(first).to_set() == names(second).to_set(),
{
    let mine = names(first).to_set();
    let theirs = names(second).to_set();
    names(first).unique_seq_to_set();
    names(second).unique_seq_to_set();
    vstd::seq_lib::seq_to_set_is_finite(names(first));
    vstd::seq_lib::seq_to_set_is_finite(names(second));
    assert forall|name: Seq<char>| mine.contains(name) implies theirs.contains(name) by {
        let i = choose|i: int| 0 <= i < names(first).len() && names(first)[i] == name;
        assert(has_its_like(first[i], second));
        let j = choose|j: int|
            0 <= j < second.len() && (#[trigger] second[j]).0 == first[i].0 && reordered(
                first[i].1,
                second[j].1,
            );
        assert(names(second)[j] == name);
    }
    vstd::set_lib::lemma_subset_equality(mine, theirs);
}

/// Values that differ at most in the order of members are the same where all
/// members stand in the order of their names.
pub proof fn law_ordered_values_are_one(first: Json, second: Json)
    requires
        first.names_in_order(),
        second.names_in_order(),
        reordered(first, second),
    ensures
        first == second,
    decreases first,
{
    match (first, second) {
        (Json::Array(a), Json::Array(b)) => {
            assert(decreases_to!(first => first->Array_0));
            assert forall|i: int| 0 <= i < a.len() implies a[i] == b[i] by {
                assert(decreases_to!(a => a[i]));
                law_ordered_values_are_one(a[i], b[i]);
            }
            assert(a =~= b);
        },
        (Json::Object(a), Json::Object(b)) => {
            assert(decreases_to!(first => first->Object_0));
            lemma_ordered_names_are_unique(first);
            lemma_ordered_names_are_unique(second);
            lemma_reordered_names(a, b);
            law_ascending_texts_are_one(names(a), names(b));
            assert forall|i: int| 0 <= i < a.len() implies a[i] == b[i] by {
                assert(decreases_to!(a => a[i]));
                assert(decreases_to!(a[i] => a[i].1));
                assert(has_its_like(a[i], b));
                let j = choose|j: int|
                    0 <= j < b.len() && (#[trigger] b[j]).0 == a[i].0 && reordered(a[i].1, b[j].1);
                assert(names(b)[j] == names(b)[i]) by {
                    assert(names(a)[i] == names(b)[i]);
                }
                assert(j == i);
                law_ordered_values_are_one(a[i].1, b[i].1);
            }
            assert(a =~= b);
        },
        _ => {},
    }
}

} // verus!
