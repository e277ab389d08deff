//! What flattening promises of every value.

use crate::json::{
    first_member, lemma_first_member_place, lemma_unique_member_is_first, names, Json,
};
use crate::params::{
    collision_error, dotted_error, flattened, joined, lemma_members_visits_split,
    lemma_recorded_concat, lemma_recorded_one, member_visits, members_visits, recorded, scalar_text,
    visits, ParamMap, Record, Visit,
};
use vstd::prelude::*;

verus! {

/// Whether every stop is a leaf, each at a path of its own that is not yet held.
pub open spec fn is_clean(held: ParamMap, stops: Seq<Visit>) -> bool {
    &&& forall|i: int|
        0 <= i < stops.len() ==> (#[trigger] stops[i]) is Leaf && !held.contains_key(stops[i]->path)
    &&& forall|i: int, j: int|
        0 <= i < j < stops.len() ==> (#[trigger] stops[i])->path != (#[trigger] stops[j])->path
}

/// Whether the params are those held and the leaves among the stops.
pub open spec fn is_union(params: ParamMap, held: ParamMap, stops: Seq<Visit>) -> bool {
    &&& forall|path: Seq<char>| #[trigger]
        params.contains_key(path) <==> held.contains_key(path) || exists|i: int|
            0 <= i < stops.len() && (#[trigger] stops[i])->path == path
    &&& forall|path: Seq<char>| #[trigger]
        held.contains_key(path) ==> params[path] == held[path]
    &&& forall|i: int|
        0 <= i < stops.len() ==> params[(#[trigger] stops[i])->path] == stops[i]->text
}

/// A walk is written down to its end exactly if every stop of it is a leaf at a
/// path of its own. Then the record holds what was held before, the leaves, and
/// nothing else.
pub proof fn law_record_holds_the_leaves(held: ParamMap, stops: Seq<Visit>)
    ensures
        recorded(held, stops).error is None <==> is_clean(held, stops),
        is_clean(held, stops) ==> is_union(recorded(held, stops).params, held, stops),
    decreases stops.len(),
{
    if stops.len() > 0 {
        let before = stops.drop_last();
        law_record_holds_the_leaves(held, before);
        let last = stops.len() - 1;
        if is_clean(held, stops) {
            assert(is_clean(held, before)) by {
                assert forall|i: int| 0 <= i < before.len() implies (#[trigger] before[i]) is Leaf
                    && !held.contains_key(before[i]->path) by {
                    assert(before[i] == stops[i]);
                }
                assert forall|i: int, j: int| 0 <= i < j < before.len() implies (
                #[trigger] before[i])->path != (#[trigger] before[j])->path by {
                    assert(before[i] == stops[i] && before[j] == stops[j]);
                }
            }
            assert(stops[last] is Leaf);
            let params = recorded(held, stops).params;
            let earlier = recorded(held, before).params;
            assert(!earlier.contains_key(stops[last]->path));
            assert forall|path: Seq<char>| #[trigger]
                params.contains_key(path) <==> held.contains_key(path) || exists|i: int|
                    0 <= i < stops.len() && (#[trigger] stops[i])->path == path by {
                if earlier.contains_key(path) && !held.contains_key(path) {
                    let i = choose|i: int|
                        0 <= i < before.len() && (#[trigger] before[i])->path == path;
                    assert(stops[i]->path == path);
                }
                if exists|i: int| 0 <= i < stops.len() && (#[trigger] stops[i])->path == path {
                    let i = choose|i: int|
                        0 <= i < stops.len() && (#[trigger] stops[i])->path == path;
                    if i < last {
                        assert(before[i]->path == path);
                    }
                }
                if path == stops[last]->path {
                    assert(stops[last]->path == path);
                }
            }
            assert forall|i: int| 0 <= i < stops.len() implies params[(
            #[trigger] stops[i])->path] == stops[i]->text by {
                if i < last {
                    assert(before[i] == stops[i]);
                }
            }
        } else if recorded(held, before).error is None && stops.last() is Leaf
            && !recorded(held, before).params.contains_key(stops.last()->path) {
            assert forall|i: int| 0 <= i < stops.len() implies (#[trigger] stops[i]) is Leaf
                && !held.contains_key(stops[i]->path) by {
                if i < last {
                    assert(before[i] == stops[i]);
                }
            }
            assert forall|i: int, j: int| 0 <= i < j < stops.len() implies (
            #[trigger] stops[i])->path != (#[trigger] stops[j])->path by {
                assert(before[i] == stops[i]);
                if j < last {
                    assert(before[j] == stops[j]);
                }
            }
        }
    }
}

/// A walk that is given up is given up at the first stop that is not a leaf at a
/// path of its own, and the error says what was wrong there.
pub proof fn law_error_names_the_first_fault(held: ParamMap, stops: Seq<Visit>) -> (at: int)
    requires
        recorded(held, stops).error is Some,
    ensures
        0 <= at < stops.len(),
        is_clean(held, stops.take(at)),
        !is_clean(held, stops.take(at + 1)),
        recorded(held, stops).error == Some(
            match stops[at] {
                Visit::Dotted { name } => dotted_error(name),
                Visit::Leaf { path, text } => collision_error(path),
            },
        ),
        recorded(held, stops) == recorded(held, stops.take(at + 1)),
    decreases stops.len(),
{
    let before = stops.drop_last();
    if recorded(held, before).error is Some {
        let at = law_error_names_the_first_fault(held, before);
        assert(before.take(at) =~= stops.take(at));
        assert(before.take(at + 1) =~= stops.take(at + 1));
        at
    } else {
        let at = stops.len() - 1;
        assert(stops.take(at) =~= before);
        assert(stops.take(at + 1) =~= stops);
        law_record_holds_the_leaves(held, before);
        law_record_holds_the_leaves(held, stops);
        at
    }
}

/// The value at the end of a path of member names.
pub open spec fn value_at(value: Json, path: Seq<Seq<char>>) -> Option<Json>
    decreases path.len(),
{
    if path.len() == 0 {
        Some(value)
    } else {
        match value.member(path[0]) {
            Some(child) => value_at(child, path.drop_first()),
            None => None,
        }
    }
}

/// The text of the string, number or bool at the end of a path.
pub open spec fn text_at(value: Json, path: Seq<Seq<char>>) -> Option<Seq<char>> {
    match value_at(value, path) {
        Some(end) => scalar_text(end),
        None => None,
    }
}

/// The path as flattened params write it, below `prefix`.
pub open spec fn dotted(prefix: Seq<char>, path: Seq<Seq<char>>) -> Seq<char>
    decreases path.len(),
{
    if path.len() == 0 {
        prefix
    } else {
        dotted(joined(prefix, path[0]), path.drop_first())
    }
}

/// How many stops come before those of the member at that place.
spec fn offset(prefix: Seq<char>, members: Seq<(Seq<char>, Json)>, at: int) -> int {
    members_visits(prefix, members.take(at)).len() as int
}

/// The stops of a member stand together among those of its object.
proof fn lemma_segment(prefix: Seq<char>, members: Seq<(Seq<char>, Json)>, at: int)
    requires
        0 <= at < members.len(),
    ensures
        0 <= offset(prefix, members, at),
        offset(prefix, members, at + 1) == offset(prefix, members, at) + member_visits(
            prefix,
            members[at],
        ).len(),
        offset(prefix, members, at + 1) <= members_visits(prefix, members).len(),
        forall|i: int|
            0 <= i < member_visits(prefix, members[at]).len() ==> members_visits(prefix, members)[
            offset(prefix, members, at) + i] == #[trigger] member_visits(prefix, members[at])[i],
{
    lemma_members_visits_split(prefix, members, at + 1);
    assert(members.take(at + 1).drop_last() =~= members.take(at));
    assert(members.take(at + 1).last() == members[at]);
}

/// The stops of a member come before those of a later one.
proof fn lemma_offset_ordered(
    prefix: Seq<char>,
    members: Seq<(Seq<char>, Json)>,
    first: int,
    second: int,
)
    requires
        0 <= first <= second <= members.len(),
    ensures
        offset(prefix, members, first) <= offset(prefix, members, second),
{
    lemma_members_visits_split(prefix, members.take(second), first);
    assert(members.take(second).take(first) =~= members.take(first));
}

/// The member that a stop belongs to, and the place of the stop among its own.
proof fn lemma_stop_of_member(prefix: Seq<char>, members: Seq<(Seq<char>, Json)>, i: int) -> (r: (
    int,
    int,
))
    requires
        0 <= i < members_visits(prefix, members).len(),
    ensures
        0 <= r.0 < members.len(),
        0 <= r.1 < member_visits(prefix, members[r.0]).len(),
        i == offset(prefix, members, r.0) + r.1,
        members_visits(prefix, members)[i] == member_visits(prefix, members[r.0])[r.1],
    decreases members.len(),
{
    let before = members_visits(prefix, members.drop_last()).len();
    let last = members.len() - 1;
    assert(members.take(last) =~= members.drop_last());
    if i < before {
        let r = lemma_stop_of_member(prefix, members.drop_last(), i);
        assert(members.drop_last().take(r.0) =~= members.take(r.0));
        r
    } else {
        (last, i - before)
    }
}

/// On a clean walk, the text at the end of a path is met, at that path.
proof fn lemma_leaf_is_met(prefix: Seq<char>, value: Json, path: Seq<Seq<char>>) -> (i: int)
    requires
        forall|k: int|
            0 <= k < visits(prefix, value).len() ==> #[trigger] visits(prefix, value)[k] is Leaf,
        text_at(value, path) is Some,
        dotted(prefix, path).len() > 0,
    ensures
        0 <= i < visits(prefix, value).len(),
        visits(prefix, value)[i] == (Visit::Leaf {
            path: dotted(prefix, path),
            text: text_at(value, path)->0,
        }),
    decreases path.len(),
{
    if path.len() == 0 {
        0
    } else {
        let members = value->Object_0;
        let at = lemma_first_member_place(members, path[0]);
        lemma_segment(prefix, members, at);
        let below = member_visits(prefix, members[at]);
        let start = offset(prefix, members, at);
        if path[0].contains('.') {
            assert(below[0] is Dotted);
            assert(visits(prefix, value)[start + 0] is Dotted);
        }
        assert forall|k: int| 0 <= k < below.len() implies #[trigger] below[k] is Leaf by {
            assert(visits(prefix, value)[start + k] == below[k]);
        }
        let k = lemma_leaf_is_met(joined(prefix, path[0]), members[at].1, path.drop_first());
        start + k
    }
}

/// On a clean walk, the texts at the ends of two paths are met at two stops.
proof fn lemma_two_leaves_are_met(
    prefix: Seq<char>,
    value: Json,
    first: Seq<Seq<char>>,
    second: Seq<Seq<char>>,
) -> (r: (int, int))
    requires
        forall|k: int|
            0 <= k < visits(prefix, value).len() ==> #[trigger] visits(prefix, value)[k] is Leaf,
        first != second,
        text_at(value, first) is Some,
        text_at(value, second) is Some,
        dotted(prefix, first).len() > 0,
        dotted(prefix, second).len() > 0,
    ensures
        0 <= r.0 < visits(prefix, value).len(),
        0 <= r.1 < visits(prefix, value).len(),
        r.0 != r.1,
        visits(prefix, value)[r.0]->path == dotted(prefix, first),
        visits(prefix, value)[r.1]->path == dotted(prefix, second),
    decreases first.len(),
{
    if first.len() == 0 || second.len() == 0 {
        assert(first.len() == 0 && second.len() == 0);
        assert(first =~= second);
        (0, 0)
    } else {
        let members = value->Object_0;
        let a = lemma_first_member_place(members, first[0]);
        lemma_segment(prefix, members, a);
        let start = offset(prefix, members, a);
        if first[0] == second[0] {
            let below = member_visits(prefix, members[a]);
            if first[0].contains('.') {
                assert(below[0] is Dotted);
                assert(visits(prefix, value)[start + 0] is Dotted);
            }
            assert forall|k: int| 0 <= k < below.len() implies #[trigger] below[k] is Leaf by {
                assert(visits(prefix, value)[start + k] == below[k]);
            }
            if first.drop_first() == second.drop_first() {
                assert(first =~= seq![first[0]] + first.drop_first());
                assert(second =~= seq![second[0]] + second.drop_first());
            }
            let r = lemma_two_leaves_are_met(
                joined(prefix, first[0]),
                members[a].1,
                first.drop_first(),
                second.drop_first(),
            );
            (start + r.0, start + r.1)
        } else {
            let b = lemma_first_member_place(members, second[0]);
            lemma_segment(prefix, members, b);
            if a < b {
                lemma_offset_ordered(prefix, members, a + 1, b);
            } else {
                lemma_offset_ordered(prefix, members, b + 1, a);
            }
            let i = lemma_leaf_in_member(prefix, value, first, a);
            let j = lemma_leaf_in_member(prefix, value, second, b);
            (i, j)
        }
    }
}

/// On a clean walk, the text at the end of a path is met among the stops of the
/// member that the path begins with.
proof fn lemma_leaf_in_member(prefix: Seq<char>, value: Json, path: Seq<Seq<char>>, at: int) -> (i:
    int)
    requires
        forall|k: int|
            0 <= k < visits(prefix, value).len() ==> #[trigger] visits(prefix, value)[k] is Leaf,
        value is Object,
        path.len() > 0,
        0 <= at < value->Object_0.len(),
        value->Object_0[at] == (path[0], first_member(value->Object_0, path[0])->0),
        first_member(value->Object_0, path[0]) is Some,
        text_at(value, path) is Some,
        dotted(prefix, path).len() > 0,
    ensures
        offset(prefix, value->Object_0, at) <= i < offset(prefix, value->Object_0, at + 1),
        visits(prefix, value)[i]->path == dotted(prefix, path),
        offset(prefix, value->Object_0, at + 1) <= visits(prefix, value).len(),
{
    let members = value->Object_0;
    lemma_segment(prefix, members, at);
    let below = member_visits(prefix, members[at]);
    let start = offset(prefix, members, at);
    if path[0].contains('.') {
        assert(below[0] is Dotted);
        assert(visits(prefix, value)[start + 0] is Dotted);
    }
    assert forall|k: int| 0 <= k < below.len() implies #[trigger] below[k] is Leaf by {
        assert(visits(prefix, value)[start + k] == below[k]);
    }
    let k = lemma_leaf_is_met(joined(prefix, path[0]), members[at].1, path.drop_first());
    assert(below[k]->path == dotted(prefix, path));
    start + k
}

/// Every leaf that is met is at the end of a path.
proof fn lemma_leaf_has_a_path(prefix: Seq<char>, value: Json, i: int) -> (path: Seq<Seq<char>>)
    requires
        value.unique_names(),
        0 <= i < visits(prefix, value).len(),
        visits(prefix, value)[i] is Leaf,
    ensures
        text_at(value, path) == Some(visits(prefix, value)[i]->text),
        dotted(prefix, path) == visits(prefix, value)[i]->path,
    decreases value,
{
    match value {
        Json::Object(members) => {
            let (at, k) = lemma_stop_of_member(prefix, members, i);
            assert(decreases_to!(value => value->Object_0));
            assert(decreases_to!(members => members[at]));
            assert(decreases_to!(members[at] => members[at].1));
            let below = lemma_leaf_has_a_path(joined(prefix, members[at].0), members[at].1, k);
            lemma_unique_member_is_first(members, at);
            let path = seq![members[at].0] + below;
            assert(path.drop_first() =~= below);
            path
        },
        _ => Seq::empty(),
    }
}

/// Flattened params hold every string, number and bool that a path of member
/// names leads to, under that path written with dots.
pub proof fn law_params_hold_every_leaf(value: Json, path: Seq<Seq<char>>)
    requires
        flattened(value) is Ok,
        text_at(value, path) is Some,
        dotted(Seq::empty(), path).len() > 0,
    ensures
        flattened(value)->Ok_0.contains_key(dotted(Seq::empty(), path)),
        flattened(value)->Ok_0[dotted(Seq::empty(), path)] == text_at(value, path)->0,
{
    let stops = visits(Seq::empty(), value);
    law_record_holds_the_leaves(Map::empty(), stops);
    let i = lemma_leaf_is_met(Seq::empty(), value, path);
    assert(stops[i]->path == dotted(Seq::empty(), path));
}

/// Flattened params hold nothing else: each entry is the text at the end of a path.
pub proof fn law_every_param_is_a_leaf(value: Json, key: Seq<char>) -> (path: Seq<Seq<char>>)
    requires
        value.unique_names(),
        flattened(value) is Ok,
        flattened(value)->Ok_0.contains_key(key),
    ensures
        dotted(Seq::empty(), path) == key,
        text_at(value, path) == Some(flattened(value)->Ok_0[key]),
{
    let stops = visits(Seq::empty(), value);
    law_record_holds_the_leaves(Map::empty(), stops);
    let i = choose|i: int| 0 <= i < stops.len() && (#[trigger] stops[i])->path == key;
    lemma_leaf_has_a_path(Seq::empty(), value, i)
}

/// Flattened params are unambiguous: no two paths are written alike.
pub proof fn law_params_are_unambiguous(
    value: Json,
    first: Seq<Seq<char>>,
    second: Seq<Seq<char>>,
)
    requires
        flattened(value) is Ok,
        text_at(value, first) is Some,
        text_at(value, second) is Some,
        dotted(Seq::empty(), first).len() > 0,
        dotted(Seq::empty(), first) == dotted(Seq::empty(), second),
    ensures
        first == second,
{
    let stops = visits(Seq::empty(), value);
    law_record_holds_the_leaves(Map::empty(), stops);
    if first != second {
        let (i, j) = lemma_two_leaves_are_met(Seq::empty(), value, first, second);
        if i < j {
            assert(stops[i]->path != stops[j]->path);
        } else {
            assert(stops[j]->path != stops[i]->path);
        }
    }
}

/// Whether the path is `base`, or goes on from it with a dot.
spec fn is_under(base: Seq<char>, path: Seq<char>) -> bool {
    &&& base.len() <= path.len()
    &&& path.take(base.len() as int) == base
    &&& base.len() < path.len() ==> path[base.len() as int] == '.'
}

/// Every leaf is met at or below the path of the value that holds it.
proof fn lemma_leaf_is_under(prefix: Seq<char>, value: Json, i: int)
    requires
        prefix.len() > 0,
        0 <= i < visits(prefix, value).len(),
        visits(prefix, value)[i] is Leaf,
    ensures
        is_under(prefix, visits(prefix, value)[i]->path),
    decreases value,
{
    match value {
        Json::Object(members) => {
            let (at, k) = lemma_stop_of_member(prefix, members, i);
            assert(decreases_to!(value => value->Object_0));
            assert(decreases_to!(members => members[at]));
            assert(decreases_to!(members[at] => members[at].1));
            let base = joined(prefix, members[at].0);
            lemma_leaf_is_under(base, members[at].1, k);
            let path = visits(prefix, value)[i]->path;
            assert(path.take(base.len() as int).take(prefix.len() as int) =~= path.take(
                prefix.len() as int,
            ));
            assert(base.take(prefix.len() as int) =~= prefix);
            assert(path[prefix.len() as int] == path.take(base.len() as int)[prefix.len() as int]);
        },
        _ => {
            let path = visits(prefix, value)[i]->path;
            assert(path.take(prefix.len() as int) =~= prefix);
        },
    }
}

/// No path is at or below two members of one object, where neither name holds a dot.
proof fn lemma_members_are_apart(
    prefix: Seq<char>,
    first: Seq<char>,
    second: Seq<char>,
    path: Seq<char>,
)
    requires
        !first.contains('.'),
        !second.contains('.'),
        is_under(joined(prefix, first), path),
        is_under(joined(prefix, second), path),
    ensures
        first == second,
{
    let a = joined(prefix, first);
    let b = joined(prefix, second);
    let start = a.len() - first.len();
    if first.len() < second.len() {
        assert(path[a.len() as int] == b[a.len() as int]);
        assert(b[a.len() as int] == second[first.len() as int]);
    } else if second.len() < first.len() {
        assert(path[b.len() as int] == a[b.len() as int]);
        assert(a[b.len() as int] == first[second.len() as int]);
    } else {
        assert forall|i: int| 0 <= i < first.len() implies first[i] == second[i] by {
            assert(a[start + i] == path[start + i]);
            assert(b[start + i] == path[start + i]);
        }
        assert(first =~= second);
    }
}

/// Whether a walk that starts with the value gives every member a path that is
/// not empty: no member of the outermost object is named by the empty string.
pub open spec fn names_are_visible(value: Json) -> bool {
    value matches Json::Object(members) ==> forall|i: int|
        0 <= i < members.len() ==> (#[trigger] members[i]).0.len() > 0
}

/// No two leaves are met at one path.
proof fn lemma_leaves_are_apart(prefix: Seq<char>, value: Json, i: int, j: int)
    requires
        value.unique_names(),
        prefix.len() > 0 || names_are_visible(value),
        0 <= i < j < visits(prefix, value).len(),
        visits(prefix, value)[i] is Leaf,
        visits(prefix, value)[j] is Leaf,
    ensures
        visits(prefix, value)[i]->path != visits(prefix, value)[j]->path,
    decreases value,
{
    let members = value->Object_0;
    let (a, k) = lemma_stop_of_member(prefix, members, i);
    let (b, l) = lemma_stop_of_member(prefix, members, j);
    assert(members[a].0.len() > 0 || prefix.len() > 0);
    assert(members[b].0.len() > 0 || prefix.len() > 0);
    if a == b {
        assert(decreases_to!(value => value->Object_0));
        assert(decreases_to!(members => members[a]));
        assert(decreases_to!(members[a] => members[a].1));
        lemma_leaves_are_apart(joined(prefix, members[a].0), members[a].1, k, l);
    } else {
        lemma_leaf_is_under(joined(prefix, members[a].0), members[a].1, k);
        lemma_leaf_is_under(joined(prefix, members[b].0), members[b].1, l);
        assert(names(members)[a] != names(members)[b]);
        if visits(prefix, value)[i]->path == visits(prefix, value)[j]->path {
            lemma_members_are_apart(
                prefix,
                members[a].0,
                members[b].0,
                visits(prefix, value)[i]->path,
            );
        }
    }
}

/// Params none of whose outermost members has an empty name collide nowhere: they
/// are refused exactly for a name that holds a dot.
pub proof fn law_only_dotted_names_are_refused(value: Json)
    requires
        value.unique_names(),
        names_are_visible(value),
    ensures
        flattened(value) is Ok <==> forall|i: int|
            0 <= i < visits(Seq::empty(), value).len() ==> #[trigger] visits(
                Seq::empty(),
                value,
            )[i] is Leaf,
        flattened(value) matches Err(error) ==> exists|name: Seq<char>|
            name.contains('.') && error == #[trigger] dotted_error(name),
{
    let stops = visits(Seq::empty(), value);
    let held = ParamMap::empty();
    law_record_holds_the_leaves(held, stops);
    if forall|i: int| 0 <= i < stops.len() ==> #[trigger] stops[i] is Leaf {
        assert forall|i: int, j: int| 0 <= i < j < stops.len() implies (
        #[trigger] stops[i])->path != (#[trigger] stops[j])->path by {
            lemma_leaves_are_apart(Seq::empty(), value, i, j);
        }
        assert(is_clean(held, stops));
    }
    if flattened(value) is Err {
        let at = law_error_names_the_first_fault(held, stops);
        let upto = stops.take(at + 1);
        if stops[at] is Leaf {
            assert forall|i: int| 0 <= i < upto.len() implies (#[trigger] upto[i]) is Leaf
                && !held.contains_key(upto[i]->path) by {
                if i < at {
                    assert(stops.take(at)[i] == upto[i]);
                }
            }
            assert forall|i: int, j: int| 0 <= i < j < upto.len() implies (
            #[trigger] upto[i])->path != (#[trigger] upto[j])->path by {
                assert(upto[i] == stops[i] && upto[j] == stops[j]);
                lemma_leaves_are_apart(Seq::empty(), value, i, j);
            }
            assert(is_clean(held, upto));
        } else {
            lemma_dotted_stop_has_a_dot(Seq::empty(), value, at);
            assert(flattened(value)->Err_0 == dotted_error(stops[at]->name));
        }
    }
}

/// A name that a walk stops at for its dot has one.
proof fn lemma_dotted_stop_has_a_dot(prefix: Seq<char>, value: Json, i: int)
    requires
        0 <= i < visits(prefix, value).len(),
        visits(prefix, value)[i] is Dotted,
    ensures
        visits(prefix, value)[i]->name.contains('.'),
    decreases value,
{
    let members = value->Object_0;
    let (at, k) = lemma_stop_of_member(prefix, members, i);
    if !members[at].0.contains('.') {
        assert(decreases_to!(value => value->Object_0));
        assert(decreases_to!(members => members[at]));
        assert(decreases_to!(members[at] => members[at].1));
        lemma_dotted_stop_has_a_dot(joined(prefix, members[at].0), members[at].1, k);
    }
}

/// Params that are no object flatten to nothing.
pub proof fn law_positional_params_are_empty(value: Json)
    requires
        !(value is Object),
    ensures
        flattened(value) == Ok::<ParamMap, Seq<char>>(Map::empty()),
{
}

/// A record of finitely many entries stays so.
proof fn lemma_record_is_finite(held: ParamMap, stops: Seq<Visit>)
    requires
        held.dom().finite(),
    ensures
        recorded(held, stops).params.dom().finite(),
    decreases stops.len(),
{
    if stops.len() > 0 {
        lemma_record_is_finite(held, stops.drop_last());
    }
}

/// Flattened params are finitely many.
pub proof fn law_params_are_finite(value: Json)
    ensures
        flattened(value) matches Ok(params) ==> params.dom().finite(),
{
    lemma_record_is_finite(Map::empty(), visits(Seq::empty(), value));
}

/// The names of a path with a dot between each two, the empty ones that it begins
/// with left out.
pub open spec fn spelled(path: Seq<Seq<char>>) -> Seq<char>
    decreases path.len(),
{
    if path.len() == 0 {
        Seq::empty()
    } else {
        let before = spelled(path.drop_last());
        if before.len() == 0 {
            path.last()
        } else {
            before + seq!['.'] + path.last()
        }
    }
}

/// Whether the value is a string, a number or a bool that is written as that text.
pub open spec fn is_written(value: Json, text: Seq<char>) -> bool {
    ||| value == Json::String(text)
    ||| value == Json::Number(text)
    ||| value == Json::Bool(true) && text == seq!['t', 'r', 'u', 'e']
    ||| value == Json::Bool(false) && text == seq!['f', 'a', 'l', 's', 'e']
}

/// A path grows at its end as it does at its beginning.
proof fn lemma_dotted_push(prefix: Seq<char>, path: Seq<Seq<char>>)
    requires
        path.len() > 0,
    ensures
        dotted(prefix, path) == joined(dotted(prefix, path.drop_last()), path.last()),
    decreases path.len(),
{
    if path.len() == 1 {
        assert(path.drop_first() =~= Seq::empty());
        assert(path.drop_last() =~= Seq::empty());
        reveal_with_fuel(dotted, 2);
    } else {
        lemma_dotted_push(joined(prefix, path[0]), path.drop_first());
        assert(path.drop_first().drop_last() =~= path.drop_last().drop_first());
        assert(path.drop_first().last() == path.last());
        assert(path.drop_last()[0] == path[0]);
    }
}

proof fn lemma_dotted_is_spelled(path: Seq<Seq<char>>)
    ensures
        dotted(Seq::empty(), path) == spelled(path),
    decreases path.len(),
{
    if path.len() > 0 {
        lemma_dotted_push(Seq::empty(), path);
        lemma_dotted_is_spelled(path.drop_last());
    }
}

proof fn lemma_scalar_is_written(value: Json, text: Seq<char>)
    ensures
        scalar_text(value) == Some(text) <==> is_written(value, text),
{
    reveal_strlit("true");
    reveal_strlit("false");
    assert("true"@ =~= seq!['t', 'r', 'u', 'e']);
    assert("false"@ =~= seq!['f', 'a', 'l', 's', 'e']);
}

/// Accepted params give back what was sent: a string is held with its characters, a
/// number with the text that it prints as, and a bool as `true` or `false`, each
/// under the names that lead to it, with dots between them.
pub proof fn law_params_give_back_what_was_sent(
    value: Json,
    path: Seq<Seq<char>>,
    text: Seq<char>,
)
    requires
        flattened(value) is Ok,
        spelled(path).len() > 0,
    ensures
        value_at(value, path) == Some(Json::String(text)) ==> flattened(value)->Ok_0.contains_key(
            spelled(path),
        ) && flattened(value)->Ok_0[spelled(path)] == text,
        value_at(value, path) == Some(Json::Number(text)) ==> flattened(value)->Ok_0.contains_key(
            spelled(path),
        ) && flattened(value)->Ok_0[spelled(path)] == text,
        value_at(value, path) == Some(Json::Bool(true)) ==> flattened(value)->Ok_0.contains_key(
            spelled(path),
        ) && flattened(value)->Ok_0[spelled(path)] == seq!['t', 'r', 'u', 'e'],
        value_at(value, path) == Some(Json::Bool(false)) ==> flattened(value)->Ok_0.contains_key(
            spelled(path),
        ) && flattened(value)->Ok_0[spelled(path)] == seq!['f', 'a', 'l', 's', 'e'],
{
    lemma_dotted_is_spelled(path);
    if let Some(end) = value_at(value, path) {
        if let Some(shown) = scalar_text(end) {
            lemma_scalar_is_written(end, shown);
            law_params_hold_every_leaf(value, path);
        }
        lemma_scalar_is_written(end, text);
        lemma_scalar_is_written(end, seq!['t', 'r', 'u', 'e']);
        lemma_scalar_is_written(end, seq!['f', 'a', 'l', 's', 'e']);
    }
}

/// Accepted params hold nothing that was not sent: each entry is a string, a number
/// or a bool of the value, under the names that lead to it.
pub proof fn law_params_hold_only_what_was_sent(value: Json, key: Seq<char>) -> (path: Seq<
    Seq<char>,
>)
    requires
        value.unique_names(),
        flattened(value) is Ok,
        flattened(value)->Ok_0.contains_key(key),
    ensures
        key.len() > 0,
        spelled(path) == key,
        value_at(value, path) is Some,
        is_written(value_at(value, path)->0, flattened(value)->Ok_0[key]),
{
    let stops = visits(Seq::empty(), value);
    law_record_holds_the_leaves(Map::empty(), stops);
    let i = choose|i: int| 0 <= i < stops.len() && (#[trigger] stops[i])->path == key;
    lemma_leaf_has_a_name(Seq::empty(), value, i);
    let path = law_every_param_is_a_leaf(value, key);
    lemma_dotted_is_spelled(path);
    lemma_scalar_is_written(value_at(value, path)->0, flattened(value)->Ok_0[key]);
    path
}

/// No leaf is met at the empty path.
proof fn lemma_leaf_has_a_name(prefix: Seq<char>, value: Json, i: int)
    requires
        0 <= i < visits(prefix, value).len(),
        visits(prefix, value)[i] is Leaf,
    ensures
        visits(prefix, value)[i]->path.len() > 0,
    decreases value,
{
    if let Json::Object(members) = value {
        let (at, k) = lemma_stop_of_member(prefix, members, i);
        assert(decreases_to!(value => value->Object_0));
        assert(decreases_to!(members => members[at]));
        assert(decreases_to!(members[at] => members[at].1));
        lemma_leaf_has_a_name(joined(prefix, members[at].0), members[at].1, k);
    }
}

/// A walk of leaves alone passes no name that holds a dot.
proof fn lemma_no_dotted_name_is_passed(
    prefix: Seq<char>,
    value: Json,
    path: Seq<Seq<char>>,
    i: int,
)
    requires
        forall|k: int|
            0 <= k < visits(prefix, value).len() ==> #[trigger] visits(prefix, value)[k] is Leaf,
        value_at(value, path) matches Some(Json::Object(members)) && 0 <= i < members.len(),
    ensures
        !(value_at(value, path)->0->Object_0)[i].0.contains('.'),
    decreases path.len(),
{
    let members = value->Object_0;
    if path.len() == 0 {
        lemma_segment(prefix, members, i);
        if members[i].0.contains('.') {
            assert(member_visits(prefix, members[i])[0] is Dotted);
            assert(visits(prefix, value)[offset(prefix, members, i) + 0] is Dotted);
        }
    } else {
        let at = lemma_first_member_place(members, path[0]);
        lemma_segment(prefix, members, at);
        let below = member_visits(prefix, members[at]);
        let start = offset(prefix, members, at);
        if path[0].contains('.') {
            assert(below[0] is Dotted);
            assert(visits(prefix, value)[start + 0] is Dotted);
        }
        assert forall|k: int| 0 <= k < below.len() implies #[trigger] below[k] is Leaf by {
            assert(visits(prefix, value)[start + k] == below[k]);
        }
        lemma_no_dotted_name_is_passed(
            joined(prefix, path[0]),
            members[at].1,
            path.drop_first(),
            i,
        );
    }
}

/// Accepted params have no member whose name holds a dot, in any object that names
/// lead to, whatever the value of that member.
pub proof fn law_accepted_params_have_no_dotted_name(
    value: Json,
    path: Seq<Seq<char>>,
    members: Seq<(Seq<char>, Json)>,
    i: int,
)
    requires
        flattened(value) is Ok,
        value_at(value, path) == Some(Json::Object(members)),
        0 <= i < members.len(),
    ensures
        !members[i].0.contains('.'),
{
    law_record_holds_the_leaves(Map::empty(), visits(Seq::empty(), value));
    lemma_no_dotted_name_is_passed(Seq::empty(), value, path, i);
}

/// Accepted params hold no two values at one path: names that are spelled alike are
/// the same names.
pub proof fn law_accepted_params_are_unambiguous(
    value: Json,
    first: Seq<Seq<char>>,
    second: Seq<Seq<char>>,
    first_text: Seq<char>,
    second_text: Seq<char>,
)
    requires
        flattened(value) is Ok,
        value_at(value, first) matches Some(end) && is_written(end, first_text),
        value_at(value, second) matches Some(end) && is_written(end, second_text),
        spelled(first) == spelled(second),
        spelled(first).len() > 0,
    ensures
        first == second,
{
    lemma_dotted_is_spelled(first);
    lemma_dotted_is_spelled(second);
    lemma_scalar_is_written(value_at(value, first)->0, first_text);
    lemma_scalar_is_written(value_at(value, second)->0, second_text);
    law_params_are_unambiguous(value, first, second);
}

/// Whether a name that holds a dot is met, in an object that names lead to.
pub open spec fn has_dotted_name(value: Json, name: Seq<char>) -> bool {
    exists|path: Seq<Seq<char>>, i: int|
        #![trigger value_at(value, path), name_at(value_at(value, path), i)]
        name.contains('.') && name_at(value_at(value, path), i) == Some(name)
}

/// The name of the member at that place, where there is an object with one.
pub open spec fn name_at(end: Option<Json>, i: int) -> Option<Seq<char>> {
    match end {
        Some(Json::Object(members)) => if 0 <= i < members.len() {
            Some(members[i].0)
        } else {
            None
        },
        _ => None,
    }
}

/// Whether names lead to a string, a number or a bool.
pub open spec fn leads_to_text(value: Json, path: Seq<Seq<char>>) -> bool {
    value_at(value, path) matches Some(end) && (end is String || end is Number || end is Bool)
}

/// Whether two different paths to a text are spelled that way.
pub open spec fn is_spelled_twice(value: Json, key: Seq<char>) -> bool {
    exists|first: Seq<Seq<char>>, second: Seq<Seq<char>>|
        first != second && key.len() > 0 && #[trigger] leads_to_text(value, first)
            && #[trigger] leads_to_text(value, second) && spelled(first) == key && spelled(second)
            == key
}

/// The names that lead to the object of a dotted name, and its place in it.
proof fn lemma_dotted_stop_has_a_path(prefix: Seq<char>, value: Json, i: int) -> (r: (
    Seq<Seq<char>>,
    int,
))
    requires
        value.unique_names(),
        0 <= i < visits(prefix, value).len(),
        visits(prefix, value)[i] is Dotted,
    ensures
        name_at(value_at(value, r.0), r.1) == Some(visits(prefix, value)[i]->name),
        visits(prefix, value)[i]->name.contains('.'),
    decreases value,
{
    let members = value->Object_0;
    let (at, k) = lemma_stop_of_member(prefix, members, i);
    if members[at].0.contains('.') {
        let path = Seq::<Seq<char>>::empty();
        assert(value_at(value, path) == Some(value));
        (path, at)
    } else {
        assert(decreases_to!(value => value->Object_0));
        assert(decreases_to!(members => members[at]));
        assert(decreases_to!(members[at] => members[at].1));
        let below = lemma_dotted_stop_has_a_path(joined(prefix, members[at].0), members[at].1, k);
        lemma_unique_member_is_first(members, at);
        let path = seq![members[at].0] + below.0;
        assert(path.drop_first() =~= below.0);
        (path, below.1)
    }
}

/// Two leaves are at the ends of two paths.
proof fn lemma_two_leaves_have_two_paths(prefix: Seq<char>, value: Json, i: int, j: int) -> (r: (
    Seq<Seq<char>>,
    Seq<Seq<char>>,
))
    requires
        value.unique_names(),
        0 <= i < j < visits(prefix, value).len(),
        visits(prefix, value)[i] is Leaf,
        visits(prefix, value)[j] is Leaf,
    ensures
        r.0 != r.1,
        text_at(value, r.0) is Some,
        text_at(value, r.1) is Some,
        dotted(prefix, r.0) == visits(prefix, value)[i]->path,
        dotted(prefix, r.1) == visits(prefix, value)[j]->path,
    decreases value,
{
    let members = value->Object_0;
    let (a, k) = lemma_stop_of_member(prefix, members, i);
    let (b, l) = lemma_stop_of_member(prefix, members, j);
    lemma_unique_member_is_first(members, a);
    lemma_unique_member_is_first(members, b);
    if a == b {
        assert(decreases_to!(value => value->Object_0));
        assert(decreases_to!(members => members[a]));
        assert(decreases_to!(members[a] => members[a].1));
        let below = lemma_two_leaves_have_two_paths(
            joined(prefix, members[a].0),
            members[a].1,
            k,
            l,
        );
        let first = seq![members[a].0] + below.0;
        let second = seq![members[a].0] + below.1;
        assert(first.drop_first() =~= below.0);
        assert(second.drop_first() =~= below.1);
        (first, second)
    } else {
        let below_first = lemma_leaf_has_a_path(joined(prefix, members[a].0), members[a].1, k);
        let below_second = lemma_leaf_has_a_path(joined(prefix, members[b].0), members[b].1, l);
        assert(names(members)[a] != names(members)[b]);
        let first = seq![members[a].0] + below_first;
        let second = seq![members[b].0] + below_second;
        assert(first.drop_first() =~= below_first);
        assert(second.drop_first() =~= below_second);
        assert(first[0] != second[0]);
        (first, second)
    }
}

/// Two leaves at one path make it one that is spelled twice.
proof fn lemma_collision_is_spelled_twice(value: Json, i: int, j: int)
    requires
        value.unique_names(),
        0 <= i < j < visits(Seq::empty(), value).len(),
        visits(Seq::empty(), value)[i] is Leaf,
        visits(Seq::empty(), value)[j] is Leaf,
        visits(Seq::empty(), value)[i]->path == visits(Seq::empty(), value)[j]->path,
    ensures
        is_spelled_twice(value, visits(Seq::empty(), value)[j]->path),
{
    let (first, second) = lemma_two_leaves_have_two_paths(Seq::empty(), value, i, j);
    lemma_dotted_is_spelled(first);
    lemma_dotted_is_spelled(second);
    lemma_leaf_has_a_name(Seq::empty(), value, j);
    assert(leads_to_text(value, first));
    assert(leads_to_text(value, second));
}

/// Params are refused for a reason that is in them, and the error says which: a name
/// that holds a dot, or a path that is spelled twice. Without either they are
/// accepted.
pub proof fn law_params_are_refused_for_ambiguity_alone(value: Json)
    requires
        value.unique_names(),
    ensures
        flattened(value) matches Err(error) ==> (exists|name: Seq<char>|
            #![trigger has_dotted_name(value, name)]
            has_dotted_name(value, name) && error == "ambiguous dotted params key '"@ + name
                + "' is not allowed"@) || (exists|key: Seq<char>|
            #![trigger is_spelled_twice(value, key)]
            is_spelled_twice(value, key) && error == "ambiguous params key collision at '"@ + key
                + "'"@),
{
    let stops = visits(Seq::empty(), value);
    let held = ParamMap::empty();
    if flattened(value) is Err {
        let at = law_error_names_the_first_fault(held, stops);
        match stops[at] {
            Visit::Dotted { name } => {
                let (path, i) = lemma_dotted_stop_has_a_path(Seq::empty(), value, at);
                assert(name_at(value_at(value, path), i) == Some(name));
                assert(has_dotted_name(value, name));
            },
            Visit::Leaf { path, text } => {
                let upto = stops.take(at + 1);
                if forall|i: int| 0 <= i < at ==> (#[trigger] stops[i])->path != path {
                    assert forall|i: int| 0 <= i < upto.len() implies (#[trigger] upto[i]) is Leaf
                        && !held.contains_key(upto[i]->path) by {
                        if i < at {
                            assert(stops.take(at)[i] == upto[i]);
                        }
                    }
                    assert forall|i: int, j: int| 0 <= i < j < upto.len() implies (
                    #[trigger] upto[i])->path != (#[trigger] upto[j])->path by {
                        assert(upto[i] == stops[i] && upto[j] == stops[j]);
                        if j < at {
                            assert(stops.take(at)[i] == upto[i] && stops.take(at)[j] == upto[j]);
                        }
                    }
                    assert(is_clean(held, upto));
                }
                let i = choose|i: int| 0 <= i < at && (#[trigger] stops[i])->path == path;
                assert(stops.take(at)[i] is Leaf);
                lemma_collision_is_spelled_twice(value, i, at);
            },
        }
    }
}

/// Ambiguous params are refused: those with a name that holds a dot, and those with a
/// path that is spelled twice.
pub proof fn law_ambiguous_params_are_refused(value: Json, text: Seq<char>)
    requires
        has_dotted_name(value, text) || is_spelled_twice(value, text),
    ensures
        flattened(value) is Err,
{
    if flattened(value) is Ok {
        if has_dotted_name(value, text) {
            let (path, i) = choose|path: Seq<Seq<char>>, i: int|
                #![trigger value_at(value, path), name_at(value_at(value, path), i)]
                text.contains('.') && name_at(value_at(value, path), i) == Some(text);
            let members = value_at(value, path)->0->Object_0;
            law_accepted_params_have_no_dotted_name(value, path, members, i);
        } else {
            let (first, second) = choose|first: Seq<Seq<char>>, second: Seq<Seq<char>>|
                first != second && text.len() > 0 && #[trigger] leads_to_text(value, first)
                    && #[trigger] leads_to_text(value, second) && spelled(first) == text
                    && spelled(second) == text;
            lemma_dotted_is_spelled(first);
            lemma_dotted_is_spelled(second);
            law_params_are_unambiguous(value, first, second);
        }
    }
}

/// What a walk does at a value that is no object: it writes a string, a number or a
/// bool down under the path that it is at, unless that is empty, and is given up where
/// the path is taken; it passes an array and a null over.
pub proof fn law_walk_writes_scalars_down(held: ParamMap, path: Seq<char>, value: Json)
    requires
        !(value is Object),
    ensures
        value is Array || value is Null || path.len() == 0 ==> recorded(held, visits(path, value))
            == (Record { params: held, error: None }),
        forall|text: Seq<char>|
            #![trigger is_written(value, text)]
            is_written(value, text) && path.len() > 0 ==> recorded(held, visits(path, value)) == (
            Record {
                params: held.insert(path, text),
                error: if held.contains_key(path) {
                    Some("ambiguous params key collision at '"@ + path + "'"@)
                } else {
                    None
                },
            }),
{
    assert forall|text: Seq<char>|
        #![trigger is_written(value, text)]
        is_written(value, text) && path.len() > 0 implies recorded(held, visits(path, value)) == (
    Record {
        params: held.insert(path, text),
        error: if held.contains_key(path) {
            Some("ambiguous params key collision at '"@ + path + "'"@)
        } else {
            None
        },
    }) by {
        lemma_scalar_is_written(value, text);
        let stops = seq![Visit::Leaf { path, text }];
        assert(stops.drop_last() =~= Seq::empty());
        assert(visits(path, value) =~= stops);
        reveal_with_fuel(recorded, 2);
    }
}

/// What a walk does at an object: nothing where it has no members. A last member adds
/// to what the walk does without it, unless that was given up: a name that holds a dot
/// gives the walk up, and another leads to the value of the member, at the path that
/// the name is added to with a dot.
pub proof fn law_walk_goes_member_by_member(
    held: ParamMap,
    path: Seq<char>,
    members: Seq<(Seq<char>, Json)>,
    name: Seq<char>,
    child: Json,
)
    ensures
        recorded(held, visits(path, Json::Object(Seq::empty()))) == (Record {
            params: held,
            error: None,
        }),
        ({
            let before = recorded(held, visits(path, Json::Object(members)));
            let after = recorded(held, visits(path, Json::Object(members.push((name, child)))));
            if before.error is Some {
                after == before
            } else if name.contains('.') {
                after == (Record {
                    params: before.params,
                    error: Some("ambiguous dotted params key '"@ + name + "' is not allowed"@),
                })
            } else if path.len() == 0 {
                after == recorded(before.params, visits(name, child))
            } else {
                after == recorded(before.params, visits(path + seq!['.'] + name, child))
            }
        }),
{
    let all = members.push((name, child));
    assert(all.drop_last() =~= members);
    assert(all.last() == (name, child));
    let first = members_visits(path, members);
    let second = member_visits(path, (name, child));
    assert(visits(path, Json::Object(all)) == first + second);
    lemma_recorded_concat(held, first, second);
    if name.contains('.') {
        lemma_recorded_one(recorded(held, first).params, Visit::Dotted { name });
    }
}

/// Params are flattened by a walk that starts at the empty path with nothing held.
pub proof fn law_flattening_is_a_walk_from_nothing(value: Json)
    ensures
        recorded(Map::empty(), visits(Seq::empty(), value)).error is None ==> flattened(value)
            == Ok::<ParamMap, Seq<char>>(
            recorded(Map::empty(), visits(Seq::empty(), value)).params,
        ),
        recorded(Map::empty(), visits(Seq::empty(), value)).error matches Some(error)
            ==> flattened(value) == Err::<ParamMap, Seq<char>>(error),
{
}

} // verus!
