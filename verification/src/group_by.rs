//! Grouping the items of a list by a key.

use vstd::multiset::Multiset;
use vstd::prelude::*;

verus! {

/// All the items of all the groups, each as often as it occurs.
pub open spec fn grouped<K, V>(groups: Seq<(K, Vec<V>)>) -> Multiset<V>
    decreases groups.len(),
{
    if groups.len() == 0 {
        Multiset::empty()
    } else {
        grouped(groups.drop_last()).add(groups.last().1@.to_multiset())
    }
}

/// The items of all the groups in one sequence, group after group.
pub open spec fn flattened<K, V>(groups: Seq<(K, Vec<V>)>) -> Seq<V>
    decreases groups.len(),
{
    if groups.len() == 0 {
        Seq::empty()
    } else {
        flattened(groups.drop_last()) + groups.last().1@
    }
}

/// The items of the groups are the items of their flattening.
pub proof fn lemma_grouped_flattened<K, V>(groups: Seq<(K, Vec<V>)>)
    ensures
        grouped(groups) == flattened(groups).to_multiset(),
    decreases groups.len(),
{
    if groups.len() == 0 {
        assert(flattened(groups).to_multiset() =~= Multiset::<V>::empty()) by {
            flattened(groups).to_multiset_ensures();
        }
    } else {
        lemma_grouped_flattened(groups.drop_last());
        vstd::seq_lib::lemma_multiset_commutative(flattened(groups.drop_last()), groups.last().1@);
    }
}

/// Two sequences that hold the same items hold the same items still after
/// a function has been put on every item.
pub proof fn lemma_map_multiset<A, B>(a: Seq<A>, b: Seq<A>, f: spec_fn(A) -> B)
    requires
        a.to_multiset() == b.to_multiset(),
    ensures
        a.map_values(f).to_multiset() == b.map_values(f).to_multiset(),
    decreases a.len(),
{
    broadcast use vstd::seq_lib::group_to_multiset_ensures;

    a.to_multiset_ensures();
    b.to_multiset_ensures();
    if a.len() == 0 {
        assert(b.len() == 0);
        assert(a.map_values(f) =~= b.map_values(f));
    } else {
        let x = a.last();
        let head = a.drop_last();
        assert(a =~= head.push(x));
        assert(a.to_multiset().count(x) > 0);
        assert(b.contains(x));
        let i = choose|i: int| 0 <= i < b.len() && b[i] == x;
        let rest = b.remove(i);
        assert(head.to_multiset() =~= a.to_multiset().remove(x));
        assert(rest.to_multiset() =~= b.to_multiset().remove(x));
        lemma_map_multiset(head, rest, f);
        assert(a.map_values(f) =~= head.map_values(f).push(f(x)));
        assert(b =~= rest.insert(i, x));
        assert(b.map_values(f) =~= rest.map_values(f).insert(i, f(x)));
        vstd::seq_lib::to_multiset_insert(rest.map_values(f), i, f(x));
    }
}

/// The items of each group, without the keys.
pub open spec fn members_of<K, V>(groups: Seq<(K, Vec<V>)>) -> Seq<Seq<V>> {
    Seq::new(groups.len(), |g: int| groups[g].1@)
}

/// Item `i` of group `g` stood at place `p` of the list.
pub open spec fn stood_at(places: Seq<Seq<int>>, g: int, i: int, p: int) -> bool {
    0 <= g < places.len() && 0 <= i < places[g].len() && places[g][i] == p
}

/// Some item of some group stood at place `p` of the list.
pub open spec fn is_taken(places: Seq<Seq<int>>, p: int) -> bool {
    exists|g: int, i: int| #[trigger] stood_at(places, g, i, p)
}

/// `places` tells for each item of each group where it stood in `items`, and
/// the groups keep the order of the list: an item of a group is the item of
/// the list at its place, the places of a group ascend, no place is taken
/// twice, and every place from `from` on is taken.
pub open spec fn in_input_order<V>(
    items: Seq<V>,
    members: Seq<Seq<V>>,
    places: Seq<Seq<int>>,
    from: int,
) -> bool {
    &&& places.len() == members.len()
    &&& forall|g: int| 0 <= g < places.len() ==> (#[trigger] places[g]).len() == members[g].len()
    &&& forall|g: int, i: int|
        0 <= g < places.len() && 0 <= i < places[g].len() ==> from <= #[trigger] places[g][i]
            < items.len() && items[places[g][i]] == members[g][i]
    &&& forall|g: int, i: int, j: int|
        0 <= g < places.len() && 0 <= i < j < places[g].len() ==> #[trigger] places[g][i]
            < #[trigger] places[g][j]
    &&& forall|g: int, i: int, h: int, j: int|
        0 <= g < places.len() && 0 <= i < places[g].len() && 0 <= h < places.len() && 0 <= j
            < places[h].len() && g != h ==> #[trigger] places[g][i] != #[trigger] places[h][j]
    &&& forall|p: int| from <= p < items.len() ==> #[trigger] is_taken(places, p)
}

/// An item put at the front of a group, from a place before all that are
/// taken, keeps the groups in the order of the list.
proof fn lemma_place_front<V>(
    items: Seq<V>,
    members: Seq<Seq<V>>,
    places: Seq<Seq<int>>,
    g: int,
    p: int,
)
    requires
        in_input_order(items, members, places, p + 1),
        0 <= p < items.len(),
        0 <= g < members.len(),
    ensures
        in_input_order(
            items,
            members.update(g, members[g].insert(0, items[p])),
            places.update(g, places[g].insert(0, p)),
            p,
        ),
{
    let after = places.update(g, places[g].insert(0, p));
    let now = members.update(g, members[g].insert(0, items[p]));
    assert forall|a: int| 0 <= a < after.len() implies (#[trigger] after[a]).len() == now[a].len() by {
        assert(places[a].len() == members[a].len());
    }
    assert forall|a: int, i: int| 0 <= a < after.len() && 0 <= i < after[a].len() implies p
        <= #[trigger] after[a][i] < items.len() && items[after[a][i]] == now[a][i] by {
        if a == g {
            if i > 0 {
                assert(after[a][i] == places[g][i - 1]);
                assert(now[a][i] == members[g][i - 1]);
            }
        } else {
            assert(after[a][i] == places[a][i]);
        }
    }
    assert forall|a: int, i: int, j: int|
        0 <= a < after.len() && 0 <= i < j < after[a].len() implies #[trigger] after[a][i]
        < #[trigger] after[a][j] by {
        if a == g {
            assert(after[a][j] == places[g][j - 1]);
            if i > 0 {
                assert(after[a][i] == places[g][i - 1]);
            }
        } else {
            assert(after[a][i] == places[a][i] && after[a][j] == places[a][j]);
        }
    }
    assert forall|a: int, i: int, h: int, j: int|
        0 <= a < after.len() && 0 <= i < after[a].len() && 0 <= h < after.len() && 0 <= j
            < after[h].len() && a != h implies #[trigger] after[a][i] != #[trigger] after[h][j] by {
        if a == g {
            assert(after[h][j] == places[h][j]);
            if i > 0 {
                assert(after[a][i] == places[g][i - 1]);
            }
        } else if h == g {
            assert(after[a][i] == places[a][i]);
            if j > 0 {
                assert(after[h][j] == places[g][j - 1]);
            }
        } else {
            assert(after[a][i] == places[a][i] && after[h][j] == places[h][j]);
        }
    }
    assert forall|q: int| p <= q < items.len() implies #[trigger] is_taken(after, q) by {
        if q == p {
            assert(stood_at(after, g, 0, q));
        } else {
            assert(is_taken(places, q));
            let (a, i) = choose|a: int, i: int| #[trigger] stood_at(places, a, i, q);
            if a == g {
                assert(after[g][i + 1] == places[g][i]);
                assert(stood_at(after, g, i + 1, q));
            } else {
                assert(stood_at(after, a, i, q));
            }
        }
    }
}

/// An item put into a new group, from a place before all that are taken,
/// keeps the groups in the order of the list.
proof fn lemma_place_new<V>(
    items: Seq<V>,
    members: Seq<Seq<V>>,
    places: Seq<Seq<int>>,
    g: int,
    p: int,
)
    requires
        in_input_order(items, members, places, p + 1),
        0 <= p < items.len(),
        0 <= g <= members.len(),
    ensures
        in_input_order(items, members.insert(g, seq![items[p]]), places.insert(g, seq![p]), p),
{
    let after = places.insert(g, seq![p]);
    let now = members.insert(g, seq![items[p]]);
    places.insert_ensures(g, seq![p]);
    members.insert_ensures(g, seq![items[p]]);
    assert forall|a: int| 0 <= a < after.len() implies (#[trigger] after[a]).len() == now[a].len() by {
        if a < g {
            assert(after[a] == places[a] && now[a] == members[a]);
        } else if a > g {
            assert(after[a] == places[a - 1] && now[a] == members[a - 1]);
        }
    }
    assert forall|a: int, i: int| 0 <= a < after.len() && 0 <= i < after[a].len() implies p
        <= #[trigger] after[a][i] < items.len() && items[after[a][i]] == now[a][i] by {
        if a < g {
            assert(after[a] == places[a] && now[a] == members[a]);
            assert(p + 1 <= places[a][i]);
        } else if a > g {
            assert(after[a] == places[a - 1] && now[a] == members[a - 1]);
            assert(p + 1 <= places[a - 1][i]);
        }
    }
    assert forall|a: int, i: int, j: int|
        0 <= a < after.len() && 0 <= i < j < after[a].len() implies #[trigger] after[a][i]
        < #[trigger] after[a][j] by {
        if a < g {
            assert(after[a] == places[a]);
            assert(places[a][i] < places[a][j]);
        } else if a > g {
            assert(after[a] == places[a - 1]);
            assert(places[a - 1][i] < places[a - 1][j]);
        }
    }
    assert forall|a: int, i: int, h: int, j: int|
        0 <= a < after.len() && 0 <= i < after[a].len() && 0 <= h < after.len() && 0 <= j
            < after[h].len() && a != h implies #[trigger] after[a][i] != #[trigger] after[h][j] by {
        let a0 = if a < g { a } else { a - 1 };
        let h0 = if h < g { h } else { h - 1 };
        if a == g {
            assert(after[h] == places[h0]);
            assert(p + 1 <= places[h0][j]);
        } else if h == g {
            assert(after[a] == places[a0]);
            assert(p + 1 <= places[a0][i]);
        } else {
            assert(after[a] == places[a0] && after[h] == places[h0]);
            assert(places[a0][i] != places[h0][j]);
        }
    }
    assert forall|q: int| p <= q < items.len() implies #[trigger] is_taken(after, q) by {
        if q == p {
            assert(stood_at(after, g, 0, q));
        } else {
            assert(is_taken(places, q));
            let (a, i) = choose|a: int, i: int| #[trigger] stood_at(places, a, i, q);
            if a < g {
                assert(after[a] == places[a]);
                assert(stood_at(after, a, i, q));
            } else {
                assert(after[a + 1] == places[a]);
                assert(stood_at(after, a + 1, i, q));
            }
        }
    }
}

/// Lists whose items can be put into groups by a key.
pub trait GroupBy<K, V>: Sized {
    /// The items, in order.
    spec fn items(&self) -> Seq<V>;

    /// Puts each item into the group of the key that `key_fn` gives it.
    /// Every item lands in exactly one group, no group is empty, and no two
    /// groups have the same key. The items of a group stand in the order in
    /// which they stood in the list. No items make no groups.
    fn group_by<F: Fn(&V) -> K>(self, key_fn: F) -> (r: Vec<(K, Vec<V>)>)
        requires
            forall|v: V| #[trigger] key_fn.requires((&v,)),
        ensures
            self.items().len() == 0 ==> r@.len() == 0,
            grouped(r@) == self.items().to_multiset(),
            exists|places: Seq<Seq<int>>|
                #[trigger] in_input_order(self.items(), members_of(r@), places, 0),
            forall|g: int, i: int|
                0 <= g < r@.len() && 0 <= i < r@[g].1@.len() ==> key_fn.ensures(
                    (&#[trigger] r@[g].1@[i],),
                    r@[g].0,
                ),
            forall|g: int| 0 <= g < r@.len() ==> (#[trigger] r@[g]).1@.len() > 0,
            forall|g: int, h: int| 0 <= g < h < r@.len() ==> r@[g].0 != r@[h].0,
    ;
}

/// One more item in group `g` is one more item in all.
proof fn lemma_grouped_update<K, V>(groups: Seq<(K, Vec<V>)>, g: int, longer: (K, Vec<V>), item: V)
    requires
        0 <= g < groups.len(),
        longer.1@.to_multiset() == groups[g].1@.to_multiset().insert(item),
    ensures
        grouped(groups.update(g, longer)) == grouped(groups).insert(item),
    decreases groups.len(),
{
    let after = groups.update(g, longer);
    if g == groups.len() - 1 {
        assert(after.drop_last() =~= groups.drop_last());
        assert(grouped(after) =~= grouped(groups).insert(item));
    } else {
        assert(after.drop_last() =~= groups.drop_last().update(g, longer));
        assert(after.last() == groups.last());
        lemma_grouped_update(groups.drop_last(), g, longer, item);
        assert(grouped(after) =~= grouped(groups).insert(item));
    }
}

/// A new group of one item is one more item in all.
proof fn lemma_grouped_insert<K, V>(groups: Seq<(K, Vec<V>)>, g: int, fresh: (K, Vec<V>), item: V)
    requires
        0 <= g <= groups.len(),
        fresh.1@ == seq![item],
    ensures
        grouped(groups.insert(g, fresh)) == grouped(groups).insert(item),
    decreases groups.len(),
{
    broadcast use vstd::seq_lib::group_to_multiset_ensures;

    let after = groups.insert(g, fresh);
    assert(seq![item] =~= Seq::<V>::empty().push(item));
    assert(fresh.1@.to_multiset() =~= Multiset::<V>::empty().insert(item));
    if g == groups.len() {
        assert(after.drop_last() =~= groups);
        assert(grouped(after) =~= grouped(groups).insert(item));
    } else {
        assert(after.drop_last() =~= groups.drop_last().insert(g, fresh));
        assert(after.last() == groups.last());
        lemma_grouped_insert(groups.drop_last(), g, fresh, item);
        assert(grouped(after) =~= grouped(groups).insert(item));
    }
}

impl<V> GroupBy<i64, V> for Vec<V> {
    open spec fn items(&self) -> Seq<V> {
        self@
    }

    /// The groups come in ascending order of their keys.
    fn group_by<F: Fn(&V) -> i64>(self, key_fn: F) -> (r: Vec<(i64, Vec<V>)>)
        ensures
            forall|g: int, h: int| 0 <= g < h < r@.len() ==> r@[g].0 < r@[h].0,
    {
        broadcast use vstd::seq_lib::group_to_multiset_ensures;

        let ghost all = self@;
        let mut rest = self;
        let mut groups: Vec<(i64, Vec<V>)> = Vec::new();
        let ghost mut places: Seq<Seq<int>> = Seq::empty();
        assert(grouped(groups@).add(rest@.to_multiset()) =~= all.to_multiset());
        assert(rest@ =~= all.take(rest@.len() as int));
        assert(in_input_order(all, members_of(groups@), places, all.len() as int));
        while rest.len() > 0
            invariant
                forall|v: V| #[trigger] key_fn.requires((&v,)),
                rest@.len() <= all.len(),
                rest@ == all.take(rest@.len() as int),
                in_input_order(all, members_of(groups@), places, rest@.len() as int),
                all.len() == 0 ==> rest@.len() == 0 && groups@.len() == 0,
                grouped(groups@).add(rest@.to_multiset()) == all.to_multiset(),
                forall|g: int, i: int|
                    0 <= g < groups@.len() && 0 <= i < groups@[g].1@.len() ==> key_fn.ensures(
                        (&#[trigger] groups@[g].1@[i],),
                        groups@[g].0,
                    ),
                forall|g: int| 0 <= g < groups@.len() ==> (#[trigger] groups@[g]).1@.len() > 0,
                forall|g: int, h: int| 0 <= g < h < groups@.len() ==> groups@[g].0 < groups@[h].0,
            decreases rest.len(),
        {
            let ghost before = rest@;
            let ghost held = groups@;
            let item = rest.pop().unwrap();
            let ghost place = rest@.len() as int;
            proof {
                assert(before =~= rest@.push(item));
                vstd::seq_lib::to_multiset_build(rest@, item);
                assert(item == all[place]);
                assert(rest@ =~= all.take(place));
            }
            let key: i64 = key_fn(&item);
            let mut g: usize = 0;
            while g < groups.len() && groups[g].0 < key
                invariant
                    g <= groups.len(),
                    forall|h: int| 0 <= h < g ==> (#[trigger] groups@[h]).0 < key,
                decreases groups.len() - g,
            {
                g += 1;
            }
            if g < groups.len() && groups[g].0 == key {
                let ghost members = groups@[g as int].1@;
                groups[g].1.insert(0, item);
                proof {
                    lemma_place_front(all, members_of(held), places, g as int, place);
                    assert(members_of(groups@) =~= members_of(held).update(
                        g as int,
                        members_of(held)[g as int].insert(0, all[place]),
                    ));
                    places = places.update(g as int, places[g as int].insert(0, place));
                    assert(groups@ =~= held.update(g as int, groups@[g as int]));
                    assert(groups@[g as int].1@ == members.insert(0, item));
                    vstd::seq_lib::to_multiset_insert(members, 0, item);
                    lemma_grouped_update(held, g as int, groups@[g as int], item);
                    assert forall|a: int, i: int|
                        0 <= a < groups@.len() && 0 <= i < groups@[a].1@.len() implies key_fn.ensures(
                        (&#[trigger] groups@[a].1@[i],),
                        groups@[a].0,
                    ) by {
                        if a == g {
                            if i > 0 {
                                assert(groups@[a].1@[i] == members[i - 1]);
                                assert(key_fn.ensures((&held[a].1@[i - 1],), held[a].0));
                            }
                        } else {
                            assert(key_fn.ensures((&held[a].1@[i],), held[a].0));
                        }
                    }
                }
            } else {
                let mut members: Vec<V> = Vec::new();
                members.push(item);
                groups.insert(g, (key, members));
                proof {
                    assert(members@ =~= seq![item]);
                    held.insert_ensures(g as int, (key, members));
                    lemma_place_new(all, members_of(held), places, g as int, place);
                    assert(members_of(groups@) =~= members_of(held).insert(
                        g as int,
                        seq![all[place]],
                    ));
                    places = places.insert(g as int, seq![place]);
                    assert(members@ =~= seq![item]);
                    lemma_grouped_insert(held, g as int, (key, members), item);
                    held.insert_ensures(g as int, (key, members));
                    assert forall|a: int, i: int|
                        0 <= a < groups@.len() && 0 <= i < groups@[a].1@.len() implies key_fn.ensures(
                        (&#[trigger] groups@[a].1@[i],),
                        groups@[a].0,
                    ) by {
                        if a < g {
                            assert(key_fn.ensures((&held[a].1@[i],), held[a].0));
                        } else if a > g {
                            assert(groups@[a] == held[a - 1]);
                            assert(key_fn.ensures((&held[a - 1].1@[i],), held[a - 1].0));
                        }
                    }
                    assert forall|a: int| 0 <= a < groups@.len() implies (
                    #[trigger] groups@[a]).1@.len() > 0 by {
                        if a < g {
                            assert(groups@[a] == held[a]);
                        } else if a > g {
                            assert(groups@[a] == held[a - 1]);
                        }
                    }
                    assert forall|a: int, h: int| 0 <= a < h < groups@.len() implies groups@[a].0
                        < groups@[h].0 by {
                        let before_a = if a < g { a } else { a - 1 };
                        let before_h = if h < g { h } else { h - 1 };
                        if a != g && h != g {
                            assert(groups@[a] == held[before_a]);
                            assert(groups@[h] == held[before_h]);
                        } else if a == g {
                            assert(groups@[h] == held[h - 1]);
                            assert(held[g as int].0 <= held[h - 1].0);
                        } else {
                            assert(groups@[a] == held[a]);
                        }
                    }
                }
            }
            assert(grouped(groups@).add(rest@.to_multiset()) =~= grouped(held).add(
                before.to_multiset(),
            ));
        }
        assert(rest@ =~= Seq::<V>::empty());
        assert(grouped(groups@).add(rest@.to_multiset()) =~= grouped(groups@));
        groups
    }
}

} // verus!
