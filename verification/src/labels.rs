//! Sorting items into the sections of the digest.

use vstd::prelude::*;
use vstd::seq_lib::*;

use crate::model::{Item, LabelledItem};

verus! {

/// Which repositories belong to each section.
pub open spec fn repo_lists(labels: Seq<LabelledItem>) -> Seq<Seq<Seq<char>>> {
    Seq::new(labels.len(), |j: int| labels[j]@.repos)
}

/// Whether section `j` is the first that the repository `name` belongs to.
pub open spec fn first_listed(lists: Seq<Seq<Seq<char>>>, name: Seq<char>, j: int) -> bool {
    &&& 0 <= j < lists.len()
    &&& lists[j].contains(name)
    &&& forall|k: int| 0 <= k < j ==> !(#[trigger] lists[k]).contains(name)
}

/// Holds of the items that go into section `j`.
pub open spec fn goes_to(lists: Seq<Seq<Seq<char>>>, j: int) -> spec_fn(Item) -> bool {
    |item: Item| first_listed(lists, item@.full_repository_name, j)
}

/// Holds of the items that go into no section.
pub open spec fn goes_nowhere(lists: Seq<Seq<Seq<char>>>) -> spec_fn(Item) -> bool {
    |item: Item|
        forall|j: int|
            0 <= j < lists.len() ==> !(#[trigger] lists[j]).contains(item@.full_repository_name)
}

/// Whether `repos` holds the repository `name`.
pub fn lists_repository(repos: &Vec<String>, name: &String) -> (found: bool)
    ensures
        found == repos.deep_view().contains(name@),
{
    let mut i: usize = 0;
    while i < repos.len()
        invariant
            i <= repos.len(),
            forall|k: int| 0 <= k < i ==> (#[trigger] repos.deep_view()[k]) != name@,
        decreases repos.len() - i,
    {
        if repos[i] == *name {
            assert(repos.deep_view()[i as int] == name@);
            return true;
        }
        i = i + 1;
    }
    false
}

/// The first section that the repository `name` belongs to.
fn find_label(labels: &Vec<LabelledItem>, name: &String) -> (found: Option<usize>)
    ensures
        match found {
            Some(j) => first_listed(repo_lists(labels@), name@, j as int),
            None => forall|j: int|
                0 <= j < labels@.len() ==> !(#[trigger] repo_lists(labels@)[j]).contains(name@),
        },
{
    let mut j: usize = 0;
    while j < labels.len()
        invariant
            j <= labels.len(),
            forall|k: int| 0 <= k < j ==> !(#[trigger] repo_lists(labels@)[k]).contains(name@),
        decreases labels.len() - j,
    {
        if lists_repository(&labels[j].repos, name) {
            assert(repo_lists(labels@)[j as int].contains(name@));
            return Some(j);
        }
        j = j + 1;
    }
    None
}

/// Puts each item into the first section that its repository belongs to, behind
/// what the section holds already, and returns the sections with the items that
/// belong to none.
pub fn match_items_with_labels<'a>(
    labelled_items: &'a mut Vec<LabelledItem>,
    items: &Vec<Item>,
) -> (result: (&'a Vec<LabelledItem>, Vec<Item>))
    ensures
        *result.0 == *final(labelled_items),
        final(labelled_items)@.len() == old(labelled_items)@.len(),
        forall|j: int|
            0 <= j < old(labelled_items)@.len() ==> {
                &&& (#[trigger] final(labelled_items)@[j])@.name == old(labelled_items)@[j]@.name
                &&& final(labelled_items)@[j]@.repos == old(labelled_items)@[j]@.repos
                &&& final(labelled_items)@[j]@.items == old(labelled_items)@[j]@.items
                    + items@.filter(goes_to(repo_lists(old(labelled_items)@), j))
            },
        result.1@ == items@.filter(goes_nowhere(repo_lists(old(labelled_items)@))),
        forall|i: int, j: int|
            #![trigger items@[i], old(labelled_items)@[j]]
            0 <= i < items@.len() && 0 <= j < old(labelled_items)@.len() && old(
                labelled_items,
            )@[j].repos.deep_view().contains(items@[i].full_repository_name@) && (forall|k: int|
                0 <= k < j ==> !(#[trigger] old(labelled_items)@[k]).repos.deep_view().contains(
                    items@[i].full_repository_name@,
                )) ==> final(labelled_items)@[j].items@.contains(items@[i])
                && !result.1@.contains(items@[i]),
        forall|item: Item| #[trigger]
            result.1@.contains(item) <==> items@.contains(item) && forall|j: int|
                0 <= j < old(labelled_items)@.len() ==> !(#[trigger] old(
                    labelled_items,
                )@[j]).repos.deep_view().contains(item.full_repository_name@),
        forall|j: int|
            0 <= j < old(labelled_items)@.len() ==> {
                &&& (#[trigger] final(labelled_items)@[j]).name@ == old(labelled_items)@[j].name@
                &&& final(labelled_items)@[j].repos.deep_view() == old(
                    labelled_items,
                )@[j].repos.deep_view()
                &&& old(labelled_items)@[j].items@.is_prefix_of(final(labelled_items)@[j].items@)
            },
{
    let ghost before = labelled_items@;
    let ghost lists = repo_lists(before);
    let mut unknown_items: Vec<Item> = Vec::new();
    let mut i: usize = 0;
    proof {
        reveal(Seq::filter);
        assert forall|j: int| 0 <= j < before.len() implies (#[trigger] labelled_items@[j])@.items
            == before[j]@.items + items@.take(0).filter(goes_to(lists, j)) by {
            assert(items@.take(0).filter(goes_to(lists, j)) =~= Seq::empty());
            assert(before[j]@.items + Seq::<Item>::empty() =~= before[j]@.items);
        }
        assert(items@.take(0).filter(goes_nowhere(lists)) =~= Seq::empty());
    }
    while i < items.len()
        invariant
            i <= items.len(),
            lists == repo_lists(before),
            repo_lists(labelled_items@) == lists,
            labelled_items@.len() == before.len(),
            forall|j: int|
                0 <= j < before.len() ==> {
                    &&& (#[trigger] labelled_items@[j])@.name == before[j]@.name
                    &&& labelled_items@[j]@.repos == before[j]@.repos
                    &&& labelled_items@[j]@.items == before[j]@.items + items@.take(
                        i as int,
                    ).filter(goes_to(lists, j))
                },
            unknown_items@ == items@.take(i as int).filter(goes_nowhere(lists)),
        decreases items.len() - i,
    {
        let item = &items[i];
        let ghost seen = items@.take(i as int);
        let ghost now = labelled_items@;
        proof {
            assert(items@.take(i + 1) =~= seen.push(*item));
            seen.lemma_filter_push(*item, goes_nowhere(lists));
            assert forall|j: int| 0 <= j < before.len() implies #[trigger] seen.push(*item).filter(
                goes_to(lists, j),
            ) == if goes_to(lists, j)(*item) {
                seen.filter(goes_to(lists, j)).push(*item)
            } else {
                seen.filter(goes_to(lists, j))
            } by {
                seen.lemma_filter_push(*item, goes_to(lists, j));
            }
        }
        match find_label(labelled_items, &item.full_repository_name) {
            Some(at) => {
                labelled_items[at].items.push(item.clone());
                proof {
                    assert(!goes_nowhere(lists)(*item)) by {
                        assert(lists[at as int].contains(item@.full_repository_name));
                    }
                    assert forall|j: int| 0 <= j < before.len() implies {
                        &&& (#[trigger] labelled_items@[j])@.name == before[j]@.name
                        &&& labelled_items@[j]@.repos == before[j]@.repos
                        &&& labelled_items@[j]@.items == before[j]@.items + seen.push(
                            *item,
                        ).filter(goes_to(lists, j))
                    } by {
                        assert(now[j]@.items == before[j]@.items + seen.filter(goes_to(lists, j)));
                        if j == at {
                            assert(goes_to(lists, j)(*item));
                            assert(labelled_items@[j]@.items =~= before[j]@.items + seen.filter(
                                goes_to(lists, j),
                            ).push(*item));
                        } else {
                            assert(labelled_items@[j] == now[j]);
                            assert(!goes_to(lists, j)(*item));
                        }
                    }
                    assert(repo_lists(labelled_items@) =~= lists);
                }
            },
            None => {
                unknown_items.push(item.clone());
                proof {
                    assert forall|j: int| 0 <= j < before.len() implies !goes_to(lists, j)(
                        *item,
                    ) by {
                        assert(!repo_lists(labelled_items@)[j].contains(
                            item@.full_repository_name,
                        ));
                    }
                }
            },
        }
        i = i + 1;
    }
    assert(items@.take(items@.len() as int) =~= items@);
    proof {
        let after = labelled_items@;
        law_repository_decides_the_place(before, items@);
        assert forall|j: int| 0 <= j < before.len() implies before[j].items@.is_prefix_of(
            (#[trigger] after[j]).items@,
        ) by {
            assert(after[j]@.items == before[j]@.items + items@.filter(goes_to(lists, j)));
            assert(before[j].items@ =~= after[j].items@.take(before[j].items@.len() as int));
        }
        assert forall|i: int, j: int|
            #![trigger items@[i], before[j]]
            0 <= i < items@.len() && 0 <= j < before.len()
                && before[j].repos.deep_view().contains(items@[i].full_repository_name@) && (forall|
                k: int,
            |
                0 <= k < j ==> !(#[trigger] before[k]).repos.deep_view().contains(
                    items@[i].full_repository_name@,
                )) implies after[j].items@.contains(items@[i]) && !unknown_items@.contains(
            items@[i],
        ) by {
            let found = items@.filter(goes_to(lists, j));
            assert(found.contains(items@[i]));
            assert(after[j]@.items == before[j]@.items + found);
            lemma_seq_concat_contains_all_elements(before[j]@.items, found, items@[i]);
            assert(before[j].repos.deep_view().contains(items@[i].full_repository_name@));
        }
    }
    (labelled_items, unknown_items)
}

/// What each section gets of `items`.
pub open spec fn section_items(lists: Seq<Seq<Seq<char>>>, items: Seq<Item>) -> Seq<Seq<Item>> {
    Seq::new(lists.len(), |j: int| items.filter(goes_to(lists, j)))
}

/// The first section among the first `upto` ones that `name` belongs to, if any.
proof fn lemma_first_listed(lists: Seq<Seq<Seq<char>>>, name: Seq<char>, upto: int) -> (found:
    Option<int>)
    requires
        0 <= upto <= lists.len(),
    ensures
        match found {
            Some(j) => j < upto && first_listed(lists, name, j),
            None => forall|j: int| 0 <= j < upto ==> !(#[trigger] lists[j]).contains(name),
        },
    decreases upto,
{
    if upto == 0 {
        None
    } else {
        match lemma_first_listed(lists, name, upto - 1) {
            Some(j) => Some(j),
            None => if lists[upto - 1].contains(name) {
                Some(upto - 1)
            } else {
                None
            },
        }
    }
}

/// Every item has exactly one place: either no section takes it, or exactly one
/// does.
pub proof fn law_item_has_one_place(lists: Seq<Seq<Seq<char>>>, item: Item)
    ensures
        goes_nowhere(lists)(item) <==> !(exists|j: int| #[trigger] goes_to(lists, j)(item)),
        forall|j: int, k: int| #[trigger]
            goes_to(lists, j)(item) && #[trigger] goes_to(lists, k)(item) ==> j == k,
{
    let name = item@.full_repository_name;
    if let Some(j) = lemma_first_listed(lists, name, lists.len() as int) {
        assert(goes_to(lists, j)(item));
        assert(lists[j].contains(name));
    }
    if goes_nowhere(lists)(item) {
        assert forall|j: int| !(#[trigger] goes_to(lists, j)(item)) by {
            if 0 <= j < lists.len() {
                assert(!lists[j].contains(name));
            }
        }
    }
    assert forall|j: int, k: int| #[trigger]
        goes_to(lists, j)(item) && #[trigger] goes_to(lists, k)(item) implies j == k by {
        assert(first_listed(lists, name, j));
        assert(first_listed(lists, name, k));
        assert(lists[j].contains(name));
        assert(lists[k].contains(name));
    }
}

/// How often an item occurs among those that a condition holds of.
pub proof fn lemma_count_in_filter(items: Seq<Item>, pred: spec_fn(Item) -> bool, item: Item)
    ensures
        items.filter(pred).to_multiset().count(item) == (if pred(item) {
            items.to_multiset().count(item)
        } else {
            0
        }),
    decreases items.len(),
{
    broadcast use group_to_multiset_ensures;

    reveal(Seq::filter);
    if items.len() > 0 {
        let front = items.drop_last();
        lemma_count_in_filter(front, pred, item);
        assert(items =~= front.push(items.last()));
    }
}

/// How often an item occurs in the first `upto` sections together.
proof fn lemma_count_in_sections(
    lists: Seq<Seq<Seq<char>>>,
    items: Seq<Item>,
    item: Item,
    upto: int,
)
    requires
        0 <= upto <= lists.len(),
    ensures
        section_items(lists, items).take(upto).flatten().to_multiset().count(item) == (if exists|
            j: int,
        |
            j < upto && #[trigger] goes_to(lists, j)(item) {
            items.to_multiset().count(item)
        } else {
            0
        }),
    decreases upto,
{
    let all = section_items(lists, items);
    if upto == 0 {
        assert(all.take(0) =~= Seq::empty());
        assert(all.take(0).flatten() =~= Seq::<Item>::empty());
        broadcast use group_to_multiset_ensures;
    } else {
        let last = all[upto - 1];
        lemma_count_in_sections(lists, items, item, upto - 1);
        assert(all.take(upto) =~= all.take(upto - 1).push(last));
        all.take(upto - 1).lemma_flatten_push(last);
        lemma_multiset_commutative(all.take(upto - 1).flatten(), last);
        lemma_count_in_filter(items, goes_to(lists, upto - 1), item);
        law_item_has_one_place(lists, item);
        if goes_to(lists, upto - 1)(item) {
            assert(!(exists|j: int| j < upto - 1 && #[trigger] goes_to(lists, j)(item)));
        } else if exists|j: int| j < upto && #[trigger] goes_to(lists, j)(item) {
            let j = choose|j: int| j < upto && #[trigger] goes_to(lists, j)(item);
            assert(j < upto - 1 && goes_to(lists, j)(item));
        }
    }
}

/// The sections and what belongs to none together hold each item exactly as often
/// as it was given: none is lost, added or put into two places.
pub proof fn law_no_item_lost_or_doubled(lists: Seq<Seq<Seq<char>>>, items: Seq<Item>)
    ensures
        (section_items(lists, items).flatten() + items.filter(goes_nowhere(lists))).to_multiset()
            == items.to_multiset(),
{
    let placed = section_items(lists, items).flatten();
    let unplaced = items.filter(goes_nowhere(lists));
    lemma_multiset_commutative(placed, unplaced);
    assert(section_items(lists, items).take(lists.len() as int) =~= section_items(lists, items));
    assert forall|item: Item| #[trigger]
        (placed + unplaced).to_multiset().count(item) == items.to_multiset().count(item) by {
        lemma_count_in_sections(lists, items, item, lists.len() as int);
        lemma_count_in_filter(items, goes_nowhere(lists), item);
        law_item_has_one_place(lists, item);
        if exists|j: int| #[trigger] goes_to(lists, j)(item) {
            let j = choose|j: int| #[trigger] goes_to(lists, j)(item);
            assert(first_listed(lists, item@.full_repository_name, j));
            assert(j < lists.len() && goes_to(lists, j)(item));
        }
    }
    assert((placed + unplaced).to_multiset() =~= items.to_multiset());
}

/// The name of its repository, and nothing else of an item, decides where it goes:
/// into the first section whose repositories hold that name and into no other, or,
/// where no section's do, among those that belong to none.
pub proof fn law_repository_decides_the_place(labels: Seq<LabelledItem>, items: Seq<Item>)
    ensures
        forall|i: int, j: int|
            #![trigger items[i], labels[j]]
            0 <= i < items.len() && 0 <= j < labels.len() ==> (items.filter(
                goes_to(repo_lists(labels), j),
            ).contains(items[i]) <==> {
                &&& labels[j].repos.deep_view().contains(items[i].full_repository_name@)
                &&& forall|k: int|
                    0 <= k < j ==> !(#[trigger] labels[k]).repos.deep_view().contains(
                        items[i].full_repository_name@,
                    )
            }),
        forall|item: Item| #[trigger]
            items.filter(goes_nowhere(repo_lists(labels))).contains(item) <==> {
                &&& items.contains(item)
                &&& forall|j: int|
                    0 <= j < labels.len() ==> !(#[trigger] labels[j]).repos.deep_view().contains(
                        item.full_repository_name@,
                    )
            },
{
    let lists = repo_lists(labels);
    assert forall|i: int, j: int|
        #![trigger items[i], labels[j]]
        0 <= i < items.len() && 0 <= j < labels.len() implies (items.filter(
        goes_to(lists, j),
    ).contains(items[i]) <==> {
        &&& labels[j].repos.deep_view().contains(items[i].full_repository_name@)
        &&& forall|k: int|
            0 <= k < j ==> !(#[trigger] labels[k]).repos.deep_view().contains(
                items[i].full_repository_name@,
            )
    }) by {
        let name = items[i].full_repository_name@;
        lemma_filter_members(items, goes_to(lists, j), items[i]);
        assert(items.contains(items[i]));
        if goes_to(lists, j)(items[i]) {
            assert forall|k: int| 0 <= k < j implies !(#[trigger] labels[k]).repos.deep_view().contains(
            name) by {
                assert(!lists[k].contains(name));
            }
        } else if labels[j].repos.deep_view().contains(name) {
            assert(lists[j].contains(name));
            let k = choose|k: int| 0 <= k < j && (#[trigger] lists[k]).contains(name);
            assert(labels[k].repos.deep_view().contains(name));
        }
    }
    assert forall|item: Item| #[trigger]
        items.filter(goes_nowhere(lists)).contains(item) <==> {
            &&& items.contains(item)
            &&& forall|j: int|
                0 <= j < labels.len() ==> !(#[trigger] labels[j]).repos.deep_view().contains(
                    item.full_repository_name@,
                )
        } by {
        let name = item.full_repository_name@;
        lemma_filter_members(items, goes_nowhere(lists), item);
        if goes_nowhere(lists)(item) {
            assert forall|j: int| 0 <= j < labels.len() implies !(#[trigger] labels[
                j
            ]).repos.deep_view().contains(name) by {
                assert(!lists[j].contains(name));
            }
        } else {
            let j = choose|j: int| 0 <= j < lists.len() && (#[trigger] lists[j]).contains(name);
            assert(labels[j].repos.deep_view().contains(name));
        }
    }
}

/// Two items of the same repository go to the same place, whatever else they say.
pub proof fn law_same_repository_same_place(
    labels: Seq<LabelledItem>,
    items: Seq<Item>,
    a: Item,
    b: Item,
    j: int,
)
    requires
        items.contains(a),
        items.contains(b),
        a.full_repository_name@ == b.full_repository_name@,
    ensures
        items.filter(goes_to(repo_lists(labels), j)).contains(a) <==> items.filter(
            goes_to(repo_lists(labels), j),
        ).contains(b),
        items.filter(goes_nowhere(repo_lists(labels))).contains(a) <==> items.filter(
            goes_nowhere(repo_lists(labels)),
        ).contains(b),
{
    lemma_filter_members(items, goes_to(repo_lists(labels), j), a);
    lemma_filter_members(items, goes_to(repo_lists(labels), j), b);
    lemma_filter_members(items, goes_nowhere(repo_lists(labels)), a);
    lemma_filter_members(items, goes_nowhere(repo_lists(labels)), b);
}

/// A condition leaves exactly those items that it holds of.
pub proof fn lemma_filter_members(items: Seq<Item>, pred: spec_fn(Item) -> bool, item: Item)
    ensures
        items.filter(pred).contains(item) <==> items.contains(item) && pred(item),
{
    if items.filter(pred).contains(item) {
        items.lemma_filter_contains_rev(pred, item);
        let k = choose|k: int| 0 <= k < items.filter(pred).len() && items.filter(pred)[k] == item;
        items.lemma_filter_pred(pred, k);
    }
    if items.contains(item) && pred(item) {
        let k = choose|k: int| 0 <= k < items.len() && items[k] == item;
        items.lemma_filter_contains(pred, k);
    }
}

} // verus!
