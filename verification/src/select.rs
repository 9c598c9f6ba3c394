//! What stays of the collected items, and how it is arranged.

use vstd::prelude::*;

use crate::collect::described_item;
use crate::labels::{
    goes_nowhere, goes_to, law_item_has_one_place, lemma_count_in_filter, lemma_filter_members,
    lists_repository, match_items_with_labels, repo_lists,
};
use crate::model::{
    AppParams, Issue, Item, ItemMergeStatus, Label, LabelledItem, PullRequestQueryType,
};
use crate::order::{
    has_key, law_stable_sort_orders, law_stable_sort_permutes, law_stable_sort_sorts, sort_by_key, stable_sort,
    text_le, Keyed,
};
use crate::report::{
    definition_lines, digest_lines, extract_definitions, item_line, law_digest_shows_every_item,
    law_links_are_defined, repository_definition, user_definition,
};
use crate::text::{law_decimal_then_parse, parse_number, parsed_number};

verus! {

// ---------------------------------------------------------------------------
// Access to the service
// ---------------------------------------------------------------------------

/// Whether `key` is the environment variable that holds the access token.
pub fn is_token_variable(key: &String) -> (result: bool)
    ensures
        result == (key@ == "GITHUB_PERSONAL_TOKEN"@),
{
    *key == "GITHUB_PERSONAL_TOKEN".to_owned()
}

// ---------------------------------------------------------------------------
// Repositories to leave out
// ---------------------------------------------------------------------------

/// Holds of the items whose repository is not among `exclude`.
pub open spec fn not_excluded(exclude: Seq<Seq<char>>) -> spec_fn(Item) -> bool {
    |item: Item| !exclude.contains(item@.full_repository_name)
}

/// Leaves out the items whose repository is among `exclude`.
pub fn exclude_repositories(items: Vec<Item>, exclude: &Vec<String>) -> (kept: Vec<Item>)
    ensures
        kept@ == items@.filter(not_excluded(exclude.deep_view())),
{
    let ghost all = items@;
    let ghost pred = not_excluded(exclude.deep_view());
    let mut kept: Vec<Item> = Vec::new();
    proof {
        reveal(Seq::filter);
        assert(all.take(0).filter(pred) =~= Seq::empty());
    }
    for item in iter: items
        invariant
            iter.seq() == all,
            pred == not_excluded(exclude.deep_view()),
            kept@ == all.take(iter.index() as int).filter(pred),
    {
        proof {
            let before = all.take(iter.index() as int);
            assert(all.take(iter.index() + 1) =~= before.push(item));
            before.lemma_filter_push(item, pred);
        }
        if !lists_repository(exclude, &item.full_repository_name) {
            kept.push(item);
        }
    }
    assert(all.take(all.len() as int) =~= all);
    kept
}

// ---------------------------------------------------------------------------
// Merge status
// ---------------------------------------------------------------------------

/// Which pull request to ask the service about.
#[derive(Debug, PartialEq)]
pub struct MergeCheck {
    pub owner: String,
    pub repository: String,
    pub number: u64,
}

/// The question whether the pull request of `item` was merged, or `None` where its
/// number cannot be read.
pub fn merge_check(item: &Item) -> (check: Option<MergeCheck>)
    ensures
        match check {
            Some(check) => {
                &&& check.owner@ == item@.organization_name
                &&& check.repository@ == item@.repository_name
                &&& parsed_number(item@.issue_number) == Some(check.number)
            },
            None => parsed_number(item@.issue_number) is None,
        },
{
    match parse_number(item.issue_number.as_str()) {
        Some(number) => Some(
            MergeCheck {
                owner: item.organization_name.clone(),
                repository: item.repository_name.clone(),
                number,
            },
        ),
        None => None,
    }
}

/// What the answer to a merge check says; `None` stands for a check that failed.
pub open spec fn checked_status(answer: Option<bool>) -> ItemMergeStatus {
    match answer {
        Some(true) => ItemMergeStatus::Merged,
        Some(false) => ItemMergeStatus::NotMerged,
        None => ItemMergeStatus::Unknown,
    }
}

/// `items` with the merge status that the answers to their checks give.
pub open spec fn with_status(items: Seq<Item>, answers: Seq<Option<bool>>) -> Seq<Item> {
    Seq::new(
        items.len(),
        |i: int| Item { merge_status: checked_status(answers[i]), ..items[i] },
    )
}

/// Records the answers to the merge checks of `items`, one per item in order;
/// `None` stands for a check that failed.
pub fn set_item_merge_status(items: &mut Vec<Item>, answers: &Vec<Option<bool>>)
    requires
        answers@.len() == old(items)@.len(),
    ensures
        final(items)@ == with_status(old(items)@, answers@),
{
    let ghost before = items@;
    let mut i: usize = 0;
    while i < items.len()
        invariant
            i <= items.len(),
            items@.len() == before.len(),
            answers@.len() == before.len(),
            forall|k: int| 0 <= k < i ==> #[trigger] items@[k] == with_status(before, answers@)[k],
            forall|k: int| i <= k < before.len() ==> #[trigger] items@[k] == before[k],
        decreases items.len() - i,
    {
        match answers[i] {
            Some(is_merged) => {
                if is_merged {
                    items[i].merge_status = ItemMergeStatus::Merged;
                } else {
                    items[i].merge_status = ItemMergeStatus::NotMerged;
                }
            },
            None => {
                items[i].merge_status = ItemMergeStatus::Unknown;
            },
        }
        i = i + 1;
    }
    assert(items@ =~= with_status(before, answers@));
}

/// Holds of the items that were not closed without being merged.
pub open spec fn not_abandoned() -> spec_fn(Item) -> bool {
    |item: Item| !(item@.merge_status == ItemMergeStatus::NotMerged && item@.state == "closed"@)
}

/// Leaves out the items that were closed without being merged.
pub fn filter_items_by_merge_status(items: Vec<Item>) -> (kept: Vec<Item>)
    ensures
        kept@ == items@.filter(not_abandoned()),
{
    let ghost all = items@;
    let closed = "closed".to_owned();
    let mut kept: Vec<Item> = Vec::new();
    proof {
        reveal(Seq::filter);
        assert(all.take(0).filter(not_abandoned()) =~= Seq::empty());
    }
    for item in iter: items
        invariant
            iter.seq() == all,
            closed@ == "closed"@,
            kept@ == all.take(iter.index() as int).filter(not_abandoned()),
    {
        proof {
            let before = all.take(iter.index() as int);
            assert(all.take(iter.index() + 1) =~= before.push(item));
            before.lemma_filter_push(item, not_abandoned());
        }
        if !(item.merge_status == ItemMergeStatus::NotMerged && item.state == closed) {
            kept.push(item);
        }
    }
    assert(all.take(all.len() as int) =~= all);
    kept
}

// ---------------------------------------------------------------------------
// Arrangement
// ---------------------------------------------------------------------------

/// The items that the digest is to show: `items` with their merge status, without
/// what was closed unmerged where that is not wanted. A search by the date of merging
/// is never thinned out.
pub open spec fn wanted_items(
    app_params: AppParams,
    items: Seq<Item>,
    answers: Seq<Option<bool>>,
) -> Seq<Item> {
    let checked = with_status(items, answers);
    if app_params.exclude_closed_not_merged && app_params.query_type
        != PullRequestQueryType::Merged {
        checked.filter(not_abandoned())
    } else {
        checked
    }
}

/// The items that the digest shows, in its order: by the full names of their
/// repositories, those of one repository as they were collected.
pub open spec fn shown_items(
    app_params: AppParams,
    items: Seq<Item>,
    answers: Seq<Option<bool>>,
) -> Seq<Item> {
    stable_sort(wanted_items(app_params, items, answers))
}

/// Which repositories belong to each label of the configuration.
pub open spec fn label_repos(labels: Seq<Label>) -> Seq<Seq<Seq<char>>> {
    Seq::new(labels.len(), |j: int| labels[j].repos.deep_view())
}

/// A copy of `lines`.
fn copy_lines(lines: &Vec<String>) -> (copy: Vec<String>)
    ensures
        copy.deep_view() == lines.deep_view(),
{
    let mut copy: Vec<String> = Vec::new();
    let mut i: usize = 0;
    while i < lines.len()
        invariant
            i <= lines.len(),
            copy.deep_view() == lines.deep_view().take(i as int),
        decreases lines.len() - i,
    {
        let ghost before = copy.deep_view();
        copy.push(lines[i].clone());
        assert(copy.deep_view() =~= before.push(lines[i as int]@));
        assert(copy.deep_view() =~= lines.deep_view().take(i + 1));
        i = i + 1;
    }
    assert(lines.deep_view().take(i as int) =~= lines.deep_view());
    copy
}

/// The sections that the labels of the configuration ask for, all empty.
pub fn empty_sections(labels: &Vec<Label>) -> (sections: Vec<LabelledItem>)
    ensures
        sections@.len() == labels@.len(),
        forall|j: int|
            0 <= j < labels@.len() ==> {
                &&& (#[trigger] sections@[j])@.name == labels@[j].name@
                &&& sections@[j]@.repos == labels@[j].repos.deep_view()
                &&& sections@[j]@.items == Seq::<Item>::empty()
            },
{
    let mut sections: Vec<LabelledItem> = Vec::new();
    let mut j: usize = 0;
    while j < labels.len()
        invariant
            j <= labels.len(),
            sections@.len() == j,
            forall|k: int|
                0 <= k < j ==> {
                    &&& (#[trigger] sections@[k])@.name == labels@[k].name@
                    &&& sections@[k]@.repos == labels@[k].repos.deep_view()
                    &&& sections@[k]@.items == Seq::<Item>::empty()
                },
        decreases labels.len() - j,
    {
        sections.push(
            LabelledItem {
                name: labels[j].name.clone(),
                repos: copy_lines(&labels[j].repos),
                items: Vec::new(),
            },
        );
        j = j + 1;
    }
    sections
}

/// Arranges the collected items, from which excluded repositories are already left
/// out, by the answers to their merge checks: the sections with their items, the
/// items that belong to none, and the link definitions.
#[verifier::spinoff_prover]
pub fn arrange(app_params: &AppParams, items: Vec<Item>, answers: &Vec<Option<bool>>) -> (result: (
    Vec<LabelledItem>,
    Vec<Item>,
    Vec<String>,
))
    requires
        answers@.len() == items@.len(),
    ensures
        result.0@.len() == app_params.labels@.len(),
        forall|j: int|
            0 <= j < app_params.labels@.len() ==> {
                &&& (#[trigger] result.0@[j])@.name == app_params.labels@[j].name@
                &&& result.0@[j]@.repos == app_params.labels@[j].repos.deep_view()
                &&& result.0@[j]@.items == shown_items(*app_params, items@, answers@).filter(
                    goes_to(label_repos(app_params.labels@), j),
                )
            },
        result.1@ == shown_items(*app_params, items@, answers@).filter(
            goes_nowhere(label_repos(app_params.labels@)),
        ),
        result.2.deep_view() == definition_lines(shown_items(*app_params, items@, answers@)),
        forall|j: int|
            0 <= j < app_params.labels@.len() ==> (#[trigger] result.0@[j]).name@
                == app_params.labels@[j].name@,
        forall|i: int|
            #![trigger items@[i]]
            0 <= i < items@.len() && !(app_params.exclude_closed_not_merged
                && app_params.query_type == PullRequestQueryType::Created && answers@[i] == Some(
                false,
            ) && items@[i].state@ == "closed"@) ==> {
                let status = match answers@[i] {
                    Some(true) => ItemMergeStatus::Merged,
                    Some(false) => ItemMergeStatus::NotMerged,
                    None => ItemMergeStatus::Unknown,
                };
                let item = Item { merge_status: status, ..items@[i] };
                let name = items@[i].full_repository_name@;
                ||| result.1@.contains(item) && forall|j: int|
                    0 <= j < app_params.labels@.len() ==> !(#[trigger] app_params.labels@[
                        j
                    ]).repos.deep_view().contains(name)
                ||| exists|j: int|
                    0 <= j < app_params.labels@.len() && app_params.labels@[
                        j
                    ].repos.deep_view().contains(name) && (forall|k: int|
                        0 <= k < j ==> !(#[trigger] app_params.labels@[
                            k
                        ]).repos.deep_view().contains(name)) && (#[trigger] result.0@[
                        j
                    ]).items@.contains(item)
            },
{
    let mut chosen = items;
    set_item_merge_status(&mut chosen, answers);
    if app_params.exclude_closed_not_merged && app_params.query_type
        != PullRequestQueryType::Merged {
        chosen = filter_items_by_merge_status(chosen);
    }
    let shown = sort_by_key(chosen);
    let definitions = extract_definitions(&shown);
    let mut sections = empty_sections(&app_params.labels);
    let ghost empty = sections@;
    proof {
        assert(repo_lists(sections@) =~= label_repos(app_params.labels@));
    }
    let (_, unknown_items) = match_items_with_labels(&mut sections, &shown);
    proof {
        assert forall|j: int| 0 <= j < app_params.labels@.len() implies {
            &&& (#[trigger] sections@[j])@.name == app_params.labels@[j].name@
            &&& sections@[j]@.repos == app_params.labels@[j].repos.deep_view()
            &&& sections@[j]@.items == shown@.filter(goes_to(label_repos(app_params.labels@), j))
        } by {
            let found = shown@.filter(goes_to(label_repos(app_params.labels@), j));
            assert(empty[j]@.items + found =~= found);
        }
    }
    let result = (sections, unknown_items, definitions);
    proof {
        law_wanted_items_have_their_place(
            *app_params,
            items@,
            answers@,
            result.0@,
            result.1@,
        );
    }
    result
}

/// What a condition leaves of a sequence that is ordered by key is ordered by key.
proof fn lemma_filter_keeps_order(items: Seq<Item>, pred: spec_fn(Item) -> bool)
    requires
        ordered_by_repository(items),
    ensures
        ordered_by_repository(items.filter(pred)),
    decreases items.len(),
{
    reveal(Seq::filter);
    if items.len() > 0 {
        let front = items.drop_last();
        let kept = items.filter(pred);
        assert forall|i: int, j: int| 0 <= i < j < front.len() implies text_le(
            (#[trigger] front[i]).key(),
            (#[trigger] front[j]).key(),
        ) by {
            assert(front[i] == items[i]);
            assert(front[j] == items[j]);
        }
        lemma_filter_keeps_order(front, pred);
        assert forall|i: int, j: int| 0 <= i < j < kept.len() implies text_le(
            (#[trigger] kept[i]).key(),
            (#[trigger] kept[j]).key(),
        ) by {
            let earlier = front.filter(pred);
            assert(kept[i] == earlier[i]);
            if j < earlier.len() {
                assert(kept[j] == earlier[j]);
            } else {
                assert(kept[j] == items.last());
                assert(earlier.contains(earlier[i]));
                front.lemma_filter_contains_rev(pred, earlier[i]);
                let k = choose|k: int| 0 <= k < front.len() && front[k] == earlier[i];
                assert(items[k] == earlier[i]);
            }
        }
    }
}

/// Whether the full names of the repositories of `items` are in order.
pub open spec fn ordered_by_repository(items: Seq<Item>) -> bool {
    forall|i: int, j: int|
        0 <= i < j < items.len() ==> text_le((#[trigger] items[i]).key(), (#[trigger] items[j]).key())
}

/// The digest shows exactly what is wanted, each item as often as it was collected,
/// in the order of the repositories' names; the items of one repository keep the
/// order in which they were collected.
pub proof fn law_shown_items_are_the_wanted_ones(
    app_params: AppParams,
    items: Seq<Item>,
    answers: Seq<Option<bool>>,
)
    ensures
        ordered_by_repository(shown_items(app_params, items, answers)),
        shown_items(app_params, items, answers).to_multiset() == wanted_items(
            app_params,
            items,
            answers,
        ).to_multiset(),
        forall|name: Seq<char>| #[trigger]
            shown_items(app_params, items, answers).filter(has_key(name)) == wanted_items(
                app_params,
                items,
                answers,
            ).filter(has_key(name)),
{
    let wanted = wanted_items(app_params, items, answers);
    law_stable_sort_sorts(wanted);
    law_stable_sort_permutes(wanted, stable_sort(wanted));
}

/// Each section of the digest, and what belongs to none, is in the order of the
/// repositories' names.
pub proof fn law_sections_are_ordered(
    app_params: AppParams,
    items: Seq<Item>,
    answers: Seq<Option<bool>>,
    lists: Seq<Seq<Seq<char>>>,
)
    ensures
        forall|j: int| #[trigger]
            ordered_by_repository(
                shown_items(app_params, items, answers).filter(goes_to(lists, j)),
            ),
        ordered_by_repository(
            shown_items(app_params, items, answers).filter(goes_nowhere(lists)),
        ),
{
    let shown = shown_items(app_params, items, answers);
    law_shown_items_are_the_wanted_ones(app_params, items, answers);
    assert forall|j: int| #[trigger] ordered_by_repository(shown.filter(goes_to(lists, j))) by {
        lemma_filter_keeps_order(shown, goes_to(lists, j));
    }
    lemma_filter_keeps_order(shown, goes_nowhere(lists));
}

/// Every shown item is a collected one with nothing but its merge status changed,
/// and that as the answer to its check says.
proof fn lemma_shown_item_was_collected(
    app_params: AppParams,
    items: Seq<Item>,
    answers: Seq<Option<bool>>,
    item: Item,
) -> (i: int)
    requires
        shown_items(app_params, items, answers).contains(item),
    ensures
        0 <= i < items.len(),
        item == (Item { merge_status: checked_status(answers[i]), ..items[i] }),
        app_params.exclude_closed_not_merged && app_params.query_type
            != PullRequestQueryType::Merged ==> not_abandoned()(item),
{
    let shown = shown_items(app_params, items, answers);
    let wanted = wanted_items(app_params, items, answers);
    let checked = with_status(items, answers);
    law_shown_items_are_the_wanted_ones(app_params, items, answers);
    shown.to_multiset_ensures();
    wanted.to_multiset_ensures();
    assert(shown.to_multiset().count(item) > 0);
    assert(wanted.to_multiset().count(item) > 0);
    assert(wanted.contains(item));
    if app_params.exclude_closed_not_merged && app_params.query_type
        != PullRequestQueryType::Merged {
        checked.lemma_filter_contains_rev(not_abandoned(), item);
        let k = choose|k: int| 0 <= k < wanted.len() && wanted[k] == item;
        checked.lemma_filter_pred(not_abandoned(), k);
    }
    choose|i: int| 0 <= i < checked.len() && checked[i] == item
}

/// Every shown item is a collected one with nothing but its merge status changed,
/// and that as the answer to its check says. Where what was closed without being
/// merged is not wanted, nothing of the kind is shown, unless the search went by the
/// date of merging.
pub proof fn law_shown_items_were_collected(
    app_params: AppParams,
    items: Seq<Item>,
    answers: Seq<Option<bool>>,
)
    ensures
        forall|item: Item| #[trigger]
            shown_items(app_params, items, answers).contains(item) ==> {
                &&& exists|i: int|
                    0 <= i < items.len() && item == (Item {
                        merge_status: checked_status(answers[i]),
                        ..#[trigger] items[i]
                    })
                &&& app_params.exclude_closed_not_merged && app_params.query_type
                    != PullRequestQueryType::Merged ==> not_abandoned()(item)
            },
{
    assert forall|item: Item| #[trigger]
        shown_items(app_params, items, answers).contains(item) implies {
        &&& exists|i: int|
            0 <= i < items.len() && item == (Item {
                merge_status: checked_status(answers[i]),
                ..#[trigger] items[i]
            })
        &&& app_params.exclude_closed_not_merged && app_params.query_type
            != PullRequestQueryType::Merged ==> not_abandoned()(item)
    } by {
        let i = lemma_shown_item_was_collected(app_params, items, answers, item);
        assert(item == (Item { merge_status: checked_status(answers[i]), ..items[i] }));
    }
}

/// Nothing of an excluded repository is shown, whatever the answers to the checks.
pub proof fn law_excluded_repositories_are_not_shown(
    app_params: AppParams,
    collected: Seq<Item>,
    answers: Seq<Option<bool>>,
)
    ensures
        forall|item: Item| #[trigger]
            shown_items(
                app_params,
                collected.filter(not_excluded(app_params.exclude.deep_view())),
                answers,
            ).contains(item) ==> !app_params.exclude.deep_view().contains(
                item@.full_repository_name,
            ),
{
    let pred = not_excluded(app_params.exclude.deep_view());
    let kept = collected.filter(pred);
    assert forall|item: Item| #[trigger]
        shown_items(app_params, kept, answers).contains(
            item,
        ) implies !app_params.exclude.deep_view().contains(item@.full_repository_name) by {
        let i = lemma_shown_item_was_collected(app_params, kept, answers, item);
        collected.lemma_filter_pred(pred, i);
        assert(item.full_repository_name == kept[i].full_repository_name);
    }
}

/// The merge check of an item asks about the very number that was reported, and can
/// always be asked unless that number is negative.
pub proof fn law_check_asks_about_reported_number(
    issue: Issue,
    path: Seq<char>,
    query_type: PullRequestQueryType,
)
    ensures
        parsed_number(described_item(issue, path, query_type).issue_number) == (if issue.number
            < 0 {
            None
        } else {
            Some(issue.number as u64)
        }),
{
    law_decimal_then_parse(issue.number as int);
}

/// Every wanted item has its line in the digest, and the links in that line have
/// their definitions.
pub proof fn law_every_wanted_item_is_printed(
    app_params: AppParams,
    items: Seq<Item>,
    answers: Seq<Option<bool>>,
    labels: Seq<LabelledItem>,
    unknown_items: Seq<Item>,
)
    requires
        labels.len() == app_params.labels@.len(),
        forall|j: int|
            0 <= j < labels.len() ==> (#[trigger] labels[j])@.items == shown_items(
                app_params,
                items,
                answers,
            ).filter(goes_to(label_repos(app_params.labels@), j)),
        unknown_items == shown_items(app_params, items, answers).filter(
            goes_nowhere(label_repos(app_params.labels@)),
        ),
    ensures
        forall|item: Item| #[trigger]
            wanted_items(app_params, items, answers).contains(item) ==> {
                let definitions = definition_lines(shown_items(app_params, items, answers));
                &&& digest_lines(labels, unknown_items).contains(
                    item_line(item@.user_login, item),
                )
                &&& definitions.contains(user_definition(item))
                &&& definitions.contains(repository_definition(item))
            },
{
    let shown = shown_items(app_params, items, answers);
    let wanted = wanted_items(app_params, items, answers);
    let lists = label_repos(app_params.labels@);
    law_shown_items_are_the_wanted_ones(app_params, items, answers);
    law_digest_shows_every_item(labels, unknown_items);
    law_links_are_defined(shown);
    shown.to_multiset_ensures();
    wanted.to_multiset_ensures();
    assert forall|item: Item| #[trigger] wanted.contains(item) implies {
        let definitions = definition_lines(shown);
        &&& digest_lines(labels, unknown_items).contains(item_line(item@.user_login, item))
        &&& definitions.contains(user_definition(item))
        &&& definitions.contains(repository_definition(item))
    } by {
        assert(wanted.to_multiset().count(item) > 0);
        assert(shown.to_multiset().count(item) > 0);
        assert(shown.contains(item));
        let at = choose|at: int| 0 <= at < shown.len() && shown[at] == item;
        law_item_has_one_place(lists, item);
        if goes_nowhere(lists)(item) {
            shown.lemma_filter_contains(goes_nowhere(lists), at);
            let i = choose|i: int| 0 <= i < unknown_items.len() && unknown_items[i] == item;
            assert(unknown_items[i] == item);
        } else {
            let j = choose|j: int| #[trigger] goes_to(lists, j)(item);
            shown.lemma_filter_contains(goes_to(lists, j), at);
            let found = labels[j]@.items;
            assert(found.contains(item));
            let i = choose|i: int| 0 <= i < found.len() && found[i] == item;
            assert(labels[j]@.items[i] == item);
        }
    }
}

/// Leaving out repositories leaves out all of their items and no other: an item stays
/// as often as it was given where its repository is not among them, else not at all.
pub proof fn law_exclusion_goes_by_repository(
    items: Seq<Item>,
    exclude: Seq<Seq<char>>,
    item: Item,
)
    ensures
        items.filter(not_excluded(exclude)).contains(item) <==> items.contains(item)
            && !exclude.contains(item.full_repository_name@),
        items.filter(not_excluded(exclude)).to_multiset().count(item) == (if exclude.contains(
            item.full_repository_name@,
        ) {
            0
        } else {
            items.to_multiset().count(item)
        }),
{
    lemma_filter_members(items, not_excluded(exclude), item);
    lemma_count_in_filter(items, not_excluded(exclude), item);
}

/// The answers to the checks decide the merge status of each item in turn and nothing
/// else about it: yes makes it merged, no makes it not merged, and a check that failed
/// leaves it unknown.
pub proof fn law_answers_decide_the_status(items: Seq<Item>, answers: Seq<Option<bool>>, i: int)
    requires
        0 <= i < items.len(),
        answers.len() == items.len(),
    ensures
        with_status(items, answers).len() == items.len(),
        ({
            let item = with_status(items, answers)[i];
            &&& item.merge_status is Merged <==> answers[i] == Some(true)
            &&& item.merge_status is NotMerged <==> answers[i] == Some(false)
            &&& item.merge_status is Unknown <==> answers[i] is None
            &&& item.issue_number == items[i].issue_number
            &&& item.issue_title == items[i].issue_title
            &&& item.issue_url == items[i].issue_url
            &&& item.organization_name == items[i].organization_name
            &&& item.repository_name == items[i].repository_name
            &&& item.full_repository_name == items[i].full_repository_name
            &&& item.repository_url == items[i].repository_url
            &&& item.user_login == items[i].user_login
            &&& item.user_url == items[i].user_url
            &&& item.state == items[i].state
        }),
{
}

/// Leaving out what was closed without being merged leaves out exactly that: an item
/// goes where it is both known not to be merged and closed, and stays, as often as it
/// was given, where it lacks one of the two.
pub proof fn law_only_abandoned_items_go(items: Seq<Item>, item: Item)
    ensures
        items.filter(not_abandoned()).contains(item) <==> items.contains(item) && (
        item.merge_status !is NotMerged || item.state@ != "closed"@),
        items.filter(not_abandoned()).to_multiset().count(item) == (if item.merge_status
            is NotMerged && item.state@ == "closed"@ {
            0
        } else {
            items.to_multiset().count(item)
        }),
{
    lemma_filter_members(items, not_abandoned(), item);
    lemma_count_in_filter(items, not_abandoned(), item);
}

/// Unless what was closed without being merged is unwanted and the search went by the
/// date of creation, the digest shows every collected item, each as often as it was
/// collected; and if so, every one but those.
#[verifier::spinoff_prover]
pub proof fn law_nothing_wanted_is_dropped(
    app_params: AppParams,
    items: Seq<Item>,
    answers: Seq<Option<bool>>,
)
    requires
        answers.len() == items.len(),
    ensures
        ({
            let shown = shown_items(app_params, items, answers);
            let checked = Seq::new(
                items.len(),
                |i: int|
                    Item {
                        merge_status: match answers[i] {
                            Some(true) => ItemMergeStatus::Merged,
                            Some(false) => ItemMergeStatus::NotMerged,
                            None => ItemMergeStatus::Unknown,
                        },
                        ..items[i]
                    },
            );
            let thinned = app_params.exclude_closed_not_merged && app_params.query_type
                == PullRequestQueryType::Created;
            &&& !thinned ==> shown.len() == items.len() && shown.to_multiset()
                == checked.to_multiset()
            &&& thinned ==> shown.to_multiset() == checked.filter(
                |item: Item| !(item.merge_status is NotMerged && item.state@ == "closed"@),
            ).to_multiset()
            &&& forall|i: int|
                #![trigger items[i]]
                0 <= i < items.len() ==> (shown.contains(checked[i]) <==> !(thinned && answers[i]
                    == Some(false) && items[i].state@ == "closed"@))
        }),
{
    let shown = shown_items(app_params, items, answers);
    let wanted = wanted_items(app_params, items, answers);
    let checked = Seq::new(
        items.len(),
        |i: int|
            Item {
                merge_status: match answers[i] {
                    Some(true) => ItemMergeStatus::Merged,
                    Some(false) => ItemMergeStatus::NotMerged,
                    None => ItemMergeStatus::Unknown,
                },
                ..items[i]
            },
    );
    let thinned = app_params.exclude_closed_not_merged && app_params.query_type
        == PullRequestQueryType::Created;
    let kept = |item: Item| !(item.merge_status is NotMerged && item.state@ == "closed"@);
    assert(checked =~= with_status(items, answers));
    assert(kept =~= not_abandoned());
    law_stable_sort_orders(wanted, Seq::empty());
    shown.to_multiset_ensures();
    wanted.to_multiset_ensures();
    assert forall|i: int|
        #![trigger items[i]]
        0 <= i < items.len() implies (shown.contains(checked[i]) <==> !(thinned && answers[i]
        == Some(false) && items[i].state@ == "closed"@)) by {
        let item = checked[i];
        assert(checked.contains(item));
        assert(shown.contains(item) <==> shown.to_multiset().count(item) > 0);
        assert(wanted.contains(item) <==> wanted.to_multiset().count(item) > 0);
        lemma_filter_members(checked, not_abandoned(), item);
    }
}

/// The items are shown by the full names of their repositories, and those of one
/// repository in the order in which they were collected.
pub proof fn law_shown_by_repository(
    app_params: AppParams,
    items: Seq<Item>,
    answers: Seq<Option<bool>>,
    name: Seq<char>,
)
    requires
        answers.len() == items.len(),
    ensures
        forall|i: int, j: int|
            0 <= i < j < shown_items(app_params, items, answers).len() ==> text_le(
                (#[trigger] shown_items(app_params, items, answers)[i]).full_repository_name@,
                (#[trigger] shown_items(app_params, items, answers)[j]).full_repository_name@,
            ),
        ({
            let checked = Seq::new(
                items.len(),
                |i: int|
                    Item {
                        merge_status: match answers[i] {
                            Some(true) => ItemMergeStatus::Merged,
                            Some(false) => ItemMergeStatus::NotMerged,
                            None => ItemMergeStatus::Unknown,
                        },
                        ..items[i]
                    },
            );
            let collected = if app_params.exclude_closed_not_merged && app_params.query_type
                == PullRequestQueryType::Created {
                checked.filter(
                    |item: Item| !(item.merge_status is NotMerged && item.state@ == "closed"@),
                )
            } else {
                checked
            };
            shown_items(app_params, items, answers).filter(
                |item: Item| item.full_repository_name@ == name,
            ) == collected.filter(|item: Item| item.full_repository_name@ == name)
        }),
{
    let wanted = wanted_items(app_params, items, answers);
    let shown = shown_items(app_params, items, answers);
    let checked = Seq::new(
        items.len(),
        |i: int|
            Item {
                merge_status: match answers[i] {
                    Some(true) => ItemMergeStatus::Merged,
                    Some(false) => ItemMergeStatus::NotMerged,
                    None => ItemMergeStatus::Unknown,
                },
                ..items[i]
            },
    );
    let kept = |item: Item| !(item.merge_status is NotMerged && item.state@ == "closed"@);
    assert(checked =~= with_status(items, answers));
    assert(kept =~= not_abandoned());
    law_stable_sort_orders(wanted, name);
    let same = |item: Item| item.full_repository_name@ == name;
    let same_key = |item: Item| item.key() == name;
    assert(same =~= same_key);
    assert forall|i: int, j: int| 0 <= i < j < shown.len() implies text_le(
        (#[trigger] shown[i]).full_repository_name@,
        (#[trigger] shown[j]).full_repository_name@,
    ) by {
        assert(text_le(stable_sort(wanted)[i].key(), stable_sort(wanted)[j].key()));
    }
}

/// The name of its repository decides where a shown item goes: into the section of the
/// first label of the configuration that lists it and into no other, or, where no
/// label does, among those that belong to none.
#[verifier::spinoff_prover]
pub proof fn law_labels_decide_the_place(labels: Seq<Label>, shown: Seq<Item>, item: Item)
    ensures
        forall|j: int|
            #![trigger labels[j]]
            0 <= j < labels.len() ==> (shown.filter(goes_to(label_repos(labels), j)).contains(
                item,
            ) <==> {
                &&& shown.contains(item)
                &&& labels[j].repos.deep_view().contains(item.full_repository_name@)
                &&& forall|k: int|
                    0 <= k < j ==> !(#[trigger] labels[k]).repos.deep_view().contains(
                        item.full_repository_name@,
                    )
            }),
        shown.filter(goes_nowhere(label_repos(labels))).contains(item) <==> {
            &&& shown.contains(item)
            &&& forall|j: int|
                0 <= j < labels.len() ==> !(#[trigger] labels[j]).repos.deep_view().contains(
                    item.full_repository_name@,
                )
        },
{
    let lists = label_repos(labels);
    let name = item.full_repository_name@;
    assert forall|j: int|
        #![trigger labels[j]]
        0 <= j < labels.len() implies (shown.filter(goes_to(lists, j)).contains(item) <==> {
        &&& shown.contains(item)
        &&& labels[j].repos.deep_view().contains(name)
        &&& forall|k: int|
            0 <= k < j ==> !(#[trigger] labels[k]).repos.deep_view().contains(name)
    }) by {
        lemma_filter_members(shown, goes_to(lists, j), item);
        if goes_to(lists, j)(item) {
            assert forall|k: int| 0 <= k < j implies !(#[trigger] labels[
                k
            ]).repos.deep_view().contains(name) by {
                assert(!lists[k].contains(name));
            }
        } else if labels[j].repos.deep_view().contains(name) {
            assert(lists[j].contains(name));
            let k = choose|k: int| 0 <= k < j && (#[trigger] lists[k]).contains(name);
            assert(labels[k].repos.deep_view().contains(name));
        }
    }
    lemma_filter_members(shown, goes_nowhere(lists), item);
    if goes_nowhere(lists)(item) {
        assert forall|j: int| 0 <= j < labels.len() implies !(#[trigger] labels[
            j
        ]).repos.deep_view().contains(name) by {
            assert(!lists[j].contains(name));
        }
    } else {
        let j = choose|j: int| 0 <= j < lists.len() && (#[trigger] lists[j]).contains(name);
        assert(labels[j].repos.deep_view().contains(name));
    }
}

/// In sections that hold what the arrangement gives them, every collected item, with the
/// merge status that its answer gives, has its place: in the section of the first label
/// that lists its repository, or among those that belong to none where no label does.
/// Only what was closed without being merged has none, where it is unwanted and the
/// search went by the date of creation.
#[verifier::spinoff_prover]
pub proof fn law_wanted_items_have_their_place(
    app_params: AppParams,
    items: Seq<Item>,
    answers: Seq<Option<bool>>,
    sections: Seq<LabelledItem>,
    unknown_items: Seq<Item>,
)
    requires
        answers.len() == items.len(),
        sections.len() == app_params.labels@.len(),
        forall|j: int|
            0 <= j < sections.len() ==> (#[trigger] sections[j])@.items == shown_items(
                app_params,
                items,
                answers,
            ).filter(goes_to(label_repos(app_params.labels@), j)),
        unknown_items == shown_items(app_params, items, answers).filter(
            goes_nowhere(label_repos(app_params.labels@)),
        ),
    ensures
        forall|i: int|
            #![trigger items[i]]
            0 <= i < items.len() && !(app_params.exclude_closed_not_merged
                && app_params.query_type == PullRequestQueryType::Created && answers[i] == Some(
                false,
            ) && items[i].state@ == "closed"@) ==> {
                let status = match answers[i] {
                    Some(true) => ItemMergeStatus::Merged,
                    Some(false) => ItemMergeStatus::NotMerged,
                    None => ItemMergeStatus::Unknown,
                };
                let item = Item { merge_status: status, ..items[i] };
                let name = items[i].full_repository_name@;
                ||| unknown_items.contains(item) && forall|j: int|
                    0 <= j < app_params.labels@.len() ==> !(#[trigger] app_params.labels@[
                        j
                    ]).repos.deep_view().contains(name)
                ||| exists|j: int|
                    0 <= j < app_params.labels@.len() && app_params.labels@[
                        j
                    ].repos.deep_view().contains(name) && (forall|k: int|
                        0 <= k < j ==> !(#[trigger] app_params.labels@[
                            k
                        ]).repos.deep_view().contains(name)) && (#[trigger] sections[
                        j
                    ]).items@.contains(item)
            },
{
    let labels = app_params.labels@;
    let shown = shown_items(app_params, items, answers);
    let lists = label_repos(labels);
    law_nothing_wanted_is_dropped(app_params, items, answers);
    assert forall|i: int|
        #![trigger items[i]]
        0 <= i < items.len() && !(app_params.exclude_closed_not_merged && app_params.query_type
            == PullRequestQueryType::Created && answers[i] == Some(false) && items[i].state@
            == "closed"@) implies {
        let status = match answers[i] {
            Some(true) => ItemMergeStatus::Merged,
            Some(false) => ItemMergeStatus::NotMerged,
            None => ItemMergeStatus::Unknown,
        };
        let item = Item { merge_status: status, ..items[i] };
        let name = items[i].full_repository_name@;
        ||| unknown_items.contains(item) && forall|j: int|
            0 <= j < labels.len() ==> !(#[trigger] labels[j]).repos.deep_view().contains(name)
        ||| exists|j: int|
            0 <= j < labels.len() && labels[j].repos.deep_view().contains(name) && (forall|k: int|
                0 <= k < j ==> !(#[trigger] labels[k]).repos.deep_view().contains(name)) && (
            #[trigger] sections[j]).items@.contains(item)
    } by {
        let status = match answers[i] {
            Some(true) => ItemMergeStatus::Merged,
            Some(false) => ItemMergeStatus::NotMerged,
            None => ItemMergeStatus::Unknown,
        };
        let item = Item { merge_status: status, ..items[i] };
        assert(shown.contains(item));
        law_labels_decide_the_place(labels, shown, item);
        law_item_has_one_place(lists, item);
        if goes_nowhere(lists)(item) {
            lemma_filter_members(shown, goes_nowhere(lists), item);
        } else {
            let j = choose|j: int| #[trigger] goes_to(lists, j)(item);
            lemma_filter_members(shown, goes_to(lists, j), item);
            assert(labels[j].repos.deep_view().contains(item.full_repository_name@));
            assert(sections[j]@.items == shown.filter(goes_to(lists, j)));
            assert(sections[j].items@.contains(item));
        }
    }
}

} // verus!
