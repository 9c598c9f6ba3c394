use this_week_in_open_source::model::{
    AppParams, Item, ItemMergeStatus, Label, PullRequestQueryType,
};
use this_week_in_open_source::order::sort_by_key;
use this_week_in_open_source::report::twios_file;
use this_week_in_open_source::select::{
    arrange, empty_sections, exclude_repositories, is_token_variable, merge_check,
    set_item_merge_status, MergeCheck,
};

fn item(repository: &str, number: &str, state: &str) -> Item {
    Item {
        issue_number: number.to_string(),
        issue_title: format!("Title {}", number),
        issue_url: format!("https://github.com/o/{}/pull/{}", repository, number),
        organization_name: "o".to_string(),
        repository_name: repository.to_string(),
        full_repository_name: format!("o/{}", repository),
        repository_url: format!("https://github.com/o/{}", repository),
        user_login: "me".to_string(),
        user_url: "https://github.com/me".to_string(),
        state: state.to_string(),
        merge_status: ItemMergeStatus::Unknown,
    }
}

fn params(query_type: PullRequestQueryType, exclude_closed_not_merged: bool) -> AppParams {
    AppParams {
        users: vec!["me".to_string()],
        date_sign: ">".to_string(),
        date: "2022-02-01".to_string(),
        query_type,
        labels: vec![
            Label {
                name: "L".to_string(),
                repos: vec!["o/b".to_string()],
            },
            Label {
                name: "M".to_string(),
                repos: vec!["o/b".to_string(), "o/c".to_string()],
            },
        ],
        exclude: vec!["o/x".to_string()],
        exclude_closed_not_merged,
        header: vec![],
        output_path: "out.md".to_string(),
    }
}

fn numbers(items: &Vec<Item>) -> Vec<String> {
    let mut result: Vec<String> = vec![];
    for item in items {
        result.push(item.issue_number.clone());
    }
    result
}

#[test]
fn token_variable_has_its_exact_name() {
    assert!(is_token_variable(&"GITHUB_PERSONAL_TOKEN".to_string()));
    assert!(!is_token_variable(&"GITHUB_PERSONAL_TOKEN2".to_string()));
    assert!(!is_token_variable(&"github_personal_token".to_string()));
}

#[test]
fn excluded_repositories_go() {
    let items = vec![item("a", "1", "open"), item("x", "2", "open"), item("b", "3", "open")];
    let kept = exclude_repositories(items, &vec!["o/x".to_string(), "o/y".to_string()]);
    assert_eq!(vec!["1", "3"], numbers(&kept));
}

#[test]
fn check_names_the_pull_request() {
    assert_eq!(
        Some(MergeCheck {
            owner: "o".to_string(),
            repository: "a".to_string(),
            number: 12
        }),
        merge_check(&item("a", "12", "open"))
    );
    assert_eq!(None, merge_check(&item("a", "x", "open")));
    assert_eq!(None, merge_check(&item("a", "18446744073709551616", "open")));
}

#[test]
fn answers_set_the_status() {
    let mut items = vec![item("a", "1", "open"), item("b", "2", "open"), item("c", "3", "open")];
    items[2].merge_status = ItemMergeStatus::Merged;
    set_item_merge_status(&mut items, &vec![Some(true), Some(false), None]);
    assert_eq!(ItemMergeStatus::Merged, items[0].merge_status);
    assert_eq!(ItemMergeStatus::NotMerged, items[1].merge_status);
    assert_eq!(ItemMergeStatus::Unknown, items[2].merge_status);
    assert_eq!(vec!["1", "2", "3"], numbers(&items));
}

#[test]
fn items_of_one_repository_keep_their_order() {
    let sorted = sort_by_key(vec![
        item("b", "1", "open"),
        item("a", "2", "open"),
        item("b", "3", "open"),
        item("a", "4", "open"),
        item("B", "5", "open"),
    ]);
    assert_eq!(vec!["5", "2", "4", "1", "3"], numbers(&sorted));
}

#[test]
fn sections_start_empty() {
    let sections = empty_sections(&params(PullRequestQueryType::Created, false).labels);
    assert_eq!(2, sections.len());
    assert_eq!("M", sections[1].name);
    assert_eq!(vec!["o/b", "o/c"], sections[1].repos);
    assert!(sections[1].items.is_empty());
}

fn collected() -> Vec<Item> {
    vec![
        item("c", "1", "closed"),
        item("b", "2", "closed"),
        item("d", "3", "open"),
        item("b", "4", "open"),
        item("a", "5", "closed"),
    ]
}

fn answers() -> Vec<Option<bool>> {
    vec![Some(false), Some(true), Some(false), None, None]
}

#[test]
fn arranged_items_are_sorted_into_sections() {
    let (labels, unknown, definitions) = arrange(
        &params(PullRequestQueryType::Created, false),
        collected(),
        &answers(),
    );
    assert_eq!(vec!["2", "4"], numbers(&labels[0].items));
    assert_eq!(vec!["1"], numbers(&labels[1].items));
    assert_eq!(vec!["5", "3"], numbers(&unknown));
    assert_eq!(
        vec![
            "[@me]: https://github.com/me",
            "[o/a]: https://github.com/o/a",
            "[o/b]: https://github.com/o/b",
            "[o/c]: https://github.com/o/c",
            "[o/d]: https://github.com/o/d",
        ],
        definitions
    );
    assert_eq!(ItemMergeStatus::Merged, labels[0].items[0].merge_status);
    assert_eq!(ItemMergeStatus::NotMerged, labels[1].items[0].merge_status);
}

#[test]
fn abandoned_items_go_where_that_is_asked_for() {
    let (labels, unknown, definitions) = arrange(
        &params(PullRequestQueryType::Created, true),
        collected(),
        &answers(),
    );
    assert_eq!(vec!["2", "4"], numbers(&labels[0].items));
    assert!(labels[1].items.is_empty());
    assert_eq!(vec!["5", "3"], numbers(&unknown));
    assert_eq!(4, definitions.len());
}

#[test]
fn search_by_merge_date_is_not_thinned_out() {
    let (labels, unknown, _) = arrange(
        &params(PullRequestQueryType::Merged, true),
        collected(),
        &answers(),
    );
    assert_eq!(vec!["2", "4"], numbers(&labels[0].items));
    assert_eq!(vec!["1"], numbers(&labels[1].items));
    assert_eq!(vec!["5", "3"], numbers(&unknown));
}

#[test]
fn every_wanted_item_is_printed() {
    let settings = params(PullRequestQueryType::Created, true);
    let (labels, unknown, definitions) = arrange(&settings, collected(), &answers());
    let text = twios_file(&settings, &labels, &unknown, &definitions);
    assert_eq!(
        "## L\n\n- [o/b] [#2](https://github.com/o/b/pull/2) Title 2 ([@me])\n- [o/b] [#4](https://github.com/o/b/pull/4) Title 4 ([@me])\n\n## Unknown\n\n- [o/a] [#5](https://github.com/o/a/pull/5) Title 5 ([@me])\n- [o/d] [#3](https://github.com/o/d/pull/3) Title 3 ([@me])\n\n[@me]: https://github.com/me\n[o/a]: https://github.com/o/a\n[o/b]: https://github.com/o/b\n[o/d]: https://github.com/o/d",
        text
    );
}
