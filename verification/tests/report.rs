use this_week_in_open_source::labels::match_items_with_labels;
use this_week_in_open_source::model::{
    AppParams, Item, ItemMergeStatus, LabelledItem, PullRequestQueryType,
};
use this_week_in_open_source::report::{
    extract_definitions, format_item, format_items, format_label, twios_comment, twios_file,
    write_twios_comment_contents, write_twios_file_contents,
};
use this_week_in_open_source::select::filter_items_by_merge_status;

fn items_helper() -> Vec<Item> {
    vec![
        Item {
            issue_number: "63".to_string(),
            issue_title: "Update nan".to_string(),
            issue_url: "https://github.com/atom/keyboard-layout/pull/63".to_string(),
            organization_name: "atom".to_string(),
            repository_name: "keyboard-layout".to_string(),
            full_repository_name: "atom/keyboard-layout".to_string(),
            repository_url: "https://github.com/atom/keyboard-layout".to_string(),
            user_login: "mansona".to_string(),
            user_url: "https://github.com/mansona".to_string(),
            state: "closed".to_string(),
            merge_status: ItemMergeStatus::Unknown,
        },
        Item {
            issue_number: "798".to_string(),
            issue_title: "Ember 4 compatibility".to_string(),
            issue_url: "https://github.com/ember-engines/ember-engines/pull/798".to_string(),
            organization_name: "ember-engines".to_string(),
            repository_name: "ember-engines".to_string(),
            full_repository_name: "ember-engines/ember-engines".to_string(),
            repository_url: "https://github.com/ember-engines/ember-engines".to_string(),
            user_login: "BobrImperator".to_string(),
            user_url: "https://github.com/BobrImperator".to_string(),
            state: "open".to_string(),
            merge_status: ItemMergeStatus::Unknown,
        },
    ]
}

fn repo_configs_helper() -> Vec<LabelledItem> {
    vec![LabelledItem {
        name: "Ember".to_string(),
        repos: vec!["ember-engines/ember-engines".to_string()],
        items: vec![],
    }]
}

fn app_params_helper() -> AppParams {
    AppParams {
        users: vec!["mansona".to_string()],
        date_sign: ">".to_string(),
        date: "2022-02-01".to_string(),
        query_type: PullRequestQueryType::Created,
        labels: vec![],
        exclude: vec![],
        exclude_closed_not_merged: false,
        header: vec!["# TWIOS".to_string(), "".to_string(), "".to_string()],
        output_path: "digests/2022.md".to_string(),
    }
}

const ATOM_LINE: &str = "- [atom/keyboard-layout] [#63](https://github.com/atom/keyboard-layout/pull/63) Update nan ([@mansona])";
const EMBER_LINE: &str = "- [ember-engines/ember-engines] [#798](https://github.com/ember-engines/ember-engines/pull/798) Ember 4 compatibility ([@BobrImperator])";

#[test]
fn it_formats_label() {
    assert_eq!("## Ember", format_label(&repo_configs_helper()[0]));
}

#[test]
fn it_formats_item() {
    assert_eq!(
        "- [atom/keyboard-layout] [#63](https://github.com/atom/keyboard-layout/pull/63) Update nan ([@mansona])",
        format_item("mansona".to_string(), &items_helper()[0])
    );
}

#[test]
fn it_formats_items() {
    let expected = vec![
        "- [atom/keyboard-layout] [#63](https://github.com/atom/keyboard-layout/pull/63) Update nan ([@mansona])",
        "- [ember-engines/ember-engines] [#798](https://github.com/ember-engines/ember-engines/pull/798) Ember 4 compatibility ([@BobrImperator])",
    ];
    assert_eq!(expected, format_items(&items_helper()));
}

#[test]
fn it_extracts_definitions() {
    let expected = vec![
        "[@BobrImperator]: https://github.com/BobrImperator",
        "[@mansona]: https://github.com/mansona",
        "[atom/keyboard-layout]: https://github.com/atom/keyboard-layout",
        "[ember-engines/ember-engines]: https://github.com/ember-engines/ember-engines",
    ];
    assert_eq!(expected, extract_definitions(&items_helper()));
}

#[test]
fn it_matches_items_with_labels() {
    let items = items_helper();
    let atom_keyboard_item = items[0].clone();
    let ember_engines_item = items[1].clone();

    let mut labelled_items = vec![LabelledItem {
        name: "Ember".to_string(),
        repos: vec!["ember-engines/ember-engines".to_string()],
        items: vec![],
    }];

    let labels_result = match_items_with_labels(&mut labelled_items, &items);
    let expected = (
        &vec![LabelledItem {
            name: "Ember".to_string(),
            repos: vec!["ember-engines/ember-engines".to_string()],
            items: vec![ember_engines_item],
        }],
        vec![atom_keyboard_item],
    );

    assert_eq!(expected, labels_result);
}

#[test]
fn it_filters_not_merged_items() {
    let items = vec![
        Item {
            issue_number: "63".to_string(),
            issue_title: "Update nan".to_string(),
            issue_url: "https://github.com/atom/keyboard-layout/pull/63".to_string(),
            organization_name: "atom".to_string(),
            repository_name: "keyboard-layout".to_string(),
            full_repository_name: "atom/keyboard-layout".to_string(),
            repository_url: "https://github.com/atom/keyboard-layout".to_string(),
            user_login: "mansona".to_string(),
            user_url: "https://github.com/mansona".to_string(),
            state: "closed".to_string(),
            merge_status: ItemMergeStatus::NotMerged,
        },
        Item {
            issue_number: "798".to_string(),
            issue_title: "Ember 4 compatibility".to_string(),
            issue_url: "https://github.com/ember-engines/ember-engines/pull/798".to_string(),
            organization_name: "ember-engines".to_string(),
            repository_name: "ember-engines".to_string(),
            full_repository_name: "ember-engines/ember-engines".to_string(),
            repository_url: "https://github.com/ember-engines/ember-engines".to_string(),
            user_login: "BobrImperator".to_string(),
            user_url: "https://github.com/BobrImperator".to_string(),
            state: "open".to_string(),
            merge_status: ItemMergeStatus::Unknown,
        },
    ];
    assert_eq!(vec![items[1].clone()], filter_items_by_merge_status(items))
}

#[test]
fn merge_status_and_state_decide_together() {
    let base = items_helper()[0].clone();
    let mut kept: Vec<bool> = vec![];
    for state in ["closed", "open"] {
        for merge_status in [
            ItemMergeStatus::Merged,
            ItemMergeStatus::NotMerged,
            ItemMergeStatus::Unknown,
        ] {
            let mut item = base.clone();
            item.state = state.to_string();
            item.merge_status = merge_status;
            kept.push(filter_items_by_merge_status(vec![item]).len() == 1);
        }
    }
    assert_eq!(vec![true, false, true, true, true, true], kept);
}

#[test]
fn definitions_come_once_and_in_order() {
    let mut items = items_helper();
    items.append(&mut items_helper());
    let mut other = items[0].clone();
    other.user_login = "Zoe".to_string();
    other.user_url = "https://github.com/Zoe".to_string();
    items.push(other);
    let expected = vec![
        "[@BobrImperator]: https://github.com/BobrImperator",
        "[@Zoe]: https://github.com/Zoe",
        "[@mansona]: https://github.com/mansona",
        "[atom/keyboard-layout]: https://github.com/atom/keyboard-layout",
        "[ember-engines/ember-engines]: https://github.com/ember-engines/ember-engines",
    ];
    assert_eq!(expected, extract_definitions(&items));
    items.reverse();
    items[0].issue_title = "Another title".to_string();
    assert_eq!(expected, extract_definitions(&items));
    assert!(extract_definitions(&vec![]).is_empty());
}

#[test]
fn items_go_to_the_first_label_that_lists_them() {
    let items = items_helper();
    let mut labels = vec![
        LabelledItem {
            name: "First".to_string(),
            repos: vec!["atom/keyboard-layout".to_string()],
            items: vec![items[1].clone()],
        },
        LabelledItem {
            name: "Second".to_string(),
            repos: vec![
                "atom/keyboard-layout".to_string(),
                "ember-engines/ember-engines".to_string(),
            ],
            items: vec![],
        },
    ];
    let (matched, unknown) = match_items_with_labels(&mut labels, &items);
    assert_eq!(vec![items[1].clone(), items[0].clone()], matched[0].items);
    assert_eq!(vec![items[1].clone()], matched[1].items);
    assert_eq!("Second", matched[1].name);
    assert!(unknown.is_empty());
}

#[test]
fn no_item_is_lost_or_doubled_by_labels() {
    let mut items = items_helper();
    items.append(&mut items_helper());
    let mut labels = repo_configs_helper();
    let (matched, unknown) = match_items_with_labels(&mut labels, &items);
    assert_eq!(2, matched[0].items.len());
    assert_eq!(2, unknown.len());
}

#[test]
fn digest_has_sections_and_unknown_items() {
    let items = items_helper();
    let labels = vec![
        LabelledItem {
            name: "Ember".to_string(),
            repos: vec![],
            items: vec![items[1].clone()],
        },
        LabelledItem {
            name: "Nothing".to_string(),
            repos: vec![],
            items: vec![],
        },
        LabelledItem {
            name: "Atom".to_string(),
            repos: vec![],
            items: vec![items[0].clone(), items[0].clone()],
        },
    ];
    let mut content: Vec<String> = vec!["before".to_string()];
    write_twios_file_contents(&mut content, &labels, &vec![items[0].clone()]);
    let expected = vec![
        "before", "## Ember", "", EMBER_LINE, "", "## Atom", "", ATOM_LINE, ATOM_LINE, "",
        "## Unknown", "", ATOM_LINE,
    ];
    assert_eq!(expected, content);
}

#[test]
fn digest_of_nothing_is_empty() {
    let mut content: Vec<String> = vec![];
    write_twios_file_contents(&mut content, &repo_configs_helper(), &vec![]);
    assert!(content.is_empty());
}

#[test]
fn unknown_items_alone_follow_a_blank_line() {
    let items = items_helper();
    let mut content: Vec<String> = vec![];
    write_twios_file_contents(&mut content, &repo_configs_helper(), &vec![items[1].clone()]);
    assert_eq!(vec!["", "## Unknown", "", EMBER_LINE], content);
}

#[test]
fn digest_text_puts_header_lines_and_definitions_together() {
    let items = items_helper();
    let labels = vec![LabelledItem {
        name: "Ember".to_string(),
        repos: vec![],
        items: vec![items[1].clone()],
    }];
    let definitions = vec!["[a]: b".to_string(), "[c]: d".to_string()];
    let text = twios_file(&app_params_helper(), &labels, &vec![], &definitions);
    let expected = format!("# TWIOS\n\n## Ember\n\n{}\n\n[a]: b\n[c]: d", EMBER_LINE);
    assert_eq!(expected, text);
}

#[test]
fn comment_names_each_unlabelled_repository_once() {
    let mut unknown = items_helper();
    unknown.append(&mut items_helper());
    let mut content: Vec<String> = vec!["before".to_string()];
    write_twios_comment_contents(&mut content, &app_params_helper(), &unknown);
    let expected = vec![
        "before",
        "",
        "- TWIOS_PATH digests/2022.md",
        "- TWIOS_DATE 2022-02-01",
        "- TWIOS_UNLABELLED",
        "  - [atom/keyboard-layout] UNKNOWN @mansona",
        "  - [ember-engines/ember-engines] UNKNOWN @BobrImperator",
        "",
        "Change repo category to `EXCLUDED` in order to permantently ignore it from TWIOS from now on.",
    ];
    assert_eq!(expected, content);
}

#[test]
fn comment_text_is_its_lines() {
    let text = twios_comment(&app_params_helper(), &vec![]);
    assert_eq!(
        "\n- TWIOS_PATH digests/2022.md\n- TWIOS_DATE 2022-02-01\n- TWIOS_UNLABELLED\n\nChange repo category to `EXCLUDED` in order to permantently ignore it from TWIOS from now on.",
        text
    );
}
