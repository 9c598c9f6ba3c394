use this_week_in_open_source::collect::{
    item_from_issue, item_from_path, page_items, prs_query, query_type_word, repository_url_of,
    segments_of,
};
use this_week_in_open_source::model::{
    AppParams, Issue, Item, ItemMergeStatus, PullRequestQueryType,
};
use this_week_in_open_source::search::{
    SearchAction, SearchEvent, SearchPhase, UserSearch, PAUSE_SECONDS,
};
use this_week_in_open_source::select::merge_check;

fn issue(url: &str, number: i64) -> Issue {
    let parsed = url::Url::parse(url).unwrap();
    Issue {
        html_url: parsed.to_string(),
        html_path: parsed.path().to_string(),
        number,
        title: "Update nan".to_string(),
        user_login: "mansona".to_string(),
        user_html_url: "https://github.com/mansona".to_string(),
        state: "closed".to_string(),
    }
}

fn params(users: Vec<&str>, query_type: PullRequestQueryType) -> AppParams {
    let mut names: Vec<String> = vec![];
    for user in users {
        names.push(user.to_string());
    }
    AppParams {
        users: names,
        date_sign: ">=".to_string(),
        date: "2022-02-01".to_string(),
        query_type,
        labels: vec![],
        exclude: vec![],
        exclude_closed_not_merged: false,
        header: vec![],
        output_path: "out.md".to_string(),
    }
}

#[test]
fn query_asks_for_one_author_and_date() {
    assert_eq!(
        "is:pr author:mansona merged:>=2022-02-01",
        prs_query(
            &"mansona".to_string(),
            &">=".to_string(),
            &"2022-02-01".to_string(),
            query_type_word(PullRequestQueryType::Merged),
        )
    );
    assert_eq!("created", query_type_word(PullRequestQueryType::Created));
}

#[test]
fn issue_becomes_item() {
    let reported = issue("https://github.com/atom/keyboard-layout/pull/63", 63);
    let expected = Item {
        issue_number: "63".to_string(),
        issue_title: "Update nan".to_string(),
        issue_url: "https://github.com/atom/keyboard-layout/pull/63".to_string(),
        organization_name: "atom".to_string(),
        repository_name: "keyboard-layout".to_string(),
        full_repository_name: "atom/keyboard-layout".to_string(),
        repository_url: "https://github.com/atom/keyboard-layout".to_string(),
        user_login: "mansona".to_string(),
        user_url: "https://github.com/mansona".to_string(),
        state: "closed".to_string(),
        merge_status: ItemMergeStatus::Unknown,
    };
    assert_eq!(
        Some(expected.clone()),
        item_from_issue(&reported, PullRequestQueryType::Created)
    );
    let mut merged = expected.clone();
    merged.merge_status = ItemMergeStatus::Merged;
    assert_eq!(
        merged,
        item_from_path(
            &reported,
            "/atom/keyboard-layout/pull/63",
            PullRequestQueryType::Merged
        )
    );
}

#[test]
fn only_the_path_of_the_url_counts() {
    let reported = issue("https://github.com/atom/nan/pull/1?x=/a/b#/c/d", 1);
    let item = item_from_issue(&reported, PullRequestQueryType::Created).unwrap();
    assert_eq!("atom", item.organization_name);
    assert_eq!("nan", item.repository_name);
    assert_eq!("https://github.com/atom/nan/pull/1?x=/a/b#", item.repository_url);
}

#[test]
fn url_without_repository_gives_no_item() {
    for url in ["https://github.com/atom", "https://github.com", "mailto:someone"] {
        assert_eq!(
            None,
            item_from_issue(&issue(url, 1), PullRequestQueryType::Created)
        );
    }
}

#[test]
fn path_is_taken_as_it_is_given() {
    let reported = issue("foo:/..//bar/baz", 1);
    assert_eq!("foo://bar/baz", reported.html_url);
    assert_eq!("//bar/baz", reported.html_path);
    let item = item_from_issue(&reported, PullRequestQueryType::Created).unwrap();
    assert_eq!("bar", item.organization_name);
    assert_eq!("baz", item.repository_name);
    assert_eq!("bar/baz", item.full_repository_name);
    assert_eq!("foo:/", item.repository_url);
}

#[test]
fn page_is_refused_for_one_bad_url() {
    let good = issue("https://github.com/a/b/pull/1", 1);
    let bad = issue("https://github.com/a", 2);
    let items = page_items(&vec![good.clone(), good.clone()], PullRequestQueryType::Created);
    assert_eq!(2, items.unwrap().len());
    assert_eq!(None, page_items(&vec![good, bad], PullRequestQueryType::Created));
    assert_eq!(Some(vec![]), page_items(&vec![], PullRequestQueryType::Created));
}

#[test]
fn segments_leave_out_empty_pieces() {
    assert_eq!(vec!["a", "b", "c"], segments_of("//a/b//c/"));
    assert!(segments_of("/").is_empty());
}

#[test]
fn repository_url_drops_two_pieces() {
    assert_eq!(
        "https://github.com/a/b",
        repository_url_of("https://github.com/a/b/pull/7")
    );
    assert_eq!("", repository_url_of("a/b"));
    assert_eq!("", repository_url_of("a"));
    assert_eq!("a", repository_url_of("a//"));
}

#[test]
fn check_asks_about_the_reported_number() {
    for number in [0i64, 7, 10, 63, 798, i64::MAX] {
        let reported = issue("https://github.com/a/b/pull/1", number);
        let item = item_from_issue(&reported, PullRequestQueryType::Created).unwrap();
        assert_eq!(number.to_string(), item.issue_number);
        let check = merge_check(&item).unwrap();
        assert_eq!(number as u64, check.number);
        assert_eq!("a", check.owner);
        assert_eq!("b", check.repository);
    }
    for number in [-1i64, i64::MIN] {
        let reported = issue("https://github.com/a/b/pull/1", number);
        let item = item_from_issue(&reported, PullRequestQueryType::Created).unwrap();
        assert_eq!(number.to_string(), item.issue_number);
        assert_eq!(None, merge_check(&item));
    }
}

#[test]
fn search_follows_pages_and_users() {
    let page = |url: &str| {
        page_items(&vec![issue(url, 1)], PullRequestQueryType::Created).unwrap()
    };
    let mut search = UserSearch::new(&params(vec!["a", "b"], PullRequestQueryType::Created));
    assert_eq!(SearchPhase::BetweenUsers, search.phase());
    assert_eq!(
        SearchAction::Search("is:pr author:a created:>=2022-02-01".to_string()),
        search.step(SearchEvent::Ready)
    );
    assert_eq!(SearchPhase::AwaitingPage, search.phase());
    assert_eq!(
        SearchAction::NextPage,
        search.step(SearchEvent::Page {
            items: page("https://github.com/o/r1/pull/1"),
            has_next: true
        })
    );
    assert_eq!(
        SearchAction::Pause,
        search.step(SearchEvent::Page {
            items: page("https://github.com/o/r2/pull/1"),
            has_next: false
        })
    );
    assert_eq!(
        SearchAction::Search("is:pr author:b created:>=2022-02-01".to_string()),
        search.step(SearchEvent::Ready)
    );
    assert_eq!(
        SearchAction::Pause,
        search.step(SearchEvent::Page {
            items: page("https://github.com/o/r3/pull/1"),
            has_next: false
        })
    );
    assert_eq!(SearchAction::Finish, search.step(SearchEvent::Ready));
    assert_eq!(SearchPhase::Finished, search.phase());
    let mut names: Vec<String> = vec![];
    for item in search.into_items() {
        names.push(item.full_repository_name);
    }
    assert_eq!(vec!["o/r1", "o/r2", "o/r3"], names);
    assert_eq!(1, PAUSE_SECONDS);
}

#[test]
fn search_for_nobody_ends_at_once() {
    let mut search = UserSearch::new(&params(vec![], PullRequestQueryType::Merged));
    assert_eq!(SearchAction::Finish, search.step(SearchEvent::Ready));
    assert!(search.into_items().is_empty());
}
