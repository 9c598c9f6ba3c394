//! What a search for pull requests says, and what becomes of the ones that it
//! reports.

use vstd::prelude::*;
use vstd::string::*;

use crate::model::{Issue, Item, ItemMergeStatus, ItemView, PullRequestQueryType};
use crate::text::{
    join, joined, law_decimal_then_parse, law_split_then_join, lemma_split_on_concat,
    lemma_split_on_nonempty, lemma_split_on_single, parsed_number, signed_decimal,
    signed_decimal_text, split, split_on,
};

verus! {

// ---------------------------------------------------------------------------
// Searches
// ---------------------------------------------------------------------------

/// The word that a search uses for the date that it goes by.
pub open spec fn query_word(query_type: PullRequestQueryType) -> Seq<char> {
    match query_type {
        PullRequestQueryType::Merged => "merged"@,
        PullRequestQueryType::Created => "created"@,
    }
}

/// The search for the pull requests of `user` by a date.
pub open spec fn prs_query_text(
    user: Seq<char>,
    date_sign: Seq<char>,
    date: Seq<char>,
    pr_state_query: Seq<char>,
) -> Seq<char> {
    "is:pr author:"@ + user + " "@ + pr_state_query + ":"@ + date_sign + date
}

/// The word that a search uses for the date that it goes by.
pub fn query_type_word(query_type: PullRequestQueryType) -> (word: &'static str)
    ensures
        word@ == query_word(query_type),
{
    match query_type {
        PullRequestQueryType::Merged => "merged",
        PullRequestQueryType::Created => "created",
    }
}

/// The search for the pull requests of `user` by a date.
pub fn prs_query(user: &String, date_sign: &String, date: &String, pr_state_query: &str) -> (query:
    String)
    ensures
        query@ == prs_query_text(user@, date_sign@, date@, pr_state_query@),
{
    let mut query = "is:pr author:".to_owned();
    query.append(user.as_str());
    query.append(" ");
    query.append(pr_state_query);
    query.append(":");
    query.append(date_sign.as_str());
    query.append(date.as_str());
    query
}

// ---------------------------------------------------------------------------
// From what a search reports to items
// ---------------------------------------------------------------------------

/// Holds of the texts that are not empty.
pub open spec fn is_nonempty() -> spec_fn(Seq<char>) -> bool {
    |text: Seq<char>| text.len() > 0
}

/// The pieces of a path between its slashes, empty pieces left out.
pub open spec fn path_segments(path: Seq<char>) -> Seq<Seq<char>> {
    split_on(path, '/').filter(is_nonempty())
}

/// `parts` without the last two, or nothing where there are no more than two.
pub open spec fn without_last_two(parts: Seq<Seq<char>>) -> Seq<Seq<char>> {
    if parts.len() <= 2 {
        Seq::empty()
    } else {
        parts.take(parts.len() - 2)
    }
}

/// The URL of the repository that the pull request at `url` belongs to: `url`
/// without its last two pieces between slashes.
pub open spec fn repository_url(url: Seq<char>) -> Seq<char> {
    joined(without_last_two(split_on(url, '/')), seq!['/'])
}

/// What is known of the merge status from the search alone: a search by the date
/// of merging finds only what was merged.
pub open spec fn searched_status(query_type: PullRequestQueryType) -> ItemMergeStatus {
    match query_type {
        PullRequestQueryType::Merged => ItemMergeStatus::Merged,
        PullRequestQueryType::Created => ItemMergeStatus::Unknown,
    }
}

/// The item that a reported pull request becomes, where `path` is the path of its
/// URL: the first two segments name the organization and the repository.
pub open spec fn described_item(
    issue: Issue,
    path: Seq<char>,
    query_type: PullRequestQueryType,
) -> ItemView {
    let segments = path_segments(path);
    ItemView {
        issue_number: signed_decimal(issue.number as int),
        issue_title: issue.title@,
        issue_url: issue.html_url@,
        organization_name: segments[0],
        repository_name: segments[1],
        full_repository_name: segments[0] + "/"@ + segments[1],
        repository_url: repository_url(issue.html_url@),
        user_login: issue.user_login@,
        user_url: issue.user_html_url@,
        state: issue.state@,
        merge_status: searched_status(query_type),
    }
}

/// Whether the URL of a reported pull request names an organization and a
/// repository.
pub open spec fn names_repository(issue: Issue) -> bool {
    path_segments(issue.html_path@).len() >= 2
}

/// The pieces of a path between its slashes, empty pieces left out.
pub fn segments_of(path: &str) -> (segments: Vec<String>)
    ensures
        segments.deep_view() == path_segments(path@),
{
    let pieces = split(path, '/');
    let ghost all = split_on(path@, '/');
    let mut segments: Vec<String> = Vec::new();
    let mut i: usize = 0;
    proof {
        reveal(Seq::filter);
        assert(all.take(0).filter(is_nonempty()) =~= Seq::empty());
        assert(segments.deep_view() =~= Seq::empty());
    }
    while i < pieces.len()
        invariant
            i <= pieces.len(),
            all == pieces.deep_view(),
            segments.deep_view() == all.take(i as int).filter(is_nonempty()),
        decreases pieces.len() - i,
    {
        let ghost before = segments.deep_view();
        proof {
            assert(all.take(i + 1) =~= all.take(i as int).push(pieces[i as int]@));
            all.take(i as int).lemma_filter_push(pieces[i as int]@, is_nonempty());
        }
        if !pieces[i].as_str().is_empty() {
            segments.push(pieces[i].clone());
            assert(segments.deep_view() =~= before.push(pieces[i as int]@));
        }
        i = i + 1;
    }
    assert(all.take(all.len() as int) =~= all);
    segments
}

/// The URL of the repository that the pull request at `url` belongs to.
pub fn repository_url_of(url: &str) -> (result: String)
    ensures
        result@ == repository_url(url@),
{
    let mut parts = split(url, '/');
    let ghost all = parts.deep_view();
    parts.pop();
    parts.pop();
    proof {
        reveal_strlit("/");
        assert("/"@ =~= seq!['/']);
        assert(parts.deep_view() =~= without_last_two(all));
    }
    join(&parts, "/")
}

/// The item that a reported pull request becomes, where `path` is the path of its
/// URL.
pub fn item_from_path(issue: &Issue, path: &str, query_type: PullRequestQueryType) -> (item: Item)
    requires
        path_segments(path@).len() >= 2,
    ensures
        item@ == described_item(*issue, path@, query_type),
        item.issue_title@ == issue.title@,
        item.issue_url@ == issue.html_url@,
        item.user_login@ == issue.user_login@,
        item.user_url@ == issue.user_html_url@,
        item.state@ == issue.state@,
        item.full_repository_name@ == item.organization_name@ + seq!['/'] + item.repository_name@,
{
    let segments = segments_of(path);
    assert(segments.deep_view()[0] == segments[0]@);
    assert(segments.deep_view()[1] == segments[1]@);
    let merge_status = match query_type {
        PullRequestQueryType::Merged => ItemMergeStatus::Merged,
        PullRequestQueryType::Created => ItemMergeStatus::Unknown,
    };
    let mut full_repository_name = segments[0].clone();
    full_repository_name.append("/");
    proof {
        reveal_strlit("/");
        assert("/"@ =~= seq!['/']);
    }
    full_repository_name.append(segments[1].as_str());
    Item {
        user_login: issue.user_login.clone(),
        user_url: issue.user_html_url.clone(),
        issue_number: signed_decimal_text(issue.number),
        issue_title: issue.title.clone(),
        issue_url: issue.html_url.clone(),
        organization_name: segments[0].clone(),
        repository_name: segments[1].clone(),
        full_repository_name,
        repository_url: repository_url_of(issue.html_url.as_str()),
        state: issue.state.clone(),
        merge_status,
    }
}

/// The item that a reported pull request becomes, or `None` where its URL does not
/// name an organization and a repository.
pub fn item_from_issue(issue: &Issue, query_type: PullRequestQueryType) -> (item: Option<Item>)
    ensures
        match item {
            Some(item) => names_repository(*issue) && item@ == described_item(
                *issue,
                issue.html_path@,
                query_type,
            ),
            None => !names_repository(*issue),
        },
        item matches Some(item) ==> item.issue_title@ == issue.title@ && item.issue_url@
            == issue.html_url@ && item.user_login@ == issue.user_login@ && item.user_url@
            == issue.user_html_url@ && item.state@ == issue.state@,
{
    let segments = segments_of(issue.html_path.as_str());
    assert(segments.deep_view().len() == segments.len());
    if segments.len() >= 2 {
        Some(item_from_path(issue, issue.html_path.as_str(), query_type))
    } else {
        None
    }
}

/// The items that one page of an answer becomes, or `None` where the URL of one of
/// its pull requests does not name an organization and a repository.
pub fn page_items(issues: &Vec<Issue>, query_type: PullRequestQueryType) -> (items: Option<
    Vec<Item>,
>)
    ensures
        match items {
            Some(items) => {
                &&& items@.len() == issues@.len()
                &&& forall|i: int|
                    0 <= i < issues@.len() ==> names_repository(#[trigger] issues@[i])
                        && items@[i]@ == described_item(
                        issues@[i],
                        issues@[i].html_path@,
                        query_type,
                    )
            },
            None => exists|i: int|
                0 <= i < issues@.len() && !names_repository(#[trigger] issues@[i]),
        },
        items matches Some(items) ==> forall|i: int|
            0 <= i < issues@.len() ==> (#[trigger] items@[i]).issue_title@ == issues@[i].title@
                && items@[i].issue_url@ == issues@[i].html_url@ && items@[i].user_login@
                == issues@[i].user_login@ && items@[i].user_url@ == issues@[i].user_html_url@
                && items@[i].state@ == issues@[i].state@,
{
    let mut items: Vec<Item> = Vec::new();
    let mut i: usize = 0;
    while i < issues.len()
        invariant
            i <= issues.len(),
            items@.len() == i,
            forall|k: int|
                0 <= k < i ==> names_repository(#[trigger] issues@[k]) && items@[k]@
                    == described_item(
                    issues@[k],
                    issues@[k].html_path@,
                    query_type,
                ),
            forall|k: int|
                0 <= k < i ==> (#[trigger] items@[k]).issue_title@ == issues@[k].title@
                    && items@[k].issue_url@ == issues@[k].html_url@ && items@[k].user_login@
                    == issues@[k].user_login@ && items@[k].user_url@ == issues@[k].user_html_url@
                    && items@[k].state@ == issues@[k].state@,
        decreases issues.len() - i,
    {
        match item_from_issue(&issues[i], query_type) {
            Some(item) => {
                items.push(item);
            },
            None => {
                assert(!names_repository(issues@[i as int]));
                return None;
            },
        }
        i = i + 1;
    }
    Some(items)
}

/// The URL of a repository is that of its pull request without the last two pieces.
pub proof fn law_repository_url(base: Seq<char>, kind: Seq<char>, number: Seq<char>)
    requires
        !kind.contains('/'),
        !number.contains('/'),
    ensures
        repository_url(base + seq!['/'] + kind + seq!['/'] + number) == base,
{
    let url = base + seq!['/'] + kind + seq!['/'] + number;
    let pieces = split_on(base, '/');
    lemma_split_on_concat(base + seq!['/'] + kind, number, '/');
    lemma_split_on_concat(base, kind, '/');
    lemma_split_on_single(kind, '/');
    lemma_split_on_single(number, '/');
    lemma_split_on_nonempty(base, '/');
    assert(split_on(url, '/') =~= pieces.push(kind).push(number));
    assert(without_last_two(split_on(url, '/')) =~= pieces);
    law_split_then_join(base, '/');
}

/// The first two segments of a path that starts with an organization and a
/// repository are those two, whatever follows.
pub proof fn law_path_names_repository(
    organization: Seq<char>,
    repository: Seq<char>,
    rest: Seq<char>,
)
    requires
        organization.len() > 0,
        repository.len() > 0,
        !organization.contains('/'),
        !repository.contains('/'),
    ensures
        ({
            let path = seq!['/'] + organization + seq!['/'] + repository + seq!['/'] + rest;
            &&& path_segments(path).len() >= 2
            &&& path_segments(path)[0] == organization
            &&& path_segments(path)[1] == repository
        }),
{
    let nothing = Seq::<char>::empty();
    let path = seq!['/'] + organization + seq!['/'] + repository + seq!['/'] + rest;
    let front = nothing + seq!['/'] + organization + seq!['/'] + repository;
    assert(path =~= front + seq!['/'] + rest);
    lemma_split_on_concat(front, rest, '/');
    lemma_split_on_concat(nothing + seq!['/'] + organization, repository, '/');
    lemma_split_on_concat(nothing, organization, '/');
    lemma_split_on_single(organization, '/');
    lemma_split_on_single(repository, '/');
    let named = seq![nothing, organization, repository];
    assert(split_on(front, '/') =~= named);
    Seq::filter_distributes_over_add(named, split_on(rest, '/'), is_nonempty());
    assert(named.filter(is_nonempty()) =~= seq![organization, repository]) by {
        reveal_with_fuel(Seq::filter, 4);
        assert(named.drop_last() =~= seq![nothing, organization]);
        assert(named.drop_last().drop_last() =~= seq![nothing]);
        assert(named.drop_last().drop_last().drop_last() =~= Seq::empty());
    }
}

/// An item says the same of its repository in every field: where the URL of a pull
/// request is that of its host followed by organization, repository, kind and
/// number, the full name is the two names joined and the URL of the repository is
/// the host followed by the full name.
pub proof fn law_item_fields_agree(
    issue: Issue,
    query_type: PullRequestQueryType,
    host: Seq<char>,
    organization: Seq<char>,
    repository: Seq<char>,
    kind: Seq<char>,
    number: Seq<char>,
)
    requires
        organization.len() > 0,
        repository.len() > 0,
        !organization.contains('/'),
        !repository.contains('/'),
        !kind.contains('/'),
        !number.contains('/'),
        issue.html_path@ == seq!['/'] + organization + seq!['/'] + repository + seq!['/'] + kind
            + seq!['/'] + number,
        issue.html_url@ == host + issue.html_path@,
    ensures
        ({
            let item = described_item(issue, issue.html_path@, query_type);
            &&& item.organization_name == organization
            &&& item.repository_name == repository
            &&& item.full_repository_name == organization + "/"@ + repository
            &&& item.repository_url == host + "/"@ + item.full_repository_name
        }),
{
    let path = issue.html_path@;
    let rest = kind + seq!['/'] + number;
    let base = host + seq!['/'] + organization + seq!['/'] + repository;
    assert(path =~= seq!['/'] + organization + seq!['/'] + repository + seq!['/'] + rest);
    assert(host + path =~= base + seq!['/'] + kind + seq!['/'] + number);
    law_path_names_repository(organization, repository, rest);
    law_repository_url(base, kind, number);
    reveal_strlit("/");
    assert("/"@ =~= seq!['/']);
    assert(base =~= host + "/"@ + (organization + "/"@ + repository));
}

/// An item repeats what was reported, character for character: its title, its URL,
/// its author, its state and its number. A search by the date of merging, and no
/// other, makes it a merged one.
pub proof fn law_item_repeats_the_report(
    issue: Issue,
    path: Seq<char>,
    query_type: PullRequestQueryType,
)
    ensures
        ({
            let item = described_item(issue, path, query_type);
            &&& item.issue_title == issue.title@
            &&& item.issue_url == issue.html_url@
            &&& item.user_login == issue.user_login@
            &&& item.user_url == issue.user_html_url@
            &&& item.state == issue.state@
            &&& issue.number >= 0 ==> parsed_number(item.issue_number) == Some(issue.number as u64)
            &&& issue.number < 0 ==> item.issue_number.len() > 0 && item.issue_number[0] == '-'
                && parsed_number(item.issue_number.skip(1)) == Some((-issue.number) as u64)
            &&& item.merge_status == ItemMergeStatus::Merged <==> query_type
                == PullRequestQueryType::Merged
            &&& item.merge_status == ItemMergeStatus::Unknown <==> query_type
                == PullRequestQueryType::Created
        }),
{
    law_decimal_then_parse(issue.number as int);
    if issue.number < 0 {
        let text = signed_decimal(issue.number as int);
        law_decimal_then_parse(-issue.number);
        assert(text.skip(1) =~= signed_decimal(-issue.number));
    }
}

/// Two reports that differ in title, URL, author, state or number become items that
/// differ there too, and those that agree become items that agree.
pub proof fn law_different_reports_differ(
    a: Issue,
    b: Issue,
    path: Seq<char>,
    query_type: PullRequestQueryType,
)
    ensures
        ({
            let x = described_item(a, path, query_type);
            let y = described_item(b, path, query_type);
            &&& x.issue_title == y.issue_title <==> a.title@ == b.title@
            &&& x.issue_url == y.issue_url <==> a.html_url@ == b.html_url@
            &&& x.user_login == y.user_login <==> a.user_login@ == b.user_login@
            &&& x.user_url == y.user_url <==> a.user_html_url@ == b.user_html_url@
            &&& x.state == y.state <==> a.state@ == b.state@
            &&& x.issue_number == y.issue_number <==> a.number == b.number
        }),
{
    law_item_repeats_the_report(a, path, query_type);
    law_item_repeats_the_report(b, path, query_type);
}

/// The full name of a repository is its organization's, a slash and its own; the two
/// are the first two segments of the path.
pub proof fn law_full_name_is_made_of_both(
    issue: Issue,
    path: Seq<char>,
    query_type: PullRequestQueryType,
)
    requires
        path_segments(path).len() >= 2,
    ensures
        ({
            let item = described_item(issue, path, query_type);
            &&& item.full_repository_name == item.organization_name + seq!['/']
                + item.repository_name
            &&& seq![item.organization_name, item.repository_name].is_prefix_of(
                path_segments(path),
            )
        }),
{
    reveal_strlit("/");
    assert("/"@ =~= seq!['/']);
    let item = described_item(issue, path, query_type);
    assert(seq![item.organization_name, item.repository_name] =~= path_segments(path).take(2));
}

/// The segments of a path are found piece by piece: a slash only parts them, an empty
/// piece is none, and any other piece without slashes is one.
pub proof fn law_segments_piece_by_piece(front: Seq<char>, back: Seq<char>, piece: Seq<char>)
    ensures
        path_segments(Seq::empty()) == Seq::<Seq<char>>::empty(),
        path_segments(front + seq!['/'] + back) == path_segments(front) + path_segments(back),
        piece.len() > 0 && !piece.contains('/') ==> path_segments(piece) == seq![piece],
{
    lemma_split_on_concat(front, back, '/');
    Seq::filter_distributes_over_add(split_on(front, '/'), split_on(back, '/'), is_nonempty());
    let nothing = seq![Seq::<char>::empty()];
    assert(nothing.filter(is_nonempty()) =~= Seq::empty()) by {
        reveal_with_fuel(Seq::filter, 2);
        assert(nothing.drop_last() =~= Seq::empty());
    }
    if piece.len() > 0 && !piece.contains('/') {
        lemma_split_on_single(piece, '/');
        assert(seq![piece].filter(is_nonempty()) =~= seq![piece]) by {
            reveal(Seq::filter);
            assert(seq![piece].drop_last() =~= Seq::empty());
        }
    }
}

/// Slashes alone make no segment.
proof fn lemma_slashes_have_no_segments(path: Seq<char>)
    requires
        forall|i: int| 0 <= i < path.len() ==> #[trigger] path[i] == '/',
    ensures
        path_segments(path) == Seq::<Seq<char>>::empty(),
    decreases path.len(),
{
    let nothing = Seq::<char>::empty();
    if path.len() == 0 {
        assert(path =~= nothing);
        law_segments_piece_by_piece(nothing, nothing, nothing);
    } else {
        let front = path.drop_last();
        assert forall|i: int| 0 <= i < front.len() implies #[trigger] front[i] == '/' by {
            assert(front[i] == path[i]);
        }
        lemma_slashes_have_no_segments(front);
        assert(path[path.len() - 1] == '/');
        assert(path =~= front + seq!['/'] + nothing);
        law_segments_piece_by_piece(front, nothing, nothing);
    }
}

/// A path with a character other than the slash has a segment.
proof fn lemma_character_makes_segment(path: Seq<char>, at: int)
    requires
        0 <= at < path.len(),
        path[at] != '/',
    ensures
        path_segments(path).len() >= 1,
    decreases path.len(),
{
    if path.contains('/') {
        let cut = choose|cut: int| 0 <= cut < path.len() && path[cut] == '/';
        let front = path.take(cut);
        let back = path.skip(cut + 1);
        assert(path =~= front + seq!['/'] + back);
        law_segments_piece_by_piece(front, back, front);
        if at < cut {
            lemma_character_makes_segment(front, at);
        } else {
            lemma_character_makes_segment(back, at - cut - 1);
        }
    } else {
        law_segments_piece_by_piece(path, path, path);
    }
}

/// A path of two segments or more has a slash between two other characters.
proof fn lemma_two_segments_are_parted(path: Seq<char>)
    requires
        path_segments(path).len() >= 2,
    ensures
        exists|i: int, j: int, k: int|
            0 <= i < j < k < path.len() && #[trigger] path[i] != '/' && #[trigger] path[j] == '/'
                && #[trigger] path[k] != '/',
    decreases path.len(),
{
    let nothing = Seq::<char>::empty();
    if !path.contains('/') {
        law_segments_piece_by_piece(path, path, path);
        if path.len() == 0 {
            assert(path =~= nothing);
        }
    } else {
        let cut = choose|cut: int| 0 <= cut < path.len() && path[cut] == '/';
        let front = path.take(cut);
        let back = path.skip(cut + 1);
        assert(path =~= front + seq!['/'] + back);
        law_segments_piece_by_piece(front, back, front);
        if path_segments(front).len() >= 2 {
            lemma_two_segments_are_parted(front);
            let (i, j, k) = choose|i: int, j: int, k: int|
                0 <= i < j < k < front.len() && #[trigger] front[i] != '/' && #[trigger] front[j]
                    == '/' && #[trigger] front[k] != '/';
            assert(path[i] != '/' && path[j] == '/' && path[k] != '/');
        } else if path_segments(back).len() >= 2 {
            lemma_two_segments_are_parted(back);
            let (i, j, k) = choose|i: int, j: int, k: int|
                0 <= i < j < k < back.len() && #[trigger] back[i] != '/' && #[trigger] back[j]
                    == '/' && #[trigger] back[k] != '/';
            let by = cut + 1;
            assert(path[i + by] != '/' && path[j + by] == '/' && path[k + by] != '/');
        } else {
            if forall|i: int| 0 <= i < front.len() ==> #[trigger] front[i] == '/' {
                lemma_slashes_have_no_segments(front);
            }
            if forall|i: int| 0 <= i < back.len() ==> #[trigger] back[i] == '/' {
                lemma_slashes_have_no_segments(back);
            }
            let i = choose|i: int| 0 <= i < front.len() && #[trigger] front[i] != '/';
            let k = choose|k: int| 0 <= k < back.len() && #[trigger] back[k] != '/';
            assert(path[i] != '/' && path[cut] == '/' && path[k + cut + 1] != '/');
        }
    }
}

/// A reported pull request names an organization and a repository exactly where a
/// slash of its path stands between two characters that are none.
pub proof fn law_which_paths_name_a_repository(issue: Issue)
    ensures
        names_repository(issue) <==> exists|i: int, j: int, k: int|
            0 <= i < j < k < issue.html_path@.len() && #[trigger] issue.html_path@[i] != '/'
                && #[trigger] issue.html_path@[j] == '/' && #[trigger] issue.html_path@[k] != '/',
{
    let path = issue.html_path@;
    if names_repository(issue) {
        lemma_two_segments_are_parted(path);
    }
    if exists|i: int, j: int, k: int|
        0 <= i < j < k < path.len() && #[trigger] path[i] != '/' && #[trigger] path[j] == '/'
            && #[trigger] path[k] != '/' {
        let (i, j, k) = choose|i: int, j: int, k: int|
            0 <= i < j < k < path.len() && #[trigger] path[i] != '/' && #[trigger] path[j] == '/'
                && #[trigger] path[k] != '/';
        let front = path.take(j);
        let back = path.skip(j + 1);
        assert(path =~= front + seq!['/'] + back);
        law_segments_piece_by_piece(front, back, front);
        lemma_character_makes_segment(front, i);
        lemma_character_makes_segment(back, k - j - 1);
    }
}

/// A URL with fewer than two slashes has no repository in front of its last two
/// pieces.
pub proof fn law_repository_url_of_short_url(url: Seq<char>)
    requires
        forall|i: int, j: int|
            0 <= i < j < url.len() ==> #[trigger] url[i] != '/' || #[trigger] url[j] != '/',
    ensures
        repository_url(url) == Seq::<char>::empty(),
{
    if url.contains('/') {
        let cut = choose|cut: int| 0 <= cut < url.len() && url[cut] == '/';
        let front = url.take(cut);
        let back = url.skip(cut + 1);
        assert(url =~= front + seq!['/'] + back);
        assert forall|i: int| 0 <= i < front.len() implies front[i] != '/' by {
            assert(url[i] != '/' || url[cut] != '/');
        }
        assert forall|i: int| 0 <= i < back.len() implies back[i] != '/' by {
            assert(url[cut] != '/' || url[i + cut + 1] != '/');
        }
        lemma_split_on_concat(front, back, '/');
        lemma_split_on_single(front, '/');
        lemma_split_on_single(back, '/');
    } else {
        lemma_split_on_single(url, '/');
    }
}

/// A search says whose pull requests it is for and by which date, and nothing else: a
/// search by the date of merging says "merged", one by the date of creation "created".
pub proof fn law_query_says_what_is_asked(
    user: Seq<char>,
    date_sign: Seq<char>,
    date: Seq<char>,
    word: Seq<char>,
)
    ensures
        ({
            let query = prs_query_text(user, date_sign, date, word);
            let at: int = 13 + user.len() as int;
            &&& query.take(at) == "is:pr author:"@ + user
            &&& query.subrange(at, at + 2 + word.len()) == seq![' '] + word + seq![':']
            &&& query.skip(at + 2 + word.len()) == date_sign + date
        }),
        prs_query_text(user, date_sign, date, query_word(PullRequestQueryType::Merged))
            == "is:pr author:"@ + user + " merged:"@ + date_sign + date,
        prs_query_text(user, date_sign, date, query_word(PullRequestQueryType::Created))
            == "is:pr author:"@ + user + " created:"@ + date_sign + date,
        prs_query_text(user, date_sign, date, query_word(PullRequestQueryType::Merged))
            != prs_query_text(user, date_sign, date, query_word(PullRequestQueryType::Created)),
{
    reveal_strlit("is:pr author:");
    reveal_strlit(" ");
    reveal_strlit(":");
    let query = prs_query_text(user, date_sign, date, word);
    let at: int = 13 + user.len() as int;
    assert(query.take(at) =~= "is:pr author:"@ + user);
    assert(query.subrange(at, at + 2 + word.len()) =~= seq![' '] + word + seq![':']);
    assert(query.skip(at + 2 + word.len()) =~= date_sign + date);
    reveal_strlit("merged");
    reveal_strlit("created");
    reveal_strlit(" merged:");
    reveal_strlit(" created:");
    let merged = prs_query_text(user, date_sign, date, query_word(PullRequestQueryType::Merged));
    let created = prs_query_text(user, date_sign, date, query_word(PullRequestQueryType::Created));
    assert(" "@ + "merged"@ + ":"@ =~= " merged:"@);
    assert(" "@ + "created"@ + ":"@ =~= " created:"@);
    assert(merged =~= "is:pr author:"@ + user + (" "@ + "merged"@ + ":"@) + date_sign + date);
    assert(created =~= "is:pr author:"@ + user + (" "@ + "created"@ + ":"@) + date_sign + date);
    assert(merged.len() + 1 == created.len());
}

} // verus!
