//! The lines of the digest and of the comment that goes with it.

use vstd::prelude::*;
use vstd::seq_lib::*;
use vstd::string::*;

use crate::model::{AppParams, Item, LabelledItem};
use crate::order::{
    distinct, law_sorted_without_repeats, law_sorted_without_repeats_is_unique,
    law_without_repeats, law_without_repeats_keeps_the_first, sorted_distinct,
    sorted_without_repeats, text_le, without_repeats,
};
use crate::text::{join, joined, law_join_then_split, law_joined_part_by_part, split_on};

verus! {

// ---------------------------------------------------------------------------
// Items and labels
// ---------------------------------------------------------------------------

/// The line of an item that is credited to `user_login`.
pub open spec fn item_line(user_login: Seq<char>, item: Item) -> Seq<char> {
    "- ["@ + item@.full_repository_name + "] [#"@ + item@.issue_number + "]("@ + item@.issue_url
        + ") "@ + item@.issue_title + " ([@"@ + user_login + "])"@
}

/// The lines of `items`, each credited to the user that it belongs to.
pub open spec fn item_lines(items: Seq<Item>) -> Seq<Seq<char>> {
    Seq::new(items.len(), |i: int| item_line(items[i]@.user_login, items[i]))
}

/// The heading of a section.
pub open spec fn label_line(label: LabelledItem) -> Seq<char> {
    "## "@ + label@.name
}

/// The line of an item that is credited to `user_login`.
pub fn format_item(user_login: String, item: &Item) -> (line: String)
    ensures
        line@ == item_line(user_login@, *item),
{
    let mut line = "- [".to_owned();
    line.append(item.full_repository_name.as_str());
    line.append("] [#");
    line.append(item.issue_number.as_str());
    line.append("](");
    line.append(item.issue_url.as_str());
    line.append(") ");
    line.append(item.issue_title.as_str());
    line.append(" ([@");
    line.append(user_login.as_str());
    line.append("])");
    line
}

/// The heading of a section.
pub fn format_label(repo: &LabelledItem) -> (line: String)
    ensures
        line@ == label_line(*repo),
{
    let mut line = "## ".to_owned();
    line.append(repo.name.as_str());
    line
}

/// The lines of `items`, each credited to the user that it belongs to.
pub fn format_items(items: &Vec<Item>) -> (lines: Vec<String>)
    ensures
        lines.deep_view() == item_lines(items@),
{
    let mut lines: Vec<String> = Vec::new();
    let mut i: usize = 0;
    while i < items.len()
        invariant
            i <= items.len(),
            lines.deep_view() == item_lines(items@).take(i as int),
        decreases items.len() - i,
    {
        let ghost before = lines.deep_view();
        let item = &items[i];
        lines.push(format_item(item.user_login.clone(), item));
        assert(lines.deep_view() =~= before.push(item_line(item@.user_login, *item)));
        assert(item_lines(items@).take(i + 1) =~= lines.deep_view());
        i = i + 1;
    }
    assert(item_lines(items@).take(items@.len() as int) =~= item_lines(items@));
    lines
}

// ---------------------------------------------------------------------------
// The digest
// ---------------------------------------------------------------------------

/// Holds of the sections that have something in them.
pub open spec fn has_items() -> spec_fn(LabelledItem) -> bool {
    |label: LabelledItem| label@.items.len() > 0
}

/// The lines of one section: the heading, a blank line and the items.
pub open spec fn section_lines(label: LabelledItem) -> Seq<Seq<char>> {
    seq![label_line(label), ""@] + item_lines(label@.items)
}

/// The sections that have something in them, each as its lines.
pub open spec fn sections(labels: Seq<LabelledItem>) -> Seq<Seq<Seq<char>>> {
    labels.filter(has_items()).map_values(|label: LabelledItem| section_lines(label))
}

/// The lines of what belongs to no label; none where there is no such item.
pub open spec fn unknown_lines(unknown_items: Seq<Item>) -> Seq<Seq<char>> {
    if unknown_items.len() > 0 {
        seq![""@, "## Unknown"@, ""@] + item_lines(unknown_items)
    } else {
        Seq::empty()
    }
}

/// The lines of the digest below its header: the sections that have something in
/// them with a blank line between each two, then what belongs to no label.
pub open spec fn digest_lines(labels: Seq<LabelledItem>, unknown_items: Seq<Item>) -> Seq<
    Seq<char>,
> {
    joined(sections(labels), seq![""@]) + unknown_lines(unknown_items)
}

/// Appends one line to `content`.
fn push_line(content: &mut Vec<String>, line: String)
    ensures
        final(content).deep_view() == old(content).deep_view().push(line@),
{
    content.push(line);
    assert(content.deep_view() =~= old(content).deep_view().push(line@));
}

/// Appends the lines of `items` to `content`.
fn push_items(content: &mut Vec<String>, items: &Vec<Item>)
    ensures
        final(content).deep_view() == old(content).deep_view() + item_lines(items@),
{
    let mut lines = format_items(items);
    let ghost added = lines.deep_view();
    content.append(&mut lines);
    assert(content.deep_view() =~= old(content).deep_view() + added);
}

/// Appends the lines of the digest below its header to `content`.
pub fn write_twios_file_contents(
    content: &mut Vec<String>,
    labels: &Vec<LabelledItem>,
    unknown_items: &Vec<Item>,
)
    ensures
        final(content).deep_view() == old(content).deep_view() + digest_lines(
            labels@,
            unknown_items@,
        ),
{
    let ghost start = content.deep_view();
    let ghost blank = seq![""@];
    let mut written: bool = false;
    let mut i: usize = 0;
    proof {
        reveal(Seq::filter);
        assert(sections(labels@.take(0)) =~= Seq::empty());
        assert(start + Seq::<Seq<char>>::empty() =~= start);
    }
    while i < labels.len()
        invariant
            i <= labels.len(),
            blank == seq![""@],
            written == (sections(labels@.take(i as int)).len() > 0),
            content.deep_view() == start + joined(sections(labels@.take(i as int)), blank),
        decreases labels.len() - i,
    {
        let label = &labels[i];
        let ghost before = labels@.take(i as int);
        let ghost done = sections(before);
        proof {
            assert(labels@.take(i + 1) =~= before.push(*label));
            before.lemma_filter_push(*label, has_items());
        }
        if label.items.len() > 0 {
            let ghost lines = section_lines(*label);
            proof {
                assert(sections(before.push(*label)) =~= done.push(lines));
                assert(done.push(lines).drop_last() =~= done);
            }
            if written {
                push_line(content, "".to_owned());
            }
            push_line(content, format_label(label));
            push_line(content, "".to_owned());
            push_items(content, &label.items);
            assert(content.deep_view() =~= start + joined(done.push(lines), blank));
            written = true;
        }
        i = i + 1;
    }
    assert(labels@.take(labels@.len() as int) =~= labels@);
    let ghost upper = joined(sections(labels@), blank);
    if unknown_items.len() > 0 {
        push_line(content, "".to_owned());
        push_line(content, "## Unknown".to_owned());
        push_line(content, "".to_owned());
        push_items(content, unknown_items);
    }
    assert(content.deep_view() =~= start + (upper + unknown_lines(unknown_items@)));
}

/// Every element of every part is in what is joined from them.
proof fn lemma_joined_contains<T>(parts: Seq<Seq<T>>, separator: Seq<T>, j: int, i: int)
    requires
        0 <= j < parts.len(),
        0 <= i < parts[j].len(),
    ensures
        joined(parts, separator).contains(parts[j][i]),
    decreases parts.len(),
{
    if parts.len() == 1 {
    } else {
        let head = joined(parts.drop_last(), separator);
        if j < parts.len() - 1 {
            lemma_joined_contains(parts.drop_last(), separator, j, i);
            let k = choose|k: int| 0 <= k < head.len() && head[k] == parts[j][i];
            assert((head + separator + parts.last())[k] == parts[j][i]);
        } else {
            assert((head + separator + parts.last())[head.len() + separator.len() + i]
                == parts[j][i]);
        }
    }
}

/// The digest has a line for every item of every section and for every item that
/// belongs to none.
pub proof fn law_digest_shows_every_item(labels: Seq<LabelledItem>, unknown_items: Seq<Item>)
    ensures
        forall|j: int, i: int|
            #![trigger labels[j]@.items[i]]
            0 <= j < labels.len() && 0 <= i < labels[j]@.items.len() ==> digest_lines(
                labels,
                unknown_items,
            ).contains(item_line(labels[j]@.items[i]@.user_login, labels[j]@.items[i])),
        forall|i: int|
            #![trigger unknown_items[i]]
            0 <= i < unknown_items.len() ==> digest_lines(labels, unknown_items).contains(
                item_line(unknown_items[i]@.user_login, unknown_items[i]),
            ),
{
    let upper = joined(sections(labels), seq![""@]);
    let lower = unknown_lines(unknown_items);
    assert forall|j: int, i: int|
        #![trigger labels[j]@.items[i]]
        0 <= j < labels.len() && 0 <= i < labels[j]@.items.len() implies digest_lines(
        labels,
        unknown_items,
    ).contains(item_line(labels[j]@.items[i]@.user_login, labels[j]@.items[i])) by {
        let item = labels[j]@.items[i];
        let line = item_line(item@.user_login, item);
        let kept = labels.filter(has_items());
        labels.lemma_filter_contains(has_items(), j);
        let k = choose|k: int| 0 <= k < kept.len() && kept[k] == labels[j];
        assert(sections(labels)[k] == section_lines(labels[j]));
        assert(section_lines(labels[j])[2 + i] == line);
        lemma_joined_contains(sections(labels), seq![""@], k, 2 + i);
        lemma_seq_concat_contains_all_elements(upper, lower, line);
    }
    assert forall|i: int|
        #![trigger unknown_items[i]]
        0 <= i < unknown_items.len() implies digest_lines(labels, unknown_items).contains(
        item_line(unknown_items[i]@.user_login, unknown_items[i]),
    ) by {
        let line = item_line(unknown_items[i]@.user_login, unknown_items[i]);
        assert(lower[3 + i] == line);
        lemma_seq_concat_contains_all_elements(upper, lower, line);
    }
}

/// Sections without items leave no trace in the digest.
pub proof fn law_empty_sections_are_not_shown(labels: Seq<LabelledItem>, unknown_items: Seq<Item>)
    ensures
        digest_lines(labels.filter(has_items()), unknown_items) == digest_lines(
            labels,
            unknown_items,
        ),
{
    lemma_filter_twice(labels, has_items());
}

/// Filtering again by the same condition changes nothing.
proof fn lemma_filter_twice(labels: Seq<LabelledItem>, pred: spec_fn(LabelledItem) -> bool)
    ensures
        labels.filter(pred).filter(pred) == labels.filter(pred),
    decreases labels.len(),
{
    reveal(Seq::filter);
    if labels.len() > 0 {
        let front = labels.drop_last();
        lemma_filter_twice(front, pred);
        if pred(labels.last()) {
            assert(front.filter(pred).push(labels.last()).drop_last() =~= front.filter(pred));
        }
    }
}

/// The text of the digest: the header, the lines below it, a gap, and the link
/// definitions. The first line below the header follows it without a break, so a
/// header that is to stand apart ends in an empty line.
pub open spec fn digest_text(
    header: Seq<Seq<char>>,
    lines: Seq<Seq<char>>,
    definitions: Seq<Seq<char>>,
) -> Seq<char> {
    joined(header, "\n"@) + joined(lines, "\n"@) + "\n\n"@ + joined(definitions, "\n"@)
}

/// The text of the digest.
pub fn twios_file(
    app_params: &AppParams,
    labels: &Vec<LabelledItem>,
    unknown_items: &Vec<Item>,
    markdown_definitions: &Vec<String>,
) -> (text: String)
    ensures
        text@ == digest_text(
            app_params.header.deep_view(),
            digest_lines(labels@, unknown_items@),
            markdown_definitions.deep_view(),
        ),
{
    let mut content: Vec<String> = Vec::new();
    write_twios_file_contents(&mut content, labels, unknown_items);
    assert(content.deep_view() =~= digest_lines(labels@, unknown_items@));
    let mut text = join(&app_params.header, "\n");
    text.append(join(&content, "\n").as_str());
    text.append("\n\n");
    text.append(join(markdown_definitions, "\n").as_str());
    text
}

// ---------------------------------------------------------------------------
// Link definitions
// ---------------------------------------------------------------------------

/// The definition of the link to the user of an item.
pub open spec fn user_definition(item: Item) -> Seq<char> {
    "[@"@ + item@.user_login + "]: "@ + item@.user_url
}

/// The definition of the link to the repository of an item.
pub open spec fn repository_definition(item: Item) -> Seq<char> {
    "["@ + item@.full_repository_name + "]: "@ + item@.repository_url
}

/// The definitions of the links to the users of `items`, one per item.
pub open spec fn user_definitions(items: Seq<Item>) -> Seq<Seq<char>> {
    Seq::new(items.len(), |i: int| user_definition(items[i]))
}

/// The definitions of the links to the repositories of `items`, one per item.
pub open spec fn repository_definitions(items: Seq<Item>) -> Seq<Seq<char>> {
    Seq::new(items.len(), |i: int| repository_definition(items[i]))
}

/// The link definitions that the lines of `items` need: those of the users, then
/// those of the repositories, both in order and without repeats.
pub open spec fn definition_lines(items: Seq<Item>) -> Seq<Seq<char>> {
    sorted_without_repeats(user_definitions(items)) + sorted_without_repeats(
        repository_definitions(items),
    )
}

/// The link definitions that the lines of `items` need.
pub fn extract_definitions(items: &Vec<Item>) -> (definitions: Vec<String>)
    ensures
        definitions.deep_view() == definition_lines(items@),
{
    let mut users: Vec<String> = Vec::new();
    let mut repositories: Vec<String> = Vec::new();
    let mut i: usize = 0;
    while i < items.len()
        invariant
            i <= items.len(),
            users.deep_view() == user_definitions(items@).take(i as int),
            repositories.deep_view() == repository_definitions(items@).take(i as int),
        decreases items.len() - i,
    {
        let item = &items[i];
        let mut user = "[@".to_owned();
        user.append(item.user_login.as_str());
        user.append("]: ");
        user.append(item.user_url.as_str());
        push_line(&mut users, user);
        let mut repository = "[".to_owned();
        repository.append(item.full_repository_name.as_str());
        repository.append("]: ");
        repository.append(item.repository_url.as_str());
        push_line(&mut repositories, repository);
        assert(users.deep_view() =~= user_definitions(items@).take(i + 1));
        assert(repositories.deep_view() =~= repository_definitions(items@).take(i + 1));
        i = i + 1;
    }
    assert(user_definitions(items@).take(i as int) =~= user_definitions(items@));
    assert(repository_definitions(items@).take(i as int) =~= repository_definitions(items@));
    let mut definitions = sorted_distinct(users);
    let mut rest = sorted_distinct(repositories);
    let ghost first = definitions.deep_view();
    let ghost second = rest.deep_view();
    definitions.append(&mut rest);
    assert(definitions.deep_view() =~= first + second);
    definitions
}

/// Every link in the line of an item has its definition, and every definition is
/// that of a link in the line of some item.
pub proof fn law_links_are_defined(items: Seq<Item>)
    ensures
        forall|i: int|
            #![trigger items[i]]
            0 <= i < items.len() ==> definition_lines(items).contains(user_definition(items[i]))
                && definition_lines(items).contains(repository_definition(items[i])),
        forall|line: Seq<char>| #[trigger]
            definition_lines(items).contains(line) ==> exists|i: int|
                0 <= i < items.len() && (line == user_definition(#[trigger] items[i]) || line
                    == repository_definition(items[i])),
{
    let users = user_definitions(items);
    let repositories = repository_definitions(items);
    let first = sorted_without_repeats(users);
    let second = sorted_without_repeats(repositories);
    law_sorted_without_repeats(users);
    law_sorted_without_repeats(repositories);
    assert forall|i: int|
        #![trigger items[i]]
        0 <= i < items.len() implies definition_lines(items).contains(user_definition(items[i]))
        && definition_lines(items).contains(repository_definition(items[i])) by {
        assert(users[i] == user_definition(items[i]));
        assert(repositories[i] == repository_definition(items[i]));
        assert(users.contains(users[i]));
        assert(repositories.contains(repositories[i]));
        lemma_seq_concat_contains_all_elements(first, second, users[i]);
        lemma_seq_concat_contains_all_elements(first, second, repositories[i]);
    }
    assert forall|line: Seq<char>| #[trigger] definition_lines(items).contains(line) implies exists|
        i: int,
    |
        0 <= i < items.len() && (line == user_definition(#[trigger] items[i]) || line
            == repository_definition(items[i])) by {
        lemma_seq_concat_contains_all_elements(first, second, line);
        if first.contains(line) {
            assert(users.contains(line));
            let i = choose|i: int| 0 <= i < users.len() && users[i] == line;
            assert(line == user_definition(items[i]));
        } else {
            assert(repositories.contains(line));
            let i = choose|i: int| 0 <= i < repositories.len() && repositories[i] == line;
            assert(line == repository_definition(items[i]));
        }
    }
}

/// The users of `items`, each as login and URL, one per item.
pub open spec fn user_links(items: Seq<Item>) -> Seq<(Seq<char>, Seq<char>)> {
    Seq::new(items.len(), |i: int| (items[i]@.user_login, items[i]@.user_url))
}

/// The repositories of `items`, each as full name and URL, one per item.
pub open spec fn repository_links(items: Seq<Item>) -> Seq<(Seq<char>, Seq<char>)> {
    Seq::new(items.len(), |i: int| (items[i]@.full_repository_name, items[i]@.repository_url))
}

/// The link definitions depend only on which users and which repositories there
/// are, not on the order of the items, on how often one occurs, nor on anything else
/// that an item says.
pub proof fn law_definitions_depend_on_links(a: Seq<Item>, b: Seq<Item>)
    requires
        user_links(a).to_set() == user_links(b).to_set(),
        repository_links(a).to_set() == repository_links(b).to_set(),
    ensures
        definition_lines(a) == definition_lines(b),
{
    assert forall|line: Seq<char>| #[trigger]
        user_definitions(a).contains(line) <==> user_definitions(b).contains(line) by {
        lemma_user_definitions_follow(a, b, line);
        lemma_user_definitions_follow(b, a, line);
    }
    assert forall|line: Seq<char>| #[trigger]
        repository_definitions(a).contains(line) <==> repository_definitions(b).contains(line) by {
        lemma_repository_definitions_follow(a, b, line);
        lemma_repository_definitions_follow(b, a, line);
    }
    law_sorted_without_repeats_is_unique(user_definitions(a), user_definitions(b));
    law_sorted_without_repeats_is_unique(repository_definitions(a), repository_definitions(b));
}

proof fn lemma_user_definitions_follow(a: Seq<Item>, b: Seq<Item>, line: Seq<char>)
    requires
        user_links(a).to_set() == user_links(b).to_set(),
    ensures
        user_definitions(a).contains(line) ==> user_definitions(b).contains(line),
{
    if user_definitions(a).contains(line) {
        let i = choose|i: int| 0 <= i < a.len() && user_definitions(a)[i] == line;
        let link = user_links(a)[i];
        assert(user_links(a).to_set().contains(link));
        assert(user_links(b).contains(link));
        let j = choose|j: int| 0 <= j < b.len() && user_links(b)[j] == link;
        assert(user_definitions(b)[j] == line);
    }
}

proof fn lemma_repository_definitions_follow(a: Seq<Item>, b: Seq<Item>, line: Seq<char>)
    requires
        repository_links(a).to_set() == repository_links(b).to_set(),
    ensures
        repository_definitions(a).contains(line) ==> repository_definitions(b).contains(line),
{
    if repository_definitions(a).contains(line) {
        let i = choose|i: int| 0 <= i < a.len() && repository_definitions(a)[i] == line;
        let link = repository_links(a)[i];
        assert(repository_links(a).to_set().contains(link));
        assert(repository_links(b).contains(link));
        let j = choose|j: int| 0 <= j < b.len() && repository_links(b)[j] == link;
        assert(repository_definitions(b)[j] == line);
    }
}

// ---------------------------------------------------------------------------
// The comment
// ---------------------------------------------------------------------------

/// The line that asks for the category of the repository of an item.
pub open spec fn unlabelled_line(item: Item) -> Seq<char> {
    "  - ["@ + item@.full_repository_name + "] UNKNOWN @"@ + item@.user_login
}

/// The lines that ask for the categories of the repositories of `items`.
pub open spec fn unlabelled_lines(items: Seq<Item>) -> Seq<Seq<char>> {
    Seq::new(items.len(), |i: int| unlabelled_line(items[i]))
}

/// The lines of the comment: where the digest goes and which date it is for, then
/// what belongs to no label, each line once, and a hint.
pub open spec fn comment_lines(
    output_path: Seq<char>,
    date: Seq<char>,
    unknown_items: Seq<Item>,
) -> Seq<Seq<char>> {
    seq![""@, "- TWIOS_PATH "@ + output_path, "- TWIOS_DATE "@ + date, "- TWIOS_UNLABELLED"@]
        + without_repeats(unlabelled_lines(unknown_items)) + seq![
        ""@,
        "Change repo category to `EXCLUDED` in order to permantently ignore it from TWIOS from now on."@,
    ]
}

/// The comment asks about every item that belongs to no label, and does not ask
/// twice in the same words.
pub proof fn law_comment_asks_once(
    output_path: Seq<char>,
    date: Seq<char>,
    unknown_items: Seq<Item>,
)
    ensures
        forall|i: int|
            #![trigger unknown_items[i]]
            0 <= i < unknown_items.len() ==> comment_lines(
                output_path,
                date,
                unknown_items,
            ).contains(unlabelled_line(unknown_items[i])),
        without_repeats(unlabelled_lines(unknown_items)).no_duplicates(),
{
    let asked = unlabelled_lines(unknown_items);
    let lines = comment_lines(output_path, date, unknown_items);
    law_without_repeats(asked);
    assert forall|i: int|
        #![trigger unknown_items[i]]
        0 <= i < unknown_items.len() implies lines.contains(
        unlabelled_line(unknown_items[i]),
    ) by {
        let line = unlabelled_line(unknown_items[i]);
        assert(asked[i] == line);
        assert(without_repeats(asked).contains(line));
        let k = choose|k: int|
            0 <= k < without_repeats(asked).len() && without_repeats(asked)[k] == line;
        assert(lines[4 + k] == line);
    }
}

/// Appends the lines of the comment to `content`.
pub fn write_twios_comment_contents(
    content: &mut Vec<String>,
    app_params: &AppParams,
    unknown_items: &Vec<Item>,
)
    ensures
        final(content).deep_view() == old(content).deep_view() + comment_lines(
            app_params.output_path@,
            app_params.date@,
            unknown_items@,
        ),
{
    let ghost start = content.deep_view();
    push_line(content, "".to_owned());
    let mut path_line = "- TWIOS_PATH ".to_owned();
    path_line.append(app_params.output_path.as_str());
    push_line(content, path_line);
    let mut date_line = "- TWIOS_DATE ".to_owned();
    date_line.append(app_params.date.as_str());
    push_line(content, date_line);
    push_line(content, "- TWIOS_UNLABELLED".to_owned());
    let ghost upper = content.deep_view();

    let mut lines: Vec<String> = Vec::new();
    let mut i: usize = 0;
    while i < unknown_items.len()
        invariant
            i <= unknown_items.len(),
            lines.deep_view() == unlabelled_lines(unknown_items@).take(i as int),
        decreases unknown_items.len() - i,
    {
        let item = &unknown_items[i];
        let mut line = "  - [".to_owned();
        line.append(item.full_repository_name.as_str());
        line.append("] UNKNOWN @");
        line.append(item.user_login.as_str());
        push_line(&mut lines, line);
        assert(lines.deep_view() =~= unlabelled_lines(unknown_items@).take(i + 1));
        i = i + 1;
    }
    assert(unlabelled_lines(unknown_items@).take(i as int) =~= unlabelled_lines(unknown_items@));
    let mut asked = distinct(lines);
    let ghost middle = asked.deep_view();
    content.append(&mut asked);
    assert(content.deep_view() =~= upper + middle);

    push_line(content, "".to_owned());
    push_line(
        content,
        "Change repo category to `EXCLUDED` in order to permantently ignore it from TWIOS from now on.".to_owned(),
    );
    assert(content.deep_view() =~= start + comment_lines(
        app_params.output_path@,
        app_params.date@,
        unknown_items@,
    ));
}

/// The text of the comment.
pub fn twios_comment(app_params: &AppParams, unknown_items: &Vec<Item>) -> (text: String)
    ensures
        text@ == joined(
            comment_lines(app_params.output_path@, app_params.date@, unknown_items@),
            "\n"@,
        ),
{
    let mut content: Vec<String> = Vec::new();
    write_twios_comment_contents(&mut content, app_params, unknown_items);
    assert(content.deep_view() =~= comment_lines(
        app_params.output_path@,
        app_params.date@,
        unknown_items@,
    ));
    join(&content, "\n")
}

// ---------------------------------------------------------------------------
// What can be read back from the lines
// ---------------------------------------------------------------------------

/// The line of an item holds, one after the other and each whole, the full name of the
/// repository, the number, the URL, the title and the login, in the brackets that make
/// them links, and nothing else.
pub proof fn law_item_line_reads_back(user_login: Seq<char>, item: Item)
    ensures
        ({
            let line = item_line(user_login, item);
            let name_end: int = 3 + item.full_repository_name@.len() as int;
            let number_end: int = name_end + 4 + item.issue_number@.len();
            let url_end: int = number_end + 2 + item.issue_url@.len();
            let title_end: int = url_end + 2 + item.issue_title@.len();
            let login_end: int = title_end + 4 + user_login.len();
            &&& line.len() == login_end + 2
            &&& line.take(3) == seq!['-', ' ', '[']
            &&& line.subrange(3, name_end) == item.full_repository_name@
            &&& line.subrange(name_end, name_end + 4) == seq![']', ' ', '[', '#']
            &&& line.subrange(name_end + 4, number_end) == item.issue_number@
            &&& line.subrange(number_end, number_end + 2) == seq![']', '(']
            &&& line.subrange(number_end + 2, url_end) == item.issue_url@
            &&& line.subrange(url_end, url_end + 2) == seq![')', ' ']
            &&& line.subrange(url_end + 2, title_end) == item.issue_title@
            &&& line.subrange(title_end, title_end + 4) == seq![' ', '(', '[', '@']
            &&& line.subrange(title_end + 4, login_end) == user_login
            &&& line.skip(login_end) == seq![']', ')']
        }),
{
    reveal_strlit("- [");
    reveal_strlit("] [#");
    reveal_strlit("](");
    reveal_strlit(") ");
    reveal_strlit(" ([@");
    reveal_strlit("])");
    let line = item_line(user_login, item);
    let name_end: int = 3 + item.full_repository_name@.len() as int;
    let number_end: int = name_end + 4 + item.issue_number@.len();
    let url_end: int = number_end + 2 + item.issue_url@.len();
    let title_end: int = url_end + 2 + item.issue_title@.len();
    let login_end: int = title_end + 4 + user_login.len();
    assert(line.take(3) =~= seq!['-', ' ', '[']);
    assert(line.subrange(3, name_end) =~= item.full_repository_name@);
    assert(line.subrange(name_end, name_end + 4) =~= seq![']', ' ', '[', '#']);
    assert(line.subrange(name_end + 4, number_end) =~= item.issue_number@);
    assert(line.subrange(number_end, number_end + 2) =~= seq![']', '(']);
    assert(line.subrange(number_end + 2, url_end) =~= item.issue_url@);
    assert(line.subrange(url_end, url_end + 2) =~= seq![')', ' ']);
    assert(line.subrange(url_end + 2, title_end) =~= item.issue_title@);
    assert(line.subrange(title_end, title_end + 4) =~= seq![' ', '(', '[', '@']);
    assert(line.subrange(title_end + 4, login_end) =~= user_login);
    assert(line.skip(login_end) =~= seq![']', ')']);
}

/// There is one line per item, in order, credited to the item's own user.
pub proof fn law_one_line_per_item(items: Seq<Item>)
    ensures
        item_lines(items).len() == items.len(),
        forall|i: int|
            #![trigger items[i]]
            0 <= i < items.len() ==> item_lines(items)[i] == item_line(
                items[i].user_login@,
                items[i],
            ),
{
}

/// The heading of a section is two number signs, a space and the name, whole.
pub proof fn law_heading_reads_back(label: LabelledItem)
    ensures
        label_line(label).take(3) == seq!['#', '#', ' '],
        label_line(label).skip(3) == label.name@,
{
    reveal_strlit("## ");
    assert(label_line(label).take(3) =~= seq!['#', '#', ' ']);
    assert(label_line(label).skip(3) =~= label.name@);
}

/// The link definitions of an item hold the texts that its line shows in brackets and
/// the URLs that they stand for, each whole.
pub proof fn law_definitions_read_back(item: Item)
    ensures
        ({
            let user = user_definition(item);
            let at: int = 2 + item.user_login@.len() as int;
            &&& user.take(2) == seq!['[', '@']
            &&& user.subrange(2, at) == item.user_login@
            &&& user.subrange(at, at + 3) == seq![']', ':', ' ']
            &&& user.skip(at + 3) == item.user_url@
        }),
        ({
            let repository = repository_definition(item);
            let at: int = 1 + item.full_repository_name@.len() as int;
            &&& repository.take(1) == seq!['[']
            &&& repository.subrange(1, at) == item.full_repository_name@
            &&& repository.subrange(at, at + 3) == seq![']', ':', ' ']
            &&& repository.skip(at + 3) == item.repository_url@
        }),
{
    reveal_strlit("[@");
    reveal_strlit("[");
    reveal_strlit("]: ");
    let user = user_definition(item);
    let at: int = 2 + item.user_login@.len() as int;
    assert(user.take(2) =~= seq!['[', '@']);
    assert(user.subrange(2, at) =~= item.user_login@);
    assert(user.subrange(at, at + 3) =~= seq![']', ':', ' ']);
    assert(user.skip(at + 3) =~= item.user_url@);
    let repository = repository_definition(item);
    let end: int = 1 + item.full_repository_name@.len() as int;
    assert(repository.take(1) =~= seq!['[']);
    assert(repository.subrange(1, end) =~= item.full_repository_name@);
    assert(repository.subrange(end, end + 3) =~= seq![']', ':', ' ']);
    assert(repository.skip(end + 3) =~= item.repository_url@);
}

/// The definitions of the users come first and those of the repositories after them,
/// both in strict order: each is there once, and there is one for every item.
pub proof fn law_users_are_defined_before_repositories(items: Seq<Item>)
    ensures
        exists|cut: int|
            #![trigger definition_lines(items).take(cut)]
            {
                let users = definition_lines(items).take(cut);
                let repositories = definition_lines(items).skip(cut);
                &&& 0 <= cut <= definition_lines(items).len()
                &&& forall|i: int, j: int|
                    0 <= i < j < users.len() ==> text_le(#[trigger] users[i], #[trigger] users[j])
                        && users[i] != users[j]
                &&& forall|i: int, j: int|
                    0 <= i < j < repositories.len() ==> text_le(
                        #[trigger] repositories[i],
                        #[trigger] repositories[j],
                    ) && repositories[i] != repositories[j]
                &&& forall|line: Seq<char>| #[trigger]
                    users.contains(line) <==> exists|i: int|
                        0 <= i < items.len() && line == user_definition(#[trigger] items[i])
                &&& forall|line: Seq<char>| #[trigger]
                    repositories.contains(line) <==> exists|i: int|
                        0 <= i < items.len() && line == repository_definition(#[trigger] items[i])
            },
{
    let first = sorted_without_repeats(user_definitions(items));
    let second = sorted_without_repeats(repository_definitions(items));
    let cut = first.len() as int;
    law_sorted_without_repeats(user_definitions(items));
    law_sorted_without_repeats(repository_definitions(items));
    assert(definition_lines(items).take(cut) =~= first);
    assert(definition_lines(items).skip(cut) =~= second);
    assert forall|line: Seq<char>| #[trigger]
        first.contains(line) <==> exists|i: int|
            0 <= i < items.len() && line == user_definition(#[trigger] items[i]) by {
        let all = user_definitions(items);
        if first.contains(line) {
            assert(all.contains(line));
            let i = choose|i: int| 0 <= i < all.len() && all[i] == line;
            assert(line == user_definition(items[i]));
        }
        if exists|i: int| 0 <= i < items.len() && line == user_definition(#[trigger] items[i]) {
            let i = choose|i: int|
                0 <= i < items.len() && line == user_definition(#[trigger] items[i]);
            assert(all[i] == line);
            assert(all.contains(line));
        }
    }
    assert forall|line: Seq<char>| #[trigger]
        second.contains(line) <==> exists|i: int|
            0 <= i < items.len() && line == repository_definition(#[trigger] items[i]) by {
        let all = repository_definitions(items);
        if second.contains(line) {
            assert(all.contains(line));
            let i = choose|i: int| 0 <= i < all.len() && all[i] == line;
            assert(line == repository_definition(items[i]));
        }
        if exists|i: int| 0 <= i < items.len() && line == repository_definition(
            #[trigger] items[i],
        ) {
            let i = choose|i: int|
                0 <= i < items.len() && line == repository_definition(#[trigger] items[i]);
            assert(all[i] == line);
            assert(all.contains(line));
        }
    }
}

// ---------------------------------------------------------------------------
// How the digest is put together
// ---------------------------------------------------------------------------

/// What is joined from parts that are not empty is not empty.
proof fn lemma_joined_nonempty<T>(parts: Seq<Seq<T>>, separator: Seq<T>)
    requires
        parts.len() >= 1,
        parts.last().len() >= 1,
    ensures
        joined(parts, separator).len() >= 1,
{
}

/// The sections of two stretches of labels are those of the one and of the other.
proof fn lemma_sections_concat(first: Seq<LabelledItem>, second: Seq<LabelledItem>)
    ensures
        sections(first + second) == sections(first) + sections(second),
{
    Seq::filter_distributes_over_add(first, second, has_items());
    assert(sections(first + second) =~= sections(first) + sections(second));
}

/// The lines of one section.
proof fn lemma_sections_single(label: LabelledItem)
    ensures
        sections(seq![label]) == (if label.items@.len() > 0 {
            seq![section_lines(label)]
        } else {
            Seq::empty()
        }),
{
    reveal_with_fuel(Seq::filter, 2);
    let one = seq![label];
    assert(one.drop_last() =~= Seq::empty());
    assert(Seq::<LabelledItem>::empty().filter(has_items()) =~= Seq::empty());
    if label.items@.len() > 0 {
        assert(one.filter(has_items()) =~= seq![label]);
        assert(sections(one) =~= seq![section_lines(label)]);
    } else {
        assert(one.filter(has_items()) =~= Seq::empty());
        assert(sections(one) =~= Seq::empty());
    }
}

/// Every section has a line.
proof fn lemma_sections_have_lines(labels: Seq<LabelledItem>)
    ensures
        sections(labels).len() > 0 ==> sections(labels).last().len() >= 1,
        sections(labels).len() == 0 <==> joined(sections(labels), seq![""@]).len() == 0,
{
    if sections(labels).len() > 0 {
        lemma_joined_nonempty(sections(labels), seq![""@]);
    }
}

/// The digest is put together label by label. A label without items gives nothing. One
/// with items gives its heading, an empty line and the lines of its items in order.
/// Two stretches of labels give the lines of the one and then those of the other, with
/// an empty line between where both give any.
pub proof fn law_digest_label_by_label(
    label: LabelledItem,
    first: Seq<LabelledItem>,
    second: Seq<LabelledItem>,
)
    ensures
        digest_lines(Seq::empty(), Seq::empty()) == Seq::<Seq<char>>::empty(),
        label.items@.len() == 0 ==> digest_lines(seq![label], Seq::empty()) == Seq::<
            Seq<char>,
        >::empty(),
        label.items@.len() > 0 ==> {
            let lines = digest_lines(seq![label], Seq::empty());
            &&& lines.len() == 2 + label.items@.len()
            &&& lines[0] == seq!['#', '#', ' '] + label.name@
            &&& lines[1] == Seq::<char>::empty()
            &&& forall|i: int|
                #![trigger label.items@[i]]
                0 <= i < label.items@.len() ==> lines[2 + i] == item_line(
                    label.items@[i].user_login@,
                    label.items@[i],
                )
        },
        ({
            let upper = digest_lines(first, Seq::empty());
            let lower = digest_lines(second, Seq::empty());
            digest_lines(first + second, Seq::empty()) == (if upper.len() == 0 {
                lower
            } else if lower.len() == 0 {
                upper
            } else {
                upper + seq![Seq::<char>::empty()] + lower
            })
        }),
{
    let none = Seq::<Seq<char>>::empty();
    let blank = seq![""@];
    reveal_strlit("");
    reveal_strlit("## ");
    assert(""@ =~= Seq::<char>::empty());
    assert(blank =~= seq![Seq::<char>::empty()]);
    assert(Seq::<LabelledItem>::empty().filter(has_items()) =~= Seq::empty()) by {
        reveal(Seq::filter);
    }
    assert(sections(Seq::empty()) =~= Seq::empty());
    assert(digest_lines(Seq::empty(), Seq::empty()) =~= none);
    lemma_sections_single(label);
    if label.items@.len() > 0 {
        let lines = digest_lines(seq![label], Seq::empty());
        assert(lines =~= section_lines(label));
        assert(label_line(label) =~= seq!['#', '#', ' '] + label.name@);
        assert forall|i: int|
            #![trigger label.items@[i]]
            0 <= i < label.items@.len() implies lines[2 + i] == item_line(
            label.items@[i].user_login@,
            label.items@[i],
        ) by {
            assert(lines[2 + i] == item_lines(label.items@)[i]);
        }
    } else {
        assert(digest_lines(seq![label], Seq::empty()) =~= none);
    }
    lemma_sections_concat(first, second);
    lemma_sections_have_lines(first);
    lemma_sections_have_lines(second);
    law_joined_part_by_part(sections(first), none, sections(second), blank);
    let upper = digest_lines(first, Seq::empty());
    let lower = digest_lines(second, Seq::empty());
    assert(upper =~= joined(sections(first), blank));
    assert(lower =~= joined(sections(second), blank));
    if sections(first).len() == 0 {
        assert(sections(first) + sections(second) =~= sections(second));
    } else if sections(second).len() == 0 {
        assert(sections(first) + sections(second) =~= sections(first));
    }
    assert(digest_lines(first + second, Seq::empty()) =~= joined(
        sections(first + second),
        blank,
    ));
}

/// What belongs to no label comes last, after an empty line, under the heading
/// "Unknown" and another empty line, its lines in order; where nothing does, nothing
/// is added.
pub proof fn law_unknown_items_come_last(labels: Seq<LabelledItem>, unknown_items: Seq<Item>)
    ensures
        ({
            let upper = digest_lines(labels, Seq::empty());
            let lines = digest_lines(labels, unknown_items);
            let at: int = upper.len() as int;
            &&& unknown_items.len() == 0 ==> lines == upper
            &&& unknown_items.len() > 0 ==> {
                &&& lines.len() == at + 3 + unknown_items.len()
                &&& lines.take(at) == upper
                &&& lines[at] == Seq::<char>::empty()
                &&& lines[at + 1] == "## Unknown"@
                &&& lines[at + 2] == Seq::<char>::empty()
                &&& forall|i: int|
                    #![trigger unknown_items[i]]
                    0 <= i < unknown_items.len() ==> lines[at + 3 + i] == item_line(
                        unknown_items[i].user_login@,
                        unknown_items[i],
                    )
            }
        }),
{
    reveal_strlit("");
    assert(""@ =~= Seq::<char>::empty());
    let upper = digest_lines(labels, Seq::empty());
    let lines = digest_lines(labels, unknown_items);
    let at: int = upper.len() as int;
    assert(upper =~= joined(sections(labels), seq![""@]));
    if unknown_items.len() == 0 {
        assert(lines =~= upper);
    } else {
        assert(lines.take(at) =~= upper);
        assert forall|i: int|
            #![trigger unknown_items[i]]
            0 <= i < unknown_items.len() implies lines[at + 3 + i] == item_line(
            unknown_items[i].user_login@,
            unknown_items[i],
        ) by {
            assert(lines[at + 3 + i] == item_lines(unknown_items)[i]);
        }
    }
}

/// The text of the digest starts with all of the header's lines and ends with all of
/// the definitions; between them stand all of the lines and a gap of two line breaks,
/// and nothing else.
pub proof fn law_digest_text_reads_back(
    header: Seq<Seq<char>>,
    lines: Seq<Seq<char>>,
    definitions: Seq<Seq<char>>,
)
    ensures
        ({
            let text = digest_text(header, lines, definitions);
            let header_end: int = joined(header, seq!['\n']).len() as int;
            let lines_end: int = header_end + joined(lines, seq!['\n']).len();
            &&& text.take(header_end) == joined(header, seq!['\n'])
            &&& text.subrange(header_end, lines_end) == joined(lines, seq!['\n'])
            &&& text.subrange(lines_end, lines_end + 2) == seq!['\n', '\n']
            &&& text.skip(lines_end + 2) == joined(definitions, seq!['\n'])
        }),
{
    reveal_strlit("\n");
    reveal_strlit("\n\n");
    assert("\n"@ =~= seq!['\n']);
    let text = digest_text(header, lines, definitions);
    let header_end: int = joined(header, seq!['\n']).len() as int;
    let lines_end: int = header_end + joined(lines, seq!['\n']).len();
    assert(text.take(header_end) =~= joined(header, seq!['\n']));
    assert(text.subrange(header_end, lines_end) =~= joined(lines, seq!['\n']));
    assert(text.subrange(lines_end, lines_end + 2) =~= seq!['\n', '\n']);
    assert(text.skip(lines_end + 2) =~= joined(definitions, seq!['\n']));
}

/// Where two stretches of parts are strung together without a separator, the last part
/// of the one and the first of the other become one.
proof fn lemma_joined_fused(front: Seq<Seq<char>>, back: Seq<Seq<char>>, separator: Seq<char>)
    requires
        front.len() >= 1,
        back.len() >= 1,
    ensures
        joined(front.drop_last().push(front.last() + back[0]) + back.skip(1), separator) == joined(
            front,
            separator,
        ) + joined(back, separator),
{
    let start = front.drop_last();
    let rest = back.skip(1);
    let fused = front.last() + back[0];
    law_joined_part_by_part(start, fused, seq![fused], separator);
    law_joined_part_by_part(start, front.last(), seq![front.last()], separator);
    law_joined_part_by_part(seq![back[0]], back[0], rest, separator);
    law_joined_part_by_part(start.push(fused), fused, rest, separator);
    assert(start.push(fused) =~= start + seq![fused]);
    assert(front =~= start + seq![front.last()]);
    assert(back =~= seq![back[0]] + rest);
    if start.len() == 0 {
        assert(start + seq![fused] =~= seq![fused]);
        assert(start + seq![front.last()] =~= seq![front.last()]);
    }
    if rest.len() == 0 {
        assert(start.push(fused) + rest =~= start.push(fused));
        assert(seq![back[0]] + rest =~= seq![back[0]]);
    }
    assert(joined(start.push(fused) + rest, separator) =~= joined(front, separator) + joined(
        back,
        separator,
    ));
}

/// Where no line holds a line break, the digest read line by line is: every line of
/// the header but the last; the last one with the first line below it; the other lines
/// below it; an empty line; and the definitions. Where one of the three is missing, an
/// empty line stands for it.
pub proof fn law_digest_text_line_by_line(
    header: Seq<Seq<char>>,
    lines: Seq<Seq<char>>,
    definitions: Seq<Seq<char>>,
)
    requires
        forall|i: int| 0 <= i < header.len() ==> !(#[trigger] header[i]).contains('\n'),
        forall|i: int| 0 <= i < lines.len() ==> !(#[trigger] lines[i]).contains('\n'),
        forall|i: int| 0 <= i < definitions.len() ==> !(#[trigger] definitions[i]).contains('\n'),
    ensures
        ({
            let blank = seq![Seq::<char>::empty()];
            let above = if header.len() == 0 {
                blank
            } else {
                header
            };
            let below = if lines.len() == 0 {
                blank
            } else {
                lines
            };
            let links = if definitions.len() == 0 {
                blank
            } else {
                definitions
            };
            split_on(digest_text(header, lines, definitions), '\n') == above.drop_last().push(
                above.last() + below[0],
            ) + below.skip(1) + blank + links
        }),
{
    let newline = seq!['\n'];
    let nothing = Seq::<char>::empty();
    let blank = seq![nothing];
    let above = if header.len() == 0 {
        blank
    } else {
        header
    };
    let below = if lines.len() == 0 {
        blank
    } else {
        lines
    };
    let links = if definitions.len() == 0 {
        blank
    } else {
        definitions
    };
    let body = above.drop_last().push(above.last() + below[0]) + below.skip(1);
    let whole = body + blank + links;
    reveal_strlit("\n");
    reveal_strlit("\n\n");
    assert("\n"@ =~= newline);
    law_joined_part_by_part(blank, nothing, blank, newline);
    assert(joined(above, newline) == joined(header, newline)) by {
        if header.len() == 0 {
            assert(header =~= Seq::empty());
        }
    }
    assert(joined(below, newline) == joined(lines, newline)) by {
        if lines.len() == 0 {
            assert(lines =~= Seq::empty());
        }
    }
    assert(joined(links, newline) == joined(definitions, newline)) by {
        if definitions.len() == 0 {
            assert(definitions =~= Seq::empty());
        }
    }
    lemma_joined_fused(above, below, newline);
    law_joined_part_by_part(body, nothing, blank, newline);
    law_joined_part_by_part(body + blank, nothing, links, newline);
    assert(joined(whole, newline) =~= digest_text(header, lines, definitions));
    assert forall|i: int| 0 <= i < whole.len() implies !(#[trigger] whole[i]).contains('\n') by {
        let last = above.len() - 1;
        if i < last {
            assert(whole[i] == above[i]);
        } else if i == last {
            lemma_seq_concat_contains_all_elements(above.last(), below[0], '\n');
            assert(above.last() == above[last]);
        } else if i < body.len() {
            assert(whole[i] == below[i - last]);
        } else if i > body.len() {
            assert(whole[i] == links[i - body.len() - 1]);
        }
    }
    law_join_then_split(whole, '\n');
}

// ---------------------------------------------------------------------------
// How the comment is put together
// ---------------------------------------------------------------------------

/// The line that asks about an item holds the full name of its repository and the
/// login of its user, each whole.
pub proof fn law_unlabelled_line_reads_back(item: Item)
    ensures
        ({
            let line = unlabelled_line(item);
            let name_end: int = 5 + item.full_repository_name@.len() as int;
            &&& line.take(5) == seq![' ', ' ', '-', ' ', '[']
            &&& line.subrange(5, name_end) == item.full_repository_name@
            &&& line.subrange(name_end, name_end + 11) == "] UNKNOWN @"@
            &&& line.skip(name_end + 11) == item.user_login@
        }),
{
    reveal_strlit("  - [");
    reveal_strlit("] UNKNOWN @");
    let line = unlabelled_line(item);
    let name_end: int = 5 + item.full_repository_name@.len() as int;
    assert(line.take(5) =~= seq![' ', ' ', '-', ' ', '[']);
    assert(line.subrange(5, name_end) =~= item.full_repository_name@);
    assert(line.subrange(name_end, name_end + 11) =~= "] UNKNOWN @"@);
    assert(line.skip(name_end + 11) =~= item.user_login@);
}

/// The comment says where the digest goes and which date it is for, then asks, each
/// time once and in the order of the items, about every item that belongs to no label
/// and about nothing else, and ends with a hint.
pub proof fn law_comment_line_by_line(
    output_path: Seq<char>,
    date: Seq<char>,
    unknown_items: Seq<Item>,
    upto: int,
)
    requires
        0 <= upto <= unknown_items.len(),
    ensures
        ({
            let lines = comment_lines(output_path, date, unknown_items);
            let asked = lines.subrange(4, lines.len() - 2);
            let fewer = comment_lines(output_path, date, unknown_items.take(upto));
            &&& lines.len() >= 6
            &&& lines[0] == Seq::<char>::empty()
            &&& lines[1] == "- TWIOS_PATH "@ + output_path
            &&& lines[2] == "- TWIOS_DATE "@ + date
            &&& lines[3] == "- TWIOS_UNLABELLED"@
            &&& lines[lines.len() - 2] == Seq::<char>::empty()
            &&& lines[lines.len() - 1]
                == "Change repo category to `EXCLUDED` in order to permantently ignore it from TWIOS from now on."@
            &&& asked.no_duplicates()
            &&& forall|line: Seq<char>| #[trigger]
                asked.contains(line) <==> exists|i: int|
                    0 <= i < unknown_items.len() && line == unlabelled_line(
                        #[trigger] unknown_items[i],
                    )
            &&& fewer.subrange(4, fewer.len() - 2).is_prefix_of(asked)
        }),
{
    reveal_strlit("");
    assert(""@ =~= Seq::<char>::empty());
    let all = unlabelled_lines(unknown_items);
    let lines = comment_lines(output_path, date, unknown_items);
    let asked = lines.subrange(4, lines.len() - 2);
    let fewer = comment_lines(output_path, date, unknown_items.take(upto));
    assert(asked =~= without_repeats(all));
    law_without_repeats(all);
    law_without_repeats_keeps_the_first(all, upto);
    assert(unlabelled_lines(unknown_items.take(upto)) =~= all.take(upto));
    assert(fewer.subrange(4, fewer.len() - 2) =~= without_repeats(all.take(upto)));
    assert forall|line: Seq<char>| #[trigger]
        asked.contains(line) <==> exists|i: int|
            0 <= i < unknown_items.len() && line == unlabelled_line(#[trigger] unknown_items[i]) by {
        if asked.contains(line) {
            assert(all.contains(line));
            let i = choose|i: int| 0 <= i < all.len() && all[i] == line;
            assert(line == unlabelled_line(unknown_items[i]));
        }
        if exists|i: int|
            0 <= i < unknown_items.len() && line == unlabelled_line(#[trigger] unknown_items[i]) {
            let i = choose|i: int|
                0 <= i < unknown_items.len() && line == unlabelled_line(
                    #[trigger] unknown_items[i],
                );
            assert(all[i] == line);
            assert(all.contains(line));
        }
    }
}

} // verus!
