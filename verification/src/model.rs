//! The data that the digest is made of.

use vstd::prelude::*;

use crate::order::Keyed;

verus! {

/// Whether a pull request was merged, as far as that is known.
#[derive(Debug, Clone, Copy, PartialEq, Eq, Structural)]
pub enum ItemMergeStatus {
    Merged,
    NotMerged,
    Unknown,
}

/// A pull request of the digest.
#[derive(Debug, PartialEq)]
pub struct Item {
    pub issue_number: String,
    pub issue_title: String,
    pub issue_url: String,
    pub organization_name: String,
    pub repository_name: String,
    pub full_repository_name: String,
    pub repository_url: String,
    pub user_login: String,
    pub user_url: String,
    /// Either "open" or "closed".
    pub state: String,
    pub merge_status: ItemMergeStatus,
}

/// What an [`Item`] says, text for text.
#[verifier::ext_equal]
pub struct ItemView {
    pub issue_number: Seq<char>,
    pub issue_title: Seq<char>,
    pub issue_url: Seq<char>,
    pub organization_name: Seq<char>,
    pub repository_name: Seq<char>,
    pub full_repository_name: Seq<char>,
    pub repository_url: Seq<char>,
    pub user_login: Seq<char>,
    pub user_url: Seq<char>,
    pub state: Seq<char>,
    pub merge_status: ItemMergeStatus,
}

impl View for Item {
    type V = ItemView;

    open spec fn view(&self) -> ItemView {
        ItemView {
            issue_number: self.issue_number@,
            issue_title: self.issue_title@,
            issue_url: self.issue_url@,
            organization_name: self.organization_name@,
            repository_name: self.repository_name@,
            full_repository_name: self.full_repository_name@,
            repository_url: self.repository_url@,
            user_login: self.user_login@,
            user_url: self.user_url@,
            state: self.state@,
            merge_status: self.merge_status,
        }
    }
}

/// The view of an item says of each field what the field says.
pub proof fn law_item_view_is_faithful(item: Item)
    ensures
        item@.issue_number == item.issue_number@,
        item@.issue_title == item.issue_title@,
        item@.issue_url == item.issue_url@,
        item@.organization_name == item.organization_name@,
        item@.repository_name == item.repository_name@,
        item@.full_repository_name == item.full_repository_name@,
        item@.repository_url == item.repository_url@,
        item@.user_login == item.user_login@,
        item@.user_url == item.user_url@,
        item@.state == item.state@,
        item@.merge_status == item.merge_status,
{
}

impl Clone for Item {
    fn clone(&self) -> (copy: Self)
        ensures
            copy == *self,
    {
        Item {
            issue_number: self.issue_number.clone(),
            issue_title: self.issue_title.clone(),
            issue_url: self.issue_url.clone(),
            organization_name: self.organization_name.clone(),
            repository_name: self.repository_name.clone(),
            full_repository_name: self.full_repository_name.clone(),
            repository_url: self.repository_url.clone(),
            user_login: self.user_login.clone(),
            user_url: self.user_url.clone(),
            state: self.state.clone(),
            merge_status: self.merge_status,
        }
    }
}

/// Items are sorted by the full name of their repository.
impl Keyed for Item {
    open spec fn key(&self) -> Seq<char> {
        self.full_repository_name@
    }

    fn key_text(&self) -> (key: &str) {
        self.full_repository_name.as_str()
    }
}

/// A section of the digest: its heading, the repositories that belong to it, and
/// the items that were put into it.
#[derive(Debug, Clone, PartialEq)]
pub struct LabelledItem {
    pub name: String,
    pub repos: Vec<String>,
    pub items: Vec<Item>,
}

/// What a [`LabelledItem`] holds.
#[verifier::ext_equal]
pub struct LabelledItemView {
    pub name: Seq<char>,
    pub repos: Seq<Seq<char>>,
    pub items: Seq<Item>,
}

impl View for LabelledItem {
    type V = LabelledItemView;

    open spec fn view(&self) -> LabelledItemView {
        LabelledItemView {
            name: self.name@,
            repos: self.repos.deep_view(),
            items: self.items@,
        }
    }
}

/// The view of a section says of each field what the field holds.
pub proof fn law_labelled_item_view_is_faithful(label: LabelledItem)
    ensures
        label@.name == label.name@,
        label@.repos == label.repos.deep_view(),
        label@.items == label.items@,
{
}

/// A label of the configuration: the heading of a section and the full names of
/// the repositories that belong to it.
#[derive(Debug, Clone, PartialEq)]
pub struct Label {
    pub name: String,
    pub repos: Vec<String>,
}

/// Which date of a pull request a search goes by.
#[derive(Debug, Clone, Copy, PartialEq, Eq, Structural)]
pub enum PullRequestQueryType {
    Merged,
    Created,
}

/// What the digest is to be made of and how.
#[derive(Debug, Clone, PartialEq)]
pub struct AppParams {
    /// The logins of the people whose pull requests are collected.
    pub users: Vec<String>,
    /// What stands before the date of a search, such as ">=".
    pub date_sign: String,
    pub date: String,
    pub query_type: PullRequestQueryType,
    pub labels: Vec<Label>,
    /// The full names of the repositories to leave out.
    pub exclude: Vec<String>,
    /// Whether to leave out what was closed without being merged.
    pub exclude_closed_not_merged: bool,
    /// The lines that stand at the top of the digest.
    pub header: Vec<String>,
    pub output_path: String,
}

/// A pull request as a search reports it.
#[derive(Debug, Clone, PartialEq)]
pub struct Issue {
    /// The URL of the pull request.
    pub html_url: String,
    /// The path of that URL.
    pub html_path: String,
    pub number: i64,
    pub title: String,
    pub user_login: String,
    pub user_html_url: String,
    pub state: String,
}

} // verus!
