//! The comment record and its author record, with their mathematical views.

use vstd::prelude::*;

verus! {

/// Who wrote a comment. The email is accepted on input but is write-only:
/// it is never part of the persisted representation.
pub struct AuthorInfo {
    pub name: Option<String>,
    pub website: Option<String>,
    pub email: Option<String>,
}

/// Mathematical view of an [`AuthorInfo`].
pub ghost struct AuthorView {
    pub name: Option<Seq<char>>,
    pub website: Option<Seq<char>>,
    pub email: Option<Seq<char>>,
}

/// A single user-submitted remark, tied to the page (`on`) it belongs to.
///
/// `uid` is `None` only transiently, before the store assigns an id;
/// `created` and `updated` are timestamps in milliseconds since the epoch.
pub struct Comment {
    pub uid: Option<u16>,
    pub on: String,
    pub comment: String,
    pub created: Option<i64>,
    pub updated: Option<i64>,
    pub author: AuthorInfo,
}

/// Mathematical view of a [`Comment`].
pub ghost struct CommentView {
    pub uid: Option<u16>,
    pub on: Seq<char>,
    pub comment: Seq<char>,
    pub created: Option<i64>,
    pub updated: Option<i64>,
    pub author: AuthorView,
}

pub open spec fn opt_str_view(o: Option<String>) -> Option<Seq<char>> {
    match o {
        Some(s) => Some(s@),
        None => None,
    }
}

impl View for AuthorInfo {
    type V = AuthorView;

    open spec fn view(&self) -> AuthorView {
        AuthorView {
            name: opt_str_view(self.name),
            website: opt_str_view(self.website),
            email: opt_str_view(self.email),
        }
    }
}

impl View for Comment {
    type V = CommentView;

    open spec fn view(&self) -> CommentView {
        CommentView {
            uid: self.uid,
            on: self.on@,
            comment: self.comment@,
            created: self.created,
            updated: self.updated,
            author: self.author@,
        }
    }
}

impl CommentView {
    /// The same comment with the write-only email field forgotten, as it is
    /// after a trip through the persisted format.
    pub open spec fn without_email(self) -> CommentView {
        CommentView {
            author: AuthorView { email: None, ..self.author },
            ..self
        }
    }
}

fn clone_opt_string(o: &Option<String>) -> (r: Option<String>)
    ensures
        opt_str_view(r) == opt_str_view(*o),
{
    match o {
        Some(s) => Some(s.clone()),
        None => None,
    }
}

impl AuthorInfo {
    /// An exact copy; unlike a derived `Clone`, its effect on the view is specified.
    pub fn duplicate(&self) -> (r: AuthorInfo)
        ensures
            r@ == self@,
    {
        AuthorInfo {
            name: clone_opt_string(&self.name),
            website: clone_opt_string(&self.website),
            email: clone_opt_string(&self.email),
        }
    }
}

impl Comment {
    /// An exact copy; unlike a derived `Clone`, its effect on the view is specified.
    pub fn duplicate(&self) -> (r: Comment)
        ensures
            r@ == self@,
    {
        Comment {
            uid: self.uid,
            on: self.on.clone(),
            comment: self.comment.clone(),
            created: self.created,
            updated: self.updated,
            author: self.author.duplicate(),
        }
    }
}

} // verus!
