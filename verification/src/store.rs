//! The in-memory comment store: the authoritative ordered list of comments,
//! the allocator for the smallest free id, and the create operation that
//! validates, allocates and appends in one step.

use vstd::prelude::*;
use vstd::string::StringExecFns;

use crate::models::{Comment, CommentView};

verus! {

/// Why a create request was rejected.
#[derive(Clone, Copy, Debug, PartialEq, Eq, Structural)]
pub enum CreateError {
    /// The comment body was empty; nothing was stored.
    EmptyBody,
    /// The caller supplied an id that an existing comment already carries.
    DuplicateId,
    /// Every id in the allocator's range is already taken.
    IdSpaceExhausted,
}

/// True if some comment in `s` already carries the id `id`.
pub open spec fn uid_used(s: Seq<CommentView>, id: u16) -> bool {
    exists|i: int| 0 <= i < s.len() && s[i].uid == Some(id)
}

/// Every assigned id appears on at most one comment; ids still unassigned
/// (`None`) are not constrained.
pub open spec fn unique_ids(s: Seq<CommentView>) -> bool {
    forall|i: int, j: int|
        0 <= i < j < s.len() && s[i].uid is Some ==> s[i].uid != s[j].uid
}

/// The comment as the store records it on a successful create: the chosen id
/// assigned, and the creation time defaulted to `now_ms` when absent.
pub open spec fn assigned(c: CommentView, id: u16, now_ms: i64) -> CommentView {
    CommentView {
        uid: Some(id),
        created: if c.created is Some {
            c.created
        } else {
            Some(now_ms)
        },
        ..c
    }
}

/// Appending a comment whose assigned id is free keeps assigned ids unique.
/// This is the inductive step behind the store-wide law that any sequence of
/// successful creates leaves every stored comment with a distinct id.
pub proof fn lemma_unique_ids_push(s: Seq<CommentView>, c: CommentView)
    requires
        unique_ids(s),
        c.uid matches Some(u) ==> !uid_used(s, u),
    ensures
        unique_ids(s.push(c)),
{
    assert forall|i: int, j: int|
        0 <= i < j < s.push(c).len() && s.push(c)[i].uid is Some implies s.push(c)[i].uid != s
        .push(c)[j].uid by {
        if j == s.len() {
            if s[i].uid is Some && s[i].uid == c.uid {
                assert(uid_used(s, c.uid->0));
            }
        }
    }
}

/// The in-memory authoritative collection of all comments, in insertion order.
pub struct Store {
    comments: Vec<Comment>,
}

impl View for Store {
    type V = Seq<CommentView>;

    closed spec fn view(&self) -> Seq<CommentView> {
        self.comments@.map_values(|c: Comment| c@)
    }
}

impl Store {
    /// An empty store, as used when no persisted file exists yet.
    pub fn new() -> (s: Store)
        ensures
            s@ == Seq::<CommentView>::empty(),
    {
        let s = Store { comments: Vec::new() };
        proof {
            assert(s@ =~= Seq::<CommentView>::empty());
        }
        s
    }

    /// A store holding exactly the given comments, as used right after the
    /// persisted file has been decoded.
    pub fn from_comments(comments: Vec<Comment>) -> (s: Store)
        ensures
            s@ == comments@.map_values(|c: Comment| c@),
    {
        Store { comments }
    }

    /// The stored comments, oldest first.
    pub fn comments(&self) -> (r: &Vec<Comment>)
        ensures
            r@.map_values(|c: Comment| c@) == self@,
    {
        &self.comments
    }

    /// How many comments are stored.
    pub fn len(&self) -> (n: usize)
        ensures
            n == self@.len(),
    {
        self.comments.len()
    }

    fn contains_uid(&self, id: u16) -> (r: bool)
        ensures
            r == uid_used(self@, id),
    {
        let n = self.comments.len();
        let mut k: usize = 0;
        while k < n
            invariant
                n == self.comments.len(),
                k <= n,
                forall|i: int| 0 <= i < k ==> self@[i].uid != Some(id),
            decreases n - k,
        {
            let hit = match self.comments[k].uid {
                Some(u) => u == id,
                None => false,
            };
            if hit {
                assert(self@[k as int].uid == Some(id));
                return true;
            }
            k = k + 1;
        }
        false
    }

    /// The smallest id not yet carried by any stored comment, scanning the id
    /// space from 0 upward; `None` once the whole range is taken.
    pub fn next_free_id(&self) -> (r: Option<u16>)
        ensures
            match r {
                Some(id) => id < u16::MAX && !uid_used(self@, id) && (forall|j: u16|
                    j < id ==> uid_used(self@, j)),
                None => forall|j: u16| j < u16::MAX ==> uid_used(self@, j),
            },
    {
        let mut i: u16 = 0;
        while i < u16::MAX
            invariant
                forall|j: u16| j < i ==> uid_used(self@, j),
            decreases u16::MAX - i,
        {
            if !self.contains_uid(i) {
                return Some(i);
            }
            i = i + 1;
        }
        None
    }

    /// The snapshot of stored comments whose `on` field equals `target`,
    /// in insertion order.
    pub fn list_by_target(&self, target: &str) -> (r: Vec<Comment>)
        ensures
            r@.map_values(|c: Comment| c@) == self@.filter(
                |cv: CommentView| cv.on == target@,
            ),
    {
        let t: String = String::from_str(target);
        let n = self.comments.len();
        let mut out: Vec<Comment> = Vec::new();
        proof {
            reveal(Seq::filter);
            assert(out@.map_values(|c: Comment| c@) =~= self@.take(0).filter(
                |cv: CommentView| cv.on == target@,
            ));
        }
        let mut k: usize = 0;
        while k < n
            invariant
                n == self.comments.len(),
                k <= n,
                t@ == target@,
                out@.map_values(|c: Comment| c@) == self@.take(k as int).filter(
                    |cv: CommentView| cv.on == target@,
                ),
            decreases n - k,
        {
            let c = &self.comments[k];
            let ghost out0 = out@;
            let hit = c.on.eq(&t);
            if hit {
                let dup = c.duplicate();
                out.push(dup);
            }
            proof {
                reveal(Seq::filter);
                let pr = |cv: CommentView| cv.on == target@;
                let s1 = self@.take(k + 1);
                assert(s1.drop_last() =~= self@.take(k as int));
                assert(s1.last() == self@[k as int]);
                assert(self@[k as int] == c@);
                if hit {
                    assert(s1.filter(pr) == s1.drop_last().filter(pr).push(s1.last()));
                    assert(out@.map_values(|cc: Comment| cc@) =~= out0.map_values(
                        |cc: Comment| cc@,
                    ).push(c@));
                } else {
                    assert(s1.filter(pr) == s1.drop_last().filter(pr));
                }
                assert(out@.map_values(|cc: Comment| cc@) =~= s1.filter(pr));
            }
            k = k + 1;
        }
        proof {
            assert(self@.take(n as int) =~= self@);
        }
        out
    }

    /// Validate, allocate an id and append, all as one step on the store:
    /// an empty body or a caller-supplied id already in use is rejected with
    /// the store untouched; otherwise the comment is appended carrying either
    /// the caller's id or the smallest free one, with its creation time
    /// defaulted to `now_ms`.
    pub fn create(&mut self, comment: Comment, now_ms: i64) -> (r: Result<u16, CreateError>)
        ensures
            unique_ids(old(self)@) ==> unique_ids(final(self)@),
            comment@.comment.len() == 0 ==> r == Err::<u16, CreateError>(CreateError::EmptyBody)
                && final(self)@ == old(self)@,
            comment@.comment.len() > 0 ==> (comment@.uid matches Some(u) ==> (if uid_used(
                old(self)@,
                u,
            ) {
                r == Err::<u16, CreateError>(CreateError::DuplicateId) && final(self)@ == old(
                    self,
                )@
            } else {
                r == Ok::<u16, CreateError>(u) && final(self)@ == old(self)@.push(
                    assigned(comment@, u, now_ms),
                )
            })),
            comment@.comment.len() > 0 && comment@.uid is None ==> (if (forall|j: u16|
                j < u16::MAX ==> uid_used(old(self)@, j)) {
                r == Err::<u16, CreateError>(CreateError::IdSpaceExhausted) && final(self)@ == old(
                    self,
                )@
            } else {
                r matches Ok(id) && !uid_used(old(self)@, id) && (forall|j: u16|
                    j < id ==> uid_used(old(self)@, j)) && final(self)@ == old(self)@.push(
                    assigned(comment@, id, now_ms),
                )
            }),
    {
        let mut comment = comment;
        if comment.comment.as_str().is_empty() {
            return Err(CreateError::EmptyBody);
        }
        let id: u16 = match comment.uid {
            Some(u) => {
                if self.contains_uid(u) {
                    return Err(CreateError::DuplicateId);
                }
                u
            },
            None => {
                match self.next_free_id() {
                    Some(i) => i,
                    None => {
                        return Err(CreateError::IdSpaceExhausted);
                    },
                }
            },
        };
        let ghost c0 = comment@;
        comment.uid = Some(id);
        if comment.created.is_none() {
            comment.created = Some(now_ms);
        }
        assert(comment@ == assigned(c0, id, now_ms));
        let ghost s0 = self@;
        self.comments.push(comment);
        proof {
            assert(self@ =~= s0.push(assigned(c0, id, now_ms)));
            if unique_ids(s0) {
                lemma_unique_ids_push(s0, assigned(c0, id, now_ms));
            }
        }
        Ok(id)
    }
}

/// Relies on chrono's Utc::now: the current wall-clock time, in milliseconds
/// since the Unix epoch. Nothing can be promised of its value.
#[verifier::external_body]
fn current_time_ms() -> i64 {
    chrono::Utc::now().timestamp_millis()
}

impl Store {
    /// [`Store::create`] with the creation time defaulted to the wall clock:
    /// what a request handler calls for a freshly posted comment.
    pub fn create_now(&mut self, comment: Comment) -> (r: Result<u16, CreateError>)
        ensures
            unique_ids(old(self)@) ==> unique_ids(final(self)@),
            comment@.comment.len() == 0 ==> r == Err::<u16, CreateError>(CreateError::EmptyBody)
                && final(self)@ == old(self)@,
            comment@.comment.len() > 0 ==> (comment@.uid matches Some(u) ==> (if uid_used(
                old(self)@,
                u,
            ) {
                r == Err::<u16, CreateError>(CreateError::DuplicateId) && final(self)@ == old(
                    self,
                )@
            } else {
                r == Ok::<u16, CreateError>(u)
            })),
            comment@.comment.len() > 0 && comment@.uid is None ==> (if (forall|j: u16|
                j < u16::MAX ==> uid_used(old(self)@, j)) {
                r == Err::<u16, CreateError>(CreateError::IdSpaceExhausted) && final(self)@ == old(
                    self,
                )@
            } else {
                r matches Ok(id) && !uid_used(old(self)@, id) && (forall|j: u16|
                    j < id ==> uid_used(old(self)@, j))
            }),
            r matches Ok(id) ==> exists|t: i64|
                final(self)@ == old(self)@.push(assigned(comment@, id, t)),
    {
        let now = current_time_ms();
        let ghost c0 = comment@;
        let r = self.create(comment, now);
        proof {
            if r is Ok {
                let id = r->Ok_0;
                assert(self@ == old(self)@.push(assigned(c0, id, now)));
                assert(exists|t: i64| self@ == old(self)@.push(assigned(c0, id, t)));
            }
        }
        r
    }
}

/// Assigned ids are untouched by forgetting the write-only email, so a store
/// reloaded from its own persisted form keeps the uniqueness of its ids.
pub proof fn lemma_without_email_keeps_unique_ids(cs: Seq<CommentView>)
    ensures
        unique_ids(cs.map_values(|c: CommentView| c.without_email())) == unique_ids(cs),
{
    let m = cs.map_values(|c: CommentView| c.without_email());
    assert(m.len() == cs.len());
    if unique_ids(cs) {
        assert forall|i: int, j: int| 0 <= i < j < m.len() && m[i].uid is Some implies m[i].uid
            != m[j].uid by {
            assert(m[i].uid == cs[i].uid);
            assert(m[j].uid == cs[j].uid);
        }
    }
    if unique_ids(m) {
        assert forall|i: int, j: int| 0 <= i < j < cs.len() && cs[i].uid is Some implies cs[i].uid
            != cs[j].uid by {
            assert(m[i].uid == cs[i].uid);
            assert(m[j].uid == cs[j].uid);
        }
    }
}

/// The heart of why two creations in a row never collide: an id that is free
/// in a store already holding the first comment differs from that comment's
/// id. Concurrent callers are serialized by the store's exclusive lock, so
/// each sees the other's append before allocating.
pub proof fn lemma_successive_ids_distinct(
    s0: Seq<CommentView>,
    c1: CommentView,
    id1: u16,
    id2: u16,
)
    requires
        c1.uid == Some(id1),
        !uid_used(s0.push(c1), id2),
    ensures
        id1 != id2,
{
    assert(s0.push(c1)[s0.len() as int].uid == Some(id1));
}

} // verus!