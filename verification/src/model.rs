//! The entities of a review session and their mathematical views.
//!
//! Timestamps are unix seconds; identifiers are peer-generated strings.
//! Every entity has a ghost view struct over `Seq<char>` / `int`, which is
//! what all contracts in this crate speak of.

use vstd::prelude::*;

verus! {

/// Mathematical view of a [`ReviewSession`].
pub ghost struct ReviewSessionV {
    pub id: Seq<char>,
    pub title: Seq<char>,
    pub created_at: int,
    pub participants: Seq<Seq<char>>,
}

/// A collaboration unit.  `id` is globally unique and immutable after
/// creation.
#[derive(Debug)]
pub struct ReviewSession {
    pub id: String,
    pub title: String,
    pub created_at: i64,
    pub participants: Vec<String>,
}

impl View for ReviewSession {
    type V = ReviewSessionV;

    open spec fn view(&self) -> ReviewSessionV {
        ReviewSessionV {
            id: self.id@,
            title: self.title@,
            created_at: self.created_at as int,
            participants: self.participants@.map_values(|p: String| p@),
        }
    }
}

/// Mathematical view of a [`Comment`].
pub ghost struct CommentV {
    pub id: Seq<char>,
    pub session_id: Seq<char>,
    pub author: Seq<char>,
    pub file: Seq<char>,
    pub hunk_id: Seq<char>,
    pub line: nat,
    pub body: Seq<char>,
    pub created_at: int,
    pub resolved: bool,
}

/// A mutable annotation attached to a hunk.  `id` is globally unique and
/// generated once by the authoring peer; `resolved` is the only field any
/// peer may update after creation.  `hunk_id` is a weak reference: the hunk
/// may no longer exist once the diff changes.
#[derive(Debug)]
pub struct Comment {
    pub id: String,
    pub session_id: String,
    pub author: String,
    pub file: String,
    pub hunk_id: String,
    pub line: usize,
    pub body: String,
    pub created_at: i64,
    pub resolved: bool,
}

impl View for Comment {
    type V = CommentV;

    open spec fn view(&self) -> CommentV {
        CommentV {
            id: self.id@,
            session_id: self.session_id@,
            author: self.author@,
            file: self.file@,
            hunk_id: self.hunk_id@,
            line: self.line as nat,
            body: self.body@,
            created_at: self.created_at as int,
            resolved: self.resolved,
        }
    }
}

/// Mathematical view of a [`ChatLine`].
pub ghost struct ChatLineV {
    pub id: Seq<char>,
    pub session_id: Seq<char>,
    pub author: Seq<char>,
    pub body: Seq<char>,
    pub created_at: int,
}

/// An immutable chat message: created once, never mutated.
#[derive(Debug)]
pub struct ChatLine {
    pub id: String,
    pub session_id: String,
    pub author: String,
    pub body: String,
    pub created_at: i64,
}

impl View for ChatLine {
    type V = ChatLineV;

    open spec fn view(&self) -> ChatLineV {
        ChatLineV {
            id: self.id@,
            session_id: self.session_id@,
            author: self.author@,
            body: self.body@,
            created_at: self.created_at as int,
        }
    }
}

/// Mathematical view of a [`DiffHunk`].
pub ghost struct DiffHunkV {
    pub id: Seq<char>,
    pub file: Seq<char>,
    pub old_start: nat,
    pub old_lines: nat,
    pub new_start: nat,
    pub new_lines: nat,
    pub content: Seq<char>,
}

/// An immutable, externally produced unit of change.  `id` is a pure
/// function of `(file, old_start, new_start, content)`.
#[derive(Debug)]
pub struct DiffHunk {
    pub id: String,
    pub file: String,
    pub old_start: usize,
    pub old_lines: usize,
    pub new_start: usize,
    pub new_lines: usize,
    pub content: String,
}

impl View for DiffHunk {
    type V = DiffHunkV;

    open spec fn view(&self) -> DiffHunkV {
        DiffHunkV {
            id: self.id@,
            file: self.file@,
            old_start: self.old_start as nat,
            old_lines: self.old_lines as nat,
            new_start: self.new_start as nat,
            new_lines: self.new_lines as nat,
            content: self.content@,
        }
    }
}

impl Clone for ReviewSession {
    fn clone(&self) -> (res: Self)
        ensures
            res@ == self@,
    {
        ReviewSession {
            id: self.id.clone(),
            title: self.title.clone(),
            created_at: self.created_at,
            participants: crate::strutil::clone_strings(&self.participants),
        }
    }
}

impl Clone for Comment {
    fn clone(&self) -> (res: Self)
        ensures
            res@ == self@,
    {
        Comment {
            id: self.id.clone(),
            session_id: self.session_id.clone(),
            author: self.author.clone(),
            file: self.file.clone(),
            hunk_id: self.hunk_id.clone(),
            line: self.line,
            body: self.body.clone(),
            created_at: self.created_at,
            resolved: self.resolved,
        }
    }
}

impl Clone for ChatLine {
    fn clone(&self) -> (res: Self)
        ensures
            res@ == self@,
    {
        ChatLine {
            id: self.id.clone(),
            session_id: self.session_id.clone(),
            author: self.author.clone(),
            body: self.body.clone(),
            created_at: self.created_at,
        }
    }
}

impl Clone for DiffHunk {
    fn clone(&self) -> (res: Self)
        ensures
            res@ == self@,
    {
        DiffHunk {
            id: self.id.clone(),
            file: self.file.clone(),
            old_start: self.old_start,
            old_lines: self.old_lines,
            new_start: self.new_start,
            new_lines: self.new_lines,
            content: self.content.clone(),
        }
    }
}

impl PartialEq for Comment {
    fn eq(&self, other: &Comment) -> (r: bool) {
        self.id == other.id && self.session_id == other.session_id && self.author == other.author
            && self.file == other.file && self.hunk_id == other.hunk_id
            && self.line == other.line && self.body == other.body
            && self.created_at == other.created_at && self.resolved == other.resolved
    }
}

impl vstd::std_specs::cmp::PartialEqSpecImpl for Comment {
    open spec fn obeys_eq_spec() -> bool {
        true
    }

    open spec fn eq_spec(&self, other: &Comment) -> bool {
        self@ == other@
    }
}

impl PartialEq for ChatLine {
    fn eq(&self, other: &ChatLine) -> (r: bool) {
        self.id == other.id && self.session_id == other.session_id && self.author == other.author
            && self.body == other.body && self.created_at == other.created_at
    }
}

impl vstd::std_specs::cmp::PartialEqSpecImpl for ChatLine {
    open spec fn obeys_eq_spec() -> bool {
        true
    }

    open spec fn eq_spec(&self, other: &ChatLine) -> bool {
        self@ == other@
    }
}

impl PartialEq for DiffHunk {
    fn eq(&self, other: &DiffHunk) -> (r: bool) {
        self.id == other.id && self.file == other.file && self.old_start == other.old_start
            && self.old_lines == other.old_lines && self.new_start == other.new_start
            && self.new_lines == other.new_lines && self.content == other.content
    }
}

impl vstd::std_specs::cmp::PartialEqSpecImpl for DiffHunk {
    open spec fn obeys_eq_spec() -> bool {
        true
    }

    open spec fn eq_spec(&self, other: &DiffHunk) -> bool {
        self@ == other@
    }
}

/// Failure of a store operation.  `Unavailable` is for unreachable
/// underlying storage (raised by the persistence layer around this crate);
/// `Malformed` is for a persisted record that cannot be decoded back into
/// its entity, which is skipped, never fatal.
#[derive(Clone, Copy, Debug, PartialEq, Eq, Structural)]
pub enum StoreError {
    Unavailable,
    Malformed,
}

/// Failure of an offline-queue operation; raised only by the persistence
/// layer around this crate, never by the in-memory core.
#[derive(Clone, Copy, Debug, PartialEq, Eq, Structural)]
pub enum QueueError {
    Unavailable,
}

} // verus!
