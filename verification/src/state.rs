//! Application state: the open documents and their edit histories.
//!
//! `lopdf::Document` is the single source of truth for each open document.
//! Every edit mutates that object model; the serialized bytes used for
//! rendering are cached against a `revision` counter that every edit bumps.
//!
//! Tabs are addressed by id rather than by index so that closing a tab cannot
//! silently re-point a pending request: ids are handed out in increasing order
//! and never reused.

use std::time::{Duration, Instant};

use vstd::prelude::*;
use vstd::string::StringExecFns;

use crate::error::{AppError, AppResult};
use crate::pdf::document::{
    copy_document, document_max_id, document_objects, document_trailer, document_version, load, parsed_pdf, pdf_bytes, serialize,
};

verus! {

broadcast use crate::pdf::object::group_deep;

/// Identifies one open document for the lifetime of the process.
pub type DocumentId = u64;

/// How many steps back the history keeps.
///
/// Each entry is the whole document serialized, so the bound is about memory
/// rather than about how far anyone plausibly wants to go back.
pub const HISTORY_DEPTH: usize = 40;

/// Consecutive changes of the same kind inside this many milliseconds become
/// one step: holding an arrow key to slide a field is one movement.
pub const COALESCE_WINDOW_MS: u128 = 700;

/// Whether a step of `kind`, `elapsed_ms` milliseconds after the last step of
/// the gesture `pending`, merges into it: the same kind of change, within
/// [`COALESCE_WINDOW_MS`].
pub fn merges_into(pending: &str, kind: &str, elapsed_ms: u128) -> (r: bool)
    ensures
        r == (pending@ == kind@ && elapsed_ms < COALESCE_WINDOW_MS),
{
    crate::pdf::forms::same_text_of(pending, kind) && elapsed_ms < COALESCE_WINDOW_MS
}

/// The monotonic clock's reading, kept to decide whether steps coalesce.
#[verifier::external_type_specification]
#[verifier::external_body]
pub struct ExInstant(Instant);

/// Reads the monotonic clock with `Instant::now`. Nothing is promised of the
/// moment returned.
#[verifier::external_body]
fn now() -> (r: Instant) {
    Instant::now()
}

/// `Instant::elapsed`: the time since `at`. It depends on the clock, so
/// nothing is promised of it.
#[verifier::external_body]
fn elapsed_since(at: &Instant) -> (r: Duration) {
    at.elapsed()
}

/// `Duration::as_millis`. The duration is opaque here, so nothing is promised
/// of the number.
#[verifier::external_body]
fn whole_millis(duration: &Duration) -> (r: u128) {
    duration.as_millis()
}


/// `Path::file_name` of `path`, rendered with `to_string_lossy`. Which part of
/// the text counts as the file name depends on the platform's path syntax, so
/// nothing is promised of the name.
#[verifier::external_body]
fn file_name_of(path: &str) -> (r: Option<String>) {
    std::path::Path::new(path).file_name().map(|name| name.to_string_lossy().into_owned())
}

/// One open document and everything we track about it.
pub struct DocumentSession {
    pub id: DocumentId,
    /// The authoritative object model.
    pub doc: lopdf::Document,
    /// Where it came from / where Save writes. `None` for a new document.
    pub path: Option<String>,
    /// Set when the state differs from the last save.
    pub dirty: bool,
    /// Bumped on any mutation. Doubles as a cache-busting token for page images.
    pub revision: u64,
    /// Serialized bytes matching `revision`, lazily produced for rendering.
    pub serialized: Option<(u64, Vec<u8>)>,
    /// States to go back to, oldest first, and states to go forward to.
    ///
    /// Whole-document snapshots rather than a command stack: a snapshot is
    /// right for every shape of edit by construction.
    pub undo: Vec<Vec<u8>>,
    pub redo: Vec<Vec<u8>>,
    /// The kind and time of the last recorded step, for coalescing.
    pub last_step: Option<(&'static str, Instant)>,
    /// Where in the history the file on disk sits: `undo.len()` at the save.
    pub saved_at: Option<usize>,
}

/// The unsaved marker as the history defines it: the current position is not
/// the one the file on disk was saved at.
pub open spec fn unsaved(saved_at: Option<usize>, position: nat) -> bool {
    saved_at != Some(position as usize)
}

/// `n + 1`, wrapping at `u64::MAX` as the revision counter does.
pub open spec fn next_revision(n: u64) -> u64 {
    if n == u64::MAX { 0 } else { (n + 1) as u64 }
}

/// The undo stack after `snapshot` is recorded: it goes on top, and the oldest
/// entry falls off once the stack would exceed [`HISTORY_DEPTH`].
pub open spec fn pushed_history(undo: Seq<Seq<u8>>, snapshot: Seq<u8>) -> Seq<Seq<u8>> {
    let grown = undo.push(snapshot);
    if grown.len() > HISTORY_DEPTH { grown.drop_first() } else { grown }
}

/// Where the saved position sits after [`pushed_history`]: when the oldest
/// entry falls off, every position shifts down by one, and a save that sat at
/// position 0 no longer has a place in the history.
pub open spec fn shifted_saved_at(undo: Seq<Seq<u8>>, saved_at: Option<usize>) -> Option<usize> {
    if undo.len() + 1 > HISTORY_DEPTH {
        match saved_at {
            Some(at) => if at >= 1 { Some((at - 1) as usize) } else { None },
            None => None,
        }
    } else {
        saved_at
    }
}

impl DocumentSession {
    /// The undo stack, oldest state first, as byte sequences.
    pub open spec fn undo_states(&self) -> Seq<Seq<u8>> {
        self.undo.deep_view()
    }

    /// The redo stack, the state to go forward to last.
    pub open spec fn redo_states(&self) -> Seq<Seq<u8>> {
        self.redo.deep_view()
    }

    pub open spec fn saved_position(&self) -> Option<usize> {
        self.saved_at
    }

    pub open spec fn cached(&self) -> Option<(u64, Seq<u8>)> {
        match self.serialized {
            Some((rev, bytes)) => Some((rev, bytes@)),
            None => None,
        }
    }

    /// The kind of the last recorded step, while a gesture can still merge
    /// into it. `None` once anything else has happened.
    pub open spec fn gesture(&self) -> Option<Seq<char>> {
        match self.last_step {
            Some((kind, _)) => Some(kind@),
            None => None,
        }
    }

    /// The history never holds more than [`HISTORY_DEPTH`] states in total.
    pub open spec fn wf(&self) -> bool {
        self.undo_states().len() + self.redo_states().len() <= HISTORY_DEPTH
    }

    pub fn new(id: DocumentId, doc: lopdf::Document, path: Option<String>) -> (s: Self)
        ensures
            s.id == id,
            s.doc == doc,
            s.path == path,
            !s.dirty,
            s.revision == 1,
            s.undo_states().len() == 0,
            s.redo_states().len() == 0,
            s.saved_position() == Some(0usize),
            s.cached() is None,
            s.gesture() is None,
            s.wf(),
    {
        DocumentSession {
            id,
            doc,
            path,
            dirty: false,
            revision: 1,
            serialized: None,
            undo: Vec::new(),
            redo: Vec::new(),
            last_step: None,
            saved_at: Some(0),
        }
    }

    /// Nothing in the history changed between `self` and `after`.
    pub open spec fn history_kept(&self, after: &Self) -> bool {
        &&& after.undo_states() == self.undo_states()
        &&& after.redo_states() == self.redo_states()
        &&& after.saved_position() == self.saved_position()
    }

    /// `after` is `self` with one snapshot of the document recorded on the
    /// undo stack: the redo stack is abandoned, and the oldest step falls off
    /// once the stack would hold more than [`HISTORY_DEPTH`].
    pub open spec fn history_recorded(&self, after: &Self) -> bool {
        &&& exists|snapshot: Seq<u8>| after.undo_states() == pushed_history(self.undo_states(), snapshot)
        &&& after.redo_states().len() == 0
        &&& after.saved_position() == shifted_saved_at(self.undo_states(), self.saved_position())
    }

    /// `after` is `self` with `snapshot` recorded on the undo stack.
    pub open spec fn recorded_snapshot(&self, after: &Self, snapshot: Seq<u8>) -> bool {
        &&& self.history_recorded(after)
        &&& after.undo_states() == pushed_history(self.undo_states(), snapshot)
    }

    /// What recording leaves untouched: identity, location, the unsaved
    /// marker, the revision and the render cache.
    pub open spec fn same_document_state(&self, after: &Self) -> bool {
        &&& after.id == self.id
        &&& after.path == self.path
        &&& after.dirty == self.dirty
        &&& after.revision == self.revision
        &&& after.cached() == self.cached()
    }

    /// Records the current state so the next change can be undone.
    ///
    /// Call this immediately *before* mutating, while the document still holds
    /// what the user would expect to get back. An ordinary checkpoint never
    /// merges into an earlier step.
    pub fn checkpoint(&mut self)
        requires
            old(self).wf(),
        ensures
            final(self).wf(),
            old(self).same_document_state(&*final(self)),
            match pdf_bytes(old(self).doc) {
                // The document as written now goes on the undo stack, ending
                // any gesture ...
                Some(snapshot) => old(self).recorded_snapshot(&*final(self), snapshot) && final(self).gesture() is None,
                // ... unless it cannot be written, and nothing is recorded.
                None => old(self).history_kept(&*final(self)) && final(self).gesture() == old(self).gesture(),
            },
    {
        self.record(None);
    }

    /// Records a step that merges with an immediately preceding one of the
    /// same kind, so a held key or a repeated gesture undoes in one go.
    ///
    /// Whether a repeat arrives soon enough to merge depends on the clock; the
    /// contract states what holds either way.
    pub fn checkpoint_merging(&mut self, kind: &'static str)
        requires
            old(self).wf(),
        ensures
            final(self).wf(),
            old(self).same_document_state(&*final(self)),
            // Merged, in time, into the step already recorded for this same
            // gesture ...
            old(self).gesture() == Some(kind@) && old(self).history_kept(&*final(self))
                && final(self).gesture() == Some(kind@)
            // ... or otherwise the document as written now recorded as a step
            // of its own, unless it cannot be written.
            || match pdf_bytes(old(self).doc) {
                Some(snapshot) => old(self).recorded_snapshot(&*final(self), snapshot)
                    && final(self).gesture() == Some(kind@),
                None => old(self).history_kept(&*final(self)) && final(self).gesture() == old(self).gesture(),
            },
    {
        self.record(Some(kind));
    }

    fn record(&mut self, kind: Option<&'static str>)
        requires
            old(self).wf(),
        ensures
            final(self).wf(),
            old(self).same_document_state(&*final(self)),
            kind is Some && old(self).gesture() == Some(kind->0@) && old(self).history_kept(
                &*final(self),
            ) && final(self).gesture() == old(self).gesture()
            || match pdf_bytes(old(self).doc) {
                Some(snapshot) => old(self).recorded_snapshot(&*final(self), snapshot) && final(self).gesture()
                    == (match kind {
                    Some(k) => Some(k@),
                    None => None,
                }),
                None => old(self).history_kept(&*final(self)) && final(self).gesture() == old(self).gesture(),
            },
    {
        if let Some(kind) = kind {
            if let Some((last, at)) = &self.last_step {
                let elapsed = whole_millis(&elapsed_since(at));
                if merges_into(last, kind, elapsed) {
                    // The snapshot already on the stack is the state this
                    // whole gesture started from, which is what to go back to.
                    self.last_step = Some((kind, now()));
                    return;
                }
            }
        }
        let buffer = match serialize(&mut self.doc) {
            Ok(buffer) => buffer,
            // Losing one step of history is bad; refusing the edit outright
            // would be worse.
            Err(_) => return,
        };
        let ghost snapshot = buffer.deep_view();
        assert(snapshot =~= buffer@);
        let ghost before = self.undo_states();
        self.undo.push(buffer);
        assert(self.undo_states() =~= before.push(snapshot));
        self.last_step = match kind {
            Some(kind) => Some((kind, now())),
            None => None,
        };
        // A new edit abandons whatever was ahead in the history.
        self.redo.clear();
        assert(self.redo_states() =~= Seq::<Seq<u8>>::empty());
        if self.undo.len() > HISTORY_DEPTH {
            let ghost grown = self.undo_states();
            self.undo.remove(0);
            assert(self.undo_states() =~= grown.drop_first());
            // Everything shifted down, including where the saved state sits.
            self.saved_at = match self.saved_at {
                Some(at) => at.checked_sub(1),
                None => None,
            };
        }
        assert(self.undo_states() == pushed_history(before, snapshot));
        assert(exists|written: Seq<u8>| self.undo_states() == pushed_history(before, written));
    }

    /// `after` is `self` moved one step through the history: the state on top
    /// of the stack it moved along (`undo` going back, `redo` going forward)
    /// became the document, and the state left behind went on top of the
    /// other stack. A step ends any gesture, drops the render cache, bumps the
    /// revision and recomputes the unsaved marker at the new position.
    pub open spec fn stepped(&self, after: &Self, backwards: bool) -> bool {
        let (from, to, after_from, after_to) = if backwards {
            (self.undo_states(), self.redo_states(), after.undo_states(), after.redo_states())
        } else {
            (self.redo_states(), self.undo_states(), after.redo_states(), after.undo_states())
        };
        &&& from.len() > 0
        &&& after_from == from.drop_last()
        &&& after_to.len() == to.len() + 1
        &&& after_to.drop_last() == to
        // The document left behind went on top of the other stack, as written.
        &&& pdf_bytes(self.doc) == Some(after_to.last())
        // The document became the one read back from the state moved to.
        &&& parsed_pdf(from.last()) == Some(
            (
                document_objects(after.doc),
                document_trailer(after.doc),
                document_max_id(after.doc),
                document_version(after.doc),
            ),
        )
        &&& after.saved_at == self.saved_at
        &&& after.revision == next_revision(self.revision)
        &&& after.serialized is None
        &&& after.last_step is None
        &&& after.dirty == unsaved(self.saved_at, after.undo_states().len())
        &&& after.id == self.id
        &&& after.path == self.path
    }

    /// `after` is `self` after a step that failed part-way: the state being
    /// moved to was taken off its stack and lost, and nothing else in the
    /// history moved.
    pub open spec fn step_failed(&self, after: &Self, backwards: bool) -> bool {
        &&& if backwards {
            after.undo_states() == self.undo_states().drop_last() && after.redo_states()
                == self.redo_states()
        } else {
            after.redo_states() == self.redo_states().drop_last() && after.undo_states()
                == self.undo_states()
        }
        // Writing the document out may have refreshed its trailer's
        // cross-reference entries; its objects are as they were.
        &&& document_objects(after.doc) == document_objects(self.doc)
        &&& after.saved_at == self.saved_at
        &&& after.revision == self.revision
        &&& after.dirty == self.dirty
        &&& after.serialized == self.serialized
        &&& after.last_step == self.last_step
        &&& after.id == self.id
        &&& after.path == self.path
    }

    /// Steps back one change. Returns false when there is nothing to undo.
    pub fn undo(&mut self) -> (r: AppResult<bool>)
        requires
            old(self).wf(),
        ensures
            final(self).wf(),
            r == Ok::<bool, AppError>(false) <==> old(self).undo_states().len() == 0,
            r == Ok::<bool, AppError>(false) ==> *final(self) == *old(self),
            r == Ok::<bool, AppError>(true) ==> old(self).stepped(&*final(self), true),
            r is Err ==> old(self).step_failed(&*final(self), true),
    {
        self.step(true)
    }

    /// Steps forward one change. Returns false when there is nothing to redo.
    pub fn redo(&mut self) -> (r: AppResult<bool>)
        requires
            old(self).wf(),
        ensures
            final(self).wf(),
            r == Ok::<bool, AppError>(false) <==> old(self).redo_states().len() == 0,
            r == Ok::<bool, AppError>(false) ==> *final(self) == *old(self),
            r == Ok::<bool, AppError>(true) ==> old(self).stepped(&*final(self), false),
            r is Err ==> old(self).step_failed(&*final(self), false),
    {
        self.step(false)
    }

    fn step(&mut self, backwards: bool) -> (r: AppResult<bool>)
        requires
            old(self).wf(),
        ensures
            final(self).wf(),
            r == Ok::<bool, AppError>(false) <==> (if backwards {
                old(self).undo_states().len() == 0
            } else {
                old(self).redo_states().len() == 0
            }),
            r == Ok::<bool, AppError>(false) ==> *final(self) == *old(self),
            r == Ok::<bool, AppError>(true) ==> old(self).stepped(&*final(self), backwards),
            r is Err ==> old(self).step_failed(&*final(self), backwards),
    {
        let ghost undo_before = self.undo_states();
        let ghost redo_before = self.redo_states();
        let nothing_there = if backwards {
            self.undo.is_empty()
        } else {
            self.redo.is_empty()
        };
        if nothing_there {
            return Ok(false);
        }
        let popped = if backwards {
            self.undo.pop()
        } else {
            self.redo.pop()
        };
        let target = match popped {
            Some(target) => target,
            None => return Ok(false),
        };
        assert(self.undo_states() =~= if backwards {
            undo_before.drop_last()
        } else {
            undo_before
        });
        assert(self.redo_states() =~= if backwards {
            redo_before
        } else {
            redo_before.drop_last()
        });

        let ghost doc_before = self.doc;
        assert(target@ == if backwards {
            undo_before.last()
        } else {
            redo_before.last()
        });
        // Keep the state being left behind, so the move can be reversed.
        let current = match serialize(&mut self.doc) {
            Ok(current) => current,
            Err(error) => return Err(AppError::Io(error)),
        };
        let restored = match load(&target) {
            Ok(restored) => restored,
            Err(error) => return Err(AppError::Pdf(error)),
        };

        let ghost left = current.deep_view();
        assert(left =~= current@);
        assert(pdf_bytes(doc_before) == Some(left));
        if backwards {
            self.redo.push(current);
            assert(self.redo_states() =~= redo_before.push(left));
            assert(redo_before.push(left).drop_last() =~= redo_before);
        } else {
            self.undo.push(current);
            assert(self.undo_states() =~= undo_before.push(left));
            assert(undo_before.push(left).drop_last() =~= undo_before);
        }

        self.doc = restored;
        self.revision = self.revision.wrapping_add(1);
        self.serialized = None;
        // Whatever gesture was in progress is over; the next change starts a
        // step of its own rather than merging into the one just restored.
        self.last_step = None;
        self.refresh_dirty();
        Ok(true)
    }

    /// Returns the document serialized to PDF bytes for rendering and
    /// printing, reusing the cache when nothing has changed since the last
    /// call.
    ///
    /// The serialization runs on a copy, so [`Self::doc`] — and therefore
    /// every saved file — is left exactly as it was. Form fields stay live:
    /// their appearances are not flattened into the page content.
    pub fn bytes(&mut self) -> (r: AppResult<&[u8]>)
        ensures
            final(self).doc == old(self).doc,
            final(self).undo == old(self).undo,
            final(self).redo == old(self).redo,
            final(self).saved_at == old(self).saved_at,
            final(self).last_step == old(self).last_step,
            final(self).revision == old(self).revision,
            final(self).dirty == old(self).dirty,
            final(self).id == old(self).id,
            final(self).path == old(self).path,
            // A cache for the current revision is reused as it is.
            old(self).cached() is Some && old(self).cached().unwrap().0 == old(self).revision ==> {
                &&& final(self).serialized == old(self).serialized
                &&& r is Ok
                &&& r.unwrap()@ == old(self).cached().unwrap().1
            },
            // Otherwise the document is written out afresh: the bytes are its
            // serialization, owed whenever it can be written, and they become
            // the cache for this revision.
            !(old(self).cached() is Some && old(self).cached().unwrap().0 == old(self).revision) ==> match pdf_bytes(
                old(self).doc,
            ) {
                Some(written) => r is Ok && r.unwrap()@ == written,
                None => r is Err,
            },
            r matches Ok(out) ==> final(self).cached() == Some((old(self).revision, out@)),
            r is Err ==> final(self).serialized == old(self).serialized,
    {
        let fresh = match &self.serialized {
            Some((rev, _)) => *rev != self.revision,
            None => true,
        };
        if fresh {
            let mut copy = copy_document(&self.doc);
            let buffer = match serialize(&mut copy) {
                Ok(buffer) => buffer,
                Err(error) => return Err(AppError::Io(error)),
            };
            self.serialized = Some((self.revision, buffer));
        }
        match &self.serialized {
            Some((_, bytes)) => Ok(bytes.as_slice()),
            None => Err(AppError::NoDocument),
        }
    }

    /// The tab title: the file's name, or `Untitled.pdf` for a document that
    /// has never been saved.
    pub fn display_name(&self) -> (r: String)
        ensures
            self.path is None ==> r@ == "Untitled.pdf"@,
    {
        match &self.path {
            Some(path) => match file_name_of(path.as_str()) {
                Some(name) => name,
                None => String::from_str("Untitled.pdf"),
            },
            None => String::from_str("Untitled.pdf"),
        }
    }

    /// Whether the history holds a step to go back to.
    pub fn can_undo(&self) -> (r: bool)
        ensures
            r == (self.undo_states().len() > 0),
    {
        !self.undo.is_empty()
    }

    /// Whether the history holds a step to go forward to.
    pub fn can_redo(&self) -> (r: bool)
        ensures
            r == (self.redo_states().len() > 0),
    {
        !self.redo.is_empty()
    }

    /// Records that the file on disk now matches this state.
    pub fn mark_saved(&mut self)
        ensures
            final(self).saved_position() == Some(old(self).undo_states().len() as usize),
            !final(self).dirty,
            final(self).undo_states() == old(self).undo_states(),
            final(self).redo_states() == old(self).redo_states(),
            final(self).revision == old(self).revision,
            final(self).id == old(self).id,
            final(self).path == old(self).path,
            final(self).cached() == old(self).cached(),
            final(self).gesture() == old(self).gesture(),
    {
        self.saved_at = Some(self.undo.len());
        self.dirty = false;
    }

    fn refresh_dirty(&mut self)
        ensures
            final(self).dirty == unsaved(old(self).saved_at, old(self).undo_states().len()),
            final(self).undo == old(self).undo,
            final(self).redo == old(self).redo,
            final(self).saved_at == old(self).saved_at,
            final(self).revision == old(self).revision,
            final(self).id == old(self).id,
            final(self).path == old(self).path,
            final(self).doc == old(self).doc,
            final(self).serialized == old(self).serialized,
            final(self).last_step == old(self).last_step,
    {
        self.dirty = match self.saved_at {
            Some(at) => at != self.undo.len(),
            None => true,
        };
    }

    /// Records a mutation. Call this after every edit: it bumps the revision,
    /// drops the serialized cache, and recomputes the unsaved marker.
    pub fn touch(&mut self)
        ensures
            final(self).revision == next_revision(old(self).revision),
            final(self).cached() is None,
            final(self).dirty == unsaved(old(self).saved_position(), old(self).undo_states().len()),
            final(self).undo_states() == old(self).undo_states(),
            final(self).redo_states() == old(self).redo_states(),
            final(self).saved_position() == old(self).saved_position(),
            final(self).id == old(self).id,
            final(self).path == old(self).path,
            final(self).doc == old(self).doc,
            final(self).gesture() == old(self).gesture(),
    {
        self.revision = self.revision.wrapping_add(1);
        self.serialized = None;
        self.refresh_dirty();
    }
}

} // verus!

verus! {

/// Every open document, in tab order, and which one is showing.
pub struct Workspace {
    open: Vec<DocumentSession>,
    active: Option<DocumentId>,
    next_id: DocumentId,
}

/// The ids of `sessions`, in tab order.
pub open spec fn ids_of(sessions: Seq<DocumentSession>) -> Seq<DocumentId> {
    sessions.map_values(|session: DocumentSession| session.id)
}

/// Whether the session holds the document at `path`.
pub open spec fn shows_path(session: DocumentSession, path: Seq<char>) -> bool {
    session.path matches Some(p) && p@ == path
}

impl Workspace {
    /// The open sessions, in tab order.
    pub closed spec fn sessions(&self) -> Seq<DocumentSession> {
        self.open@
    }

    /// The tab that is showing, if any.
    pub closed spec fn active_tab(&self) -> Option<DocumentId> {
        self.active
    }

    /// The largest id handed out so far (0 before the first).
    pub closed spec fn last_issued(&self) -> DocumentId {
        self.next_id
    }

    pub open spec fn ids(&self) -> Seq<DocumentId> {
        ids_of(self.sessions())
    }

    /// Well-formedness: ids rise strictly in tab order (so no two tabs share
    /// one), none exceeds the last id issued, the active tab is one of the
    /// open ones and exists exactly when some tab is open, and every session's
    /// history is within bounds.
    pub open spec fn wf(&self) -> bool {
        &&& forall|i: int, j: int|
            0 <= i < j < self.ids().len() ==> #[trigger] self.ids()[i] < #[trigger] self.ids()[j]
        &&& forall|i: int| 0 <= i < self.ids().len() ==> 0 < #[trigger] self.ids()[i] <= self.last_issued()
        &&& (self.active_tab() is None <==> self.sessions().len() == 0)
        &&& (self.active_tab() matches Some(a) ==> self.ids().contains(a))
        &&& forall|i: int| 0 <= i < self.sessions().len() ==> #[trigger] self.sessions()[i].wf()
    }

    /// Position of the tab with `id`, if it is open.
    pub open spec fn index_of(&self, id: DocumentId) -> int {
        self.ids().index_of(id)
    }

    /// The empty workspace: no tabs, nothing active, no id issued yet.
    pub fn new() -> (w: Self)
        ensures
            w.wf(),
            w.sessions().len() == 0,
            w.active_tab() is None,
            w.last_issued() == 0,
    {
        Workspace { open: Vec::new(), active: None, next_id: 0 }
    }

    /// Adds a document as a new tab and makes it active. Returns its id.
    pub fn open(&mut self, doc: lopdf::Document, path: Option<String>) -> (id: DocumentId)
        requires
            old(self).wf(),
            old(self).last_issued() < u64::MAX,
        ensures
            final(self).wf(),
            id == old(self).last_issued() + 1,
            final(self).last_issued() == id,
            final(self).active_tab() == Some(id),
            final(self).sessions().len() == old(self).sessions().len() + 1,
            final(self).sessions().drop_last() == old(self).sessions(),
            final(self).sessions().last().id == id,
            final(self).sessions().last().doc == doc,
            final(self).sessions().last().path == path,
            !final(self).sessions().last().dirty,
            final(self).sessions().last().revision == 1,
            final(self).sessions().last().undo@.len() == 0,
            final(self).sessions().last().redo@.len() == 0,
            // A fresh id exceeds every id that was ever open.
            forall|i: int| 0 <= i < old(self).ids().len() ==> old(self).ids()[i] < id,
    {
        self.next_id = self.next_id + 1;
        let id = self.next_id;
        let ghost before = self.open@;
        self.open.push(DocumentSession::new(id, doc, path));
        assert(self.open@.drop_last() =~= before);
        assert(ids_of(self.open@) =~= ids_of(before).push(id));
        self.active = Some(id);
        assert(self.ids()[self.ids().len() - 1] == id);
        id
    }

    /// Finds the first tab already showing `path`, if any.
    ///
    /// Opening the same file twice would give two independent models of one
    /// file on disk, whose saves would silently overwrite each other.
    pub fn find_by_path(&self, path: &str) -> (r: Option<DocumentId>)
        ensures
            match r {
                Some(id) => exists|i: int|
                    0 <= i < self.sessions().len() && self.sessions()[i].id == id && shows_path(
                        self.sessions()[i],
                        path@,
                    ) && forall|j: int| 0 <= j < i ==> !shows_path(self.sessions()[j], path@),
                None => forall|i: int|
                    0 <= i < self.sessions().len() ==> !shows_path(self.sessions()[i], path@),
            },
    {
        let mut index: usize = 0;
        while index < self.open.len()
            invariant
                0 <= index <= self.open@.len(),
                forall|j: int| 0 <= j < index ==> !shows_path(self.open@[j], path@),
            decreases self.open@.len() - index,
        {
            let matched = match &self.open[index].path {
                Some(stored) => crate::pdf::forms::same_text_of(stored.as_str(), path),
                None => false,
            };
            if matched {
                assert(shows_path(self.open@[index as int], path@));
                assert(0 <= index < self.sessions().len() && self.sessions()[index as int].id
                    == self.open@[index as int].id && shows_path(self.sessions()[index as int], path@)
                    && forall|j: int| 0 <= j < index ==> !shows_path(self.sessions()[j], path@));
                return Some(self.open[index].id);
            }
            index = index + 1;
        }
        None
    }

    /// Position of the tab with `id`, or `None` when no tab has it.
    fn position(&self, id: DocumentId) -> (r: Option<usize>)
        ensures
            match r {
                Some(i) => i < self.sessions().len() && self.sessions()[i as int].id == id,
                None => !self.ids().contains(id),
            },
    {
        let mut index: usize = 0;
        while index < self.open.len()
            invariant
                0 <= index <= self.open@.len(),
                forall|j: int| 0 <= j < index ==> self.open@[j].id != id,
            decreases self.open@.len() - index,
        {
            if self.open[index].id == id {
                return Some(index);
            }
            index = index + 1;
        }
        assert forall|j: int| 0 <= j < self.ids().len() implies self.ids()[j] != id by {}
        None
    }

    /// Makes the tab with `id` the active one. Refused (false, nothing
    /// changes) when no tab has that id.
    pub fn activate(&mut self, id: DocumentId) -> (r: bool)
        requires
            old(self).wf(),
        ensures
            final(self).wf(),
            r == old(self).ids().contains(id),
            final(self).sessions() == old(self).sessions(),
            final(self).last_issued() == old(self).last_issued(),
            final(self).active_tab() == if r {
                Some(id)
            } else {
                old(self).active_tab()
            },
    {
        match self.position(id) {
            Some(index) => {
                assert(self.ids()[index as int] == id);
                self.active = Some(id);
                true
            },
            None => false,
        }
    }

    /// Closes a tab and returns the id that became active, if any.
    ///
    /// Closing the active tab focuses its right neighbour, or the new last tab
    /// when it was the last one; closing any other tab leaves focus alone.
    /// Closing an id that is not open changes nothing.
    pub fn close(&mut self, id: DocumentId) -> (r: Option<DocumentId>)
        requires
            old(self).wf(),
        ensures
            final(self).wf(),
            r == final(self).active_tab(),
            final(self).last_issued() == old(self).last_issued(),
            !old(self).ids().contains(id) ==> final(self).sessions() == old(self).sessions()
                && final(self).active_tab() == old(self).active_tab(),
            old(self).ids().contains(id) ==> {
                let index = old(self).index_of(id);
                &&& final(self).sessions() == old(self).sessions().remove(index)
                &&& final(self).active_tab() == if old(self).active_tab() != Some(id) {
                    old(self).active_tab()
                } else if index < final(self).sessions().len() {
                    Some(final(self).sessions()[index].id)
                } else if final(self).sessions().len() > 0 {
                    Some(final(self).sessions().last().id)
                } else {
                    None
                }
            },
    {
        let index = match self.position(id) {
            Some(index) => index,
            None => return self.active,
        };
        proof {
            // Ids are distinct, so the position found is the index of `id`.
            assert(self.ids()[index as int] == id);
            assert forall|j: int| 0 <= j < index implies self.ids()[j] != id by {
                assert(self.ids()[j] < self.ids()[index as int]);
            }
            let ids = self.ids();
            assert(ids.contains(id));
            let k = ids.index_of(id);
            assert(ids[k] == id);
            if k < index {
                assert(ids[k] < ids[index as int]);
            } else if k > index {
                assert(ids[index as int] < ids[k]);
            }
            assert(ids.index_of(id) == index);
        }
        let ghost before = self.open@;
        let ghost ids_before = self.ids();
        let ghost old_active = self.active;
        self.open.remove(index);
        assert(self.open@ =~= before.remove(index as int));
        proof { ids_before.remove_ensures(index as int); }
        assert(ids_of(self.open@) =~= ids_before.remove(index as int));

        if self.active == Some(id) {
            self.active = if index < self.open.len() {
                Some(self.open[index].id)
            } else if self.open.len() > 0 {
                Some(self.open[self.open.len() - 1].id)
            } else {
                None
            };
        }
        proof {
            let ids = self.ids();
            if old_active != Some(id) {
                if let Some(a) = old_active {
                    assert(ids_before.contains(a));
                    let k = ids_before.index_of(a);
                    assert(ids_before[k] == a);
                    if k < index {
                        assert(ids[k] == a);
                    } else {
                        assert(k != index);
                        assert(ids[k - 1] == a);
                    }
                    assert(ids.contains(a));
                }
            } else if index < ids.len() {
                assert(ids[index as int] == self.open@[index as int].id);
            } else if ids.len() > 0 {
                assert(ids[ids.len() - 1] == self.open@.last().id);
            }
            assert forall|i: int, j: int| 0 <= i < j < ids.len() implies #[trigger] ids[i]
                < #[trigger] ids[j] by {
                let oi = if i < index { i } else { i + 1 };
                let oj = if j < index { j } else { j + 1 };
                assert(ids[i] == ids_before[oi]);
                assert(ids[j] == ids_before[oj]);
            }
            assert forall|i: int| 0 <= i < ids.len() implies 0 < #[trigger] ids[i]
                <= self.last_issued() by {
                let oi = if i < index { i } else { i + 1 };
                assert(ids[i] == ids_before[oi]);
            }
            assert forall|i: int| 0 <= i < self.sessions().len() implies #[trigger] self.sessions()[i].wf() by {
                let oi = if i < index { i } else { i + 1 };
                assert(self.sessions()[i] == before[oi]);
            }
        }
        self.active
    }

    /// The session with `id`, for editing; `None` when no tab has that id.
    pub fn by_id_mut(&mut self, id: DocumentId) -> (r: Option<&mut DocumentSession>)
        requires
            old(self).wf(),
        ensures
            r is None <==> !old(self).ids().contains(id),
            r is None ==> *final(self) == *old(self),
            r matches Some(session) ==> {
                let index = old(self).index_of(id);
                &&& *session == old(self).sessions()[index]
                &&& final(self).sessions() == old(self).sessions().update(index, *final(session))
                &&& final(self).active_tab() == old(self).active_tab()
                &&& final(self).last_issued() == old(self).last_issued()
            },
    {
        match self.position(id) {
            Some(index) => {
                proof {
                    let ids = self.ids();
                    let k = ids.index_of(id);
                    assert(ids[index as int] == id);
                    assert(ids[k] == id);
                    if k < index {
                        assert(ids[k] < ids[index as int]);
                    } else if k > index {
                        assert(ids[index as int] < ids[k]);
                    }
                }
                Some(&mut self.open[index])
            },
            None => None,
        }
    }

    /// The active session, for editing; `None` when no tab is open.
    pub fn active_mut(&mut self) -> (r: Option<&mut DocumentSession>)
        requires
            old(self).wf(),
        ensures
            r is None <==> old(self).active_tab() is None,
            r is None ==> *final(self) == *old(self),
            r matches Some(session) ==> {
                let index = old(self).index_of(old(self).active_tab()->0);
                &&& *session == old(self).sessions()[index]
                &&& final(self).sessions() == old(self).sessions().update(index, *final(session))
                &&& final(self).active_tab() == old(self).active_tab()
                &&& final(self).last_issued() == old(self).last_issued()
            },
    {
        match self.active {
            Some(id) => self.by_id_mut(id),
            None => None,
        }
    }

    /// The tab that is showing, if any.
    pub fn active_id(&self) -> (r: Option<DocumentId>)
        ensures
            r == self.active_tab(),
    {
        self.active
    }

    pub fn is_empty(&self) -> (r: bool)
        ensures
            r == (self.sessions().len() == 0),
    {
        self.open.is_empty()
    }

    /// Every open session, in tab order.
    pub fn iter(&self) -> (r: std::slice::Iter<'_, DocumentSession>)
        ensures
            vstd::std_specs::slice::into_iter_elts(r) == self.sessions(),
    {
        let r = self.open.as_slice().iter();
        proof {
            broadcast use vstd::std_specs::slice::axiom_spec_slice_iter;
            assert(self.open@.as_ref().unref() =~= self.open@);
        }
        r
    }
}

impl Default for Workspace {
    fn default() -> (w: Self)
        ensures
            w.wf(),
            w.sessions().len() == 0,
            w.active_tab() is None,
            w.last_issued() == 0,
    {
        Workspace::new()
    }
}

} // verus!

verus! {

/// Ids are never reused: an id issued by a later `open` differs from every id
/// that was open at any earlier moment, because `open` issues one past the last
/// id issued and no operation ever lowers that counter.
pub proof fn law_ids_are_never_reused(earlier: Workspace, later: Workspace, seen: DocumentId)
    requires
        earlier.wf(),
        earlier.ids().contains(seen),
        later.last_issued() >= earlier.last_issued(),
    ensures
        seen != later.last_issued() + 1,
{
}

/// Across any run of workspace operations, each of which keeps the counter of
/// issued ids (`close`, `activate`, reaching a session) or raises it by one
/// (`open`), an id that was open at any moment is never issued again, and
/// every later id is larger than it.
pub proof fn law_ids_stay_fresh(states: Seq<Workspace>, moment: int, seen: DocumentId)
    requires
        0 <= moment < states.len(),
        states[moment].wf(),
        states[moment].ids().contains(seen),
        forall|k: int|
            0 < k < states.len() ==> #[trigger] states[k].last_issued() == states[k - 1].last_issued()
                || states[k].last_issued() == states[k - 1].last_issued() + 1,
    ensures
        forall|later: int| moment <= later < states.len() ==> seen < #[trigger] states[later].last_issued() + 1,
{
    assert forall|later: int| moment <= later < states.len() implies seen < #[trigger] states[later].last_issued() + 1 by {
        lemma_counter_never_falls(states, moment, later);
    }
}

/// The counter of issued ids never falls along such a run.
proof fn lemma_counter_never_falls(states: Seq<Workspace>, from: int, to: int)
    requires
        0 <= from <= to < states.len(),
        forall|k: int|
            0 < k < states.len() ==> #[trigger] states[k].last_issued() == states[k - 1].last_issued()
                || states[k].last_issued() == states[k - 1].last_issued() + 1,
    ensures
        states[from].last_issued() <= states[to].last_issued(),
    decreases to - from,
{
    if from < to {
        lemma_counter_never_falls(states, from, to - 1);
        assert(states[to].last_issued() == states[to - 1].last_issued() || states[to].last_issued() == states[to
            - 1].last_issued() + 1);
    }
}

/// `n` steps, as many as the history keeps.
pub open spec fn capped_depth(n: int) -> int {
    if n < HISTORY_DEPTH { n } else { HISTORY_DEPTH as int }
}

/// Recording one step onto a history `k` steps deep leaves it
/// `min(k + 1, HISTORY_DEPTH)` steps deep, with something to undo and nothing
/// to redo: an ordinary checkpoint never merges.
pub proof fn law_a_recorded_step_deepens_the_history(before: DocumentSession, after: DocumentSession)
    requires
        before.wf(),
        before.history_recorded(&after),
    ensures
        after.undo_states().len() == capped_depth(before.undo_states().len() + 1int),
        after.undo_states().len() > 0,
        after.redo_states().len() == 0,
{
    let snapshot = choose|snapshot: Seq<u8>| after.undo_states() == pushed_history(before.undo_states(), snapshot);
    assert(after.undo_states() == pushed_history(before.undo_states(), snapshot));
}

/// Along any run of recorded steps the history grows one step at a time until
/// it holds [`HISTORY_DEPTH`], and stays there: after `k` steps from a history
/// `d` steps deep it is `min(d + k, HISTORY_DEPTH)` deep.
pub proof fn law_history_is_bounded(states: Seq<DocumentSession>)
    requires
        states.len() > 0,
        states[0].wf(),
        forall|k: int| 0 < k < states.len() ==> #[trigger] states[k - 1].history_recorded(&states[k]),
    ensures
        forall|k: int|
            0 <= k < states.len() ==> #[trigger] states[k].undo_states().len() == capped_depth(
                states[0].undo_states().len() + k,
            ),
{
    assert forall|k: int| 0 <= k < states.len() implies #[trigger] states[k].undo_states().len()
        == capped_depth(states[0].undo_states().len() + k) by {
        lemma_recorded_run_depth(states, k);
    }
}

/// The depth after the first `k` steps of such a run, and that every state
/// along it stays within the bound.
proof fn lemma_recorded_run_depth(states: Seq<DocumentSession>, k: int)
    requires
        0 <= k < states.len(),
        states[0].wf(),
        forall|j: int| 0 < j < states.len() ==> #[trigger] states[j - 1].history_recorded(&states[j]),
    ensures
        states[k].undo_states().len() == capped_depth(states[0].undo_states().len() + k),
        states[k].wf(),
    decreases k,
{
    if k > 0 {
        lemma_recorded_run_depth(states, k - 1);
        assert(states[k - 1].history_recorded(&states[k]));
        law_a_recorded_step_deepens_the_history(states[k - 1], states[k]);
    }
}

/// Undoing and then redoing returns the history to the same position: the
/// redo stack is exactly as it was, the undo stack has the same states below
/// its top, the saved position is untouched and the unsaved marker is what it
/// was at that position, while the revision has moved on twice.
pub proof fn law_undo_then_redo_returns_to_the_same_position(
    start: DocumentSession,
    undone: DocumentSession,
    redone: DocumentSession,
)
    requires
        start.wf(),
        start.stepped(&undone, true),
        undone.stepped(&redone, false),
    ensures
        redone.redo_states() == start.redo_states(),
        redone.undo_states().len() == start.undo_states().len(),
        redone.undo_states().drop_last() == start.undo_states().drop_last(),
        redone.saved_position() == start.saved_position(),
        redone.dirty == unsaved(start.saved_position(), start.undo_states().len()),
        redone.revision != start.revision,
        redone.revision != undone.revision,
{
}

/// Undoing back to the state that was saved clears the unsaved marker: save,
/// record a step, edit, then undo, and nothing is unsaved.
pub proof fn law_undoing_back_to_the_saved_state_is_clean(
    saved: DocumentSession,
    recorded: DocumentSession,
    edited: DocumentSession,
    undone: DocumentSession,
)
    requires
        saved.wf(),
        saved.saved_position() == Some(saved.undo_states().len() as usize),
        saved.undo_states().len() < HISTORY_DEPTH,
        saved.history_recorded(&recorded),
        edited.undo_states() == recorded.undo_states(),
        edited.redo_states() == recorded.redo_states(),
        edited.saved_position() == recorded.saved_position(),
        edited.stepped(&undone, true),
    ensures
        !undone.dirty,
{
    let snapshot = choose|snapshot: Seq<u8>|
        recorded.undo_states() == pushed_history(saved.undo_states(), snapshot);
    assert(recorded.undo_states().len() == saved.undo_states().len() + 1);
}

/// Recording a step after undoing abandons the states that were ahead: redo
/// has nothing to go back to, whatever was on the redo stack before.
pub proof fn law_a_new_edit_discards_what_was_ahead(
    before: DocumentSession,
    after: DocumentSession,
)
    requires
        before.history_recorded(&after),
    ensures
        after.redo_states().len() == 0,
{
}

} // verus!
