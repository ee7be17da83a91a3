//! The open documents as a whole: which one is active after one closes, and
//! the steps of closing documents and quitting with unsaved changes.
use vstd::prelude::*;

verus! {

/// The active document after one of `remaining + 1` documents was closed:
/// none when no document is left, else the one that was active (the first
/// when none was), moved back within the remaining documents.
pub open spec fn active_after_close(active: Option<usize>, remaining: nat) -> Option<usize> {
    if remaining == 0 {
        None
    } else {
        let a = match active {
            Some(a) => a,
            None => 0,
        };
        Some(
            if a < remaining {
                a
            } else {
                (remaining - 1) as usize
            },
        )
    }
}

/// The active document after one was closed (see `active_after_close`).
pub fn active_after_remove(active: Option<usize>, remaining: usize) -> (r: Option<usize>)
    ensures
        r == active_after_close(active, remaining as nat),
{
    if remaining == 0 {
        return None;
    }
    let a = match active {
        Some(a) => a,
        None => 0,
    };
    Some(
        if a < remaining {
            a
        } else {
            remaining - 1
        },
    )
}

/// A close that waits for the user's answer about unsaved changes.
#[derive(Clone, Copy, Debug, PartialEq, Eq, Structural)]
pub struct PendingClose {
    pub index: usize,
    pub quitting: bool,
}

/// The user's answer about unsaved changes.
#[derive(Clone, Copy, Debug, PartialEq, Eq, Structural)]
pub enum CloseChoice {
    Save,
    Discard,
    Cancel,
}

/// What closing or quitting does next.
#[derive(Clone, Copy, Debug, PartialEq, Eq, Structural)]
pub enum CloseStep {
    /// Ask about the unsaved changes of this document.
    Ask(PendingClose),
    /// Close this document.
    Remove(usize),
    /// Nothing is unsaved: leave the program.
    Exit,
    /// Forget the pending close.
    Cancel,
    /// Keep waiting (a save failed).
    Stay,
    /// Mark this document as saved and go on quitting.
    DiscardAndQuit(usize),
    /// Go on quitting.
    ContinueQuit,
}

/// Closing the document at `index`, given whether it has unsaved changes
/// (none when there is no such document): ask first when it has, else close
/// it.
pub fn close_request(index: usize, dirty: Option<bool>) -> (r: CloseStep)
    ensures
        r == (if dirty == Some(true) {
            CloseStep::Ask(PendingClose { index, quitting: false })
        } else {
            CloseStep::Remove(index)
        }),
{
    match dirty {
        Some(true) => CloseStep::Ask(PendingClose { index, quitting: false }),
        _ => CloseStep::Remove(index),
    }
}

/// The first document with unsaved changes.
pub open spec fn first_dirty(dirty: Seq<bool>) -> Option<usize>
    decreases dirty.len(),
{
    if dirty.len() == 0 {
        None
    } else {
        match first_dirty(dirty.drop_last()) {
            Some(i) => Some(i),
            None => if dirty.last() {
                Some((dirty.len() - 1) as usize)
            } else {
                None
            },
        }
    }
}

/// Quitting, given which documents have unsaved changes: ask about the first
/// of them, else leave.
pub fn quit_request(dirty: &Vec<bool>) -> (r: CloseStep)
    ensures
        r == match first_dirty(dirty@) {
            Some(i) => CloseStep::Ask(PendingClose { index: i, quitting: true }),
            None => CloseStep::Exit,
        },
{
    let mut i: usize = 0;
    while i < dirty.len()
        invariant
            i <= dirty@.len(),
            first_dirty(dirty@.take(i as int)) is None,
        decreases dirty@.len() - i,
    {
        proof {
            assert(dirty@.take(i + 1).drop_last() =~= dirty@.take(i as int));
        }
        if dirty[i] {
            proof {
                lemma_first_dirty_prefix(dirty@, i as int);
            }
            return CloseStep::Ask(PendingClose { index: i, quitting: true });
        }
        i = i + 1;
    }
    proof {
        assert(dirty@.take(dirty@.len() as int) =~= dirty@);
    }
    CloseStep::Exit
}

/// The documents that Save All writes: those with unsaved changes, in tab
/// order.
pub open spec fn unsaved_indices(dirty: Seq<bool>) -> Seq<usize>
    decreases dirty.len(),
{
    if dirty.len() == 0 {
        seq![]
    } else if dirty.last() {
        unsaved_indices(dirty.drop_last()).push((dirty.len() - 1) as usize)
    } else {
        unsaved_indices(dirty.drop_last())
    }
}

/// Which documents Save All writes (see `unsaved_indices`).
pub fn save_all_targets(dirty: &Vec<bool>) -> (r: Vec<usize>)
    ensures
        r@ == unsaved_indices(dirty@),
{
    let mut out: Vec<usize> = Vec::new();
    let mut i: usize = 0;
    while i < dirty.len()
        invariant
            i <= dirty@.len(),
            out@ == unsaved_indices(dirty@.take(i as int)),
        decreases dirty@.len() - i,
    {
        proof {
            assert(dirty@.take(i + 1).drop_last() =~= dirty@.take(i as int));
        }
        if dirty[i] {
            out.push(i);
        }
        i = i + 1;
    }
    proof {
        assert(dirty@.take(dirty@.len() as int) =~= dirty@);
    }
    out
}

/// Law: Save All writes exactly the documents with unsaved changes, each
/// once, in tab order.
pub proof fn lemma_save_all_exactly_unsaved(dirty: Seq<bool>)
    requires
        dirty.len() <= usize::MAX,
    ensures
        forall|i: int| 0 <= i < dirty.len() ==> (dirty[i] <==> unsaved_indices(dirty).contains(i as usize)),
        forall|k: int| 0 <= k < unsaved_indices(dirty).len() ==> #[trigger] unsaved_indices(dirty)[k] < dirty.len(),
        forall|k: int, l: int|
            0 <= k < l < unsaved_indices(dirty).len() ==> unsaved_indices(dirty)[k] < unsaved_indices(dirty)[l],
    decreases dirty.len(),
{
    if dirty.len() > 0 {
        let p = dirty.drop_last();
        lemma_save_all_exactly_unsaved(p);
        let u = unsaved_indices(p);
        assert forall|i: int| 0 <= i < dirty.len() implies (dirty[i] <==> unsaved_indices(dirty).contains(
            i as usize,
        )) by {
            if i < p.len() {
                assert(p[i] == dirty[i]);
                if dirty.last() {
                    assert(unsaved_indices(dirty) == u.push((dirty.len() - 1) as usize));
                    if u.contains(i as usize) {
                        let k = choose|k: int| 0 <= k < u.len() && u[k] == i as usize;
                        assert(unsaved_indices(dirty)[k] == i as usize);
                    }
                    if unsaved_indices(dirty).contains(i as usize) {
                        let k = choose|k: int|
                            0 <= k < unsaved_indices(dirty).len() && unsaved_indices(dirty)[k] == i as usize;
                        if k < u.len() {
                            assert(u[k] == i as usize);
                        }
                    }
                }
            } else {
                if dirty.last() {
                    assert(unsaved_indices(dirty)[u.len() as int] == i as usize);
                } else {
                    if u.contains(i as usize) {
                        let k = choose|k: int| 0 <= k < u.len() && u[k] == i as usize;
                        assert(u[k] < p.len());
                    }
                }
            }
        }
    }
}

proof fn lemma_first_dirty_prefix(dirty: Seq<bool>, i: int)
    requires
        0 <= i < dirty.len(),
        dirty[i],
        first_dirty(dirty.take(i)) is None,
    ensures
        first_dirty(dirty) == Some(i as usize),
    decreases dirty.len(),
{
    if dirty.len() - 1 > i {
        assert(dirty.drop_last().take(i) =~= dirty.take(i));
        lemma_first_dirty_prefix(dirty.drop_last(), i);
    } else {
        assert(dirty.drop_last() =~= dirty.take(i));
    }
}

/// The next step after the user answered about a pending close. `saved`
/// says whether saving the document, when the answer asked for it,
/// succeeded: a failed save keeps waiting; a save or a discard closes the
/// document, or, when quitting, goes on quitting (a discard first marks the
/// document as saved); a cancel forgets the pending close.
pub open spec fn close_answer(pending: PendingClose, choice: CloseChoice, saved: bool) -> CloseStep {
    match choice {
        CloseChoice::Cancel => CloseStep::Cancel,
        CloseChoice::Save => if !saved {
            CloseStep::Stay
        } else if pending.quitting {
            CloseStep::ContinueQuit
        } else {
            CloseStep::Remove(pending.index)
        },
        CloseChoice::Discard => if pending.quitting {
            CloseStep::DiscardAndQuit(pending.index)
        } else {
            CloseStep::Remove(pending.index)
        },
    }
}

/// The next step after the user answered about a pending close (see
/// `close_answer`).
pub fn close_choice(pending: PendingClose, choice: CloseChoice, saved: bool) -> (r: CloseStep)
    ensures
        r == close_answer(pending, choice, saved),
{
    match choice {
        CloseChoice::Cancel => CloseStep::Cancel,
        CloseChoice::Save => if !saved {
            CloseStep::Stay
        } else if pending.quitting {
            CloseStep::ContinueQuit
        } else {
            CloseStep::Remove(pending.index)
        },
        CloseChoice::Discard => if pending.quitting {
            CloseStep::DiscardAndQuit(pending.index)
        } else {
            CloseStep::Remove(pending.index)
        },
    }
}

/// Law: quitting while a document has unsaved changes asks about a document
/// that has them; the program leaves only when none has.
pub proof fn lemma_quit_protects_unsaved(dirty: Seq<bool>)
    requires
        dirty.len() <= usize::MAX,
    ensures
        first_dirty(dirty) matches Some(k) ==> k < dirty.len() && dirty[k as int],
        first_dirty(dirty) is None ==> forall|i: int| 0 <= i < dirty.len() ==> !dirty[i],
    decreases dirty.len(),
{
    if dirty.len() > 0 {
        let prefix = dirty.drop_last();
        lemma_quit_protects_unsaved(prefix);
        assert(dirty.last() == dirty[dirty.len() - 1]);
        match first_dirty(prefix) {
            Some(k) => {
                assert(prefix[k as int] == dirty[k as int]);
            },
            None => {
                assert forall|i: int| 0 <= i < dirty.len() - 1 implies !dirty[i] by {
                    assert(prefix[i] == dirty[i]);
                }
            },
        }
    }
}

/// Law: a pending close removes its document only after the user saved it
/// successfully or chose to discard its changes, and a quit goes on only in
/// the same two cases.
pub proof fn lemma_close_needs_save_or_discard(pending: PendingClose, choice: CloseChoice, saved: bool)
    ensures
        close_answer(pending, choice, saved) is Remove || close_answer(pending, choice, saved) is ContinueQuit
            || close_answer(pending, choice, saved) is DiscardAndQuit ==> (choice == CloseChoice::Save && saved)
            || choice == CloseChoice::Discard,
{
}

} // verus!
