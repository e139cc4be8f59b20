//! Field drafts of the resource workbench. A draft holds typed text until a
//! worker edit acknowledges its revision; every rebuild either rebases it on
//! the new document or marks it as conflicting. Reading the document is the
//! caller's part: these functions take what it read.

use vstd::prelude::*;

verus! {

/// What a draft remembers about the bytes it edits.
pub struct Draft {
    /// The text typed into the field.
    pub text: String,
    /// The bytes the text was written against.
    pub original: Vec<u8>,
    /// The revision a submitted edit must carry to acknowledge this text.
    pub revision: u64,
    /// Whether the text waits for submission.
    pub pending: bool,
    /// Whether the bytes changed under the draft.
    pub conflicted: bool,
    pub error: String,
}

/// The revision after `r`, wrapping as the counter does.
pub open spec fn next_revision(r: u64) -> u64 {
    if r == u64::MAX { 0 } else { (r + 1) as u64 }
}

fn advance(r: u64) -> (n: u64)
    ensures
        n == next_revision(r),
{
    r.wrapping_add(1)
}

impl Draft {
    /// A draft of the field as read: `text` shown for `original` bytes.
    pub fn new(text: String, original: Vec<u8>) -> (r: Draft)
        ensures
            r.text@ == text@,
            r.original@ == original@,
            r.revision == 0,
            !r.pending && !r.conflicted && r.error@.len() == 0,
    {
        Draft { text, original, revision: 0, pending: false, conflicted: false, error: String::new() }
    }

    /// The text changed: a new revision waits for submission, and an error
    /// clears unless the draft conflicts.
    pub fn change(&mut self, text: String)
        ensures
            final(self).text@ == text@,
            final(self).original@ == old(self).original@,
            final(self).revision == next_revision(old(self).revision),
            final(self).pending,
            final(self).conflicted == old(self).conflicted,
            old(self).conflicted ==> final(self).error@ == old(self).error@,
            !old(self).conflicted ==> final(self).error@.len() == 0,
    {
        self.text = text;
        self.revision = advance(self.revision);
        self.pending = true;
        if !self.conflicted {
            self.error = String::new();
        }
    }

    /// Withdraws the text: `reread` is the field read again from the current
    /// document (its text and bytes), or why it could not be. Either way the
    /// revision moves on, so an edit in flight cannot acknowledge it.
    pub fn reset(&mut self, reread: Result<(String, Vec<u8>), String>)
        ensures
            final(self).revision == next_revision(old(self).revision),
            !final(self).pending,
            reread matches Ok(fresh) ==> final(self).text@ == fresh.0@ && final(self).original@ == fresh.1@
                && !final(self).conflicted && final(self).error@.len() == 0,
            reread matches Err(e) ==> final(self).text@ == old(self).text@ && final(self).original@ == old(self).original@
                && final(self).conflicted && final(self).error@ == e@,
    {
        let revision = advance(self.revision);
        match reread {
            Ok((text, original)) => {
                self.text = text;
                self.original = original;
                self.conflicted = false;
                self.error = String::new();
            },
            Err(error) => {
                self.error = error;
                self.conflicted = true;
            },
        }
        self.pending = false;
        self.revision = revision;
    }

    /// A rebuild finished; `submitted` is the revision it carried for this
    /// draft. Returns whether the draft still waits.
    pub fn acknowledge(&mut self, submitted: Option<u64>) -> (waiting: bool)
        ensures
            waiting == final(self).pending,
            final(self).pending == (old(self).pending && submitted != Some(old(self).revision)),
            final(self).revision == old(self).revision,
            final(self).text@ == old(self).text@,
            final(self).original@ == old(self).original@,
            final(self).conflicted == old(self).conflicted,
            final(self).error@ == old(self).error@,
    {
        if submitted == Some(self.revision) {
            self.pending = false;
        }
        self.pending
    }

    /// Rebases a waiting draft on the rebuilt document, whose bytes for the
    /// field are `current`. It follows an edit it submitted, or bytes that
    /// did not change; otherwise it conflicts and says so with `conflict`.
    pub fn rebase(&mut self, current: Result<Vec<u8>, String>, submitted: bool, conflict: &str) -> (r: Result<(), String>)
        ensures
            final(self).revision == old(self).revision,
            final(self).pending == old(self).pending,
            final(self).text@ == old(self).text@,
            final(self).error@ == old(self).error@,
            (current matches Ok(bytes) && (submitted || bytes@ == old(self).original@)) ==> r is Ok && final(self).original@
                == current->Ok_0@ && final(self).conflicted == old(self).conflicted,
            !(current matches Ok(bytes) && (submitted || bytes@ == old(self).original@)) ==> (r matches Err(m) && m@
                == conflict@) && final(self).original@ == old(self).original@ && final(self).conflicted,
    {
        match current {
            Ok(bytes) => {
                if submitted || same_bytes(&bytes, &self.original) {
                    self.original = bytes;
                    return Ok(());
                }
            },
            Err(_) => {},
        }
        self.conflicted = true;
        Err(conflict.to_owned())
    }
}

/// Whether two byte runs are equal.
pub fn same_bytes(a: &Vec<u8>, b: &Vec<u8>) -> (r: bool)
    ensures
        r == (a@ == b@),
{
    if a.len() != b.len() {
        return false;
    }
    let mut i: usize = 0;
    while i < a.len()
        invariant
            i <= a@.len(),
            a@.len() == b@.len(),
            forall|k: int| 0 <= k < i ==> a@[k] == b@[k],
        decreases a@.len() - i,
    {
        if a[i] != b[i] {
            return false;
        }
        i = i + 1;
    }
    proof {
        assert(a@ =~= b@);
    }
    true
}

/// The revision submitted for draft `index`: the first entry naming it.
pub open spec fn submitted_for(submitted: Seq<(usize, u64)>, index: usize) -> Option<u64>
    decreases submitted.len(),
{
    if submitted.len() == 0 {
        None
    } else if submitted[0].0 == index {
        Some(submitted[0].1)
    } else {
        submitted_for(submitted.drop_first(), index)
    }
}

/// Looks up the revision submitted for draft `index`.
pub fn submitted_revision(submitted: &Vec<(usize, u64)>, index: usize) -> (r: Option<u64>)
    ensures
        r == submitted_for(submitted@, index),
{
    let mut i: usize = 0;
    assert(submitted@.skip(0) =~= submitted@);
    while i < submitted.len()
        invariant
            i <= submitted@.len(),
            submitted_for(submitted@, index) == submitted_for(submitted@.skip(i as int), index),
        decreases submitted@.len() - i,
    {
        proof {
            assert(submitted@.skip(i as int).drop_first() =~= submitted@.skip(i as int + 1));
        }
        if submitted[i].0 == index {
            return Some(submitted[i].1);
        }
        i = i + 1;
    }
    None
}

/// Whether some draft waits for submission.
pub fn any_pending(drafts: &Vec<Draft>) -> (r: bool)
    ensures
        r == exists|i: int| 0 <= i < drafts@.len() && (#[trigger] drafts@[i]).pending,
{
    let mut i: usize = 0;
    while i < drafts.len()
        invariant
            i <= drafts@.len(),
            forall|k: int| 0 <= k < i ==> !(#[trigger] drafts@[k]).pending,
        decreases drafts@.len() - i,
    {
        if drafts[i].pending {
            return true;
        }
        i = i + 1;
    }
    false
}

/// A failed rebuild: each draft whose submitted revision is still current
/// shows `error`; the others keep theirs.
pub fn fail_submitted(drafts: &mut Vec<Draft>, submitted: &Vec<(usize, u64)>, error: &str)
    ensures
        final(drafts)@.len() == old(drafts)@.len(),
        forall|i: int| 0 <= i < final(drafts)@.len() ==> {
            let d = #[trigger] final(drafts)@[i];
            let o = old(drafts)@[i];
            &&& d.revision == o.revision && d.pending == o.pending && d.conflicted == o.conflicted
            &&& d.text@ == o.text@ && d.original@ == o.original@
            &&& (exists|t: int| 0 <= t < submitted@.len() && submitted@[t].0 == i && submitted@[t].1 == o.revision)
                ==> d.error@ == error@
            &&& !(exists|t: int| 0 <= t < submitted@.len() && submitted@[t].0 == i && submitted@[t].1 == o.revision)
                ==> d.error@ == o.error@
        },
{
    let ghost before = drafts@;
    let mut t: usize = 0;
    while t < submitted.len()
        invariant
            t <= submitted@.len(),
            drafts@.len() == before.len(),
            forall|i: int| 0 <= i < drafts@.len() ==> {
                let d = #[trigger] drafts@[i];
                let o = before[i];
                &&& d.revision == o.revision && d.pending == o.pending && d.conflicted == o.conflicted
                &&& d.text@ == o.text@ && d.original@ == o.original@
                &&& (exists|u: int| 0 <= u < t && submitted@[u].0 == i && submitted@[u].1 == o.revision) ==> d.error@
                    == error@
                &&& !(exists|u: int| 0 <= u < t && submitted@[u].0 == i && submitted@[u].1 == o.revision) ==> d.error@
                    == o.error@
            },
        decreases submitted@.len() - t,
    {
        let (index, revision) = submitted[t];
        let ghost mid = drafts@;
        if index < drafts.len() && drafts[index].revision == revision {
            let mut d = drafts.remove(index);
            d.error = error.to_owned();
            drafts.insert(index, d);
            proof {
                assert forall|i: int| 0 <= i < drafts@.len() && i != index implies drafts@[i] == mid[i] by {
                    if i < index {
                        assert(drafts@[i] == mid[i]);
                    } else {
                        assert(drafts@[i] == mid[i]);
                    }
                }
            }
        }
        proof {
            assert forall|i: int| 0 <= i < drafts@.len() implies {
                let d = #[trigger] drafts@[i];
                let o = before[i];
                &&& d.revision == o.revision && d.pending == o.pending && d.conflicted == o.conflicted
                &&& d.text@ == o.text@ && d.original@ == o.original@
                &&& (exists|u: int| 0 <= u < t + 1 && submitted@[u].0 == i && submitted@[u].1 == o.revision) ==> d.error@
                    == error@
                &&& !(exists|u: int| 0 <= u < t + 1 && submitted@[u].0 == i && submitted@[u].1 == o.revision) ==> d.error@
                    == o.error@
            } by {
                if i != index || !(index < mid.len() && mid[index as int].revision == revision) {
                    if exists|u: int| 0 <= u < t + 1 && submitted@[u].0 == i && submitted@[u].1 == before[i].revision {
                        let u = choose|u: int| 0 <= u < t + 1 && submitted@[u].0 == i && submitted@[u].1 == before[i].revision;
                        if u == t {
                            assert(submitted@[t as int] == (index, revision));
                        }
                    }
                } else {
                    assert(submitted@[t as int] == (index, revision));
                }
            }
        }
        t = t + 1;
    }
}

/// What the undo and redo buttons do.
#[derive(Clone, Copy, Debug, PartialEq, Eq, Structural)]
pub enum HistoryStep {
    /// No document, or no editing session for it.
    Nothing,
    /// Undo withdraws the waiting drafts first.
    Withdraw,
    Undo,
    Redo,
}

/// Chooses the history step: undo first withdraws waiting drafts; only then
/// does it, or redo, move through the session's revisions.
pub fn history_step(has_path: bool, redo: bool, pending: bool, has_session: bool) -> (r: HistoryStep)
    ensures
        r == (if !has_path {
            HistoryStep::Nothing
        } else if !redo && pending {
            HistoryStep::Withdraw
        } else if !has_session {
            HistoryStep::Nothing
        } else if redo {
            HistoryStep::Redo
        } else {
            HistoryStep::Undo
        }),
{
    if !has_path {
        HistoryStep::Nothing
    } else if !redo && pending {
        HistoryStep::Withdraw
    } else if !has_session {
        HistoryStep::Nothing
    } else if redo {
        HistoryStep::Redo
    } else {
        HistoryStep::Undo
    }
}

/// Whether switching documents forgets the previous one's session: only an
/// unchanged session with nothing to undo or redo and no waiting draft.
pub fn forget_previous(has_session: bool, dirty: bool, can_undo: bool, can_redo: bool, pending: bool) -> (r: bool)
    ensures
        r == (has_session && !dirty && !can_undo && !can_redo && !pending),
{
    has_session && !dirty && !can_undo && !can_redo && !pending
}

/// Withdrawing a draft never gives it back a revision that an edit in
/// flight carries: within fewer than 2^64 steps, each of which moves the
/// revision on by one, the revision differs from the one submitted.
pub proof fn withdrawn_revisions_are_fresh(submitted: u64, steps: nat)
    requires
        0 < steps < 0x1_0000_0000_0000_0000,
    ensures
        advanced(submitted, steps) != submitted,
    decreases steps,
{
    lemma_advanced(submitted, steps);
}

/// The revision after `steps` moves from `r`.
pub open spec fn advanced(r: u64, steps: nat) -> u64
    decreases steps,
{
    if steps == 0 { r } else { next_revision(advanced(r, (steps - 1) as nat)) }
}

proof fn lemma_advanced(r: u64, steps: nat)
    requires
        steps < 0x1_0000_0000_0000_0000,
    ensures
        advanced(r, steps) as int == (r + steps) % 0x1_0000_0000_0000_0000,
    decreases steps,
{
    if steps > 0 {
        lemma_advanced(r, (steps - 1) as nat);
    }
}

/// How a flush of drafts begins.
#[derive(Clone, Copy, Debug, PartialEq, Eq, Structural)]
pub enum FlushStart {
    /// A rebuild runs and no pack waits for it: do nothing now.
    Skip,
    /// Typing may go on: flush after this many milliseconds.
    Wait(u64),
    /// Flush now.
    Go,
}

/// The pause after the last input before drafts are flushed, in
/// milliseconds.
pub const FLUSH_DELAY_MS: u64 = 150;

/// Starts a flush. `since_input` is the time since the last input (or, while
/// a pointer button is held, since the last dispatch), if there was input.
/// A pack or a pending switch of documents does not wait.
pub fn flush_start(busy: bool, pack_after_edits: bool, switching: bool, since_input: Option<u64>) -> (r: FlushStart)
    ensures
        busy && !pack_after_edits ==> r == FlushStart::Skip,
        !(busy && !pack_after_edits) ==> r == (match since_input {
            Some(elapsed) => if elapsed < FLUSH_DELAY_MS && !pack_after_edits && !switching {
                FlushStart::Wait((FLUSH_DELAY_MS - elapsed) as u64)
            } else {
                FlushStart::Go
            },
            None => FlushStart::Go,
        }),
{
    if busy && !pack_after_edits {
        return FlushStart::Skip;
    }
    match since_input {
        Some(elapsed) => {
            let delay = FLUSH_DELAY_MS.saturating_sub(elapsed);
            if delay != 0 && !pack_after_edits && !switching {
                FlushStart::Wait(delay)
            } else {
                FlushStart::Go
            }
        },
        None => FlushStart::Go,
    }
}

/// Whether a flush writes this draft: it waits, is valid, and either the
/// flush is forced (a pack or a switch of documents) or its field has lost
/// focus.
pub fn flush_wants(draft: &Draft, forced: bool, focused: bool) -> (r: bool)
    ensures
        r == (draft.pending && draft.error@.len() == 0 && (forced || !focused)),
{
    draft.pending && draft.error.as_str().is_empty() && (forced || !focused)
}

impl Draft {
    /// Records writing the draft's text to the current document: `written`
    /// is whether that produced a patch, or why writing failed. A patch is
    /// submitted with the draft's revision; text that changes nothing stops
    /// waiting unless a rebuild runs. Returns the revision to submit.
    pub fn record_write(&mut self, written: Result<bool, String>, busy: bool) -> (r: Option<u64>)
        ensures
            final(self).revision == old(self).revision,
            final(self).text@ == old(self).text@,
            final(self).original@ == old(self).original@,
            final(self).conflicted == old(self).conflicted,
            written == Ok::<bool, String>(true) ==> r == Some(old(self).revision) && final(self).pending == old(self).pending
                && final(self).error@ == old(self).error@,
            written == Ok::<bool, String>(false) ==> r is None && final(self).pending == (old(self).pending && busy)
                && final(self).error@ == old(self).error@,
            written matches Err(e) ==> r is None && final(self).pending == old(self).pending && final(self).error@ == e@,
    {
        match written {
            Ok(true) => Some(self.revision),
            Ok(false) => {
                if !busy {
                    self.pending = false;
                }
                None
            },
            Err(error) => {
                self.error = error;
                None
            },
        }
    }
}

/// Whether some waiting draft failed validation, which blocks a pack.
pub fn pack_blocked(drafts: &Vec<Draft>) -> (r: bool)
    ensures
        r == exists|i: int| 0 <= i < drafts@.len() && (#[trigger] drafts@[i]).pending && drafts@[i].error@.len() > 0,
{
    let mut i: usize = 0;
    while i < drafts.len()
        invariant
            i <= drafts@.len(),
            forall|k: int| 0 <= k < i ==> !((#[trigger] drafts@[k]).pending && drafts@[k].error@.len() > 0),
        decreases drafts@.len() - i,
    {
        if drafts[i].pending && !drafts[i].error.as_str().is_empty() {
            return true;
        }
        i = i + 1;
    }
    false
}

/// How a flush ends once its drafts were written.
#[derive(Clone, Copy, Debug, PartialEq, Eq, Structural)]
pub enum FlushEnd {
    /// A rebuild already runs: the patches wait for the next flush.
    Hold,
    /// Send the patches to the worker as one rebuild.
    Dispatch,
    /// Nothing to send: open the document that waits.
    Switch,
    /// Nothing to do.
    Idle,
}

/// Ends a flush: patches go out as one rebuild unless one runs already; a
/// waiting switch of documents happens only when nothing is sent.
pub fn flush_end(busy: bool, has_patches: bool, switching: bool) -> (r: FlushEnd)
    ensures
        r == (if busy {
            FlushEnd::Hold
        } else if has_patches {
            FlushEnd::Dispatch
        } else if switching {
            FlushEnd::Switch
        } else {
            FlushEnd::Idle
        }),
{
    if busy {
        FlushEnd::Hold
    } else if has_patches {
        FlushEnd::Dispatch
    } else if switching {
        FlushEnd::Switch
    } else {
        FlushEnd::Idle
    }
}

} // verus!
