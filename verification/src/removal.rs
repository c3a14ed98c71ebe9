//! One removal run: its progress from directory to directory and its tally.

use vstd::prelude::*;

use crate::candidate;
use crate::candidate::Candidate;
use crate::path;
use crate::safety;
use crate::safety::Location;

verus! {

/// What a removal run reports.
pub enum RemovalEvent {
    /// One directory was dealt with.
    Step {
        /// How many were dealt with, this one included.
        index: usize,
        /// How many there are.
        total: usize,
        candidate: Candidate,
        /// Why the directory is still there, if it is.
        error: Option<String>,
    },
    /// All were dealt with.
    Finished { deleted: usize, reclaimed: u64, errors: usize },
}

/// The counts of a removal run.
pub struct Tally {
    pub deleted: nat,
    pub reclaimed: nat,
    pub errors: nat,
}

/// The counts after attempts on the first targets, where `removed` says which
/// attempts succeeded.
pub open spec fn tally(targets: Seq<candidate::Entry>, removed: Seq<bool>) -> Tally
    decreases removed.len(),
{
    if removed.len() == 0 {
        Tally { deleted: 0, reclaimed: 0, errors: 0 }
    } else {
        let before = tally(targets, removed.drop_last());
        if removed.last() {
            Tally {
                deleted: before.deleted + 1,
                reclaimed: before.reclaimed + targets[removed.len() - 1].size,
                ..before
            }
        } else {
            Tally { errors: before.errors + 1, ..before }
        }
    }
}

/// The text of a failure, if there is one.
pub open spec fn failure(outcome: Result<(), String>) -> Option<Seq<char>> {
    match outcome {
        Ok(_) => None,
        Err(message) => Some(message@),
    }
}

/// A removal run between two attempts.
pub struct RemovalRun {
    targets: Vec<Candidate>,
    attempted: usize,
    deleted: usize,
    reclaimed: u64,
    errors: usize,
    permitted: bool,
}

impl RemovalRun {
    /// The directories to remove, in order.
    pub closed spec fn targets(&self) -> Seq<candidate::Entry> {
        candidate::entries(self.targets@)
    }

    /// The number of attempts made.
    pub closed spec fn attempted(&self) -> nat {
        self.attempted as nat
    }

    /// The counts so far.
    pub closed spec fn counts(&self) -> Tally {
        Tally {
            deleted: self.deleted as nat,
            reclaimed: self.reclaimed as nat,
            errors: self.errors as nat,
        }
    }

    /// Whether the next directory has been checked and may be deleted.
    pub closed spec fn permitted(&self) -> bool {
        self.permitted
    }

    /// What holds between attempts.
    pub open spec fn wf(&self) -> bool {
        &&& self.attempted() <= self.targets().len() <= usize::MAX
        &&& self.permitted() ==> self.attempted() < self.targets().len()
        &&& self.counts().deleted + self.counts().errors == self.attempted()
        &&& self.counts().reclaimed <= candidate::total_bytes(
            self.targets().take(self.attempted() as int),
        )
        &&& candidate::total_bytes(self.targets()) <= u64::MAX
    }

    /// Whether the run is where attempts with these outcomes lead.
    pub open spec fn has_seen(&self, removed: Seq<bool>) -> bool {
        &&& self.attempted() == removed.len()
        &&& self.counts() == tally(self.targets(), removed)
    }

    /// Whether `after` is this run after one more attempt, which failed for the
    /// reason given if there is one, and whether `event` reports it.
    pub open spec fn goes_on(
        &self,
        after: RemovalRun,
        error: Option<Seq<char>>,
        event: RemovalEvent,
    ) -> bool {
        let target = self.targets()[self.attempted() as int];
        &&& after.targets() == self.targets()
        &&& after.attempted() == self.attempted() + 1
        &&& !after.permitted()
        &&& after.counts() == (if error is None {
            Tally {
                deleted: self.counts().deleted + 1,
                reclaimed: self.counts().reclaimed + target.size,
                errors: self.counts().errors,
            }
        } else {
            Tally { errors: self.counts().errors + 1, ..self.counts() }
        })
        &&& forall|removed: Seq<bool>| #[trigger]
            self.has_seen(removed) ==> after.has_seen(removed.push(error is None))
        &&& event matches RemovalEvent::Step { index, total, candidate, error: message } && {
            &&& index == after.attempted()
            &&& total == self.targets().len()
            &&& candidate@ == target
            &&& error == match message {
                Some(text) => Some(text@),
                None => None,
            }
        }
    }

    /// Whether the next directory may be deleted where its path leads now, with
    /// these roots.
    pub open spec fn allows(
        &self,
        location: Option<Location>,
        roots: Seq<Option<Seq<u8>>>,
    ) -> bool {
        safety::may_be_deleted(self.targets()[self.attempted() as int].path, location, roots)
    }

    /// Starts a run over `targets`.
    pub fn new(targets: Vec<Candidate>) -> (run: RemovalRun)
        requires
            candidate::total_bytes(candidate::entries(targets@)) <= u64::MAX,
        ensures
            run.wf(),
            run.targets() == candidate::entries(targets@),
            run.has_seen(Seq::empty()),
            !run.permitted(),
    {
        assert(targets.len() <= usize::MAX);
        RemovalRun {
            targets,
            attempted: 0,
            deleted: 0,
            reclaimed: 0,
            errors: 0,
            permitted: false,
        }
    }

    /// The next directory to attempt.
    pub fn next_target(&self) -> (target: Option<&Candidate>)
        requires
            self.wf(),
        ensures
            target is Some <==> self.attempted() < self.targets().len(),
            target matches Some(next) ==> next@ == self.targets()[self.attempted() as int],
    {
        if self.attempted < self.targets.len() {
            Some(&self.targets[self.attempted])
        } else {
            None
        }
    }

    /// Looks at where the next directory's path leads, right before the
    /// attempt; `roots` are the resolved roots of the scan that listed the
    /// directory. Where that is no place to delete, the attempt has failed and
    /// is reported; otherwise the directory is to be deleted now.
    pub fn check(&mut self, location: &Option<Location>, roots: &Vec<Option<Vec<u8>>>) -> (refused:
        Option<RemovalEvent>)
        requires
            old(self).wf(),
            old(self).attempted() < old(self).targets().len(),
        ensures
            final(self).wf(),
            match refused {
                None => {
                    &&& old(self).allows(*location, path::all_optional_bytes(roots@))
                    &&& final(self).permitted()
                    &&& final(self).targets() == old(self).targets()
                    &&& final(self).attempted() == old(self).attempted()
                    &&& final(self).counts() == old(self).counts()
                },
                Some(event) => !old(self).allows(*location, path::all_optional_bytes(roots@))
                    && old(self).goes_on(*final(self), Some("unsafe or missing path"@), event),
            },
    {
        let place: &Vec<u8> = &self.targets[self.attempted].path;
        assert(place@ == self.targets()[self.attempted() as int].path);
        match safety::permit_removal(place, location, roots) {
            Ok(_) => {
                self.permitted = true;
                None
            },
            Err(message) => Some(self.count(Err(message))),
        }
    }

    /// Takes the outcome of deleting the next directory, which has passed its
    /// check, and reports it.
    pub fn record(&mut self, outcome: Result<(), String>) -> (event: RemovalEvent)
        requires
            old(self).wf(),
            old(self).permitted(),
        ensures
            final(self).wf(),
            old(self).goes_on(*final(self), failure(outcome), event),
    {
        self.count(outcome)
    }

    /// Counts the attempt on the next directory and reports it.
    fn count(&mut self, outcome: Result<(), String>) -> (event: RemovalEvent)
        requires
            old(self).wf(),
            old(self).attempted() < old(self).targets().len(),
        ensures
            final(self).wf(),
            old(self).goes_on(*final(self), failure(outcome), event),
    {
        let ghost all = self.targets();
        let at: usize = self.attempted;
        proof {
            assert(all.take(at + 1).drop_last() =~= all.take(at as int));
            assert(all[at as int] == self.targets@[at as int]@);
            candidate::lemma_total_of_prefix(all, at + 1);
        }
        let candidate: Candidate = self.targets[at].clone();
        let error: Option<String> = match outcome {
            Ok(_) => {
                self.deleted = self.deleted + 1;
                self.reclaimed = self.reclaimed + candidate.size_bytes;
                None
            },
            Err(message) => {
                self.errors = self.errors + 1;
                Some(message)
            },
        };
        self.attempted = at + 1;
        self.permitted = false;
        proof {
            assert forall|removed: Seq<bool>| #[trigger] old(self).has_seen(removed) implies self.has_seen(
                removed.push(outcome is Ok),
            ) by {
                assert(removed.push(outcome is Ok).drop_last() =~= removed);
            }
        }
        RemovalEvent::Step { index: self.attempted, total: self.targets.len(), candidate, error }
    }

    /// Reports the counts of the whole run.
    pub fn finish(&self) -> (event: RemovalEvent)
        requires
            self.wf(),
        ensures
            event matches RemovalEvent::Finished { deleted, reclaimed, errors } && {
                &&& deleted == self.counts().deleted
                &&& reclaimed == self.counts().reclaimed
                &&& errors == self.counts().errors
            },
    {
        RemovalEvent::Finished {
            deleted: self.deleted,
            reclaimed: self.reclaimed,
            errors: self.errors,
        }
    }
}

/// Every attempt is counted once, as a deletion or as an error, and the
/// reclaimed bytes are at most those of the attempted directories; where
/// nothing failed they are all of them.
pub proof fn law_every_attempt_is_counted(targets: Seq<candidate::Entry>, removed: Seq<bool>)
    requires
        removed.len() <= targets.len(),
    ensures
        tally(targets, removed).deleted + tally(targets, removed).errors == removed.len(),
        tally(targets, removed).reclaimed <= candidate::total_bytes(
            targets.take(removed.len() as int),
        ),
        tally(targets, removed).errors == 0 ==> tally(targets, removed).reclaimed
            == candidate::total_bytes(targets.take(removed.len() as int)),
    decreases removed.len(),
{
    if removed.len() > 0 {
        law_every_attempt_is_counted(targets, removed.drop_last());
        let count = removed.len() as int;
        assert(targets.take(count).drop_last() =~= targets.take(count - 1));
    }
}

/// An attempt that succeeds is one deletion more and reclaims the bytes of its
/// directory; one that fails is one error more and reclaims nothing.
pub proof fn law_attempts_are_tallied(targets: Seq<candidate::Entry>, removed: Seq<bool>)
    ensures
        tally(targets, Seq::empty()) == (Tally { deleted: 0, reclaimed: 0, errors: 0 }),
        tally(targets, removed.push(true)).deleted == tally(targets, removed).deleted + 1,
        tally(targets, removed.push(true)).reclaimed == tally(targets, removed).reclaimed
            + targets[removed.len() as int].size,
        tally(targets, removed.push(true)).errors == tally(targets, removed).errors,
        tally(targets, removed.push(false)).deleted == tally(targets, removed).deleted,
        tally(targets, removed.push(false)).reclaimed == tally(targets, removed).reclaimed,
        tally(targets, removed.push(false)).errors == tally(targets, removed).errors + 1,
{
    assert(removed.push(true).drop_last() =~= removed);
    assert(removed.push(false).drop_last() =~= removed);
}

/// The run goes on to the next directory with each attempt, and reports the
/// one that was attempted: how many were dealt with, out of how many, and the
/// message if it failed. A success is one deletion more and adds the bytes of
/// the directory; a failure is one error more. The directory after it has to
/// be checked first.
pub proof fn law_attempts_are_reported(
    run: RemovalRun,
    after: RemovalRun,
    error: Option<Seq<char>>,
    event: RemovalEvent,
)
    requires
        run.goes_on(after, error, event),
    ensures
        after.targets() == run.targets(),
        after.attempted() == run.attempted() + 1,
        !after.permitted(),
        error is None ==> after.counts().deleted == run.counts().deleted + 1
            && after.counts().errors == run.counts().errors && after.counts().reclaimed
            == run.counts().reclaimed + run.targets()[run.attempted() as int].size,
        error is Some ==> after.counts().deleted == run.counts().deleted && after.counts().errors
            == run.counts().errors + 1 && after.counts().reclaimed == run.counts().reclaimed,
        event is Step,
        event->index == run.attempted() + 1,
        event->total == run.targets().len(),
        event->candidate@ == run.targets()[run.attempted() as int],
        event->error is Some <==> error is Some,
        error is Some ==> event->error->0@ == error->0,
{
}

/// A run that has seen attempts has made as many, and its counts are theirs.
pub proof fn law_counts_are_those_of_the_attempts(run: RemovalRun, removed: Seq<bool>)
    requires
        run.has_seen(removed),
    ensures
        run.attempted() == removed.len(),
        run.counts().deleted == tally(run.targets(), removed).deleted,
        run.counts().reclaimed == tally(run.targets(), removed).reclaimed,
        run.counts().errors == tally(run.targets(), removed).errors,
{
}

/// The directory that is attempted next is the one that is checked, by its own
/// path. An outcome that is no failure has no message.
pub proof fn law_the_next_directory_is_checked(
    run: RemovalRun,
    location: Option<Location>,
    roots: Seq<Option<Seq<u8>>>,
    message: String,
)
    ensures
        run.allows(location, roots) == safety::may_be_deleted(
            run.targets()[run.attempted() as int].path,
            location,
            roots,
        ),
        failure(Ok(())) is None,
        failure(Err(message)) == Some(message@),
{
}

} // verus!
