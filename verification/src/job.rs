use vstd::prelude::*;
use crate::error::ForkJoinError;
use crate::task::JoinStyle;

verus! {

/// Where a job stands for the one who receives its results.
#[derive(Debug, Clone, Copy, PartialEq, Eq, Structural)]
pub enum JobState {
    /// Results may still come or wait to be received.
    Pending,
    /// The job's one result has been received.
    Delivered,
    /// The job has ended and nothing is left to receive.
    Exhausted,
}

/// The state of a job as the rules of `recv` see it.
pub open spec fn state_of(style: JoinStyle, waiting: nat, closed: bool, received: bool) -> JobState {
    if style == JoinStyle::Search {
        if closed && waiting == 0 {
            JobState::Exhausted
        } else {
            JobState::Pending
        }
    } else {
        if received {
            JobState::Delivered
        } else if closed && waiting == 0 {
            JobState::Exhausted
        } else {
            JobState::Pending
        }
    }
}

/// The receiving side of one job: the results that were delivered and wait to
/// be received, and whether more can come.
pub struct Job<Ret> {
    style: JoinStyle,
    results: Vec<Ret>,
    closed: bool,
    received: bool,
    failed: bool,
}

impl<Ret> Job<Ret> {
    /// The join discipline of the job.
    pub closed spec fn style(&self) -> JoinStyle {
        self.style
    }

    /// The results that wait to be received, the oldest first.
    pub closed spec fn waiting(&self) -> Seq<Ret> {
        self.results@
    }

    /// Whether no further result will be delivered.
    pub closed spec fn closed(&self) -> bool {
        self.closed
    }

    /// Whether a result has been received.
    pub closed spec fn received(&self) -> bool {
        self.received
    }

    /// Whether a split or join function of the job has failed.
    pub closed spec fn failed(&self) -> bool {
        self.failed
    }

    /// Where the job stands.
    pub open spec fn state(&self) -> JobState {
        state_of(self.style(), self.waiting().len(), self.closed(), self.received())
    }

    /// A job that is not a search holds at most one result, delivered or
    /// received, and is closed once it has it.
    pub open spec fn wf(&self) -> bool {
        self.style() != JoinStyle::Search ==> {
            &&& self.waiting().len() + (if self.received() {
                1nat
            } else {
                0nat
            }) <= 1
            &&& (self.waiting().len() > 0 || self.received()) ==> self.closed()
        }
    }

    /// A job to which nothing has been delivered yet.
    pub fn new(style: JoinStyle) -> (job: Self)
        ensures
            job.wf(),
            job.style() == style,
            job.waiting().len() == 0,
            !job.closed(),
            !job.received(),
            !job.failed(),
            job.state() == JobState::Pending,
    {
        Job { style, results: Vec::new(), closed: false, received: false, failed: false }
    }

    /// Whether no further result will be delivered.
    pub fn is_closed(&self) -> (b: bool)
        ensures
            b == self.closed(),
    {
        self.closed
    }

    /// Takes a result from the scheduler. With `last` set, and always for a job
    /// that is not a search, the job is closed by it.
    pub fn deliver(&mut self, value: Ret, last: bool)
        requires
            old(self).wf(),
            !old(self).closed(),
        ensures
            final(self).wf(),
            final(self).style() == old(self).style(),
            final(self).waiting() == old(self).waiting().push(value),
            final(self).closed() == (last || old(self).style() != JoinStyle::Search),
            final(self).received() == old(self).received(),
            final(self).failed() == old(self).failed(),
    {
        self.results.push(value);
        let search: bool = match self.style {
            JoinStyle::Search => true,
            _ => false,
        };
        self.closed = last || !search;
    }

    /// Closes the job: no further result will be delivered.
    pub fn finish(&mut self)
        requires
            old(self).wf(),
        ensures
            final(self).wf(),
            final(self).style() == old(self).style(),
            final(self).waiting() == old(self).waiting(),
            final(self).closed(),
            final(self).received() == old(self).received(),
            final(self).failed() == old(self).failed(),
    {
        self.closed = true;
    }

    /// Records that a split or join function of the job has failed. The job is
    /// closed, and every later `recv` reports the failure.
    pub fn fail(&mut self)
        requires
            old(self).wf(),
        ensures
            final(self).wf(),
            final(self).style() == old(self).style(),
            final(self).waiting() == old(self).waiting(),
            final(self).closed(),
            final(self).received() == old(self).received(),
            final(self).failed(),
    {
        self.closed = true;
        self.failed = true;
    }

    /// What `recv` answers in the state given: an error, the oldest waiting
    /// result, or nothing yet.
    pub open spec fn answer(
        style: JoinStyle,
        waiting: Seq<Ret>,
        closed: bool,
        received: bool,
        failed: bool,
    ) -> Result<Option<Ret>, ForkJoinError> {
        if failed {
            Err(ForkJoinError::TaskFailure)
        } else if waiting.len() > 0 {
            Ok(Some(waiting[0]))
        } else if style != JoinStyle::Search && received {
            Err(ForkJoinError::AlreadyConsumed)
        } else if closed {
            Err(ForkJoinError::Exhausted)
        } else {
            Ok(None)
        }
    }

    /// Receives the next result of the job, if there is one.
    ///
    /// `Ok(None)` says that nothing has arrived yet and more may come: the
    /// caller waits and asks again. A job whose task failed answers
    /// `TaskFailure`. Otherwise the oldest waiting result is handed out. With
    /// nothing waiting, a job that is not a search and has handed out its
    /// result answers `AlreadyConsumed`, and a closed job answers `Exhausted`.
    pub fn recv(&mut self) -> (r: Result<Option<Ret>, ForkJoinError>)
        requires
            old(self).wf(),
        ensures
            final(self).wf(),
            r == Self::answer(
                old(self).style(),
                old(self).waiting(),
                old(self).closed(),
                old(self).received(),
                old(self).failed(),
            ),
            final(self).style() == old(self).style(),
            final(self).closed() == old(self).closed(),
            final(self).failed() == old(self).failed(),
            r matches Ok(Some(_)) ==> final(self).waiting() == old(self).waiting().drop_first()
                && final(self).received(),
            !(r matches Ok(Some(_))) ==> final(self).waiting() == old(self).waiting(),
            !(r matches Ok(Some(_))) ==> final(self).received() == old(self).received(),
    {
        let search: bool = match self.style {
            JoinStyle::Search => true,
            _ => false,
        };
        if self.failed {
            Err(ForkJoinError::TaskFailure)
        } else if self.results.len() > 0 {
            let value = self.results.remove(0);
            self.received = true;
            Ok(Some(value))
        } else if !search && self.received {
            Err(ForkJoinError::AlreadyConsumed)
        } else if self.closed {
            Err(ForkJoinError::Exhausted)
        } else {
            Ok(None)
        }
    }
}

} // verus!
