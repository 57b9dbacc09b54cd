//! The ordered, bounded window that drives resolution of a list of entries:
//! at most `limit` resolutions are in flight at once, and their outcomes are
//! handed out strictly in input order, whatever order they arrive in. The
//! window decides; its caller starts the work it is told to start, reports
//! each outcome as it arrives, and takes the outcomes that are ready.
use vstd::prelude::*;
use vstd::set_lib::{lemma_int_range, lemma_len_subset, set_int_range};
use crate::title::{extract_title, opt_view, parse_html_and_get_title};
use crate::template::{line_for, render_line};

verus! {

/// What resolving one entry gave: the page's title, if it has one, or the
/// cause of the failure.
#[derive(Debug)]
pub enum Outcome {
    Title(Option<String>),
    Failed(String),
}

/// What resolving an entry gives, from what fetching it gave: the title of
/// the fetched page, or the fetch's failure, passed on.
pub fn load_url_and_get_title(fetched: Result<String, String>) -> (r: Outcome)
    ensures
        match fetched {
            Ok(html) => r matches Outcome::Title(t) && opt_view(t) == extract_title(html@),
            Err(e) => r == Outcome::Failed(e),
        },
{
    match fetched {
        Ok(html) => Outcome::Title(parse_html_and_get_title(html.as_str())),
        Err(e) => Outcome::Failed(e),
    }
}

/// What one handed-out title gives: the line to write, if any, and whether
/// the page had no title (which the caller reports).
pub struct Emitted {
    pub line: Option<String>,
    pub no_title: bool,
}

/// The state of a run over `total` entries, numbered from 0 in input order.
pub struct Window {
    limit: usize,
    total: usize,
    started: usize,
    emitted: usize,
    active: usize,
    stopped: bool,
    done: Vec<bool>,
    slots: Vec<Option<Outcome>>,
    received: Ghost<Seq<Option<Outcome>>>,
    log: Ghost<Seq<Outcome>>,
}

impl Window {
    /// The most resolutions that may be in flight at once.
    pub closed spec fn limit(&self) -> nat {
        self.limit as nat
    }

    /// The number of entries.
    pub closed spec fn total(&self) -> nat {
        self.total as nat
    }

    /// Entries `0 .. started()` have been started, in that order.
    pub closed spec fn started(&self) -> nat {
        self.started as nat
    }

    /// The outcomes of entries `0 .. emitted()` have been handed out.
    pub closed spec fn emitted(&self) -> nat {
        self.emitted as nat
    }

    /// Whether a failure has been handed out, which ends the run.
    pub closed spec fn stopped(&self) -> bool {
        self.stopped
    }

    /// The outcome reported for entry `i`, if it has arrived.
    pub closed spec fn received(&self, i: int) -> Option<Outcome> {
        self.received@[i]
    }

    /// The outcomes handed out so far, in the order they were handed out.
    pub closed spec fn log(&self) -> Seq<Outcome> {
        self.log@
    }

    /// The entries in flight: started, and with no outcome yet.
    pub closed spec fn pending(&self) -> Set<int> {
        Set::new(|i: int| 0 <= i < self.started && self.received@[i] is None)
    }

    /// The invariant of a window.
    pub closed spec fn wf(&self) -> bool {
        &&& self.limit > 0
        &&& self.done@.len() == self.total
        &&& self.slots@.len() == self.total
        &&& self.received@.len() == self.total
        &&& self.emitted <= self.started <= self.total
        &&& forall|i: int|
            0 <= i < self.total ==> (self.done@[i] <==> self.received@[i] is Some)
        &&& forall|i: int| self.started <= i < self.total ==> self.received@[i] is None
        &&& forall|i: int| 0 <= i < self.emitted ==> self.received@[i] is Some
        &&& forall|i: int|
            self.emitted <= i < self.total ==> self.slots@[i] == self.received@[i]
        &&& self.log@.len() == self.emitted
        &&& forall|k: int| 0 <= k < self.emitted ==> self.received@[k] == Some(self.log@[k])
        &&& self.stopped == (self.emitted > 0 && self.log@[self.emitted - 1] is Failed)
        &&& forall|k: int| 0 <= k < self.emitted - 1 ==> !(self.log@[k] is Failed)
        &&& self.pending().finite()
        &&& self.active == self.pending().len()
        &&& self.active <= self.limit
    }

    /// Whether the next entry in input order may be started now.
    pub open spec fn may_start(&self) -> bool {
        !self.stopped() && self.started() < self.total() && self.pending().len() < self.limit()
    }

    /// Whether the outcome of the next entry in order is ready to be handed out.
    pub open spec fn has_ready(&self) -> bool {
        !self.stopped() && self.emitted() < self.total() && self.received(
            self.emitted() as int,
        ) is Some
    }

    /// A window over `total` entries, with at most `limit` in flight.
    pub fn new(total: usize, limit: usize) -> (r: Window)
        requires
            limit > 0,
        ensures
            r.wf(),
            r.total() == total <= usize::MAX,
            r.limit() == limit,
            r.started() == 0,
            r.emitted() == 0,
            !r.stopped(),
            r.pending() == Set::<int>::empty(),
            forall|i: int| 0 <= i < total ==> r.received(i) is None,
    {
        let mut done: Vec<bool> = Vec::new();
        let mut slots: Vec<Option<Outcome>> = Vec::new();
        let mut k: usize = 0;
        while k < total
            invariant
                k <= total,
                done@.len() == k,
                slots@.len() == k,
                forall|i: int| 0 <= i < k ==> !done@[i],
                forall|i: int| 0 <= i < k ==> slots@[i] is None,
            decreases total - k,
        {
            done.push(false);
            slots.push(None);
            k = k + 1;
        }
        let w = Window {
            limit,
            total,
            started: 0,
            emitted: 0,
            active: 0,
            stopped: false,
            done,
            slots,
            received: Ghost(Seq::new(total as nat, |i: int| None)),
            log: Ghost(Seq::empty()),
        };
        assert(w.pending() =~= Set::<int>::empty());
        assert(forall|i: int| 0 <= i < total ==> w.received@[i] is None);
        assert(w.pending().len() == 0);
        assert forall|i: int| 0 <= i < total implies w.slots@[i] == w.received@[i] by {
            assert(w.slots@[i] is None);
            assert(w.received@[i] is None);
        }
        w
    }

    /// Starts the next entry in input order if the run goes on, some entry is
    /// not started yet, and fewer than `limit` are in flight; returns its
    /// number.
    pub fn start_next(&mut self) -> (r: Option<usize>)
        requires
            old(self).wf(),
        ensures
            final(self).wf(),
            r == (if old(self).may_start() {
                Some(old(self).started() as usize)
            } else {
                None
            }),
            final(self).started() == old(self).started() + (if r is Some {
                1nat
            } else {
                0nat
            }),
            final(self).pending() == (if r is Some {
                old(self).pending().insert(old(self).started() as int)
            } else {
                old(self).pending()
            }),
            final(self).total() == old(self).total(),
            final(self).limit() == old(self).limit(),
            final(self).emitted() == old(self).emitted(),
            final(self).stopped() == old(self).stopped(),
            final(self).log() == old(self).log(),
            forall|i: int| 0 <= i < old(self).total() ==> final(self).received(i) == old(self).received(i),
    {
        if !self.stopped && self.started < self.total && self.active < self.limit {
            let i = self.started;
            let ghost before = self.pending();
            assert(!before.contains(i as int));
            self.started = self.started + 1;
            self.active = self.active + 1;
            assert(self.pending() =~= before.insert(i as int));
            Some(i)
        } else {
            None
        }
    }

    /// Whether entry `i` is in flight.
    pub fn is_pending(&self, i: usize) -> (r: bool)
        requires
            self.wf(),
        ensures
            r == self.pending().contains(i as int),
    {
        i < self.started && !self.done[i]
    }

    /// Whether the run is over: every outcome handed out, or a failure.
    pub fn is_finished(&self) -> (r: bool)
        requires
            self.wf(),
        ensures
            r == (self.stopped() || self.emitted() == self.total()),
    {
        self.stopped || self.emitted == self.total
    }

    /// The number of resolutions in flight.
    pub fn in_flight(&self) -> (r: usize)
        requires
            self.wf(),
        ensures
            r == self.pending().len(),
    {
        self.active
    }

    /// Records the outcome of entry `index`, which is in flight.
    pub fn complete(&mut self, index: usize, outcome: Outcome)
        requires
            old(self).wf(),
            old(self).pending().contains(index as int),
        ensures
            final(self).wf(),
            final(self).received(index as int) == Some(outcome),
            forall|i: int|
                0 <= i < old(self).total() && i != index ==> final(self).received(i) == old(
                    self,
                ).received(i),
            final(self).pending() == old(self).pending().remove(index as int),
            final(self).total() == old(self).total(),
            final(self).limit() == old(self).limit(),
            final(self).started() == old(self).started(),
            final(self).emitted() == old(self).emitted(),
            final(self).stopped() == old(self).stopped(),
            final(self).log() == old(self).log(),
    {
        let ghost before = self.pending();
        proof {
            lemma_int_range(0, self.started as int);
            lemma_len_subset(before, set_int_range(0, self.started as int));
        }
        self.done.set(index, true);
        self.slots.set(index, Some(outcome));
        self.received = Ghost(self.received@.update(index as int, Some(outcome)));
        self.active = self.active - 1;
        assert(self.pending() =~= before.remove(index as int));
    }

    /// Hands out every outcome that is ready, in input order, and turns each
    /// title into the line to write for `urls[i]` by `line_for`. Stops at the
    /// first failure, whose cause is returned beside the lines before it.
    pub fn drain_ready(
        &mut self,
        urls: &Vec<String>,
        template: &str,
        skip_when_no_title: bool,
    ) -> (r: (Vec<Emitted>, Option<String>))
        requires
            old(self).wf(),
            urls@.len() == old(self).total(),
        ensures
            final(self).wf(),
            !final(self).has_ready(),
            final(self).emitted() == old(self).emitted() + r.0@.len() + (if r.1 is Some {
                1nat
            } else {
                0nat
            }),
            final(self).log().subrange(0, old(self).emitted() as int) == old(self).log(),
            forall|k: int|
                0 <= k < r.0@.len() ==> {
                    let i = old(self).emitted() + k;
                    &&& final(self).log()[i] matches Outcome::Title(t)
                    &&& opt_view((#[trigger] r.0@[k]).line) == line_for(
                        template@,
                        opt_view(t),
                        urls@[i]@,
                        skip_when_no_title,
                    )
                    &&& r.0@[k].no_title == t is None
                },
            match r.1 {
                Some(e) => final(self).stopped() && !old(self).stopped() && final(self).log().last()
                    == Outcome::Failed(e),
                None => final(self).stopped() == old(self).stopped(),
            },
            final(self).pending() == old(self).pending(),
            final(self).total() == old(self).total(),
            final(self).limit() == old(self).limit(),
            final(self).started() == old(self).started(),
            forall|i: int| 0 <= i < old(self).total() ==> final(self).received(i) == old(self).received(i),
    {
        let ghost start = self.emitted();
        let ghost first = *self;
        let mut lines: Vec<Emitted> = Vec::new();
        loop
            invariant
                first == *old(self),
                self.wf(),
                urls@.len() == self.total(),
                self.total() == first.total(),
                self.limit() == first.limit(),
                self.started() == first.started(),
                self.pending() == first.pending(),
                self.stopped() == first.stopped(),
                start == first.emitted(),
                forall|i: int| 0 <= i < first.total() ==> self.received(i) == first.received(i),
                self.emitted() == start + lines@.len(),
                self.log().subrange(0, start as int) == first.log(),
                forall|k: int|
                    0 <= k < lines@.len() ==> {
                        let i = start + k;
                        &&& self.log()[i] matches Outcome::Title(t)
                        &&& opt_view((#[trigger] lines@[k]).line) == line_for(
                            template@,
                            opt_view(t),
                            urls@[i]@,
                            skip_when_no_title,
                        )
                        &&& lines@[k].no_title == t is None
                    },
            decreases self.total() - self.emitted(),
        {
            proof {
                lemma_counts_fit(self);
            }
            let i = self.emitted;
            let ghost before = *self;
            match self.next_result() {
                None => {
                    return (lines, None);
                },
                Some(Outcome::Failed(e)) => {
                    proof {
                        assert(self.log().subrange(0, start as int) =~= before.log().subrange(
                            0,
                            start as int,
                        ));
                    }
                    return (lines, Some(e));
                },
                Some(Outcome::Title(t)) => {
                    let line = render_line(template, &t, urls[i].as_str(), skip_when_no_title);
                    let no_title = t.is_none();
                    let ghost old_lines = lines@;
                    lines.push(Emitted { line, no_title });
                    proof {
                        assert(self.log().subrange(0, start as int) =~= before.log().subrange(
                            0,
                            start as int,
                        ));
                        assert forall|k: int| 0 <= k < lines@.len() implies {
                            let j = start + k;
                            &&& self.log()[j] matches Outcome::Title(t)
                            &&& opt_view((#[trigger] lines@[k]).line) == line_for(
                                template@,
                                opt_view(t),
                                urls@[j]@,
                                skip_when_no_title,
                            )
                            &&& lines@[k].no_title == t is None
                        } by {
                            if k < old_lines.len() {
                                assert(lines@[k] == old_lines[k]);
                                assert(self.log()[start + k] == before.log()[start + k]);
                            }
                        }
                    }
                },
            }
        }
    }

    /// Hands out the outcome of the next entry in input order, if the run
    /// goes on and that outcome has arrived. A failure ends the run: nothing
    /// is handed out after it.
    pub fn next_result(&mut self) -> (r: Option<Outcome>)
        requires
            old(self).wf(),
        ensures
            final(self).wf(),
            r == (if old(self).has_ready() {
                old(self).received(old(self).emitted() as int)
            } else {
                None
            }),
            final(self).emitted() == old(self).emitted() + (if r is Some {
                1nat
            } else {
                0nat
            }),
            final(self).log() == (if r is Some {
                old(self).log().push(r->0)
            } else {
                old(self).log()
            }),
            final(self).stopped() == (old(self).stopped() || (r matches Some(Outcome::Failed(_)))),
            final(self).pending() == old(self).pending(),
            final(self).total() == old(self).total(),
            final(self).limit() == old(self).limit(),
            final(self).started() == old(self).started(),
            forall|i: int| 0 <= i < old(self).total() ==> final(self).received(i) == old(self).received(i),
    {
        if self.stopped || self.emitted >= self.total || !self.done[self.emitted] {
            return None;
        }
        let i = self.emitted;
        let ghost before = self.pending();
        self.slots.push(None);
        let taken = self.slots.swap_remove(i);
        let outcome = match taken {
            Some(o) => o,
            None => {
                assert(false);
                return None;
            },
        };
        self.emitted = i + 1;
        self.log = Ghost(self.log@.push(outcome));
        self.stopped = match &outcome {
            Outcome::Failed(_) => true,
            Outcome::Title(_) => false,
        };
        assert(self.pending() =~= before);
        Some(outcome)
    }
}

/// Outcomes come out in input order: the `k`-th outcome handed out is the one
/// reported for entry `k`, whatever order the outcomes arrived in.
pub proof fn lemma_output_in_input_order(w: &Window)
    requires
        w.wf(),
    ensures
        w.log().len() == w.emitted(),
        forall|k: int| 0 <= k < w.emitted() ==> w.received(k) == Some(w.log()[k]),
{
}

/// The counts of a window fit in a `usize`.
pub proof fn lemma_counts_fit(w: &Window)
    requires
        w.wf(),
    ensures
        w.emitted() <= w.started() <= w.total() <= usize::MAX,
        0 < w.limit() <= usize::MAX,
{
}

/// At most `limit` resolutions are ever in flight, each of them started and
/// not yet handed out.
pub proof fn lemma_in_flight_bounded(w: &Window)
    requires
        w.wf(),
    ensures
        w.pending().finite(),
        w.pending().len() <= w.limit(),
        forall|i: int| w.pending().contains(i) ==> w.emitted() <= i < w.started(),
{
}

/// A failure ends the run: it is the last outcome handed out, none came
/// before it, and after it nothing is started or handed out.
pub proof fn lemma_failure_ends_run(w: &Window)
    requires
        w.wf(),
        w.stopped(),
    ensures
        !w.may_start(),
        !w.has_ready(),
        w.emitted() > 0,
        w.log().last() is Failed,
        forall|k: int| 0 <= k < w.emitted() - 1 ==> !(w.log()[k] is Failed),
{
}

} // verus!
