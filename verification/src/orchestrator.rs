//! Batch orchestrator: partitions the entry list into fixed-size batches,
//! runs them in bounded-concurrency groups, retries failed batches with
//! capped attempts, and folds the outcomes into a sorted, resumable report.
//!
//! The orchestrator is a state machine: the surrounding runtime asks it for
//! the next step, performs the network work it names, and hands the outcome
//! back.  Every decision — grouping, retry counting, fail-fast termination,
//! early exit and progress reporting — is taken here.

use vstd::prelude::*;

use vstd::pervasive::VecAdditionalExecFns;
use vstd::seq_lib::lemma_multiset_commutative;

use crate::text::{push_all, str_to_chars, usize_to_chars, chars_to_string, dec_rep};

verus! {

// ---------------------------------------------------------------------------
// Settings, progress and reports
// ---------------------------------------------------------------------------

/// Tuning of one orchestration call.
#[derive(Clone, Copy, Debug, PartialEq, Eq, Structural)]
pub struct TranslationSettings {
    /// Entries per request; a zero is clamped to one batch entry.
    pub batch_size: usize,
    /// Batches dispatched concurrently in one group.
    pub parallel_requests: usize,
    /// Keep going after each group while entries remain.
    pub auto_continue: bool,
    /// Leave an exhausted batch empty instead of failing the whole run.
    pub continue_on_error: bool,
    /// Retries granted to a failed batch beyond its first attempt.
    pub max_retries: usize,
    /// Decode responses incrementally.
    pub streaming: bool,
}

impl Default for TranslationSettings {
    /// Fifty entries per request, one request at a time, three retries.
    fn default() -> (r: Self)
        ensures
            r == (TranslationSettings {
                batch_size: 50,
                parallel_requests: 1,
                auto_continue: true,
                continue_on_error: false,
                max_retries: 3,
                streaming: false,
            }),
    {
        TranslationSettings {
            batch_size: 50,
            parallel_requests: 1,
            auto_continue: true,
            continue_on_error: false,
            max_retries: 3,
            streaming: false,
        }
    }
}

/// Where a run stands, derived from the results known so far.
#[derive(Clone, Copy, Debug, PartialEq, Eq, Structural)]
pub struct TranslationProgress {
    pub total_entries: usize,
    pub translated_entries: usize,
    pub last_translated_index: usize,
    pub is_partial: bool,
    pub can_continue: bool,
}

impl Default for TranslationProgress {
    /// No entries known, nothing translated.
    fn default() -> (r: Self)
        ensures
            r == (TranslationProgress {
                total_entries: 0,
                translated_entries: 0,
                last_translated_index: 0,
                is_partial: false,
                can_continue: false,
            }),
    {
        TranslationProgress {
            total_entries: 0,
            translated_entries: 0,
            last_translated_index: 0,
            is_partial: false,
            can_continue: false,
        }
    }
}

/// Payload of a retry notification.
#[derive(Clone, Debug)]
pub struct TranslationRetryInfo {
    pub attempt: usize,
    pub max_retries: usize,
    pub error_message: String,
    pub progress: TranslationProgress,
}

/// Payload of a terminal-error notification.
#[derive(Clone, Debug)]
pub struct TranslationErrorInfo {
    pub error_message: String,
    pub progress: TranslationProgress,
}

/// Terminal output of a whole orchestration call.
#[derive(Clone, Debug)]
pub struct TranslationBatchReport {
    pub translations: Vec<(usize, String)>,
    pub progress: TranslationProgress,
    pub error_message: Option<String>,
}

/// Output of a single resumable batch call.
#[derive(Clone, Debug)]
pub struct BatchTranslationResult {
    pub translations: Vec<(usize, String)>,
    pub progress: TranslationProgress,
}

/// One entry delivered incrementally in streaming mode.
#[derive(Clone, Debug)]
pub struct TranslatedEntryEvent {
    pub index: usize,
    pub text: String,
}

/// A notification emitted while a run advances, in emission order.
#[derive(Clone, Debug)]
pub enum OrchestratorEvent {
    Progress(TranslationProgress),
    Retry(TranslationRetryInfo),
    Error(TranslationErrorInfo),
}

// ---------------------------------------------------------------------------
// Chunking
// ---------------------------------------------------------------------------

/// The partition of `entries` into consecutive windows of `size`.
pub open spec fn spec_chunks(entries: Seq<(usize, String)>, size: usize) -> Seq<
    Seq<(usize, String)>,
>
    recommends
        size >= 1,
    decreases entries.len(),
    when size >= 1
{
    if entries.len() == 0 {
        Seq::empty()
    } else if entries.len() <= size {
        seq![entries]
    } else {
        seq![entries.take(size as int)] + spec_chunks(entries.skip(size as int), size)
    }
}

/// Splits the entries into batches of at most `size`.
#[verifier::loop_isolation(false)]
pub fn chunk_entries(entries: &Vec<(usize, String)>, size: usize) -> (r: Vec<Vec<(usize, String)>>)
    requires
        size >= 1,
    ensures
        r@.map_values(|b: Vec<(usize, String)>| b@) == spec_chunks(entries@, size),
{
    let mut r: Vec<Vec<(usize, String)>> = Vec::new();
    let mut i: usize = 0;
    proof {
        assert(entries@.skip(0) =~= entries@);
        assert(r@.map_values(|b: Vec<(usize, String)>| b@) + spec_chunks(entries@, size)
            =~= spec_chunks(entries@, size));
    }
    while i < entries.len()
        invariant
            i <= entries.len(),
            size >= 1,
            spec_chunks(entries@, size) == r@.map_values(|b: Vec<(usize, String)>| b@)
                + spec_chunks(entries@.skip(i as int), size),
        decreases entries.len() - i,
    {
        let remaining = entries.len() - i;
        let take = if remaining < size {
            remaining
        } else {
            size
        };
        let mut chunk: Vec<(usize, String)> = Vec::new();
        let mut j: usize = 0;
        while j < take
            invariant
                j <= take,
                i + take <= entries.len(),
                chunk@ == entries@.subrange(i as int, i + j),
            decreases take - j,
        {
            chunk.push((entries[i + j].0, entries[i + j].1.clone()));
            j = j + 1;
            assert(chunk@ =~= entries@.subrange(i as int, i + j));
        }
        let ghost prev = r@;
        r.push(chunk);
        proof {
            let rem = entries@.skip(i as int);
            if rem.len() <= size {
                assert(chunk@ =~= rem);
                assert(spec_chunks(rem, size) =~= seq![rem]);
            } else {
                assert(chunk@ =~= rem.take(size as int));
                assert(rem.skip(size as int) =~= entries@.skip(i + size));
            }
            assert(r@.map_values(|b: Vec<(usize, String)>| b@) =~= prev.map_values(
                |b: Vec<(usize, String)>| b@,
            ) + seq![chunk@]);
        }
        i = i + take;
    }
    proof {
        assert(entries@.skip(i as int) =~= Seq::<(usize, String)>::empty());
        assert(r@.map_values(|b: Vec<(usize, String)>| b@) =~= r@.map_values(
            |b: Vec<(usize, String)>| b@,
        ) + spec_chunks(entries@.skip(i as int), size));
    }
    r
}

// ---------------------------------------------------------------------------
// Progress
// ---------------------------------------------------------------------------

/// The largest index among `ts`, or zero when there is none.
pub open spec fn spec_max_index(ts: Seq<(usize, String)>) -> usize
    decreases ts.len(),
{
    if ts.len() == 0 {
        0
    } else {
        let rest = spec_max_index(ts.drop_last());
        if ts.last().0 > rest {
            ts.last().0
        } else {
            rest
        }
    }
}

/// The progress derived from a set of known translations: partial while
/// fewer entries are translated than exist, and resumable exactly then.
pub open spec fn spec_build_progress(total: usize, ts: Seq<(usize, String)>) -> TranslationProgress
    recommends
        ts.len() <= usize::MAX,
{
    TranslationProgress {
        total_entries: total,
        translated_entries: ts.len() as usize,
        last_translated_index: spec_max_index(ts),
        is_partial: ts.len() < total,
        can_continue: ts.len() < total,
    }
}

/// Derives the progress value for `ts` known translations out of `total`.
#[verifier::loop_isolation(false)]
pub fn build_progress(total: usize, ts: &Vec<(usize, String)>) -> (r: TranslationProgress)
    ensures
        r == spec_build_progress(total, ts@),
{
    let mut max_idx: usize = 0;
    let mut i: usize = 0;
    while i < ts.len()
        invariant
            i <= ts.len(),
            max_idx == spec_max_index(ts@.take(i as int)),
        decreases ts.len() - i,
    {
        proof {
            assert(ts@.take(i + 1).drop_last() =~= ts@.take(i as int));
            assert(ts@.take(i + 1).last() == ts@[i as int]);
        }
        if ts[i].0 > max_idx {
            max_idx = ts[i].0;
        }
        i = i + 1;
    }
    assert(ts@.take(i as int) =~= ts@);
    TranslationProgress {
        total_entries: total,
        translated_entries: ts.len(),
        last_translated_index: max_idx,
        is_partial: ts.len() < total,
        can_continue: ts.len() < total,
    }
}

// ---------------------------------------------------------------------------
// Sorting by index
// ---------------------------------------------------------------------------

/// Ascending by entry index.
pub open spec fn sorted_by_index(s: Seq<(usize, String)>) -> bool {
    forall|i: int, j: int| 0 <= i < j < s.len() ==> s[i].0 <= s[j].0
}

/// Sorts translations ascending by index; the entries are kept, only
/// reordered.
#[verifier::loop_isolation(false)]
pub fn sort_by_index(v: Vec<(usize, String)>) -> (r: Vec<(usize, String)>)
    ensures
        sorted_by_index(r@),
        r@.to_multiset() == v@.to_multiset(),
        r@.len() == v@.len(),
{
    broadcast use vstd::seq_lib::group_to_multiset_ensures;

    let mut out: Vec<(usize, String)> = Vec::new();
    let mut i: usize = 0;
    proof {
        assert(v@.take(0) =~= Seq::<(usize, String)>::empty());
        assert(out@.to_multiset() =~= v@.take(0).to_multiset());
    }
    while i < v.len()
        invariant
            i <= v.len(),
            sorted_by_index(out@),
            out@.to_multiset() == v@.take(i as int).to_multiset(),
            out@.len() == i,
        decreases v.len() - i,
    {
        let x = (v[i].0, v[i].1.clone());
        let mut p: usize = 0;
        while p < out.len() && out[p].0 <= x.0
            invariant
                p <= out.len(),
                forall|k: int| 0 <= k < p ==> out@[k].0 <= x.0,
            decreases out.len() - p,
        {
            p = p + 1;
        }
        let ghost before = out@;
        out.insert(p, x);
        proof {
            assert(out@ =~= before.take(p as int) + seq![x] + before.skip(p as int));
            assert(before =~= before.take(p as int) + before.skip(p as int));
            lemma_multiset_commutative(before.take(p as int), before.skip(p as int));
            lemma_multiset_commutative(
                before.take(p as int) + seq![x],
                before.skip(p as int),
            );
            lemma_multiset_commutative(before.take(p as int), seq![x]);
            assert(seq![x].to_multiset() =~= vstd::multiset::Multiset::<(usize, String)>::empty()
                .insert(x));
            broadcast use vstd::multiset::group_multiset_axioms;

            assert(out@.to_multiset() =~= before.to_multiset().insert(x));
            assert(v@.take(i + 1) =~= v@.take(i as int).push(v@[i as int]));
            assert(v@[i as int] == x);
            assert(forall|k: int|
                0 <= k < out@.len() && k < p ==> out@[k] == before[k] && out@[k].0 <= x.0);
            assert(forall|k: int|
                p < k < out@.len() ==> out@[k] == before[k - 1]);
            assert forall|a: int, b: int| 0 <= a < b < out@.len() implies out@[a].0
                <= out@[b].0 by {
                if a < p && b == p {
                } else if a == p && b > p {
                    assert(out@[b] == before[b - 1]);
                    assert(before[b - 1].0 > x.0 || p >= before.len() || b - 1 >= p);
                    if b - 1 == p {
                        assert((p as int) < before.len());
                        assert(before[p as int].0 > x.0);
                    } else {
                        assert(before[p as int].0 > x.0);
                        assert(before[p as int].0 <= before[b - 1].0);
                    }
                } else if a < p && b > p {
                    assert(out@[a] == before[a]);
                    assert(out@[b] == before[b - 1]);
                    if a == b - 1 {
                    } else {
                        assert(before[a].0 <= before[b - 1].0);
                    }
                } else if a > p && b > p {
                    assert(out@[a] == before[a - 1]);
                    assert(out@[b] == before[b - 1]);
                }
            }
        }
        i = i + 1;
    }
    assert(v@.take(i as int) =~= v@);
    proof {
        v@.to_multiset_ensures();
        out@.to_multiset_ensures();
    }
    out
}


// ---------------------------------------------------------------------------
// The orchestrator state machine
// ---------------------------------------------------------------------------

/// The distinguished message of a cancelled run.
pub const TRANSLATION_CANCELLED_ERROR: &'static str = "Translation cancelled";

/// Where one orchestration call stands.
#[derive(Clone, Debug)]
pub enum OrchPhase {
    /// About to dispatch the current group.
    StartGroup,
    /// A group was dispatched and its outcomes are awaited.
    AwaitGroup(Vec<usize>),
    /// Some batches of the group failed; the head of the queue is up next.
    FailuresPending { queue: Vec<usize>, attempt: usize },
    /// A retry of the queue head was requested and its outcome is awaited.
    AwaitRetry { queue: Vec<usize>, attempt: usize },
    /// The group's batches are settled; progress is due.
    GroupDone,
    /// The run is over; a report can be taken.
    Finished { error_message: Option<String> },
    /// The run was cancelled.
    Cancelled,
}

/// What the runtime must do next.
#[derive(Clone, Debug)]
pub enum OrchestratorStep {
    /// Send these batches concurrently, then report with `record_group`.
    Dispatch(Vec<usize>),
    /// Sleep one backoff unit, resend this batch, then report with
    /// `record_retry`.
    Backoff(usize),
    /// Call `advance` again.
    Proceed,
    /// The run is over; take the report.
    Finished,
}

/// View of stored batch outcomes.
pub open spec fn results_view(r: Seq<Option<Vec<(usize, String)>>>) -> Seq<
    Option<Seq<(usize, String)>>,
> {
    r.map_values(
        |o: Option<Vec<(usize, String)>>|
            match o {
                Option::None => Option::<Seq<(usize, String)>>::None,
                Option::Some(v) => Option::Some(v@),
            },
    )
}

/// Every translation stored so far, in batch order.
pub open spec fn collected(rv: Seq<Option<Seq<(usize, String)>>>) -> Seq<(usize, String)>
    decreases rv.len(),
{
    if rv.len() == 0 {
        Seq::empty()
    } else {
        collected(rv.drop_last()) + (match rv.last() {
            Option::Some(v) => v,
            Option::None => Seq::empty(),
        })
    }
}

/// View of a group's outcomes.
pub open spec fn outcomes_view(o: Seq<Result<Vec<(usize, String)>, String>>) -> Seq<
    Result<Seq<(usize, String)>, Seq<char>>,
> {
    o.map_values(
        |r: Result<Vec<(usize, String)>, String>|
            match r {
                Result::Ok(v) => Result::<Seq<(usize, String)>, Seq<char>>::Ok(v@),
                Result::Err(e) => Result::Err(e@),
            },
    )
}

/// The indices of the given batch range whose result is still missing.
pub open spec fn pending_in(r: Seq<Option<Seq<(usize, String)>>>, lo: int, hi: int) -> Seq<usize>
    decreases hi - lo,
{
    if lo < 0 || lo >= hi {
        Seq::empty()
    } else {
        (if r[lo] is None {
            seq![lo as usize]
        } else {
            Seq::empty()
        }) + pending_in(r, lo + 1, hi)
    }
}

/// The batch translation orchestrator.  It never performs network work
/// itself: `advance` names the next step, and the outcomes come back
/// through `record_group` and `record_retry`.
pub struct BatchOrchestrator {
    /// The partition of the entries into batches.
    pub batches: Vec<Vec<(usize, String)>>,
    /// Per-batch outcome; `None` until the batch succeeds.
    pub results: Vec<Option<Vec<(usize, String)>>>,
    /// Entries per batch, at least one.
    pub batch_size: usize,
    /// Batches per concurrent group, at least one.
    pub parallel: usize,
    /// Retries granted beyond a batch's first attempt.
    pub max_retries: usize,
    /// Keep going after each group while entries remain.
    pub auto_continue: bool,
    /// Leave an exhausted batch empty instead of failing the run.
    pub continue_on_error: bool,
    /// How many entries the caller supplied.
    pub total_entries: usize,
    /// The first batch of the group about to be, or being, processed.
    pub cursor: usize,
    /// Message of the most recent batch failure.
    pub last_error: String,
    /// Where the run stands.
    pub phase: OrchPhase,
    /// The caller's entry list, kept as the mathematical model.
    pub entries_model: Ghost<Seq<(usize, String)>>,
}

impl BatchOrchestrator {
    /// The structural invariant of a running orchestration.
    pub open spec fn wf(self) -> bool {
        &&& self.batch_size >= 1
        &&& self.parallel >= 1
        &&& self.results@.len() == self.batches@.len()
        &&& self.batches@.map_values(|b: Vec<(usize, String)>| b@) == spec_chunks(
            self.entries_model@,
            self.batch_size,
        )
        &&& self.total_entries == self.entries_model@.len()
        &&& self.cursor <= self.batches@.len()
        &&& (self.phase matches OrchPhase::AwaitGroup(sent) ==> {
            &&& sent@.len() >= 1
            &&& forall|k: int| 0 <= k < sent@.len() ==> (#[trigger] sent@[k]) < self.batches@.len()
            &&& forall|k1: int, k2: int|
                0 <= k1 < k2 < sent@.len() ==> sent@[k1] < sent@[k2]
        })
        &&& (self.phase matches OrchPhase::FailuresPending { queue, attempt } ==> {
            &&& queue@.len() >= 1
            &&& forall|k: int|
                0 <= k < queue@.len() ==> (#[trigger] queue@[k]) < self.batches@.len()
            &&& attempt <= self.max_retries
        })
        &&& (self.phase matches OrchPhase::AwaitRetry { queue, attempt } ==> {
            &&& queue@.len() >= 1
            &&& forall|k: int|
                0 <= k < queue@.len() ==> (#[trigger] queue@[k]) < self.batches@.len()
            &&& 1 <= attempt <= self.max_retries
        })
        &&& (self.phase matches OrchPhase::AwaitGroup(_) ==> self.cursor < self.batches@.len())
        &&& (self.phase matches OrchPhase::FailuresPending { .. } ==> self.cursor
            < self.batches@.len())
        &&& (self.phase matches OrchPhase::AwaitRetry { .. } ==> self.cursor
            < self.batches@.len())
        &&& (self.phase matches OrchPhase::GroupDone ==> self.cursor < self.batches@.len())
    }

    /// The orchestrator is waiting for the runtime to report outcomes.
    pub open spec fn awaiting(self) -> bool {
        ||| self.phase matches OrchPhase::AwaitGroup(_)
        ||| self.phase matches OrchPhase::AwaitRetry { .. }
    }

    /// The run is over.
    pub open spec fn done(self) -> bool {
        ||| self.phase matches OrchPhase::Finished { .. }
        ||| self.phase matches OrchPhase::Cancelled
    }

    /// Starts an orchestration over `entries`: the list is partitioned into
    /// batches of the configured size (a zero size is clamped to one), no
    /// batch has a result yet, and the first group is up.
    pub fn new(entries: &Vec<(usize, String)>, settings: &TranslationSettings) -> (o: Self)
        ensures
            o.wf(),
            o.entries_model@ == entries@,
            o.phase matches OrchPhase::StartGroup,
            o.cursor == 0,
            o.batch_size == if settings.batch_size >= 1 { settings.batch_size } else { 1usize },
            o.parallel == if settings.parallel_requests >= 1 {
                settings.parallel_requests
            } else {
                1usize
            },
            o.max_retries == settings.max_retries,
            o.auto_continue == settings.auto_continue,
            o.continue_on_error == settings.continue_on_error,
            o.total_entries == entries@.len(),
            forall|i: int| 0 <= i < o.results@.len() ==> o.results@[i] is None,
            collected(results_view(o.results@)) == Seq::<(usize, String)>::empty(),
    {
        let batch_size = if settings.batch_size >= 1 {
            settings.batch_size
        } else {
            1
        };
        let parallel = if settings.parallel_requests >= 1 {
            settings.parallel_requests
        } else {
            1
        };
        let batches = chunk_entries(entries, batch_size);
        let mut results: Vec<Option<Vec<(usize, String)>>> = Vec::new();
        let mut i: usize = 0;
        while i < batches.len()
            invariant
                i <= batches.len(),
                results@.len() == i,
                forall|k: int| 0 <= k < i ==> results@[k] is None,
            decreases batches.len() - i,
        {
            results.push(None);
            i = i + 1;
        }
        proof {
            assert(forall|i: int|
                0 <= i < results_view(results@).len() ==> results_view(results@)[i] is None);
            lemma_collected_all_none(results_view(results@));
        }
        BatchOrchestrator {
            batches,
            results,
            batch_size,
            parallel,
            max_retries: settings.max_retries,
            auto_continue: settings.auto_continue,
            continue_on_error: settings.continue_on_error,
            total_entries: entries.len(),
            cursor: 0,
            last_error: String::new(),
            phase: OrchPhase::StartGroup,
            entries_model: Ghost(entries@),
        }
    }

    /// The entries of batch `i`, for building its request.
    pub fn batch_entries(&self, i: usize) -> (b: &Vec<(usize, String)>)
        requires
            i < self.batches@.len(),
        ensures
            b == self.batches@[i as int],
    {
        &self.batches[i]
    }

    /// Gathers every stored translation, in batch order.
    #[verifier::loop_isolation(false)]
    pub fn collect_translations(&self) -> (out: Vec<(usize, String)>)
        ensures
            out@ == collected(results_view(self.results@)),
    {
        let ghost rv = results_view(self.results@);
        let mut out: Vec<(usize, String)> = Vec::new();
        let mut i: usize = 0;
        proof {
            assert(rv.take(0) =~= Seq::<Option<Seq<(usize, String)>>>::empty());
        }
        while i < self.results.len()
            invariant
                i <= self.results.len(),
                rv == results_view(self.results@),
                rv.len() == self.results@.len(),
                out@ == collected(rv.take(i as int)),
            decreases self.results.len() - i,
        {
            proof {
                assert(rv.take(i + 1).drop_last() =~= rv.take(i as int));
                assert(rv.take(i + 1).last() == rv[i as int]);
                assert(rv[i as int] == (match self.results@[i as int] {
                    Option::None => Option::<Seq<(usize, String)>>::None,
                    Option::Some(v) => Option::Some(v@),
                }));
            }
            match &self.results[i] {
                Some(v) => {
                    let mut j: usize = 0;
                    let ghost before = out@;
                    while j < v.len()
                        invariant
                            j <= v.len(),
                            out@ == before + v@.take(j as int),
                        decreases v.len() - j,
                    {
                        out.push((v[j].0, v[j].1.clone()));
                        j = j + 1;
                        assert(out@ =~= before + v@.take(j as int));
                    }
                    assert(out@ =~= before + v@);
                },
                None => {
                    assert(out@ =~= out@ + Seq::<(usize, String)>::empty());
                },
            }
            i = i + 1;
        }
        assert(rv.take(i as int) =~= rv);
        out
    }

    /// The progress derived from everything stored so far.
    pub fn current_progress(&self) -> (p: TranslationProgress)
        ensures
            p == spec_build_progress(self.total_entries, collected(results_view(self.results@))),
    {
        let current = self.collect_translations();
        build_progress(self.total_entries, &current)
    }

    /// Cancels the run: a finished run keeps its report, any other run
    /// terminates with the distinguished cancellation error.
    pub fn cancel(&mut self)
        requires
            old(self).wf(),
        ensures
            final(self).wf(),
            old(self).phase matches OrchPhase::Finished { .. } ==> *final(self) == *old(self),
            !(old(self).phase matches OrchPhase::Finished { .. }) ==> *final(self) == (
            BatchOrchestrator { phase: OrchPhase::Cancelled, ..*old(self) }),
    {
        match &self.phase {
            OrchPhase::Finished { .. } => {},
            _ => {
                self.phase = OrchPhase::Cancelled;
            },
        }
    }
}

/// With no batch settled, nothing is collected.
proof fn lemma_collected_all_none(rv: Seq<Option<Seq<(usize, String)>>>)
    requires
        forall|i: int| 0 <= i < rv.len() ==> rv[i] is None,
    ensures
        collected(rv) == Seq::<(usize, String)>::empty(),
    decreases rv.len(),
{
    if rv.len() > 0 {
        lemma_collected_all_none(rv.drop_last());
        assert(collected(rv) =~= Seq::<(usize, String)>::empty());
    }
}


// ---------------------------------------------------------------------------
// Outcome bookkeeping
// ---------------------------------------------------------------------------

/// The batches of `sent` whose outcome failed, in dispatch order.
pub open spec fn failed_of(
    sent: Seq<usize>,
    outcomes: Seq<Result<Seq<(usize, String)>, Seq<char>>>,
) -> Seq<usize>
    decreases outcomes.len(),
{
    if outcomes.len() == 0 || sent.len() != outcomes.len() {
        Seq::empty()
    } else {
        failed_of(sent.drop_last(), outcomes.drop_last()) + (if outcomes.last() is Err {
            seq![sent.last()]
        } else {
            Seq::empty()
        })
    }
}

/// The stored results once every successful outcome of the group is folded
/// in; failures change nothing.
pub open spec fn apply_outcomes(
    results: Seq<Option<Seq<(usize, String)>>>,
    sent: Seq<usize>,
    outcomes: Seq<Result<Seq<(usize, String)>, Seq<char>>>,
) -> Seq<Option<Seq<(usize, String)>>>
    decreases outcomes.len(),
{
    if outcomes.len() == 0 || sent.len() != outcomes.len() {
        results
    } else {
        let prev = apply_outcomes(results, sent.drop_last(), outcomes.drop_last());
        match outcomes.last() {
            Result::Ok(v) => if (sent.last() as int) < prev.len() {
                prev.update(sent.last() as int, Option::Some(v))
            } else {
                prev
            },
            Result::Err(_) => prev,
        }
    }
}

/// The message of the last failed outcome, or `default` when none failed.
pub open spec fn last_error_of(
    outcomes: Seq<Result<Seq<(usize, String)>, Seq<char>>>,
    default: Seq<char>,
) -> Seq<char>
    decreases outcomes.len(),
{
    if outcomes.len() == 0 {
        default
    } else {
        match outcomes.last() {
            Result::Err(e) => e,
            Result::Ok(_) => last_error_of(outcomes.drop_last(), default),
        }
    }
}

/// The diagnostic of a batch whose retries are exhausted.
pub open spec fn exhaust_message(max_retries: usize, last_error: Seq<char>) -> Seq<char> {
    "Translation failed after "@ + dec_rep(max_retries as nat) + " retries: "@ + last_error
}

/// Copies a list of entries.
#[verifier::loop_isolation(false)]
fn clone_entries(v: &Vec<(usize, String)>) -> (r: Vec<(usize, String)>)
    ensures
        r@ == v@,
{
    let mut r: Vec<(usize, String)> = Vec::new();
    let mut i: usize = 0;
    while i < v.len()
        invariant
            i <= v.len(),
            r@ == v@.take(i as int),
        decreases v.len() - i,
    {
        r.push((v[i].0, v[i].1.clone()));
        i = i + 1;
        assert(r@ =~= v@.take(i as int));
    }
    assert(r@ =~= v@);
    r
}

impl BatchOrchestrator {
    /// Builds the diagnostic of an exhausted batch.
    fn build_exhaust_message(&self) -> (r: String)
        ensures
            r@ == exhaust_message(self.max_retries, self.last_error@),
    {
        let mut msg = str_to_chars("Translation failed after ");
        let num = usize_to_chars(self.max_retries);
        push_all(&mut msg, &num);
        let mid = str_to_chars(" retries: ");
        push_all(&mut msg, &mid);
        let tail = str_to_chars(self.last_error.as_str());
        push_all(&mut msg, &tail);
        assert(msg@ =~= exhaust_message(self.max_retries, self.last_error@));
        chars_to_string(&msg)
    }

    /// Folds a dispatched group's outcomes into the run: successes are
    /// stored, failures queue up for retries in dispatch order, and the
    /// latest failure message is kept.
    #[verifier::loop_isolation(false)]
    pub fn record_group(&mut self, outcomes: &Vec<Result<Vec<(usize, String)>, String>>)
        requires
            old(self).wf(),
            old(self).phase matches OrchPhase::AwaitGroup(sent) && outcomes@.len() == sent@.len(),
        ensures
            final(self).wf(),
            !final(self).awaiting(),
            old(self).phase matches OrchPhase::AwaitGroup(sent) ==> {
                &&& results_view(final(self).results@) == apply_outcomes(
                    results_view(old(self).results@),
                    sent@,
                    outcomes_view(outcomes@),
                )
                &&& final(self).last_error@ == last_error_of(
                    outcomes_view(outcomes@),
                    old(self).last_error@,
                )
                &&& (failed_of(sent@, outcomes_view(outcomes@)).len() == 0
                    ==> final(self).phase matches OrchPhase::GroupDone)
                &&& (failed_of(sent@, outcomes_view(outcomes@)).len() > 0
                    ==> (final(self).phase matches OrchPhase::FailuresPending { queue, attempt }
                    && queue@ == failed_of(sent@, outcomes_view(outcomes@)) && attempt == 0))
            },
            final(self).batches == old(self).batches,
            final(self).cursor == old(self).cursor,
            final(self).entries_model == old(self).entries_model,
            final(self).max_retries == old(self).max_retries,
            final(self).auto_continue == old(self).auto_continue,
            final(self).continue_on_error == old(self).continue_on_error,
            final(self).parallel == old(self).parallel,
            final(self).batch_size == old(self).batch_size,
            final(self).total_entries == old(self).total_entries,
    {
        let sent = match &self.phase {
            OrchPhase::AwaitGroup(sent) => clone_usizes(sent),
            _ => {
                proof {
                    assert(false);
                }
                Vec::new()
            },
        };
        let ghost sent0 = sent@;
        let ghost results0 = results_view(self.results@);
        let ghost ov = outcomes_view(outcomes@);
        let ghost last_error0 = self.last_error@;
        let mut failed: Vec<usize> = Vec::new();
        let mut k: usize = 0;
        proof {
            assert(sent0.take(0) =~= Seq::<usize>::empty());
            assert(ov.take(0) =~= Seq::<Result<Seq<(usize, String)>, Seq<char>>>::empty());
            assert(results_view(self.results@) =~= apply_outcomes(results0, sent0.take(0),
                ov.take(0)));
            assert(failed@ =~= failed_of(sent0.take(0), ov.take(0)));
        }
        while k < outcomes.len()
            invariant
                k <= outcomes.len(),
                sent@ == sent0,
                ov == outcomes_view(outcomes@),
                ov.len() == outcomes@.len(),
                outcomes@.len() == sent0.len(),
                results_view(self.results@) == apply_outcomes(results0, sent0.take(k as int),
                    ov.take(k as int)),
                self.results@.len() == results0.len(),
                failed@ == failed_of(sent0.take(k as int), ov.take(k as int)),
                self.last_error@ == last_error_of(ov.take(k as int), last_error0),
                forall|j: int| 0 <= j < failed@.len() ==> (#[trigger] failed@[j]) < results0.len(),
                forall|j: int| 0 <= j < sent0.len() ==> (#[trigger] sent0[j]) < results0.len(),
                self.batches == old(self).batches,
                self.cursor == old(self).cursor,
                self.entries_model == old(self).entries_model,
                self.max_retries == old(self).max_retries,
                self.auto_continue == old(self).auto_continue,
                self.continue_on_error == old(self).continue_on_error,
                self.parallel == old(self).parallel,
                self.batch_size == old(self).batch_size,
                self.total_entries == old(self).total_entries,
                self.phase == old(self).phase,
            decreases outcomes.len() - k,
        {
            proof {
                assert(sent0.take(k + 1).drop_last() =~= sent0.take(k as int));
                assert(ov.take(k + 1).drop_last() =~= ov.take(k as int));
                assert(sent0.take(k + 1).last() == sent0[k as int]);
                assert(ov.take(k + 1).last() == ov[k as int]);
                assert(ov[k as int] == (match outcomes@[k as int] {
                    Result::Ok(v) => Result::<Seq<(usize, String)>, Seq<char>>::Ok(v@),
                    Result::Err(e) => Result::Err(e@),
                }));
            }
            match &outcomes[k] {
                Ok(v) => {
                    let idx = sent[k];
                    let cloned = clone_entries(v);
                    self.results.set(idx, Some(cloned));
                    proof {
                        assert(results_view(self.results@) =~= apply_outcomes(results0,
                            sent0.take(k as int), ov.take(k as int)).update(idx as int,
                            Option::Some(v@)));
                        assert(failed@ =~= failed_of(sent0.take(k + 1), ov.take(k + 1)));
                    }
                },
                Err(e) => {
                    failed.push(sent[k]);
                    self.last_error = clone_string(e);
                    proof {
                        assert(failed@ =~= failed_of(sent0.take(k + 1), ov.take(k + 1)));
                    }
                },
            }
            k = k + 1;
        }
        proof {
            assert(sent0.take(k as int) =~= sent0);
            assert(ov.take(k as int) =~= ov);
        }
        if failed.len() == 0 {
            self.phase = OrchPhase::GroupDone;
        } else {
            self.phase = OrchPhase::FailuresPending { queue: failed, attempt: 0 };
        }
    }

    /// Folds a retry outcome in: a success settles the queue head, a
    /// failure keeps it queued with its attempt count.
    pub fn record_retry(&mut self, outcome: &Result<Vec<(usize, String)>, String>)
        requires
            old(self).wf(),
            old(self).phase matches OrchPhase::AwaitRetry { .. },
        ensures
            final(self).wf(),
            !final(self).awaiting(),
            old(self).phase matches OrchPhase::AwaitRetry { queue, attempt } ==> {
                &&& (outcome matches Result::Ok(v) ==> {
                    &&& results_view(final(self).results@) == results_view(
                        old(self).results@,
                    ).update(queue@[0] as int, Option::Some(v@))
                    &&& final(self).last_error == old(self).last_error
                    &&& (queue@.len() == 1 ==> final(self).phase matches OrchPhase::GroupDone)
                    &&& (queue@.len() > 1 ==> (final(self).phase matches
                        OrchPhase::FailuresPending { queue: q2, attempt: a2 } && q2@
                        == queue@.drop_first() && a2 == 0))
                })
                &&& (outcome matches Result::Err(e) ==> {
                    &&& final(self).results == old(self).results
                    &&& final(self).last_error@ == e@
                    &&& (final(self).phase matches OrchPhase::FailuresPending {
                        queue: q2,
                        attempt: a2,
                    } && q2@ == queue@ && a2 == attempt)
                })
            },
            final(self).batches == old(self).batches,
            final(self).cursor == old(self).cursor,
            final(self).entries_model == old(self).entries_model,
            final(self).max_retries == old(self).max_retries,
            final(self).auto_continue == old(self).auto_continue,
            final(self).continue_on_error == old(self).continue_on_error,
            final(self).parallel == old(self).parallel,
            final(self).batch_size == old(self).batch_size,
            final(self).total_entries == old(self).total_entries,
    {
        let (queue, attempt) = match &self.phase {
            OrchPhase::AwaitRetry { queue, attempt } => (clone_usizes(queue), *attempt),
            _ => {
                proof {
                    assert(false);
                }
                (Vec::new(), 0)
            },
        };
        let ghost queue0 = queue@;
        match outcome {
            Ok(v) => {
                let idx = queue[0];
                let cloned = clone_entries(v);
                self.results.set(idx, Some(cloned));
                proof {
                    assert(results_view(self.results@) =~= results_view(
                        old(self).results@,
                    ).update(idx as int, Option::Some(v@)));
                }
                if queue.len() == 1 {
                    self.phase = OrchPhase::GroupDone;
                } else {
                    let mut q2 = queue;
                    let _head = q2.remove(0);
                    proof {
                        assert(q2@ =~= queue0.drop_first());
                    }
                    self.phase = OrchPhase::FailuresPending { queue: q2, attempt: 0 };
                }
            },
            Err(e) => {
                self.last_error = clone_string(e);
                self.phase = OrchPhase::FailuresPending { queue, attempt };
            },
        }
    }
}

/// Copies a list of batch numbers.
#[verifier::loop_isolation(false)]
fn clone_usizes(v: &Vec<usize>) -> (r: Vec<usize>)
    ensures
        r@ == v@,
{
    let mut r: Vec<usize> = Vec::new();
    let mut i: usize = 0;
    while i < v.len()
        invariant
            i <= v.len(),
            r@ == v@.take(i as int),
        decreases v.len() - i,
    {
        r.push(v[i]);
        i = i + 1;
        assert(r@ =~= v@.take(i as int));
    }
    assert(r@ =~= v@);
    r
}

/// Copies an error message.
fn clone_string(s: &String) -> (r: String)
    ensures
        r@ == s@,
{
    s.clone()
}


impl BatchOrchestrator {
    /// Collects the batches of the current group that still need a result.
    #[verifier::loop_isolation(false)]
    fn pending_batches(&self, lo: usize, hi: usize) -> (r: Vec<usize>)
        requires
            lo <= hi,
            hi <= self.results@.len(),
        ensures
            r@ == pending_in(results_view(self.results@), lo as int, hi as int),
            forall|k: int| 0 <= k < r@.len() ==> lo <= (#[trigger] r@[k]) < hi,
            forall|k1: int, k2: int| 0 <= k1 < k2 < r@.len() ==> r@[k1] < r@[k2],
    {
        let ghost rv = results_view(self.results@);
        let mut r: Vec<usize> = Vec::new();
        let mut i: usize = lo;
        while i < hi
            invariant
                lo <= i <= hi,
                rv == results_view(self.results@),
                rv.len() == self.results@.len(),
                pending_in(rv, lo as int, hi as int) == r@ + pending_in(rv, i as int, hi as int),
                forall|k: int| 0 <= k < r@.len() ==> lo <= (#[trigger] r@[k]) < i,
                forall|k1: int, k2: int| 0 <= k1 < k2 < r@.len() ==> r@[k1] < r@[k2],
            decreases hi - i,
        {
            proof {
                assert(rv[i as int] == (match self.results@[i as int] {
                    Option::None => Option::<Seq<(usize, String)>>::None,
                    Option::Some(v) => Option::Some(v@),
                }));
            }
            if self.results[i].is_none() {
                r.push(i);
            }
            i = i + 1;
        }
        assert(pending_in(rv, i as int, hi as int) =~= Seq::<usize>::empty());
        assert(r@ =~= r@ + pending_in(rv, i as int, hi as int));
        r
    }

    /// Takes the next decision: dispatch the current group, retry or give
    /// up on a failed batch, report progress after a group, or finish.
    /// The returned events are to be delivered in order before the step is
    /// performed.
    pub fn advance(&mut self) -> (r: (Vec<OrchestratorEvent>, OrchestratorStep))
        requires
            old(self).wf(),
            !old(self).awaiting(),
        ensures
            final(self).wf(),
            final(self).results == old(self).results,
            final(self).batches == old(self).batches,
            final(self).entries_model == old(self).entries_model,
            final(self).last_error == old(self).last_error,
            final(self).max_retries == old(self).max_retries,
            final(self).auto_continue == old(self).auto_continue,
            final(self).continue_on_error == old(self).continue_on_error,
            final(self).parallel == old(self).parallel,
            final(self).batch_size == old(self).batch_size,
            final(self).total_entries == old(self).total_entries,
            old(self).done() ==> *final(self) == *old(self) && r.0@.len() == 0 && (
            r.1 matches OrchestratorStep::Finished),
            old(self).phase matches OrchPhase::StartGroup ==> {
                let nb = old(self).batches@.len() as int;
                let cursor = old(self).cursor as int;
                if cursor >= nb {
                    &&& (final(self).phase matches OrchPhase::Finished { error_message }
                        && error_message is None)
                    &&& r.0@.len() == 0
                    &&& (r.1 matches OrchestratorStep::Proceed)
                    &&& final(self).cursor == old(self).cursor
                } else {
                    let hi = if cursor + old(self).parallel <= nb {
                        cursor + old(self).parallel
                    } else {
                        nb
                    };
                    let pending = pending_in(results_view(old(self).results@), cursor, hi);
                    if pending.len() == 0 {
                        &&& (final(self).phase matches OrchPhase::StartGroup)
                        &&& final(self).cursor == hi
                        &&& r.0@.len() == 0
                        &&& (r.1 matches OrchestratorStep::Proceed)
                    } else {
                        &&& (final(self).phase matches OrchPhase::AwaitGroup(sent) && sent@
                            == pending)
                        &&& final(self).cursor == old(self).cursor
                        &&& r.0@.len() == 0
                        &&& (r.1 matches OrchestratorStep::Dispatch(d) && d@ == pending)
                    }
                }
            },
            old(self).phase matches OrchPhase::FailuresPending { queue, attempt } ==> {
                let progress = spec_build_progress(
                    old(self).total_entries,
                    collected(results_view(old(self).results@)),
                );
                if attempt >= old(self).max_retries {
                    let msg = exhaust_message(old(self).max_retries, old(self).last_error@);
                    let error_progress = TranslationProgress {
                        can_continue: old(self).continue_on_error && progress.is_partial,
                        ..progress
                    };
                    &&& r.0@.len() == 1
                    &&& (r.0@[0] matches OrchestratorEvent::Error(info) && info.error_message@
                        == msg && info.progress == error_progress)
                    &&& (r.1 matches OrchestratorStep::Proceed)
                    &&& (!old(self).continue_on_error ==> (final(self).phase matches
                        OrchPhase::Finished { error_message } && error_message matches
                        Option::Some(m) && m@ == msg))
                    &&& (old(self).continue_on_error ==> {
                        &&& (queue@.len() == 1 ==> final(self).phase matches OrchPhase::GroupDone)
                        &&& (queue@.len() > 1 ==> (final(self).phase matches
                            OrchPhase::FailuresPending { queue: q2, attempt: a2 } && q2@
                            == queue@.drop_first() && a2 == 0))
                    })
                } else {
                    &&& r.0@.len() == 1
                    &&& (r.0@[0] matches OrchestratorEvent::Retry(info) && info.attempt == attempt
                        + 1 && info.max_retries == old(self).max_retries && info.error_message@
                        == old(self).last_error@ && info.progress == progress)
                    &&& (r.1 matches OrchestratorStep::Backoff(b) && b == queue@[0])
                    &&& (final(self).phase matches OrchPhase::AwaitRetry {
                        queue: q2,
                        attempt: a2,
                    } && q2@ == queue@ && a2 == attempt + 1)
                }
            },
            old(self).phase matches OrchPhase::GroupDone ==> {
                let progress = spec_build_progress(
                    old(self).total_entries,
                    collected(results_view(old(self).results@)),
                );
                &&& r.0@.len() == 1
                &&& (r.0@[0] matches OrchestratorEvent::Progress(p) && p == progress)
                &&& (r.1 matches OrchestratorStep::Proceed)
                &&& (!old(self).auto_continue && progress.is_partial ==> (final(self).phase matches OrchPhase::Finished { error_message } && error_message is None))
                &&& (!(!old(self).auto_continue && progress.is_partial) ==> (final(self).phase matches OrchPhase::StartGroup && final(self).cursor as int == (if old(self).cursor
                    + old(self).parallel <= old(self).batches@.len() {
                    old(self).cursor + old(self).parallel
                } else {
                    old(self).batches@.len() as int
                })))
            },
    {
        let mut events: Vec<OrchestratorEvent> = Vec::new();
        match &self.phase {
            OrchPhase::Cancelled => {
                return (events, OrchestratorStep::Finished);
            },
            OrchPhase::Finished { .. } => {
                return (events, OrchestratorStep::Finished);
            },
            OrchPhase::StartGroup => {
                let nb = self.batches.len();
                if self.cursor >= nb {
                    self.phase = OrchPhase::Finished { error_message: None };
                    return (events, OrchestratorStep::Proceed);
                }
                let hi = if self.parallel <= nb - self.cursor {
                    self.cursor + self.parallel
                } else {
                    nb
                };
                let pending = self.pending_batches(self.cursor, hi);
                if pending.len() == 0 {
                    self.cursor = hi;
                    return (events, OrchestratorStep::Proceed);
                }
                let dispatch = clone_usizes(&pending);
                self.phase = OrchPhase::AwaitGroup(pending);
                return (events, OrchestratorStep::Dispatch(dispatch));
            },
            OrchPhase::FailuresPending { queue, attempt } => {
                let queue = clone_usizes(queue);
                let attempt = *attempt;
                let progress = self.current_progress();
                if attempt >= self.max_retries {
                    let msg = self.build_exhaust_message();
                    let error_progress = TranslationProgress {
                        total_entries: progress.total_entries,
                        translated_entries: progress.translated_entries,
                        last_translated_index: progress.last_translated_index,
                        is_partial: progress.is_partial,
                        can_continue: self.continue_on_error && progress.is_partial,
                    };
                    events.push(
                        OrchestratorEvent::Error(
                            TranslationErrorInfo {
                                error_message: msg.clone(),
                                progress: error_progress,
                            },
                        ),
                    );
                    if !self.continue_on_error {
                        self.phase = OrchPhase::Finished { error_message: Some(msg) };
                        return (events, OrchestratorStep::Proceed);
                    }
                    if queue.len() == 1 {
                        self.phase = OrchPhase::GroupDone;
                    } else {
                        let ghost queue0 = queue@;
                        let mut q2 = queue;
                        let _head = q2.remove(0);
                        proof {
                            assert(q2@ =~= queue0.drop_first());
                        }
                        self.phase = OrchPhase::FailuresPending { queue: q2, attempt: 0 };
                    }
                    return (events, OrchestratorStep::Proceed);
                }
                let head = queue[0];
                events.push(
                    OrchestratorEvent::Retry(
                        TranslationRetryInfo {
                            attempt: attempt + 1,
                            max_retries: self.max_retries,
                            error_message: self.last_error.clone(),
                            progress,
                        },
                    ),
                );
                self.phase = OrchPhase::AwaitRetry { queue, attempt: attempt + 1 };
                return (events, OrchestratorStep::Backoff(head));
            },
            OrchPhase::GroupDone => {
                let progress = self.current_progress();
                events.push(OrchestratorEvent::Progress(progress));
                if !self.auto_continue && progress.is_partial {
                    self.phase = OrchPhase::Finished { error_message: None };
                    return (events, OrchestratorStep::Proceed);
                }
                let nb = self.batches.len();
                let hi = if self.parallel <= nb - self.cursor {
                    self.cursor + self.parallel
                } else {
                    nb
                };
                self.cursor = hi;
                self.phase = OrchPhase::StartGroup;
                return (events, OrchestratorStep::Proceed);
            },
            OrchPhase::AwaitGroup(_) => {
                proof {
                    assert(false);
                }
                (events, OrchestratorStep::Proceed)
            },
            OrchPhase::AwaitRetry { .. } => {
                proof {
                    assert(false);
                }
                (events, OrchestratorStep::Proceed)
            },
        }
    }

    /// The final report of a finished run: every stored translation sorted
    /// ascending by index, the derived progress, and the fail-fast error
    /// if one ended the run.  A cancelled run yields the distinguished
    /// cancellation error instead.
    pub fn into_report(self) -> (r: Result<TranslationBatchReport, String>)
        requires
            self.wf(),
            self.done(),
        ensures
            match r {
                Ok(rep) => {
                    &&& (self.phase matches OrchPhase::Finished { error_message }
                        && rep.error_message == error_message)
                    &&& sorted_by_index(rep.translations@)
                    &&& rep.translations@.to_multiset() == collected(
                        results_view(self.results@),
                    ).to_multiset()
                    &&& rep.translations@.len() == collected(results_view(self.results@)).len()
                    &&& rep.progress.total_entries == self.total_entries
                    &&& rep.progress.translated_entries == rep.translations@.len()
                    &&& rep.progress.last_translated_index == spec_max_index(rep.translations@)
                    &&& rep.progress.is_partial == (rep.translations@.len()
                        < self.total_entries)
                    &&& rep.progress.can_continue == (if rep.error_message is Some {
                        self.continue_on_error && rep.progress.is_partial
                    } else {
                        rep.progress.is_partial
                    })
                },
                Err(m) => self.phase matches OrchPhase::Cancelled && m@
                    == "Translation cancelled"@,
            },
    {
        match &self.phase {
            OrchPhase::Cancelled => {
                proof {
                    reveal_strlit("Translation cancelled");
                }
                Err(String::from_str(TRANSLATION_CANCELLED_ERROR))
            },
            OrchPhase::Finished { error_message } => {
                let error_message = match error_message {
                    Some(m) => Some(m.clone()),
                    None => None,
                };
                let all = self.collect_translations();
                let translations = sort_by_index(all);
                let n = translations.len();
                assert(translations@.len() <= usize::MAX);
                proof {
                    translations@.to_multiset_ensures();
                    collected(results_view(self.results@)).to_multiset_ensures();
                }
                let progress0 = build_progress(self.total_entries, &translations);
                let progress = TranslationProgress {
                    total_entries: progress0.total_entries,
                    translated_entries: progress0.translated_entries,
                    last_translated_index: progress0.last_translated_index,
                    is_partial: progress0.is_partial,
                    can_continue: if error_message.is_some() {
                        self.continue_on_error && progress0.is_partial
                    } else {
                        progress0.is_partial
                    },
                };
                Ok(TranslationBatchReport { translations, progress, error_message })
            },
            _ => {
                proof {
                    assert(false);
                }
                Err(String::new())
            },
        }
    }
}


// ---------------------------------------------------------------------------
// The resumable single-batch entry point
// ---------------------------------------------------------------------------

/// The window a resumed call works on: the first `size` entries whose
/// index is at least `start`.
pub open spec fn spec_plan_batch(entries: Seq<(usize, String)>, start: int, size: int) -> Seq<
    (usize, String),
>
    decreases entries.len(),
{
    if entries.len() == 0 || size <= 0 {
        Seq::empty()
    } else if entries[0].0 >= start {
        seq![entries[0]] + spec_plan_batch(entries.drop_first(), start, size - 1)
    } else {
        spec_plan_batch(entries.drop_first(), start, size)
    }
}

/// How many entries lie strictly below `start`.
pub open spec fn spec_count_below(entries: Seq<(usize, String)>, start: usize) -> nat
    decreases entries.len(),
{
    if entries.len() == 0 {
        0
    } else {
        spec_count_below(entries.drop_last(), start) + (if entries.last().0 < start {
            1nat
        } else {
            0nat
        })
    }
}

/// Picks the batch a resumed call translates: the first `batch_size`
/// entries at or past `start_index`.
#[verifier::loop_isolation(false)]
pub fn plan_batch(entries: &Vec<(usize, String)>, start_index: usize, batch_size: usize) -> (r:
    Vec<(usize, String)>)
    ensures
        r@ == spec_plan_batch(entries@, start_index as int, batch_size as int),
        r@.len() <= batch_size,
{
    let mut r: Vec<(usize, String)> = Vec::new();
    let mut i: usize = 0;
    proof {
        assert(entries@.skip(0) =~= entries@);
        assert(r@ + spec_plan_batch(entries@, start_index as int, batch_size as int)
            =~= spec_plan_batch(entries@, start_index as int, batch_size as int));
    }
    while i < entries.len() && r.len() < batch_size
        invariant
            i <= entries.len(),
            r@.len() <= batch_size,
            spec_plan_batch(entries@, start_index as int, batch_size as int) == r@
                + spec_plan_batch(
                entries@.skip(i as int),
                start_index as int,
                batch_size - r@.len(),
            ),
        decreases entries.len() - i,
    {
        proof {
            assert(entries@.skip(i as int)[0] == entries@[i as int]);
            assert(entries@.skip(i as int).drop_first() =~= entries@.skip(i + 1));
        }
        if entries[i].0 >= start_index {
            r.push((entries[i].0, entries[i].1.clone()));
        }
        i = i + 1;
    }
    proof {
        if i == entries@.len() {
            assert(entries@.skip(i as int) =~= Seq::<(usize, String)>::empty());
        }
        assert(r@ =~= r@ + spec_plan_batch(
            entries@.skip(i as int),
            start_index as int,
            batch_size - r@.len(),
        ));
    }
    r
}

/// Counts the entries whose index lies below `start_index`.
#[verifier::loop_isolation(false)]
pub fn count_below(entries: &Vec<(usize, String)>, start_index: usize) -> (n: usize)
    ensures
        n == spec_count_below(entries@, start_index),
        n <= entries@.len(),
{
    let mut n: usize = 0;
    let mut i: usize = 0;
    proof {
        assert(entries@.take(0) =~= Seq::<(usize, String)>::empty());
    }
    while i < entries.len()
        invariant
            i <= entries.len(),
            n <= i,
            n == spec_count_below(entries@.take(i as int), start_index),
        decreases entries.len() - i,
    {
        proof {
            assert(entries@.take(i + 1).drop_last() =~= entries@.take(i as int));
            assert(entries@.take(i + 1).last() == entries@[i as int]);
        }
        if entries[i].0 < start_index {
            n = n + 1;
        }
        i = i + 1;
    }
    assert(entries@.take(i as int) =~= entries@);
    n
}

/// The result of a resumed call whose window is empty: nothing to do, the
/// run is complete as far as this cursor is concerned.
pub fn empty_batch_result(entries: &Vec<(usize, String)>, start_index: usize) -> (r:
    BatchTranslationResult)
    ensures
        r.translations@.len() == 0,
        r.progress.total_entries == entries@.len(),
        r.progress.translated_entries == spec_count_below(entries@, start_index),
        r.progress.last_translated_index as int == (if start_index >= 1 {
            start_index - 1
        } else {
            0int
        }),
        r.progress.is_partial == false,
        r.progress.can_continue == false,
{
    let translated = count_below(entries, start_index);
    BatchTranslationResult {
        translations: Vec::new(),
        progress: TranslationProgress {
            total_entries: entries.len(),
            translated_entries: translated,
            last_translated_index: if start_index >= 1 {
                start_index - 1
            } else {
                0
            },
            is_partial: false,
            can_continue: false,
        },
    }
}

/// Folds the translations of a resumed call into its result: progress
/// counts everything below the cursor plus what this call translated, and
/// the run can continue exactly while it is partial and produced output.
pub fn batch_call_result(
    entries: &Vec<(usize, String)>,
    start_index: usize,
    translations: Vec<(usize, String)>,
) -> (r: BatchTranslationResult)
    requires
        spec_count_below(entries@, start_index) + translations@.len() <= usize::MAX,
    ensures
        r.translations == translations,
        r.progress.total_entries == entries@.len(),
        r.progress.translated_entries == spec_count_below(entries@, start_index)
            + translations@.len(),
        r.progress.last_translated_index == (if translations@.len() > 0 {
            translations@.last().0
        } else {
            0usize
        }),
        r.progress.is_partial == (spec_count_below(entries@, start_index) + translations@.len()
            < entries@.len()),
        r.progress.can_continue == (spec_count_below(entries@, start_index)
            + translations@.len() < entries@.len() && translations@.len() > 0),
{
    let below = count_below(entries, start_index);
    let translated = below + translations.len();
    let last = if translations.len() > 0 {
        translations[translations.len() - 1].0
    } else {
        0
    };
    let is_partial = translated < entries.len();
    let can_continue = is_partial && translations.len() > 0;
    BatchTranslationResult {
        translations,
        progress: TranslationProgress {
            total_entries: entries.len(),
            translated_entries: translated,
            last_translated_index: last,
            is_partial,
            can_continue,
        },
    }
}


// ---------------------------------------------------------------------------
// The index-correlation law
// ---------------------------------------------------------------------------

/// No index occurs twice.
pub open spec fn unique_indices(ts: Seq<(usize, String)>) -> bool {
    forall|i: int, j: int| 0 <= i < j < ts.len() ==> ts[i].0 != ts[j].0
}

/// Some entry carries the index.
pub open spec fn index_in(ts: Seq<(usize, String)>, index: usize) -> bool {
    exists|k: int| 0 <= k < ts.len() && ts[k].0 == index
}

/// Each chunk is a window of the entry list.
proof fn lemma_chunks_window(entries: Seq<(usize, String)>, size: usize, i: int)
    requires
        size >= 1,
        0 <= i < spec_chunks(entries, size).len(),
    ensures
        i * size < entries.len(),
        spec_chunks(entries, size)[i] == entries.subrange(
            i * size,
            if i * size + size <= entries.len() {
                i * size + size
            } else {
                entries.len() as int
            },
        ),
    decreases i,
{
    if i == 0 {
        if entries.len() <= size {
            assert(spec_chunks(entries, size)[0] =~= entries.subrange(0, entries.len() as int));
        } else {
            assert(spec_chunks(entries, size)[0] =~= entries.subrange(0, size as int));
        }
    } else {
        assert(entries.len() > size);
        let rest = entries.skip(size as int);
        assert(spec_chunks(entries, size)[i] == spec_chunks(rest, size)[i - 1]);
        lemma_chunks_window(rest, size, i - 1);
        assert((i - 1) * size + size == i * size) by (nonlinear_arith);
        assert(rest.len() == entries.len() - size);
        assert(i * size < entries.len());
        let lo = (i - 1) * size;
        let hi = if lo + size <= rest.len() {
            lo + size
        } else {
            rest.len() as int
        };
        assert(rest.subrange(lo, hi) =~= entries.subrange(lo + size, hi + size));
    }
}

/// Two chunks that share an index are one chunk, when the entry indices
/// are unique.
proof fn lemma_chunks_distinct(
    entries: Seq<(usize, String)>,
    size: usize,
    i: int,
    j: int,
    x: usize,
)
    requires
        size >= 1,
        unique_indices(entries),
        0 <= i <= j < spec_chunks(entries, size).len(),
        index_in(spec_chunks(entries, size)[i], x),
        index_in(spec_chunks(entries, size)[j], x),
    ensures
        i == j,
{
    if i < j {
        lemma_chunks_window(entries, size, i);
        lemma_chunks_window(entries, size, j);
        let bi = spec_chunks(entries, size)[i];
        let bj = spec_chunks(entries, size)[j];
        let ki = choose|k: int| 0 <= k < bi.len() && bi[k].0 == x;
        let kj = choose|k: int| 0 <= k < bj.len() && bj[k].0 == x;
        let pi = i * size + ki;
        let pj = j * size + kj;
        assert(entries[pi].0 == x);
        assert(entries[pj].0 == x);
        assert(i * size + size <= j * size) by (nonlinear_arith)
            requires i < j && size >= 1;
        assert(pi < pj);
    }
}

/// An index of a chunk is an index of the entry list.
proof fn lemma_chunks_member(entries: Seq<(usize, String)>, size: usize, i: int, x: usize)
    requires
        size >= 1,
        0 <= i < spec_chunks(entries, size).len(),
        index_in(spec_chunks(entries, size)[i], x),
    ensures
        index_in(entries, x),
{
    lemma_chunks_window(entries, size, i);
    let bi = spec_chunks(entries, size)[i];
    let ki = choose|k: int| 0 <= k < bi.len() && bi[k].0 == x;
    assert(entries[i * size + ki].0 == x);
}

/// Some batch among the first `n` carries the index.
pub open spec fn from_some_batch(batches: Seq<Seq<(usize, String)>>, n: int, x: usize) -> bool {
    exists|i: int| 0 <= i < n && index_in(#[trigger] batches[i], x)
}

/// Folds per-batch uniqueness and membership into the collected list.
proof fn lemma_collected_correlation(
    batches: Seq<Seq<(usize, String)>>,
    rv: Seq<Option<Seq<(usize, String)>>>,
)
    requires
        rv.len() <= batches.len(),
        forall|i: int, j: int, x: usize|
            0 <= i <= j < batches.len() && #[trigger] index_in(batches[i], x)
                && #[trigger] index_in(batches[j], x) ==> i == j,
        forall|i: int|
            0 <= i < rv.len() ==> match #[trigger] rv[i] {
                Option::Some(v) => unique_indices(v) && (forall|k: int|
                    0 <= k < v.len() ==> index_in(batches[i], (#[trigger] v[k]).0)),
                Option::None => true,
            },
    ensures
        unique_indices(collected(rv)),
        forall|k: int|
            0 <= k < collected(rv).len() ==> from_some_batch(
                batches,
                rv.len() as int,
                (#[trigger] collected(rv)[k]).0,
            ),
    decreases rv.len(),
{
    if rv.len() > 0 {
        lemma_collected_correlation(batches, rv.drop_last());
        let prefix = collected(rv.drop_last());
        let whole = collected(rv);
        let part: Seq<(usize, String)> = match rv.last() {
            Option::Some(v) => v,
            Option::None => Seq::empty(),
        };
        assert(whole == prefix + part);
        let n = rv.len() - 1;
        assert(rv[n] == rv.last());
        assert(rv.drop_last().len() == n);
        assert forall|k1: int, k2: int| 0 <= k1 < k2 < whole.len() implies whole[k1].0
            != whole[k2].0 by {
            if k2 < prefix.len() {
                assert(whole[k1] == prefix[k1] && whole[k2] == prefix[k2]);
            } else if k1 >= prefix.len() {
                assert(rv.last() matches Option::Some(v) && whole[k1] == v[k1 - prefix.len()]
                    && whole[k2] == v[k2 - prefix.len()]);
            } else {
                assert(whole[k1] == prefix[k1]);
                assert(from_some_batch(batches, n, prefix[k1].0));
                let i1 = choose|i: int| 0 <= i < n && index_in(#[trigger] batches[i], prefix[k1].0);
                assert(rv.last() matches Option::Some(v) && whole[k2] == v[k2 - prefix.len()]);
                if whole[k1].0 == whole[k2].0 {
                    assert(index_in(batches[i1], whole[k1].0));
                    assert(index_in(batches[n], whole[k2].0));
                }
            }
        }
        assert forall|k: int| 0 <= k < whole.len() implies from_some_batch(
            batches,
            rv.len() as int,
            (#[trigger] whole[k]).0,
        ) by {
            if k < prefix.len() {
                assert(from_some_batch(batches, n, prefix[k].0));
                let i1 = choose|i: int| 0 <= i < n && index_in(#[trigger] batches[i], prefix[k].0);
                assert(index_in(batches[i1], whole[k].0));
            } else {
                assert(rv.last() matches Option::Some(v) && whole[k] == v[k - prefix.len()]);
                assert(index_in(batches[n], whole[k].0));
            }
        }
    }
}

/// Unique indices carry over to any reordering of the same entries.
proof fn lemma_unique_indices_reorder(a: Seq<(usize, String)>, b: Seq<(usize, String)>)
    requires
        a.to_multiset() == b.to_multiset(),
        unique_indices(a),
    ensures
        unique_indices(b),
        forall|k: int| 0 <= k < b.len() ==> a.contains(#[trigger] b[k]),
{
    broadcast use vstd::seq_lib::group_to_multiset_ensures;
    broadcast use vstd::multiset::group_multiset_axioms;

    assert forall|k: int| 0 <= k < b.len() implies a.contains(#[trigger] b[k]) by {
        assert(b.to_multiset().count(b[k]) > 0);
    }
    assert forall|k1: int, k2: int| 0 <= k1 < k2 < b.len() implies b[k1].0 != b[k2].0 by {
        if b[k1].0 == b[k2].0 {
            if b[k1] == b[k2] {
                let x = b[k1];
                assert(b.remove(k2).to_multiset() =~= b.to_multiset().remove(x));
                assert(b.remove(k2)[k1] == x);
                assert(b.remove(k2).contains(x));
                assert(b.remove(k2).to_multiset().count(x) > 0);
                assert(b.to_multiset().count(x) >= 2);
                assert(a.to_multiset().count(x) >= 2);
                assert(a.contains(x));
                let i1 = choose|i: int| 0 <= i < a.len() && a[i] == x;
                assert(a.remove(i1).to_multiset() =~= a.to_multiset().remove(x));
                assert(a.remove(i1).to_multiset().count(x) > 0);
                assert(a.remove(i1).contains(x));
                let i2 = choose|i: int| 0 <= i < a.remove(i1).len() && a.remove(i1)[i] == x;
                if i2 < i1 {
                    assert(a[i2] == x);
                } else {
                    assert(a[i2 + 1] == x);
                }
            } else {
                assert(a.contains(b[k1]));
                assert(a.contains(b[k2]));
                let i1 = choose|i: int| 0 <= i < a.len() && a[i] == b[k1];
                let i2 = choose|i: int| 0 <= i < a.len() && a[i] == b[k2];
                assert(i1 != i2);
            }
        }
    }
}

/// *Index correlation*: when the caller's entries carry unique indices and
/// every stored batch outcome draws unique indices from its own batch,
/// then any reordering of everything collected — the report's translation
/// list among them — carries only indices of the input, and none twice.
pub proof fn lemma_index_correlation(o: BatchOrchestrator, translations: Seq<(usize, String)>)
    requires
        o.wf(),
        unique_indices(o.entries_model@),
        forall|i: int|
            0 <= i < o.results@.len() ==> match #[trigger] results_view(o.results@)[i] {
                Option::Some(v) => unique_indices(v) && (forall|k: int|
                    0 <= k < v.len() ==> index_in(
                        o.batches@.map_values(|b: Vec<(usize, String)>| b@)[i],
                        (#[trigger] v[k]).0,
                    )),
                Option::None => true,
            },
        translations.to_multiset() == collected(results_view(o.results@)).to_multiset(),
    ensures
        unique_indices(translations),
        forall|k: int|
            0 <= k < translations.len() ==> index_in(
                o.entries_model@,
                (#[trigger] translations[k]).0,
            ),
{
    let batches = o.batches@.map_values(|b: Vec<(usize, String)>| b@);
    let rv = results_view(o.results@);
    assert(rv.len() == batches.len());
    assert forall|i: int, j: int, x: usize|
        0 <= i <= j < batches.len() && #[trigger] index_in(batches[i], x)
            && #[trigger] index_in(batches[j], x) implies i == j by {
        lemma_chunks_distinct(o.entries_model@, o.batch_size, i, j, x);
    }
    lemma_collected_correlation(batches, rv);
    let coll = collected(rv);
    lemma_unique_indices_reorder(coll, translations);
    assert forall|k: int| 0 <= k < translations.len() implies index_in(
        o.entries_model@,
        (#[trigger] translations[k]).0,
    ) by {
        assert(coll.contains(translations[k]));
        let kc = choose|i: int| 0 <= i < coll.len() && coll[i] == translations[k];
        assert(from_some_batch(batches, rv.len() as int, coll[kc].0));
        let bi = choose|i: int| 0 <= i < rv.len() && index_in(#[trigger] batches[i], coll[kc].0);
        lemma_chunks_member(o.entries_model@, o.batch_size, bi, coll[kc].0);
    }
}


// ---------------------------------------------------------------------------
// The resumability law
// ---------------------------------------------------------------------------

/// Indices grow strictly along the entry list.
pub open spec fn strictly_increasing(ts: Seq<(usize, String)>) -> bool {
    forall|i: int, j: int| 0 <= i < j < ts.len() ==> ts[i].0 < ts[j].0
}

/// Every planned entry comes from the list, at or past the cursor.
proof fn lemma_plan_member(entries: Seq<(usize, String)>, start: int, size: int, k: int)
    requires
        0 <= k < spec_plan_batch(entries, start, size).len(),
    ensures
        entries.contains(spec_plan_batch(entries, start, size)[k]),
        spec_plan_batch(entries, start, size)[k].0 >= start,
    decreases entries.len(),
{
    if entries.len() > 0 && size > 0 {
        if entries[0].0 >= start {
            if k > 0 {
                lemma_plan_member(entries.drop_first(), start, size - 1, k - 1);
                let e = spec_plan_batch(entries.drop_first(), start, size - 1)[k - 1];
                let j = choose|j: int|
                    0 <= j < entries.drop_first().len() && entries.drop_first()[j] == e;
                assert(entries[j + 1] == e);
            }
        } else {
            lemma_plan_member(entries.drop_first(), start, size, k);
            let e = spec_plan_batch(entries.drop_first(), start, size)[k];
            let j = choose|j: int|
                0 <= j < entries.drop_first().len() && entries.drop_first()[j] == e;
            assert(entries[j + 1] == e);
        }
    }
}

/// Two cursors that admit the same entries plan the same window.
proof fn lemma_plan_same(entries: Seq<(usize, String)>, s1: int, s2: int, size: int)
    requires
        forall|k: int| 0 <= k < entries.len() ==> (((#[trigger] entries[k]).0 >= s1) <==> (
        entries[k].0 >= s2)),
    ensures
        spec_plan_batch(entries, s1, size) == spec_plan_batch(entries, s2, size),
    decreases entries.len(),
{
    if entries.len() > 0 && size > 0 {
        assert(forall|k: int|
            0 <= k < entries.drop_first().len() ==> (#[trigger] entries.drop_first()[k])
                == entries[k + 1]);
        if entries[0].0 >= s1 {
            lemma_plan_same(entries.drop_first(), s1, s2, size - 1);
        } else {
            lemma_plan_same(entries.drop_first(), s1, s2, size);
        }
    }
}

/// *Resumability*: over entries with strictly increasing indices, a window
/// of `b1` entries from `start` followed by a window of `b2` entries from
/// one past the first window's last index covers exactly the single
/// uninterrupted window of `b1 + b2` entries from `start`; merging the two
/// partial runs therefore reproduces the single run.
pub proof fn lemma_resume_covers(entries: Seq<(usize, String)>, start: int, b1: int, b2: int)
    requires
        strictly_increasing(entries),
        b1 >= 1,
        b2 >= 0,
        spec_plan_batch(entries, start, b1).len() > 0,
    ensures
        spec_plan_batch(entries, start, b1) + spec_plan_batch(
            entries,
            spec_plan_batch(entries, start, b1).last().0 + 1,
            b2,
        ) == spec_plan_batch(entries, start, b1 + b2),
    decreases entries.len(),
{
    let p1 = spec_plan_batch(entries, start, b1);
    let rest = entries.drop_first();
    assert(forall|k: int|
        0 <= k < rest.len() ==> (#[trigger] rest[k]) == entries[k + 1]);
    let h = entries[0];
    if h.0 < start {
        assert(p1 == spec_plan_batch(rest, start, b1));
        lemma_resume_covers(rest, start, b1, b2);
        lemma_plan_member(rest, start, b1, p1.len() - 1);
        assert(p1.last().0 >= start);
        assert(spec_plan_batch(entries, p1.last().0 + 1, b2) == spec_plan_batch(
            rest,
            p1.last().0 + 1,
            b2,
        ));
        assert(spec_plan_batch(entries, start, b1 + b2) == spec_plan_batch(rest, start, b1 + b2));
    } else {
        let sub = spec_plan_batch(rest, start, b1 - 1);
        assert(p1 == seq![h] + sub);
        assert(spec_plan_batch(entries, start, b1 + b2) == seq![h] + spec_plan_batch(
            rest,
            start,
            b1 - 1 + b2,
        ));
        if sub.len() == 0 {
            assert(p1.last() == h);
            if rest.len() > 0 {
                assert(rest[0].0 > h.0);
                assert(rest[0].0 >= start);
                if b1 - 1 > 0 {
                    assert(spec_plan_batch(rest, start, b1 - 1).len() > 0);
                }
            }
            if b1 - 1 > 0 && rest.len() > 0 {
                assert(false);
            }
            assert(spec_plan_batch(entries, h.0 + 1, b2) == spec_plan_batch(rest, h.0 + 1, b2));
            assert forall|k: int| 0 <= k < rest.len() implies (((#[trigger] rest[k]).0 >= start)
                <==> (rest[k].0 >= h.0 + 1)) by {
                assert(rest[k].0 > h.0);
            }
            lemma_plan_same(rest, start, h.0 + 1, b2);
            if b1 - 1 == 0 {
                assert(p1 + spec_plan_batch(rest, h.0 + 1, b2) =~= seq![h] + spec_plan_batch(
                    rest,
                    start,
                    b1 - 1 + b2,
                ));
            } else {
                assert(rest.len() == 0);
                assert(spec_plan_batch(rest, start, b1 - 1 + b2) =~= Seq::<(usize, String)>::empty());
                assert(spec_plan_batch(rest, h.0 + 1, b2) =~= Seq::<(usize, String)>::empty());
                assert(p1 + spec_plan_batch(rest, h.0 + 1, b2) =~= seq![h] + spec_plan_batch(
                    rest,
                    start,
                    b1 - 1 + b2,
                ));
            }
        } else {
            assert(p1.last() == sub.last());
            assert(strictly_increasing(rest));
            lemma_resume_covers(rest, start, b1 - 1, b2);
            lemma_plan_member(rest, start, b1 - 1, sub.len() - 1);
            assert(rest.contains(sub.last()));
            let j = choose|j: int| 0 <= j < rest.len() && rest[j] == sub.last();
            assert(entries[j + 1] == sub.last());
            assert(sub.last().0 > h.0);
            assert(spec_plan_batch(entries, sub.last().0 + 1, b2) == spec_plan_batch(
                rest,
                sub.last().0 + 1,
                b2,
            ));
            assert(p1 + spec_plan_batch(rest, sub.last().0 + 1, b2) =~= seq![h] + (sub
                + spec_plan_batch(rest, sub.last().0 + 1, b2)));
        }
    }
}


// ---------------------------------------------------------------------------
// The retry-cap law
// ---------------------------------------------------------------------------

/// *Bounded retries*: every retry the orchestrator requests carries an
/// attempt number between one and the retry cap, and a batch whose
/// failures are still pending has failed at most `max_retries` times — so
/// a batch is sent at most `max_retries + 1` times before the run either
/// settles it, skips it, or stops with an error.
pub proof fn lemma_retry_attempts_bounded(o: BatchOrchestrator)
    requires
        o.wf(),
    ensures
        o.phase matches OrchPhase::AwaitRetry { queue, attempt } ==> 1 <= attempt
            <= o.max_retries,
        o.phase matches OrchPhase::FailuresPending { queue, attempt } ==> attempt
            <= o.max_retries,
{
}

} // verus!
