use vstd::prelude::*;
use crate::days::{
    MAX_TIME_MS, MS_PER_DAY, civil_date_of_day, day_index, lemma_boundary_bounds,
    next_boundary_ms, next_day_boundary, utc_ymd,
};
use crate::errors::RunError;
use crate::record::{Record, all_open_at_least, all_open_below, ascending, has_open_time};

verus! {

/// The fixed parameters of one run: the overall inclusive range to cover, the
/// largest span one page request may cover, and the fixed bar spacing.
#[derive(Clone, Copy)]
pub struct Config {
    pub overall_start_ms: i64,
    pub overall_end_ms: i64,
    pub page_span_ms: i64,
    pub granularity_ms: i64,
}

/// A sane configuration: a non-empty range of non-negative timestamps within
/// the supported time span, a positive page span, and a positive bar spacing
/// of at most one day.
pub open spec fn config_wf(cfg: Config) -> bool {
    &&& 0 <= cfg.overall_start_ms <= cfg.overall_end_ms <= MAX_TIME_MS
    &&& 1 <= cfg.granularity_ms <= MS_PER_DAY
    &&& 1 <= cfg.page_span_ms <= MAX_TIME_MS
}

/// The inclusive end of the window requested when the cursor stands at
/// `cursor`: the page span ahead, clipped to the overall end.
pub open spec fn window_end(cfg: Config, cursor: int) -> int {
    if cursor + cfg.page_span_ms - 1 <= cfg.overall_end_ms {
        cursor + cfg.page_span_ms - 1
    } else {
        cfg.overall_end_ms as int
    }
}

/// What the page source promises of a page for the window `[start, end]`:
/// strictly ascending `open_time`, every `open_time` inside the window, and
/// bar times within the supported range with `open_time <= close_time`.
pub open spec fn page_wf(page: Seq<Record>, start: int, end: int) -> bool {
    &&& ascending(page)
    &&& forall|i: int| 0 <= i < page.len() ==> {
        &&& start <= #[trigger] page[i].open_time
        &&& page[i].open_time <= end
        &&& page[i].open_time <= page[i].close_time
        &&& page[i].close_time <= MAX_TIME_MS
    }
}

/// The records of `page` that open strictly before the day boundary `b` —
/// the ones the current day still owns — in their original order.
pub open spec fn kept(page: Seq<Record>, b: int) -> Seq<Record>
    decreases page.len(),
{
    if page.len() == 0 {
        Seq::empty()
    } else {
        kept(page.drop_last(), b) + if page.last().open_time < b {
            seq![page.last()]
        } else {
            Seq::empty()
        }
    }
}

/// Every record of `kept(page, b)` is a record of `page` that opens before
/// `b`, at the same relative position.
pub(crate) proof fn lemma_kept_elements(page: Seq<Record>, b: int)
    ensures
        forall|i: int|
            0 <= i < kept(page, b).len() ==> exists|j: int|
                0 <= j < page.len() && #[trigger] kept(page, b)[i] == page[j]
                    && page[j].open_time < b,
    decreases page.len(),
{
    if page.len() > 0 {
        lemma_kept_elements(page.drop_last(), b);
        let k = kept(page, b);
        let kd = kept(page.drop_last(), b);
        assert forall|i: int| 0 <= i < k.len() implies exists|j: int|
            0 <= j < page.len() && #[trigger] k[i] == page[j] && page[j].open_time < b by {
            if i < kd.len() {
                let j = choose|j: int|
                    0 <= j < page.drop_last().len() && kd[i] == page.drop_last()[j]
                        && page.drop_last()[j].open_time < b;
                assert(k[i] == page[j] && page[j].open_time < b);
            } else {
                assert(k[i] == page.last() && page.last().open_time < b);
                assert(k[i] == page[page.len() - 1]);
            }
        }
    }
}

/// Bounds on the open times of a page transfer to the records it keeps, and
/// every kept record opens before the boundary.
pub(crate) proof fn lemma_kept_bounds(page: Seq<Record>, b: int, lo: int, hi: int)
    requires
        all_open_at_least(page, lo),
        all_open_below(page, hi),
    ensures
        all_open_at_least(kept(page, b), lo),
        all_open_below(kept(page, b), b),
        all_open_below(kept(page, b), hi),
{
    lemma_kept_elements(page, b);
}

/// Keeping preserves strictly ascending order.
pub(crate) proof fn lemma_kept_ascending(page: Seq<Record>, b: int)
    requires
        ascending(page),
    ensures
        ascending(kept(page, b)),
        page.len() > 0 ==> all_open_below(kept(page, b), page.last().open_time + 1),
    decreases page.len(),
{
    if page.len() > 0 {
        lemma_kept_ascending(page.drop_last(), b);
        if page.len() > 1 {
            assert(page.drop_last().last().open_time == page[page.len() - 2].open_time);
            assert(page[page.len() - 2].open_time < page.last().open_time);
        }
    }
}

/// A page that stays entirely before the boundary is kept whole.
pub(crate) proof fn lemma_kept_all(page: Seq<Record>, b: int)
    requires
        all_open_below(page, b),
    ensures
        kept(page, b) == page,
    decreases page.len(),
{
    if page.len() > 0 {
        lemma_kept_all(page.drop_last(), b);
        assert(kept(page, b) =~= page);
    }
}

/// A time occurs in a concatenation exactly when it occurs in one of the
/// halves.
pub(crate) proof fn lemma_has_time_concat(a: Seq<Record>, c: Seq<Record>, t: int)
    ensures
        has_open_time(a + c, t) <==> (has_open_time(a, t) || has_open_time(c, t)),
{
    if has_open_time(a, t) {
        let i = choose|i: int| 0 <= i < a.len() && a[i].open_time == t;
        assert((a + c)[i].open_time == t);
    }
    if has_open_time(c, t) {
        let i = choose|i: int| 0 <= i < c.len() && c[i].open_time == t;
        assert((a + c)[a.len() + i].open_time == t);
    }
    if has_open_time(a + c, t) {
        let i = choose|i: int| 0 <= i < (a + c).len() && (a + c)[i].open_time == t;
        if i < a.len() {
            assert(a[i].open_time == t);
        } else {
            assert(c[i - a.len()].open_time == t);
        }
    }
}

/// The paginator's state, abstracted: the cursor, the records accumulated for
/// the day in progress, every record flushed so far (in flush order), and
/// whether the run has terminated.
#[verifier::ext_equal]
pub ghost struct AState {
    pub cursor: int,
    pub acc: Seq<Record>,
    pub emitted: Seq<Record>,
    pub done: bool,
}

/// The state invariant: a well-formed configuration, a cursor inside the
/// run's reach, and an output-so-far (flushed records followed by the
/// accumulator) that is strictly ascending, entirely inside the overall
/// range, and strictly before the cursor.
pub open spec fn a_wf(cfg: Config, s: AState) -> bool {
    &&& config_wf(cfg)
    &&& cfg.overall_start_ms <= s.cursor <= cfg.overall_end_ms + MS_PER_DAY
    &&& ascending(s.emitted + s.acc)
    &&& all_open_below(s.emitted + s.acc, s.cursor)
    &&& all_open_below(s.emitted + s.acc, cfg.overall_end_ms as int + 1)
    &&& all_open_at_least(s.emitted + s.acc, cfg.overall_start_ms as int)
}

/// The state of a fresh run: the cursor at the overall start, nothing
/// accumulated, nothing flushed.
pub open spec fn init_state(cfg: Config) -> AState {
    AState {
        cursor: cfg.overall_start_ms as int,
        acc: Seq::empty(),
        emitted: Seq::empty(),
        done: false,
    }
}

/// The transition table of one `advance` step, as a pure function of the
/// state and the page the source returned for the current window.
///
/// With `b` the day boundary derived from the cursor and `w` the requested
/// window's end:
/// - empty page, `w` at or past `b`: the day is exhausted — flush, cursor to
///   the boundary, terminate if `w` reached the overall end;
/// - empty page, `w` before `b`: no data yet — skip to `w + 1`; terminate
///   (flushing any leftovers) if `w` reached the overall end;
/// - page whose last record closes into or past the boundary: flush the day,
///   cursor to the last record's open time plus one bar, keep going;
/// - otherwise: accumulate and move the cursor the same way; terminate
///   (flushing) if `w` reached the overall end.
pub open spec fn astep(cfg: Config, s: AState, page: Seq<Record>) -> AState {
    let b = next_day_boundary(s.cursor);
    let w = window_end(cfg, s.cursor);
    let e = cfg.overall_end_ms as int;
    if page.len() == 0 {
        if w >= b {
            AState { cursor: b, acc: Seq::empty(), emitted: s.emitted + s.acc, done: w >= e }
        } else if w >= e {
            AState { cursor: w + 1, acc: Seq::empty(), emitted: s.emitted + s.acc, done: true }
        } else {
            AState { cursor: w + 1, acc: s.acc, emitted: s.emitted, done: false }
        }
    } else {
        let last = page.last();
        let c2 = last.open_time + cfg.granularity_ms;
        let acc2 = s.acc + kept(page, b);
        if last.close_time + 1 >= b {
            AState { cursor: c2, acc: Seq::empty(), emitted: s.emitted + acc2, done: false }
        } else if w >= e {
            AState { cursor: c2, acc: Seq::empty(), emitted: s.emitted + acc2, done: true }
        } else {
            AState { cursor: c2, acc: acc2, emitted: s.emitted, done: false }
        }
    }
}

/// The records flushed by one `advance` step, if it flushes: the same case
/// split as `astep`. A day-exhausted step flushes even an empty accumulator
/// (the writer treats an empty batch as a no-op); a final flush on
/// termination is skipped when there is nothing to write.
pub open spec fn step_flush(cfg: Config, s: AState, page: Seq<Record>) -> Option<Seq<Record>> {
    let b = next_day_boundary(s.cursor);
    let w = window_end(cfg, s.cursor);
    let e = cfg.overall_end_ms as int;
    if page.len() == 0 {
        if w >= b {
            Some(s.acc)
        } else if w >= e && s.acc.len() > 0 {
            Some(s.acc)
        } else {
            None
        }
    } else {
        let last = page.last();
        if last.close_time + 1 >= b || w >= e {
            Some(s.acc + kept(page, b))
        } else {
            None
        }
    }
}

/// One step preserves the state invariant, whatever page the source returned
/// for the requested window.
pub proof fn lemma_astep_wf(cfg: Config, s: AState, page: Seq<Record>)
    requires
        a_wf(cfg, s),
        !s.done,
        page_wf(page, s.cursor, window_end(cfg, s.cursor)),
    ensures
        a_wf(cfg, astep(cfg, s, page)),
{
    let b = next_day_boundary(s.cursor);
    let w = window_end(cfg, s.cursor);
    let e = cfg.overall_end_ms as int;
    let s2 = astep(cfg, s, page);
    lemma_boundary_bounds(s.cursor);
    if page.len() == 0 {
        assert(s.emitted + s.acc + Seq::<Record>::empty() =~= s.emitted + s.acc);
        if w >= b {
            assert(s.cursor <= e);
        }
    } else {
        let last = page.last();
        let c2 = last.open_time + cfg.granularity_ms;
        assert(page[page.len() - 1].open_time >= s.cursor);
        assert(all_open_below(page, last.open_time + 1));
        lemma_kept_bounds(page, b, s.cursor, last.open_time + 1);
        lemma_kept_ascending(page, b);
        let x = (s.emitted + s.acc) + kept(page, b);
        assert(ascending(x)) by {
            assert forall|i: int, j: int| 0 <= i < j < x.len() implies x[i].open_time
                < x[j].open_time by {
                let old_len = (s.emitted + s.acc).len() as int;
                if j < old_len {
                } else if i >= old_len {
                    assert(x[i] == kept(page, b)[i - old_len]);
                    assert(x[j] == kept(page, b)[j - old_len]);
                } else {
                    assert(x[i] == (s.emitted + s.acc)[i]);
                    assert(x[j] == kept(page, b)[j - old_len]);
                    assert(x[i].open_time < s.cursor);
                    assert(x[j].open_time >= s.cursor);
                }
            }
        }
        assert(all_open_below(x, c2)) by {
            assert forall|i: int| 0 <= i < x.len() implies x[i].open_time < c2 by {
                let old_len = (s.emitted + s.acc).len() as int;
                if i < old_len {
                    assert(x[i] == (s.emitted + s.acc)[i]);
                } else {
                    assert(x[i] == kept(page, b)[i - old_len]);
                }
            }
        }
        assert(s.emitted + (s.acc + kept(page, b)) =~= x);
        assert((s.emitted + (s.acc + kept(page, b))) + Seq::<Record>::empty() =~= x);
        assert(s2.emitted + s2.acc =~= x);
        assert(c2 <= w + cfg.granularity_ms);
        assert(all_open_below(x, e + 1)) by {
            assert forall|i: int| 0 <= i < x.len() implies x[i].open_time < e + 1 by {
                let old_len = (s.emitted + s.acc).len() as int;
                if i < old_len {
                    assert(x[i] == (s.emitted + s.acc)[i]);
                } else {
                    assert(x[i] == kept(page, b)[i - old_len]);
                    assert(x[i].open_time <= last.open_time);
                }
            }
        }
        assert(all_open_at_least(x, cfg.overall_start_ms as int)) by {
            assert forall|i: int| 0 <= i < x.len() implies x[i].open_time
                >= cfg.overall_start_ms by {
                let old_len = (s.emitted + s.acc).len() as int;
                if i < old_len {
                    assert(x[i] == (s.emitted + s.acc)[i]);
                } else {
                    assert(x[i] == kept(page, b)[i - old_len]);
                }
            }
        }
    }
}

/// A batch handed to the day segment writer: one day's records, in ascending
/// order, under the UTC `(year, month, day)` key of the day that accumulated
/// them.
pub struct FlushBatch {
    pub records: Vec<Record>,
    pub year: i32,
    pub month: u32,
    pub day: u32,
}

/// Drives the windowed walk over the overall range: owns the cursor and the
/// day accumulator, and decides, page by page, where the next window starts
/// and when a day's batch is flushed.
pub struct Paginator {
    pub config: Config,
    pub cursor: i64,
    pub acc: Vec<Record>,
    pub done: bool,
    pub emitted: Ghost<Seq<Record>>,
}

impl Paginator {
    /// The state this paginator abstracts to.
    pub open spec fn abs(self) -> AState {
        AState {
            cursor: self.cursor as int,
            acc: self.acc@,
            emitted: self.emitted@,
            done: self.done,
        }
    }

    pub open spec fn wf(self) -> bool {
        a_wf(self.config, self.abs())
    }

    /// A fresh run: the cursor at the overall start, nothing accumulated,
    /// nothing flushed.
    pub fn new(config: Config) -> (p: Paginator)
        requires
            config_wf(config),
        ensures
            p.wf(),
            p.config == config,
            p.abs() == init_state(config),
    {
        let p = Paginator {
            config,
            cursor: config.overall_start_ms,
            acc: Vec::new(),
            done: false,
            emitted: Ghost(Seq::empty()),
        };
        proof {
            assert(p.abs().emitted + p.abs().acc =~= Seq::<Record>::empty());
            assert(p.abs() =~= init_state(config));
        }
        p
    }

    /// The window to request next: `[cursor, min(cursor + span - 1, end)]`.
    /// When the cursor has run past the overall end the window is empty
    /// (its end lies before its start) and the source can only return an
    /// empty page.
    /// One iteration of the fetch loop, fed the page the source returned for
    /// the current window. Filters the page to the records still inside the
    /// cursor's day, accumulates them, decides the next cursor, whether the
    /// run terminates, and whether a day batch is flushed — exactly as the
    /// `astep` / `step_flush` transition table states. A flushed batch
    /// carries the UTC calendar key of the day the cursor stood in.
    pub fn advance(&mut self, page: Vec<Record>) -> (flush: Option<FlushBatch>)
        requires
            old(self).wf(),
            !old(self).done,
            page_wf(page@, old(self).cursor as int, window_end(old(self).config, old(self).cursor as int)),
        ensures
            final(self).config == old(self).config,
            final(self).wf(),
            final(self).abs() == astep(old(self).config, old(self).abs(), page@),
            match flush {
                Option::None => step_flush(old(self).config, old(self).abs(), page@) is None,
                Option::Some(f) => {
                    &&& step_flush(old(self).config, old(self).abs(), page@) == Some(f.records@)
                    &&& (f.year as int, f.month as int, f.day as int) == civil_date_of_day(
                        day_index(old(self).cursor as int),
                    )
                },
            },
    {
        let ghost cfg = self.config;
        let ghost pre = self.abs();
        let ghost pageg = page@;
        proof {
            lemma_astep_wf(cfg, pre, pageg);
        }

        let e: i64 = self.config.overall_end_ms;
        let g: i64 = self.config.granularity_ms;
        let c: i64 = self.cursor;
        let w: i64 = {
            let cand: i64 = c + self.config.page_span_ms - 1;
            if cand <= e {
                cand
            } else {
                e
            }
        };
        let b: i64 = next_boundary_ms(c);

        let page_len = page.len();
        let mut last_open: i64 = 0;
        let mut last_close: i64 = 0;
        if page_len > 0 {
            let lr = &page[page_len - 1];
            last_open = lr.open_time;
            last_close = lr.close_time;
        }

        // Append the records the cursor's day still owns, in order: reverse
        // the page onto a stack, then pop it record by record.
        let mut rev: Vec<Record> = Vec::new();
        let mut rest = page;
        proof {
            assert(rest@ =~= pageg.take(pageg.len() as int));
        }
        while rest.len() > 0
            invariant
                rest@.len() + rev@.len() == pageg.len(),
                rest@ == pageg.take(rest@.len() as int),
                forall|i: int|
                    0 <= i < rev@.len() ==> #[trigger] rev@[i] == pageg[pageg.len() - 1 - i],
            decreases rest@.len(),
        {
            let ghost n = rest@.len() as int;
            let r = rest.pop().unwrap();
            proof {
                assert(r == pageg.take(n)[n - 1]);
                assert(pageg.take(n).subrange(0, n - 1) =~= pageg.take(n - 1));
            }
            rev.push(r);
        }

        let ghost acc0 = pre.acc;
        proof {
            assert(self.acc@ =~= acc0 + kept(pageg.take(pageg.len() - rev@.len()), b as int));
        }
        while rev.len() > 0
            invariant
                self.config == cfg,
                self.cursor == pre.cursor,
                self.done == pre.done,
                self.emitted@ == pre.emitted,
                b as int == next_day_boundary(pre.cursor),
                rev@.len() <= pageg.len(),
                forall|i: int|
                    0 <= i < rev@.len() ==> #[trigger] rev@[i] == pageg[pageg.len() - 1 - i],
                self.acc@ == acc0 + kept(pageg.take(pageg.len() - rev@.len()), b as int),
            decreases rev@.len(),
        {
            let ghost m = rev@.len() as int;
            let ghost k = pageg.len() - m;
            let r = rev.pop().unwrap();
            proof {
                assert(r == pageg[k]);
                assert(pageg.take(k + 1).drop_last() =~= pageg.take(k));
                assert(pageg.take(k + 1).last() == pageg[k]);
            }
            if r.open_time < b {
                self.acc.push(r);
                proof {
                    assert(self.acc@ =~= acc0 + kept(pageg.take(k + 1), b as int));
                }
            } else {
                proof {
                    assert(kept(pageg.take(k + 1), b as int) + Seq::<Record>::empty() =~= kept(
                        pageg.take(k + 1),
                        b as int,
                    ));
                    assert(self.acc@ =~= acc0 + kept(pageg.take(k + 1), b as int));
                }
            }
        }
        proof {
            assert(pageg.take(pageg.len() as int) =~= pageg);
            assert(self.acc@ == acc0 + kept(pageg, b as int));
        }

        // The decision table.
        let flush: Option<FlushBatch>;
        if page_len == 0 {
            proof {
                assert(pageg.len() == 0);
                assert(self.acc@ =~= acc0);
            }
            if w >= b {
                let ymd = utc_ymd(c);
                let mut recs: Vec<Record> = Vec::new();
                recs.append(&mut self.acc);
                flush = Some(
                    FlushBatch { records: recs, year: ymd.0, month: ymd.1, day: ymd.2 },
                );
                self.cursor = b;
                self.done = w >= e;
                self.emitted = Ghost(pre.emitted + pre.acc);
            } else if w >= e {
                self.cursor = w + 1;
                self.done = true;
                if self.acc.len() > 0 {
                    let ymd = utc_ymd(c);
                    let mut recs: Vec<Record> = Vec::new();
                    recs.append(&mut self.acc);
                    flush = Some(
                        FlushBatch { records: recs, year: ymd.0, month: ymd.1, day: ymd.2 },
                    );
                } else {
                    flush = None;
                }
                self.emitted = Ghost(pre.emitted + pre.acc);
                proof {
                    assert(pre.emitted + pre.acc =~= pre.emitted + acc0);
                }
            } else {
                self.cursor = w + 1;
                flush = None;
            }
        } else {
            proof {
                assert(pageg[pageg.len() - 1].open_time >= pre.cursor);
                assert(last_open as int == pageg.last().open_time);
                assert(last_close as int == pageg.last().close_time);
            }
            if last_close + 1 >= b || w >= e {
                let ymd = utc_ymd(c);
                let mut recs: Vec<Record> = Vec::new();
                recs.append(&mut self.acc);
                flush = Some(
                    FlushBatch { records: recs, year: ymd.0, month: ymd.1, day: ymd.2 },
                );
                self.cursor = last_open + g;
                self.done = !(last_close + 1 >= b) && w >= e;
                self.emitted = Ghost(pre.emitted + (pre.acc + kept(pageg, b as int)));
                proof {
                    assert(pre.emitted + (pre.acc + kept(pageg, b as int)) =~= pre.emitted + (
                    acc0 + kept(pageg, b as int)));
                }
            } else {
                self.cursor = last_open + g;
                flush = None;
            }
        }
        proof {
            assert(self.abs() =~= astep(cfg, pre, pageg));
        }
        flush
    }

    pub fn current_window(&self) -> (w: (i64, i64))
        requires
            self.wf(),
            !self.done,
        ensures
            w.0 == self.cursor,
            w.1 as int == window_end(self.config, self.cursor as int),
    {
        let cand: i64 = self.cursor + self.config.page_span_ms - 1;
        if cand <= self.config.overall_end_ms {
            (self.cursor, cand)
        } else {
            (self.cursor, self.config.overall_end_ms)
        }
    }
}

/// Checks a page against the page source's contract for the window
/// `[start_ms, end_ms]` and rejects it as a contract violation otherwise.
pub fn check_page(page: &Vec<Record>, start_ms: i64, end_ms: i64) -> (r: Result<(), RunError>)
    ensures
        r is Ok <==> page_wf(page@, start_ms as int, end_ms as int),
        r is Err ==> r->Err_0 == RunError::ContractViolation,
{
    let n = page.len();
    let mut i: usize = 0;
    while i < n
        invariant
            n == page@.len(),
            0 <= i <= n,
            forall|p: int| 0 <= p < i ==> {
                &&& start_ms <= #[trigger] page@[p].open_time
                &&& page@[p].open_time <= end_ms
                &&& page@[p].open_time <= page@[p].close_time
                &&& page@[p].close_time <= MAX_TIME_MS
            },
            forall|p: int, q: int| 0 <= p < q < i ==> page@[p].open_time < page@[q].open_time,
        decreases n - i,
    {
        let r = &page[i];
        if !(start_ms <= r.open_time && r.open_time <= end_ms && r.open_time <= r.close_time
            && r.close_time <= MAX_TIME_MS) {
            return Err(RunError::ContractViolation);
        }
        if i > 0 {
            if !(page[i - 1].open_time < r.open_time) {
                return Err(RunError::ContractViolation);
            }
        }
        i += 1;
    }
    Ok(())
}

} // verus!
