use vstd::prelude::*;
use crate::days::{
    MS_PER_DAY, day_index, lemma_boundary_bounds, lemma_same_day, next_day_boundary,
};
use crate::paginator::{
    AState, Config, a_wf, astep, config_wf, kept, lemma_astep_wf, lemma_has_time_concat,
    init_state, lemma_kept_all, lemma_kept_bounds, page_wf, step_flush, window_end,
};
use crate::record::{Record, all_open_below, ascending, has_open_time};

verus! {

/// A suffix of a strictly ascending sequence is strictly ascending.
proof fn lemma_ascending_suffix(a: Seq<Record>, c: Seq<Record>)
    requires
        ascending(a + c),
    ensures
        ascending(c),
{
    assert forall|i: int, j: int| 0 <= i < j < c.len() implies c[i].open_time
        < c[j].open_time by {
        assert(c[i] == (a + c)[a.len() + i]);
        assert(c[j] == (a + c)[a.len() + j]);
    }
}

/// Ordering: whenever a step flushes a batch, the batch's records are in
/// strictly ascending `open_time` order.
pub proof fn lemma_flush_ascending(cfg: Config, s: AState, page: Seq<Record>)
    requires
        a_wf(cfg, s),
        !s.done,
        page_wf(page, s.cursor, window_end(cfg, s.cursor)),
    ensures
        step_flush(cfg, s, page) is Some ==> ascending(step_flush(cfg, s, page)->Some_0),
{
    lemma_astep_wf(cfg, s, page);
    let s2 = astep(cfg, s, page);
    let b = next_day_boundary(s.cursor);
    if step_flush(cfg, s, page) is Some {
        let batch = step_flush(cfg, s, page)->Some_0;
        if page.len() == 0 {
            lemma_ascending_suffix(s.emitted, s.acc);
        } else {
            assert(s2.emitted + s2.acc =~= s.emitted + (s.acc + kept(page, b)));
            lemma_ascending_suffix(s.emitted, s.acc + kept(page, b));
        }
    }
}

/// All records of `batch` belong to UTC day number `day`.
pub open spec fn same_day_batch(batch: Seq<Record>, day: int) -> bool {
    forall|i: int| 0 <= i < batch.len() ==> day_index(#[trigger] batch[i].open_time as int) == day
}

/// The accumulator is coherent with the cursor's day: everything buffered so
/// far belongs to the UTC day the cursor stands in.
pub open spec fn acc_day_ok(s: AState) -> bool {
    forall|i: int|
        0 <= i < s.acc.len() ==> day_index(#[trigger] s.acc[i].open_time as int) == day_index(s.cursor)
}

/// Day partition: whenever a step flushes a batch, all its records belong to
/// one UTC day — the day of the cursor, whose civil date is exactly the key
/// the flush is made under.
pub proof fn lemma_flush_same_day(cfg: Config, s: AState, page: Seq<Record>)
    requires
        a_wf(cfg, s),
        !s.done,
        page_wf(page, s.cursor, window_end(cfg, s.cursor)),
        acc_day_ok(s),
    ensures
        step_flush(cfg, s, page) is Some ==> same_day_batch(
            step_flush(cfg, s, page)->Some_0,
            day_index(s.cursor),
        ),
{
    let b = next_day_boundary(s.cursor);
    if step_flush(cfg, s, page) is Some && page.len() > 0 {
        let batch = s.acc + kept(page, b);
        assert(all_open_below(page, window_end(cfg, s.cursor) + 1));
        lemma_kept_bounds(page, b, s.cursor, window_end(cfg, s.cursor) + 1);
        assert forall|i: int| 0 <= i < batch.len() implies day_index(batch[i].open_time as int)
            == day_index(s.cursor) by {
            if i < s.acc.len() {
                assert(batch[i] == s.acc[i]);
            } else {
                assert(batch[i] == kept(page, b)[i - s.acc.len()]);
                lemma_same_day(s.cursor, batch[i].open_time as int);
            }
        }
    }
}

/// Every bar in the page spans at least the granularity `g`: its inclusive
/// close time reaches to (at least) one bar after its open time.
pub open spec fn bars_span(page: Seq<Record>, g: int) -> bool {
    forall|i: int|
        0 <= i < page.len() ==> #[trigger] page[i].close_time + 1 >= page[i].open_time + g
}

/// Day coherence is preserved by a step, provided the page's bars span at
/// least the configured granularity and the step is not an empty page whose
/// window ends exactly one millisecond before the day boundary while records
/// are still buffered (on that input the cursor slides into the next day
/// without a flush).
pub proof fn lemma_astep_day_ok(cfg: Config, s: AState, page: Seq<Record>)
    requires
        a_wf(cfg, s),
        !s.done,
        page_wf(page, s.cursor, window_end(cfg, s.cursor)),
        acc_day_ok(s),
        bars_span(page, cfg.granularity_ms as int),
        (page.len() == 0 && window_end(cfg, s.cursor) + 1 == next_day_boundary(s.cursor))
            ==> s.acc.len() == 0,
    ensures
        acc_day_ok(astep(cfg, s, page)),
{
    let b = next_day_boundary(s.cursor);
    let w = window_end(cfg, s.cursor);
    let e = cfg.overall_end_ms as int;
    let s2 = astep(cfg, s, page);
    lemma_boundary_bounds(s.cursor);
    if page.len() == 0 {
        if w >= b || w >= e {
        } else {
            // skip forward: the window end stays inside the day unless the
            // excluded input occurred
            if s.acc.len() > 0 {
                assert(w + 1 < b);
                lemma_same_day(s.cursor, w + 1);
            }
        }
    } else {
        let last = page.last();
        let c2 = last.open_time + cfg.granularity_ms;
        if last.close_time + 1 >= b || w >= e {
        } else {
            assert(page[page.len() - 1].close_time + 1 >= page[page.len() - 1].open_time
                + cfg.granularity_ms);
            assert(c2 < b);
            assert(page[page.len() - 1].open_time >= s.cursor);
            lemma_same_day(s.cursor, c2);
            assert(all_open_below(page, w + 1));
            lemma_kept_bounds(page, b, s.cursor, w + 1);
            assert forall|i: int| 0 <= i < s2.acc.len() implies day_index(s2.acc[i].open_time as int)
                == day_index(s2.cursor) by {
                if i < s.acc.len() {
                    assert(s2.acc[i] == s.acc[i]);
                } else {
                    assert(s2.acc[i] == kept(page, b)[i - s.acc.len()]);
                    lemma_same_day(s.cursor, s2.acc[i].open_time as int);
                }
            }
        }
    }
}

/// An upper bound on the steps a run can still take: zero once the run has
/// terminated, else how far the cursor may still travel.
pub open spec fn measure(cfg: Config, s: AState) -> int {
    if s.done {
        0
    } else {
        cfg.overall_end_ms + MS_PER_DAY + 1 - s.cursor
    }
}

/// Termination: every step strictly decreases the non-negative measure, so a
/// run performs only finitely many steps, and a step whose window start has
/// passed the overall end terminates the run.
pub proof fn lemma_astep_terminates(cfg: Config, s: AState, page: Seq<Record>)
    requires
        a_wf(cfg, s),
        !s.done,
        page_wf(page, s.cursor, window_end(cfg, s.cursor)),
    ensures
        0 <= measure(cfg, astep(cfg, s, page)) < measure(cfg, s),
        s.cursor > cfg.overall_end_ms ==> astep(cfg, s, page).done,
{
    lemma_astep_wf(cfg, s, page);
    lemma_boundary_bounds(s.cursor);
    let b = next_day_boundary(s.cursor);
    let w = window_end(cfg, s.cursor);
    if s.cursor > cfg.overall_end_ms {
        // the window is empty, so the source can only have returned an empty
        // page, and its end has reached the overall end
        if page.len() > 0 {
            assert(page[0].open_time >= s.cursor && page[0].open_time <= w);
        }
        assert(w < b);
    }
}

/// Termination over a whole run: a run from state `s` can take at most
/// `measure(cfg, s)` steps, so `advance` is called finitely often.
pub proof fn lemma_run_finite(cfg: Config, s: AState, pages: Seq<Seq<Record>>)
    requires
        a_wf(cfg, s),
        run_pages_wf(cfg, s, pages),
    ensures
        pages.len() <= measure(cfg, s),
    decreases pages.len(),
{
    if pages.len() > 0 {
        lemma_astep_wf(cfg, s, pages[0]);
        lemma_astep_terminates(cfg, s, pages[0]);
        lemma_run_finite(cfg, astep(cfg, s, pages[0]), pages.drop_first());
    }
}

/// The source's records are at least one bar apart.
pub open spec fn spaced(src: Seq<Record>, g: int) -> bool {
    forall|i: int|
        0 <= i && i + 1 < src.len() ==> #[trigger] src[i + 1].open_time >= src[i].open_time + g
}

/// In a spaced source, records further along are at least one bar later.
proof fn lemma_spaced_gap(src: Seq<Record>, g: int, a: int, c: int)
    requires
        spaced(src, g),
        g >= 0,
        0 <= a <= c < src.len(),
    ensures
        c > a ==> src[c].open_time >= src[a].open_time + g,
        src[c].open_time >= src[a].open_time,
    decreases c - a,
{
    if c > a {
        lemma_spaced_gap(src, g, a, c - 1);
        assert(src[(c - 1) + 1].open_time >= src[c - 1].open_time + g);
    }
}

/// `page` holds exactly the source's open times inside `[start, end]`.
pub open spec fn page_matches(src: Seq<Record>, page: Seq<Record>, start: int, end: int) -> bool {
    forall|t: int|
        has_open_time(page, t) <==> (#[trigger] has_open_time(src, t) && start <= t <= end)
}

/// The run's output so far — flushed records followed by the accumulator —
/// holds exactly the source's open times from the overall start up to
/// (excluding) the cursor.
pub open spec fn covered(cfg: Config, s: AState, src: Seq<Record>) -> bool {
    forall|t: int|
        #[trigger] has_open_time(s.emitted + s.acc, t) <==> (has_open_time(src, t)
            && cfg.overall_start_ms <= t < s.cursor)
}

/// The run's output holds exactly the source's open times in the whole
/// overall range `[overall_start_ms, overall_end_ms]`.
pub open spec fn complete_range(cfg: Config, s: AState, src: Seq<Record>) -> bool {
    forall|t: int|
        #[trigger] has_open_time(s.emitted + s.acc, t) <==> (has_open_time(src, t)
            && cfg.overall_start_ms <= t <= cfg.overall_end_ms)
}

/// Completeness: a step loses nothing and duplicates nothing. If the output
/// so far holds exactly the source's times below the cursor, and the page is
/// exactly what the source has in the requested window, then after the step
/// the output holds exactly the source's times below the new cursor. Requires
/// a source whose bars are at least one granularity apart and a page that
/// stays inside the cursor's day.
pub proof fn lemma_astep_covered(cfg: Config, s: AState, page: Seq<Record>, src: Seq<Record>)
    requires
        a_wf(cfg, s),
        !s.done,
        page_wf(page, s.cursor, window_end(cfg, s.cursor)),
        spaced(src, cfg.granularity_ms as int),
        page_matches(src, page, s.cursor, window_end(cfg, s.cursor)),
        all_open_below(page, next_day_boundary(s.cursor)),
        covered(cfg, s, src),
    ensures
        covered(cfg, astep(cfg, s, page), src),
        astep(cfg, s, page).done ==> complete_range(cfg, astep(cfg, s, page), src),
{
    lemma_astep_wf(cfg, s, page);
    let b = next_day_boundary(s.cursor);
    let w = window_end(cfg, s.cursor);
    let e = cfg.overall_end_ms as int;
    let g = cfg.granularity_ms as int;
    let s2 = astep(cfg, s, page);
    let h = s.emitted + s.acc;
    let h2 = s2.emitted + s2.acc;
    lemma_boundary_bounds(s.cursor);
    if page.len() == 0 {
        assert(h2 =~= h);
        assert forall|t: int| #[trigger] has_open_time(h2, t) <==> (has_open_time(src, t)
            && cfg.overall_start_ms <= t < s2.cursor) by {
            if has_open_time(src, t) && s.cursor <= t <= w {
                assert(has_open_time(page, t));
                let i = choose|i: int| 0 <= i < page.len() && page[i].open_time == t;
                assert(false);
            }
        }
        if s2.done {
            assert forall|t: int| #[trigger] has_open_time(h2, t) <==> (has_open_time(src, t)
                && cfg.overall_start_ms <= t <= e) by {
                if has_open_time(h2, t) {
                    let i = choose|i: int| 0 <= i < h2.len() && h2[i].open_time == t;
                    assert(h2[i].open_time < e + 1);
                }
                if has_open_time(src, t) && cfg.overall_start_ms <= t <= e && !(t < s2.cursor) {
                    // t lies in the requested window, which came back empty
                    assert(w == e);
                    assert(s.cursor <= t <= w);
                    assert(has_open_time(page, t));
                    let i = choose|i: int| 0 <= i < page.len() && page[i].open_time == t;
                    assert(false);
                }
            }
        }
    } else {
        let last = page.last();
        let c2 = last.open_time + g;
        lemma_kept_all(page, b);
        assert(h2 =~= h + page);
        assert(s2.cursor == c2);
        // every page record opens no later than the last one
        assert(all_open_below(page, last.open_time + 1));
        assert forall|t: int| #[trigger] has_open_time(h2, t) <==> (has_open_time(src, t)
            && cfg.overall_start_ms <= t < c2) by {
            lemma_has_time_concat(h, page, t);
            if has_open_time(page, t) {
                let i = choose|i: int| 0 <= i < page.len() && page[i].open_time == t;
                assert(t <= last.open_time);
            }
            if has_open_time(src, t) && cfg.overall_start_ms <= t < c2 && !(t < s.cursor) {
                // t lies in [cursor, c2): either the window held it, or it
                // would contradict the source's spacing
                if t <= last.open_time {
                    assert(has_open_time(page, t));
                } else {
                    assert(page[page.len() - 1].open_time == last.open_time);
                    assert(has_open_time(page, last.open_time as int));
                    assert(has_open_time(src, last.open_time as int));
                    let a = choose|a: int| 0 <= a < src.len() && src[a].open_time as int
                        == last.open_time as int;
                    let ci = choose|ci: int| 0 <= ci < src.len() && src[ci].open_time == t;
                    if ci > a {
                        lemma_spaced_gap(src, g, a, ci);
                        assert(false);
                    } else if ci < a {
                        lemma_spaced_gap(src, g, ci, a);
                        assert(false);
                    } else {
                        assert(false);
                    }
                }
            }
        }
        if s2.done {
            // the run ends without crossing: the window end was the overall
            // end and the source holds nothing past the page's last record
            assert(w == e);
            assert forall|t: int| #[trigger] has_open_time(h2, t) <==> (has_open_time(src, t)
                && cfg.overall_start_ms <= t <= e) by {
                if has_open_time(h2, t) {
                    let i = choose|i: int| 0 <= i < h2.len() && h2[i].open_time == t;
                    assert(h2[i].open_time < e + 1);
                }
                if has_open_time(src, t) && cfg.overall_start_ms <= t <= e && !(t < c2) {
                    assert(t <= w);
                    assert(has_open_time(page, t));
                    let i = choose|i: int| 0 <= i < page.len() && page[i].open_time == t;
                    assert(t <= last.open_time);
                    assert(false);
                }
            }
        }
    }
}

/// The state after one run: the pages fed to `advance`, in order, folded over
/// the transition table.
pub open spec fn run_steps(cfg: Config, s: AState, pages: Seq<Seq<Record>>) -> AState
    decreases pages.len(),
{
    if pages.len() == 0 {
        s
    } else {
        run_steps(cfg, astep(cfg, s, pages[0]), pages.drop_first())
    }
}

/// Every page of the run honours the page source's contract for the window
/// the paginator requested at that point: well-formed, exactly the source's
/// open times inside the window, and inside the day of the requesting cursor.
pub open spec fn run_ok(cfg: Config, s: AState, pages: Seq<Seq<Record>>, src: Seq<Record>) -> bool
    decreases pages.len(),
{
    pages.len() == 0 || {
        &&& !s.done
        &&& page_wf(pages[0], s.cursor, window_end(cfg, s.cursor))
        &&& page_matches(src, pages[0], s.cursor, window_end(cfg, s.cursor))
        &&& all_open_below(pages[0], next_day_boundary(s.cursor))
        &&& run_ok(cfg, astep(cfg, s, pages[0]), pages.drop_first(), src)
    }
}

/// Completeness over a whole run: the step invariant carries through any
/// sequence of contract-honouring pages.
pub proof fn lemma_run_covered(cfg: Config, s: AState, pages: Seq<Seq<Record>>, src: Seq<Record>)
    requires
        a_wf(cfg, s),
        spaced(src, cfg.granularity_ms as int),
        covered(cfg, s, src),
        s.done ==> complete_range(cfg, s, src),
        run_ok(cfg, s, pages, src),
    ensures
        a_wf(cfg, run_steps(cfg, s, pages)),
        covered(cfg, run_steps(cfg, s, pages), src),
        run_steps(cfg, s, pages).done ==> complete_range(cfg, run_steps(cfg, s, pages), src),
    decreases pages.len(),
{
    if pages.len() > 0 {
        lemma_astep_wf(cfg, s, pages[0]);
        lemma_astep_covered(cfg, s, pages[0], src);
        lemma_run_covered(cfg, astep(cfg, s, pages[0]), pages.drop_first(), src);
    }
}

/// Completeness of a terminated run from a fresh state: the union of all
/// flushed records' open times is exactly the set of open times the source
/// holds in the overall range — no duplicates, no gaps.
pub proof fn lemma_run_complete(cfg: Config, pages: Seq<Seq<Record>>, src: Seq<Record>)
    requires
        config_wf(cfg),
        spaced(src, cfg.granularity_ms as int),
        run_ok(cfg, init_state(cfg), pages, src),
        run_steps(cfg, init_state(cfg), pages).done,
    ensures
        complete_range(cfg, run_steps(cfg, init_state(cfg), pages), src),
        run_steps(cfg, init_state(cfg), pages).acc == Seq::<Record>::empty(),
{
    let s0 = init_state(cfg);
    lemma_run_done_acc_empty(cfg, s0, pages);
    assert(s0.emitted + s0.acc =~= Seq::<Record>::empty());
    assert(a_wf(cfg, s0));
    assert(covered(cfg, s0, src)) by {
        assert forall|t: int| #[trigger] has_open_time(s0.emitted + s0.acc, t) <==> (
        has_open_time(src, t) && cfg.overall_start_ms <= t < s0.cursor) by {
            if has_open_time(s0.emitted + s0.acc, t) {
                let i = choose|i: int|
                    0 <= i < (s0.emitted + s0.acc).len() && (s0.emitted + s0.acc)[i].open_time
                        == t;
                assert(false);
            }
        }
    }
    lemma_run_covered(cfg, s0, pages, src);
}

/// A run that has terminated holds nothing back: its accumulator is empty,
/// so everything it covered has been flushed.
pub proof fn lemma_run_done_acc_empty(cfg: Config, s: AState, pages: Seq<Seq<Record>>)
    requires
        s.done ==> s.acc == Seq::<Record>::empty(),
    ensures
        run_steps(cfg, s, pages).done ==> run_steps(cfg, s, pages).acc == Seq::<Record>::empty(),
    decreases pages.len(),
{
    if pages.len() > 0 {
        assert(astep(cfg, s, pages[0]).done ==> astep(cfg, s, pages[0]).acc
            == Seq::<Record>::empty());
        lemma_run_done_acc_empty(cfg, astep(cfg, s, pages[0]), pages.drop_first());
    }
}

/// The pages of a run are each well-formed for the window the paginator
/// requested at that step.
pub open spec fn run_pages_wf(cfg: Config, s: AState, pages: Seq<Seq<Record>>) -> bool
    decreases pages.len(),
{
    pages.len() == 0 || {
        &&& !s.done
        &&& page_wf(pages[0], s.cursor, window_end(cfg, s.cursor))
        &&& run_pages_wf(cfg, astep(cfg, s, pages[0]), pages.drop_first())
    }
}

/// The side conditions under which a run keeps its days coherent: every bar
/// spans at least one granularity, and no step is the excluded input — an
/// empty page whose window ends exactly one millisecond before the day
/// boundary while records are buffered.
pub open spec fn run_day_conditions(cfg: Config, s: AState, pages: Seq<Seq<Record>>) -> bool
    decreases pages.len(),
{
    pages.len() == 0 || {
        &&& bars_span(pages[0], cfg.granularity_ms as int)
        &&& ((pages[0].len() == 0 && window_end(cfg, s.cursor) + 1 == next_day_boundary(s.cursor))
            ==> s.acc.len() == 0)
        &&& run_day_conditions(cfg, astep(cfg, s, pages[0]), pages.drop_first())
    }
}

/// Every batch a run flushes, paired with the UTC day number it is flushed
/// under.
pub open spec fn run_flushes(cfg: Config, s: AState, pages: Seq<Seq<Record>>) -> Seq<
    (Seq<Record>, int),
>
    decreases pages.len(),
{
    if pages.len() == 0 {
        Seq::empty()
    } else {
        (if step_flush(cfg, s, pages[0]) is Some {
            seq![(step_flush(cfg, s, pages[0])->Some_0, day_index(s.cursor))]
        } else {
            Seq::empty()
        }) + run_flushes(cfg, astep(cfg, s, pages[0]), pages.drop_first())
    }
}

/// Ordering and day partition over a whole run: every batch ever flushed is
/// in strictly ascending `open_time` order, and all its records belong to the
/// UTC day it is flushed under.
pub proof fn lemma_run_flushes(cfg: Config, s: AState, pages: Seq<Seq<Record>>)
    requires
        a_wf(cfg, s),
        acc_day_ok(s),
        run_pages_wf(cfg, s, pages),
        run_day_conditions(cfg, s, pages),
    ensures
        forall|k: int|
            0 <= k < run_flushes(cfg, s, pages).len() ==> {
                &&& ascending(#[trigger] run_flushes(cfg, s, pages)[k].0)
                &&& same_day_batch(
                    run_flushes(cfg, s, pages)[k].0,
                    run_flushes(cfg, s, pages)[k].1,
                )
            },
    decreases pages.len(),
{
    if pages.len() > 0 {
        let fs = run_flushes(cfg, s, pages);
        let tail = run_flushes(cfg, astep(cfg, s, pages[0]), pages.drop_first());
        lemma_astep_wf(cfg, s, pages[0]);
        lemma_flush_ascending(cfg, s, pages[0]);
        lemma_flush_same_day(cfg, s, pages[0]);
        lemma_astep_day_ok(cfg, s, pages[0]);
        lemma_run_flushes(cfg, astep(cfg, s, pages[0]), pages.drop_first());
        let head_len = fs.len() - tail.len();
        assert forall|k: int| 0 <= k < fs.len() implies {
            &&& ascending(#[trigger] fs[k].0)
            &&& same_day_batch(fs[k].0, fs[k].1)
        } by {
            if k >= head_len {
                assert(fs[k] == tail[k - head_len]);
            }
        }
    }
}

} // verus!
