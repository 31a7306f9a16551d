use daily_seconds_kline::errors::RunError;
use daily_seconds_kline::paginator::{check_page, Config, Paginator};
use daily_seconds_kline::record::Record;

// 2024-06-01T00:00:00Z and 2024-06-02T00:00:00Z in epoch milliseconds.
const JUNE1: i64 = 1_717_200_000_000;
const JUNE2: i64 = 1_717_286_400_000;

fn rec(open_time: i64, close_time: i64) -> Record {
    Record {
        open_time,
        open_price: "3800.10".to_string(),
        high: "3800.20".to_string(),
        low: "3800.00".to_string(),
        close: "3800.15".to_string(),
        volume: "1.5".to_string(),
        close_time,
        quote_volume: "5700.2".to_string(),
        num_of_trades: 12,
        taker_buy_base_vol: "0.7".to_string(),
        taker_buy_quote_vol: "2660.1".to_string(),
        unused: "0".to_string(),
    }
}

fn second_bars(first_open: i64, count: i64) -> Vec<Record> {
    let mut v = Vec::new();
    let mut t = first_open;
    let mut n = 0;
    while n < count {
        v.push(rec(t, t + 999));
        t += 1000;
        n += 1;
    }
    v
}

fn cfg(start: i64, end: i64, span: i64) -> Config {
    Config {
        overall_start_ms: start,
        overall_end_ms: end,
        page_span_ms: span,
        granularity_ms: 1000,
    }
}

#[test]
fn single_day_two_windows() {
    // a 20-minute range inside one day, 10-minute pages of 600 one-second bars
    let end = JUNE1 + 19 * 60_000 + 59_000;
    let mut p = Paginator::new(cfg(JUNE1, end, 600_000));
    let mut flushes = 0;

    let w1 = p.current_window();
    assert_eq!(w1, (JUNE1, JUNE1 + 599_999));
    let page1 = second_bars(JUNE1, 600);
    assert!(check_page(&page1, w1.0, w1.1).is_ok());
    let f1 = p.advance(page1);
    assert!(f1.is_none());
    assert!(!p.done);
    assert_eq!(p.cursor, JUNE1 + 600_000);

    let w2 = p.current_window();
    assert_eq!(w2, (JUNE1 + 600_000, end));
    let page2 = second_bars(JUNE1 + 600_000, 600);
    assert!(check_page(&page2, w2.0, w2.1).is_ok());
    let f2 = p.advance(page2);
    assert!(p.done);
    let batch = f2.expect("final flush");
    flushes += 1;

    assert_eq!(batch.records.len(), 1200);
    assert_eq!((batch.year, batch.month, batch.day), (2024, 6, 1));
    // completeness: exactly the 1200 expected open times, in order
    for (i, r) in batch.records.iter().enumerate() {
        assert_eq!(r.open_time, JUNE1 + (i as i64) * 1000);
    }
    assert_eq!(flushes, 1);
}

#[test]
fn midnight_crossing_splits_days() {
    // the page covering the crossing closes into the boundary: day 1 is
    // flushed with only pre-midnight records and day 2 starts fresh
    let start = JUNE2 - 2_000;
    let end = JUNE2 + 4_999;
    let mut p = Paginator::new(cfg(start, end, 10_000));

    let w1 = p.current_window();
    assert_eq!(w1, (start, end));
    let page1 = second_bars(start, 2); // 23:59:58 and 23:59:59
    let f1 = p.advance(page1);
    let batch1 = f1.expect("day-boundary flush");
    assert_eq!(batch1.records.len(), 2);
    assert_eq!((batch1.year, batch1.month, batch1.day), (2024, 6, 1));
    for r in &batch1.records {
        assert!(r.open_time < JUNE2);
    }
    // the cursor resets to the last record's open time plus one bar
    assert_eq!(p.cursor, (JUNE2 - 1_000) + 1_000);
    assert!(!p.done);

    let w2 = p.current_window();
    assert_eq!(w2, (JUNE2, end));
    let page2 = second_bars(JUNE2, 5);
    let f2 = p.advance(page2);
    assert!(p.done);
    let batch2 = f2.expect("final flush");
    assert_eq!(batch2.records.len(), 5);
    assert_eq!((batch2.year, batch2.month, batch2.day), (2024, 6, 2));
    for r in &batch2.records {
        assert!(r.open_time >= JUNE2);
    }
}

#[test]
fn empty_window_before_boundary_skips() {
    // zero records and the window ends before the day boundary: no flush,
    // cursor advances to one past the window end
    let start = JUNE1 + 3_600_000;
    let end = JUNE1 + 7_200_000;
    let mut p = Paginator::new(cfg(start, end, 600_000));
    let w = p.current_window();
    assert_eq!(w, (start, start + 599_999));
    let f = p.advance(Vec::new());
    assert!(f.is_none());
    assert!(!p.done);
    assert_eq!(p.cursor, start + 600_000);
}

#[test]
fn empty_window_at_boundary_flushes() {
    // zero records and the window end reaches the day boundary: the day is
    // flushed (here with what was accumulated) and the cursor lands exactly
    // on the boundary
    let start = JUNE2 - 600_000;
    let end = JUNE2 + 3_600_000;
    let mut p = Paginator::new(cfg(start, end, 900_000));

    // accumulate a little data first, inside the day
    let page1 = second_bars(start, 60); // 23:50:00 .. 23:50:59
    let f1 = p.advance(page1);
    assert!(f1.is_none());
    assert_eq!(p.cursor, start + 60_000);

    // now an empty window whose end crosses midnight
    let w = p.current_window();
    assert_eq!(w, (start + 60_000, start + 60_000 + 899_999));
    assert!(w.1 >= JUNE2);
    let f2 = p.advance(Vec::new());
    let batch = f2.expect("day flush on exhausted window");
    assert_eq!(batch.records.len(), 60);
    assert_eq!((batch.year, batch.month, batch.day), (2024, 6, 1));
    assert_eq!(p.cursor, JUNE2);
    assert!(!p.done);
}

#[test]
fn empty_day_flushes_empty_batch() {
    // a whole-day window with no data at all still flushes, with an empty
    // batch, and the run terminates when the window end reached the range end
    let start = JUNE1;
    let end = JUNE2;
    let mut p = Paginator::new(cfg(start, end, 86_400_001));
    let w = p.current_window();
    assert_eq!(w, (JUNE1, JUNE2));
    let f = p.advance(Vec::new());
    let batch = f.expect("empty day flush");
    assert!(batch.records.is_empty());
    assert_eq!((batch.year, batch.month, batch.day), (2024, 6, 1));
    assert!(p.done);
}

#[test]
fn flushed_batches_are_sorted_and_single_day() {
    // drive a run across a midnight with sparse pages and check the flushed
    // batches are strictly ascending and single-day throughout
    let start = JUNE2 - 120_000;
    let end = JUNE2 + 120_000;
    let mut p = Paginator::new(cfg(start, end, 60_000));
    let mut batches = Vec::new();
    let mut steps = 0;
    while !p.done {
        let (ws, we) = p.current_window();
        // data only in the minute before and the minute after midnight
        let page = if we < JUNE2 - 60_000 || ws >= JUNE2 + 60_000 {
            Vec::new()
        } else {
            let lo = ws.max(JUNE2 - 60_000);
            let hi = we.min(JUNE2 + 59_000);
            second_bars(lo, (hi - lo) / 1000 + 1)
        };
        let page: Vec<Record> = page
            .into_iter()
            .filter(|r| r.open_time >= ws && r.open_time <= we)
            .collect();
        assert!(check_page(&page, ws, we).is_ok());
        if let Some(b) = p.advance(page) {
            batches.push(b);
        }
        steps += 1;
        assert!(steps < 1000, "the run must terminate");
    }
    let mut total = 0;
    for b in &batches {
        for pair in b.records.windows(2) {
            assert!(pair[0].open_time < pair[1].open_time);
        }
        for r in &b.records {
            let day = r.open_time.div_euclid(86_400_000);
            let first_day = b.records[0].open_time.div_euclid(86_400_000);
            assert_eq!(day, first_day);
        }
        total += b.records.len();
    }
    assert_eq!(total, 120);
}

#[test]
fn leap_day_key() {
    // 2024-02-29T23:50:00Z: an exhausted-day flush is keyed to the leap day
    let feb29 = 1_709_164_800_000; // 2024-02-29T00:00:00Z
    let start = feb29 + 86_400_000 - 600_000;
    let end = feb29 + 2 * 86_400_000;
    let mut p = Paginator::new(cfg(start, end, 900_000));
    let f = p.advance(Vec::new());
    let batch = f.expect("day flush");
    assert_eq!((batch.year, batch.month, batch.day), (2024, 2, 29));
    assert_eq!(p.cursor, feb29 + 86_400_000);
}

#[test]
fn page_out_of_order_is_rejected() {
    let page = vec![rec(JUNE1 + 1000, JUNE1 + 1999), rec(JUNE1, JUNE1 + 999)];
    assert_eq!(
        check_page(&page, JUNE1, JUNE1 + 9_999),
        Err(RunError::ContractViolation)
    );
}

#[test]
fn page_outside_window_is_rejected() {
    let page = vec![rec(JUNE1, JUNE1 + 999)];
    assert_eq!(
        check_page(&page, JUNE1 + 1000, JUNE1 + 9_999),
        Err(RunError::ContractViolation)
    );
    let late = vec![rec(JUNE1 + 10_000, JUNE1 + 10_999)];
    assert_eq!(
        check_page(&late, JUNE1, JUNE1 + 9_999),
        Err(RunError::ContractViolation)
    );
}

#[test]
fn duplicate_open_time_is_rejected() {
    let page = vec![rec(JUNE1, JUNE1 + 999), rec(JUNE1, JUNE1 + 999)];
    assert_eq!(
        check_page(&page, JUNE1, JUNE1 + 9_999),
        Err(RunError::ContractViolation)
    );
}

#[test]
fn well_formed_page_is_accepted() {
    let page = second_bars(JUNE1, 10);
    assert!(check_page(&page, JUNE1, JUNE1 + 9_999).is_ok());
    let empty: Vec<Record> = Vec::new();
    assert!(check_page(&empty, JUNE1, JUNE1 + 9_999).is_ok());
}
