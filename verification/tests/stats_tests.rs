use puzzle_stats::decode::{decode_fields, Layout};
use puzzle_stats::project::split_line;
use puzzle_stats::stats::Stats;
use puzzle_stats::topk::TOP_K;

fn feed(stats: &mut Stats, line: &str) {
    let layout = Layout::standard();
    let fields = split_line(line);
    assert!(stats.can_ingest(&fields, &layout));
    stats.ingest_row(&fields, &layout);
}

#[test]
fn three_records_scenario() {
    let mut s = Stats::new();
    feed(&mut s, "A,,,1000,50,10,5");
    feed(&mut s, "B,,,1500,30,5,20");
    feed(&mut s, "C,,,1500,10,1,1");
    // B reached 1500 first and stays champion; C only ties it
    assert_eq!(s.extremes.highest.id, "B");
    assert_eq!(s.extremes.highest.rating, 1500);
    assert_eq!(s.extremes.highest_count, 2);
    assert_eq!(s.extremes.highest.attempts, 20);
    assert_eq!(s.extremes.highest.rating_deviation, 30);
    // the 1500 bucket holds both 1500-rated records
    let b = &s.histogram.buckets[15];
    assert_eq!(b.count, 2);
    assert_eq!(b.sum_attempts, 21);
    assert_eq!(s.accepted_count, 3);
    assert_eq!(s.total_rating, 4000);
    assert_eq!(s.total_attempts, 26);
}

#[test]
fn high_deviation_row_is_skipped_everywhere() {
    let mut s = Stats::new();
    feed(&mut s, "D,,,1200,450,3,7");
    assert_eq!(s.skipped_count, 1);
    assert_eq!(s.accepted_count, 0);
    assert_eq!(s.total_rating, 0);
    assert_eq!(s.total_attempts, 0);
    assert_eq!(s.histogram.buckets.len(), 0);
    assert_eq!(s.topk.list.len(), 0);
    assert_eq!(s.extremes.highest.rating, 0);
    assert_eq!(s.extremes.highest_count, 0);
}

#[test]
fn deviation_limit_is_strict() {
    let mut s = Stats::new();
    feed(&mut s, "E,,,900,400,0,1");
    feed(&mut s, "F,,,900,401,0,1");
    assert_eq!(s.accepted_count, 1);
    assert_eq!(s.skipped_count, 1);
    assert_eq!(s.extremes.highest.id, "E");
}

#[test]
fn empty_stream_reports_zeroes() {
    let s = Stats::new();
    assert_eq!(s.accepted_count, 0);
    assert_eq!(s.skipped_count, 0);
    assert_eq!(s.total_rating, 0);
    assert_eq!(s.total_attempts, 0);
    assert_eq!(s.histogram.buckets.len(), 0);
    assert_eq!(s.histogram.first_counted(), 0);
    assert_eq!(s.topk.list.len(), 0);
    // sentinels are reported unchanged on an empty stream
    assert_eq!(s.extremes.highest.rating, 0);
    assert_eq!(s.extremes.lowest.rating, u64::MAX);
    assert_eq!(s.extremes.least_played.attempts, u64::MAX);
}

#[test]
fn fifteen_increasing_ratings_keep_the_top_ten() {
    let mut s = Stats::new();
    for i in 1..=15u64 {
        let rating = i * 100;
        feed(&mut s, &format!("P{},,,{},10,0,{}", i, rating, i));
    }
    assert_eq!(s.topk.list.len(), TOP_K);
    for (k, expected) in (0..TOP_K).zip((600..=1500).rev().step_by(100)) {
        assert_eq!(s.topk.list[k].rating, expected);
    }
    // the five lowest are absent
    for p in s.topk.list.iter() {
        assert!(p.rating >= 600);
    }
}

#[test]
fn top_k_tie_goes_after_earlier_arrivals() {
    let mut s = Stats::new();
    feed(&mut s, "First,,,700,10,0,1");
    feed(&mut s, "Second,,,700,10,0,2");
    feed(&mut s, "Higher,,,800,10,0,3");
    assert_eq!(s.topk.list[0].id, "Higher");
    assert_eq!(s.topk.list[1].id, "First");
    assert_eq!(s.topk.list[2].id, "Second");
}

#[test]
fn top_k_full_of_ties_drops_newcomers_at_same_rating() {
    let mut s = Stats::new();
    for i in 0..11u64 {
        feed(&mut s, &format!("T{},,,500,10,0,{}", i, i));
    }
    assert_eq!(s.topk.list.len(), TOP_K);
    // the eleventh tie beats nobody and the list is full, so it is dropped
    for (k, p) in s.topk.list.iter().enumerate() {
        assert_eq!(p.id, format!("T{}", k));
    }
}

#[test]
fn top_k_full_drops_lowest_for_a_better_record() {
    let mut s = Stats::new();
    for i in 1..=10u64 {
        feed(&mut s, &format!("U{},,,{},10,0,1", i, i * 100));
    }
    feed(&mut s, "V,,,550,10,0,1");
    assert_eq!(s.topk.list.len(), TOP_K);
    // V displaces the lowest (100): list is 1000..200 then 550 in place
    assert_eq!(s.topk.list[0].rating, 1000);
    assert_eq!(s.topk.list[9].rating, 200);
    assert!(s.topk.list.iter().any(|p| p.rating == 550));
    assert!(!s.topk.list.iter().any(|p| p.rating == 100));
}

#[test]
fn lowest_rated_tie_count() {
    let mut s = Stats::new();
    feed(&mut s, "G,,,300,10,0,1");
    feed(&mut s, "H,,,200,10,0,1");
    feed(&mut s, "I,,,200,10,0,1");
    feed(&mut s, "J,,,250,10,0,1");
    assert_eq!(s.extremes.lowest.id, "H");
    assert_eq!(s.extremes.lowest.rating, 200);
    assert_eq!(s.extremes.lowest_count, 2);
    assert_eq!(s.extremes.highest.id, "G");
    assert_eq!(s.extremes.highest_count, 1);
}

#[test]
fn zero_rating_ties_the_highest_sentinel() {
    // the highest tracker starts from a zero-valued record, so a record
    // rated 0 counts as a tie and the sentinel stays stored
    let mut s = Stats::new();
    feed(&mut s, "Z,,,0,10,0,1");
    assert_eq!(s.extremes.highest.id, "");
    assert_eq!(s.extremes.highest.rating, 0);
    assert_eq!(s.extremes.highest_count, 1);
    // the lowest tracker has no such blind spot
    assert_eq!(s.extremes.lowest.id, "Z");
    assert_eq!(s.extremes.lowest_count, 1);
}

#[test]
fn popularity_and_plays_trackers() {
    let mut s = Stats::new();
    feed(&mut s, "K,,,400,10,-5,9");
    feed(&mut s, "L,,,500,10,-7,2");
    feed(&mut s, "M,,,600,10,0,2");
    assert_eq!(s.extremes.least_popular.id, "L");
    assert_eq!(s.extremes.least_popular.popularity, -7);
    assert_eq!(s.extremes.most_played.id, "K");
    assert_eq!(s.extremes.most_played.attempts, 9);
    // ties never replace: L stays least played over M
    assert_eq!(s.extremes.least_played.id, "L");
    assert_eq!(s.extremes.least_played.attempts, 2);
}

#[test]
fn histogram_grows_densely_and_trims_only_the_empty_prefix() {
    let mut s = Stats::new();
    feed(&mut s, "N,,,350,10,0,1");
    assert_eq!(s.histogram.buckets.len(), 4);
    assert_eq!(s.histogram.first_counted(), 3);
    feed(&mut s, "O,,,50,10,0,1");
    // an interior gap stays visible once a lower bucket is occupied
    assert_eq!(s.histogram.buckets.len(), 4);
    assert_eq!(s.histogram.first_counted(), 0);
    assert_eq!(s.histogram.buckets[0].count, 1);
    assert_eq!(s.histogram.buckets[1].count, 0);
    assert_eq!(s.histogram.buckets[2].count, 0);
    assert_eq!(s.histogram.buckets[3].count, 1);
}

#[test]
fn bucket_partition_sums() {
    let mut s = Stats::new();
    let rows = ["A,,,120,10,0,3", "B,,,180,20,0,4", "C,,,990,30,0,5", "D,,,120,40,0,6"];
    for line in rows.iter() {
        feed(&mut s, line);
    }
    let mut count_sum = 0u64;
    let mut rating_sum = 0u64;
    let mut attempts_sum = 0u64;
    for b in s.histogram.buckets.iter() {
        count_sum += b.count;
        rating_sum += b.sum_rating;
        attempts_sum += b.sum_attempts;
    }
    assert_eq!(count_sum, s.accepted_count);
    assert_eq!(rating_sum, s.total_rating);
    assert_eq!(attempts_sum, s.total_attempts);
    assert_eq!(s.histogram.buckets[1].count, 3);
    assert_eq!(s.histogram.buckets[1].sum_rating, 420);
}

#[test]
fn decode_then_accept_matches_ingest() {
    let layout = Layout::standard();
    let mut s = Stats::new();
    let fields = split_line("Q,,,640,25,4,8");
    let r = decode_fields(&fields, &layout);
    assert!(s.can_accept(&r));
    s.accept(&r);
    assert_eq!(s.accepted_count, 1);
    assert_eq!(s.total_rating, 640);
    assert_eq!(s.histogram.buckets[6].sum_rating_deviation, 25);
}

#[test]
fn malformed_rating_lands_in_bucket_zero() {
    let mut s = Stats::new();
    feed(&mut s, "W,,,not-a-number,17,0,4");
    assert_eq!(s.accepted_count, 1);
    assert_eq!(s.total_rating, 0);
    assert_eq!(s.histogram.buckets.len(), 1);
    assert_eq!(s.histogram.buckets[0].count, 1);
    assert_eq!(s.histogram.buckets[0].sum_rating_deviation, 17);
    assert_eq!(s.histogram.buckets[0].sum_attempts, 4);
}
