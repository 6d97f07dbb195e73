use http_profiler::response::Response;
use http_profiler::stats::{codes_text, median, summarize};

fn sample(time_taken: u128, status: u16, size: usize) -> Response {
    Response { time_taken, status, size, body: Vec::new() }
}

#[test]
fn median_of_odd_count_is_middle_value() {
    assert_eq!(median(vec![30, 10, 20]), 20);
}

#[test]
fn median_of_even_count_is_truncated_mean_of_middle_two() {
    assert_eq!(median(vec![40, 10, 30, 20]), 25);
    // 20 and 25 average to 22.5, truncated toward zero
    assert_eq!(median(vec![25, 10, 20, 40]), 22);
}

#[test]
fn mean_of_three_times_is_twenty() {
    let responses = vec![sample(10, 200, 1), sample(20, 200, 1), sample(30, 200, 1)];
    let rep = summarize(&responses);
    assert_eq!(rep.time_sum, 60);
    assert_eq!(rep.runs, 3);
    assert_eq!(rep.time_sum as f64 / rep.runs as f64, 20.0);
    assert_eq!(rep.median, 20);
}

#[test]
fn success_rate_and_unsuccessful_codes() {
    let responses = vec![
        sample(1, 200, 10),
        sample(2, 404, 11),
        sample(3, 200, 12),
        sample(4, 500, 13),
        sample(5, 200, 14),
    ];
    let rep = summarize(&responses);
    assert_eq!(rep.runs, 5);
    assert_eq!(rep.success_count, 3);
    assert_eq!(rep.success_count * 100 / rep.runs, 60);
    assert_eq!(codes_text(&rep.unsuccessful_codes), b"404 500".to_vec());
}

#[test]
fn unsuccessful_codes_are_sorted_and_deduplicated() {
    let responses = vec![
        sample(1, 500, 1),
        sample(2, 404, 1),
        sample(3, 500, 1),
        sample(4, 101, 1),
        sample(5, 301, 1),
    ];
    let rep = summarize(&responses);
    assert_eq!(rep.unsuccessful_codes, vec![101, 301, 404, 500]);
    assert_eq!(codes_text(&rep.unsuccessful_codes), b"101 301 404 500".to_vec());
}

#[test]
fn all_successful_gives_empty_code_line() {
    let responses = vec![sample(1, 200, 1), sample(2, 299, 1)];
    let rep = summarize(&responses);
    assert_eq!(rep.success_count, 2);
    assert!(rep.unsuccessful_codes.is_empty());
    assert_eq!(codes_text(&rep.unsuccessful_codes), Vec::<u8>::new());
}

#[test]
fn single_run_collapses_all_statistics() {
    let responses = vec![sample(7, 200, 512)];
    let rep = summarize(&responses);
    assert_eq!(rep.smallest, 512);
    assert_eq!(rep.largest, 512);
    assert_eq!(rep.fastest, 7);
    assert_eq!(rep.slowest, 7);
    assert_eq!(rep.median, 7);
    assert_eq!(rep.time_sum as f64 / rep.runs as f64, 7.0);
}

#[test]
fn extremes_over_several_runs() {
    let responses = vec![
        sample(12, 200, 900),
        sample(3, 200, 1500),
        sample(44, 200, 200),
    ];
    let rep = summarize(&responses);
    assert_eq!(rep.fastest, 3);
    assert_eq!(rep.slowest, 44);
    assert_eq!(rep.smallest, 200);
    assert_eq!(rep.largest, 1500);
}

#[test]
fn median_of_huge_times_does_not_overflow() {
    // (u128::MAX + (u128::MAX - 1)) / 2 truncates to u128::MAX - 1
    assert_eq!(median(vec![u128::MAX, u128::MAX - 1]), u128::MAX - 1);
}

#[test]
fn code_line_renders_the_largest_status() {
    assert_eq!(codes_text(&vec![7, 65535]), b"7 65535".to_vec());
    assert_eq!(codes_text(&vec![0]), b"0".to_vec());
}

#[test]
fn boundary_statuses_count_correctly() {
    // 200 and 299 succeed; 199 and 300 do not
    let responses = vec![
        sample(1, 199, 1),
        sample(1, 200, 1),
        sample(1, 299, 1),
        sample(1, 300, 1),
    ];
    let rep = summarize(&responses);
    assert_eq!(rep.success_count, 2);
    assert_eq!(rep.unsuccessful_codes, vec![199, 300]);
}
