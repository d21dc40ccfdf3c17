use linkerd_failover::errors::FailoverError;
use linkerd_failover::metrics::{
    classify_line, parse_metrics, port, scan_metrics, Classification, LineOutcome, MetricSample,
};
use linkerd_failover::record::{find_label, parse_labels, parse_record};
use linkerd_failover::text::{
    add_saturating, bytes_equal, find_byte, holds_at, is_digit_byte, parse_decimal,
};

fn sample(success: u64, failure: u64) -> MetricSample {
    MetricSample { success, failure }
}

#[test]
fn counts_a_success_record() {
    let body = b"response_total{direction=\"outbound\",target_addr=\"10.1.2.3:8080\",classification=\"success\"} 42";
    assert_eq!(parse_metrics(body), sample(42, 0));
}

#[test]
fn counts_a_failure_record() {
    let body = b"response_total{target_addr=\"10.1.2.3:8080\",classification=\"failure\",status_code=\"500\"} 7";
    assert_eq!(parse_metrics(body), sample(0, 7));
}

#[test]
fn leaves_out_the_metrics_port_with_target_addr_first() {
    let body = b"response_total{target_addr=\"10.1.2.3:4191\",classification=\"success\"} 42";
    assert_eq!(parse_metrics(body), sample(0, 0));
}

#[test]
fn leaves_out_the_metrics_port_with_target_addr_last() {
    let body = b"response_total{classification=\"failure\",tls=\"true\",target_addr=\"10.1.2.3:4191\"} 42";
    assert_eq!(parse_metrics(body), sample(0, 0));
}

#[test]
fn counts_whatever_the_order_of_the_labels() {
    let first = b"response_total{target_addr=\"10.1.2.3:80\",classification=\"success\",tls=\"true\"} 5";
    let second = b"response_total{tls=\"true\",classification=\"success\",target_addr=\"10.1.2.3:80\"} 5";
    assert_eq!(parse_metrics(first), sample(5, 0));
    assert_eq!(parse_metrics(second), sample(5, 0));
}

#[test]
fn sums_over_the_lines_of_a_payload() {
    let body = b"# HELP response_total Total count of HTTP responses.\n\
# TYPE response_total counter\n\
response_total{target_addr=\"10.0.0.1:80\",classification=\"success\"} 60\n\
response_total{target_addr=\"10.0.0.1:4191\",classification=\"success\"} 1000\n\
response_total{target_addr=\"10.0.0.1:80\",classification=\"failure\"} 10\n\
response_total{target_addr=\"10.0.0.1:8080\",classification=\"success\"} 30\n\
request_total{target_addr=\"10.0.0.1:80\"} 999\n";
    assert_eq!(parse_metrics(body), sample(90, 10));
}

#[test]
fn successes_and_failures_add_up_to_the_counted_numbers() {
    let body = b"response_total{target_addr=\"a:1\",classification=\"success\"} 3\n\
response_total{target_addr=\"a:2\",classification=\"failure\"} 4\n\
response_total{target_addr=\"a:4191\",classification=\"failure\"} 100\n\
response_total{target_addr=\"a:3\",classification=\"success\"} 5";
    let counts = parse_metrics(body);
    assert_eq!(counts.success + counts.failure, 3 + 4 + 5);
}

#[test]
fn empty_payload_counts_nothing() {
    assert_eq!(parse_metrics(b""), sample(0, 0));
}

#[test]
fn payload_without_records_counts_nothing() {
    assert_eq!(parse_metrics(b"process_cpu_seconds_total 12\nfoo{bar=\"baz\"} 1\n"), sample(0, 0));
}

#[test]
fn record_without_a_number_is_left_out_and_reported() {
    let body = b"response_total{target_addr=\"a:80\",classification=\"success\"} many\n\
response_total{target_addr=\"a:80\",classification=\"success\"} 8\n";
    let scrape = scan_metrics(body);
    assert_eq!(scrape.sample, sample(8, 0));
    assert_eq!(scrape.malformed, 1);
}

#[test]
fn record_with_an_empty_number_is_malformed() {
    let line = b"response_total{target_addr=\"a:80\",classification=\"success\"} ";
    assert_eq!(classify_line(line), LineOutcome::Malformed);
}

#[test]
fn metrics_port_record_without_a_number_is_not_reported() {
    let body = b"response_total{target_addr=\"a:4191\",classification=\"success\"} many";
    let scrape = scan_metrics(body);
    assert_eq!(scrape.sample, sample(0, 0));
    assert_eq!(scrape.malformed, 0);
}

#[test]
fn classify_line_tells_the_four_outcomes() {
    assert_eq!(
        classify_line(b"response_total{target_addr=\"a:80\",classification=\"success\"} 12"),
        LineOutcome::Counted { classification: Classification::Success, value: 12 }
    );
    assert_eq!(
        classify_line(b"response_total{target_addr=\"a:80\",classification=\"failure\"} 0"),
        LineOutcome::Counted { classification: Classification::Failure, value: 0 }
    );
    assert_eq!(
        classify_line(b"response_total{target_addr=\"a:4191\",classification=\"failure\"} 12"),
        LineOutcome::SelfPort
    );
    assert_eq!(
        classify_line(b"response_total{target_addr=\"a:80\",classification=\"failure\"} 1.5"),
        LineOutcome::Malformed
    );
    assert_eq!(classify_line(b"something else"), LineOutcome::Other);
}

#[test]
fn record_without_the_labels_that_matter_is_passed_over() {
    assert_eq!(classify_line(b"response_total{classification=\"success\"} 12"), LineOutcome::Other);
    assert_eq!(classify_line(b"response_total{target_addr=\"a:80\"} 12"), LineOutcome::Other);
    assert_eq!(
        classify_line(b"response_total{target_addr=\"a:80\",classification=\"unknown\"} 12"),
        LineOutcome::Other
    );
    assert_eq!(
        classify_line(b"response_total{target_addr=\"no-port\",classification=\"success\"} 12"),
        LineOutcome::Other
    );
}

#[test]
fn record_must_start_the_line() {
    assert_eq!(
        classify_line(b" response_total{target_addr=\"a:80\",classification=\"success\"} 12"),
        LineOutcome::Other
    );
}

#[test]
fn port_is_compared_as_written() {
    assert_eq!(
        classify_line(b"response_total{target_addr=\"a:04191\",classification=\"success\"} 12"),
        LineOutcome::Counted { classification: Classification::Success, value: 12 }
    );
    assert_eq!(
        classify_line(b"response_total{target_addr=\"a:41910\",classification=\"success\"} 12"),
        LineOutcome::Counted { classification: Classification::Success, value: 12 }
    );
}

#[test]
fn other_labels_with_ports_do_not_matter() {
    let line = b"response_total{target_addr=\"10.0.0.1:80\",authority=\"web:4191\",classification=\"success\"} 9";
    assert_eq!(
        classify_line(line),
        LineOutcome::Counted { classification: Classification::Success, value: 9 }
    );
}

#[test]
fn number_too_large_for_the_machine_is_capped() {
    let line = b"response_total{target_addr=\"a:80\",classification=\"success\"} 99999999999999999999999";
    assert_eq!(
        classify_line(line),
        LineOutcome::Counted { classification: Classification::Success, value: u64::MAX }
    );
}

#[test]
fn sums_are_capped() {
    let body = b"response_total{target_addr=\"a:80\",classification=\"success\"} 18446744073709551615\n\
response_total{target_addr=\"a:80\",classification=\"success\"} 5";
    assert_eq!(parse_metrics(body), sample(u64::MAX, 0));
}

#[test]
fn port_of_an_address() {
    assert_eq!(port(b"10.1.2.3:8080"), Some(&b"8080"[..]));
    assert_eq!(port(b"[::1]:4191"), Some(&b"4191"[..]));
    assert_eq!(port(b":80"), Some(&b"80"[..]));
    assert_eq!(port(b"10.1.2.3"), None);
    assert_eq!(port(b"host:"), None);
    assert_eq!(port(b"host:80a"), None);
    assert_eq!(port(b"8080"), None);
    assert_eq!(port(b""), None);
}

#[test]
fn parse_decimal_reads_numbers() {
    assert_eq!(parse_decimal(b"0"), Ok(0));
    assert_eq!(parse_decimal(b"007"), Ok(7));
    assert_eq!(parse_decimal(b"1234567890"), Ok(1234567890));
    assert_eq!(parse_decimal(b"18446744073709551615"), Ok(u64::MAX));
    assert_eq!(parse_decimal(b"18446744073709551616"), Ok(u64::MAX));
    assert_eq!(parse_decimal(b"18446744073709551614"), Ok(u64::MAX - 1));
}

#[test]
fn parse_decimal_refuses_what_is_no_number() {
    assert_eq!(parse_decimal(b""), Err(FailoverError::ParseError));
    assert_eq!(parse_decimal(b"12a"), Err(FailoverError::ParseError));
    assert_eq!(parse_decimal(b"-1"), Err(FailoverError::ParseError));
    assert_eq!(parse_decimal(b"1.0"), Err(FailoverError::ParseError));
    assert_eq!(parse_decimal(b" 1"), Err(FailoverError::ParseError));
}

#[test]
fn parse_record_takes_a_line_apart() {
    let record = parse_record(b"response_total{a=\"x\",b_2=\"y z\"} 12 13").unwrap();
    assert_eq!(record.labels.len(), 2);
    assert_eq!(record.labels[0].key, b"a");
    assert_eq!(record.labels[0].value, b"x");
    assert_eq!(record.labels[1].key, b"b_2");
    assert_eq!(record.labels[1].value, b"y z");
    assert_eq!(record.field, b"12 13");
}

#[test]
fn parse_record_refuses_what_is_no_record() {
    assert!(parse_record(b"").is_none());
    assert!(parse_record(b"response_total").is_none());
    assert!(parse_record(b"response_total{} 1").is_none());
    assert!(parse_record(b"response_total{a=\"x\"}").is_none());
    assert!(parse_record(b"response_total{a=\"x\"}1").is_none());
    assert!(parse_record(b"response_total{a=\"x\",} 1").is_none());
    assert!(parse_record(b"response_total{a=\"x\" 1").is_none());
    assert!(parse_record(b"response_total{a=x} 1").is_none());
    assert!(parse_record(b"response_total{=\"x\"} 1").is_none());
    assert!(parse_record(b"response_total{a-b=\"x\"} 1").is_none());
    assert!(parse_record(b"response_totals{a=\"x\"} 1").is_none());
}

#[test]
fn parse_record_keeps_braces_and_commas_inside_values() {
    let record = parse_record(b"response_total{a=\"x},y\",b=\"\"} 1").unwrap();
    assert_eq!(record.labels[0].value, b"x},y");
    assert_eq!(record.labels[1].value, b"");
    assert_eq!(record.field, b"1");
}

#[test]
fn parse_labels_gives_the_position_after_the_brace() {
    let text = b"{a=\"1\",b=\"2\"} rest";
    let (labels, end) = parse_labels(text, 1).unwrap();
    assert_eq!(labels.len(), 2);
    assert_eq!(end, 13);
    assert!(parse_labels(text, 0).is_none());
}

#[test]
fn find_label_gives_the_first_of_a_key() {
    let record = parse_record(b"response_total{a=\"1\",b=\"2\",a=\"3\"} 0").unwrap();
    assert_eq!(find_label(&record.labels, b"a"), Some(&b"1".to_vec()));
    assert_eq!(find_label(&record.labels, b"b"), Some(&b"2".to_vec()));
    assert_eq!(find_label(&record.labels, b"c"), None);
}

#[test]
fn byte_helpers() {
    assert!(is_digit_byte(b'0') && is_digit_byte(b'9'));
    assert!(!is_digit_byte(b'/') && !is_digit_byte(b':'));
    assert!(bytes_equal(b"abc", b"abc"));
    assert!(!bytes_equal(b"abc", b"abd"));
    assert!(!bytes_equal(b"abc", b"ab"));
    assert_eq!(find_byte(b"a,b,c", 0, b','), 1);
    assert_eq!(find_byte(b"a,b,c", 2, b','), 3);
    assert_eq!(find_byte(b"a,b,c", 4, b','), 5);
    assert!(holds_at(b"hello world", 6, b"world"));
    assert!(!holds_at(b"hello world", 7, b"world"));
    assert!(!holds_at(b"hello world", 6, b"worlds"));
    assert_eq!(add_saturating(2, 3), 5);
    assert_eq!(add_saturating(u64::MAX, 1), u64::MAX);
    assert_eq!(add_saturating(u64::MAX - 1, 1), u64::MAX);
}

#[test]
fn carriage_return_is_part_of_the_line() {
    let body = b"response_total{target_addr=\"a:80\",classification=\"success\"} 8\r\n";
    let scrape = scan_metrics(body);
    assert_eq!(scrape.sample, sample(0, 0));
    assert_eq!(scrape.malformed, 1);
}

#[test]
fn agrees_with_line_patterns_on_proxy_output() {
    let body = "# TYPE response_total counter\n\
response_total{direction=\"inbound\",tls=\"true\",target_addr=\"10.42.0.12:8080\",status_code=\"200\",classification=\"success\"} 1312\n\
response_total{direction=\"inbound\",tls=\"true\",target_addr=\"10.42.0.12:8080\",status_code=\"503\",classification=\"failure\"} 17\n\
response_total{direction=\"inbound\",tls=\"true\",target_addr=\"10.42.0.12:4191\",status_code=\"200\",classification=\"success\"} 640\n\
response_total{direction=\"outbound\",tls=\"true\",target_addr=\"10.42.0.9:80\",status_code=\"200\",classification=\"success\"} 3\n\
response_latency_ms_count{direction=\"inbound\",target_addr=\"10.42.0.12:8080\"} 1329\n";
    let patterns = [
        r#"(?m)^response_total\{.*target_addr=".*:(\d+)".*classification="success".* (\d+)"#,
        r#"(?m)^response_total\{.*target_addr=".*:(\d+)".*classification="failure".* (\d+)"#,
    ];
    let mut sums = [0u64, 0u64];
    for (sum, pattern) in sums.iter_mut().zip(patterns.iter()) {
        let matcher = regex::Regex::new(pattern).unwrap();
        for found in matcher.captures_iter(body) {
            if &found[1] != "4191" {
                *sum += found[2].parse::<u64>().unwrap();
            }
        }
    }
    assert_eq!(parse_metrics(body.as_bytes()), sample(sums[0], sums[1]));
    assert_eq!(sums, [1315, 17]);
}
