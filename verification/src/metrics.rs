//! What one proxy reports: the successes and failures that a metrics payload
//! counts, line by line.
//!
//! A record counts where its `classification` label says `success` or
//! `failure` and its `target_addr` label ends in a colon and a port. Records
//! whose port is the proxy's own metrics port are left out: they count the
//! scraping itself. The labels may stand in any order.

use vstd::prelude::*;
use vstd::slice::slice_subrange;

use crate::record::{
    distinct_keys, find_label, label_value, lemma_label_value_at, lemma_label_value_unordered,
    lemma_record_round_trip, parse_record, record_of, render_record, valid_labels, LabelView,
    Record, RecordView,
};
use crate::text::{
    add_saturating, all_digits, ascii, ascii_bytes, bytes_equal, decimal_value, find_byte,
    first_index_of, is_digit, is_digit_byte, lemma_first_index_of, lemma_first_index_of_unique,
    parse_decimal, saturate, COLON, NEWLINE,
};
use crate::totals::{lemma_total_push, lemma_total_remove, total};

verus! {

/// How a request ended.
#[derive(Clone, Copy, Debug, PartialEq, Eq, Structural)]
pub enum Classification {
    Success,
    Failure,
}

/// The successes and failures that one endpoint reports at one tick.
#[derive(Clone, Copy, Debug, PartialEq, Eq, Structural)]
pub struct MetricSample {
    pub success: u64,
    pub failure: u64,
}

/// What one line of a payload means, with its number as written.
pub enum LineMeaning {
    /// No record, or one without the two labels that matter.
    Other,
    /// A record of the proxy's own metrics port.
    SelfPort,
    /// A record that should count, with something other than a number after
    /// its labels.
    Malformed,
    /// A record that counts.
    Counted { classification: Classification, value: nat },
}

/// What one line of a payload comes to, with its number as the machine
/// holds it.
#[derive(Clone, Copy, Debug, PartialEq, Eq, Structural)]
pub enum LineOutcome {
    /// No record, or one without the two labels that matter.
    Other,
    /// A record of the proxy's own metrics port.
    SelfPort,
    /// A record that should count, with something other than a number after
    /// its labels.
    Malformed,
    /// A record that counts.
    Counted { classification: Classification, value: u64 },
}

/// What a whole payload comes to.
#[derive(Clone, Copy, Debug, PartialEq, Eq, Structural)]
pub struct Scrape {
    /// The counts of the records that count.
    pub sample: MetricSample,
    /// How many records were left out because no number followed their labels.
    pub malformed: u64,
}

/// The key of the label that names where a request went.
pub open spec fn target_addr_key() -> Seq<u8> {
    ascii("target_addr"@)
}

/// The key of the label that says how a request ended.
pub open spec fn classification_key() -> Seq<u8> {
    ascii("classification"@)
}

/// The port on which a proxy serves its own metrics, as a record writes it.
pub open spec fn self_port() -> Seq<u8> {
    ascii("4191"@)
}

/// How many digits `s` ends in.
pub open spec fn trailing_digits(s: Seq<u8>) -> nat
    decreases s.len(),
{
    if s.len() > 0 && is_digit(s.last()) {
        1 + trailing_digits(s.drop_last())
    } else {
        0
    }
}

/// The port of an address: the digits at its end, where there are some and a
/// colon stands before them.
pub open spec fn port_of(addr: Seq<u8>) -> Option<Seq<u8>> {
    let digits = trailing_digits(addr) as int;
    if 0 < digits < addr.len() && addr[addr.len() - digits - 1] == COLON {
        Some(addr.subrange(addr.len() - digits, addr.len() as int))
    } else {
        None
    }
}

/// The port that the labels' `target_addr` names.
pub open spec fn target_port(labels: Seq<LabelView>) -> Option<Seq<u8>> {
    match label_value(labels, target_addr_key()) {
        Some(addr) => port_of(addr),
        None => None,
    }
}

/// How the labels' `classification` says the request ended.
pub open spec fn classification_of(labels: Seq<LabelView>) -> Option<Classification> {
    match label_value(labels, classification_key()) {
        Some(value) => {
            if value == ascii("success"@) {
                Some(Classification::Success)
            } else if value == ascii("failure"@) {
                Some(Classification::Failure)
            } else {
                None
            }
        },
        None => None,
    }
}

/// What a record means.
pub open spec fn record_meaning(record: RecordView) -> LineMeaning {
    match (classification_of(record.labels), target_port(record.labels)) {
        (Some(classification), Some(port)) => {
            if port == self_port() {
                LineMeaning::SelfPort
            } else if record.field.len() > 0 && all_digits(record.field) {
                LineMeaning::Counted { classification, value: decimal_value(record.field) }
            } else {
                LineMeaning::Malformed
            }
        },
        _ => LineMeaning::Other,
    }
}

/// What a line means.
pub open spec fn line_meaning(line: Seq<u8>) -> LineMeaning {
    match record_of(line) {
        Some(record) => record_meaning(record),
        None => LineMeaning::Other,
    }
}

/// A line's meaning with its number as the machine holds it.
pub open spec fn capped(meaning: LineMeaning) -> LineOutcome {
    match meaning {
        LineMeaning::Other => LineOutcome::Other,
        LineMeaning::SelfPort => LineOutcome::SelfPort,
        LineMeaning::Malformed => LineOutcome::Malformed,
        LineMeaning::Counted { classification, value } => LineOutcome::Counted {
            classification,
            value: saturate(value),
        },
    }
}

/// The successes that a line adds.
pub open spec fn success_of(line: Seq<u8>) -> nat {
    match line_meaning(line) {
        LineMeaning::Counted { classification: Classification::Success, value } => value,
        _ => 0,
    }
}

/// The failures that a line adds.
pub open spec fn failure_of(line: Seq<u8>) -> nat {
    match line_meaning(line) {
        LineMeaning::Counted { classification: Classification::Failure, value } => value,
        _ => 0,
    }
}

/// One where the line is a record left out for want of a number, zero
/// otherwise.
pub open spec fn malformed_of(line: Seq<u8>) -> nat {
    match line_meaning(line) {
        LineMeaning::Malformed => 1,
        _ => 0,
    }
}

/// The lines of `body` from position `from` on: the stretches between line
/// feeds. A body that ends in a line feed has an empty last line.
pub open spec fn lines_from(body: Seq<u8>, from: int) -> Seq<Seq<u8>>
    decreases body.len() - from,
    via lines_from_terminates
{
    if 0 <= from <= body.len() {
        let end = first_index_of(body, from, NEWLINE);
        if end >= body.len() {
            seq![body.subrange(from, body.len() as int)]
        } else {
            seq![body.subrange(from, end)] + lines_from(body, end + 1)
        }
    } else {
        Seq::empty()
    }
}

#[via_fn]
proof fn lines_from_terminates(body: Seq<u8>, from: int) {
    if 0 <= from <= body.len() {
        lemma_first_index_of(body, from, NEWLINE);
    }
}

/// The lines of a payload.
pub open spec fn split_lines(body: Seq<u8>) -> Seq<Seq<u8>> {
    lines_from(body, 0)
}

/// The successes that a list of lines counts, each number as written.
pub open spec fn success_sum(lines: Seq<Seq<u8>>) -> nat {
    total(lines.map_values(|line: Seq<u8>| success_of(line)))
}

/// The failures that a list of lines counts, each number as written.
pub open spec fn failure_sum(lines: Seq<Seq<u8>>) -> nat {
    total(lines.map_values(|line: Seq<u8>| failure_of(line)))
}

/// How many of the lines are records left out for want of a number.
pub open spec fn malformed_count(lines: Seq<Seq<u8>>) -> nat {
    total(lines.map_values(|line: Seq<u8>| malformed_of(line)))
}

/// The counts of a payload as the machine holds them.
pub open spec fn sample_of(body: Seq<u8>) -> MetricSample {
    MetricSample {
        success: saturate(success_sum(split_lines(body))),
        failure: saturate(failure_sum(split_lines(body))),
    }
}

/// What a payload comes to.
pub open spec fn scrape_of(body: Seq<u8>) -> Scrape {
    Scrape { sample: sample_of(body), malformed: saturate(malformed_count(split_lines(body))) }
}

/// The number that a line adds to either count.
pub open spec fn counted_value(line: Seq<u8>) -> nat {
    match line_meaning(line) {
        LineMeaning::Counted { classification, value } => value,
        _ => 0,
    }
}

/// Lines put together into a payload, with a line feed between two lines.
pub open spec fn join_lines(lines: Seq<Seq<u8>>) -> Seq<u8>
    decreases lines.len(),
{
    if lines.len() == 0 {
        Seq::empty()
    } else if lines.len() == 1 {
        lines[0]
    } else {
        lines[0] + seq![NEWLINE] + join_lines(lines.drop_first())
    }
}

/// `line` holds no line feed.
pub open spec fn single_line(line: Seq<u8>) -> bool {
    forall|i: int| 0 <= i < line.len() ==> #[trigger] line[i] != NEWLINE
}

/// A string that ends in digits after `head` ends in at least that many
/// digits, and in no more where `head` ends in none.
proof fn lemma_trailing_digits_append(head: Seq<u8>, digits: Seq<u8>)
    requires
        all_digits(digits),
    ensures
        trailing_digits(head + digits) == trailing_digits(head) + digits.len(),
    decreases digits.len(),
{
    if digits.len() == 0 {
        assert(head + digits =~= head);
    } else {
        let whole = head + digits;
        assert(whole.last() == digits.last());
        assert(whole.drop_last() =~= head + digits.drop_last());
        lemma_trailing_digits_append(head, digits.drop_last());
    }
}

/// The port of `host:port` is `port`, whatever the host.
pub proof fn lemma_port_of_host_port(host: Seq<u8>, port: Seq<u8>)
    requires
        port.len() > 0,
        all_digits(port),
    ensures
        port_of(host + seq![COLON] + port) == Some(port),
{
    let head = host + seq![COLON];
    let addr = head + port;
    lemma_trailing_digits_append(head, port);
    assert(head.last() == COLON);
    assert(trailing_digits(head) == 0);
    assert(addr[addr.len() - port.len() - 1] == COLON);
    assert(addr.subrange(addr.len() - port.len(), addr.len() as int) =~= port);
}

/// A record whose `target_addr` names the proxy's own metrics port adds
/// nothing to either count.
pub proof fn lemma_self_port_excluded(record: RecordView)
    requires
        valid_labels(record.labels),
        target_port(record.labels) == Some(self_port()),
    ensures
        success_of(render_record(record)) == 0,
        failure_of(render_record(record)) == 0,
        malformed_of(render_record(record)) == 0,
{
    lemma_record_round_trip(record);
}

/// The same wherever the `target_addr` label stands among the others:
/// a record with a label `target_addr="host:4191"`, and no `target_addr`
/// before it, adds nothing to either count.
pub proof fn lemma_self_port_excluded_anywhere(record: RecordView, at: int, host: Seq<u8>)
    requires
        valid_labels(record.labels),
        0 <= at < record.labels.len(),
        record.labels[at].key == target_addr_key(),
        record.labels[at].value == host + seq![COLON] + self_port(),
        forall|j: int| 0 <= j < at ==> (#[trigger] record.labels[j]).key != target_addr_key(),
    ensures
        success_of(render_record(record)) == 0,
        failure_of(render_record(record)) == 0,
        malformed_of(render_record(record)) == 0,
{
    reveal_strlit("4191");
    lemma_label_value_at(record.labels, at);
    lemma_port_of_host_port(host, self_port());
    lemma_self_port_excluded(record);
}

/// A valid record with a classification, a port other than the proxy's own
/// and a number counts that number, under its classification, whatever the
/// order of its labels.
pub proof fn lemma_record_counts(record: RecordView)
    requires
        valid_labels(record.labels),
        classification_of(record.labels) is Some,
        target_port(record.labels) is Some,
        target_port(record.labels) != Some(self_port()),
        record.field.len() > 0,
        all_digits(record.field),
    ensures
        line_meaning(render_record(record)) == (LineMeaning::Counted {
            classification: classification_of(record.labels).unwrap(),
            value: decimal_value(record.field),
        }),
{
    lemma_record_round_trip(record);
}

/// Successes and failures together are the numbers of all the lines that
/// count.
pub proof fn lemma_counts_add_up(lines: Seq<Seq<u8>>)
    ensures
        success_sum(lines) + failure_sum(lines) == total(
            lines.map_values(|line: Seq<u8>| counted_value(line)),
        ),
    decreases lines.len(),
{
    let successes = lines.map_values(|line: Seq<u8>| success_of(line));
    let failures = lines.map_values(|line: Seq<u8>| failure_of(line));
    let values = lines.map_values(|line: Seq<u8>| counted_value(line));
    if lines.len() > 0 {
        let before = lines.drop_last();
        lemma_counts_add_up(before);
        assert(successes.drop_last() =~= before.map_values(|line: Seq<u8>| success_of(line)));
        assert(failures.drop_last() =~= before.map_values(|line: Seq<u8>| failure_of(line)));
        assert(values.drop_last() =~= before.map_values(|line: Seq<u8>| counted_value(line)));
        assert(success_of(lines.last()) + failure_of(lines.last()) == counted_value(lines.last()));
    }
}

/// A line that adds nothing can be taken out of a payload without changing
/// its counts.
pub proof fn lemma_idle_line_changes_nothing(lines: Seq<Seq<u8>>, at: int)
    requires
        0 <= at < lines.len(),
        counted_value(lines[at]) == 0,
    ensures
        success_sum(lines) == success_sum(lines.remove(at)),
        failure_sum(lines) == failure_sum(lines.remove(at)),
{
    let successes = lines.map_values(|line: Seq<u8>| success_of(line));
    let failures = lines.map_values(|line: Seq<u8>| failure_of(line));
    lemma_total_remove(successes, at);
    lemma_total_remove(failures, at);
    assert(successes.remove(at) =~= lines.remove(at).map_values(|line: Seq<u8>| success_of(line)));
    assert(failures.remove(at) =~= lines.remove(at).map_values(|line: Seq<u8>| failure_of(line)));
}

/// Splitting finds the lines of a payload again: lines without line feeds,
/// put together, are split into themselves.
pub proof fn lemma_split_joined(lines: Seq<Seq<u8>>)
    requires
        lines.len() > 0,
        forall|i: int| 0 <= i < lines.len() ==> single_line(#[trigger] lines[i]),
    ensures
        split_lines(join_lines(lines)) == lines,
    decreases lines.len(),
{
    let body = join_lines(lines);
    let first = lines[0];
    assert(single_line(first));
    if lines.len() == 1 {
        lemma_first_index_of_unique(body, 0, NEWLINE, body.len() as int);
        assert(body.subrange(0, body.len() as int) =~= first);
        assert(lines =~= seq![first]);
    } else {
        let rest = lines.drop_first();
        assert forall|i: int| 0 <= i < rest.len() implies single_line(#[trigger] rest[i]) by {
            assert(rest[i] == lines[i + 1]);
        }
        lemma_split_joined(rest);
        let end = first.len() as int;
        assert(body[end] == NEWLINE);
        assert forall|i: int| 0 <= i < end implies body[i] != NEWLINE by {
            assert(body[i] == first[i]);
        }
        lemma_first_index_of_unique(body, 0, NEWLINE, end);
        assert(body.subrange(0, end) =~= first);
        lemma_lines_from_suffix(body, end + 1);
        assert(body.subrange(end + 1, body.len() as int) =~= join_lines(rest));
        assert(seq![first] + rest =~= lines);
    }
}

/// The first line feed at or after `from`, seen from the start of the part
/// of `body` that begins at `start`.
proof fn lemma_first_index_of_suffix(body: Seq<u8>, start: int, from: int)
    requires
        0 <= start <= from <= body.len(),
    ensures
        first_index_of(body, from, NEWLINE) == start + first_index_of(
            body.subrange(start, body.len() as int),
            from - start,
            NEWLINE,
        ),
    decreases body.len() - from,
{
    let part = body.subrange(start, body.len() as int);
    if from < body.len() {
        assert(part[from - start] == body[from]);
        if body[from] != NEWLINE {
            lemma_first_index_of_suffix(body, start, from + 1);
        }
    }
}

/// The lines of `body` from `start + from` on are the lines, from `from`
/// on, of the part of `body` that begins at `start`.
proof fn lemma_lines_from_shift(body: Seq<u8>, start: int, from: int)
    requires
        0 <= start <= body.len(),
        0 <= from <= body.len() - start,
    ensures
        lines_from(body, start + from) == lines_from(
            body.subrange(start, body.len() as int),
            from,
        ),
    decreases body.len() - start - from,
{
    let part = body.subrange(start, body.len() as int);
    lemma_first_index_of_suffix(body, start, start + from);
    lemma_first_index_of(body, start + from, NEWLINE);
    let end = first_index_of(body, start + from, NEWLINE);
    let part_end = first_index_of(part, from, NEWLINE);
    assert(end == start + part_end);
    if end >= body.len() {
        assert(body.subrange(start + from, body.len() as int) =~= part.subrange(
            from,
            part.len() as int,
        ));
    } else {
        assert(body.subrange(start + from, end) =~= part.subrange(from, part_end));
        lemma_lines_from_shift(body, start, part_end + 1);
    }
}

/// The lines of `body` from `start` on are the lines of the part of `body`
/// that begins at `start`.
proof fn lemma_lines_from_suffix(body: Seq<u8>, start: int)
    requires
        0 <= start <= body.len(),
    ensures
        lines_from(body, start) == split_lines(body.subrange(start, body.len() as int)),
{
    lemma_lines_from_shift(body, start, 0);
}

/// The labels of a record may stand in any order: two valid records with
/// the same labels, each key borne once, and the same text after them mean
/// the same as lines.
pub proof fn lemma_label_order_irrelevant(first: RecordView, second: RecordView)
    requires
        valid_labels(first.labels),
        valid_labels(second.labels),
        distinct_keys(first.labels),
        distinct_keys(second.labels),
        forall|label: LabelView| first.labels.contains(label) <==> second.labels.contains(label),
        first.field == second.field,
    ensures
        line_meaning(render_record(first)) == line_meaning(render_record(second)),
{
    lemma_record_round_trip(first);
    lemma_record_round_trip(second);
    lemma_label_value_unordered(first.labels, second.labels, target_addr_key());
    lemma_label_value_unordered(first.labels, second.labels, classification_key());
}

/// Where the counts fit the machine, the successes and failures that a
/// payload comes to are together the numbers of all its lines that count.
pub proof fn lemma_sample_adds_up(body: Seq<u8>)
    requires
        success_sum(split_lines(body)) + failure_sum(split_lines(body)) <= u64::MAX,
    ensures
        sample_of(body).success + sample_of(body).failure == total(
            split_lines(body).map_values(|line: Seq<u8>| counted_value(line)),
        ),
{
    lemma_counts_add_up(split_lines(body));
}

/// A record of the proxy's own metrics port changes nothing: a payload
/// with such a line comes to the same counts as the payload without it.
pub proof fn lemma_self_port_line_changes_nothing(lines: Seq<Seq<u8>>, at: int)
    requires
        0 <= at < lines.len(),
        lines.len() > 1,
        forall|i: int| 0 <= i < lines.len() ==> single_line(#[trigger] lines[i]),
        line_meaning(lines[at]) == LineMeaning::SelfPort,
    ensures
        sample_of(join_lines(lines)) == sample_of(join_lines(lines.remove(at))),
{
    let rest = lines.remove(at);
    assert forall|i: int| 0 <= i < rest.len() implies single_line(#[trigger] rest[i]) by {
        if i < at {
            assert(rest[i] == lines[i]);
        } else {
            assert(rest[i] == lines[i + 1]);
        }
    }
    lemma_split_joined(lines);
    lemma_split_joined(rest);
    lemma_idle_line_changes_nothing(lines, at);
}

/// Finds the port of an address.
pub fn port<'a>(addr: &'a [u8]) -> (r: Option<&'a [u8]>)
    ensures
        match r {
            Some(digits) => port_of(addr@) == Some(digits@),
            None => port_of(addr@) is None,
        },
{
    let mut start: usize = addr.len();
    assert(addr@.subrange(0, start as int) =~= addr@);
    while start > 0 && is_digit_byte(addr[start - 1])
        invariant
            start <= addr.len(),
            trailing_digits(addr@) == trailing_digits(addr@.subrange(0, start as int)) + (addr.len()
                - start),
        decreases start,
    {
        proof {
            let head = addr@.subrange(0, start as int);
            assert(head.last() == addr@[start - 1]);
            assert(head.drop_last() =~= addr@.subrange(0, start - 1));
        }
        start -= 1;
    }
    proof {
        let head = addr@.subrange(0, start as int);
        if start > 0 {
            assert(head.last() == addr@[start - 1]);
        }
        assert(trailing_digits(head) == 0);
    }
    if start < addr.len() && start > 0 && addr[start - 1] == COLON {
        Some(slice_subrange(addr, start, addr.len()))
    } else {
        None
    }
}

/// Says what a record comes to.
pub fn classify_record(record: &Record) -> (r: LineOutcome)
    ensures
        r == capped(record_meaning(record@)),
{
    proof {
        reveal_strlit("classification");
        reveal_strlit("target_addr");
        reveal_strlit("success");
        reveal_strlit("failure");
        reveal_strlit("4191");
    }
    let classification = match find_label(&record.labels, ascii_bytes("classification")) {
        Some(value) => {
            if bytes_equal(value.as_slice(), ascii_bytes("success")) {
                Classification::Success
            } else if bytes_equal(value.as_slice(), ascii_bytes("failure")) {
                Classification::Failure
            } else {
                return LineOutcome::Other;
            }
        },
        None => {
            return LineOutcome::Other;
        },
    };
    let target = match find_label(&record.labels, ascii_bytes("target_addr")) {
        Some(addr) => port(addr.as_slice()),
        None => None,
    };
    match target {
        Some(digits) => {
            if bytes_equal(digits, ascii_bytes("4191")) {
                LineOutcome::SelfPort
            } else {
                match parse_decimal(record.field.as_slice()) {
                    Ok(value) => LineOutcome::Counted { classification, value },
                    Err(_) => LineOutcome::Malformed,
                }
            }
        },
        None => LineOutcome::Other,
    }
}

/// Says what one line of a payload comes to.
pub fn classify_line(line: &[u8]) -> (r: LineOutcome)
    ensures
        r == capped(line_meaning(line@)),
{
    match parse_record(line) {
        Some(record) => classify_record(&record),
        None => LineOutcome::Other,
    }
}

/// Reads a whole payload: sums the records that count, and counts those
/// left out for want of a number.
pub fn scan_metrics(body: &[u8]) -> (r: Scrape)
    ensures
        r == scrape_of(body@),
{
    let mut success: u64 = 0;
    let mut failure: u64 = 0;
    let mut malformed: u64 = 0;
    let mut pos: usize = 0;
    let ghost mut done: Seq<Seq<u8>> = Seq::empty();
    loop
        invariant
            pos <= body.len(),
            split_lines(body@) == done + lines_from(body@, pos as int),
            success == saturate(success_sum(done)),
            failure == saturate(failure_sum(done)),
            malformed == saturate(malformed_count(done)),
        decreases body.len() - pos,
    {
        let end = find_byte(body, pos, NEWLINE);
        let line = slice_subrange(body, pos, end);
        let outcome = classify_line(line);
        proof {
            let ghost now = done.push(line@);
            lemma_total_push(done.map_values(|l: Seq<u8>| success_of(l)), success_of(line@));
            lemma_total_push(done.map_values(|l: Seq<u8>| failure_of(l)), failure_of(line@));
            lemma_total_push(done.map_values(|l: Seq<u8>| malformed_of(l)), malformed_of(line@));
            assert(now.map_values(|l: Seq<u8>| success_of(l)) =~= done.map_values(
                |l: Seq<u8>| success_of(l),
            ).push(success_of(line@)));
            assert(now.map_values(|l: Seq<u8>| failure_of(l)) =~= done.map_values(
                |l: Seq<u8>| failure_of(l),
            ).push(failure_of(line@)));
            assert(now.map_values(|l: Seq<u8>| malformed_of(l)) =~= done.map_values(
                |l: Seq<u8>| malformed_of(l),
            ).push(malformed_of(line@)));
            if end < body.len() {
                assert(done + lines_from(body@, pos as int) =~= now + lines_from(body@, end + 1));
            } else {
                assert(done + lines_from(body@, pos as int) =~= now);
            }
        }
        match outcome {
            LineOutcome::Counted { classification: Classification::Success, value } => {
                success = add_saturating(success, value);
            },
            LineOutcome::Counted { classification: Classification::Failure, value } => {
                failure = add_saturating(failure, value);
            },
            LineOutcome::Malformed => {
                malformed = add_saturating(malformed, 1);
            },
            _ => {},
        }
        proof {
            done = done.push(line@);
        }
        if end >= body.len() {
            return Scrape { sample: MetricSample { success, failure }, malformed };
        }
        pos = end + 1;
    }
}

/// Reads a whole payload and gives the counts of the records that count.
pub fn parse_metrics(body: &[u8]) -> (sample: MetricSample)
    ensures
        sample == sample_of(body@),
{
    scan_metrics(body).sample
}

} // verus!
