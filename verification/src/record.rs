//! The counter records of a metrics payload.
//!
//! A record is one line of the form
//! `response_total{key="value",key="value"} number`: the counter's name, one
//! or more labels in braces, one blank, and the rest of the line. A key is
//! made of ASCII letters, digits and underscores; a value is whatever stands
//! between two double quotes.

use vstd::prelude::*;
use vstd::slice::{slice_subrange, slice_to_vec};

use crate::text::{
    ascii, ascii_bytes, bytes_equal, find_byte, first_index_of, holds_at, is_digit,
    lemma_first_index_of, lemma_first_index_of_unique, CLOSE_BRACE, COMMA, EQUALS, OPEN_BRACE,
    QUOTE, SPACE,
};

verus! {

/// One `key="value"` pair of a record.
#[derive(Clone, Debug)]
pub struct Label {
    pub key: Vec<u8>,
    pub value: Vec<u8>,
}

/// What a [`Label`] stands for.
pub struct LabelView {
    pub key: Seq<u8>,
    pub value: Seq<u8>,
}

impl View for Label {
    type V = LabelView;

    open spec fn view(&self) -> LabelView {
        LabelView { key: self.key@, value: self.value@ }
    }
}

/// A record taken apart: its labels in the order written, and the text after
/// the blank that follows the closing brace.
#[derive(Clone, Debug)]
pub struct Record {
    pub labels: Vec<Label>,
    pub field: Vec<u8>,
}

/// What a [`Record`] stands for.
pub struct RecordView {
    pub labels: Seq<LabelView>,
    pub field: Seq<u8>,
}

/// The views of a list of labels, entry by entry.
pub open spec fn label_views(labels: Seq<Label>) -> Seq<LabelView> {
    labels.map_values(|l: Label| l@)
}

impl View for Record {
    type V = RecordView;

    open spec fn view(&self) -> RecordView {
        RecordView { labels: label_views(self.labels@), field: self.field@ }
    }
}

/// The name of the counter that records request outcomes.
pub open spec fn counter_name() -> Seq<u8> {
    ascii("response_total"@)
}

/// `b` may stand in a label's key: an ASCII letter, a digit or an underscore.
pub open spec fn is_key_byte(b: u8) -> bool {
    is_digit(b) || 0x41 <= b <= 0x5a || 0x61 <= b <= 0x7a || b == 0x5f
}

/// The end of the run of key bytes that starts at `from`.
pub open spec fn key_end(s: Seq<u8>, from: int) -> int
    decreases s.len() - from,
{
    if 0 <= from < s.len() && is_key_byte(s[from]) {
        key_end(s, from + 1)
    } else {
        from
    }
}

/// Reads labels from position `from` of `s` up to the closing brace: gives
/// the labels and the position after the brace, or `None` where `s` holds no
/// well-formed labels there.
pub open spec fn read_labels(s: Seq<u8>, from: int) -> Option<(Seq<LabelView>, int)>
    decreases s.len() - from,
    via read_labels_terminates
{
    let key_stop = key_end(s, from);
    if from < 0 || key_stop == from || key_stop + 2 > s.len() || s[key_stop] != EQUALS || s[key_stop
        + 1] != QUOTE {
        None
    } else {
        let value_stop = first_index_of(s, key_stop + 2, QUOTE);
        if value_stop + 2 > s.len() {
            None
        } else {
            let label = LabelView {
                key: s.subrange(from, key_stop),
                value: s.subrange(key_stop + 2, value_stop),
            };
            if s[value_stop + 1] == CLOSE_BRACE {
                Some((seq![label], value_stop + 2))
            } else if s[value_stop + 1] == COMMA {
                following(label, read_labels(s, value_stop + 2))
            } else {
                None
            }
        }
    }
}

/// The labels read so far put in front of what reading on has given.
pub open spec fn preceding(
    before: Seq<LabelView>,
    rest: Option<(Seq<LabelView>, int)>,
) -> Option<(Seq<LabelView>, int)> {
    match rest {
        Some((more, end)) => Some((before + more, end)),
        None => None,
    }
}

/// One label put in front of what reading on has given.
pub open spec fn following(label: LabelView, rest: Option<(Seq<LabelView>, int)>) -> Option<
    (Seq<LabelView>, int),
> {
    preceding(seq![label], rest)
}

#[via_fn]
proof fn read_labels_terminates(s: Seq<u8>, from: int) {
    let key_stop = key_end(s, from);
    if 0 <= from && key_stop + 2 <= s.len() {
        lemma_key_end(s, from);
        lemma_first_index_of(s, key_stop + 2, QUOTE);
    }
}

/// `key_end` stops where the key bytes stop: everything before its result is
/// a key byte, and its result is either the end or no key byte.
pub proof fn lemma_key_end(s: Seq<u8>, from: int)
    requires
        0 <= from <= s.len(),
    ensures
        from <= key_end(s, from) <= s.len(),
        forall|i: int| from <= i < key_end(s, from) ==> is_key_byte(s[i]),
        key_end(s, from) < s.len() ==> !is_key_byte(s[key_end(s, from)]),
    decreases s.len() - from,
{
    if from < s.len() && is_key_byte(s[from]) {
        lemma_key_end(s, from + 1);
    }
}

/// The record that a line holds, if it is one.
pub open spec fn record_of(line: Seq<u8>) -> Option<RecordView> {
    let name = counter_name();
    let open = name.len() as int;
    if line.len() > open && line.subrange(0, open) == name && line[open] == OPEN_BRACE {
        match read_labels(line, open + 1) {
            Some((labels, end)) => {
                if end < line.len() && line[end] == SPACE {
                    Some(RecordView { labels, field: line.subrange(end + 1, line.len() as int) })
                } else {
                    None
                }
            },
            None => None,
        }
    } else {
        None
    }
}

/// The value of the first label whose key is `key`, if there is one.
pub open spec fn label_value(labels: Seq<LabelView>, key: Seq<u8>) -> Option<Seq<u8>>
    decreases labels.len(),
{
    if labels.len() == 0 {
        None
    } else if labels[0].key == key {
        Some(labels[0].value)
    } else {
        label_value(labels.drop_first(), key)
    }
}

/// Tells whether `b` may stand in a label's key.
pub fn is_key(b: u8) -> (r: bool)
    ensures
        r == is_key_byte(b),
{
    (0x30 <= b && b <= 0x39) || (0x41 <= b && b <= 0x5a) || (0x61 <= b && b <= 0x7a) || b == 0x5f
}

/// Finds the end of the run of key bytes that starts at `from`.
pub fn scan_key(s: &[u8], from: usize) -> (end: usize)
    ensures
        end == key_end(s@, from as int),
        from <= end,
        from <= s.len() ==> end <= s.len(),
{
    let mut i: usize = from;
    while i < s.len() && is_key(s[i])
        invariant
            from <= i,
            from <= s.len() ==> i <= s.len(),
            key_end(s@, from as int) == key_end(s@, i as int),
        decreases s.len() - i,
    {
        i += 1;
    }
    i
}

/// Reads the labels that start at `from`, up to the closing brace.
pub fn parse_labels(s: &[u8], from: usize) -> (r: Option<(Vec<Label>, usize)>)
    ensures
        match r {
            Some((labels, end)) => read_labels(s@, from as int) == Some(
                (label_views(labels@), end as int),
            ) && end <= s.len(),
            None => read_labels(s@, from as int) is None,
        },
{
    if from > s.len() {
        return None;
    }
    let mut labels: Vec<Label> = Vec::new();
    let mut pos: usize = from;
    loop
        invariant
            pos <= s.len(),
            read_labels(s@, from as int) == preceding(
                label_views(labels@),
                read_labels(s@, pos as int),
            ),
        decreases s.len() - pos,
    {
        let key_stop = scan_key(s, pos);
        if key_stop == pos || s.len() - key_stop < 2 || s[key_stop] != EQUALS || s[key_stop + 1]
            != QUOTE {
            return None;
        }
        let value_stop = find_byte(s, key_stop + 2, QUOTE);
        if s.len() - value_stop < 2 {
            return None;
        }
        let label = Label {
            key: slice_to_vec(slice_subrange(s, pos, key_stop)),
            value: slice_to_vec(slice_subrange(s, key_stop + 2, value_stop)),
        };
        let separator = s[value_stop + 1];
        let ghost before = label_views(labels@);
        labels.push(label);
        proof {
            assert(label_views(labels@) =~= before + seq![label@]);
            let rest = read_labels(s@, value_stop + 2);
            if let Some((more, _)) = rest {
                assert((before + seq![label@]) + more =~= before + (seq![label@] + more));
            }
            assert(before + seq![label@] =~= label_views(labels@));
        }
        if separator == CLOSE_BRACE {
            return Some((labels, value_stop + 2));
        }
        if separator != COMMA {
            return None;
        }
        pos = value_stop + 2;
    }
}

/// Takes a line apart, if it is a record.
pub fn parse_record(line: &[u8]) -> (r: Option<Record>)
    ensures
        match r {
            Some(record) => record_of(line@) == Some(record@),
            None => record_of(line@) is None,
        },
{
    proof {
        reveal_strlit("response_total");
    }
    let name = ascii_bytes("response_total");
    if !holds_at(line, 0, name) || line.len() <= name.len() || line[name.len()] != OPEN_BRACE {
        return None;
    }
    match parse_labels(line, name.len() + 1) {
        Some((labels, end)) => {
            if end < line.len() && line[end] == SPACE {
                let field = slice_to_vec(slice_subrange(line, end + 1, line.len()));
                Some(Record { labels, field })
            } else {
                None
            }
        },
        None => None,
    }
}

/// `key` can be a label's key: not empty, and made of key bytes only.
pub open spec fn valid_key(key: Seq<u8>) -> bool {
    key.len() > 0 && forall|i: int| 0 <= i < key.len() ==> is_key_byte(#[trigger] key[i])
}

/// `value` can be a label's value: it holds no double quote.
pub open spec fn valid_value(value: Seq<u8>) -> bool {
    forall|i: int| 0 <= i < value.len() ==> #[trigger] value[i] != QUOTE
}

/// Both parts of the label can be written down.
pub open spec fn valid_label(label: LabelView) -> bool {
    valid_key(label.key) && valid_value(label.value)
}

/// The labels can be written down: there is at least one, and each of them
/// can.
pub open spec fn valid_labels(labels: Seq<LabelView>) -> bool {
    labels.len() > 0 && forall|i: int| 0 <= i < labels.len() ==> valid_label(#[trigger] labels[i])
}

/// A label as a record writes it: `key="value"`.
pub open spec fn render_label(label: LabelView) -> Seq<u8> {
    label.key + seq![EQUALS, QUOTE] + label.value + seq![QUOTE]
}

/// Labels as a record writes them, with commas between them.
pub open spec fn render_labels(labels: Seq<LabelView>) -> Seq<u8>
    decreases labels.len(),
{
    if labels.len() == 0 {
        Seq::empty()
    } else if labels.len() == 1 {
        render_label(labels[0])
    } else {
        render_label(labels[0]) + seq![COMMA] + render_labels(labels.drop_first())
    }
}

/// A record as a payload writes it:
/// the counter's name, the labels in braces, a blank and the field.
pub open spec fn render_record(record: RecordView) -> Seq<u8> {
    counter_name() + seq![OPEN_BRACE] + render_labels(record.labels) + seq![CLOSE_BRACE, SPACE]
        + record.field
}

/// Any position that ends a run of key bytes from `from` is the result of
/// `key_end`.
pub proof fn lemma_key_end_unique(s: Seq<u8>, from: int, end: int)
    requires
        0 <= from <= end <= s.len(),
        forall|i: int| from <= i < end ==> is_key_byte(s[i]),
        end < s.len() ==> !is_key_byte(s[end]),
    ensures
        key_end(s, from) == end,
    decreases end - from,
{
    if from < end {
        lemma_key_end_unique(s, from + 1, end);
    }
}

/// Reading finds written labels again: where `s` holds valid labels as
/// written, followed by a closing brace, reading from their start gives
/// exactly these labels and the position after the brace.
pub proof fn lemma_read_rendered_labels(
    before: Seq<u8>,
    labels: Seq<LabelView>,
    after: Seq<u8>,
)
    requires
        valid_labels(labels),
    ensures
        read_labels(
            before + render_labels(labels) + seq![CLOSE_BRACE] + after,
            before.len() as int,
        ) == Some((labels, (before.len() + render_labels(labels).len() + 1) as int)),
    decreases labels.len(),
{
    let s = before + render_labels(labels) + seq![CLOSE_BRACE] + after;
    let from = before.len() as int;
    let label = labels[0];
    let written = render_label(label);
    let key_stop = from + label.key.len();
    let value_start = key_stop + 2;
    let value_stop = value_start + label.value.len();
    assert(valid_label(label));
    assert(written.len() == label.key.len() + label.value.len() + 3);
    let tail = if labels.len() == 1 {
        seq![CLOSE_BRACE] + after
    } else {
        seq![COMMA] + render_labels(labels.drop_first()) + seq![CLOSE_BRACE] + after
    };
    assert(s =~= before + written + tail);
    assert forall|i: int| 0 <= i < written.len() implies s[from + i] == written[i] by {}
    assert forall|i: int| from <= i < key_stop implies is_key_byte(s[i]) by {
        assert(s[i] == written[i - from]);
        assert(written[i - from] == label.key[i - from]);
    }
    assert(s[key_stop] == EQUALS) by {
        assert(s[key_stop] == written[key_stop - from]);
    }
    assert(s[key_stop + 1] == QUOTE) by {
        assert(s[key_stop + 1] == written[key_stop + 1 - from]);
    }
    lemma_key_end_unique(s, from, key_stop);
    assert forall|i: int| value_start <= i < value_stop implies s[i] != QUOTE by {
        assert(s[i] == written[i - from]);
        assert(written[i - from] == label.value[i - value_start]);
    }
    assert(s[value_stop] == QUOTE) by {
        assert(s[value_stop] == written[value_stop - from]);
    }
    lemma_first_index_of_unique(s, value_start, QUOTE, value_stop);
    assert(s.subrange(from, key_stop) =~= label.key) by {
        assert forall|i: int| 0 <= i < label.key.len() implies s[from + i] == label.key[i] by {
            assert(s[from + i] == written[i]);
        }
    }
    assert(s.subrange(value_start, value_stop) =~= label.value) by {
        assert forall|i: int| 0 <= i < label.value.len() implies s[value_start + i]
            == label.value[i] by {
            assert(s[value_start + i] == written[value_start + i - from]);
        }
    }
    assert(s[value_stop + 1] == tail[0]);
    if labels.len() == 1 {
        assert(labels =~= seq![label]);
    } else {
        let rest = labels.drop_first();
        assert(valid_labels(rest)) by {
            assert forall|i: int| 0 <= i < rest.len() implies valid_label(#[trigger] rest[i]) by {
                assert(rest[i] == labels[i + 1]);
            }
        }
        let earlier = before + written + seq![COMMA];
        lemma_read_rendered_labels(earlier, rest, after);
        assert(s =~= earlier + render_labels(rest) + seq![CLOSE_BRACE] + after);
        assert(earlier.len() == value_stop + 2);
        assert(seq![label] + rest =~= labels);
        assert(render_labels(labels).len() == written.len() + 1 + render_labels(rest).len());
    }
}

/// Reading a line finds a written record again: every valid record, written
/// down, is read as itself, whatever the order of its labels.
pub proof fn lemma_record_round_trip(record: RecordView)
    requires
        valid_labels(record.labels),
    ensures
        record_of(render_record(record)) == Some(record),
{
    let name = counter_name();
    let head = name + seq![OPEN_BRACE];
    let line = render_record(record);
    let after = seq![SPACE] + record.field;
    lemma_read_rendered_labels(head, record.labels, after);
    assert(line =~= head + render_labels(record.labels) + seq![CLOSE_BRACE] + after);
    assert(line.subrange(0, name.len() as int) =~= name);
    assert(line[name.len() as int] == OPEN_BRACE);
    let end = (head.len() + render_labels(record.labels).len() + 1) as int;
    assert(line[end] == SPACE);
    assert(line.subrange(end + 1, line.len() as int) =~= record.field);
}

/// What reading gives is what was written: labels that were read are valid,
/// and the text they were read from is these labels as written, followed by
/// a closing brace.
pub proof fn lemma_read_labels_sound(s: Seq<u8>, from: int)
    requires
        0 <= from <= s.len(),
        read_labels(s, from) is Some,
    ensures
        ({
            let (labels, end) = read_labels(s, from).unwrap();
            &&& valid_labels(labels)
            &&& from <= end <= s.len()
            &&& s.subrange(from, end) == render_labels(labels) + seq![CLOSE_BRACE]
        }),
    decreases s.len() - from,
{
    let key_stop = key_end(s, from);
    lemma_key_end(s, from);
    let value_start = key_stop + 2;
    let value_stop = first_index_of(s, value_start, QUOTE);
    lemma_first_index_of(s, value_start, QUOTE);
    let label = LabelView {
        key: s.subrange(from, key_stop),
        value: s.subrange(value_start, value_stop),
    };
    assert(valid_label(label));
    let written = render_label(label);
    assert(s.subrange(from, value_stop + 1) =~= written);
    let (labels, end) = read_labels(s, from).unwrap();
    if s[value_stop + 1] == CLOSE_BRACE {
        assert(labels =~= seq![label]);
        assert(s.subrange(from, end) =~= written + seq![CLOSE_BRACE]);
    } else {
        lemma_read_labels_sound(s, value_stop + 2);
        let (rest, rest_end) = read_labels(s, value_stop + 2).unwrap();
        assert(labels == seq![label] + rest);
        assert(labels.drop_first() =~= rest);
        assert(labels[0] == label);
        assert(valid_labels(labels)) by {
            assert forall|i: int| 0 <= i < labels.len() implies valid_label(
                #[trigger] labels[i],
            ) by {
                if i > 0 {
                    assert(labels[i] == rest[i - 1]);
                }
            }
        }
        assert(s.subrange(from, end) =~= written + seq![COMMA] + s.subrange(value_stop + 2, end));
    }
}

/// A line that is read as a record is that record as written, and its labels
/// are valid.
pub proof fn lemma_record_sound(line: Seq<u8>)
    requires
        record_of(line) is Some,
    ensures
        valid_labels(record_of(line).unwrap().labels),
        line == render_record(record_of(line).unwrap()),
{
    let name = counter_name();
    let open = name.len() as int;
    lemma_read_labels_sound(line, open + 1);
    let (labels, end) = read_labels(line, open + 1).unwrap();
    let record = record_of(line).unwrap();
    assert(line =~= line.subrange(0, open) + seq![OPEN_BRACE] + line.subrange(open + 1, end)
        + seq![SPACE] + line.subrange(end + 1, line.len() as int));
    assert(render_record(record) =~= name + seq![OPEN_BRACE] + (render_labels(labels)
        + seq![CLOSE_BRACE]) + seq![SPACE] + record.field);
}

/// A label is found wherever it stands among the others, as long as none
/// before it bears the same key.
pub proof fn lemma_label_value_at(labels: Seq<LabelView>, at: int)
    requires
        0 <= at < labels.len(),
        forall|j: int| 0 <= j < at ==> (#[trigger] labels[j]).key != labels[at].key,
    ensures
        label_value(labels, labels[at].key) == Some(labels[at].value),
    decreases at,
{
    if at > 0 {
        let rest = labels.drop_first();
        assert(rest[at - 1] == labels[at]);
        assert forall|j: int| 0 <= j < at - 1 implies (#[trigger] rest[j]).key != rest[at - 1].key by {
            assert(rest[j] == labels[j + 1]);
        }
        lemma_label_value_at(rest, at - 1);
        assert(labels[0].key != labels[at].key);
    }
}

/// No two of the labels bear the same key.
pub open spec fn distinct_keys(labels: Seq<LabelView>) -> bool {
    forall|i: int, j: int|
        0 <= i < j < labels.len() ==> (#[trigger] labels[i]).key != (#[trigger] labels[j]).key
}

/// Where no label bears `key`, none is found.
pub proof fn lemma_label_value_absent(labels: Seq<LabelView>, key: Seq<u8>)
    requires
        forall|i: int| 0 <= i < labels.len() ==> (#[trigger] labels[i]).key != key,
    ensures
        label_value(labels, key) is None,
    decreases labels.len(),
{
    if labels.len() > 0 {
        let rest = labels.drop_first();
        assert forall|i: int| 0 <= i < rest.len() implies (#[trigger] rest[i]).key != key by {
            assert(rest[i] == labels[i + 1]);
        }
        lemma_label_value_absent(rest, key);
        assert(labels[0].key != key);
    }
}

/// Among labels with distinct keys, the order does not matter to what is
/// found: two lists that hold the same labels give the same value for
/// every key.
pub proof fn lemma_label_value_unordered(
    first: Seq<LabelView>,
    second: Seq<LabelView>,
    key: Seq<u8>,
)
    requires
        distinct_keys(first),
        distinct_keys(second),
        forall|label: LabelView| first.contains(label) <==> second.contains(label),
    ensures
        label_value(first, key) == label_value(second, key),
{
    if exists|i: int| 0 <= i < first.len() && (#[trigger] first[i]).key == key {
        let i = choose|i: int| 0 <= i < first.len() && (#[trigger] first[i]).key == key;
        lemma_label_value_at(first, i);
        assert(first.contains(first[i]));
        assert(second.contains(first[i]));
        let j = choose|j: int| 0 <= j < second.len() && second[j] == first[i];
        lemma_label_value_at(second, j);
    } else {
        lemma_label_value_absent(first, key);
        assert forall|j: int| 0 <= j < second.len() implies (#[trigger] second[j]).key != key by {
            assert(second.contains(second[j]));
            assert(first.contains(second[j]));
            let i = choose|i: int| 0 <= i < first.len() && first[i] == second[j];
            assert(first[i].key != key);
        }
        lemma_label_value_absent(second, key);
    }
}

/// Looks up the value of the first label whose key is `key`.
pub fn find_label<'a>(labels: &'a Vec<Label>, key: &[u8]) -> (r: Option<&'a Vec<u8>>)
    ensures
        match r {
            Some(value) => label_value(label_views(labels@), key@) == Some(value@),
            None => label_value(label_views(labels@), key@) is None,
        },
{
    let ghost all = label_views(labels@);
    assert(all.subrange(0, all.len() as int) =~= all);
    let mut i: usize = 0;
    while i < labels.len()
        invariant
            i <= labels.len(),
            all == label_views(labels@),
            label_value(all, key@) == label_value(all.subrange(i as int, all.len() as int), key@),
        decreases labels.len() - i,
    {
        proof {
            let here = all.subrange(i as int, all.len() as int);
            assert(here[0] == labels@[i as int]@);
            assert(here.drop_first() =~= all.subrange(i + 1, all.len() as int));
        }
        if bytes_equal(labels[i].key.as_slice(), key) {
            return Some(&labels[i].value);
        }
        i += 1;
    }
    None
}

} // verus!
