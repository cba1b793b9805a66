//! What is to be logged about a complete trace.
//!
//! The library logs nothing itself: it says which records are to be logged, and in which order.

use vstd::prelude::*;
use vstd::std_specs::iter::IteratorSpec;

use crate::text::{
    concatenated, decimal, law_decimal_reads_back, law_numerals_are_unique, numeral, push_decimal,
};

verus! {

/// Size, in characters, at which trace output is split into multiple lines.
pub const MAXIMUM_TRACE_LINE_SIZE: usize = 8000;

/// How urgent a record is.
#[derive(Debug, Clone, Copy, PartialEq, Eq, Structural)]
pub enum Level {
    /// Something went wrong.
    Error,
    /// A trace, or a part of one.
    Warn,
}

/// Something to be logged.
#[derive(Debug)]
pub struct LogRecord {
    /// How urgent it is.
    pub level: Level,
    /// What it says.
    pub message: String,
}

/// The level and the characters of a record.
pub ghost struct RecordView {
    /// How urgent it is.
    pub level: Level,
    /// What it says.
    pub message: Seq<char>,
}

impl View for LogRecord {
    type V = RecordView;

    open spec fn view(&self) -> RecordView {
        RecordView { level: self.level, message: self.message@ }
    }
}

/// The levels and the characters of some records.
pub open spec fn views(records: Seq<LogRecord>) -> Seq<RecordView> {
    records.map_values(|record: LogRecord| record@)
}

/// The level and the characters of a record, if there is one.
pub open spec fn view_of(record: Option<LogRecord>) -> Option<RecordView> {
    match record {
        Some(r) => Some(r@),
        None => None,
    }
}

/// The record of a message that is logged as a warning, if there is one.
pub open spec fn warning(message: Option<Seq<char>>) -> Option<RecordView> {
    match message {
        Some(m) => Some(RecordView { level: Level::Warn, message: m }),
        None => None,
    }
}

/// How many lines a message of `len` characters is split into.
pub open spec fn line_count(len: nat) -> nat {
    (len + MAXIMUM_TRACE_LINE_SIZE - 1) as nat / MAXIMUM_TRACE_LINE_SIZE as nat
}

/// The characters on line `k` of a message, counted from zero.
pub open spec fn line(message: Seq<char>, k: int) -> Seq<char> {
    let from = k * MAXIMUM_TRACE_LINE_SIZE;
    let to = if from + MAXIMUM_TRACE_LINE_SIZE < message.len() {
        from + MAXIMUM_TRACE_LINE_SIZE
    } else {
        message.len() as int
    };
    message.subrange(from, to)
}

/// The lines that a message is split into.
pub open spec fn lines(message: Seq<char>) -> Seq<Seq<char>> {
    Seq::new(line_count(message.len()), |k: int| line(message, k))
}

/// The record of line `k` of a message, counted from zero.
pub open spec fn split_record(message: Seq<char>, k: int) -> RecordView {
    RecordView {
        level: Level::Warn,
        message: "split stencil trace ("@ + decimal((k + 1) as nat) + "/"@ + decimal(
            line_count(message.len()),
        ) + "): '"@ + line(message, k) + "'"@,
    }
}

/// The records of the lines that a message is split into.
pub open spec fn split_records(message: Seq<char>) -> Seq<RecordView> {
    Seq::new(line_count(message.len()), |k: int| split_record(message, k))
}

/// The record of one line of a split message.
fn line_record(number: usize, count: usize, text: &str) -> (record: LogRecord)
    ensures
        record.level == Level::Warn,
        record.message@ == "split stencil trace ("@ + decimal(number as nat) + "/"@ + decimal(
            count as nat,
        ) + "): '"@ + text@ + "'"@,
{
    let mut message: String = String::new();
    message.append("split stencil trace (");
    push_decimal(&mut message, number as u128);
    message.append("/");
    push_decimal(&mut message, count as u128);
    message.append("): '");
    message.append(text);
    message.append("'");
    LogRecord { level: Level::Warn, message }
}

/// Splits a message into lines of at most [`MAXIMUM_TRACE_LINE_SIZE`] characters, each with its
/// number and the number of all lines.
pub fn split_lines(message: &str) -> (records: Vec<LogRecord>)
    ensures
        views(records@) == split_records(message@),
{
    let len = message.unicode_len();
    let splits: usize = len / MAXIMUM_TRACE_LINE_SIZE + if len % MAXIMUM_TRACE_LINE_SIZE > 0 {
        1
    } else {
        0
    };
    let mut records: Vec<LogRecord> = Vec::new();
    let mut text: String = String::new();
    let mut at: usize = 0;
    let mut on_line: usize = 0;
    let iter = message.chars();
    for c in it: iter
        invariant
            it.seq() == message@,
            at == it.index(),
            len == message@.len(),
            splits == line_count(len as nat),
            on_line < MAXIMUM_TRACE_LINE_SIZE,
            at < len ==> at == records@.len() * MAXIMUM_TRACE_LINE_SIZE + on_line,
            at < len ==> text@ == message@.subrange(
                records@.len() * MAXIMUM_TRACE_LINE_SIZE,
                at as int,
            ),
            at == len ==> records@.len() == line_count(len as nat),
            records@.len() <= at,
            forall|k: int|
                0 <= k < records@.len() ==> (#[trigger] records@[k])@ == split_record(message@, k),
    {
        text.push(c);
        at += 1;
        on_line += 1;
        assert(text@ == message@.subrange(records@.len() * MAXIMUM_TRACE_LINE_SIZE, at as int));
        if on_line == MAXIMUM_TRACE_LINE_SIZE || at == len {
            assert(text@ == line(message@, records@.len() as int));
            records.push(line_record(records.len() + 1, splits, text.as_str()));
            text = String::new();
            on_line = 0;
        }
    }
    assert(views(records@) =~= split_records(message@));
    records
}

/// The record that events were discarded.
pub open spec fn discarded_record(capacity: nat) -> RecordView {
    RecordView {
        level: Level::Error,
        message: "Discarded one or more trace items after exceeding capactity of "@ + decimal(
            capacity,
        ),
    }
}

/// The record of a message that fits.
pub open spec fn whole_record(violated: bool, message: Seq<char>) -> RecordView {
    if violated {
        RecordView {
            level: Level::Error,
            message: "Trace invariant violation - tracing may be invalid for this event: '"@
                + message + "'"@,
        }
    } else {
        RecordView { level: Level::Warn, message }
    }
}

/// The records that come before the lines of a message that is split.
pub open spec fn announcement(violated: bool) -> Seq<RecordView> {
    if violated {
        seq![
            RecordView {
                level: Level::Error,
                message: "Trace invariant violation - tracing may be invalid for this event"@,
            },
        ]
    } else {
        Seq::empty()
    }
}

/// The records of a message: the whole message, or its lines if it is too long for one record.
pub open spec fn message_records(violated: bool, message: Seq<char>) -> Seq<RecordView> {
    if message.len() > MAXIMUM_TRACE_LINE_SIZE {
        announcement(violated) + split_records(message)
    } else {
        seq![whole_record(violated, message)]
    }
}

/// The records about what was discarded because there were more than `capacity` events.
pub open spec fn discard_records(trimmed: bool, capacity: nat) -> Seq<RecordView> {
    if trimmed {
        seq![discarded_record(capacity)]
    } else {
        Seq::empty()
    }
}

/// The records of what a callback had to say about a complete trace, if anything.
pub open spec fn report_records(violated: bool, message: Option<Seq<char>>) -> Seq<RecordView> {
    match message {
        Some(m) => message_records(violated, m),
        None => Seq::empty(),
    }
}

/// The characters of a message.
pub open spec fn text_of(message: Option<String>) -> Option<Seq<char>> {
    match message {
        Some(m) => Some(m@),
        None => None,
    }
}

/// The records about what was discarded because there were more than `capacity` events.
pub fn log_discard(trimmed: bool, capacity: usize) -> (records: Vec<LogRecord>)
    ensures
        views(records@) == discard_records(trimmed, capacity as nat),
{
    let mut records: Vec<LogRecord> = Vec::new();
    if trimmed {
        let mut text: String = String::new();
        text.append("Discarded one or more trace items after exceeding capactity of ");
        push_decimal(&mut text, capacity as u128);
        records.push(LogRecord { level: Level::Error, message: text });
    }
    assert(views(records@) =~= discard_records(trimmed, capacity as nat));
    records
}

/// The records of what a callback had to say about a complete trace, if anything.
pub fn log_message(violated: bool, message: Option<String>) -> (records: Vec<LogRecord>)
    ensures
        views(records@) == report_records(violated, text_of(message)),
{
    let mut records: Vec<LogRecord> = Vec::new();
    if let Some(item) = message {
        if item.as_str().unicode_len() > MAXIMUM_TRACE_LINE_SIZE {
            if violated {
                let mut text: String = String::new();
                text.append("Trace invariant violation - tracing may be invalid for this event");
                records.push(LogRecord { level: Level::Error, message: text });
            }
            let ghost announced = views(records@);
            let mut split = split_lines(item.as_str());
            let ghost pieces = views(split@);
            records.append(&mut split);
            assert(announced =~= announcement(violated));
            assert(views(records@) =~= announced + pieces);
        } else if violated {
            let mut text: String = String::new();
            text.append("Trace invariant violation - tracing may be invalid for this event: '");
            text.append(item.as_str());
            text.append("'");
            records.push(LogRecord { level: Level::Error, message: text });
        } else {
            records.push(LogRecord { level: Level::Warn, message: item });
        }
        assert(views(records@) =~= message_records(violated, item@));
    }
    assert(views(records@) =~= report_records(violated, text_of(message)));
    records
}

/// Splitting loses nothing: the lines of a message, one after the other, are the message, and
/// each of them fits on a line.
pub proof fn law_lines_make_up_the_message(message: Seq<char>)
    ensures
        concatenated(lines(message)) == message,
        forall|k: int|
            0 <= k < lines(message).len() ==> 0 < (#[trigger] lines(message)[k]).len()
                <= MAXIMUM_TRACE_LINE_SIZE,
{
    lemma_first_lines(message, line_count(message.len()));
    assert(lines(message).take(line_count(message.len()) as int) =~= lines(message));
}

/// The first `n` lines of a message, one after the other, are the beginning of the message.
proof fn lemma_first_lines(message: Seq<char>, n: nat)
    requires
        n <= line_count(message.len()),
    ensures
        concatenated(lines(message).take(n as int)) == message.take(
            if n * MAXIMUM_TRACE_LINE_SIZE < message.len() {
                n * MAXIMUM_TRACE_LINE_SIZE
            } else {
                message.len() as int
            },
        ),
    decreases n,
{
    if n == 0 {
        assert(message.take(0) =~= Seq::empty());
    } else {
        lemma_first_lines(message, (n - 1) as nat);
        let taken = lines(message).take(n as int);
        assert(taken.drop_last() =~= lines(message).take(n - 1));
        assert(taken.last() == line(message, n - 1));
        assert(concatenated(taken) =~= message.take(
            if n * MAXIMUM_TRACE_LINE_SIZE < message.len() {
                n * MAXIMUM_TRACE_LINE_SIZE
            } else {
                message.len() as int
            },
        ));
    }
}

/// What a callback says about a trace is logged in full, but never more than
/// [`MAXIMUM_TRACE_LINE_SIZE`] characters of it in one record: as a whole if it fits, and else
/// piece by piece, last of all. If it says nothing, nothing is logged.
pub proof fn law_what_is_said_is_logged(violated: bool, message: Option<Seq<char>>)
    ensures
        match message {
            Some(m) => if m.len() > MAXIMUM_TRACE_LINE_SIZE {
                let records = report_records(violated, message);
                &&& records.len() >= lines(m).len()
                &&& records.skip(records.len() - lines(m).len()) == split_records(m)
                &&& concatenated(lines(m)) == m
                &&& forall|k: int|
                    0 <= k < lines(m).len() ==> 0 < (#[trigger] lines(m)[k]).len()
                        <= MAXIMUM_TRACE_LINE_SIZE
            } else {
                report_records(violated, message) == seq![whole_record(violated, m)]
            },
            None => report_records(violated, message).len() == 0,
        },
{
    if let Some(m) = message {
        let records = report_records(violated, message);
        if m.len() > MAXIMUM_TRACE_LINE_SIZE {
            law_lines_make_up_the_message(m);
            assert(records.skip(records.len() - lines(m).len()) =~= split_records(m));
        }
    }
}

/// A long message is split every 8000 characters, and nowhere else; each piece is logged as a
/// warning that tells which one it is, and of how many.
pub proof fn law_pieces_are_numbered(
    message: Seq<char>,
    k: int,
    place: Seq<char>,
    count: Seq<char>,
    n: nat,
)
    requires
        8000 * (n - 1) < message.len() <= 8000 * n,
        0 <= k < n,
        numeral(place, (k + 1) as nat),
        numeral(count, n),
    ensures
        split_records(message).len() == n,
        split_records(message)[k].level == Level::Warn,
        split_records(message)[k].message == "split stencil trace ("@ + place + "/"@ + count
            + "): '"@ + message.subrange(
            8000 * k,
            if 8000 * (k + 1) < message.len() {
                8000 * (k + 1)
            } else {
                message.len() as int
            },
        ) + "'"@,
{
    law_decimal_reads_back((k + 1) as nat);
    law_decimal_reads_back(n);
    law_numerals_are_unique(place, decimal((k + 1) as nat), (k + 1) as nat);
    law_numerals_are_unique(count, decimal(n), n);
    assert(line_count(message.len()) == n);
}

/// What is said of a trace is logged: as it is, as a warning; as an error that says so, if the
/// trace may be invalid; or, if there are more than 8000 characters, in pieces. Nothing is logged
/// if nothing is said.
pub proof fn law_messages_become_records(violated: bool, message: Option<Seq<char>>)
    ensures
        message is None ==> report_records(violated, message) == Seq::<RecordView>::empty(),
        message matches Some(m) ==> {
            let records = report_records(violated, message);
            &&& m.len() <= 8000 && !violated ==> records == seq![
                RecordView { level: Level::Warn, message: m },
            ]
            &&& m.len() <= 8000 && violated ==> records == seq![
                RecordView {
                    level: Level::Error,
                    message: "Trace invariant violation - tracing may be invalid for this event: '"@
                        + m + "'"@,
                },
            ]
            &&& m.len() > 8000 && !violated ==> records == split_records(m)
            &&& m.len() > 8000 && violated ==> records == seq![
                RecordView {
                    level: Level::Error,
                    message: "Trace invariant violation - tracing may be invalid for this event"@,
                },
            ] + split_records(m)
        },
{
    if let Some(m) = message {
        if m.len() > 8000 && !violated {
            assert(report_records(violated, message) =~= split_records(m));
        }
    }
}

/// That something was discarded is an error that tells the capacity.
pub proof fn law_discards_are_errors(trimmed: bool, capacity: nat, digits: Seq<char>)
    requires
        numeral(digits, capacity),
    ensures
        discard_records(trimmed, capacity) == if trimmed {
            seq![
                RecordView {
                    level: Level::Error,
                    message: "Discarded one or more trace items after exceeding capactity of "@
                        + digits,
                },
            ]
        } else {
            Seq::empty()
        },
{
    law_decimal_reads_back(capacity);
    law_numerals_are_unique(digits, decimal(capacity), capacity);
}

/// The views of records and messages hold what these hold.
pub proof fn law_views_hide_nothing(
    records: Seq<LogRecord>,
    record: Option<LogRecord>,
    message: Option<String>,
    text: Option<Seq<char>>,
)
    ensures
        views(records).len() == records.len(),
        forall|i: int|
            #![trigger views(records)[i]]
            0 <= i < records.len() ==> views(records)[i].level == records[i].level && views(
                records,
            )[i].message == records[i].message@,
        match record {
            Some(r) => view_of(record) matches Some(v) && v.level == r.level && v.message
                == r.message@,
            None => view_of(record) is None,
        },
        match message {
            Some(m) => text_of(message) == Some(m@),
            None => text_of(message) is None,
        },
        match text {
            Some(t) => warning(text) matches Some(w) && w.level == Level::Warn && w.message == t,
            None => warning(text) is None,
        },
{
}

} // verus!
