//! What a client reads out of what a server formats.

use vstd::prelude::*;
use vstd::string::StringSliceAdditionalSpecFns;

use crate::bytes;
use crate::http::sse;
use crate::http::status;

verus! {

/// Whether `b` ends a line of an event stream.
pub open spec fn ends_line(b: u8) -> bool {
    b == sse::LF || b == sse::CR
}

/// Where the line that reaches to position `k` ends.
pub open spec fn line_end(text: Seq<u8>, k: int) -> int
    decreases text.len() - k,
{
    if k < 0 || k >= text.len() {
        text.len() as int
    } else if ends_line(text[k]) {
        k
    } else {
        line_end(text, k + 1)
    }
}

/// The line ends at a terminator or at the end of the text.
proof fn lemma_line_end(text: Seq<u8>, k: int)
    requires
        0 <= k <= text.len(),
    ensures
        k <= line_end(text, k) <= text.len(),
    decreases text.len() - k,
{
    if k < text.len() && !ends_line(text[k]) {
        lemma_line_end(text, k + 1);
    }
}

/// A line without a terminator in it ends where its terminator stands.
proof fn lemma_line_ends_at(text: Seq<u8>, k: int, at: int)
    requires
        0 <= k <= at < text.len(),
        ends_line(text[at]),
        forall|j: int| k <= j < at ==> !ends_line(#[trigger] text[j]),
    ensures
        line_end(text, k) == at,
    decreases at - k,
{
    if k < at {
        assert(!ends_line(text[k]));
        lemma_line_ends_at(text, k + 1, at);
    }
}

/// How many bytes end the line at `k`: a line feed after a carriage return
/// belongs to it.
pub open spec fn terminator_len(text: Seq<u8>, k: int) -> int {
    if text[k] == sse::CR && k + 1 < text.len() && text[k + 1] == sse::LF {
        2
    } else {
        1
    }
}

/// The value of the field `name` in `line`: what stands behind the colon, less
/// one space. A line that is the name alone has an empty value.
pub open spec fn field_value(line: Seq<u8>, name: Seq<u8>) -> Option<Seq<u8>> {
    let n = name.len() as int;
    if line == name {
        Some(Seq::empty())
    } else if line.len() > n && line.take(n) == name && line[n] == 0x3a {
        Some(
            if line.len() > n + 1 && line[n + 1] == 0x20 {
                line.skip(n + 2)
            } else {
                line.skip(n + 1)
            },
        )
    } else {
        None
    }
}

/// `event`
pub open spec fn event_field() -> Seq<u8> {
    seq![0x65u8, 0x76, 0x65, 0x6e, 0x74]
}

/// `data`
pub open spec fn data_field() -> Seq<u8> {
    seq![0x64u8, 0x61, 0x74, 0x61]
}

/// `retry`
pub open spec fn retry_field() -> Seq<u8> {
    seq![0x72u8, 0x65, 0x74, 0x72, 0x79]
}

/// What a client dispatches first out of `text`, the event's name and its data,
/// when it has already collected `event` and `data`. Each `data` field adds its
/// value and a line feed; at a blank line the last line feed is dropped and the
/// event is dispatched, unless there is no data.
pub open spec fn dispatched(text: Seq<u8>, event: Seq<u8>, data: Seq<u8>) -> Option<
    (Seq<u8>, Seq<u8>),
>
    decreases text.len(),
    via dispatched_decreases
{
    let k = line_end(text, 0);
    if k >= text.len() {
        None
    } else {
        let line = text.take(k);
        let rest = text.skip(k + terminator_len(text, k));
        if line.len() == 0 {
            if data.len() == 0 {
                dispatched(rest, Seq::empty(), Seq::empty())
            } else {
                Some((event, data.drop_last()))
            }
        } else {
            match field_value(line, data_field()) {
                Some(v) => dispatched(rest, event, data + v.push(sse::LF)),
                None => match field_value(line, event_field()) {
                    Some(v) => dispatched(rest, v, data),
                    None => dispatched(rest, event, data),
                },
            }
        }
    }
}

#[via_fn]
proof fn dispatched_decreases(text: Seq<u8>, event: Seq<u8>, data: Seq<u8>) {
    lemma_line_end(text, 0);
}

/// The first line of `line + LF + rest` is `line`.
proof fn lemma_first_line(line: Seq<u8>, rest: Seq<u8>)
    requires
        forall|j: int| 0 <= j < line.len() ==> !ends_line(#[trigger] line[j]),
    ensures
        ({
            let text = line + seq![sse::LF] + rest;
            let k = line_end(text, 0);
            &&& k == line.len()
            &&& k < text.len()
            &&& text.take(k) == line
            &&& text.skip(k + terminator_len(text, k)) == rest
        }),
{
    let text = line + seq![sse::LF] + rest;
    let n = line.len() as int;
    assert(text[n] == sse::LF);
    assert forall|j: int| 0 <= j < n implies !ends_line(#[trigger] text[j]) by {
        assert(text[j] == line[j]);
    }
    lemma_line_ends_at(text, 0, n);
    assert(text.take(n) =~= line);
    assert(text.skip(n + 1) =~= rest);
}

/// A labelled line holds its value.
proof fn lemma_data_value(v: Seq<u8>)
    ensures
        field_value(sse::data_label() + v, data_field()) == Some(v),
        (sse::data_label() + v).len() > 0,
{
    let line = sse::data_label() + v;
    assert(line.take(4) =~= data_field());
    assert(line.skip(6) =~= v);
    assert(line.len() != data_field().len());
}

/// A labelled line holds its value.
proof fn lemma_event_value(v: Seq<u8>)
    ensures
        field_value(sse::event_label() + v, data_field()) is None,
        field_value(sse::event_label() + v, event_field()) == Some(v),
        (sse::event_label() + v).len() > 0,
{
    let line = sse::event_label() + v;
    assert(line.take(5) =~= event_field());
    assert(line.skip(7) =~= v);
    assert(line[0] == 0x65);
    assert(line.take(4)[0] == 0x65);
    assert(data_field()[0] == 0x64);
    assert(line.len() != event_field().len());
}

/// What the client makes of the fields of `data` behind what it has collected.
proof fn lemma_lines_dispatch(data: Seq<u8>, event: Seq<u8>, acc: Seq<u8>)
    requires
        forall|j: int| 0 <= j < data.len() ==> #[trigger] data[j] != sse::CR,
    ensures
        dispatched(
            sse::joined(sse::line_pieces(sse::data_lines(data))) + seq![sse::LF],
            event,
            acc,
        ) == Some((event, acc + data)),
    decreases data.len(),
{
    sse::lemma_next_lf(data, 0);
    let k = sse::next_lf(data, 0);
    let lines = sse::data_lines(data);
    let line = if k >= data.len() {
        data
    } else {
        data.take(k)
    };
    assert(lines[0] == line);
    let tail = lines.drop_first();
    let after = sse::joined(sse::line_pieces(tail)) + seq![sse::LF];
    let text = sse::joined(sse::line_pieces(lines)) + seq![sse::LF];
    let labelled = sse::data_label() + line;
    let pieces: Seq<Seq<u8>> = seq![sse::data_label(), line, seq![sse::LF]];
    assert(sse::line_pieces(lines) == pieces + sse::line_pieces(tail));
    sse::lemma_joined_add(pieces, sse::line_pieces(tail));
    assert(sse::joined(pieces) =~= labelled + seq![sse::LF]) by {
        reveal_with_fuel(sse::joined, 4);
        assert(pieces.drop_first() =~= seq![line, seq![sse::LF]]);
        assert(pieces.drop_first().drop_first() =~= seq![seq![sse::LF]]);
        assert(pieces.drop_first().drop_first().drop_first() =~= Seq::<Seq<u8>>::empty());
    }
    assert(text =~= labelled + seq![sse::LF] + after);
    assert forall|j: int| 0 <= j < labelled.len() implies !ends_line(#[trigger] labelled[j]) by {
        if j >= 6 {
            assert(labelled[j] == data[j - 6]);
        } else {
            assert(labelled[j] == sse::data_label()[j]);
        }
    }
    lemma_first_line(labelled, after);
    lemma_data_value(line);
    let grown = acc + line.push(sse::LF);
    assert(dispatched(text, event, acc) == dispatched(after, event, grown));
    if k >= data.len() {
        assert(tail =~= Seq::<Seq<u8>>::empty());
        assert(after =~= Seq::<u8>::empty() + seq![sse::LF] + Seq::<u8>::empty());
        lemma_first_line(Seq::<u8>::empty(), Seq::<u8>::empty());
        assert(grown.drop_last() =~= acc + data);
    } else {
        let rest = data.skip(k + 1);
        assert(tail =~= sse::data_lines(rest));
        lemma_lines_dispatch(rest, event, grown);
        assert(grown + rest =~= acc + data);
    }
}

/// Law: text round-trips. Out of a formatted frame a client dispatches one
/// event with the name that was given (none: an empty one) and with the data
/// that was given. Carriage returns end lines in an event stream, so a text
/// that holds one does not come back as it was; nor does a name with a line
/// break in it.
pub proof fn law_event_roundtrip(event: Option<Seq<u8>>, data: Seq<u8>)
    requires
        forall|j: int| 0 <= j < data.len() ==> #[trigger] data[j] != sse::CR,
        event matches Some(name) ==> forall|j: int|
            0 <= j < name.len() ==> !ends_line(#[trigger] name[j]),
    ensures
        dispatched(sse::joined(sse::event_pieces(event, data)), Seq::empty(), Seq::empty()) == Some(
            (
                match event {
                    Some(name) => name,
                    None => Seq::empty(),
                },
                data,
            ),
        ),
{
    let lines = sse::line_pieces(sse::data_lines(data));
    let ending: Seq<Seq<u8>> = seq![seq![sse::LF]];
    let none = Seq::<u8>::empty();
    let text = sse::joined(sse::event_pieces(event, data));
    sse::lemma_joined_add(sse::name_pieces(event) + lines, ending);
    sse::lemma_joined_add(sse::name_pieces(event), lines);
    assert(sse::joined(ending) =~= seq![sse::LF]) by {
        reveal_with_fuel(sse::joined, 2);
        assert(ending.drop_first() =~= Seq::<Seq<u8>>::empty());
    }
    let body = sse::joined(lines) + seq![sse::LF];
    assert(none + data =~= data);
    match event {
        Some(name) => {
            let pieces = sse::name_pieces(event);
            let labelled = sse::event_label() + name;
            assert(sse::joined(pieces) =~= labelled + seq![sse::LF]) by {
                reveal_with_fuel(sse::joined, 4);
                assert(pieces.drop_first() =~= seq![name, seq![sse::LF]]);
                assert(pieces.drop_first().drop_first() =~= seq![seq![sse::LF]]);
                assert(pieces.drop_first().drop_first().drop_first() =~= Seq::<Seq<u8>>::empty());
            }
            assert(text =~= labelled + seq![sse::LF] + body);
            assert forall|j: int| 0 <= j < labelled.len() implies !ends_line(
                #[trigger] labelled[j],
            ) by {
                if j >= 7 {
                    assert(labelled[j] == name[j - 7]);
                } else {
                    assert(labelled[j] == sse::event_label()[j]);
                }
            }
            lemma_first_line(labelled, body);
            lemma_event_value(name);
            lemma_lines_dispatch(data, name, none);
        },
        None => {
            assert(sse::joined(sse::name_pieces(event)) =~= none);
            assert(text =~= body);
            lemma_lines_dispatch(data, none, none);
        },
    }
}

/// The number that decimal digits stand for.
pub open spec fn number(digits: Seq<u8>) -> nat
    decreases digits.len(),
{
    if digits.len() == 0 {
        0
    } else {
        (number(digits.drop_last()) * 10 + (digits.last() - 0x30)) as nat
    }
}

/// Digits are digits and stand for their number.
proof fn lemma_number(n: nat)
    ensures
        number(sse::decimal(n)) == n,
        sse::decimal(n).len() > 0,
        forall|j: int|
            0 <= j < sse::decimal(n).len() ==> 0x30 <= #[trigger] sse::decimal(n)[j] <= 0x39,
    decreases n,
{
    let d = sse::decimal(n);
    if n < 10 {
        assert(d.drop_last() =~= Seq::<u8>::empty());
        assert(number(d.drop_last()) == 0);
    } else {
        lemma_number(n / 10);
        assert(d.drop_last() =~= sse::decimal(n / 10));
    }
}

/// Law: a client reads out of a retry frame the number of milliseconds that it
/// was made for.
pub proof fn law_retry_roundtrip(ms: nat)
    ensures
        ({
            let text = sse::joined(sse::retry_pieces(ms));
            let line = text.take(line_end(text, 0));
            field_value(line, retry_field()) matches Some(v) && number(v) == ms
        }),
{
    lemma_number(ms);
    let text = sse::joined(sse::retry_pieces(ms));
    let pieces = sse::retry_pieces(ms);
    let digits = sse::decimal(ms);
    let line = sse::retry_label() + digits;
    assert(text =~= line + seq![sse::LF] + seq![sse::LF]) by {
        reveal_with_fuel(sse::joined, 4);
        assert(pieces.drop_first() =~= seq![digits, seq![sse::LF, sse::LF]]);
        assert(pieces.drop_first().drop_first() =~= seq![seq![sse::LF, sse::LF]]);
        assert(pieces.drop_first().drop_first().drop_first() =~= Seq::<Seq<u8>>::empty());
    }
    assert forall|j: int| 0 <= j < line.len() implies !ends_line(#[trigger] line[j]) by {
        if j >= 7 {
            assert(line[j] == digits[j - 7]);
        } else {
            assert(line[j] == sse::retry_label()[j]);
        }
    }
    lemma_first_line(line, seq![sse::LF]);
    assert(line.take(5) =~= retry_field());
    assert(line.skip(7) =~= digits);
    assert(line.len() != retry_field().len());
}

/// Law: a frame is written whole or reported as too large, never cut short.
pub proof fn law_frame_whole_or_refused(pieces: Seq<Seq<u8>>, out: Seq<u8>)
    requires
        out.len() <= usize::MAX,
    ensures
        match sse::written(pieces, out).1 {
            Ok(n) => n == sse::joined(pieces).len() && sse::written(pieces, out).0.take(n as int)
                == sse::joined(pieces),
            Err(_) => sse::joined(pieces).len() > out.len(),
        },
{
    sse::lemma_outcome(0, pieces, out.len());
    let (end, short) = sse::outcome(0, pieces, out.len());
    if short is None {
        assert(sse::joined(pieces).take(end as int) =~= sse::joined(pieces));
        assert(sse::written(pieces, out).0.take(end as int) =~= sse::joined(pieces));
    }
}

/// Law: the digits of a status code of up to three digits stand for it.
pub proof fn law_status_digits(code: u16)
    requires
        code <= 999,
    ensures
        number(status::status_bytes(code)) == code,
{
    let d = status::status_bytes(code);
    reveal_with_fuel(number, 4);
    assert(d.drop_last() =~= seq![d[0], d[1]]);
    assert(d.drop_last().drop_last() =~= seq![d[0]]);
    assert(d.drop_last().drop_last().drop_last() =~= Seq::<u8>::empty());
}

/// Law: the text of a frame is what its parts say. Lines end with a line feed, the
/// labels are `event: `, `data: ` and `retry: `, and the name is the one given.
pub proof fn law_frame_labels(name: &str)
    ensures
        sse::LF == 10 && sse::CR == 13,
        sse::event_label() == "event: ".spec_bytes(),
        sse::data_label() == "data: ".spec_bytes(),
        sse::retry_label() == "retry: ".spec_bytes(),
        sse::name_bytes(Some(name)) == Some(name.spec_bytes()),
        sse::name_bytes(None) is None,
{
    reveal_strlit("event: ");
    reveal_strlit("data: ");
    reveal_strlit("retry: ");
    bytes::lemma_ascii("event: ", sse::event_label());
    bytes::lemma_ascii("data: ", sse::data_label());
    bytes::lemma_ascii("retry: ", sse::retry_label());
}

/// Law: a frame ends with a blank line, which is what makes a client dispatch it.
pub proof fn law_frame_ends_blank(event: Option<Seq<u8>>, data: Seq<u8>, ms: nat)
    ensures
        ({
            let text = sse::joined(sse::event_pieces(event, data));
            text.len() >= 2 && text.last() == 10 && text[text.len() - 2] == 10
        }),
        ({
            let text = sse::joined(sse::retry_pieces(ms));
            text.len() >= 2 && text.last() == 10 && text[text.len() - 2] == 10
        }),
{
    let lines = sse::data_lines(data);
    let front = sse::name_pieces(event) + sse::line_pieces(lines);
    let ending: Seq<Seq<u8>> = seq![seq![sse::LF]];
    sse::lemma_joined_add(front, ending);
    sse::lemma_joined_add(sse::name_pieces(event), sse::line_pieces(lines));
    lemma_lines_end(lines);
    reveal_with_fuel(sse::joined, 4);
    assert(ending.drop_first() =~= Seq::<Seq<u8>>::empty());
    assert(sse::joined(ending) =~= seq![sse::LF]);
    let pieces = sse::retry_pieces(ms);
    assert(pieces.drop_first() =~= seq![sse::decimal(ms), seq![sse::LF, sse::LF]]);
    assert(pieces.drop_first().drop_first() =~= seq![seq![sse::LF, sse::LF]]);
    assert(pieces.drop_first().drop_first().drop_first() =~= Seq::<Seq<u8>>::empty());
}

/// The fields of some lines end with a line feed.
proof fn lemma_lines_end(lines: Seq<Seq<u8>>)
    requires
        lines.len() > 0,
    ensures
        sse::joined(sse::line_pieces(lines)).len() > 0,
        sse::joined(sse::line_pieces(lines)).last() == sse::LF,
    decreases lines.len(),
{
    let first: Seq<Seq<u8>> = seq![sse::data_label(), lines[0], seq![sse::LF]];
    let rest = sse::line_pieces(lines.drop_first());
    sse::lemma_joined_add(first, rest);
    assert(sse::joined(first) =~= sse::data_label() + lines[0] + seq![sse::LF]) by {
        reveal_with_fuel(sse::joined, 4);
        assert(first.drop_first() =~= seq![lines[0], seq![sse::LF]]);
        assert(first.drop_first().drop_first() =~= seq![seq![sse::LF]]);
        assert(first.drop_first().drop_first().drop_first() =~= Seq::<Seq<u8>>::empty());
    }
    if lines.len() > 1 {
        lemma_lines_end(lines.drop_first());
    } else {
        assert(sse::joined(rest) =~= Seq::<u8>::empty());
    }
}

} // verus!
