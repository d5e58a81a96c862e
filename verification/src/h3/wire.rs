//! The wire format of HTTP/3, number by number.

use vstd::prelude::*;
use vstd::string::StringSliceAdditionalSpecFns;

use crate::h3::huffman;
use crate::h3::qpack;
use crate::h3::server;
use crate::h3::static_table;
use crate::h3::stream;
use crate::h3::stream::H3Event;
use crate::http::server_conn::HttpEvent;
use crate::varint;

verus! {

/// Law: the static table of QPACK, entry by entry.
pub proof fn law_static_table()
    ensures
        static_table::static_entry(0) == Some((":authority", "")),
        static_table::static_entry(1) == Some((":path", "/")),
        static_table::static_entry(2) == Some(("age", "0")),
        static_table::static_entry(3) == Some(("content-disposition", "")),
        static_table::static_entry(4) == Some(("content-length", "0")),
        static_table::static_entry(5) == Some(("cookie", "")),
        static_table::static_entry(6) == Some(("date", "")),
        static_table::static_entry(7) == Some(("etag", "")),
        static_table::static_entry(8) == Some(("if-modified-since", "")),
        static_table::static_entry(9) == Some(("if-none-match", "")),
        static_table::static_entry(10) == Some(("last-modified", "")),
        static_table::static_entry(11) == Some(("link", "")),
        static_table::static_entry(12) == Some(("location", "")),
        static_table::static_entry(13) == Some(("referer", "")),
        static_table::static_entry(14) == Some(("set-cookie", "")),
        static_table::static_entry(15) == Some((":method", "CONNECT")),
        static_table::static_entry(16) == Some((":method", "DELETE")),
        static_table::static_entry(17) == Some((":method", "GET")),
        static_table::static_entry(18) == Some((":method", "HEAD")),
        static_table::static_entry(19) == Some((":method", "OPTIONS")),
        static_table::static_entry(20) == Some((":method", "POST")),
        static_table::static_entry(21) == Some((":method", "PUT")),
        static_table::static_entry(22) == Some((":scheme", "http")),
        static_table::static_entry(23) == Some((":scheme", "https")),
        static_table::static_entry(24) == Some((":status", "103")),
        static_table::static_entry(25) == Some((":status", "200")),
        static_table::static_entry(26) == Some((":status", "304")),
        static_table::static_entry(27) == Some((":status", "404")),
        static_table::static_entry(28) == Some((":status", "503")),
        static_table::static_entry(29) == Some(("accept", "*/*")),
        static_table::static_entry(30) == Some(("accept", "application/dns-message")),
        static_table::static_entry(31) == Some(("accept-encoding", "gzip, deflate, br")),
        static_table::static_entry(32) == Some(("accept-ranges", "bytes")),
        static_table::static_entry(33) == Some(("access-control-allow-headers", "cache-control")),
        static_table::static_entry(34) == Some(("access-control-allow-headers", "content-type")),
        static_table::static_entry(35) == Some(("access-control-allow-origin", "*")),
        static_table::static_entry(36) == Some(("cache-control", "max-age=0")),
        static_table::static_entry(37) == Some(("cache-control", "max-age=2592000")),
        static_table::static_entry(38) == Some(("cache-control", "max-age=604800")),
        static_table::static_entry(39) == Some(("cache-control", "no-cache")),
        static_table::static_entry(40) == Some(("cache-control", "no-store")),
        static_table::static_entry(41) == Some(("cache-control", "public, max-age=31536000")),
        static_table::static_entry(42) == Some(("content-encoding", "br")),
        static_table::static_entry(43) == Some(("content-encoding", "gzip")),
        static_table::static_entry(44) == Some(("content-type", "application/dns-message")),
        static_table::static_entry(45) == Some(("content-type", "application/javascript")),
        static_table::static_entry(46) == Some(("content-type", "application/json")),
        static_table::static_entry(47) == Some(("content-type", "application/x-www-form-urlencoded")),
        static_table::static_entry(48) == Some(("content-type", "image/gif")),
        static_table::static_entry(49) == Some(("content-type", "image/jpeg")),
        static_table::static_entry(50) == Some(("content-type", "image/png")),
        static_table::static_entry(51) == Some(("content-type", "text/css")),
        static_table::static_entry(52) == Some(("content-type", "text/html; charset=utf-8")),
        static_table::static_entry(53) == Some(("content-type", "text/plain")),
        static_table::static_entry(54) == Some(("content-type", "text/plain;charset=utf-8")),
        static_table::static_entry(55) == Some(("range", "bytes=0-")),
        static_table::static_entry(56) == Some(("strict-transport-security", "max-age=31536000")),
        static_table::static_entry(57) == Some(("strict-transport-security", "max-age=31536000; includesubdomains")),
        static_table::static_entry(58) == Some(("strict-transport-security", "max-age=31536000; includesubdomains; preload")),
        static_table::static_entry(59) == Some(("vary", "accept-encoding")),
        static_table::static_entry(60) == Some(("vary", "origin")),
        static_table::static_entry(61) == Some(("x-content-type-options", "nosniff")),
        static_table::static_entry(62) == Some(("x-xss-protection", "1; mode=block")),
        static_table::static_entry(63) == Some((":status", "100")),
        static_table::static_entry(64) == Some((":status", "204")),
        static_table::static_entry(65) == Some((":status", "206")),
        static_table::static_entry(66) == Some((":status", "302")),
        static_table::static_entry(67) == Some((":status", "400")),
        static_table::static_entry(68) == Some((":status", "403")),
        static_table::static_entry(69) == Some((":status", "421")),
        static_table::static_entry(70) == Some((":status", "425")),
        static_table::static_entry(71) == Some((":status", "500")),
        static_table::static_entry(72) == Some(("accept-language", "")),
        static_table::static_entry(73) == Some(("access-control-allow-credentials", "FALSE")),
        static_table::static_entry(74) == Some(("access-control-allow-credentials", "TRUE")),
        static_table::static_entry(75) == Some(("access-control-allow-headers", "*")),
        static_table::static_entry(76) == Some(("access-control-allow-methods", "get")),
        static_table::static_entry(77) == Some(("access-control-allow-methods", "get, post, options")),
        static_table::static_entry(78) == Some(("access-control-allow-methods", "options")),
        static_table::static_entry(79) == Some(("access-control-expose-headers", "content-length")),
        static_table::static_entry(80) == Some(("access-control-request-headers", "content-type")),
        static_table::static_entry(81) == Some(("access-control-request-method", "get")),
        static_table::static_entry(82) == Some(("access-control-request-method", "post")),
        static_table::static_entry(83) == Some(("alt-svc", "clear")),
        static_table::static_entry(84) == Some(("authorization", "")),
        static_table::static_entry(85) == Some(("content-security-policy", "script-src 'none'; object-src 'none'; base-uri 'none'")),
        static_table::static_entry(86) == Some(("early-data", "1")),
        static_table::static_entry(87) == Some(("expect-ct", "")),
        static_table::static_entry(88) == Some(("forwarded", "")),
        static_table::static_entry(89) == Some(("if-range", "")),
        static_table::static_entry(90) == Some(("origin", "")),
        static_table::static_entry(91) == Some(("purpose", "prefetch")),
        static_table::static_entry(92) == Some(("server", "")),
        static_table::static_entry(93) == Some(("timing-allow-origin", "*")),
        static_table::static_entry(94) == Some(("upgrade-insecure-requests", "1")),
        static_table::static_entry(95) == Some(("user-agent", "")),
        static_table::static_entry(96) == Some(("x-forwarded-for", "")),
        static_table::static_entry(97) == Some(("x-frame-options", "deny")),
        static_table::static_entry(98) == Some(("x-frame-options", "sameorigin")),
        forall|index: usize| index >= 99 ==> #[trigger] static_table::static_entry(index) is None,
{
    reveal(static_table::static_entry);
}

/// Law: an index stands for the bytes of its entry.
pub proof fn law_static_field(index: usize)
    ensures
        match static_table::static_entry(index) {
            Some((name, value)) => static_table::static_field(index as nat) == Some(
                (name.spec_bytes(), value.spec_bytes()),
            ),
            None => static_table::static_field(index as nat) is None,
        },
{
    law_static_table();
}

/// Law: a frame is its type, the length of its payload and the payload: type 0 for
/// DATA, type 1 for HEADERS.
pub proof fn law_frame_form(payload: Seq<u8>)
    requires
        payload.len() <= 0x3fff_ffff_ffff_ffff,
    ensures
        stream::h3_frame(stream::DATA_FRAME, payload) == seq![0u8] + varint::varint_bytes(
            payload.len() as int,
        ) + payload,
        stream::h3_frame(stream::HEADERS_FRAME, payload) == seq![1u8] + varint::varint_bytes(
            payload.len() as int,
        ) + payload,
{
    varint::law_varint_form(0);
    varint::law_varint_form(1);
}

/// Every index below 99 has an entry.
proof fn lemma_entry(index: nat)
    requires
        index < 99,
    ensures
        static_table::static_field(index) is Some,
{
    reveal(static_table::static_entry);
}

/// The string behind a length: as it is, or Huffman-coded.
pub open spec fn text_of(s: Seq<u8>, coded: bool) -> Option<Seq<u8>> {
    if coded {
        huffman::huffman_decoded(s)
    } else {
        Some(s)
    }
}

/// The length of a value in one byte, with the bit for Huffman coding.
pub open spec fn value_length(s: Seq<u8>, coded: bool) -> u8 {
    (s.len() + if coded {
        128int
    } else {
        0int
    }) as u8
}

/// A field section that consists of one line.
proof fn lemma_single(line: Seq<u8>)
    requires
        line.len() > 0,
    ensures
        ({
            let block = seq![0u8, 0u8] + line;
            qpack::line_at(block, 2) matches Some((f, end)) ==> (end == block.len()
                ==> qpack::decoded(block) == Some(seq![f]))
        }),
{
    let block = seq![0u8, 0u8] + line;
    match qpack::line_at(block, 2) {
        Some((f, end)) => {
            if end == block.len() {
                reveal_with_fuel(qpack::lines_from, 3);
                assert(seq![f] + Seq::<(Seq<u8>, Seq<u8>)>::empty() =~= seq![f]);
            }
        },
        None => {},
    }
}

/// Law: a line of bits `11` and an index in six bits stands for an entry of the
/// static table; an index from 63 on has a second byte.
pub proof fn law_indexed_line(index: nat)
    requires
        index < 99,
    ensures
        qpack::decoded(
            seq![0u8, 0u8] + (if index < 63 {
                seq![(0xc0 + index) as u8]
            } else {
                seq![0xffu8, (index - 63) as u8]
            }),
        ) == Some(seq![static_table::static_field(index)->0]),
{
    let line = if index < 63 {
        seq![(0xc0 + index) as u8]
    } else {
        seq![0xffu8, (index - 63) as u8]
    };
    let block = seq![0u8, 0u8] + line;
    lemma_entry(index);
    assert(block[2] == line[0]);
    if index >= 63 {
        assert(block[3] == line[1]);
    }
    lemma_single(line);
}

/// The value of a line, where it stands.
proof fn lemma_value(pre: Seq<u8>, s: Seq<u8>, coded: bool)
    requires
        s.len() < 127,
    ensures
        qpack::value_at(pre + (seq![value_length(s, coded)] + s), pre.len() as int) == (
        match text_of(s, coded) {
            Some(t) => Some((t, (pre.len() + 1 + s.len()) as int)),
            None => None,
        }),
{
    let block = pre + (seq![value_length(s, coded)] + s);
    let p = pre.len() as int;
    assert(block[p] == value_length(s, coded));
    assert(block.subrange(p + 1, p + 1 + s.len()) =~= s);
}

/// A section of one line with a name and a value.
proof fn lemma_named(pre: Seq<u8>, name: Seq<u8>, s: Seq<u8>, coded: bool)
    requires
        pre.len() > 2,
        pre[0] == 0 && pre[1] == 0 && pre[2] < 192,
        s.len() < 127,
        text_of(s, coded) is Some,
        qpack::name_at(pre + (seq![value_length(s, coded)] + s), 2) == Some(
            (name, pre.len() as int),
        ),
    ensures
        qpack::decoded(pre + (seq![value_length(s, coded)] + s)) == Some(
            seq![(name, text_of(s, coded)->0)],
        ),
{
    let block = pre + (seq![value_length(s, coded)] + s);
    lemma_value(pre, s, coded);
    let line = block.skip(2);
    assert(block =~= seq![0u8, 0u8] + line);
    lemma_single(line);
}

/// The name of a line that refers to the static table.
proof fn lemma_name_ref(first: int, index: nat, tail: Seq<u8>)
    requires
        first == 0x50 || first == 0x70,
        index < 99,
        tail.len() > 0,
    ensures
        ({
            let name = if index < 15 {
                seq![(first + index) as u8]
            } else {
                seq![(first + 15) as u8, (index - 15) as u8]
            };
            qpack::name_at(seq![0u8, 0u8] + name + tail, 2) == Some(
                ((static_table::static_field(index)->0).0, 2 + name.len() as int),
            )
        }),
{
    lemma_entry(index);
    let name = if index < 15 {
        seq![(first + index) as u8]
    } else {
        seq![(first + 15) as u8, (index - 15) as u8]
    };
    let block = seq![0u8, 0u8] + name + tail;
    assert(block[2] == name[0]);
    if index < 15 {
        assert(block[2] % 16 == index);
    } else {
        assert(block[3] == name[1]);
        assert(block[2] % 16 == 15);
        reveal_with_fuel(qpack::continued, 2);
    }
}

/// The name of a line that carries it.
proof fn lemma_name_literal(first: int, name: Seq<u8>, coded: bool, tail: Seq<u8>)
    requires
        first == (if coded {
            0x28int
        } else {
            0x20int
        }) + name.len() || first == (if coded {
            0x38int
        } else {
            0x30int
        }) + name.len(),
        name.len() < 7,
        text_of(name, coded) is Some,
    ensures
        qpack::name_at(seq![0u8, 0u8] + (seq![first as u8] + name) + tail, 2) == Some(
            (text_of(name, coded)->0, 3 + name.len() as int),
        ),
{
    let block = seq![0u8, 0u8] + (seq![first as u8] + name) + tail;
    assert(block[2] == first);
    assert(block[2] % 8 == name.len());
    assert((block[2] / 8 % 2 == 1) == coded);
    assert(block.subrange(3, 3 + name.len() as int) =~= name);
}

/// Law: a line of bits `01`, a bit that forbids indexing, a set bit for the static
/// table and an index in four bits stands for the name of an entry of that table
/// with the value that follows, Huffman-coded or not; an index from 15 on has a
/// second byte.
pub proof fn law_named_line(index: nat, never: bool, s: Seq<u8>, coded: bool)
    requires
        index < 99,
        s.len() < 127,
        text_of(s, coded) is Some,
    ensures
        ({
            let first = 0x50 + if never {
                0x20int
            } else {
                0int
            };
            let name = if index < 15 {
                seq![(first + index) as u8]
            } else {
                seq![(first + 15) as u8, (index - 15) as u8]
            };
            qpack::decoded(seq![0u8, 0u8] + (name + (seq![value_length(s, coded)] + s))) == Some(
                seq![((static_table::static_field(index)->0).0, text_of(s, coded)->0)],
            )
        }),
{
    let first = 0x50 + if never {
        0x20int
    } else {
        0int
    };
    let name = if index < 15 {
        seq![(first + index) as u8]
    } else {
        seq![(first + 15) as u8, (index - 15) as u8]
    };
    let tail = seq![value_length(s, coded)] + s;
    let pre = seq![0u8, 0u8] + name;
    assert(seq![0u8, 0u8] + (name + tail) =~= pre + tail);
    lemma_name_ref(first, index, tail);
    assert(pre[2] == name[0]);
    lemma_named(pre, (static_table::static_field(index)->0).0, s, coded);
}

/// Law: a line of bits `001`, a bit that forbids indexing, a bit for Huffman coding
/// and a length in three bits carries its name itself, and then the value.
pub proof fn law_literal_line(
    never: bool,
    name: Seq<u8>,
    name_coded: bool,
    s: Seq<u8>,
    coded: bool,
)
    requires
        name.len() < 7,
        s.len() < 127,
        text_of(name, name_coded) is Some,
        text_of(s, coded) is Some,
    ensures
        ({
            let first = 0x20 + (if never {
                0x10int
            } else {
                0int
            }) + (if name_coded {
                0x08int
            } else {
                0int
            }) + name.len();
            qpack::decoded(
                seq![0u8, 0u8] + (seq![first as u8] + name + (seq![value_length(s, coded)] + s)),
            ) == Some(seq![(text_of(name, name_coded)->0, text_of(s, coded)->0)])
        }),
{
    let first = 0x20 + (if never {
        0x10int
    } else {
        0int
    }) + (if name_coded {
        0x08int
    } else {
        0int
    }) + name.len();
    let tail = seq![value_length(s, coded)] + s;
    let pre = seq![0u8, 0u8] + (seq![first as u8] + name);
    assert(seq![0u8, 0u8] + (seq![first as u8] + name + tail) =~= pre + tail);
    lemma_name_literal(first, name, name_coded, tail);
    assert(pre[2] == first);
    lemma_named(pre, text_of(name, name_coded)->0, s, coded);
}

/// Law: a length that does not fit its prefix goes on in further bytes, seven bits
/// each, the lowest first, all but the last with the high bit set.
pub proof fn law_long_length(block: Seq<u8>, pos: int, limit: nat)
    requires
        0 <= pos,
        pos + 2 < block.len(),
    ensures
        forall|low: nat|
            low < limit ==> #[trigger] qpack::unprefixed(block, pos, low, limit) == Some(
                (low, pos + 1),
            ),
        block[pos + 1] < 128 ==> qpack::unprefixed(block, pos, limit, limit) == Some(
            ((limit + block[pos + 1]) as nat, pos + 2),
        ),
        block[pos + 1] >= 128 && block[pos + 2] < 128 ==> qpack::unprefixed(block, pos, limit, limit)
            == Some(
            ((limit + (block[pos + 1] - 128) + 128 * block[pos + 2]) as nat, pos + 3),
        ),
{
    reveal_with_fuel(qpack::continued, 3);
}

/// Law: an event of HTTP/3 is shown through the unified interface as what it is, on
/// its stream; a GOAWAY carries no error code, a closed connection its own.
pub proof fn law_events_are_mapped(id: u64, code: u64)
    ensures
        server::mapped(H3Event::Connected) == HttpEvent::Connected,
        server::mapped(H3Event::Headers(id)) == HttpEvent::Headers(id),
        server::mapped(H3Event::Data(id)) == HttpEvent::Data(id),
        server::mapped(H3Event::Finished(id)) == HttpEvent::Finished(id),
        server::mapped(H3Event::GoAway(id)) == (HttpEvent::GoAway { error_code: 0 }),
        server::mapped(H3Event::StreamReset { stream_id: id, error_code: code }) == (
        HttpEvent::StreamReset { stream_id: id, error_code: code }),
        server::mapped(H3Event::ConnectionClose { error_code: code }) == (HttpEvent::GoAway {
            error_code: code,
        }),
{
}

/// Law: what refers to a dynamic table is refused, since there is none: an indexed
/// line whose table bit is not set, a name reference without that bit, the forms
/// counted from the base, and a section whose prefix asks for entries.
pub proof fn law_dynamic_references_are_refused(block: Seq<u8>, pos: int)
    requires
        0 <= pos < block.len(),
    ensures
        128 <= block[pos] < 192 ==> qpack::line_at(block, pos) is None,
        64 <= block[pos] < 128 && (block[pos] / 16) % 2 == 0 ==> qpack::line_at(block, pos) is None,
        block[pos] < 32 ==> qpack::line_at(block, pos) is None,
        block[0] != 0 ==> qpack::decoded(block) is None,
        block.len() < 2 ==> qpack::decoded(block) is None,
        block.len() >= 2 && block[1] >= 128 ==> qpack::decoded(block) is None,
{
}

/// Law: a section is refused as a whole if anything in it cannot be read: a line
/// that is not there or refused, or one that stops short.
pub proof fn law_sections_are_read_whole(block: Seq<u8>, pos: int)
    requires
        0 <= pos <= block.len(),
    ensures
        pos == block.len() ==> qpack::lines_from(block, pos) == Some(
            Seq::<(Seq<u8>, Seq<u8>)>::empty(),
        ),
        pos < block.len() && qpack::line_at(block, pos) is None ==> qpack::lines_from(block, pos)
            is None,
        pos < block.len() ==> (qpack::line_at(block, pos) matches Some((field, end)) ==> ({
            &&& pos < end <= block.len()
            &&& qpack::lines_from(block, end) is None ==> qpack::lines_from(block, pos) is None
            &&& qpack::lines_from(block, end) matches Some(rest) ==> qpack::lines_from(block, pos)
                == Some(seq![field] + rest)
        })),
{
    if pos < block.len() {
        qpack::lemma_line_at(block, pos);
    }
}

} // verus!
