//! The socket (application protocol) packet codec: a text frame holds a
//! type digit, an optional attachment count, an optional namespace, an
//! optional acknowledgement id and an optional JSON data segment, exactly in
//! that order. Binary attachments travel out of band; the frame only carries
//! a placeholder object referencing them.

use vstd::prelude::*;

use crate::num::all_digits;
use crate::num::dec_rep;
use crate::num::digit_char;
use crate::num::digit_char_of;
use crate::num::digits_val;
use crate::num::is_digit_char;
use crate::num::lemma_dec_rep_shape;
use crate::num::lemma_dec_rep_val;
use crate::num::digit_run_end;
use crate::num::lemma_digit_run_end_props;
use crate::num::parse_uint_range;
use crate::num::parse_uint_run;
use crate::num::push_dec;
use crate::num::scan_digits;
use crate::text::parse_utf8;
use crate::text::push_char;

verus! {

/// Decode-time errors of the socket codec.
#[derive(Debug, Clone, Copy, PartialEq, Eq, Structural)]
pub enum Error {
    /// The input ended before a required delimiter or field was satisfied.
    IncompletePacket,
    /// The type discriminator is outside the valid set.
    InvalidPacketId(char),
    /// A structurally required numeric field failed to parse as an integer.
    InvalidPacket,
    /// The data segment is not syntactically valid JSON.
    InvalidJson,
    /// The input bytes are not valid UTF-8 text.
    InvalidUtf8,
}

/// The seven application-level packet kinds, each with a canonical number
/// 0 through 6, rendered as an ASCII digit.
#[derive(Debug, Clone, Copy, PartialEq, Eq, Structural)]
pub enum PacketId {
    Connect,
    Disconnect,
    Event,
    Ack,
    ConnectError,
    BinaryEvent,
    BinaryAck,
}

/// Canonical number of a packet kind.
pub open spec fn socket_code(id: PacketId) -> u8 {
    match id {
        PacketId::Connect => 0,
        PacketId::Disconnect => 1,
        PacketId::Event => 2,
        PacketId::Ack => 3,
        PacketId::ConnectError => 4,
        PacketId::BinaryEvent => 5,
        PacketId::BinaryAck => 6,
    }
}

/// ASCII digit character that renders a packet kind.
pub open spec fn socket_digit(id: PacketId) -> char {
    digit_char(socket_code(id) as nat)
}

/// The packet kind a character denotes, if any.
pub open spec fn id_of_char(c: char) -> Option<PacketId> {
    if c == '0' {
        Some(PacketId::Connect)
    } else if c == '1' {
        Some(PacketId::Disconnect)
    } else if c == '2' {
        Some(PacketId::Event)
    } else if c == '3' {
        Some(PacketId::Ack)
    } else if c == '4' {
        Some(PacketId::ConnectError)
    } else if c == '5' {
        Some(PacketId::BinaryEvent)
    } else if c == '6' {
        Some(PacketId::BinaryAck)
    } else {
        None
    }
}

/// True of the two kinds that announce out-of-band binary attachments.
pub open spec fn is_binary_kind(id: PacketId) -> bool {
    id == PacketId::BinaryEvent || id == PacketId::BinaryAck
}

impl PacketId {
    /// Canonical number of this packet kind.
    pub fn to_u8(self) -> (r: u8)
        ensures
            r == socket_code(self),
    {
        match self {
            PacketId::Connect => 0,
            PacketId::Disconnect => 1,
            PacketId::Event => 2,
            PacketId::Ack => 3,
            PacketId::ConnectError => 4,
            PacketId::BinaryEvent => 5,
            PacketId::BinaryAck => 6,
        }
    }

    /// Converts a character into the packet kind it denotes.
    pub fn try_from_char(c: char) -> (r: Result<PacketId, Error>)
        ensures
            r == (match id_of_char(c) {
                Some(id) => Ok::<PacketId, Error>(id),
                None => Err::<PacketId, Error>(Error::InvalidPacketId(c)),
            }),
    {
        match c {
            '0' => Ok(PacketId::Connect),
            '1' => Ok(PacketId::Disconnect),
            '2' => Ok(PacketId::Event),
            '3' => Ok(PacketId::Ack),
            '4' => Ok(PacketId::ConnectError),
            '5' => Ok(PacketId::BinaryEvent),
            '6' => Ok(PacketId::BinaryAck),
            _ => Err(Error::InvalidPacketId(c)),
        }
    }

    /// Converts a byte, read as a character, into the packet kind it
    /// denotes.
    pub fn try_from(b: u8) -> (r: Result<PacketId, Error>)
        ensures
            r == (match id_of_char(b as char) {
                Some(id) => Ok::<PacketId, Error>(id),
                None => Err::<PacketId, Error>(Error::InvalidPacketId(b as char)),
            }),
    {
        PacketId::try_from_char(b as char)
    }

    /// True of the two kinds that announce out-of-band binary attachments.
    pub fn is_binary(self) -> (r: bool)
        ensures
            r == is_binary_kind(self),
    {
        match self {
            PacketId::BinaryEvent => true,
            PacketId::BinaryAck => true,
            _ => false,
        }
    }
}

/// A packet sent or received via the socket protocol. The data segment is
/// raw JSON text; attachments, when present, are supplied out of band by
/// the caller.
#[derive(Debug, Clone)]
pub struct Packet {
    pub packet_type: PacketId,
    pub nsp: String,
    pub data: Option<String>,
    pub id: Option<i32>,
    pub attachment_count: u8,
    pub attachments: Option<Vec<Vec<u8>>>,
}

/// The mathematical model of a socket packet.
pub ghost struct PacketModel {
    pub packet_type: PacketId,
    pub nsp: Seq<char>,
    pub data: Option<Seq<char>>,
    pub id: Option<i32>,
    pub attachment_count: u8,
    pub attachments: Option<Seq<Seq<u8>>>,
}

impl View for Packet {
    type V = PacketModel;

    open spec fn view(&self) -> PacketModel {
        PacketModel {
            packet_type: self.packet_type,
            nsp: self.nsp@,
            data: match self.data {
                Some(d) => Some(d@),
                None => None,
            },
            id: self.id,
            attachment_count: self.attachment_count,
            attachments: match self.attachments {
                Some(a) => Some(a.deep_view()),
                None => None,
            },
        }
    }
}

/// The default namespace.
pub open spec fn default_nsp() -> Seq<char> {
    seq!['/']
}

/// The packet's structural invariant: only the binary kinds carry a
/// positive attachment count, and attachments, when present, match the
/// count.
pub open spec fn wf_model(m: PacketModel) -> bool {
    &&& (m.attachment_count > 0 ==> is_binary_kind(m.packet_type))
    &&& (m.attachments matches Some(a) ==> a.len() == m.attachment_count && m.attachment_count
        > 0)
}

/// The leading characters of the placeholder object, up to and including
/// the colon before the attachment index.
pub open spec fn placeholder_prefix() -> Seq<char> {
    seq![
        '{',
        '"',
        '_',
        'p',
        'l',
        'a',
        'c',
        'e',
        'h',
        'o',
        'l',
        'd',
        'e',
        'r',
        '"',
        ':',
        't',
        'r',
        'u',
        'e',
        ',',
        '"',
        'n',
        'u',
        'm',
        '"',
        ':',
    ]
}

/// The placeholder object standing in for the attachment with the given
/// index.
pub open spec fn placeholder_obj(num: nat) -> Seq<char> {
    placeholder_prefix() + dec_rep(num) + seq!['}']
}

/// The literal placeholder for index zero, the one the decoder removes.
pub open spec fn placeholder_zero() -> Seq<char> {
    placeholder_obj(0)
}

/// Whether a text is syntactically valid JSON. Named after serde_json's
/// parser, which decides it; the answer depends on the characters alone.
pub uninterp spec fn json_valid(text: Seq<char>) -> bool;

/// Relies on serde_json::from_str with serde's IgnoredAny: it parses the
/// text as a generic JSON value, succeeding exactly on syntactically valid
/// JSON.
#[verifier::external_body]
fn is_valid_json(s: &str) -> (r: bool)
    ensures
        r == json_valid(s@),
{
    serde_json::from_str::<serde::de::IgnoredAny>(s).is_ok()
}

/// Index of the first occurrence of `t` at or after `i`, if any.
pub open spec fn find_char_from(cs: Seq<char>, i: int, t: char) -> Option<int>
    decreases cs.len() - i,
{
    if i < 0 || i >= cs.len() {
        None
    } else if cs[i] == t {
        Some(i)
    } else {
        find_char_from(cs, i + 1, t)
    }
}

/// The text with every occurrence of the zero-index placeholder removed,
/// scanning left to right.
pub open spec fn remove_placeholder(s: Seq<char>) -> Seq<char>
    decreases s.len(),
{
    if s.len() == 0 {
        s
    } else if s.len() >= 29 && s.take(29) == placeholder_zero() {
        remove_placeholder(s.skip(29))
    } else {
        seq![s[0]] + remove_placeholder(s.skip(1))
    }
}

/// The data segment a binary-kind packet decodes to: one layer of brackets
/// stripped, every zero-index placeholder removed, and a trailing comma
/// dropped; an empty result means no data.
pub open spec fn strip_placeholder_data(rest: Seq<char>) -> Option<Seq<char>> {
    let stripped = if rest.len() >= 2 && rest[0] == '[' && rest.last() == ']' {
        rest.subrange(1, rest.len() - 1)
    } else {
        rest
    };
    let removed = remove_placeholder(stripped);
    let trimmed = if removed.len() > 0 && removed.last() == ',' {
        removed.drop_last()
    } else {
        removed
    };
    if trimmed.len() == 0 {
        None
    } else {
        Some(trimmed)
    }
}

/// Decode steps after the acknowledgement id: the remaining text must be
/// valid JSON; binary kinds then shed their placeholder bookkeeping.
pub open spec fn parse_data(
    cs: Seq<char>,
    i: int,
    t: PacketId,
    cnt: u8,
    nsp: Seq<char>,
    id: Option<i32>,
) -> Result<PacketModel, Error> {
    let rest = cs.skip(i);
    if !json_valid(rest) {
        Err(Error::InvalidJson)
    } else if is_binary_kind(t) {
        Ok(
            PacketModel {
                packet_type: t,
                nsp,
                data: strip_placeholder_data(rest),
                id,
                attachment_count: cnt,
                attachments: None,
            },
        )
    } else {
        Ok(
            PacketModel {
                packet_type: t,
                nsp,
                data: Some(rest),
                id,
                attachment_count: cnt,
                attachments: None,
            },
        )
    }
}

/// Decode step for the acknowledgement id: a maximal leading digit run. If
/// the run extends to the end of the input the packet is complete with no
/// id and no data; a non-empty run must fit a 32-bit signed integer.
pub open spec fn parse_ack_id(
    cs: Seq<char>,
    i: int,
    t: PacketId,
    cnt: u8,
    nsp: Seq<char>,
) -> Result<PacketModel, Error> {
    let k = digit_run_end(cs, i);
    if k == cs.len() {
        Ok(
            PacketModel {
                packet_type: t,
                nsp,
                data: None,
                id: None,
                attachment_count: cnt,
                attachments: None,
            },
        )
    } else if k > i {
        if digits_val(cs.subrange(i, k)) <= 0x7fffffff {
            parse_data(cs, k, t, cnt, nsp, Some(digits_val(cs.subrange(i, k)) as i32))
        } else {
            Err(Error::InvalidPacket)
        }
    } else {
        parse_data(cs, i, t, cnt, nsp, None)
    }
}

/// Decode step for the namespace: text starting with a slash up to a
/// required comma overrides the default namespace.
pub open spec fn parse_nsp(cs: Seq<char>, i: int, t: PacketId, cnt: u8) -> Result<
    PacketModel,
    Error,
> {
    if i < cs.len() && cs[i] == '/' {
        match find_char_from(cs, i, ',') {
            None => Err(Error::IncompletePacket),
            Some(j) => parse_ack_id(cs, j + 1, t, cnt, cs.subrange(i, j)),
        }
    } else {
        parse_ack_id(cs, i, t, cnt, default_nsp())
    }
}

/// Decode step for the attachment count: binary kinds require a dash, and
/// everything before it must parse as an unsigned 8-bit integer.
pub open spec fn parse_attachments(cs: Seq<char>, i: int, t: PacketId) -> Result<
    PacketModel,
    Error,
> {
    if is_binary_kind(t) {
        match find_char_from(cs, i, '-') {
            None => Err(Error::IncompletePacket),
            Some(j) => match parse_uint_run(cs.subrange(i, j)) {
                Some(v) => if v <= 255 {
                    parse_nsp(cs, j + 1, t, v as u8)
                } else {
                    Err(Error::InvalidPacket)
                },
                None => Err(Error::InvalidPacket),
            },
        }
    } else {
        parse_nsp(cs, i, t, 0)
    }
}

/// What decoding a socket text frame returns, for every character
/// sequence: the packet, or exactly which error rejects the input.
pub open spec fn parse_packet(cs: Seq<char>) -> Result<PacketModel, Error> {
    if cs.len() == 0 {
        Err(Error::IncompletePacket)
    } else {
        match id_of_char(cs[0]) {
            None => Err(Error::InvalidPacketId(cs[0])),
            Some(t) => parse_attachments(cs, 1, t),
        }
    }
}

/// What decoding bytes as a socket packet returns: the bytes must be
/// UTF-8 text, which is then parsed as a text frame.
pub open spec fn decode_model(bytes: Seq<u8>) -> Result<PacketModel, Error> {
    if !vstd::utf8::valid_utf8(bytes) {
        Err(Error::InvalidUtf8)
    } else {
        parse_packet(vstd::utf8::decode_utf8(bytes))
    }
}

/// The decimal rendering of a signed 32-bit number.
pub open spec fn dec_rep_i32(v: i32) -> Seq<char> {
    if v >= 0 {
        dec_rep(v as nat)
    } else {
        seq!['-'] + dec_rep((-(v as int)) as nat)
    }
}

/// The data segment a packet encodes to: with attachments present, the
/// data (if any) and the placeholder for the last attachment index are
/// wrapped in one bracket pair; otherwise the data is emitted verbatim.
pub open spec fn data_segment(m: PacketModel) -> Seq<char>
    recommends
        m.attachments is Some ==> m.attachment_count >= 1,
{
    if m.attachments is Some {
        let ph = placeholder_obj((m.attachment_count - 1) as nat);
        match m.data {
            Some(d) => seq!['['] + d + seq![','] + ph + seq![']'],
            None => seq!['['] + ph + seq![']'],
        }
    } else {
        match m.data {
            Some(d) => d,
            None => Seq::<char>::empty(),
        }
    }
}

/// The exact characters that encode a socket packet: type digit, then for
/// binary kinds the attachment count and a dash, then a non-default
/// namespace and a comma, then the acknowledgement id, then the data
/// segment.
pub open spec fn encode_packet(m: PacketModel) -> Seq<char>
    recommends
        m.attachments is Some ==> m.attachment_count >= 1,
{
    seq![socket_digit(m.packet_type)] + (if is_binary_kind(m.packet_type) {
        dec_rep(m.attachment_count as nat).push('-')
    } else {
        Seq::<char>::empty()
    }) + (if m.nsp != default_nsp() {
        m.nsp.push(',')
    } else {
        Seq::<char>::empty()
    }) + (match m.id {
        Some(v) => dec_rep_i32(v),
        None => Seq::<char>::empty(),
    }) + data_segment(m)
}

/// Index of the first occurrence of `t` at or after `from`.
fn find_char(s: &str, from: usize, t: char) -> (r: Option<usize>)
    requires
        from as int <= s@.len(),
    ensures
        match r {
            Some(j) => find_char_from(s@, from as int, t) == Some(j as int) && from <= j
                < s@.len(),
            None => find_char_from(s@, from as int, t) is None,
        },
{
    let n = s.unicode_len();
    let mut j = from;
    while j < n
        invariant
            from <= j <= n,
            n == s@.len(),
            find_char_from(s@, from as int, t) == find_char_from(s@, j as int, t),
        decreases n - j,
    {
        if s.get_char(j) == t {
            return Some(j);
        }
        j += 1;
    }
    None
}

/// True when the characters of `pat` occur in `s` starting at `i`.
fn matches_at(s: &str, i: usize, pat: &str) -> (r: bool)
    requires
        i as int + pat@.len() <= s@.len(),
    ensures
        r == (s@.subrange(i as int, i as int + pat@.len() as int) == pat@),
{
    let total = s.unicode_len();
    let pl = pat.unicode_len();
    let mut q: usize = 0;
    while q < pl
        invariant
            0 <= q <= pl,
            pl == pat@.len(),
            total == s@.len(),
            i + pl <= total,
            forall|x: int| 0 <= x < q ==> s@[i + x] == pat@[x],
        decreases pl - q,
    {
        if s.get_char(i + q) != pat.get_char(q) {
            proof {
                let sub = s@.subrange(i as int, i as int + pat@.len() as int);
                assert(sub[q as int] != pat@[q as int]);
            }
            return false;
        }
        q += 1;
    }
    proof {
        assert(s@.subrange(i as int, i as int + pat@.len() as int) =~= pat@);
    }
    true
}

/// Appends the decimal rendering of a signed 32-bit number.
fn push_i32(s: &mut String, v: i32)
    ensures
        final(s)@ == old(s)@ + dec_rep_i32(v),
{
    if v < 0 {
        push_char(s, '-');
        let mag: u64 = (-(v as i64)) as u64;
        push_dec(s, mag as u128);
        proof {
            assert(s@ =~= old(s)@ + dec_rep_i32(v));
        }
    } else {
        push_dec(s, v as u128);
        proof {
            assert(s@ =~= old(s)@ + dec_rep_i32(v));
        }
    }
}

/// Unfolds one step of placeholder removal at position `i`.
proof fn lemma_remove_placeholder_step(s: Seq<char>, i: int)
    requires
        0 <= i < s.len(),
    ensures
        (s.len() - i >= 29 && s.subrange(i, i + 29) == placeholder_zero())
            ==> remove_placeholder(s.skip(i)) == remove_placeholder(s.skip(i + 29)),
        !(s.len() - i >= 29 && s.subrange(i, i + 29) == placeholder_zero())
            ==> remove_placeholder(s.skip(i)) == seq![s[i]] + remove_placeholder(s.skip(i + 1)),
{
    let t = s.skip(i);
    assert(t.len() == s.len() - i);
    if t.len() >= 29 {
        assert(t.take(29) =~= s.subrange(i, i + 29));
        assert(t.skip(29) =~= s.skip(i + 29));
    }
    assert(t[0] == s[i]);
    assert(t.skip(1) =~= s.skip(i + 1));
}

/// The data segment of a binary-kind frame, with the placeholder
/// bookkeeping removed; the result mirrors `strip_placeholder_data`.
#[verifier::loop_isolation(false)]
fn strip_attachment_data(rest: &str) -> (r: Option<String>)
    requires
        rest@.len() >= 1,
    ensures
        match r {
            Some(d) => strip_placeholder_data(rest@) == Some(d@),
            None => strip_placeholder_data(rest@) is None,
        },
{
    let n = rest.unicode_len();
    let stripped: &str = if n >= 2 && rest.get_char(0) == '[' && rest.get_char(n - 1) == ']' {
        rest.substring_char(1, n - 1)
    } else {
        rest
    };
    proof {
        assert(rest@.last() == rest@[n as int - 1]);
        if rest@.len() >= 2 && rest@[0] == '[' && rest@.last() == ']' {
            assert(stripped@ == rest@.subrange(1, rest@.len() - 1));
        } else {
            assert(stripped@ == rest@);
        }
    }
    let ph: &str = "{\"_placeholder\":true,\"num\":0}";
    proof {
        reveal_strlit("{\"_placeholder\":true,\"num\":0}");
        assert(ph@ =~= placeholder_zero());
    }
    let m = stripped.unicode_len();
    let mut out = String::new();
    let mut i: usize = 0;
    proof {
        assert(stripped@.skip(0) =~= stripped@);
        assert(out@ + remove_placeholder(stripped@) =~= remove_placeholder(stripped@));
    }
    while i < m
        invariant
            0 <= i <= m,
            out@ + remove_placeholder(stripped@.skip(i as int)) == remove_placeholder(stripped@),
        decreases m - i,
    {
        let ghost out0 = out@;
        if m - i >= 29 && matches_at(stripped, i, ph) {
            proof {
                lemma_remove_placeholder_step(stripped@, i as int);
            }
            i = i + 29;
        } else {
            proof {
                lemma_remove_placeholder_step(stripped@, i as int);
            }
            let c = stripped.get_char(i);
            push_char(&mut out, c);
            proof {
                assert(out@ + remove_placeholder(stripped@.skip(i as int + 1)) =~= out0 + (seq![
                    stripped@[i as int],
                ] + remove_placeholder(stripped@.skip(i as int + 1))));
            }
            i = i + 1;
        }
    }
    proof {
        assert(stripped@.skip(m as int) =~= Seq::<char>::empty());
        assert(out@ + remove_placeholder(stripped@.skip(m as int)) =~= out@);
    }
    let flen = out.unicode_len();
    let trimmed: String = if flen > 0 && out.as_str().get_char(flen - 1) == ',' {
        proof {
            assert(out@.last() == out@[flen as int - 1]);
            assert(out@.subrange(0, flen as int - 1) =~= out@.drop_last());
        }
        out.as_str().substring_char(0, flen - 1).to_owned()
    } else {
        out
    };
    if trimmed.as_str().unicode_len() == 0 {
        None
    } else {
        Some(trimmed)
    }
}

impl Packet {
    /// Decodes a socket text frame, or reports exactly why the input is
    /// rejected. The frame never carries attachment bytes: the decoded
    /// packet holds only their count, and the caller correlates the binary
    /// buffers that arrive out of band afterwards.
    pub fn decode(payload: &[u8]) -> (r: Result<Packet, Error>)
        ensures
            match r {
                Ok(p) => decode_model(payload@) == Ok::<PacketModel, Error>(p@),
                Err(e) => decode_model(payload@) == Err::<PacketModel, Error>(e),
            },
    {
        let s: &str = match parse_utf8(payload) {
            Some(s) => s,
            None => {
                return Err(Error::InvalidUtf8);
            },
        };
        let ghost cs = s@;
        let n = s.unicode_len();
        if n == 0 {
            return Err(Error::IncompletePacket);
        }
        let t = match PacketId::try_from_char(s.get_char(0)) {
            Ok(t) => t,
            Err(e) => {
                return Err(e);
            },
        };
        proof {
            assert(parse_packet(cs) == parse_attachments(cs, 1, t));
        }
        let mut i: usize = 1;
        let mut cnt: u8 = 0;
        if t.is_binary() {
            let j = match find_char(s, 1, '-') {
                Some(j) => j,
                None => {
                    return Err(Error::IncompletePacket);
                },
            };
            let v = match parse_uint_range(s, 1, j, 255) {
                Some(v) => v,
                None => {
                    return Err(Error::InvalidPacket);
                },
            };
            cnt = v as u8;
            i = j + 1;
        }
        proof {
            assert(parse_packet(cs) == parse_nsp(cs, i as int, t, cnt));
        }
        let ghost i0 = i as int;
        let nsp: String;
        if i < n && s.get_char(i) == '/' {
            let j = match find_char(s, i, ',') {
                Some(j) => j,
                None => {
                    return Err(Error::IncompletePacket);
                },
            };
            nsp = s.substring_char(i, j).to_owned();
            i = j + 1;
        } else {
            let mut d = String::new();
            push_char(&mut d, '/');
            proof {
                assert(d@ =~= default_nsp());
            }
            nsp = d;
        }
        proof {
            assert(parse_nsp(cs, i0, t, cnt) == parse_ack_id(cs, i as int, t, cnt, nsp@));
        }
        let ghost i1 = i as int;
        let k = scan_digits(s, i);
        if k == n {
            let p = Packet {
                packet_type: t,
                nsp,
                data: None,
                id: None,
                attachment_count: cnt,
                attachments: None,
            };
            return Ok(p);
        }
        let mut id: Option<i32> = None;
        let mut dstart = i;
        if k > i {
            proof {
                lemma_digit_run_end_props(cs, i as int);
                let sub = cs.subrange(i as int, k as int);
                assert(sub.len() > 0 && is_digit_char(sub[0]));
                assert(sub[0] != '+');
                assert(all_digits(sub));
                assert(parse_uint_run(sub) == Some(digits_val(sub)));
            }
            let v = match parse_uint_range(s, i, k, 0x7fffffff) {
                Some(v) => v,
                None => {
                    return Err(Error::InvalidPacket);
                },
            };
            id = Some(v as i32);
            dstart = k;
        }
        proof {
            assert(parse_ack_id(cs, i1, t, cnt, nsp@) == parse_data(
                cs,
                dstart as int,
                t,
                cnt,
                nsp@,
                id,
            ));
        }
        let rest = s.substring_char(dstart, n);
        proof {
            assert(rest@ =~= cs.skip(dstart as int));
        }
        if !is_valid_json(rest) {
            return Err(Error::InvalidJson);
        }
        let data: Option<String> = if t.is_binary() {
            proof {
                assert(rest@.len() >= 1);
            }
            strip_attachment_data(rest)
        } else {
            Some(rest.to_owned())
        };
        let p = Packet { packet_type: t, nsp, data, id, attachment_count: cnt, attachments: None };
        Ok(p)
    }
}

/// Appends the placeholder object for the given attachment index.
fn push_placeholder(s: &mut String, num: u8)
    ensures
        final(s)@ == old(s)@ + placeholder_obj(num as nat),
{
    let pre: &str = "{\"_placeholder\":true,\"num\":";
    proof {
        reveal_strlit("{\"_placeholder\":true,\"num\":");
        assert(pre@ =~= placeholder_prefix());
    }
    s.append(pre);
    push_dec(s, num as u128);
    push_char(s, '}');
    proof {
        assert(s@ =~= old(s)@ + placeholder_obj(num as nat));
    }
}

impl Packet {
    /// Creates an instance from all its fields.
    pub fn new(
        packet_type: PacketId,
        nsp: String,
        data: Option<String>,
        id: Option<i32>,
        attachment_count: u8,
        attachments: Option<Vec<Vec<u8>>>,
    ) -> (r: Packet)
        ensures
            r@ == (PacketModel {
                packet_type,
                nsp: nsp@,
                data: match data {
                    Some(d) => Some(d@),
                    None => None,
                },
                id,
                attachment_count,
                attachments: match attachments {
                    Some(a) => Some(a.deep_view()),
                    None => None,
                },
            }),
    {
        Packet { packet_type, nsp, data, id, attachment_count, attachments }
    }
}

impl Default for Packet {
    /// The default packet: an Event in the default namespace with nothing
    /// else set.
    fn default() -> (r: Packet)
        ensures
            r@ == (PacketModel {
                packet_type: PacketId::Event,
                nsp: default_nsp(),
                data: None,
                id: None,
                attachment_count: 0,
                attachments: None,
            }),
    {
        let mut d = String::new();
        push_char(&mut d, '/');
        proof {
            assert(d@ =~= default_nsp());
        }
        Packet {
            packet_type: PacketId::Event,
            nsp: d,
            data: None,
            id: None,
            attachment_count: 0,
            attachments: None,
        }
    }
}

impl Packet {
    /// Encodes this packet into its exact text frame. Attachment bytes are
    /// never part of the frame: with attachments present only the
    /// placeholder for the last attachment index is written, and the
    /// attachments themselves are sent out of band by the caller.
    pub fn encode(&self) -> (r: String)
        requires
            wf_model(self@),
        ensures
            r@ == encode_packet(self@),
    {
        let mut out = String::new();
        push_char(&mut out, digit_char_of(self.packet_type.to_u8()));
        if self.packet_type.is_binary() {
            push_dec(&mut out, self.attachment_count as u128);
            push_char(&mut out, '-');
        }
        let ghost seg_bin = out@;
        let is_default = self.nsp.as_str().unicode_len() == 1 && self.nsp.as_str().get_char(0)
            == '/';
        proof {
            if is_default {
                assert(self.nsp@ =~= default_nsp());
            } else {
                if self.nsp@.len() == 1 {
                    assert(self.nsp@[0] != '/');
                }
                assert(self.nsp@ != default_nsp());
            }
        }
        if !is_default {
            out.append(self.nsp.as_str());
            push_char(&mut out, ',');
        }
        let ghost seg_nsp = out@;
        match self.id {
            Some(v) => push_i32(&mut out, v),
            None => (),
        }
        let ghost seg_id = out@;
        if self.attachments.is_some() {
            let num = self.attachment_count - 1;
            push_char(&mut out, '[');
            match &self.data {
                Some(d) => {
                    out.append(d.as_str());
                    push_char(&mut out, ',');
                    push_placeholder(&mut out, num);
                },
                None => {
                    push_placeholder(&mut out, num);
                },
            }
            push_char(&mut out, ']');
        } else {
            match &self.data {
                Some(d) => out.append(d.as_str()),
                None => (),
            }
        }
        proof {
            assert(out@ =~= encode_packet(self@));
        }
        out
    }
}

/// Compares two byte buffers for equality.
#[verifier::loop_isolation(false)]
fn bytes_eq(a: &Vec<u8>, b: &Vec<u8>) -> (r: bool)
    ensures
        r == (a@ == b@),
{
    if a.len() != b.len() {
        return false;
    }
    let mut i: usize = 0;
    while i < a.len()
        invariant
            0 <= i <= a.len(),
            forall|x: int| 0 <= x < i ==> a@[x] == b@[x],
        decreases a.len() - i,
    {
        if a[i] != b[i] {
            return false;
        }
        i += 1;
    }
    proof {
        assert(a@ =~= b@);
    }
    true
}

/// Compares two attachment lists for equality.
#[verifier::loop_isolation(false)]
fn attachments_eq(a: &Vec<Vec<u8>>, b: &Vec<Vec<u8>>) -> (r: bool)
    ensures
        r == (a.deep_view() == b.deep_view()),
{
    if a.len() != b.len() {
        proof {
            assert(a.deep_view().len() != b.deep_view().len());
        }
        return false;
    }
    let mut i: usize = 0;
    while i < a.len()
        invariant
            0 <= i <= a.len(),
            forall|x: int| 0 <= x < i ==> a.deep_view()[x] == b.deep_view()[x],
        decreases a.len() - i,
    {
        if !bytes_eq(&a[i], &b[i]) {
            proof {
                assert(a.deep_view()[i as int] == a@[i as int]@);
                assert(b.deep_view()[i as int] == b@[i as int]@);
            }
            return false;
        }
        proof {
            assert(a.deep_view()[i as int] == a@[i as int]@);
            assert(b.deep_view()[i as int] == b@[i as int]@);
        }
        i += 1;
    }
    proof {
        assert(a.deep_view() =~= b.deep_view());
    }
    true
}

impl vstd::std_specs::cmp::PartialEqSpecImpl for Packet {
    open spec fn obeys_eq_spec() -> bool {
        true
    }

    open spec fn eq_spec(&self, other: &Packet) -> bool {
        self@ == other@
    }
}

impl PartialEq for Packet {
    /// Two packets are equal when their models are: same kind, namespace,
    /// data, id, attachment count and attachments.
    fn eq(&self, other: &Packet) -> (r: bool) {
        let tys = self.packet_type == other.packet_type;
        let nsps = self.nsp == other.nsp;
        let datas = match (&self.data, &other.data) {
            (None, None) => true,
            (Some(x), Some(y)) => *x == *y,
            _ => false,
        };
        let ids = match (self.id, other.id) {
            (None, None) => true,
            (Some(x), Some(y)) => x == y,
            _ => false,
        };
        let cnts = self.attachment_count == other.attachment_count;
        let atts = match (&self.attachments, &other.attachments) {
            (None, None) => true,
            (Some(x), Some(y)) => attachments_eq(x, y),
            _ => false,
        };
        let r = tys && nsps && datas && ids && cnts && atts;
        proof {
            if r {
                assert(self@.packet_type == other@.packet_type);
                assert(self@.nsp == other@.nsp);
                assert(self@.data == other@.data);
                assert(self@.id == other@.id);
                assert(self@.attachment_count == other@.attachment_count);
                assert(self@.attachments == other@.attachments);
                assert(self@ == other@);
            } else {
                if !tys {
                    assert(self@.packet_type != other@.packet_type);
                } else if !nsps {
                    assert(self@.nsp != other@.nsp);
                } else if !datas {
                    assert(self@.data != other@.data);
                } else if !ids {
                    assert(self@.id != other@.id);
                } else if !cnts {
                    assert(self@.attachment_count != other@.attachment_count);
                } else {
                    assert(self@.attachments != other@.attachments);
                }
                assert(self@ != other@);
            }
        }
        r
    }
}

/// Law: decoding the UTF-8 bytes of an encoded socket packet gives the
/// packet back, for every attachment-free packet in the round-trip
/// class.
pub proof fn lemma_socket_round_trip_bytes(m: PacketModel)
    ensures
        round_trip_input(m) ==> decode_model(vstd::utf8::encode_utf8(encode_packet(m)))
            == Ok::<PacketModel, Error>(m),
{
    if round_trip_input(m) {
        lemma_socket_round_trip(m);
        vstd::utf8::encode_utf8_valid_utf8(encode_packet(m));
        vstd::utf8::encode_utf8_decode_utf8(encode_packet(m));
    }
}

/// A first occurrence is exactly where the character first stands.
proof fn lemma_find_char_exact(cs: Seq<char>, i: int, j: int, t: char)
    requires
        0 <= i <= j < cs.len(),
        cs[j] == t,
        forall|x: int| i <= x < j ==> cs[x] != t,
    ensures
        find_char_from(cs, i, t) == Some(j),
    decreases j - i,
{
    if i < j {
        lemma_find_char_exact(cs, i + 1, j, t);
    }
}

/// No zero-index placeholder occurs anywhere in the text.
pub open spec fn no_placeholder(s: Seq<char>) -> bool {
    forall|i: int| 0 <= i <= s.len() - 29 ==> #[trigger] s.subrange(i, i + 29) != placeholder_zero()
}

/// Removal is the identity on text without a placeholder.
proof fn lemma_no_placeholder_remove(s: Seq<char>)
    requires
        no_placeholder(s),
    ensures
        remove_placeholder(s) == s,
    decreases s.len(),
{
    if s.len() > 0 {
        if s.len() >= 29 && s.take(29) == placeholder_zero() {
            let z: int = 0;
            assert(s.subrange(z, z + 29) != placeholder_zero());
            assert(s.subrange(z, z + 29) =~= s.take(29));
        } else {
            assert forall|i: int| 0 <= i <= s.skip(1).len() - 29 implies #[trigger] s.skip(
                1,
            ).subrange(i, i + 29) != placeholder_zero() by {
                assert(s.subrange(i + 1, (i + 1) + 29) != placeholder_zero());
                assert(s.skip(1).subrange(i, i + 29) =~= s.subrange(i + 1, (i + 1) + 29));
            }
            lemma_no_placeholder_remove(s.skip(1));
            assert(seq![s[0]] + s.skip(1) =~= s);
        }
    }
}

/// The packets for which the decoder inverts the encoder: no attachments
/// (the frame never carries their bytes), a slash-led namespace without
/// commas, a non-negative id that is followed by data, and data that is
/// non-empty valid JSON which cannot be mistaken for an id or a
/// namespace, nor, for the binary kinds, for placeholder bookkeeping.
pub open spec fn round_trip_input(m: PacketModel) -> bool {
    &&& wf_model(m)
    &&& m.attachments is None
    &&& m.nsp.len() > 0
    &&& m.nsp[0] == '/'
    &&& (forall|i: int| 0 <= i < m.nsp.len() ==> m.nsp[i] != ',')
    &&& (m.id matches Some(v) ==> v >= 0 && m.data is Some)
    &&& (match m.data {
        None => true,
        Some(d) => {
            &&& d.len() > 0
            &&& !is_digit_char(d[0])
            &&& d[0] != '/'
            &&& json_valid(d)
            &&& (is_binary_kind(m.packet_type) ==> {
                &&& !(d.len() >= 2 && d[0] == '[' && d.last() == ']')
                &&& no_placeholder(d)
                &&& d.last() != ','
            })
        },
    })
}

/// Law: decoding an encoded socket packet gives the packet back, for
/// every attachment-free packet in the round-trip class.
#[verifier::spinoff_prover]
#[verifier::rlimit(100)]
pub proof fn lemma_socket_round_trip(m: PacketModel)
    ensures
        round_trip_input(m) ==> parse_packet(encode_packet(m)) == Ok::<PacketModel, Error>(m),
{
    if round_trip_input(m) {
        let t = m.packet_type;
        let seg0 = seq![socket_digit(t)];
        let seg1: Seq<char> = if is_binary_kind(t) {
            dec_rep(m.attachment_count as nat).push('-')
        } else {
            Seq::<char>::empty()
        };
        let seg2: Seq<char> = if m.nsp != default_nsp() {
            m.nsp.push(',')
        } else {
            Seq::<char>::empty()
        };
        let seg3: Seq<char> = match m.id {
            Some(v) => dec_rep_i32(v),
            None => Seq::<char>::empty(),
        };
        let seg4 = data_segment(m);
        let cs = encode_packet(m);
        assert(cs == seg0 + seg1 + seg2 + seg3 + seg4);
        assert(cs.len() == 1 + seg1.len() + seg2.len() + seg3.len() + seg4.len());
        assert(cs[0] == socket_digit(t));
        assert(id_of_char(socket_digit(t)) == Some(t));
        assert(parse_packet(cs) == parse_attachments(cs, 1, t));
        let cnt = m.attachment_count;
        let i2: int = 1 + seg1.len() as int;
        if is_binary_kind(t) {
            let dl = dec_rep(cnt as nat);
            lemma_dec_rep_shape(cnt as nat);
            lemma_dec_rep_val(cnt as nat);
            assert forall|x: int| 1 <= x < 1 + dl.len() implies cs[x] != '-' by {
                assert(cs[x] == dl[x - 1]);
                assert(is_digit_char(dl[x - 1]));
            }
            assert(cs[1 + dl.len() as int] == '-');
            lemma_find_char_exact(cs, 1, 1 + dl.len() as int, '-');
            assert(cs.subrange(1, 1 + dl.len() as int) =~= dl);
            assert(dl[0] != '+');
            assert(parse_uint_run(dl) == Some(cnt as nat));
            assert(parse_attachments(cs, 1, t) == parse_nsp(cs, i2, t, cnt));
        } else {
            assert(parse_attachments(cs, 1, t) == parse_nsp(cs, i2, t, 0));
            assert(cnt == 0);
        }
        let i3: int = i2 + seg2.len() as int;
        if m.nsp != default_nsp() {
            assert(cs[i2] == m.nsp[0]);
            assert(cs[i2] == '/');
            assert forall|x: int| i2 <= x < i2 + m.nsp.len() implies cs[x] != ',' by {
                assert(cs[x] == m.nsp[x - i2]);
            }
            assert(cs[i2 + m.nsp.len() as int] == ',');
            lemma_find_char_exact(cs, i2, i2 + m.nsp.len() as int, ',');
            assert(cs.subrange(i2, i2 + m.nsp.len() as int) =~= m.nsp);
            assert(parse_nsp(cs, i2, t, cnt) == parse_ack_id(cs, i3, t, cnt, m.nsp));
        } else {
            if i2 < cs.len() {
                assert(cs[i2] != '/') by {
                    if seg3.len() > 0 {
                        assert(cs[i2] == seg3[0]);
                        assert(m.id matches Some(v) && v >= 0);
                        lemma_dec_rep_shape((m.id->Some_0) as nat);
                        assert(is_digit_char(seg3[0]));
                    } else {
                        assert(cs[i2] == seg4[0]);
                        assert(m.data matches Some(d) && seg4 == d);
                    }
                }
            }
            assert(parse_nsp(cs, i2, t, cnt) == parse_ack_id(cs, i3, t, cnt, default_nsp()));
            assert(m.nsp =~= default_nsp());
        }
        let i4: int = i3 + seg3.len() as int;
        match m.id {
            Some(v) => {
                let dl = dec_rep(v as nat);
                assert(seg3 == dl);
                lemma_dec_rep_shape(v as nat);
                lemma_dec_rep_val(v as nat);
                let d = m.data->Some_0;
                assert(seg4 == d);
                assert forall|x: int| i3 <= x < i4 implies is_digit_char(#[trigger] cs[x]) by {
                    assert(cs[x] == dl[x - i3]);
                }
                assert(cs[i4] == d[0]);
                assert(!is_digit_char(cs[i4]));
                lemma_digit_run_end_props(cs, i3);
                crate::num::lemma_digit_run_end_exact(cs, i3, i4);
                assert(cs.subrange(i3, i4) =~= dl);
                assert(digits_val(dl) == v as nat);
                assert(i4 < cs.len());
                assert(parse_ack_id(cs, i3, t, cnt, m.nsp) == parse_data(
                    cs,
                    i4,
                    t,
                    cnt,
                    m.nsp,
                    Some(v),
                ));
            },
            None => {
                match m.data {
                    Some(d) => {
                        assert(seg4 == d);
                        assert(cs[i3] == d[0]);
                        assert(!is_digit_char(cs[i3]));
                        crate::num::lemma_digit_run_end_exact(cs, i3, i3);
                        assert(i3 < cs.len());
                        assert(parse_ack_id(cs, i3, t, cnt, m.nsp) == parse_data(
                            cs,
                            i3,
                            t,
                            cnt,
                            m.nsp,
                            None,
                        ));
                    },
                    None => {
                        assert(seg4 =~= Seq::<char>::empty());
                        assert(i3 == cs.len());
                        crate::num::lemma_digit_run_end_exact(cs, i3, i3);
                        assert(parse_ack_id(cs, i3, t, cnt, m.nsp) == Ok::<PacketModel, Error>(
                            PacketModel {
                                packet_type: t,
                                nsp: m.nsp,
                                data: None,
                                id: None,
                                attachment_count: cnt,
                                attachments: None,
                            },
                        ));
                    },
                }
            },
        }
        match m.data {
            Some(d) => {
                let start: int = i4;
                assert(cs.skip(start) =~= d);
                assert(json_valid(d));
                if is_binary_kind(t) {
                    assert(!(d.len() >= 2 && d[0] == '[' && d.last() == ']'));
                    lemma_no_placeholder_remove(d);
                    assert(strip_placeholder_data(d) == Some(d));
                }
            },
            None => {},
        }
    }
}

} // verus!
