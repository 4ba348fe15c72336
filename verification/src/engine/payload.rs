//! The engine payload codecs: a sequence of engine packets multiplexed
//! into one frame, in a text-safe format (ASCII length prefix, base64 for
//! binary sub-frames) and in a byte-oriented binary format (marker byte,
//! digit-value length bytes and a sentinel).

use vstd::prelude::*;

use crate::engine::packet::Error;
use crate::engine::packet::Packet;
use crate::engine::packet::PacketId;
use crate::engine::packet::id_of_byte;
use crate::engine::packet::packet_code;
use crate::engine::packet::packet_digit;
use crate::num::bin_dec_rep;
use crate::num::bin_digit_run_end;
use crate::num::bin_digits_val;
use crate::num::is_bin_digit;
use crate::num::lemma_bin_dec_rep;
use crate::num::lemma_bin_digit_run_end_exact;
use crate::num::lemma_bin_digit_run_end_props;
use crate::num::lemma_bin_digit_run_end_shift;
use crate::num::lemma_bin_digits_val_push;
use crate::num::lemma_bin_digits_val_take_le;
use crate::num::push_bin_dec;
use crate::num::dec_rep;
use crate::num::digit_char;
use crate::num::digit_char_of;
use crate::num::digit_run_end;
use crate::num::digit_val;
use crate::num::digit_val_of;
use crate::num::digits_val;
use crate::num::is_digit_char;
use crate::num::lemma_dec_rep_shape;
use crate::num::lemma_dec_rep_val;
use crate::num::lemma_digit_run_end_exact;
use crate::num::lemma_digit_run_end_props;
use crate::num::lemma_digit_run_end_shift;
use crate::num::parse_uint_range;
use crate::num::parse_uint_run;
use crate::num::push_dec;
use crate::num::scan_digits;
use crate::text::parse_utf8;
use crate::text::push_char;
use vstd::utf8::decode_utf8;
use vstd::utf8::encode_utf8;
use vstd::utf8::valid_utf8;

verus! {

/// One entry of a multiplexed payload: an engine packet, and whether its
/// frame uses the binary (base64 in text, raw in the byte format)
/// representation. The base packet model does not carry this flag, so the
/// payload codecs take it explicitly to keep encoding well defined.
#[derive(Debug, Clone)]
pub struct PayloadPacket {
    pub packet: Packet,
    pub is_binary: bool,
}

/// The mathematical model of a payload entry.
pub ghost struct PayloadPacketModel {
    pub id: PacketId,
    pub data: Seq<u8>,
    pub is_binary: bool,
}

impl View for PayloadPacket {
    type V = PayloadPacketModel;

    open spec fn view(&self) -> PayloadPacketModel {
        PayloadPacketModel {
            id: self.packet.packet_id,
            data: self.packet.data@,
            is_binary: self.is_binary,
        }
    }
}

impl DeepView for PayloadPacket {
    type V = PayloadPacketModel;

    open spec fn deep_view(&self) -> PayloadPacketModel {
        self.view()
    }
}

/// The characters that base64 (standard alphabet, with padding) encodes a
/// byte sequence to; the result depends on the bytes alone.
pub uninterp spec fn base64_chars_of(bytes: Seq<u8>) -> Seq<char>;

/// What decoding base64 text returns: the byte sequence whose canonical
/// encoding is the text, where there is one.
pub open spec fn base64_bytes_of(chars: Seq<char>) -> Option<Seq<u8>> {
    if exists|bs: Seq<u8>| base64_chars_of(bs) == chars {
        Some(choose|bs: Seq<u8>| base64_chars_of(bs) == chars)
    } else {
        None
    }
}

/// Relies on base64's standard engine encode: it is deterministic and
/// injective, so its result names the bytes it came from.
#[verifier::external_body]
fn b64_encode(bytes: &[u8]) -> (r: String)
    ensures
        r@ == base64_chars_of(bytes@),
        base64_bytes_of(r@) == Some(bytes@),
{
    base64::engine::Engine::encode(&base64::engine::general_purpose::STANDARD, bytes)
}

/// Relies on base64's standard engine decode: with padding required to be
/// canonical and stray trailing bits rejected, it accepts exactly the
/// canonical encodings, and returns the bytes the text encodes.
#[verifier::external_body]
fn b64_decode(s: &str) -> (r: Option<Vec<u8>>)
    ensures
        match r {
            Some(bs) => base64_bytes_of(s@) == Some(bs@),
            None => base64_bytes_of(s@) is None,
        },
{
    base64::engine::Engine::decode(&base64::engine::general_purpose::STANDARD, s).ok()
}

/// The ASCII digit character that renders an engine packet kind.
pub open spec fn packet_digit_char(id: PacketId) -> char {
    digit_char(packet_code(id) as nat)
}

/// The characters of one frame's representation: the type digit and the
/// payload text, or `b`, the type digit and the base64 payload.
pub open spec fn frame_repr(m: PayloadPacketModel) -> Seq<char>
    recommends
        m.is_binary || valid_utf8(m.data),
{
    if m.is_binary {
        seq!['b', packet_digit_char(m.id)] + base64_chars_of(m.data)
    } else {
        seq![packet_digit_char(m.id)] + decode_utf8(m.data)
    }
}

/// The characters that encode a payload in the text format: each frame's
/// representation prefixed by its character count and a colon, with no
/// other separator.
pub open spec fn encode_str_payload(ms: Seq<PayloadPacketModel>) -> Seq<char>
    decreases ms.len(),
{
    if ms.len() == 0 {
        Seq::<char>::empty()
    } else {
        dec_rep(frame_repr(ms[0]).len()) + seq![':'] + frame_repr(ms[0]) + encode_str_payload(
            ms.skip(1),
        )
    }
}

/// Text frames can carry a packet only when its payload is UTF-8 text or
/// the frame is binary (and so base64-coded).
pub open spec fn str_payload_encodable(ms: Seq<PayloadPacketModel>) -> bool {
    forall|i: int| 0 <= i < ms.len() ==> (#[trigger] ms[i].is_binary || valid_utf8(ms[i].data))
}

/// What parsing text-format frames returns, applied repeatedly until the
/// input is exhausted: a digit run and a colon give the frame's character
/// count, a digit or `b` plus a digit give the packet kind, and exactly
/// that many characters (less the type characters) are the payload. A
/// missing delimiter, a zero count or too few characters are incomplete; a
/// type digit outside the table is rejected by value; payload text that is
/// not canonical base64 fails to parse.
pub open spec fn parse_str_frames(cs: Seq<char>) -> Result<Seq<PayloadPacketModel>, Error>
    decreases cs.len(),
    via parse_str_frames_decreases
{
    let k = digit_run_end(cs, 0);
    if k == cs.len() || cs[k] != ':' {
        Err(Error::IncompletePacket)
    } else {
        let n = digits_val(cs.subrange(0, k));
        if n == 0 {
            Err(Error::IncompletePacket)
        } else {
            let p = k + 1;
            if p >= cs.len() {
                Err(Error::IncompletePacket)
            } else if is_digit_char(cs[p]) {
                match id_of_byte(digit_val(cs[p]) as u8) {
                    None => Err(Error::InvalidPacketId(digit_val(cs[p]) as u8)),
                    Some(id) => {
                        if n - 1 > cs.len() - (p + 1) {
                            Err(Error::IncompletePacket)
                        } else {
                            let body = cs.subrange(p + 1, p + 1 + (n - 1));
                            let m = PayloadPacketModel {
                                id,
                                data: encode_utf8(body),
                                is_binary: false,
                            };
                            let next = p + 1 + (n - 1);
                            if next == cs.len() {
                                Ok(seq![m])
                            } else {
                                match parse_str_frames(cs.skip(next)) {
                                    Ok(rest) => Ok(seq![m] + rest),
                                    Err(e) => Err(e),
                                }
                            }
                        }
                    },
                }
            } else if cs[p] == 'b' {
                if p + 1 >= cs.len() || !is_digit_char(cs[p + 1]) {
                    Err(Error::IncompletePacket)
                } else {
                    match id_of_byte(digit_val(cs[p + 1]) as u8) {
                        None => Err(Error::InvalidPacketId(digit_val(cs[p + 1]) as u8)),
                        Some(id) => {
                            if n < 2 || n - 2 > cs.len() - (p + 2) {
                                Err(Error::IncompletePacket)
                            } else {
                                let body = cs.subrange(p + 2, p + 2 + (n - 2));
                                match base64_bytes_of(body) {
                                    None => Err(Error::InvalidPacket),
                                    Some(data) => {
                                        let m = PayloadPacketModel { id, data, is_binary: true };
                                        let next = p + 2 + (n - 2);
                                        if next == cs.len() {
                                            Ok(seq![m])
                                        } else {
                                            match parse_str_frames(cs.skip(next)) {
                                                Ok(rest) => Ok(seq![m] + rest),
                                                Err(e) => Err(e),
                                            }
                                        }
                                    },
                                }
                            }
                        },
                    }
                }
            } else {
                Err(Error::IncompletePacket)
            }
        }
    }
}

#[via_fn]
proof fn parse_str_frames_decreases(cs: Seq<char>) {
    lemma_digit_run_end_props(cs, 0);
}

/// What decoding bytes as a text-format payload returns: the bytes must be
/// UTF-8 text, which is then split into frames.
pub open spec fn decode_str_model(bytes: Seq<u8>) -> Result<Seq<PayloadPacketModel>, Error> {
    if !valid_utf8(bytes) {
        Err(Error::InvalidUtf8)
    } else {
        parse_str_frames(decode_utf8(bytes))
    }
}

/// Decodes a text-format payload into its packets, or reports exactly why
/// the input is rejected.
#[verifier::loop_isolation(false)]
#[verifier::rlimit(60)]
pub fn decode_str(payload: &[u8]) -> (r: Result<Vec<PayloadPacket>, Error>)
    ensures
        match r {
            Ok(ps) => decode_str_model(payload@) == Ok::<Seq<PayloadPacketModel>, Error>(
                ps.deep_view(),
            ),
            Err(e) => decode_str_model(payload@) == Err::<Seq<PayloadPacketModel>, Error>(e),
        },
{
    let s: &str = match parse_utf8(payload) {
        Some(s) => s,
        None => {
            return Err(Error::InvalidUtf8);
        },
    };
    let ghost cs = s@;
    let n = s.unicode_len();
    let mut out: Vec<PayloadPacket> = Vec::new();
    let mut i: usize = 0;
    proof {
        assert(cs.skip(0) =~= cs);
        assert(out.deep_view() =~= Seq::<PayloadPacketModel>::empty());
    }
    loop
        invariant
            0 <= i <= n,
            n == cs.len(),
            (match parse_str_frames(cs.skip(i as int)) {
                Ok(tail) => parse_str_frames(cs) == Ok::<Seq<PayloadPacketModel>, Error>(
                    out.deep_view() + tail,
                ),
                Err(e) => parse_str_frames(cs) == Err::<Seq<PayloadPacketModel>, Error>(e),
            }),
        decreases n - i,
    {
        let ghost rem = cs.skip(i as int);
        let k = scan_digits(s, i);
        proof {
            lemma_digit_run_end_shift(cs, i as int, 0);
            lemma_digit_run_end_props(cs, i as int);
            assert(rem.subrange(0, k - i) =~= cs.subrange(i as int, k as int));
        }
        if k == n || s.get_char(k) != ':' {
            return Err(Error::IncompletePacket);
        }
        if k == i {
            return Err(Error::IncompletePacket);
        }
        let vopt = parse_uint_range(s, i, k, n as u64);
        proof {
            let sub = cs.subrange(i as int, k as int);
            assert(sub.len() > 0 && is_digit_char(sub[0]));
            assert(sub[0] != '+');
            assert(parse_uint_run(sub) == Some(digits_val(sub)));
        }
        if let Some(0) = vopt {
            return Err(Error::IncompletePacket);
        }
        let p = k + 1;
        if p >= n {
            return Err(Error::IncompletePacket);
        }
        proof {
            assert(rem[p - i] == cs[p as int]);
        }
        let c = s.get_char(p);
        if (c as u32) >= 48 && (c as u32) <= 57 {
            let id = match PacketId::try_from(digit_val_of(c)) {
                Ok(id) => id,
                Err(e) => {
                    return Err(e);
                },
            };
            let v = match vopt {
                Some(v) => v,
                None => {
                    return Err(Error::IncompletePacket);
                },
            };
            if v > (n - p) as u64 {
                return Err(Error::IncompletePacket);
            }
            let pl = (v as usize) - 1;
            let body = s.substring_char(p + 1, p + 1 + pl);
            let data = body.as_bytes_vec();
            let entry = PayloadPacket { packet: Packet { packet_id: id, data }, is_binary: false };
            let ghost m = entry@;
            let ghost out0 = out.deep_view();
            out.push(entry);
            let next = p + 1 + pl;
            proof {
                assert(rem.subrange(p - i + 1, p - i + 1 + pl as int) =~= cs.subrange(
                    p as int + 1,
                    p as int + 1 + pl as int,
                ));
                assert(rem.skip(p - i + 1 + pl as int) =~= cs.skip(next as int));
                assert(out.deep_view() =~= out0.push(m));
                if next < n {
                    assert(parse_str_frames(rem) == (match parse_str_frames(cs.skip(next as int)) {
                        Ok(rest) => Ok::<Seq<PayloadPacketModel>, Error>(seq![m] + rest),
                        Err(e) => Err::<Seq<PayloadPacketModel>, Error>(e),
                    }));
                    if let Ok(rest) = parse_str_frames(cs.skip(next as int)) {
                        assert(out0 + (seq![m] + rest) =~= out.deep_view() + rest);
                    }
                } else {
                    assert(parse_str_frames(rem) == Ok::<Seq<PayloadPacketModel>, Error>(seq![m]));
                    assert(out0 + seq![m] =~= out.deep_view());
                }
            }
            if next == n {
                return Ok(out);
            }
            i = next;
        } else if c == 'b' {
            if p + 1 >= n {
                return Err(Error::IncompletePacket);
            }
            proof {
                assert(rem[p - i + 1] == cs[p as int + 1]);
            }
            let ct = s.get_char(p + 1);
            if !((ct as u32) >= 48 && (ct as u32) <= 57) {
                return Err(Error::IncompletePacket);
            }
            let id = match PacketId::try_from(digit_val_of(ct)) {
                Ok(id) => id,
                Err(e) => {
                    return Err(e);
                },
            };
            let v = match vopt {
                Some(v) => v,
                None => {
                    return Err(Error::IncompletePacket);
                },
            };
            if v < 2 {
                return Err(Error::IncompletePacket);
            }
            if v > (n - p) as u64 {
                return Err(Error::IncompletePacket);
            }
            let pl = (v as usize) - 2;
            let body = s.substring_char(p + 2, p + 2 + pl);
            proof {
                assert(rem.subrange(p - i + 2, p - i + 2 + pl as int) =~= cs.subrange(
                    p as int + 2,
                    p as int + 2 + pl as int,
                ));
            }
            let data = match b64_decode(body) {
                Some(d) => d,
                None => {
                    return Err(Error::InvalidPacket);
                },
            };
            let entry = PayloadPacket { packet: Packet { packet_id: id, data }, is_binary: true };
            let ghost m = entry@;
            let ghost out0 = out.deep_view();
            out.push(entry);
            let next = p + 2 + pl;
            proof {
                assert(rem.skip(p - i + 2 + pl as int) =~= cs.skip(next as int));
                assert(out.deep_view() =~= out0.push(m));
                if next < n {
                    assert(parse_str_frames(rem) == (match parse_str_frames(cs.skip(next as int)) {
                        Ok(rest) => Ok::<Seq<PayloadPacketModel>, Error>(seq![m] + rest),
                        Err(e) => Err::<Seq<PayloadPacketModel>, Error>(e),
                    }));
                    if let Ok(rest) = parse_str_frames(cs.skip(next as int)) {
                        assert(out0 + (seq![m] + rest) =~= out.deep_view() + rest);
                    }
                } else {
                    assert(parse_str_frames(rem) == Ok::<Seq<PayloadPacketModel>, Error>(seq![m]));
                    assert(out0 + seq![m] =~= out.deep_view());
                }
            }
            if next == n {
                return Ok(out);
            }
            i = next;
        } else {
            return Err(Error::IncompletePacket);
        }
    }
}

/// An entry can be read back from its own frame: a binary payload
/// round-trips through base64, and a text payload is valid UTF-8.
pub open spec fn entry_round_trip_ok(m: PayloadPacketModel) -> bool {
    if m.is_binary {
        base64_bytes_of(base64_chars_of(m.data)) == Some(m.data)
    } else {
        valid_utf8(m.data)
    }
}

/// Parsing what a payload encodes to gives the payload back, frame by
/// frame.
proof fn lemma_parse_encode_str(ms: Seq<PayloadPacketModel>)
    requires
        ms.len() > 0,
        forall|i: int| 0 <= i < ms.len() ==> entry_round_trip_ok(#[trigger] ms[i]),
    ensures
        parse_str_frames(encode_str_payload(ms)) == Ok::<Seq<PayloadPacketModel>, Error>(ms),
    decreases ms.len(),
{
    let m = ms[0];
    let fr = frame_repr(m);
    let dl = dec_rep(fr.len());
    let rest = encode_str_payload(ms.skip(1));
    let cs = encode_str_payload(ms);
    assert(cs == dl + seq![':'] + fr + rest);
    lemma_dec_rep_shape(fr.len());
    lemma_dec_rep_val(fr.len());
    assert forall|x: int| 0 <= x < dl.len() implies is_digit_char(#[trigger] cs[x]) by {
        assert(cs[x] == dl[x]);
    }
    assert(cs[dl.len() as int] == ':');
    assert(!is_digit_char(':'));
    lemma_digit_run_end_exact(cs, 0, dl.len() as int);
    assert(cs.subrange(0, dl.len() as int) =~= dl);
    let p = dl.len() as int + 1;
    assert(cs.len() == dl.len() + 1 + fr.len() + rest.len());
    if !m.is_binary {
        assert(cs[p] == fr[0]);
        assert(fr[0] == packet_digit_char(m.id));
        assert(is_digit_char(packet_digit_char(m.id)));
        assert(digit_val(packet_digit_char(m.id)) == packet_code(m.id));
        assert(id_of_byte(packet_code(m.id)) == Some(m.id));
        let body = decode_utf8(m.data);
        assert(fr.len() == 1 + body.len());
        assert(cs.subrange(p + 1, p + 1 + body.len() as int) =~= body);
        assert(encode_utf8(decode_utf8(m.data)) == m.data) by {
            vstd::utf8::decode_utf8_encode_utf8(m.data);
        }
        let next = p + 1 + body.len() as int;
        if ms.len() == 1 {
            assert(rest =~= Seq::<char>::empty());
            assert(next == cs.len());
            assert(seq![m] =~= ms);
        } else {
            assert(cs.skip(next) =~= rest);
            assert(ms.skip(1).len() > 0);
            assert forall|i: int| 0 <= i < ms.skip(1).len() implies entry_round_trip_ok(
                #[trigger] ms.skip(1)[i],
            ) by {
                assert(ms.skip(1)[i] == ms[i + 1]);
            }
            lemma_parse_encode_str(ms.skip(1));
            assert(seq![m] + ms.skip(1) =~= ms);
        }
    } else {
        assert(cs[p] == fr[0]);
        assert(fr[0] == 'b');
        assert(!is_digit_char('b'));
        assert(cs[p + 1] == fr[1]);
        assert(fr[1] == packet_digit_char(m.id));
        assert(is_digit_char(packet_digit_char(m.id)));
        assert(digit_val(packet_digit_char(m.id)) == packet_code(m.id));
        assert(id_of_byte(packet_code(m.id)) == Some(m.id));
        let body = base64_chars_of(m.data);
        assert(fr.len() == 2 + body.len());
        assert(cs.subrange(p + 2, p + 2 + body.len() as int) =~= body);
        assert(base64_bytes_of(body) == Some(m.data));
        let next = p + 2 + body.len() as int;
        if ms.len() == 1 {
            assert(rest =~= Seq::<char>::empty());
            assert(next == cs.len());
            assert(seq![m] =~= ms);
        } else {
            assert(cs.skip(next) =~= rest);
            assert(ms.skip(1).len() > 0);
            assert forall|i: int| 0 <= i < ms.skip(1).len() implies entry_round_trip_ok(
                #[trigger] ms.skip(1)[i],
            ) by {
                assert(ms.skip(1)[i] == ms[i + 1]);
            }
            lemma_parse_encode_str(ms.skip(1));
            assert(seq![m] + ms.skip(1) =~= ms);
        }
    }
}

/// Encodes a payload in the text format: for each packet its frame
/// representation prefixed by the character count and a colon. A text
/// frame whose payload bytes are not UTF-8 cannot be carried and is
/// rejected. The contract also carries the round-trip law: what this
/// function produces parses back to exactly its input.
#[verifier::loop_isolation(false)]
pub fn encode_str(packets: &Vec<PayloadPacket>) -> (r: Result<Vec<u8>, Error>)
    ensures
        match r {
            Ok(out) => {
                &&& str_payload_encodable(packets.deep_view())
                &&& out@ == encode_utf8(encode_str_payload(packets.deep_view()))
                &&& packets.deep_view().len() > 0 ==> parse_str_frames(
                    encode_str_payload(packets.deep_view()),
                ) == Ok::<Seq<PayloadPacketModel>, Error>(packets.deep_view())
                &&& packets.deep_view().len() > 0 ==> decode_str_model(out@) == Ok::<
                    Seq<PayloadPacketModel>,
                    Error,
                >(packets.deep_view())
            },
            Err(e) => {
                &&& e == Error::InvalidUtf8
                &&& !str_payload_encodable(packets.deep_view())
            },
        },
{
    let ghost ms = packets.deep_view();
    let mut total = String::new();
    let mut idx: usize = 0;
    proof {
        assert(ms.skip(0) =~= ms);
        assert(total@ + encode_str_payload(ms) =~= encode_str_payload(ms));
    }
    while idx < packets.len()
        invariant
            0 <= idx <= packets.len(),
            ms == packets.deep_view(),
            total@ + encode_str_payload(ms.skip(idx as int)) == encode_str_payload(ms),
            forall|x: int| 0 <= x < idx ==> entry_round_trip_ok(#[trigger] ms[x]),
        decreases packets.len() - idx,
    {
        let e = &packets[idx];
        let ghost m = ms[idx as int];
        proof {
            assert(m == e.deep_view());
            assert(ms.skip(idx as int)[0] == m);
            assert(ms.skip(idx as int).skip(1) =~= ms.skip(idx as int + 1));
        }
        let ghost t0 = total@;
        if e.is_binary {
            let b64 = b64_encode(e.packet.data.as_slice());
            let l = b64.as_str().unicode_len();
            proof {
                assert(frame_repr(m) =~= seq!['b', packet_digit_char(m.id)] + base64_chars_of(
                    m.data,
                ));
                assert(frame_repr(m).len() == l + 2);
            }
            push_dec(&mut total, (l as u128) + 2);
            push_char(&mut total, ':');
            push_char(&mut total, 'b');
            push_char(&mut total, digit_char_of(e.packet.packet_id.to_u8()));
            total.append(b64.as_str());
            proof {
                assert(total@ =~= t0 + (dec_rep(frame_repr(m).len()) + seq![':'] + frame_repr(
                    m,
                )));
            }
        } else {
            let body = match parse_utf8(e.packet.data.as_slice()) {
                Some(b) => b,
                None => {
                    proof {
                        assert(!ms[idx as int].is_binary && !valid_utf8(ms[idx as int].data));
                    }
                    return Err(Error::InvalidUtf8);
                },
            };
            let l = body.unicode_len();
            proof {
                assert(frame_repr(m) =~= seq![packet_digit_char(m.id)] + decode_utf8(m.data));
                assert(frame_repr(m).len() == l + 1);
            }
            push_dec(&mut total, (l as u128) + 1);
            push_char(&mut total, ':');
            push_char(&mut total, digit_char_of(e.packet.packet_id.to_u8()));
            total.append(body);
            proof {
                assert(total@ =~= t0 + (dec_rep(frame_repr(m).len()) + seq![':'] + frame_repr(
                    m,
                )));
            }
        }
        proof {
            assert(encode_str_payload(ms.skip(idx as int)) == dec_rep(frame_repr(m).len())
                + seq![':'] + frame_repr(m) + encode_str_payload(ms.skip(idx as int + 1)));
            assert(total@ + encode_str_payload(ms.skip(idx as int + 1)) =~= t0
                + encode_str_payload(ms.skip(idx as int)));
        }
        idx += 1;
    }
    proof {
        assert(ms.skip(packets.len() as int) =~= Seq::<PayloadPacketModel>::empty());
        assert(total@ =~= encode_str_payload(ms));
        if ms.len() > 0 {
            lemma_parse_encode_str(ms);
            vstd::utf8::encode_utf8_valid_utf8(encode_str_payload(ms));
            vstd::utf8::encode_utf8_decode_utf8(encode_str_payload(ms));
        }
    }
    Ok(total.as_str().as_bytes_vec())
}

/// True when every frame length in the text is written canonically, with
/// no leading zero. The recursion steps past a frame exactly where the
/// parser would.
pub open spec fn str_frames_canonical(cs: Seq<char>) -> bool
    decreases cs.len(),
    via str_frames_canonical_decreases
{
    let k = digit_run_end(cs, 0);
    if k == cs.len() || cs[k] != ':' {
        true
    } else {
        let n = digits_val(cs.subrange(0, k));
        k >= 1 && cs[0] != '0' && {
            let p = k + 1;
            if p >= cs.len() {
                true
            } else if is_digit_char(cs[p]) {
                if n >= 1 && n - 1 <= cs.len() - (p + 1) && p + 1 + (n - 1) < cs.len() {
                    str_frames_canonical(cs.skip(p + 1 + (n - 1)))
                } else {
                    true
                }
            } else if cs[p] == 'b' {
                if n >= 2 && n - 2 <= cs.len() - (p + 2) && p + 2 + (n - 2) < cs.len() {
                    str_frames_canonical(cs.skip(p + 2 + (n - 2)))
                } else {
                    true
                }
            } else {
                true
            }
        }
    }
}

#[via_fn]
proof fn str_frames_canonical_decreases(cs: Seq<char>) {
    lemma_digit_run_end_props(cs, 0);
}

/// Law: re-encoding a parsed text payload reproduces the input, for every
/// input whose frame lengths are written canonically. An input with a
/// leading zero in a length still parses, but re-encodes to the canonical
/// form instead.
#[verifier::rlimit(60)]
pub proof fn lemma_encode_parse_str(cs: Seq<char>)
    ensures
        (match parse_str_frames(cs) {
            Ok(ms) => str_frames_canonical(cs) ==> {
                &&& encode_str_payload(ms) == cs
                &&& str_payload_encodable(ms)
            },
            Err(e) => true,
        }),
    decreases cs.len(),
{
    lemma_digit_run_end_props(cs, 0);
    let k = digit_run_end(cs, 0);
    if parse_str_frames(cs) is Ok && str_frames_canonical(cs) {
        let ms = parse_str_frames(cs)->Ok_0;
        let sub = cs.subrange(0, k);
        let n = digits_val(sub);
        let p = k + 1;
        assert(sub[0] == cs[0]);
        crate::num::lemma_dec_rep_unique(sub);
        assert(dec_rep(n) == sub);
        if is_digit_char(cs[p]) {
            let dv = digit_val(cs[p]);
            let id = id_of_byte(dv as u8)->Some_0;
            assert(packet_code(id) == dv as u8);
            crate::num::lemma_digit_char_of_val(cs[p]);
            assert(packet_digit_char(id) == cs[p]);
            let body = cs.subrange(p + 1, p + 1 + (n - 1));
            let m = PayloadPacketModel { id, data: encode_utf8(body), is_binary: false };
            let next = p + 1 + (n - 1);
            vstd::utf8::encode_utf8_decode_utf8(body);
            vstd::utf8::encode_utf8_valid_utf8(body);
            assert(frame_repr(m) =~= cs.subrange(p, next));
            assert(frame_repr(m).len() == n);
            if next == cs.len() {
                assert(ms == seq![m]);
                assert(ms.skip(1) =~= Seq::<PayloadPacketModel>::empty());
                assert(encode_str_payload(ms) == dec_rep(frame_repr(m).len()) + seq![':']
                    + frame_repr(m) + encode_str_payload(ms.skip(1)));
                assert(encode_str_payload(ms.skip(1)) =~= Seq::<char>::empty());
                assert(encode_str_payload(ms) =~= cs);
            } else {
                let rest = parse_str_frames(cs.skip(next))->Ok_0;
                assert(ms == seq![m] + rest);
                lemma_encode_parse_str(cs.skip(next));
                assert(str_frames_canonical(cs.skip(next)));
                assert(ms[0] == m);
                assert(ms.skip(1) =~= rest);
                assert(encode_str_payload(ms) == dec_rep(frame_repr(m).len()) + seq![':']
                    + frame_repr(m) + encode_str_payload(ms.skip(1)));
                assert(encode_str_payload(ms) =~= cs);
                assert forall|i: int| 0 <= i < ms.len() implies (#[trigger] ms[i].is_binary
                    || valid_utf8(ms[i].data)) by {
                    if i > 0 {
                        assert(ms[i] == rest[i - 1]);
                    }
                }
            }
        } else {
            assert(cs[p] == 'b');
            let dv = digit_val(cs[p + 1]);
            let id = id_of_byte(dv as u8)->Some_0;
            assert(packet_code(id) == dv as u8);
            crate::num::lemma_digit_char_of_val(cs[p + 1]);
            assert(packet_digit_char(id) == cs[p + 1]);
            let body = cs.subrange(p + 2, p + 2 + (n - 2));
            let data = base64_bytes_of(body)->Some_0;
            assert(base64_chars_of(data) == body) by {
                let w = choose|bs: Seq<u8>| base64_chars_of(bs) == body;
                assert(base64_chars_of(w) == body);
            }
            let m = PayloadPacketModel { id, data, is_binary: true };
            let next = p + 2 + (n - 2);
            assert(frame_repr(m) =~= cs.subrange(p, next));
            assert(frame_repr(m).len() == n);
            if next == cs.len() {
                assert(ms == seq![m]);
                assert(ms.skip(1) =~= Seq::<PayloadPacketModel>::empty());
                assert(encode_str_payload(ms) == dec_rep(frame_repr(m).len()) + seq![':']
                    + frame_repr(m) + encode_str_payload(ms.skip(1)));
                assert(encode_str_payload(ms.skip(1)) =~= Seq::<char>::empty());
                assert(encode_str_payload(ms) =~= cs);
            } else {
                let rest = parse_str_frames(cs.skip(next))->Ok_0;
                assert(ms == seq![m] + rest);
                lemma_encode_parse_str(cs.skip(next));
                assert(str_frames_canonical(cs.skip(next)));
                assert(ms[0] == m);
                assert(ms.skip(1) =~= rest);
                assert(encode_str_payload(ms) == dec_rep(frame_repr(m).len()) + seq![':']
                    + frame_repr(m) + encode_str_payload(ms.skip(1)));
                assert(encode_str_payload(ms) =~= cs);
                assert forall|i: int| 0 <= i < ms.len() implies (#[trigger] ms[i].is_binary
                    || valid_utf8(ms[i].data)) by {
                    if i > 0 {
                        assert(ms[i] == rest[i - 1]);
                    }
                }
            }
        }
    }
}

/// The bytes of one binary-format frame's inner packet: the ASCII type
/// digit for a text packet, the raw type byte for a binary one, then the
/// payload verbatim.
pub open spec fn bin_frame_body(m: PayloadPacketModel) -> Seq<u8> {
    if m.is_binary {
        seq![packet_code(m.id)] + m.data
    } else {
        seq![packet_digit(m.id)] + m.data
    }
}

/// The bytes that encode a payload in the binary format: for each packet
/// a marker byte (0 text, 1 binary), the decimal digits of its body
/// length one digit value per byte, the 0xFF sentinel, then the body.
pub open spec fn encode_bin_payload(ms: Seq<PayloadPacketModel>) -> Seq<u8>
    decreases ms.len(),
{
    if ms.len() == 0 {
        Seq::<u8>::empty()
    } else {
        seq![
            if ms[0].is_binary {
                1u8
            } else {
                0u8
            },
        ] + bin_dec_rep(bin_frame_body(ms[0]).len()) + seq![0xffu8] + bin_frame_body(ms[0])
            + encode_bin_payload(ms.skip(1))
    }
}

/// What parsing binary-format frames returns, applied repeatedly until
/// the input is exhausted: a marker byte selects the representation, digit
/// bytes up to the 0xFF sentinel give the body length, and exactly that
/// many bytes are the inner packet, decoded with the dual type-byte
/// acceptance. Truncation is incomplete; a marker or length byte outside
/// its set fails to parse.
pub open spec fn parse_bin_frames(bs: Seq<u8>) -> Result<Seq<PayloadPacketModel>, Error>
    decreases bs.len(),
    via parse_bin_frames_decreases
{
    if bs.len() == 0 {
        Err(Error::IncompletePacket)
    } else if bs[0] != 0 && bs[0] != 1 {
        Err(Error::InvalidPacket)
    } else {
        let e = bin_digit_run_end(bs, 1);
        if e == bs.len() {
            Err(Error::IncompletePacket)
        } else if bs[e] != 0xff {
            Err(Error::InvalidPacket)
        } else {
            let n = bin_digits_val(bs.subrange(1, e));
            let q = e + 1;
            if n > bs.len() - q {
                Err(Error::IncompletePacket)
            } else {
                let body = bs.subrange(q, q + n);
                match crate::engine::packet::parse_packet(body) {
                    Err(err) => Err(err),
                    Ok(pm) => {
                        let m = PayloadPacketModel {
                            id: pm.id,
                            data: pm.data,
                            is_binary: bs[0] == 1,
                        };
                        let next = q + n;
                        if next == bs.len() {
                            Ok(seq![m])
                        } else {
                            match parse_bin_frames(bs.skip(next)) {
                                Ok(rest) => Ok(seq![m] + rest),
                                Err(e2) => Err(e2),
                            }
                        }
                    },
                }
            }
        }
    }
}

#[via_fn]
proof fn parse_bin_frames_decreases(bs: Seq<u8>) {
    if bs.len() > 0 {
        lemma_bin_digit_run_end_props(bs, 1);
    }
}

/// Index just past the run of digit bytes starting at `from`.
fn scan_bin_digits(bs: &[u8], from: usize) -> (r: usize)
    requires
        from as int <= bs@.len(),
    ensures
        r as int == bin_digit_run_end(bs@, from as int),
        from <= r <= bs@.len(),
{
    let n = bs.len();
    let mut j = from;
    while j < n
        invariant
            from <= j <= n,
            n == bs@.len(),
            bin_digit_run_end(bs@, from as int) == bin_digit_run_end(bs@, j as int),
        decreases n - j,
    {
        let b = bs[j];
        if !(b <= 9 || (b >= 0x30 && b <= 0x39)) {
            return j;
        }
        j += 1;
    }
    n
}

/// Reads the digit bytes in `[i, j)` as a decimal number of at most
/// `cap`.
#[verifier::loop_isolation(false)]
fn parse_bin_uint(bs: &[u8], i: usize, j: usize, cap: u64) -> (r: Option<u64>)
    requires
        i <= j,
        j as int <= bs@.len(),
        forall|x: int| i <= x < j ==> is_bin_digit(#[trigger] bs@[x]),
    ensures
        match r {
            Some(v) => bin_digits_val(bs@.subrange(i as int, j as int)) == v as nat && v <= cap,
            None => bin_digits_val(bs@.subrange(i as int, j as int)) > cap as nat,
        },
{
    let mut v: u128 = 0;
    let mut k = i;
    while k < j
        invariant
            i <= k <= j,
            v as nat == bin_digits_val(bs@.subrange(i as int, k as int)),
            v <= cap as u128,
        decreases j - k,
    {
        let b = bs[k];
        proof {
            assert(is_bin_digit(bs@[k as int]));
            assert(bs@.subrange(i as int, k as int + 1) =~= bs@.subrange(i as int, k as int).push(
                b,
            ));
            lemma_bin_digits_val_push(bs@.subrange(i as int, k as int), b);
        }
        let d: u8 = if b <= 9 {
            b
        } else {
            b - 0x30
        };
        let nv: u128 = v * 10 + (d as u128);
        if nv > cap as u128 {
            proof {
                let full = bs@.subrange(i as int, j as int);
                assert(full.take(k as int + 1 - i) =~= bs@.subrange(i as int, k as int + 1));
                lemma_bin_digits_val_take_le(full, k as int + 1 - i);
            }
            return None;
        }
        v = nv;
        k += 1;
    }
    proof {
        assert(bs@.subrange(i as int, k as int) =~= bs@.subrange(i as int, j as int));
    }
    Some(v as u64)
}

/// Decodes a binary-format payload into its packets, or reports exactly
/// why the input is rejected.
#[verifier::loop_isolation(false)]
#[verifier::rlimit(100)]
pub fn decode_bin(payload: &[u8]) -> (r: Result<Vec<PayloadPacket>, Error>)
    ensures
        match r {
            Ok(ps) => parse_bin_frames(payload@) == Ok::<Seq<PayloadPacketModel>, Error>(
                ps.deep_view(),
            ),
            Err(e) => parse_bin_frames(payload@) == Err::<Seq<PayloadPacketModel>, Error>(e),
        },
{
    let ghost bs = payload@;
    let n = payload.len();
    let mut out: Vec<PayloadPacket> = Vec::new();
    let mut i: usize = 0;
    proof {
        assert(bs.skip(0) =~= bs);
        assert(out.deep_view() =~= Seq::<PayloadPacketModel>::empty());
    }
    loop
        invariant
            0 <= i <= n,
            n == bs.len(),
            (match parse_bin_frames(bs.skip(i as int)) {
                Ok(tail) => parse_bin_frames(bs) == Ok::<Seq<PayloadPacketModel>, Error>(
                    out.deep_view() + tail,
                ),
                Err(e) => parse_bin_frames(bs) == Err::<Seq<PayloadPacketModel>, Error>(e),
            }),
        decreases n - i,
    {
        let ghost rem = bs.skip(i as int);
        if i == n {
            return Err(Error::IncompletePacket);
        }
        proof {
            assert(rem[0] == bs[i as int]);
        }
        let marker = payload[i];
        if marker != 0 && marker != 1 {
            return Err(Error::InvalidPacket);
        }
        let e = scan_bin_digits(payload, i + 1);
        proof {
            lemma_bin_digit_run_end_shift(bs, i as int, 1);
            lemma_bin_digit_run_end_props(bs, i as int + 1);
            assert(rem.subrange(1, e - i) =~= bs.subrange(i as int + 1, e as int));
        }
        if e == n {
            return Err(Error::IncompletePacket);
        }
        proof {
            assert(rem[e - i] == bs[e as int]);
        }
        if payload[e] != 0xff {
            return Err(Error::InvalidPacket);
        }
        let q = e + 1;
        let v = match parse_bin_uint(payload, i + 1, e, (n - q) as u64) {
            Some(v) => v,
            None => {
                return Err(Error::IncompletePacket);
            },
        };
        let bl = v as usize;
        let body = vstd::slice::slice_subrange(payload, q, q + bl);
        proof {
            assert(rem.subrange(q - i, q - i + bl as int) =~= bs.subrange(
                q as int,
                q as int + bl as int,
            ));
        }
        let pkt = match Packet::decode(body) {
            Ok(p) => p,
            Err(err) => {
                return Err(err);
            },
        };
        let entry = PayloadPacket { packet: pkt, is_binary: marker == 1 };
        let ghost m = entry@;
        let ghost out0 = out.deep_view();
        out.push(entry);
        let next = q + bl;
        proof {
            assert(rem.skip(q - i + bl as int) =~= bs.skip(next as int));
            assert(out.deep_view() =~= out0.push(m));
            if next < n {
                assert(parse_bin_frames(rem) == (match parse_bin_frames(bs.skip(next as int)) {
                    Ok(rest) => Ok::<Seq<PayloadPacketModel>, Error>(seq![m] + rest),
                    Err(e2) => Err::<Seq<PayloadPacketModel>, Error>(e2),
                }));
                if let Ok(rest) = parse_bin_frames(bs.skip(next as int)) {
                    assert(out0 + (seq![m] + rest) =~= out.deep_view() + rest);
                }
            } else {
                assert(parse_bin_frames(rem) == Ok::<Seq<PayloadPacketModel>, Error>(seq![m]));
                assert(out0 + seq![m] =~= out.deep_view());
            }
        }
        if next == n {
            return Ok(out);
        }
        i = next;
    }
}

/// Encodes a payload in the binary format: for each packet the marker
/// byte, the digit bytes of its body length, the sentinel and the body.
#[verifier::loop_isolation(false)]
pub fn encode_bin(packets: &Vec<PayloadPacket>) -> (r: Vec<u8>)
    ensures
        r@ == encode_bin_payload(packets.deep_view()),
{
    let ghost ms = packets.deep_view();
    let mut out: Vec<u8> = Vec::new();
    let mut idx: usize = 0;
    proof {
        assert(ms.skip(0) =~= ms);
        assert(out@ + encode_bin_payload(ms) =~= encode_bin_payload(ms));
    }
    while idx < packets.len()
        invariant
            0 <= idx <= packets.len(),
            ms == packets.deep_view(),
            out@ + encode_bin_payload(ms.skip(idx as int)) == encode_bin_payload(ms),
        decreases packets.len() - idx,
    {
        let e = &packets[idx];
        let ghost m = ms[idx as int];
        proof {
            assert(m == e.deep_view());
            assert(ms.skip(idx as int)[0] == m);
            assert(ms.skip(idx as int).skip(1) =~= ms.skip(idx as int + 1));
        }
        let ghost o0 = out@;
        out.push(if e.is_binary {
            1
        } else {
            0
        });
        let bl = e.packet.data.len();
        push_bin_dec(&mut out, (bl as u128) + 1);
        out.push(0xff);
        if e.is_binary {
            out.push(e.packet.packet_id.to_u8());
        } else {
            out.push(e.packet.packet_id.to_string_byte());
        }
        out.extend_from_slice(e.packet.data.as_slice());
        proof {
            assert(bin_frame_body(m).len() == bl + 1);
            assert(out@ =~= o0 + (seq![
                if m.is_binary {
                    1u8
                } else {
                    0u8
                },
            ] + bin_dec_rep(bin_frame_body(m).len()) + seq![0xffu8] + bin_frame_body(m)));
            assert(encode_bin_payload(ms.skip(idx as int)) == seq![
                if m.is_binary {
                    1u8
                } else {
                    0u8
                },
            ] + bin_dec_rep(bin_frame_body(m).len()) + seq![0xffu8] + bin_frame_body(m)
                + encode_bin_payload(ms.skip(idx as int + 1)));
            assert(out@ + encode_bin_payload(ms.skip(idx as int + 1)) =~= o0 + encode_bin_payload(
                ms.skip(idx as int),
            ));
        }
        idx += 1;
    }
    proof {
        assert(ms.skip(packets.len() as int) =~= Seq::<PayloadPacketModel>::empty());
        assert(out@ =~= encode_bin_payload(ms));
    }
    out
}

/// True when the binary format's frames are written exactly as the
/// encoder writes them: raw length digits with no leading zero, and a
/// type byte in the form the marker announces (raw for a binary frame,
/// the ASCII digit for a text frame). The recursion steps past a frame
/// exactly where the parser would.
pub open spec fn bin_frames_canonical(bs: Seq<u8>) -> bool
    decreases bs.len(),
    via bin_frames_canonical_decreases
{
    if bs.len() == 0 || (bs[0] != 0 && bs[0] != 1) {
        true
    } else {
        let e = bin_digit_run_end(bs, 1);
        if e == bs.len() || bs[e] != 0xff {
            true
        } else {
            let n = bin_digits_val(bs.subrange(1, e));
            let q = e + 1;
            (forall|x: int| 1 <= x < e ==> #[trigger] bs[x] <= 9) && (e > 1 ==> bs[1] != 0) && (
            if n <= bs.len() - q {
                (n >= 1 ==> (if bs[0] == 1 {
                    bs[q] <= 6
                } else {
                    0x30 <= bs[q] && bs[q] <= 0x36
                })) && (if q + n < bs.len() {
                    bin_frames_canonical(bs.skip(q + n))
                } else {
                    true
                })
            } else {
                true
            })
        }
    }
}

#[via_fn]
proof fn bin_frames_canonical_decreases(bs: Seq<u8>) {
    if bs.len() > 0 {
        lemma_bin_digit_run_end_props(bs, 1);
    }
}

/// Law: re-encoding a parsed binary-format payload reproduces the input,
/// for every input written in the encoder's own form. An input that leans
/// on the decoder's leniency (ASCII length digits, or a type byte in the
/// other accepted form) still parses, but re-encodes normalized.
#[verifier::rlimit(60)]
pub proof fn lemma_bin_encode_parse(bs: Seq<u8>)
    ensures
        (match parse_bin_frames(bs) {
            Ok(ms) => bin_frames_canonical(bs) ==> encode_bin_payload(ms) == bs,
            Err(e) => true,
        }),
    decreases bs.len(),
{
    if bs.len() > 0 {
        lemma_bin_digit_run_end_props(bs, 1);
    }
    if parse_bin_frames(bs) is Ok && bin_frames_canonical(bs) {
        let ms = parse_bin_frames(bs)->Ok_0;
        let e = bin_digit_run_end(bs, 1);
        let run = bs.subrange(1, e);
        let n = bin_digits_val(run);
        let q = e + 1;
        let body = bs.subrange(q, q + n);
        let pm = crate::engine::packet::parse_packet(body)->Ok_0;
        assert(body.len() >= 1);
        assert(n >= 1);
        assert(e > 1) by {
            if e == 1 {
                assert(run =~= Seq::<u8>::empty());
            }
        }
        assert(run[0] == bs[1]);
        assert(forall|x: int| 0 <= x < run.len() ==> run[x] == bs[1 + x]);
        crate::num::lemma_bin_dec_rep_unique(run);
        assert(bin_dec_rep(n) == run);
        let m = PayloadPacketModel { id: pm.id, data: pm.data, is_binary: bs[0] == 1 };
        assert(body[0] == bs[q]);
        if bs[0] == 1 {
            assert(bs[q] <= 6);
            assert(id_of_byte(bs[q]) == Some(pm.id));
            assert(packet_code(pm.id) == bs[q]);
        } else {
            assert(0x30 <= bs[q] && bs[q] <= 0x36);
            assert(id_of_byte(bs[q]) == Some(pm.id));
            assert(packet_digit(pm.id) == bs[q]);
        }
        assert(pm.data == body.skip(1));
        assert(bin_frame_body(m) =~= body);
        assert(bin_frame_body(m).len() == n);
        let next = q + n;
        if next == bs.len() {
            assert(ms == seq![m]);
            assert(ms.skip(1) =~= Seq::<PayloadPacketModel>::empty());
            assert(encode_bin_payload(ms) == seq![
                if m.is_binary {
                    1u8
                } else {
                    0u8
                },
            ] + bin_dec_rep(bin_frame_body(m).len()) + seq![0xffu8] + bin_frame_body(m)
                + encode_bin_payload(ms.skip(1)));
            assert(encode_bin_payload(ms) =~= bs);
        } else {
            let rest = parse_bin_frames(bs.skip(next))->Ok_0;
            assert(ms == seq![m] + rest);
            lemma_bin_encode_parse(bs.skip(next));
            assert(bin_frames_canonical(bs.skip(next)));
            assert(ms[0] == m);
            assert(ms.skip(1) =~= rest);
            assert(encode_bin_payload(ms) == seq![
                if m.is_binary {
                    1u8
                } else {
                    0u8
                },
            ] + bin_dec_rep(bin_frame_body(m).len()) + seq![0xffu8] + bin_frame_body(m)
                + encode_bin_payload(ms.skip(1)));
            assert(encode_bin_payload(ms) =~= bs);
        }
    }
}

/// Law: parsing what the binary format encodes gives the payload back,
/// for every non-empty payload.
pub proof fn lemma_bin_payload_round_trip(ms: Seq<PayloadPacketModel>)
    requires
        ms.len() > 0,
    ensures
        parse_bin_frames(encode_bin_payload(ms)) == Ok::<Seq<PayloadPacketModel>, Error>(ms),
    decreases ms.len(),
{
    let m = ms[0];
    let body = bin_frame_body(m);
    let dl = bin_dec_rep(body.len());
    let marker: u8 = if m.is_binary {
        1u8
    } else {
        0u8
    };
    let rest = encode_bin_payload(ms.skip(1));
    let bs = encode_bin_payload(ms);
    assert(bs == seq![marker] + dl + seq![0xffu8] + body + rest);
    lemma_bin_dec_rep(body.len());
    assert(bs[0] == marker);
    assert forall|x: int| 1 <= x < 1 + dl.len() implies is_bin_digit(#[trigger] bs[x]) by {
        assert(bs[x] == dl[x - 1]);
    }
    let e = 1 + dl.len() as int;
    assert(bs[e] == 0xff);
    assert(!is_bin_digit(0xff));
    lemma_bin_digit_run_end_exact(bs, 1, e);
    assert(bs.subrange(1, e) =~= dl);
    let q = e + 1;
    assert(bs.len() == 1 + dl.len() + 1 + body.len() + rest.len());
    assert(bs.subrange(q, q + body.len() as int) =~= body);
    assert(body.len() >= 1);
    let inner = crate::engine::packet::parse_packet(body);
    if m.is_binary {
        assert(body[0] == packet_code(m.id));
        assert(id_of_byte(packet_code(m.id)) == Some(m.id));
    } else {
        assert(body[0] == packet_digit(m.id));
        assert(id_of_byte(packet_digit(m.id)) == Some(m.id));
    }
    assert(body.skip(1) =~= m.data);
    let next = q + body.len() as int;
    if ms.len() == 1 {
        assert(rest =~= Seq::<u8>::empty());
        assert(next == bs.len());
        assert(seq![m] =~= ms);
    } else {
        assert(bs.skip(next) =~= rest);
        assert(ms.skip(1).len() > 0);
        lemma_bin_payload_round_trip(ms.skip(1));
        assert(seq![m] + ms.skip(1) =~= ms);
    }
}

} // verus!
