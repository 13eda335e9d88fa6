//! The local channel's wire format: a compact binary encoding of
//! commands and responses, and the 4-byte length framing around it.
//!
//! Layout, in order and with all multi-byte integers little-endian
//! unless said otherwise:
//! - a command is a tag byte (0 set-temperature, 1 get-temperature,
//!   2 kill) followed by its fields;
//! - a response is a tag byte (0 temperature report, 1 success,
//!   2 failure) followed by its fields;
//! - a string is a 4-byte length followed by that many bytes of UTF-8;
//! - a list is a 4-byte count followed by its elements;
//! - the frame around a message is a 4-byte big-endian length prefix,
//!   counting the bytes that follow.
use vstd::prelude::*;
use vstd::bytes::{
    lemma_auto_spec_u32_to_from_le_bytes, spec_u32_from_le_bytes, spec_u32_to_le_bytes,
    u32_from_le_bytes, u32_to_le_bytes,
};
use vstd::slice::{slice_subrange, slice_to_vec};
use vstd::utf8::{decode_utf8, encode_utf8, encode_utf8_decode_utf8, encode_utf8_valid_utf8, valid_utf8};
use crate::ipc::{CommandModel, IpcCommand, IpcResponse, ResponseModel};

verus! {

/// A string fits the wire format when its UTF-8 encoding fits the
/// 4-byte length field.
pub open spec fn str_encodable(s: Seq<char>) -> bool {
    encode_utf8(s).len() <= u32::MAX
}

/// The wire form of one string.
pub open spec fn spec_encode_str(s: Seq<char>) -> Seq<u8> {
    spec_u32_to_le_bytes(encode_utf8(s).len() as u32) + encode_utf8(s)
}

/// A name list fits the wire format when its count and each name fit.
pub open spec fn names_encodable(names: Seq<Seq<char>>) -> bool {
    names.len() <= u32::MAX && forall|i: int| 0 <= i < names.len() ==> str_encodable(#[trigger] names[i])
}

/// The wire form of the strings of a list, in order.
pub open spec fn spec_encode_strs(names: Seq<Seq<char>>) -> Seq<u8>
    decreases names.len(),
{
    if names.len() == 0 {
        Seq::empty()
    } else {
        spec_encode_strs(names.drop_last()) + spec_encode_str(names.last())
    }
}

/// The wire form of a name list: its count, then its strings.
pub open spec fn spec_encode_names(names: Seq<Seq<char>>) -> Seq<u8> {
    spec_u32_to_le_bytes(names.len() as u32) + spec_encode_strs(names)
}

/// Read a 4-byte little-endian integer off the front of the input;
/// what follows is the rest.
pub open spec fn parse_u32(b: Seq<u8>) -> Option<(u32, Seq<u8>)> {
    if b.len() < 4 {
        None
    } else {
        Some((spec_u32_from_le_bytes(b.take(4)), b.skip(4)))
    }
}

/// Read one string off the front of the input: its byte length, then
/// that many bytes, which must be valid UTF-8.
pub open spec fn parse_str(b: Seq<u8>) -> Option<(Seq<char>, Seq<u8>)> {
    match parse_u32(b) {
        None => None,
        Some((len, rest)) => {
            if rest.len() < len {
                None
            } else {
                let sb = rest.take(len as int);
                if valid_utf8(sb) {
                    Some((decode_utf8(sb), rest.skip(len as int)))
                } else {
                    None
                }
            }
        },
    }
}

/// Read `count` strings off the front of the input.
pub open spec fn parse_strs(b: Seq<u8>, count: nat) -> Option<(Seq<Seq<char>>, Seq<u8>)>
    decreases count,
{
    if count == 0 {
        Some((Seq::empty(), b))
    } else {
        match parse_str(b) {
            None => None,
            Some((s, rest)) => {
                match parse_strs(rest, (count - 1) as nat) {
                    None => None,
                    Some((ss, rest2)) => Some((seq![s] + ss, rest2)),
                }
            },
        }
    }
}

/// Read a name list off the front of the input: a count, then that
/// many strings.
pub open spec fn parse_names(b: Seq<u8>) -> Option<(Seq<Seq<char>>, Seq<u8>)> {
    match parse_u32(b) {
        None => None,
        Some((count, rest)) => parse_strs(rest, count as nat),
    }
}

proof fn lemma_parse_u32_round(x: u32, tail: Seq<u8>)
    ensures
        parse_u32(spec_u32_to_le_bytes(x) + tail) == Some::<(u32, Seq<u8>)>((x, tail)),
{
    lemma_auto_spec_u32_to_from_le_bytes();
    let b = spec_u32_to_le_bytes(x) + tail;
    assert(b.take(4) =~= spec_u32_to_le_bytes(x));
    assert(b.skip(4) =~= tail);
}

proof fn lemma_parse_str_round(s: Seq<char>, tail: Seq<u8>)
    requires
        str_encodable(s),
    ensures
        parse_str(spec_encode_str(s) + tail) == Some::<(Seq<char>, Seq<u8>)>((s, tail)),
{
    broadcast use encode_utf8_valid_utf8, encode_utf8_decode_utf8;

    let sb = encode_utf8(s);
    let b = spec_encode_str(s) + tail;
    assert(b =~= spec_u32_to_le_bytes(sb.len() as u32) + (sb + tail));
    lemma_parse_u32_round(sb.len() as u32, sb + tail);
    let rest = (sb + tail);
    assert(rest.take(sb.len() as int) =~= sb);
    assert(rest.skip(sb.len() as int) =~= tail);
}

proof fn lemma_encode_strs_front(names: Seq<Seq<char>>)
    requires
        names.len() > 0,
    ensures
        spec_encode_strs(names) == spec_encode_str(names[0]) + spec_encode_strs(names.skip(1)),
    decreases names.len(),
{
    if names.len() == 1 {
        assert(names.drop_last() =~= Seq::<Seq<char>>::empty());
        assert(names.skip(1) =~= Seq::<Seq<char>>::empty());
        assert(spec_encode_strs(names) =~= spec_encode_str(names[0]) + spec_encode_strs(
            names.skip(1),
        ));
    } else {
        lemma_encode_strs_front(names.drop_last());
        assert(names.drop_last()[0] == names[0]);
        assert(names.drop_last().skip(1) =~= names.skip(1).drop_last());
        assert(names.skip(1).last() == names.last());
        assert(spec_encode_strs(names) == spec_encode_strs(names.drop_last()) + spec_encode_str(
            names.last(),
        ));
        assert(spec_encode_strs(names.skip(1)) == spec_encode_strs(names.skip(1).drop_last())
            + spec_encode_str(names.skip(1).last()));
        assert(spec_encode_strs(names) =~= spec_encode_str(names[0]) + spec_encode_strs(
            names.skip(1),
        ));
    }
}

proof fn lemma_parse_strs_round(names: Seq<Seq<char>>, tail: Seq<u8>)
    requires
        forall|i: int| 0 <= i < names.len() ==> str_encodable(#[trigger] names[i]),
    ensures
        parse_strs(spec_encode_strs(names) + tail, names.len()) == Some::<(Seq<Seq<char>>, Seq<u8>)>((names, tail)),
    decreases names.len(),
{
    if names.len() == 0 {
        assert(spec_encode_strs(names) + tail =~= tail);
        assert(parse_strs(tail, 0) == Some::<(Seq<Seq<char>>, Seq<u8>)>((Seq::empty(), tail)));
        assert(names =~= Seq::<Seq<char>>::empty());
    } else {
        lemma_encode_strs_front(names);
        let b = spec_encode_strs(names) + tail;
        assert(b =~= spec_encode_str(names[0]) + (spec_encode_strs(names.skip(1)) + tail));
        lemma_parse_str_round(names[0], spec_encode_strs(names.skip(1)) + tail);
        lemma_parse_strs_round(names.skip(1), tail);
        assert(seq![names[0]] + names.skip(1) =~= names);
    }
}

proof fn lemma_parse_names_round(names: Seq<Seq<char>>, tail: Seq<u8>)
    requires
        names_encodable(names),
    ensures
        parse_names(spec_encode_names(names) + tail) == Some::<(Seq<Seq<char>>, Seq<u8>)>((names, tail)),
{
    let b = spec_encode_names(names) + tail;
    assert(b =~= spec_u32_to_le_bytes(names.len() as u32) + (spec_encode_strs(names) + tail));
    lemma_parse_u32_round(names.len() as u32, spec_encode_strs(names) + tail);
    lemma_parse_strs_round(names, tail);
}

/// A command fits the wire format when its name list does.
pub open spec fn cmd_encodable(c: CommandModel) -> bool {
    match c {
        CommandModel::SetTemperature { outputs, .. } => names_encodable(outputs),
        CommandModel::GetTemperature { outputs } => names_encodable(outputs),
        CommandModel::Kill => true,
    }
}

/// The wire form of a command.
pub open spec fn spec_encode_command(c: CommandModel) -> Seq<u8> {
    match c {
        CommandModel::SetTemperature { kelvin, gamma_millis, outputs } => seq![0u8]
            + spec_u32_to_le_bytes(kelvin) + spec_u32_to_le_bytes(gamma_millis)
            + spec_encode_names(outputs),
        CommandModel::GetTemperature { outputs } => seq![1u8] + spec_encode_names(outputs),
        CommandModel::Kill => seq![2u8],
    }
}

/// The command a byte sequence holds, if it is exactly one
/// well-formed command and nothing more.
pub open spec fn spec_decode_command(b: Seq<u8>) -> Option<CommandModel> {
    if b.len() < 1 {
        None
    } else {
        let body = b.skip(1);
        if b[0] == 0 {
            match parse_u32(body) {
                None => None,
                Some((kelvin, r1)) => match parse_u32(r1) {
                    None => None,
                    Some((gamma_millis, r2)) => match parse_names(r2) {
                        None => None,
                        Some((outputs, r3)) => if r3.len() == 0 {
                            Some(CommandModel::SetTemperature { kelvin, gamma_millis, outputs })
                        } else {
                            None
                        },
                    },
                },
            }
        } else if b[0] == 1 {
            match parse_names(body) {
                None => None,
                Some((outputs, r1)) => if r1.len() == 0 {
                    Some(CommandModel::GetTemperature { outputs })
                } else {
                    None
                },
            }
        } else if b[0] == 2 {
            if body.len() == 0 {
                Some(CommandModel::Kill)
            } else {
                None
            }
        } else {
            None
        }
    }
}

/// One entry of a temperature report on the wire: the output's name,
/// its temperature and its gamma exponent in thousandths.
pub open spec fn spec_encode_entry(e: (Seq<char>, u32, u32)) -> Seq<u8> {
    spec_encode_str(e.0) + spec_u32_to_le_bytes(e.1) + spec_u32_to_le_bytes(e.2)
}

/// The wire form of the entries of a temperature report, in order.
pub open spec fn spec_encode_entries(es: Seq<(Seq<char>, u32, u32)>) -> Seq<u8>
    decreases es.len(),
{
    if es.len() == 0 {
        Seq::empty()
    } else {
        spec_encode_entries(es.drop_last()) + spec_encode_entry(es.last())
    }
}

/// A temperature report fits the wire format when its count and each
/// name fit.
pub open spec fn entries_encodable(es: Seq<(Seq<char>, u32, u32)>) -> bool {
    es.len() <= u32::MAX && forall|i: int| 0 <= i < es.len() ==> str_encodable((#[trigger] es[i]).0)
}

/// A response fits the wire format when its fields do.
pub open spec fn resp_encodable(r: ResponseModel) -> bool {
    match r {
        ResponseModel::Temperature { temperatures } => entries_encodable(temperatures),
        ResponseModel::Success => true,
        ResponseModel::Failure { message } => str_encodable(message),
    }
}

/// The wire form of a response.
pub open spec fn spec_encode_response(r: ResponseModel) -> Seq<u8> {
    match r {
        ResponseModel::Temperature { temperatures } => seq![0u8] + spec_u32_to_le_bytes(
            temperatures.len() as u32,
        ) + spec_encode_entries(temperatures),
        ResponseModel::Success => seq![1u8],
        ResponseModel::Failure { message } => seq![2u8] + spec_encode_str(message),
    }
}

/// Read one temperature-report entry off the front of the input.
pub open spec fn parse_entry(b: Seq<u8>) -> Option<((Seq<char>, u32, u32), Seq<u8>)> {
    match parse_str(b) {
        None => None,
        Some((name, r1)) => match parse_u32(r1) {
            None => None,
            Some((kelvin, r2)) => match parse_u32(r2) {
                None => None,
                Some((gm, r3)) => Some(((name, kelvin, gm), r3)),
            },
        },
    }
}

/// Read `count` temperature-report entries off the front of the input.
pub open spec fn parse_entries(b: Seq<u8>, count: nat) -> Option<
    (Seq<(Seq<char>, u32, u32)>, Seq<u8>),
>
    decreases count,
{
    if count == 0 {
        Some((Seq::empty(), b))
    } else {
        match parse_entry(b) {
            None => None,
            Some((e, rest)) => {
                match parse_entries(rest, (count - 1) as nat) {
                    None => None,
                    Some((es, rest2)) => Some((seq![e] + es, rest2)),
                }
            },
        }
    }
}

/// The response a byte sequence holds, if it is exactly one
/// well-formed response and nothing more.
pub open spec fn spec_decode_response(b: Seq<u8>) -> Option<ResponseModel> {
    if b.len() < 1 {
        None
    } else {
        let body = b.skip(1);
        if b[0] == 0 {
            match parse_u32(body) {
                None => None,
                Some((count, r1)) => match parse_entries(r1, count as nat) {
                    None => None,
                    Some((temperatures, r2)) => if r2.len() == 0 {
                        Some(ResponseModel::Temperature { temperatures })
                    } else {
                        None
                    },
                },
            }
        } else if b[0] == 1 {
            if body.len() == 0 {
                Some(ResponseModel::Success)
            } else {
                None
            }
        } else if b[0] == 2 {
            match parse_str(body) {
                None => None,
                Some((message, r1)) => if r1.len() == 0 {
                    Some(ResponseModel::Failure { message })
                } else {
                    None
                },
            }
        } else {
            None
        }
    }
}

proof fn lemma_entries_front(es: Seq<(Seq<char>, u32, u32)>)
    requires
        es.len() > 0,
    ensures
        spec_encode_entries(es) == spec_encode_entry(es[0]) + spec_encode_entries(es.skip(1)),
    decreases es.len(),
{
    if es.len() == 1 {
        assert(es.drop_last() =~= Seq::<(Seq<char>, u32, u32)>::empty());
        assert(es.skip(1) =~= Seq::<(Seq<char>, u32, u32)>::empty());
        assert(spec_encode_entries(es) =~= spec_encode_entry(es[0]) + spec_encode_entries(
            es.skip(1),
        ));
    } else {
        lemma_entries_front(es.drop_last());
        assert(es.drop_last()[0] == es[0]);
        assert(es.drop_last().skip(1) =~= es.skip(1).drop_last());
        assert(es.skip(1).last() == es.last());
        assert(spec_encode_entries(es) =~= spec_encode_entry(es[0]) + spec_encode_entries(
            es.skip(1),
        ));
    }
}

proof fn lemma_parse_entry_round(e: (Seq<char>, u32, u32), tail: Seq<u8>)
    requires
        str_encodable(e.0),
    ensures
        parse_entry(spec_encode_entry(e) + tail) == Some::<((Seq<char>, u32, u32), Seq<u8>)>((e, tail)),
{
    let b = spec_encode_entry(e) + tail;
    assert(b =~= spec_encode_str(e.0) + (spec_u32_to_le_bytes(e.1) + (spec_u32_to_le_bytes(e.2)
        + tail)));
    lemma_parse_str_round(e.0, spec_u32_to_le_bytes(e.1) + (spec_u32_to_le_bytes(e.2) + tail));
    lemma_parse_u32_round(e.1, spec_u32_to_le_bytes(e.2) + tail);
    lemma_parse_u32_round(e.2, tail);
}

proof fn lemma_parse_entries_round(es: Seq<(Seq<char>, u32, u32)>, tail: Seq<u8>)
    requires
        forall|i: int| 0 <= i < es.len() ==> str_encodable((#[trigger] es[i]).0),
    ensures
        parse_entries(spec_encode_entries(es) + tail, es.len()) == Some::<(Seq<(Seq<char>, u32, u32)>, Seq<u8>)>((es, tail)),
    decreases es.len(),
{
    if es.len() == 0 {
        assert(spec_encode_entries(es) + tail =~= tail);
        assert(es =~= Seq::<(Seq<char>, u32, u32)>::empty());
    } else {
        lemma_entries_front(es);
        let b = spec_encode_entries(es) + tail;
        assert(b =~= spec_encode_entry(es[0]) + (spec_encode_entries(es.skip(1)) + tail));
        lemma_parse_entry_round(es[0], spec_encode_entries(es.skip(1)) + tail);
        lemma_parse_entries_round(es.skip(1), tail);
        assert(seq![es[0]] + es.skip(1) =~= es);
    }
}

/// Relies on String::from_utf8: it returns the string whose UTF-8
/// encoding is exactly the given bytes, and fails exactly when the
/// bytes are not valid UTF-8.
#[verifier::external_body]
fn string_from_utf8(bytes: Vec<u8>) -> (r: Option<String>)
    ensures
        match r {
            Some(s) => valid_utf8(bytes@) && encode_utf8(s@) == bytes@,
            None => !valid_utf8(bytes@),
        },
{
    String::from_utf8(bytes).ok()
}

/// Append a 4-byte little-endian integer.
fn push_u32(out: &mut Vec<u8>, x: u32)
    ensures
        final(out)@ == old(out)@ + spec_u32_to_le_bytes(x),
{
    let mut b = u32_to_le_bytes(x);
    out.append(&mut b);
}

/// Append one string in wire form: its UTF-8 length, then its UTF-8
/// bytes. Fails, appending nothing, when the length does not fit the
/// 4-byte field.
fn push_str(out: &mut Vec<u8>, s: &String) -> (r: bool)
    ensures
        r == str_encodable(s@),
        r ==> final(out)@ == old(out)@ + spec_encode_str(s@),
        !r ==> final(out)@ == old(out)@,
{
    let bytes: &[u8] = s.as_str().as_bytes();
    if bytes.len() as u64 > u32::MAX as u64 {
        return false;
    }
    push_u32(out, bytes.len() as u32);
    let mut bv = slice_to_vec(bytes);
    out.append(&mut bv);
    true
}

proof fn lemma_encode_strs_step(names: Seq<Seq<char>>, i: int)
    requires
        0 <= i < names.len(),
    ensures
        spec_encode_strs(names.take(i + 1)) == spec_encode_strs(names.take(i)) + spec_encode_str(
            names[i],
        ),
{
    assert(names.take(i + 1).drop_last() =~= names.take(i));
    assert(names.take(i + 1).last() == names[i]);
}

/// Append a name list in wire form: its count, then its strings.
/// Fails when the count or some name does not fit; the output is then
/// unusable and must be discarded.
#[verifier::loop_isolation(false)]
fn push_names(out: &mut Vec<u8>, names: &Vec<String>) -> (r: bool)
    ensures
        r == names_encodable(names.deep_view()),
        r ==> final(out)@ == old(out)@ + spec_encode_names(names.deep_view()),
{
    let ghost dv = names.deep_view();
    if names.len() as u64 > u32::MAX as u64 {
        return false;
    }
    push_u32(out, names.len() as u32);
    let mut i: usize = 0;
    while i < names.len()
        invariant
            0 <= i <= names@.len(),
            out@ == old(out)@ + spec_u32_to_le_bytes(names@.len() as u32) + spec_encode_strs(
                dv.take(i as int),
            ),
            forall|k: int| 0 <= k < i ==> str_encodable(#[trigger] dv[k]),
        decreases names@.len() - i,
    {
        proof {
            lemma_encode_strs_step(dv, i as int);
        }
        let ok = push_str(out, &names[i]);
        if !ok {
            assert(!str_encodable(dv[i as int]));
            return false;
        }
        i = i + 1;
    }
    proof {
        assert(dv.take(dv.len() as int) =~= dv);
        assert(out@ =~= old(out)@ + spec_encode_names(dv));
    }
    true
}

/// Encode one command for the wire. Fails exactly when a name list or
/// a name is too long for its 4-byte length field.
pub fn encode_command(c: &IpcCommand) -> (r: Option<Vec<u8>>)
    ensures
        cmd_encodable(c@) ==> (r matches Some(v) && v@ == spec_encode_command(c@)),
        !cmd_encodable(c@) ==> r is None,
{
    let mut out: Vec<u8> = Vec::new();
    match c {
        IpcCommand::SetTemperature { kelvin, gamma_millis, outputs } => {
            out.push(0u8);
            push_u32(&mut out, *kelvin);
            push_u32(&mut out, *gamma_millis);
            if !push_names(&mut out, outputs) {
                return None;
            }
            proof {
                assert(out@ =~= spec_encode_command(c@));
            }
            Some(out)
        },
        IpcCommand::GetTemperature { outputs } => {
            out.push(1u8);
            if !push_names(&mut out, outputs) {
                return None;
            }
            proof {
                assert(out@ =~= spec_encode_command(c@));
            }
            Some(out)
        },
        IpcCommand::Kill {  } => {
            out.push(2u8);
            proof {
                assert(out@ =~= spec_encode_command(c@));
            }
            Some(out)
        },
    }
}

proof fn lemma_encode_entries_step(es: Seq<(Seq<char>, u32, u32)>, i: int)
    requires
        0 <= i < es.len(),
    ensures
        spec_encode_entries(es.take(i + 1)) == spec_encode_entries(es.take(i)) + spec_encode_entry(
            es[i],
        ),
{
    assert(es.take(i + 1).drop_last() =~= es.take(i));
    assert(es.take(i + 1).last() == es[i]);
}

/// Encode one response for the wire. Fails exactly when the report or
/// a name or message is too long for its 4-byte length field.
#[verifier::loop_isolation(false)]
pub fn encode_response(r: &IpcResponse) -> (res: Option<Vec<u8>>)
    ensures
        resp_encodable(r@) ==> (res matches Some(v) && v@ == spec_encode_response(r@)),
        !resp_encodable(r@) ==> res is None,
{
    let mut out: Vec<u8> = Vec::new();
    match r {
        IpcResponse::Temperature { temperatures } => {
            let ghost dv = temperatures.deep_view();
            out.push(0u8);
            if temperatures.len() as u64 > u32::MAX as u64 {
                return None;
            }
            push_u32(&mut out, temperatures.len() as u32);
            let mut i: usize = 0;
            while i < temperatures.len()
                invariant
                    0 <= i <= temperatures@.len(),
                    out@ == seq![0u8] + spec_u32_to_le_bytes(temperatures@.len() as u32)
                        + spec_encode_entries(dv.take(i as int)),
                    forall|k: int| 0 <= k < i ==> str_encodable((#[trigger] dv[k]).0),
                decreases temperatures@.len() - i,
            {
                proof {
                    lemma_encode_entries_step(dv, i as int);
                    assert(dv[i as int] == (temperatures@[i as int].0@, temperatures@[i as int].1,
                        temperatures@[i as int].2));
                }
                let ok = push_str(&mut out, &temperatures[i].0);
                if !ok {
                    assert(!str_encodable((dv[i as int]).0));
                    return None;
                }
                push_u32(&mut out, temperatures[i].1);
                push_u32(&mut out, temperatures[i].2);
                proof {
                    assert(out@ =~= seq![0u8] + spec_u32_to_le_bytes(temperatures@.len() as u32)
                        + spec_encode_entries(dv.take(i as int + 1)));
                }
                i = i + 1;
            }
            proof {
                assert(dv.take(dv.len() as int) =~= dv);
                assert(out@ =~= spec_encode_response(r@));
            }
            Some(out)
        },
        IpcResponse::Success => {
            out.push(1u8);
            proof {
                assert(out@ =~= spec_encode_response(r@));
            }
            Some(out)
        },
        IpcResponse::Failure { message } => {
            out.push(2u8);
            if !push_str(&mut out, message) {
                return None;
            }
            proof {
                assert(out@ =~= spec_encode_response(r@));
            }
            Some(out)
        },
    }
}

/// Round trip of the command encoding: a command that fits the wire
/// format decodes back to itself.
pub proof fn lemma_command_round_trip(c: CommandModel)
    requires
        cmd_encodable(c),
    ensures
        spec_decode_command(spec_encode_command(c)) == Some(c),
{
    let b = spec_encode_command(c);
    match c {
        CommandModel::SetTemperature { kelvin, gamma_millis, outputs } => {
            assert(b[0] == 0);
            assert(b.skip(1) =~= spec_u32_to_le_bytes(kelvin) + (spec_u32_to_le_bytes(gamma_millis)
                + (spec_encode_names(outputs) + Seq::empty())));
            lemma_parse_u32_round(kelvin, spec_u32_to_le_bytes(gamma_millis) + (spec_encode_names(
                outputs,
            ) + Seq::empty()));
            lemma_parse_u32_round(gamma_millis, spec_encode_names(outputs) + Seq::empty());
            lemma_parse_names_round(outputs, Seq::empty());
        },
        CommandModel::GetTemperature { outputs } => {
            assert(b[0] == 1);
            assert(b.skip(1) =~= spec_encode_names(outputs) + Seq::empty());
            lemma_parse_names_round(outputs, Seq::empty());
        },
        CommandModel::Kill => {
            assert(b[0] == 2);
            assert(b.skip(1).len() == 0);
        },
    }
}

/// Round trip of the response encoding: a response that fits the wire
/// format decodes back to itself.
pub proof fn lemma_response_round_trip(r: ResponseModel)
    requires
        resp_encodable(r),
    ensures
        spec_decode_response(spec_encode_response(r)) == Some(r),
{
    let b = spec_encode_response(r);
    match r {
        ResponseModel::Temperature { temperatures } => {
            assert(b[0] == 0);
            assert(b.skip(1) =~= spec_u32_to_le_bytes(temperatures.len() as u32)
                + (spec_encode_entries(temperatures) + Seq::empty()));
            lemma_parse_u32_round(
                temperatures.len() as u32,
                spec_encode_entries(temperatures) + Seq::empty(),
            );
            lemma_parse_entries_round(temperatures, Seq::empty());
        },
        ResponseModel::Success => {
            assert(b[0] == 1);
            assert(b.skip(1).len() == 0);
        },
        ResponseModel::Failure { message } => {
            assert(b[0] == 2);
            assert(b.skip(1) =~= spec_encode_str(message) + Seq::empty());
            lemma_parse_str_round(message, Seq::empty());
        },
    }
}

/// Read a 4-byte little-endian integer at `pos`.
fn read_u32_at(b: &Vec<u8>, pos: usize) -> (r: Option<(u32, usize)>)
    requires
        pos <= b@.len(),
    ensures
        match r {
            Some(t) => {
                &&& parse_u32(b@.skip(pos as int)) == Some((t.0, b@.skip(t.1 as int)))
                &&& t.1 == pos + 4
                &&& t.1 <= b@.len()
            },
            None => parse_u32(b@.skip(pos as int)) is None,
        },
{
    if b.len() - pos < 4 {
        return None;
    }
    let s = slice_subrange(b.as_slice(), pos, pos + 4);
    let x = u32_from_le_bytes(s);
    proof {
        assert(s@ =~= b@.skip(pos as int).take(4));
        assert(b@.skip(pos as int).skip(4) =~= b@.skip(pos as int + 4));
    }
    Some((x, pos + 4))
}

/// Read one string at `pos`: its byte length, then that many bytes of
/// UTF-8.
fn read_string_at(b: &Vec<u8>, pos: usize) -> (r: Option<(String, usize)>)
    requires
        pos <= b@.len(),
    ensures
        match r {
            Some(t) => {
                &&& parse_str(b@.skip(pos as int)) == Some((t.0@, b@.skip(t.1 as int)))
                &&& pos <= t.1 <= b@.len()
            },
            None => parse_str(b@.skip(pos as int)) is None,
        },
{
    broadcast use encode_utf8_decode_utf8;

    match read_u32_at(b, pos) {
        None => None,
        Some((len, p1)) => {
            if b.len() - p1 < len as usize {
                assert(b@.skip(p1 as int).len() < len);
                return None;
            }
            let p2 = p1 + len as usize;
            let sb = slice_to_vec(slice_subrange(b.as_slice(), p1, p2));
            proof {
                assert(sb@ =~= b@.skip(p1 as int).take(len as int));
            }
            match string_from_utf8(sb) {
                None => None,
                Some(s) => {
                    proof {
                        assert(decode_utf8(encode_utf8(s@)) == s@);
                        assert(b@.skip(p1 as int).skip(len as int) =~= b@.skip(p2 as int));
                    }
                    Some((s, p2))
                },
            }
        },
    }
}

/// Read `count` strings at `pos`.
#[verifier::loop_isolation(false)]
fn read_strings_at(b: &Vec<u8>, pos: usize, count: u32) -> (r: Option<(Vec<String>, usize)>)
    requires
        pos <= b@.len(),
    ensures
        match r {
            Some(t) => {
                &&& parse_strs(b@.skip(pos as int), count as nat) == Some(
                    (t.0.deep_view(), b@.skip(t.1 as int)),
                )
                &&& pos <= t.1 <= b@.len()
            },
            None => parse_strs(b@.skip(pos as int), count as nat) is None,
        },
{
    let mut acc: Vec<String> = Vec::new();
    let mut cur: usize = pos;
    let mut k: u32 = 0;
    proof {
        assert(acc.deep_view() =~= Seq::<Seq<char>>::empty());
    }
    while k < count
        invariant
            pos <= cur <= b@.len(),
            0 <= k <= count,
            forall|rest_names: Seq<Seq<char>>, rest: Seq<u8>|
                (parse_strs(b@.skip(cur as int), (count - k) as nat) == Some((rest_names, rest))
                    ==> parse_strs(b@.skip(pos as int), count as nat) == Some(
                    (acc.deep_view() + rest_names, rest),
                )),
            (parse_strs(b@.skip(cur as int), (count - k) as nat) is None ==> parse_strs(
                b@.skip(pos as int),
                count as nat,
            ) is None),
        decreases count - k,
    {
        let ghost pre_acc = acc.deep_view();
        match read_string_at(b, cur) {
            None => {
                return None;
            },
            Some((s, np)) => {
                acc.push(s);
                proof {
                    assert(acc.deep_view() =~= pre_acc.push(s@));
                    assert forall|rn: Seq<Seq<char>>, rest: Seq<u8>|
                        parse_strs(b@.skip(np as int), (count - k - 1) as nat) == Some(
                            (rn, rest),
                        ) implies parse_strs(b@.skip(pos as int), count as nat) == Some(
                        (acc.deep_view() + rn, rest),
                    ) by {
                        assert(parse_strs(b@.skip(cur as int), (count - k) as nat) == Some(
                            (seq![s@] + rn, rest),
                        ));
                        assert(pre_acc + (seq![s@] + rn) =~= acc.deep_view() + rn);
                    }
                }
                cur = np;
                k = k + 1;
            },
        }
    }
    proof {
        assert(parse_strs(b@.skip(cur as int), 0) == Some::<(Seq<Seq<char>>, Seq<u8>)>(
            (Seq::empty(), b@.skip(cur as int)),
        ));
        assert(acc.deep_view() + Seq::<Seq<char>>::empty() =~= acc.deep_view());
    }
    Some((acc, cur))
}

/// Read a name list at `pos`: a count, then that many strings.
fn read_names_at(b: &Vec<u8>, pos: usize) -> (r: Option<(Vec<String>, usize)>)
    requires
        pos <= b@.len(),
    ensures
        match r {
            Some(t) => {
                &&& parse_names(b@.skip(pos as int)) == Some((t.0.deep_view(), b@.skip(t.1 as int)))
                &&& pos <= t.1 <= b@.len()
            },
            None => parse_names(b@.skip(pos as int)) is None,
        },
{
    match read_u32_at(b, pos) {
        None => None,
        Some((count, p1)) => read_strings_at(b, p1, count),
    }
}

/// Decode one command from a whole message body. Fails exactly when
/// the bytes are not one well-formed command and nothing more.
pub fn decode_command(b: &Vec<u8>) -> (r: Option<IpcCommand>)
    ensures
        match r {
            Some(c) => spec_decode_command(b@) == Some(c@),
            None => spec_decode_command(b@) is None,
        },
{
    if b.len() == 0 {
        return None;
    }
    let tag = b[0];
    proof {
        assert(b@.skip(0).skip(1) =~= b@.skip(1));
    }
    if tag == 0 {
        match read_u32_at(b, 1) {
            None => None,
            Some((kelvin, p1)) => match read_u32_at(b, p1) {
                None => None,
                Some((gamma_millis, p2)) => match read_names_at(b, p2) {
                    None => None,
                    Some((outputs, p3)) => {
                        if p3 == b.len() {
                            assert(b@.skip(p3 as int).len() == 0);
                            Some(IpcCommand::SetTemperature { kelvin, gamma_millis, outputs })
                        } else {
                            assert(b@.skip(p3 as int).len() > 0);
                            None
                        }
                    },
                },
            },
        }
    } else if tag == 1 {
        match read_names_at(b, 1) {
            None => None,
            Some((outputs, p1)) => {
                if p1 == b.len() {
                    assert(b@.skip(p1 as int).len() == 0);
                    Some(IpcCommand::GetTemperature { outputs })
                } else {
                    assert(b@.skip(p1 as int).len() > 0);
                    None
                }
            },
        }
    } else if tag == 2 {
        if b.len() == 1 {
            Some(IpcCommand::Kill {  })
        } else {
            None
        }
    } else {
        None
    }
}

/// Read one temperature-report entry at `pos`.
fn read_entry_at(b: &Vec<u8>, pos: usize) -> (r: Option<((String, u32, u32), usize)>)
    requires
        pos <= b@.len(),
    ensures
        match r {
            Some(t) => {
                &&& parse_entry(b@.skip(pos as int)) == Some(
                    (t.0.deep_view(), b@.skip(t.1 as int)),
                )
                &&& pos <= t.1 <= b@.len()
            },
            None => parse_entry(b@.skip(pos as int)) is None,
        },
{
    match read_string_at(b, pos) {
        None => None,
        Some((name, p1)) => match read_u32_at(b, p1) {
            None => None,
            Some((kelvin, p2)) => match read_u32_at(b, p2) {
                None => None,
                Some((gm, p3)) => Some(((name, kelvin, gm), p3)),
            },
        },
    }
}

/// Read `count` temperature-report entries at `pos`.
#[verifier::loop_isolation(false)]
fn read_entries_at(b: &Vec<u8>, pos: usize, count: u32) -> (r: Option<
    (Vec<(String, u32, u32)>, usize),
>)
    requires
        pos <= b@.len(),
    ensures
        match r {
            Some(t) => {
                &&& parse_entries(b@.skip(pos as int), count as nat) == Some(
                    (t.0.deep_view(), b@.skip(t.1 as int)),
                )
                &&& pos <= t.1 <= b@.len()
            },
            None => parse_entries(b@.skip(pos as int), count as nat) is None,
        },
{
    let mut acc: Vec<(String, u32, u32)> = Vec::new();
    let mut cur: usize = pos;
    let mut k: u32 = 0;
    proof {
        assert(acc.deep_view() =~= Seq::<(Seq<char>, u32, u32)>::empty());
    }
    while k < count
        invariant
            pos <= cur <= b@.len(),
            0 <= k <= count,
            forall|rn: Seq<(Seq<char>, u32, u32)>, rest: Seq<u8>|
                (parse_entries(b@.skip(cur as int), (count - k) as nat) == Some((rn, rest))
                    ==> parse_entries(b@.skip(pos as int), count as nat) == Some(
                    (acc.deep_view() + rn, rest),
                )),
            (parse_entries(b@.skip(cur as int), (count - k) as nat) is None ==> parse_entries(
                b@.skip(pos as int),
                count as nat,
            ) is None),
        decreases count - k,
    {
        let ghost pre_acc = acc.deep_view();
        match read_entry_at(b, cur) {
            None => {
                return None;
            },
            Some((e, np)) => {
                let ghost ev = e.deep_view();
                acc.push(e);
                proof {
                    assert(acc.deep_view() =~= pre_acc.push(ev));
                    assert forall|rn: Seq<(Seq<char>, u32, u32)>, rest: Seq<u8>|
                        parse_entries(b@.skip(np as int), (count - k - 1) as nat) == Some(
                            (rn, rest),
                        ) implies parse_entries(b@.skip(pos as int), count as nat) == Some(
                        (acc.deep_view() + rn, rest),
                    ) by {
                        assert(parse_entries(b@.skip(cur as int), (count - k) as nat) == Some(
                            (seq![ev] + rn, rest),
                        ));
                        assert(pre_acc + (seq![ev] + rn) =~= acc.deep_view() + rn);
                    }
                }
                cur = np;
                k = k + 1;
            },
        }
    }
    proof {
        assert(parse_entries(b@.skip(cur as int), 0) == Some::<(Seq<(Seq<char>, u32, u32)>, Seq<u8>)>(
            (Seq::empty(), b@.skip(cur as int)),
        ));
        assert(acc.deep_view() + Seq::<(Seq<char>, u32, u32)>::empty() =~= acc.deep_view());
    }
    Some((acc, cur))
}

/// Decode one response from a whole message body. Fails exactly when
/// the bytes are not one well-formed response and nothing more.
pub fn decode_response(b: &Vec<u8>) -> (r: Option<IpcResponse>)
    ensures
        match r {
            Some(resp) => spec_decode_response(b@) == Some(resp@),
            None => spec_decode_response(b@) is None,
        },
{
    if b.len() == 0 {
        return None;
    }
    let tag = b[0];
    proof {
        assert(b@.skip(0).skip(1) =~= b@.skip(1));
    }
    if tag == 0 {
        match read_u32_at(b, 1) {
            None => None,
            Some((count, p1)) => match read_entries_at(b, p1, count) {
                None => None,
                Some((temperatures, p2)) => {
                    if p2 == b.len() {
                        assert(b@.skip(p2 as int).len() == 0);
                        Some(IpcResponse::Temperature { temperatures })
                    } else {
                        assert(b@.skip(p2 as int).len() > 0);
                        None
                    }
                },
            },
        }
    } else if tag == 1 {
        if b.len() == 1 {
            Some(IpcResponse::Success)
        } else {
            None
        }
    } else if tag == 2 {
        match read_string_at(b, 1) {
            None => None,
            Some((message, p1)) => {
                if p1 == b.len() {
                    assert(b@.skip(p1 as int).len() == 0);
                    Some(IpcResponse::Failure { message })
                } else {
                    assert(b@.skip(p1 as int).len() > 0);
                    None
                }
            },
        }
    } else {
        None
    }
}

/// The 4-byte big-endian form of a frame length.
pub open spec fn spec_be32(x: u32) -> Seq<u8> {
    seq![
        ((x >> 24) & 0xff) as u8,
        ((x >> 16) & 0xff) as u8,
        ((x >> 8) & 0xff) as u8,
        (x & 0xff) as u8,
    ]
}

/// The frame length held by a 4-byte big-endian prefix.
pub open spec fn be32_value(b: Seq<u8>) -> u32
    recommends
        b.len() == 4,
{
    (b[0] as u32) << 24 | (b[1] as u32) << 16 | (b[2] as u32) << 8 | (b[3] as u32)
}

pub proof fn lemma_be32_round(x: u32)
    ensures
        spec_be32(x).len() == 4,
        be32_value(spec_be32(x)) == x,
{
    let b0 = ((x >> 24) & 0xff) as u8;
    let b1 = ((x >> 16) & 0xff) as u8;
    let b2 = ((x >> 8) & 0xff) as u8;
    let b3 = (x & 0xff) as u8;
    assert((b0 as u32) << 24 | (b1 as u32) << 16 | (b2 as u32) << 8 | (b3 as u32) == x)
        by (bit_vector)
        requires
            b0 == ((x >> 24) & 0xff) as u8,
            b1 == ((x >> 16) & 0xff) as u8,
            b2 == ((x >> 8) & 0xff) as u8,
            b3 == (x & 0xff) as u8,
    ;
}

/// The wire form of a whole message: a 4-byte big-endian length
/// prefix, then the payload it counts.
pub open spec fn spec_frame(payload: Seq<u8>) -> Seq<u8> {
    spec_be32(payload.len() as u32) + payload
}

/// Frame a message body for the wire. Fails exactly when the body is
/// too long for the 4-byte length prefix.
pub fn frame_message(payload: Vec<u8>) -> (r: Option<Vec<u8>>)
    ensures
        payload@.len() <= u32::MAX ==> (r matches Some(v) && v@ == spec_frame(payload@)),
        payload@.len() > u32::MAX ==> r is None,
{
    if payload.len() as u64 > u32::MAX as u64 {
        return None;
    }
    let len = payload.len() as u32;
    let mut out: Vec<u8> = Vec::new();
    out.push(((len >> 24) & 0xff) as u8);
    out.push(((len >> 16) & 0xff) as u8);
    out.push(((len >> 8) & 0xff) as u8);
    out.push((len & 0xff) as u8);
    let mut p = payload;
    let ghost pv = p@;
    out.append(&mut p);
    proof {
        assert(out@ =~= spec_frame(pv));
    }
    Some(out)
}

/// The length a 4-byte frame header announces.
pub fn frame_length(header: &Vec<u8>) -> (r: u32)
    requires
        header@.len() == 4,
    ensures
        r == be32_value(header@),
{
    (header[0] as u32) << 24u32 | (header[1] as u32) << 16u32 | (header[2] as u32) << 8u32 | (
    header[3] as u32)
}

/// Framing round trip: framing an encoded command and reading the
/// frame back yields the payload's length and the payload, and the
/// payload decodes back to the original command.
pub proof fn lemma_framed_command_round_trip(c: CommandModel)
    requires
        cmd_encodable(c),
        spec_encode_command(c).len() <= u32::MAX,
    ensures
        ({
            let payload = spec_encode_command(c);
            let framed = spec_frame(payload);
            &&& framed.len() == payload.len() + 4
            &&& be32_value(framed.take(4)) == payload.len()
            &&& framed.skip(4) == payload
            &&& spec_decode_command(framed.skip(4)) == Some(c)
        }),
{
    let payload = spec_encode_command(c);
    let framed = spec_frame(payload);
    lemma_be32_round(payload.len() as u32);
    assert(framed.take(4) =~= spec_be32(payload.len() as u32));
    assert(framed.skip(4) =~= payload);
    lemma_command_round_trip(c);
}

/// Framing round trip for responses, stated as for commands.
pub proof fn lemma_framed_response_round_trip(r: ResponseModel)
    requires
        resp_encodable(r),
        spec_encode_response(r).len() <= u32::MAX,
    ensures
        ({
            let payload = spec_encode_response(r);
            let framed = spec_frame(payload);
            &&& framed.len() == payload.len() + 4
            &&& be32_value(framed.take(4)) == payload.len()
            &&& framed.skip(4) == payload
            &&& spec_decode_response(framed.skip(4)) == Some(r)
        }),
{
    let payload = spec_encode_response(r);
    let framed = spec_frame(payload);
    lemma_be32_round(payload.len() as u32);
    assert(framed.take(4) =~= spec_be32(payload.len() as u32));
    assert(framed.skip(4) =~= payload);
    lemma_response_round_trip(r);
}

} // verus!
