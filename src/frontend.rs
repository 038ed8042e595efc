//! Client-to-server messages: their model, the incremental decoder with its
//! startup phase, and the encoder.

use vstd::prelude::*;
use crate::wire::{
    be_u32, concat_map, copy_range, cstr_bytes, get_cstr, get_u32, lemma_concat_map_push,
    lemma_cstr_round_trip, lemma_parse_cstr_inv, lemma_parse_u32_inv, lemma_prepend_empty, lemma_prepend_step, lemma_u32_round_trip, no_nul,
    parse_cstr, parse_u32, prepend, put_cstr, put_sized, put_slice, put_u32, put_u8, sized_bytes,
    u32_bytes, CodecError, NULL_LENGTH,
};

verus! {

/// Identifier bytes of the messages that this codec models.
pub const ID_EXECUTE: u8 = 69;
pub const ID_FLUSH: u8 = 72;
pub const ID_QUERY: u8 = 81;
pub const ID_SASL: u8 = 112;
pub const ID_SYNC: u8 = 83;
pub const ID_TERMINATE: u8 = 88;

/// Protocol version 3.0, as a startup frame carries it.
pub const PROTOCOL_VERSION: u32 = 196608;
/// The code that a startup-phase frame carries to ask for TLS.
pub const SSL_REQUEST_CODE: u32 = 80877103;
/// Length and code of a startup-phase frame.
pub const STARTUP_HEADER: usize = 8;

/// One `name=value` pair of a `StartupMessage`.
#[derive(Clone, Debug, PartialEq, Eq)]
pub struct Parameter {
    pub name: Vec<u8>,
    pub value: Vec<u8>,
}

/// A startup parameter over mathematical byte strings.
pub struct ParameterModel {
    pub name: Seq<u8>,
    pub value: Seq<u8>,
}

impl View for Parameter {
    type V = ParameterModel;

    open spec fn view(&self) -> ParameterModel {
        ParameterModel { name: self.name@, value: self.value@ }
    }
}

/// A message sent by the client. `NotImplemented` carries a whole frame of
/// a kind this codec does not model.
#[derive(Clone, Debug, PartialEq, Eq)]
pub enum Message {
    NotImplemented(Vec<u8>),
    Execute { portal: Vec<u8>, max_rows: u32 },
    Flush(),
    Query(Vec<u8>),
    SASLInitialResponse { mecanism: Vec<u8>, response: Vec<u8> },
    SASLResponse(Vec<u8>),
    SSLRequest(),
    StartupMessage { frame_length: usize, parameters: Vec<Parameter> },
    Sync(),
    Terminate(),
}

/// A client message over mathematical values.
pub enum FrontendModel {
    NotImplemented(Seq<u8>),
    Execute { portal: Seq<u8>, max_rows: u32 },
    Flush,
    Query(Seq<u8>),
    SASLInitialResponse { mecanism: Seq<u8>, response: Seq<u8> },
    SASLResponse(Seq<u8>),
    SSLRequest,
    StartupMessage { frame_length: usize, parameters: Seq<ParameterModel> },
    Sync,
    Terminate,
}

/// The parameters of a startup message over mathematical byte strings.
pub open spec fn params_view(ps: Seq<Parameter>) -> Seq<ParameterModel> {
    ps.map_values(|p: Parameter| p@)
}

impl View for Message {
    type V = FrontendModel;

    open spec fn view(&self) -> FrontendModel {
        match self {
            Message::NotImplemented(b) => FrontendModel::NotImplemented(b@),
            Message::Execute { portal, max_rows } => FrontendModel::Execute {
                portal: portal@,
                max_rows: *max_rows,
            },
            Message::Flush() => FrontendModel::Flush,
            Message::Query(q) => FrontendModel::Query(q@),
            Message::SASLInitialResponse { mecanism, response } =>
                FrontendModel::SASLInitialResponse {
                mecanism: mecanism@,
                response: response@,
            },
            Message::SASLResponse(r) => FrontendModel::SASLResponse(r@),
            Message::SSLRequest() => FrontendModel::SSLRequest,
            Message::StartupMessage { frame_length, parameters } =>
                FrontendModel::StartupMessage {
                frame_length: *frame_length,
                parameters: params_view(parameters@),
            },
            Message::Sync() => FrontendModel::Sync,
            Message::Terminate() => FrontendModel::Terminate,
        }
    }
}

// ---------------------------------------------------------------------------
// Decoding, as functions on byte sequences.

/// The name of the one parameter that a startup message must carry.
pub open spec fn user_name() -> Seq<u8> {
    seq![117u8, 115u8, 101u8, 114u8]
}

pub open spec fn has_user(ps: Seq<ParameterModel>) -> bool {
    exists|i: int| 0 <= i < ps.len() && (#[trigger] ps[i]).name == user_name()
}

/// The parameter area: `name\0value\0` pairs up to one closing null byte,
/// which must be the area's last byte.
pub open spec fn parse_params(s: Seq<u8>) -> Result<(Seq<ParameterModel>, Seq<u8>), CodecError>
    decreases s.len(),
{
    if s.len() == 0 {
        Err(CodecError::InvalidInput)
    } else if s[0] == 0 {
        if s.len() == 1 {
            Ok((Seq::empty(), Seq::empty()))
        } else {
            Err(CodecError::InvalidInput)
        }
    } else {
        match parse_cstr(s) {
            None => Err(CodecError::InvalidData),
            Some((name, r)) => match parse_cstr(r) {
                None => Err(CodecError::InvalidData),
                Some((value, r2)) => if r2.len() < s.len() {
                    match parse_params(r2) {
                        Err(e) => Err(e),
                        Ok((ps, r3)) => Ok(
                            (seq![ParameterModel { name, value }] + ps, r3),
                        ),
                    }
                } else {
                    Err(CodecError::InvalidData)
                },
            },
        }
    }
}

/// The `SASLInitialResponse` reading of a `'p'` payload, when it has one: a
/// mechanism, then a length that is the NULL value or covers the rest.
pub open spec fn parse_sasl(p: Seq<u8>) -> Result<(FrontendModel, Seq<u8>), CodecError> {
    match parse_cstr(p) {
        Some((mech, r)) => match parse_u32(r) {
            Some((n, r2)) => if n == NULL_LENGTH {
                Ok((FrontendModel::SASLInitialResponse { mecanism: mech, response: Seq::empty() }, r2))
            } else if n == r2.len() {
                Ok((FrontendModel::SASLInitialResponse { mecanism: mech, response: r2 }, Seq::empty()))
            } else {
                sasl_response(p)
            },
            None => sasl_response(p),
        },
        None => sasl_response(p),
    }
}

/// The `SASLResponse` reading of a `'p'` payload: all of it, which must not
/// be empty.
pub open spec fn sasl_response(p: Seq<u8>) -> Result<(FrontendModel, Seq<u8>), CodecError> {
    if p.len() == 0 {
        Err(CodecError::InvalidInput)
    } else {
        Ok((FrontendModel::SASLResponse(p), Seq::empty()))
    }
}

/// The message that a frame's payload `p` holds, and what the payload has left.
pub open spec fn parse_payload(id: u8, p: Seq<u8>, frame: Seq<u8>) -> Result<
    (FrontendModel, Seq<u8>),
    CodecError,
> {
    if id == ID_EXECUTE {
        match parse_cstr(p) {
            None => Err(CodecError::InvalidData),
            Some((portal, r)) => match parse_u32(r) {
                None => Err(CodecError::UnexpectedEof),
                Some((n, r2)) => Ok((FrontendModel::Execute { portal, max_rows: n }, r2)),
            },
        }
    } else if id == ID_FLUSH {
        Ok((FrontendModel::Flush, p))
    } else if id == ID_QUERY {
        match parse_cstr(p) {
            None => Err(CodecError::InvalidData),
            Some((q, r)) => Ok((FrontendModel::Query(q), r)),
        }
    } else if id == ID_SASL {
        parse_sasl(p)
    } else if id == ID_SYNC {
        Ok((FrontendModel::Sync, p))
    } else if id == ID_TERMINATE {
        Ok((FrontendModel::Terminate, p))
    } else {
        Ok((FrontendModel::NotImplemented(frame), Seq::empty()))
    }
}

/// The message of one whole regular frame (header included); bytes left
/// over in the frame are an error.
pub open spec fn parse_frame(frame: Seq<u8>) -> Result<FrontendModel, CodecError> {
    if frame.len() < 5 {
        Err(CodecError::InvalidInput)
    } else {
        match parse_payload(frame[0], frame.skip(5), frame) {
            Err(e) => Err(e),
            Ok((m, r)) => if r.len() == 0 {
                Ok(m)
            } else {
                Err(CodecError::InvalidInput)
            },
        }
    }
}


// ---------------------------------------------------------------------------
// Encoding, as functions on byte sequences.

/// A parameter pair as written on the wire.
pub open spec fn param_bytes(p: ParameterModel) -> Seq<u8> {
    cstr_bytes(p.name) + cstr_bytes(p.value)
}

/// Parameter pairs as written on the wire, one after another.
pub open spec fn params_bytes(ps: Seq<ParameterModel>) -> Seq<u8> {
    concat_map(ps, |p: ParameterModel| param_bytes(p))
}

/// A startup frame: the given length, the protocol version, the pairs and
/// the closing null byte.
pub open spec fn startup_bytes(n: usize, ps: Seq<ParameterModel>) -> Seq<u8> {
    u32_bytes(n as u32) + u32_bytes(PROTOCOL_VERSION) + params_bytes(ps) + seq![0u8]
}

/// The startup-phase frame that asks for TLS.
pub open spec fn ssl_request_bytes() -> Seq<u8> {
    u32_bytes(8) + u32_bytes(SSL_REQUEST_CODE)
}

/// The identifier byte of a regular-phase message.
pub open spec fn message_id(m: FrontendModel) -> u8 {
    match m {
        FrontendModel::Execute { .. } => ID_EXECUTE,
        FrontendModel::Flush => ID_FLUSH,
        FrontendModel::Query(_) => ID_QUERY,
        FrontendModel::SASLInitialResponse { .. } => ID_SASL,
        FrontendModel::SASLResponse(_) => ID_SASL,
        FrontendModel::Sync => ID_SYNC,
        FrontendModel::Terminate => ID_TERMINATE,
        _ => 0,
    }
}

/// The payload of a regular-phase message: what follows the identifier and
/// the length.
pub open spec fn payload_bytes(m: FrontendModel) -> Seq<u8> {
    match m {
        FrontendModel::Execute { portal, max_rows } => cstr_bytes(portal) + u32_bytes(max_rows),
        FrontendModel::Query(q) => cstr_bytes(q),
        FrontendModel::SASLInitialResponse { mecanism, response } => cstr_bytes(mecanism)
            + sized_bytes(Some(response)),
        FrontendModel::SASLResponse(r) => r,
        _ => Seq::empty(),
    }
}

/// A frame: identifier, length (which counts itself), payload.
pub open spec fn frame_bytes(id: u8, p: Seq<u8>) -> Seq<u8> {
    seq![id] + u32_bytes((p.len() + 4) as u32) + p
}

/// The bytes that the encoder writes for a message; the two startup-phase
/// messages have no identifier byte.
pub open spec fn encode_message(m: FrontendModel) -> Seq<u8> {
    match m {
        FrontendModel::NotImplemented(raw) => raw,
        FrontendModel::StartupMessage { frame_length, parameters } => startup_bytes(
            frame_length,
            parameters,
        ),
        FrontendModel::SSLRequest => ssl_request_bytes(),
        _ => frame_bytes(message_id(m), payload_bytes(m)),
    }
}

/// The message's lengths fit their wire fields.
pub open spec fn encodable(m: FrontendModel) -> bool {
    match m {
        FrontendModel::NotImplemented(_) => true,
        FrontendModel::SSLRequest => true,
        FrontendModel::StartupMessage { frame_length, .. } => frame_length <= 0xFFFF_FFFF,
        FrontendModel::SASLInitialResponse { response, .. } => response.len() < NULL_LENGTH
            && payload_bytes(m).len() + 4 <= 0xFFFF_FFFF,
        _ => payload_bytes(m).len() + 4 <= 0xFFFF_FFFF,
    }
}

/// An identifier that the decoder gives a message kind of its own.
pub open spec fn is_known_id(id: u8) -> bool {
    id == ID_EXECUTE || id == ID_FLUSH || id == ID_QUERY || id == ID_SASL || id == ID_SYNC || id
        == ID_TERMINATE
}

/// A message of the regular phase that the encoder writes and the decoder
/// reads back: C strings without null bytes, a `SASLResponse` that does not
/// read as an initial response, and, for a passed-through frame, a frame of
/// an unmodelled kind whose length field matches its size.
pub open spec fn supported(m: FrontendModel) -> bool {
    &&& encodable(m)
    &&& match m {
        FrontendModel::NotImplemented(raw) => raw.len() >= 5 && !is_known_id(raw[0])
            && length_field(raw) as int + 1 == raw.len(),
        FrontendModel::Execute { portal, .. } => no_nul(portal),
        FrontendModel::Query(q) => no_nul(q),
        FrontendModel::SASLInitialResponse { mecanism, .. } => no_nul(mecanism),
        FrontendModel::SASLResponse(r) => parse_sasl(r) == Ok::<_, CodecError>(
            (FrontendModel::SASLResponse(r), Seq::<u8>::empty()),
        ),
        FrontendModel::StartupMessage { .. } => false,
        FrontendModel::SSLRequest => false,
        _ => true,
    }
}

/// Parameters that a client may send at startup: non-empty names, no null
/// bytes, and a `user` among them.
pub open spec fn valid_params(ps: Seq<ParameterModel>) -> bool {
    &&& forall|i: int|
        0 <= i < ps.len() ==> (#[trigger] ps[i]).name.len() > 0 && no_nul(ps[i].name) && no_nul(
            ps[i].value,
        )
    &&& has_user(ps)
}

/// The length of the startup frame that carries `ps`.
pub open spec fn startup_length(ps: Seq<ParameterModel>) -> int {
    STARTUP_HEADER + params_bytes(ps).len() + 1
}

/// Where the decoder stands: in the startup phase, before a header, or
/// inside a frame whose length, header included, is held here.
#[derive(Clone, Copy, Debug, PartialEq, Eq, Structural)]
pub enum DecodeState {
    Startup,
    Head,
    Message(u64),
}

/// The length field of the regular header that starts `buf`.
pub open spec fn length_field(buf: Seq<u8>) -> u32 {
    be_u32(buf.skip(1))
}

/// The length of the whole frame whose header starts `buf`: the length
/// field and the identifier byte.
pub open spec fn frame_length(buf: Seq<u8>) -> u64 {
    (length_field(buf) + 1) as u64
}

/// One call of the decoder in the startup phase: a frame that starts with
/// its 4-byte length (which counts itself) and a 4-byte code.
pub open spec fn decode_startup(buf: Seq<u8>) -> (
    DecodeState,
    Result<Option<FrontendModel>, CodecError>,
    Seq<u8>,
) {
    if buf.len() < STARTUP_HEADER {
        (DecodeState::Startup, Ok(None), buf)
    } else if (be_u32(buf) as int) < STARTUP_HEADER {
        (DecodeState::Startup, Err(CodecError::InvalidInput), buf)
    } else if buf.len() < be_u32(buf) {
        (DecodeState::Startup, Ok(None), buf)
    } else {
        let n = be_u32(buf) as int;
        let frame = buf.take(n);
        let rest = buf.skip(n);
        let code = be_u32(frame.skip(4));
        if code == PROTOCOL_VERSION {
            match parse_params(frame.skip(8)) {
                Ok((ps, _)) => if has_user(ps) {
                    (
                        DecodeState::Head,
                        Ok(Some(FrontendModel::StartupMessage { frame_length: n as usize, parameters: ps })),
                        rest,
                    )
                } else {
                    (DecodeState::Startup, Err(CodecError::InvalidInput), rest)
                },
                Err(e) => (DecodeState::Startup, Err(e), rest),
            }
        } else if code == SSL_REQUEST_CODE {
            (DecodeState::Startup, Ok(Some(FrontendModel::SSLRequest)), rest)
        } else {
            (DecodeState::Startup, Err(CodecError::InvalidInput), rest)
        }
    }
}

/// One call of the decoder on `buf` from state `st`: the next state, the
/// outcome (`Ok(None)`: more bytes are needed), and the bytes left.
pub open spec fn decode_step(st: DecodeState, buf: Seq<u8>) -> (
    DecodeState,
    Result<Option<FrontendModel>, CodecError>,
    Seq<u8>,
) {
    match st {
        DecodeState::Startup => decode_startup(buf),
        DecodeState::Head => if buf.len() < 5 {
            (DecodeState::Head, Ok(None), buf)
        } else if length_field(buf) < 4 {
            (DecodeState::Head, Err(CodecError::InvalidInput), buf)
        } else {
            decode_body(frame_length(buf), buf)
        },
        DecodeState::Message(n) => decode_body(n, buf),
    }
}

/// The body of a frame of `n` bytes, header included.
pub open spec fn decode_body(n: u64, buf: Seq<u8>) -> (
    DecodeState,
    Result<Option<FrontendModel>, CodecError>,
    Seq<u8>,
) {
    if buf.len() < n {
        (DecodeState::Message(n), Ok(None), buf)
    } else {
        match parse_frame(buf.take(n as int)) {
            Ok(m) => (DecodeState::Head, Ok(Some(m)), buf.skip(n as int)),
            Err(e) => (DecodeState::Head, Err(e), buf.skip(n as int)),
        }
    }
}

/// The outcome of a decoder call over mathematical values.
pub open spec fn outcome_view(r: Result<Option<Message>, CodecError>) -> Result<
    Option<FrontendModel>,
    CodecError,
> {
    match r {
        Ok(Some(m)) => Ok(Some(m@)),
        Ok(None) => Ok(None),
        Err(e) => Err(e),
    }
}

// ---------------------------------------------------------------------------
// Laws of the codec.

proof fn lemma_payload_round_trip(m: FrontendModel, frame: Seq<u8>)
    requires
        supported(m),
        !(m is NotImplemented),
    ensures
        parse_payload(message_id(m), payload_bytes(m), frame) == Ok::<_, CodecError>(
            (m, Seq::<u8>::empty()),
        ),
{
    let e = Seq::<u8>::empty();
    let p = payload_bytes(m);
    match m {
        FrontendModel::Execute { portal, max_rows } => {
            assert(p =~= cstr_bytes(portal) + (u32_bytes(max_rows) + e));
            lemma_cstr_round_trip(portal, u32_bytes(max_rows) + e);
            lemma_u32_round_trip(max_rows, e);
        },
        FrontendModel::Query(q) => {
            assert(p =~= cstr_bytes(q) + e);
            lemma_cstr_round_trip(q, e);
        },
        FrontendModel::SASLInitialResponse { mecanism, response } => {
            let n = response.len() as u32;
            assert(p =~= cstr_bytes(mecanism) + (u32_bytes(n) + response));
            lemma_cstr_round_trip(mecanism, u32_bytes(n) + response);
            lemma_u32_round_trip(n, response);
        },
        _ => {},
    }
}

proof fn lemma_frame_round_trip(m: FrontendModel)
    requires
        supported(m),
    ensures
        parse_frame(encode_message(m)) == Ok::<_, CodecError>(m),
        encode_message(m).len() >= 5,
        length_field(encode_message(m)) as int + 1 == encode_message(m).len(),
{
    let f = encode_message(m);
    if let FrontendModel::NotImplemented(raw) = m {
    } else {
        let p = payload_bytes(m);
        let n = (p.len() + 4) as u32;
        assert(f[0] == message_id(m));
        assert(f.skip(5) =~= p);
        lemma_payload_round_trip(m, f);
        assert(f.skip(1) =~= u32_bytes(n) + p);
        lemma_u32_round_trip(n, p);
    }
}

proof fn lemma_length_field_prefix(e: Seq<u8>, more: Seq<u8>)
    requires
        e.len() >= 5,
    ensures
        length_field(e + more) == length_field(e),
{
    let a = (e + more).skip(1);
    let b = e.skip(1);
    assert(a[0] == b[0] && a[1] == b[1] && a[2] == b[2] && a[3] == b[3]);
}

/// After the startup phase, decoding what the encoder wrote for a supported
/// message gives that message back and leaves whatever followed it.
pub proof fn lemma_decode_encode(m: FrontendModel, rest: Seq<u8>)
    requires
        supported(m),
    ensures
        decode_step(DecodeState::Head, encode_message(m) + rest) == (
            DecodeState::Head,
            Ok::<_, CodecError>(Some(m)),
            rest,
        ),
{
    lemma_decoder_fed(m, 0, 0, rest);
}

/// A `'p'` payload that reads as a `SASLInitialResponse` whose length is the
/// NULL value: the one regular frame that is not written back byte for byte,
/// since its empty response is written with length 0.
pub open spec fn null_sasl_length(p: Seq<u8>) -> bool {
    match parse_cstr(p) {
        Some((_, r)) => match parse_u32(r) {
            Some((n, _)) => n == NULL_LENGTH,
            None => false,
        },
        None => false,
    }
}

/// What a known identifier's payload reads as is a regular message that is
/// written back as that payload (but for a NULL SASL length, written back
/// with the same size), and a payload of another identifier is the whole
/// frame.
pub open spec fn payload_inv(id: u8, p: Seq<u8>, frame: Seq<u8>) -> bool {
    match parse_payload(id, p, frame) {
        Ok((m, r)) => if is_known_id(id) {
            &&& message_id(m) == id
            &&& !(m is NotImplemented) && !(m is StartupMessage) && !(m is SSLRequest)
            &&& (m is SASLInitialResponse ==> m->response.len() < NULL_LENGTH)
            &&& if id == ID_SASL && null_sasl_length(p) {
                r.len() == 0 ==> payload_bytes(m).len() == p.len()
            } else {
                p == payload_bytes(m) + r
            }
        } else {
            m == FrontendModel::NotImplemented(frame)
        },
        Err(_) => true,
    }
}

#[verifier::spinoff_prover]
proof fn lemma_payload_inv_sasl(p: Seq<u8>, frame: Seq<u8>)
    ensures
        payload_inv(ID_SASL, p, frame),
{
    let e = Seq::<u8>::empty();
    lemma_parse_cstr_inv(p);
    if let Some((mech, r)) = parse_cstr(p) {
        if r.len() >= 4 {
            lemma_parse_u32_inv(r);
            let n = be_u32(r);
            let r2 = r.skip(4);
            if n == NULL_LENGTH {
                let m = FrontendModel::SASLInitialResponse { mecanism: mech, response: e };
                assert(parse_payload(ID_SASL, p, frame) == Ok::<_, CodecError>((m, r2)));
                assert(payload_bytes(m) == cstr_bytes(mech) + sized_bytes(Some(e)));
            } else if n == r2.len() {
                let m = FrontendModel::SASLInitialResponse { mecanism: mech, response: r2 };
                assert(parse_payload(ID_SASL, p, frame) == Ok::<_, CodecError>((m, e)));
                assert(r2.len() as u32 == n);
                assert(p =~= payload_bytes(m) + e);
            } else {
                assert(p =~= p + e);
            }
        } else {
            assert(p =~= p + e);
        }
    } else {
        assert(p =~= p + e);
    }
}

#[verifier::spinoff_prover]
proof fn lemma_payload_inv(id: u8, p: Seq<u8>, frame: Seq<u8>)
    ensures
        payload_inv(id, p, frame),
{
    let e = Seq::<u8>::empty();
    if id == ID_SASL {
        lemma_payload_inv_sasl(p, frame);
    } else if id == ID_EXECUTE {
        lemma_parse_cstr_inv(p);
        if let Some((portal, r)) = parse_cstr(p) {
            if r.len() >= 4 {
                lemma_parse_u32_inv(r);
                let m = FrontendModel::Execute { portal, max_rows: be_u32(r) };
                assert(parse_payload(ID_EXECUTE, p, frame) == Ok::<_, CodecError>((m, r.skip(4))));
                assert(p =~= payload_bytes(m) + r.skip(4));
            }
        }
    } else if id == ID_QUERY {
        lemma_parse_cstr_inv(p);
    } else {
        assert(p =~= e + p);
    }
}

proof fn lemma_frame_inv_bytes(buf: Seq<u8>)
    requires
        buf.len() >= 5,
    ensures
        buf == seq![buf[0]] + u32_bytes(length_field(buf)) + buf.skip(5),
{
    lemma_parse_u32_inv(buf.skip(1));
    assert(buf.skip(1).skip(4) =~= buf.skip(5));
    assert(buf =~= seq![buf[0]] + buf.skip(1));
}

/// Passing a regular frame through is byte-exact: a message that the
/// decoder reads from a buffer after the startup phase is one that the
/// encoder writes, and writing it gives back exactly the bytes that it was
/// read from. The one exception is a `SASLInitialResponse` whose length is
/// the NULL value: its empty response is written with length 0, in a frame
/// of the same size.
pub proof fn lemma_encode_decode(buf: Seq<u8>)
    ensures
        match decode_step(DecodeState::Head, buf) {
            (_, Ok(Some(m)), rest) => encodable(m) && (
                (buf[0] == ID_SASL && null_sasl_length(buf.subrange(5, frame_length(buf) as int)))
                || encode_message(m) + rest == buf),
            _ => true,
        },
{
    if buf.len() >= 5 && length_field(buf) >= 4 && buf.len() > length_field(buf) {
        let n = length_field(buf);
        let f = buf.take(n + 1);
        let rest = buf.skip(n + 1);
        assert(buf =~= f + rest);
        lemma_length_field_prefix(f, rest);
        assert(f.skip(5) =~= buf.subrange(5, frame_length(buf) as int));
        lemma_payload_inv(f[0], f.skip(5), f);
        if let Ok(m) = parse_frame(f) {
            if is_known_id(f[0]) {
                lemma_frame_inv_bytes(f);
                if !(f[0] == ID_SASL && null_sasl_length(f.skip(5))) {
                    assert(payload_bytes(m) =~= f.skip(5));
                    assert(encode_message(m) =~= f);
                }
                assert(payload_bytes(m).len() == f.skip(5).len());
            }
        }
    }
}

/// The state of a decoder past the startup phase that has been fed the
/// first `k` bytes of frame `e` in any chunks, starting before a header.
pub open spec fn fed_state(e: Seq<u8>, k: int) -> DecodeState {
    if k < 5 {
        DecodeState::Head
    } else {
        DecodeState::Message(frame_length(e))
    }
}

/// Feeding the frame of a supported message in chunks of any size: while
/// part of it is missing the decoder consumes nothing and reports that it
/// needs more; once the whole frame is there, with anything after it, the
/// next call yields the message and leaves exactly what followed.
pub proof fn lemma_decoder_fed(m: FrontendModel, k: int, j: int, rest: Seq<u8>)
    requires
        supported(m),
        0 <= k <= j,
        k < encode_message(m).len(),
    ensures
        j < encode_message(m).len() ==> decode_step(
            fed_state(encode_message(m), k),
            encode_message(m).take(j),
        ) == (fed_state(encode_message(m), j), Ok::<_, CodecError>(None::<FrontendModel>), encode_message(m).take(j)),
        decode_step(fed_state(encode_message(m), k), encode_message(m) + rest) == (
            DecodeState::Head,
            Ok::<_, CodecError>(Some(m)),
            rest,
        ),
{
    let e = encode_message(m);
    lemma_frame_round_trip(m);
    let n = frame_length(e);
    lemma_length_field_prefix(e, rest);
    assert((e + rest).take(n as int) =~= e);
    assert((e + rest).skip(n as int) =~= rest);
    if j < e.len() && j >= 5 {
        let t = e.take(j);
        assert(e =~= t + e.skip(j));
        lemma_length_field_prefix(t, e.skip(j));
    }
}

#[verifier::spinoff_prover]
proof fn lemma_params_round_trip(ps: Seq<ParameterModel>)
    requires
        forall|i: int|
            0 <= i < ps.len() ==> (#[trigger] ps[i]).name.len() > 0 && no_nul(ps[i].name)
                && no_nul(ps[i].value),
    ensures
        parse_params(params_bytes(ps) + seq![0u8]) == Ok::<_, CodecError>((ps, Seq::<u8>::empty())),
    decreases ps.len(),
{
    let z = seq![0u8];
    if ps.len() == 0 {
        assert(params_bytes(ps) == Seq::<u8>::empty());
        assert(params_bytes(ps) + z =~= z);
        assert(ps =~= Seq::<ParameterModel>::empty());
    } else {
        let t = ps.skip(1);
        let p0 = ps[0];
        assert forall|i: int|
            0 <= i < t.len() implies (#[trigger] t[i]).name.len() > 0 && no_nul(t[i].name)
                && no_nul(t[i].value) by {
            assert(t[i] == ps[i + 1]);
        }
        lemma_params_round_trip(t);
        let mid = params_bytes(t) + z;
        let s = params_bytes(ps) + z;
        assert(params_bytes(ps) == param_bytes(p0) + params_bytes(t));
        assert(s =~= cstr_bytes(p0.name) + (cstr_bytes(p0.value) + mid));
        assert(s[0] == p0.name[0]);
        lemma_cstr_round_trip(p0.name, cstr_bytes(p0.value) + mid);
        lemma_cstr_round_trip(p0.value, mid);
        assert(seq![ParameterModel { name: p0.name, value: p0.value }] + t =~= ps);
    }
}

/// A well-formed startup message, that is the frame of valid parameters
/// with its own length, decodes in the startup phase to those parameters in
/// their order and ends the startup phase, leaving what followed it.
pub proof fn lemma_decode_startup(ps: Seq<ParameterModel>, rest: Seq<u8>)
    requires
        valid_params(ps),
        startup_length(ps) <= 0xFFFF_FFFF,
    ensures
        decode_step(
            DecodeState::Startup,
            startup_bytes(startup_length(ps) as usize, ps) + rest,
        ) == (
            DecodeState::Head,
            Ok::<_, CodecError>(
                Some(
                    FrontendModel::StartupMessage {
                        frame_length: startup_length(ps) as usize,
                        parameters: ps,
                    },
                ),
            ),
            rest,
        ),
{
    let n = startup_length(ps) as usize;
    let body = params_bytes(ps) + seq![0u8];
    let f = startup_bytes(n, ps);
    let buf = f + rest;
    assert(f =~= u32_bytes(n as u32) + (u32_bytes(PROTOCOL_VERSION) + body));
    assert(buf =~= u32_bytes(n as u32) + (u32_bytes(PROTOCOL_VERSION) + body + rest));
    lemma_u32_round_trip(n as u32, u32_bytes(PROTOCOL_VERSION) + body + rest);
    assert(buf.take(n as int) =~= f);
    assert(buf.skip(n as int) =~= rest);
    assert(f.skip(4) =~= u32_bytes(PROTOCOL_VERSION) + body);
    lemma_u32_round_trip(PROTOCOL_VERSION, body);
    assert(f.skip(8) =~= body);
    lemma_params_round_trip(ps);
}

/// A startup-phase buffer whose length field is under the 8 bytes of the
/// startup header is rejected, and nothing is consumed.
pub proof fn lemma_startup_short_length(buf: Seq<u8>)
    requires
        buf.len() >= STARTUP_HEADER,
        (be_u32(buf) as int) < STARTUP_HEADER,
    ensures
        decode_step(DecodeState::Startup, buf) == (
            DecodeState::Startup,
            Err::<Option<FrontendModel>, CodecError>(CodecError::InvalidInput),
            buf,
        ),
{
}

/// A regular buffer whose length field is under its own 4 bytes (a frame
/// shorter than the 5-byte header) is rejected, and nothing is consumed.
pub proof fn lemma_header_short_length(buf: Seq<u8>)
    requires
        buf.len() >= 5,
        length_field(buf) < 4,
    ensures
        decode_step(DecodeState::Head, buf) == (
            DecodeState::Head,
            Err::<Option<FrontendModel>, CodecError>(CodecError::InvalidInput),
            buf,
        ),
{
}

/// A decoder fed `input` one byte at a time, called once after each byte:
/// the messages it yields in order (or the first error), its state and what
/// its buffer holds at the end.
pub open spec fn feed_bytes(st: DecodeState, buf: Seq<u8>, input: Seq<u8>) -> (
    Result<Seq<FrontendModel>, CodecError>,
    DecodeState,
    Seq<u8>,
)
    decreases input.len(),
{
    if input.len() == 0 {
        (Ok(Seq::empty()), st, buf)
    } else {
        let (s1, r, b1) = decode_step(st, buf.push(input[0]));
        match r {
            Err(e) => (Err(e), s1, b1),
            Ok(None) => feed_bytes(s1, b1, input.skip(1)),
            Ok(Some(m)) => yield_first(m, feed_bytes(s1, b1, input.skip(1))),
        }
    }
}

pub open spec fn yield_first(
    m: FrontendModel,
    x: (Result<Seq<FrontendModel>, CodecError>, DecodeState, Seq<u8>),
) -> (Result<Seq<FrontendModel>, CodecError>, DecodeState, Seq<u8>) {
    match x.0 {
        Ok(ms) => (Ok(seq![m] + ms), x.1, x.2),
        Err(e) => x,
    }
}

/// The encodings of `ms`, one after another.
pub open spec fn encode_all(ms: Seq<FrontendModel>) -> Seq<u8> {
    concat_map(ms, |m: FrontendModel| encode_message(m))
}

proof fn lemma_feed_frame(m: FrontendModel, k: int, tail: Seq<u8>)
    requires
        supported(m),
        0 <= k < encode_message(m).len(),
    ensures
        feed_bytes(
            fed_state(encode_message(m), k),
            encode_message(m).take(k),
            encode_message(m).skip(k) + tail,
        ) == yield_first(m, feed_bytes(DecodeState::Head, Seq::empty(), tail)),
    decreases encode_message(m).len() - k,
{
    let e = encode_message(m);
    let input = e.skip(k) + tail;
    assert(input[0] == e[k]);
    assert(e.take(k).push(e[k]) =~= e.take(k + 1));
    assert(input.skip(1) =~= e.skip(k + 1) + tail);
    if k + 1 == e.len() {
        lemma_decoder_fed(m, k, k, Seq::empty());
        assert(e + Seq::<u8>::empty() =~= e);
        assert(e.take(k + 1) =~= e);
        assert(e.skip(k + 1) + tail =~= tail);
    } else {
        lemma_decoder_fed(m, k, k + 1, Seq::empty());
        lemma_feed_frame(m, k + 1, tail);
    }
}

/// A byte stream made of the encodings of supported messages, fed one byte
/// at a time to a decoder past the startup phase, yields exactly those messages in order
/// and leaves the decoder waiting for a header with an empty buffer.
pub proof fn lemma_byte_at_a_time(ms: Seq<FrontendModel>)
    requires
        forall|i: int| 0 <= i < ms.len() ==> supported(#[trigger] ms[i]),
    ensures
        feed_bytes(DecodeState::Head, Seq::empty(), encode_all(ms)) == (
            Ok::<_, CodecError>(ms),
            DecodeState::Head,
            Seq::<u8>::empty(),
        ),
    decreases ms.len(),
{
    if ms.len() == 0 {
        assert(encode_all(ms) == Seq::<u8>::empty());
        assert(ms =~= Seq::<FrontendModel>::empty());
    } else {
        let t = ms.skip(1);
        assert forall|i: int| 0 <= i < t.len() implies supported(#[trigger] t[i]) by {
            assert(t[i] == ms[i + 1]);
        }
        lemma_byte_at_a_time(t);
        let e = encode_message(ms[0]);
        assert(encode_all(ms) == e + encode_all(t));
        assert(supported(ms[0]));
        lemma_frame_round_trip(ms[0]);
        lemma_feed_frame(ms[0], 0, encode_all(t));
        assert(e.take(0) =~= Seq::<u8>::empty());
        assert(e.skip(0) =~= e);
        assert(seq![ms[0]] + t =~= ms);
    }
}

proof fn lemma_feed_startup(ps: Seq<ParameterModel>, k: int, tail: Seq<u8>)
    requires
        valid_params(ps),
        startup_length(ps) <= 0xFFFF_FFFF,
        0 <= k < startup_length(ps),
    ensures
        feed_bytes(
            DecodeState::Startup,
            startup_bytes(startup_length(ps) as usize, ps).take(k),
            startup_bytes(startup_length(ps) as usize, ps).skip(k) + tail,
        ) == yield_first(
            FrontendModel::StartupMessage {
                frame_length: startup_length(ps) as usize,
                parameters: ps,
            },
            feed_bytes(DecodeState::Head, Seq::empty(), tail),
        ),
    decreases startup_length(ps) - k,
{
    let n = startup_length(ps);
    let e = startup_bytes(n as usize, ps);
    let body = params_bytes(ps) + seq![0u8];
    assert(e =~= u32_bytes(n as u32) + (u32_bytes(PROTOCOL_VERSION) + body));
    lemma_u32_round_trip(n as u32, u32_bytes(PROTOCOL_VERSION) + body);
    assert(e.len() == n);
    let input = e.skip(k) + tail;
    assert(input[0] == e[k]);
    assert(e.take(k).push(e[k]) =~= e.take(k + 1));
    assert(input.skip(1) =~= e.skip(k + 1) + tail);
    if k + 1 == n {
        lemma_decode_startup(ps, Seq::empty());
        assert(e + Seq::<u8>::empty() =~= e);
        assert(e.take(k + 1) =~= e);
        assert(e.skip(k + 1) + tail =~= tail);
    } else {
        let t = e.take(k + 1);
        if t.len() >= STARTUP_HEADER {
            assert(t[0] == e[0] && t[1] == e[1] && t[2] == e[2] && t[3] == e[3]);
            assert(be_u32(t) == be_u32(e));
        }
        lemma_feed_startup(ps, k + 1, tail);
    }
}

/// A stream that starts with a well-formed startup message and goes on with
/// the encodings of supported regular messages, fed one byte at a time to a
/// fresh decoder, yields the startup message and then those messages in
/// order, and leaves the decoder waiting for a header with an empty buffer.
pub proof fn lemma_stream_from_startup(ps: Seq<ParameterModel>, ms: Seq<FrontendModel>)
    requires
        valid_params(ps),
        startup_length(ps) <= 0xFFFF_FFFF,
        forall|i: int| 0 <= i < ms.len() ==> supported(#[trigger] ms[i]),
    ensures
        feed_bytes(
            DecodeState::Startup,
            Seq::empty(),
            startup_bytes(startup_length(ps) as usize, ps) + encode_all(ms),
        ) == (
            Ok::<_, CodecError>(
                seq![
                    FrontendModel::StartupMessage {
                        frame_length: startup_length(ps) as usize,
                        parameters: ps,
                    },
                ] + ms,
            ),
            DecodeState::Head,
            Seq::<u8>::empty(),
        ),
{
    let e = startup_bytes(startup_length(ps) as usize, ps);
    lemma_byte_at_a_time(ms);
    lemma_feed_startup(ps, 0, encode_all(ms));
    assert(e.take(0) =~= Seq::<u8>::empty());
    assert(e.skip(0) =~= e);
}

// ---------------------------------------------------------------------------
// Decoding, executable.

/// Whether `name` is `user`.
fn is_user(name: &[u8]) -> (r: bool)
    ensures
        r == (name@ == user_name()),
{
    let r = name.len() == 4 && name[0] == 117 && name[1] == 115 && name[2] == 101 && name[3]
        == 114;
    assert(r ==> name@ =~= user_name());
    r
}

/// Reads the parameter area `s[pos..]` of a startup frame, and tells whether
/// a `user` parameter is among the pairs.
fn get_parameters(s: &[u8], pos: usize) -> (r: Result<(Vec<Parameter>, bool), CodecError>)
    requires
        pos <= s@.len(),
    ensures
        match r {
            Ok((ps, u)) => parse_params(s@.skip(pos as int)) == Ok::<_, CodecError>((params_view(ps@), Seq::<u8>::empty())) && u == has_user(params_view(ps@)),
            Err(e) => parse_params(s@.skip(pos as int)) == Err::<(Seq<ParameterModel>, Seq<u8>), CodecError>(e),
        },
{
    let mut out: Vec<Parameter> = Vec::new();
    let mut p: usize = pos;
    let mut user = false;
    proof {
        lemma_prepend_empty(parse_params(s@.skip(pos as int)));
        assert(params_view(out@) =~= Seq::<ParameterModel>::empty());
    }
    loop
        invariant
            pos <= p <= s@.len(),
            parse_params(s@.skip(pos as int)) == prepend(
                params_view(out@),
                parse_params(s@.skip(p as int)),
            ),
            user == has_user(params_view(out@)),
        decreases s@.len() - p,
    {
        let ghost t = s@.skip(p as int);
        if p == s.len() {
            return Err(CodecError::InvalidInput);
        }
        if s[p] == 0 {
            if p + 1 == s.len() {
                assert(t.len() == 1);
                return Ok((out, user));
            }
            return Err(CodecError::InvalidInput);
        }
        let ghost before = params_view(out@);
        let (name, q) = get_cstr(s, p)?;
        let (value, q2) = get_cstr(s, q)?;
        assert(s@.skip(q2 as int).len() < t.len());
        let ghost pm = ParameterModel { name: name@, value: value@ };
        proof {
            lemma_prepend_step(before, pm, parse_params(s@.skip(q2 as int)));
        }
        let u = is_user(name.as_slice());
        let prm = Parameter { name, value };
        out.push(prm);
        assert(params_view(out@) =~= before.push(pm));
        proof {
            let a = params_view(out@);
            if user {
                let i = choose|i: int| 0 <= i < before.len() && (#[trigger] before[i]).name == user_name();
                assert(a[i] == before[i]);
            }
            if u {
                assert(a[a.len() - 1] == pm);
            }
            if has_user(a) {
                let i = choose|i: int| 0 <= i < a.len() && (#[trigger] a[i]).name == user_name();
                if i < before.len() {
                    assert(a[i] == before[i]);
                }
            }
        }
        user = user || u;
        p = q2;
    }
}

/// Decodes a startup-phase frame at the front of `src`.
fn decode_startup_frame(src: &mut Vec<u8>) -> (r: (DecodeState, Result<Option<Message>, CodecError>))
    ensures
        (r.0, outcome_view(r.1), final(src)@) == decode_startup(old(src)@),
{
    if src.len() < STARTUP_HEADER {
        return (DecodeState::Startup, Ok(None));
    }
    let (n, _) = match get_u32(src.as_slice(), 0) {
        Ok(x) => x,
        Err(e) => {
            return (DecodeState::Startup, Err(e));
        },
    };
    assert(src@.skip(0) =~= src@);
    if (n as usize) < STARTUP_HEADER {
        return (DecodeState::Startup, Err(CodecError::InvalidInput));
    }
    if src.len() < n as usize {
        return (DecodeState::Startup, Ok(None));
    }
    let mut frame = src.split_off(n as usize);
    std::mem::swap(src, &mut frame);
    let (code, _) = match get_u32(frame.as_slice(), 4) {
        Ok(x) => x,
        Err(e) => {
            return (DecodeState::Startup, Err(e));
        },
    };
    if code == PROTOCOL_VERSION {
        match get_parameters(frame.as_slice(), 8) {
            Ok((parameters, user)) => if user {
                (
                    DecodeState::Head,
                    Ok(Some(Message::StartupMessage { frame_length: n as usize, parameters })),
                )
            } else {
                (DecodeState::Startup, Err(CodecError::InvalidInput))
            },
            Err(e) => (DecodeState::Startup, Err(e)),
        }
    } else if code == SSL_REQUEST_CODE {
        (DecodeState::Startup, Ok(Some(Message::SSLRequest())))
    } else {
        (DecodeState::Startup, Err(CodecError::InvalidInput))
    }
}

fn decode_sasl(s: &[u8]) -> (r: Result<Message, CodecError>)
    requires
        s@.len() >= 5,
    ensures
        match r {
            Ok(m) => parse_sasl(s@.skip(5)) == Ok::<_, CodecError>((m@, Seq::<u8>::empty())),
            Err(e) => match parse_sasl(s@.skip(5)) {
                Ok((_, rest)) => e == CodecError::InvalidInput && rest.len() > 0,
                Err(e2) => e == e2,
            },
        },
{
    let ghost p = s@.skip(5);
    if let Ok((mech, q)) = get_cstr(s, 5) {
        if let Ok((n, q2)) = get_u32(s, q) {
            if n == NULL_LENGTH {
                if q2 != s.len() {
                    return Err(CodecError::InvalidInput);
                }
                assert(s@.skip(q2 as int) =~= Seq::<u8>::empty());
                return Ok(Message::SASLInitialResponse { mecanism: mech, response: Vec::new() });
            } else if n as usize == s.len() - q2 {
                let response = copy_range(s, q2, s.len());
                assert(response@ =~= s@.skip(q2 as int));
                return Ok(Message::SASLInitialResponse { mecanism: mech, response });
            }
        }
    }
    if s.len() == 5 {
        return Err(CodecError::InvalidInput);
    }
    let response = copy_range(s, 5, s.len());
    assert(response@ =~= p);
    Ok(Message::SASLResponse(response))
}

/// Decodes one whole regular frame, header included.
fn decode_frame(s: &[u8]) -> (r: Result<Message, CodecError>)
    ensures
        match r {
            Ok(m) => parse_frame(s@) == Ok::<_, CodecError>(m@),
            Err(e) => parse_frame(s@) == Err::<FrontendModel, CodecError>(e),
        },
{
    if s.len() < 5 {
        return Err(CodecError::InvalidInput);
    }
    let id = s[0];
    let ghost pl = s@.skip(5);
    if id == ID_SASL {
        return decode_sasl(s);
    }
    let (m, p) = if id == ID_EXECUTE {
        let (portal, p1) = get_cstr(s, 5)?;
        let (max_rows, p2) = get_u32(s, p1)?;
        (Message::Execute { portal, max_rows }, p2)
    } else if id == ID_FLUSH {
        (Message::Flush(), 5)
    } else if id == ID_QUERY {
        let (q, p1) = get_cstr(s, 5)?;
        (Message::Query(q), p1)
    } else if id == ID_SYNC {
        (Message::Sync(), 5)
    } else if id == ID_TERMINATE {
        (Message::Terminate(), 5)
    } else {
        let raw = copy_range(s, 0, s.len());
        assert(raw@ =~= s@);
        (Message::NotImplemented(raw), s.len())
    };
    assert(s@.skip(s@.len() as int) =~= Seq::<u8>::empty());
    assert(parse_payload(id, pl, s@) == Ok::<_, CodecError>((m@, s@.skip(p as int))));
    if p != s.len() {
        return Err(CodecError::InvalidInput);
    }
    Ok(m)
}


// ---------------------------------------------------------------------------
// Encoding, executable.

fn put_parameters(out: &mut Vec<u8>, ps: &Vec<Parameter>)
    ensures
        final(out)@ == old(out)@ + params_bytes(params_view(ps@)),
{
    let ghost v = params_view(ps@);
    let mut i: usize = 0;
    assert(v.take(0) =~= Seq::<ParameterModel>::empty());
    assert(params_bytes(v.take(0)) == Seq::<u8>::empty());
    assert(out@ =~= old(out)@ + params_bytes(v.take(0)));
    while i < ps.len()
        invariant
            i <= ps@.len(),
            v == params_view(ps@),
            out@ == old(out)@ + params_bytes(v.take(i as int)),
        decreases ps@.len() - i,
    {
        proof {
            lemma_concat_map_push(v, |p: ParameterModel| param_bytes(p), i as int);
        }
        put_cstr(out, ps[i].name.as_slice());
        put_cstr(out, ps[i].value.as_slice());
        i = i + 1;
        assert(out@ =~= old(out)@ + params_bytes(v.take(i as int)));
    }
    assert(v.take(i as int) =~= v);
}

fn message_id_of(msg: &Message) -> (r: u8)
    ensures
        r == message_id(msg@),
{
    match msg {
        Message::Execute { .. } => ID_EXECUTE,
        Message::Flush() => ID_FLUSH,
        Message::Query(_) => ID_QUERY,
        Message::SASLInitialResponse { .. } => ID_SASL,
        Message::SASLResponse(_) => ID_SASL,
        Message::Sync() => ID_SYNC,
        Message::Terminate() => ID_TERMINATE,
        _ => 0,
    }
}

fn put_payload(msg: &Message, p: &mut Vec<u8>) -> (r: Result<(), CodecError>)
    ensures
        r is Ok <==> match msg@ {
            FrontendModel::SASLInitialResponse { response, .. } => response.len() < NULL_LENGTH,
            _ => true,
        },
        r is Ok ==> final(p)@ == old(p)@ + payload_bytes(msg@),
        r is Err ==> r == Err::<(), CodecError>(CodecError::InvalidInput),
{
    match msg {
        Message::Execute { portal, max_rows } => {
            put_cstr(p, portal.as_slice());
            put_u32(p, *max_rows);
        },
        Message::Query(q) => {
            put_cstr(p, q.as_slice());
        },
        Message::SASLInitialResponse { mecanism, response } => {
            if response.len() >= NULL_LENGTH as usize {
                return Err(CodecError::InvalidInput);
            }
            put_cstr(p, mecanism.as_slice());
            let f = Some(copy_range(response.as_slice(), 0, response.len()));
            assert(response@.subrange(0, response@.len() as int) =~= response@);
            put_sized(p, &f);
        },
        Message::SASLResponse(r) => {
            put_slice(p, r.as_slice());
        },
        _ => {},
    }
    assert(p@ =~= old(p)@ + payload_bytes(msg@));
    Ok(())
}

/// Incremental decoder of client messages, which starts in the startup phase.
#[derive(Clone, Debug)]
pub struct Codec {
    state: DecodeState,
}

impl Default for Codec {
    fn default() -> (r: Codec)
        ensures
            r.state() == DecodeState::Startup,
    {
        Codec::new()
    }
}

impl Codec {
    pub closed spec fn state(&self) -> DecodeState {
        self.state
    }

    /// A decoder in the startup phase.
    pub fn new() -> (r: Codec)
        ensures
            r.state() == DecodeState::Startup,
    {
        Codec { state: DecodeState::Startup }
    }

    /// Ends the startup phase: the decoder waits for a regular header.
    pub fn startup_complete(&mut self)
        ensures
            final(self).state() == DecodeState::Head,
    {
        self.state = DecodeState::Head;
    }

    /// Decodes a startup-phase frame at the front of `src`: a
    /// `StartupMessage` (which ends the startup phase) or an `SSLRequest`
    /// (which does not).
    pub fn decode_startup_message(&mut self, src: &mut Vec<u8>) -> (r: Result<Option<Message>, CodecError>)
        ensures
            (final(self).state(), outcome_view(r), final(src)@) == decode_startup(old(src)@),
    {
        let (st, r) = decode_startup_frame(src);
        self.state = st;
        r
    }

    /// Reads the header at the front of `src` without consuming it: the
    /// length of its frame (the length field plus the identifier byte),
    /// `None` if fewer than 5 bytes are there, or an error if the length
    /// field is less than its own 4 bytes.
    fn decode_header(&self, src: &Vec<u8>) -> (r: Result<Option<u64>, CodecError>)
        ensures
            match r {
                Ok(None) => src@.len() < 5,
                Ok(Some(n)) => src@.len() >= 5 && length_field(src@) >= 4 && n == frame_length(src@),
                Err(e) => src@.len() >= 5 && length_field(src@) < 4 && e == CodecError::InvalidInput,
            },
    {
        if src.len() < 5 {
            return Ok(None);
        }
        let (n, _) = get_u32(src.as_slice(), 1)?;
        if n < 4 {
            return Err(CodecError::InvalidInput);
        }
        Ok(Some(n as u64 + 1))
    }

    /// Takes the frame of `n` bytes off the front of `src` and decodes it,
    /// or returns `Ok(None)` while it is incomplete.
    fn decode_message(&mut self, n: u64, src: &mut Vec<u8>) -> (r: Result<Option<Message>, CodecError>)
        ensures
            (final(self).state(), outcome_view(r), final(src)@) == decode_body(n, old(src)@),
    {
        if (src.len() as u64) < n {
            self.state = DecodeState::Message(n);
            return Ok(None);
        }
        let mut frame = src.split_off(n as usize);
        std::mem::swap(src, &mut frame);
        self.state = DecodeState::Head;
        match decode_frame(frame.as_slice()) {
            Ok(m) => Ok(Some(m)),
            Err(e) => Err(e),
        }
    }

    /// Decodes the next message at the front of `src`, consuming its bytes.
    /// `Ok(None)` asks for more bytes.
    pub fn decode(&mut self, src: &mut Vec<u8>) -> (r: Result<Option<Message>, CodecError>)
        ensures
            (final(self).state(), outcome_view(r), final(src)@) == decode_step(old(self).state(), old(src)@),
    {
        let n = match self.state {
            DecodeState::Startup => {
                return self.decode_startup_message(src);
            },
            DecodeState::Head => match self.decode_header(src) {
                Ok(None) => {
                    return Ok(None);
                },
                Ok(Some(n)) => n,
                Err(e) => {
                    return Err(e);
                },
            },
            DecodeState::Message(n) => n,
        };
        self.decode_message(n, src)
    }

    /// Appends the bytes of `msg` to `dst`: a regular frame, or the
    /// startup-phase form of `StartupMessage` and `SSLRequest`. Fails,
    /// writing nothing, when a length does not fit its wire field.
    pub fn encode(&mut self, msg: Message, dst: &mut Vec<u8>) -> (r: Result<(), CodecError>)
        ensures
            final(self).state() == old(self).state(),
            r is Ok <==> encodable(msg@),
            r is Ok ==> final(dst)@ == old(dst)@ + encode_message(msg@),
            r is Err ==> final(dst)@ == old(dst)@ && r == Err::<(), CodecError>(
                CodecError::InvalidInput,
            ),
    {
        match &msg {
            Message::NotImplemented(raw) => {
                put_slice(dst, raw.as_slice());
                return Ok(());
            },
            Message::StartupMessage { frame_length, parameters } => {
                if *frame_length > 0xFFFF_FFFF {
                    return Err(CodecError::InvalidInput);
                }
                put_u32(dst, *frame_length as u32);
                put_u32(dst, PROTOCOL_VERSION);
                put_parameters(dst, parameters);
                put_u8(dst, 0);
                assert(dst@ =~= old(dst)@ + encode_message(msg@));
                return Ok(());
            },
            Message::SSLRequest() => {
                put_u32(dst, 8);
                put_u32(dst, SSL_REQUEST_CODE);
                assert(dst@ =~= old(dst)@ + encode_message(msg@));
                return Ok(());
            },
            _ => {},
        }
        let mut p: Vec<u8> = Vec::new();
        put_payload(&msg, &mut p)?;
        assert(p@ =~= payload_bytes(msg@));
        if p.len() > 0xFFFF_FFFF - 4 {
            return Err(CodecError::InvalidInput);
        }
        put_u8(dst, message_id_of(&msg));
        put_u32(dst, (p.len() + 4) as u32);
        put_slice(dst, p.as_slice());
        assert(dst@ =~= old(dst)@ + encode_message(msg@));
        Ok(())
    }
}

} // verus!
