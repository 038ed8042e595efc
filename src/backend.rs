//! Server-to-client messages: their model, the incremental decoder, and the
//! encoder.

use vstd::prelude::*;
use crate::wire::{
    be_u16, be_u32, concat_map, copy_range, cstr_bytes, fields_bytes, get_cstr, get_i16, get_i32,
    get_sized, get_u16, get_u32, get_u8, lemma_concat_map_push, lemma_cstr_round_trip,
    lemma_fields_bytes, lemma_parse_cstr_inv, lemma_parse_sized_inv, lemma_parse_u16_inv,
    lemma_parse_u32_inv, lemma_prepend_empty, lemma_prepend_step, lemma_sized_round_trip,
    lemma_u16_round_trip, lemma_u32_round_trip, lemma_u8_round_trip, no_nul, opt_view, parse_cstr,
    parse_sized, parse_u16, parse_u32, parse_u8, prepend, put_cstr, put_sized, put_slice, put_u16,
    put_u32, put_u8, sized_bytes, sized_ok, u16_bytes, u32_bytes, CodecError, NULL_LENGTH,
};

verus! {

/// Identifier bytes of the messages that this codec models.
pub const ID_AUTHENTICATION: u8 = 82;
pub const ID_BACKEND_KEY_DATA: u8 = 75;
pub const ID_COMMAND_COMPLETE: u8 = 67;
pub const ID_DATA_ROW: u8 = 68;
pub const ID_EMPTY_QUERY_RESPONSE: u8 = 73;
pub const ID_ERROR_RESPONSE: u8 = 69;
pub const ID_PARAMETER_STATUS: u8 = 83;
pub const ID_READY_FOR_QUERY: u8 = 90;
pub const ID_ROW_DESCRIPTION: u8 = 84;

/// Codes of the `Authentication` messages that this codec models.
pub const AUTH_OK: u32 = 0;
pub const AUTH_SASL: u32 = 10;
pub const AUTH_SASL_CONTINUE: u32 = 11;
pub const AUTH_SASL_FINAL: u32 = 12;

/// Bytes of a column description after its name.
pub const COLUMN_TRAILER: usize = 18;

/// One column of a `RowDescription`.
#[derive(Clone, Debug, PartialEq, Eq)]
pub struct RowDescription {
    pub name: Vec<u8>,
    pub table_oid: u32,
    pub column_attr: u16,
    pub data_type_oid: u32,
    pub data_type_size: i16,
    pub type_modifier: i32,
    pub format: u16,
}

/// A column description over mathematical byte strings.
pub struct ColumnModel {
    pub name: Seq<u8>,
    pub table_oid: u32,
    pub column_attr: u16,
    pub data_type_oid: u32,
    pub data_type_size: i16,
    pub type_modifier: i32,
    pub format: u16,
}

impl View for RowDescription {
    type V = ColumnModel;

    open spec fn view(&self) -> ColumnModel {
        ColumnModel {
            name: self.name@,
            table_oid: self.table_oid,
            column_attr: self.column_attr,
            data_type_oid: self.data_type_oid,
            data_type_size: self.data_type_size,
            type_modifier: self.type_modifier,
            format: self.format,
        }
    }
}

/// A message sent by the server. A `DataRow` field is `None` for SQL NULL.
/// `NotImplemented` carries a whole frame of a kind this codec does not model.
#[derive(Clone, Debug, PartialEq, Eq)]
pub enum Message {
    NotImplemented(Vec<u8>),
    AuthenticationOk(),
    AuthenticationSASL(Vec<u8>),
    AuthenticationSASLContinue(Vec<u8>),
    AuthenticationSASLFinal(Vec<u8>),
    CommandComplete(Vec<u8>),
    BackendKeyData { process: u32, secret_key: u32 },
    DataRow(Vec<Option<Vec<u8>>>),
    EmptyQueryResponse(),
    ErrorResponse(Vec<u8>),
    ParameterStatus { parameter: Vec<u8>, value: Vec<u8> },
    ReadyForQuery(u8),
    RowDescription(Vec<RowDescription>),
}

/// A server message over mathematical values.
pub enum BackendModel {
    NotImplemented(Seq<u8>),
    AuthenticationOk,
    AuthenticationSASL(Seq<u8>),
    AuthenticationSASLContinue(Seq<u8>),
    AuthenticationSASLFinal(Seq<u8>),
    CommandComplete(Seq<u8>),
    BackendKeyData { process: u32, secret_key: u32 },
    DataRow(Seq<Option<Seq<u8>>>),
    EmptyQueryResponse,
    ErrorResponse(Seq<u8>),
    ParameterStatus { parameter: Seq<u8>, value: Seq<u8> },
    ReadyForQuery(u8),
    RowDescription(Seq<ColumnModel>),
}

/// The fields of a row over mathematical byte strings.
pub open spec fn fields_view(fs: Seq<Option<Vec<u8>>>) -> Seq<Option<Seq<u8>>> {
    fs.map_values(|f: Option<Vec<u8>>| opt_view(f))
}

/// The columns of a row description over mathematical byte strings.
pub open spec fn columns_view(cs: Seq<RowDescription>) -> Seq<ColumnModel> {
    cs.map_values(|c: RowDescription| c@)
}

impl View for Message {
    type V = BackendModel;

    open spec fn view(&self) -> BackendModel {
        match self {
            Message::NotImplemented(b) => BackendModel::NotImplemented(b@),
            Message::AuthenticationOk() => BackendModel::AuthenticationOk,
            Message::AuthenticationSASL(b) => BackendModel::AuthenticationSASL(b@),
            Message::AuthenticationSASLContinue(b) => BackendModel::AuthenticationSASLContinue(b@),
            Message::AuthenticationSASLFinal(b) => BackendModel::AuthenticationSASLFinal(b@),
            Message::CommandComplete(b) => BackendModel::CommandComplete(b@),
            Message::BackendKeyData { process, secret_key } => BackendModel::BackendKeyData {
                process: *process,
                secret_key: *secret_key,
            },
            Message::DataRow(fs) => BackendModel::DataRow(fields_view(fs@)),
            Message::EmptyQueryResponse() => BackendModel::EmptyQueryResponse,
            Message::ErrorResponse(b) => BackendModel::ErrorResponse(b@),
            Message::ParameterStatus { parameter, value } => BackendModel::ParameterStatus {
                parameter: parameter@,
                value: value@,
            },
            Message::ReadyForQuery(s) => BackendModel::ReadyForQuery(*s),
            Message::RowDescription(cs) => BackendModel::RowDescription(columns_view(cs@)),
        }
    }
}

// ---------------------------------------------------------------------------
// Decoding, as functions on byte sequences.

/// `n` length-prefixed fields.
pub open spec fn parse_fields(s: Seq<u8>, n: nat) -> Result<
    (Seq<Option<Seq<u8>>>, Seq<u8>),
    CodecError,
>
    decreases n,
{
    if n == 0 {
        Ok((Seq::empty(), s))
    } else {
        match parse_sized(s) {
            None => Err(CodecError::UnexpectedEof),
            Some((f, r)) => match parse_fields(r, (n - 1) as nat) {
                Err(e) => Err(e),
                Ok((fs, r2)) => Ok((seq![f] + fs, r2)),
            },
        }
    }
}

/// One column description: a C string name and an 18-byte trailer.
pub open spec fn parse_column(s: Seq<u8>) -> Result<(ColumnModel, Seq<u8>), CodecError> {
    match parse_cstr(s) {
        None => Err(CodecError::InvalidData),
        Some((name, r)) => if r.len() < COLUMN_TRAILER {
            Err(CodecError::InvalidInput)
        } else {
            Ok(
                (
                    ColumnModel {
                        name,
                        table_oid: be_u32(r),
                        column_attr: be_u16(r.skip(4)),
                        data_type_oid: be_u32(r.skip(6)),
                        data_type_size: be_u16(r.skip(10)) as i16,
                        type_modifier: be_u32(r.skip(12)) as i32,
                        format: be_u16(r.skip(16)),
                    },
                    r.skip(18),
                ),
            )
        },
    }
}

/// `n` column descriptions.
pub open spec fn parse_columns(s: Seq<u8>, n: nat) -> Result<(Seq<ColumnModel>, Seq<u8>), CodecError>
    decreases n,
{
    if n == 0 {
        Ok((Seq::empty(), s))
    } else {
        match parse_column(s) {
            Err(e) => Err(e),
            Ok((c, r)) => match parse_columns(r, (n - 1) as nat) {
                Err(e) => Err(e),
                Ok((cs, r2)) => Ok((seq![c] + cs, r2)),
            },
        }
    }
}

/// An `Authentication` payload: a code, then what that code carries.
pub open spec fn parse_authentication(p: Seq<u8>) -> Result<(BackendModel, Seq<u8>), CodecError> {
    match parse_u32(p) {
        None => Err(CodecError::UnexpectedEof),
        Some((code, r)) => if code == AUTH_OK {
            Ok((BackendModel::AuthenticationOk, r))
        } else if code == AUTH_SASL {
            match parse_cstr(r) {
                None => Err(CodecError::InvalidData),
                Some((m, r2)) => if r2.len() == 0 || r2[0] != 0 {
                    Err(CodecError::InvalidInput)
                } else {
                    Ok((BackendModel::AuthenticationSASL(m), r2.skip(1)))
                },
            }
        } else if code == AUTH_SASL_CONTINUE {
            if r.len() == 0 {
                Err(CodecError::InvalidInput)
            } else {
                Ok((BackendModel::AuthenticationSASLContinue(r), Seq::empty()))
            }
        } else if code == AUTH_SASL_FINAL {
            if r.len() == 0 {
                Err(CodecError::InvalidInput)
            } else {
                Ok((BackendModel::AuthenticationSASLFinal(r), Seq::empty()))
            }
        } else {
            Err(CodecError::InvalidInput)
        },
    }
}

/// The message that a frame's payload `p` holds, and what the payload has left.
pub open spec fn parse_payload(id: u8, p: Seq<u8>, frame: Seq<u8>) -> Result<
    (BackendModel, Seq<u8>),
    CodecError,
> {
    if id == ID_AUTHENTICATION {
        parse_authentication(p)
    } else if id == ID_BACKEND_KEY_DATA {
        match parse_u32(p) {
            None => Err(CodecError::UnexpectedEof),
            Some((a, r)) => match parse_u32(r) {
                None => Err(CodecError::UnexpectedEof),
                Some((b, r2)) => Ok((BackendModel::BackendKeyData { process: a, secret_key: b }, r2)),
            },
        }
    } else if id == ID_COMMAND_COMPLETE {
        match parse_cstr(p) {
            None => Err(CodecError::InvalidData),
            Some((t, r)) => Ok((BackendModel::CommandComplete(t), r)),
        }
    } else if id == ID_DATA_ROW {
        match parse_u16(p) {
            None => Err(CodecError::UnexpectedEof),
            Some((n, r)) => match parse_fields(r, n as nat) {
                Err(e) => Err(e),
                Ok((fs, r2)) => Ok((BackendModel::DataRow(fs), r2)),
            },
        }
    } else if id == ID_ERROR_RESPONSE {
        Ok((BackendModel::ErrorResponse(p), Seq::empty()))
    } else if id == ID_EMPTY_QUERY_RESPONSE {
        Ok((BackendModel::EmptyQueryResponse, p))
    } else if id == ID_PARAMETER_STATUS {
        match parse_cstr(p) {
            None => Err(CodecError::InvalidData),
            Some((a, r)) => match parse_cstr(r) {
                None => Err(CodecError::InvalidData),
                Some((b, r2)) => Ok((BackendModel::ParameterStatus { parameter: a, value: b }, r2)),
            },
        }
    } else if id == ID_READY_FOR_QUERY {
        match parse_u8(p) {
            None => Err(CodecError::UnexpectedEof),
            Some((st, r)) => if is_status(st) {
                Ok((BackendModel::ReadyForQuery(st), r))
            } else {
                Err(CodecError::InvalidInput)
            },
        }
    } else if id == ID_ROW_DESCRIPTION {
        match parse_u16(p) {
            None => Err(CodecError::UnexpectedEof),
            Some((n, r)) => match parse_columns(r, n as nat) {
                Err(e) => Err(e),
                Ok((cs, r2)) => Ok((BackendModel::RowDescription(cs), r2)),
            },
        }
    } else {
        Ok((BackendModel::NotImplemented(frame), Seq::empty()))
    }
}

/// A transaction status of `ReadyForQuery`: idle, in a transaction, or failed.
pub open spec fn is_status(st: u8) -> bool {
    st == 73 || st == 84 || st == 69
}

/// The message of one whole frame (header included); bytes left over in
/// the frame are an error.
pub open spec fn parse_frame(frame: Seq<u8>) -> Result<BackendModel, CodecError> {
    if frame.len() < 5 {
        Err(CodecError::InvalidInput)
    } else {
        match parse_payload(frame[0], frame.skip(5), frame) {
        Err(e) => Err(e),
            Ok((m, r)) => if r.len() == 0 {
                Ok(m)
            } else {
                Err(CodecError::InvalidInput)
            },
        }
    }
}


// ---------------------------------------------------------------------------
// Encoding, as functions on byte sequences.

/// A column description as written on the wire.
pub open spec fn column_bytes(c: ColumnModel) -> Seq<u8> {
    cstr_bytes(c.name) + u32_bytes(c.table_oid) + u16_bytes(c.column_attr) + u32_bytes(
        c.data_type_oid,
    ) + u16_bytes(c.data_type_size as u16) + u32_bytes(c.type_modifier as u32) + u16_bytes(
        c.format,
    )
}

/// Column descriptions as written on the wire, one after another.
pub open spec fn columns_bytes(cs: Seq<ColumnModel>) -> Seq<u8> {
    concat_map(cs, |c: ColumnModel| column_bytes(c))
}

/// The identifier byte of a message.
pub open spec fn message_id(m: BackendModel) -> u8 {
    match m {
        BackendModel::NotImplemented(raw) => raw[0],
        BackendModel::AuthenticationOk => ID_AUTHENTICATION,
        BackendModel::AuthenticationSASL(_) => ID_AUTHENTICATION,
        BackendModel::AuthenticationSASLContinue(_) => ID_AUTHENTICATION,
        BackendModel::AuthenticationSASLFinal(_) => ID_AUTHENTICATION,
        BackendModel::CommandComplete(_) => ID_COMMAND_COMPLETE,
        BackendModel::BackendKeyData { .. } => ID_BACKEND_KEY_DATA,
        BackendModel::DataRow(_) => ID_DATA_ROW,
        BackendModel::EmptyQueryResponse => ID_EMPTY_QUERY_RESPONSE,
        BackendModel::ErrorResponse(_) => ID_ERROR_RESPONSE,
        BackendModel::ParameterStatus { .. } => ID_PARAMETER_STATUS,
        BackendModel::ReadyForQuery(_) => ID_READY_FOR_QUERY,
        BackendModel::RowDescription(_) => ID_ROW_DESCRIPTION,
    }
}

/// The payload of a message: what follows the identifier and the length.
pub open spec fn payload_bytes(m: BackendModel) -> Seq<u8> {
    match m {
        BackendModel::NotImplemented(raw) => raw.skip(5),
        BackendModel::AuthenticationOk => u32_bytes(AUTH_OK),
        BackendModel::AuthenticationSASL(mech) => u32_bytes(AUTH_SASL) + cstr_bytes(mech) + seq![0u8],
        BackendModel::AuthenticationSASLContinue(r) => u32_bytes(AUTH_SASL_CONTINUE) + r,
        BackendModel::AuthenticationSASLFinal(r) => u32_bytes(AUTH_SASL_FINAL) + r,
        BackendModel::CommandComplete(t) => cstr_bytes(t),
        BackendModel::BackendKeyData { process, secret_key } => u32_bytes(process) + u32_bytes(
            secret_key,
        ),
        BackendModel::DataRow(fs) => u16_bytes(fs.len() as u16) + fields_bytes(fs),
        BackendModel::EmptyQueryResponse => Seq::empty(),
        BackendModel::ErrorResponse(raw) => raw,
        BackendModel::ParameterStatus { parameter, value } => cstr_bytes(parameter) + cstr_bytes(
            value,
        ),
        BackendModel::ReadyForQuery(st) => seq![st],
        BackendModel::RowDescription(cs) => u16_bytes(cs.len() as u16) + columns_bytes(cs),
    }
}

/// A frame: identifier, length (which counts itself), payload.
pub open spec fn frame_bytes(id: u8, p: Seq<u8>) -> Seq<u8> {
    seq![id] + u32_bytes((p.len() + 4) as u32) + p
}

/// The bytes that the encoder writes for a message.
pub open spec fn encode_message(m: BackendModel) -> Seq<u8> {
    match m {
        BackendModel::NotImplemented(raw) => raw,
        _ => frame_bytes(message_id(m), payload_bytes(m)),
    }
}

/// The message's counts fit their 16-bit fields, its field lengths their
/// prefixes, and its frame length the 32-bit header.
pub open spec fn encodable(m: BackendModel) -> bool {
    match m {
        BackendModel::NotImplemented(_) => true,
        BackendModel::DataRow(fs) => fs.len() <= 0xFFFF && (forall|i: int|
            0 <= i < fs.len() ==> sized_ok(#[trigger] fs[i])) && payload_bytes(m).len() + 4
            <= 0xFFFF_FFFF,
        BackendModel::RowDescription(cs) => cs.len() <= 0xFFFF && payload_bytes(m).len() + 4
            <= 0xFFFF_FFFF,
        _ => payload_bytes(m).len() + 4 <= 0xFFFF_FFFF,
    }
}

/// An identifier that the decoder gives a message kind of its own.
pub open spec fn is_known_id(id: u8) -> bool {
    id == ID_AUTHENTICATION || id == ID_BACKEND_KEY_DATA || id == ID_COMMAND_COMPLETE || id
        == ID_DATA_ROW || id == ID_ERROR_RESPONSE || id == ID_EMPTY_QUERY_RESPONSE || id
        == ID_PARAMETER_STATUS || id == ID_READY_FOR_QUERY || id == ID_ROW_DESCRIPTION
}

/// A message that the encoder writes and the decoder reads back: C strings
/// without null bytes, non-empty SASL data, a valid status, and, for a
/// passed-through frame, a frame of an unmodelled kind whose length field
/// matches its size.
pub open spec fn supported(m: BackendModel) -> bool {
    &&& encodable(m)
    &&& match m {
        BackendModel::NotImplemented(raw) => raw.len() >= 5 && !is_known_id(raw[0])
            && length_field(raw) as int + 1 == raw.len(),
        BackendModel::AuthenticationSASL(mech) => no_nul(mech),
        BackendModel::AuthenticationSASLContinue(r) => r.len() > 0,
        BackendModel::AuthenticationSASLFinal(r) => r.len() > 0,
        BackendModel::CommandComplete(t) => no_nul(t),
        BackendModel::ParameterStatus { parameter, value } => no_nul(parameter) && no_nul(value),
        BackendModel::ReadyForQuery(st) => is_status(st),
        BackendModel::RowDescription(cs) => forall|i: int|
            0 <= i < cs.len() ==> no_nul(#[trigger] cs[i].name),
        _ => true,
    }
}

/// Where the decoder stands: before a header, or inside a frame whose
/// length, header included, is held here.
#[derive(Clone, Copy, Debug, PartialEq, Eq, Structural)]
pub enum DecodeState {
    Head,
    Message(u64),
}

/// The length field of the header that starts `buf`. It covers itself but
/// not the identifier byte, so the frame is one byte longer.
pub open spec fn length_field(buf: Seq<u8>) -> u32 {
    be_u32(buf.skip(1))
}

/// The length of the whole frame whose header starts `buf`: the length
/// field and the identifier byte.
pub open spec fn frame_length(buf: Seq<u8>) -> u64 {
    (length_field(buf) + 1) as u64
}

/// One call of the decoder on `buf` from state `st`: the next state, the
/// outcome (`Ok(None)`: more bytes are needed), and the bytes left.
pub open spec fn decode_step(st: DecodeState, buf: Seq<u8>) -> (
    DecodeState,
    Result<Option<BackendModel>, CodecError>,
    Seq<u8>,
) {
    match st {
        DecodeState::Head => if buf.len() < 5 {
            (DecodeState::Head, Ok(None), buf)
        } else if length_field(buf) < 4 {
            (DecodeState::Head, Err(CodecError::InvalidInput), buf)
        } else {
            decode_body(frame_length(buf), buf)
        },
        DecodeState::Message(n) => decode_body(n, buf),
    }
}

/// The body of a frame of `n` bytes, header included.
pub open spec fn decode_body(n: u64, buf: Seq<u8>) -> (
    DecodeState,
    Result<Option<BackendModel>, CodecError>,
    Seq<u8>,
) {
    if buf.len() < n {
        (DecodeState::Message(n), Ok(None), buf)
    } else {
        match parse_frame(buf.take(n as int)) {
            Ok(m) => (DecodeState::Head, Ok(Some(m)), buf.skip(n as int)),
            Err(e) => (DecodeState::Head, Err(e), buf.skip(n as int)),
        }
    }
}

/// The outcome of a decoder call over mathematical values.
pub open spec fn outcome_view(r: Result<Option<Message>, CodecError>) -> Result<
    Option<BackendModel>,
    CodecError,
> {
    match r {
        Ok(Some(m)) => Ok(Some(m@)),
        Ok(None) => Ok(None),
        Err(e) => Err(e),
    }
}

// ---------------------------------------------------------------------------
// Laws of the codec.

proof fn lemma_i16_cast(x: i16)
    ensures
        (x as u16) as i16 == x,
{
    assert((x as u16) as i16 == x) by (bit_vector);
}

proof fn lemma_i32_cast(x: i32)
    ensures
        (x as u32) as i32 == x,
{
    assert((x as u32) as i32 == x) by (bit_vector);
}

#[verifier::spinoff_prover]
#[verifier::rlimit(40)]
proof fn lemma_fields_round_trip(fs: Seq<Option<Seq<u8>>>, rest: Seq<u8>)
    requires
        forall|i: int| 0 <= i < fs.len() ==> sized_ok(#[trigger] fs[i]),
    ensures
        parse_fields(fields_bytes(fs) + rest, fs.len()) == Ok::<_, CodecError>((fs, rest)),
    decreases fs.len(),
{
    if fs.len() == 0 {
        assert(fields_bytes(fs) == Seq::<u8>::empty());
        assert(fields_bytes(fs) + rest =~= rest);
        assert(fs =~= Seq::<Option<Seq<u8>>>::empty());
    } else {
        let t = fs.skip(1);
        assert(fields_bytes(fs) == sized_bytes(fs[0]) + fields_bytes(t));
        assert forall|i: int| 0 <= i < t.len() implies sized_ok(#[trigger] t[i]) by {
            assert(t[i] == fs[i + 1]);
        }
        let mid = fields_bytes(t) + rest;
        let s = fields_bytes(fs) + rest;
        lemma_fields_round_trip(t, rest);
        assert(s =~= sized_bytes(fs[0]) + mid);
        assert(sized_ok(fs[0]));
        lemma_sized_round_trip(fs[0], mid);
        assert(parse_sized(s) == Some((fs[0], mid)));
        assert(parse_fields(mid, t.len()) == Ok::<_, CodecError>((t, rest)));
        assert(seq![fs[0]] + t =~= fs);
    }
}

#[verifier::spinoff_prover]
#[verifier::rlimit(40)]
proof fn lemma_column_round_trip(c: ColumnModel, rest: Seq<u8>)
    requires
        no_nul(c.name),
    ensures
        parse_column(column_bytes(c) + rest) == Ok::<_, CodecError>((c, rest)),
{
    let t16 = u16_bytes(c.format) + rest;
    let t12 = u32_bytes(c.type_modifier as u32) + t16;
    let t10 = u16_bytes(c.data_type_size as u16) + t12;
    let t6 = u32_bytes(c.data_type_oid) + t10;
    let t4 = u16_bytes(c.column_attr) + t6;
    let t0 = u32_bytes(c.table_oid) + t4;
    assert(column_bytes(c) + rest =~= cstr_bytes(c.name) + t0);
    lemma_cstr_round_trip(c.name, t0);
    assert(t0.skip(4) =~= t4);
    assert(t0.skip(6) =~= t6);
    assert(t0.skip(10) =~= t10);
    assert(t0.skip(12) =~= t12);
    assert(t0.skip(16) =~= t16);
    assert(t0.skip(18) =~= rest);
    lemma_u32_round_trip(c.table_oid, t4);
    lemma_u16_round_trip(c.column_attr, t6);
    lemma_u32_round_trip(c.data_type_oid, t10);
    lemma_u16_round_trip(c.data_type_size as u16, t12);
    lemma_u32_round_trip(c.type_modifier as u32, t16);
    lemma_u16_round_trip(c.format, rest);
    lemma_i16_cast(c.data_type_size);
    lemma_i32_cast(c.type_modifier);
}

#[verifier::spinoff_prover]
#[verifier::rlimit(40)]
proof fn lemma_columns_round_trip(cs: Seq<ColumnModel>, rest: Seq<u8>)
    requires
        forall|i: int| 0 <= i < cs.len() ==> no_nul(#[trigger] cs[i].name),
    ensures
        parse_columns(columns_bytes(cs) + rest, cs.len()) == Ok::<_, CodecError>((cs, rest)),
    decreases cs.len(),
{
    if cs.len() == 0 {
        assert(columns_bytes(cs) == Seq::<u8>::empty());
        assert(columns_bytes(cs) + rest =~= rest);
        assert(cs =~= Seq::<ColumnModel>::empty());
    } else {
        let t = cs.skip(1);
        assert(columns_bytes(cs) == column_bytes(cs[0]) + columns_bytes(t));
        assert forall|i: int| 0 <= i < t.len() implies no_nul(#[trigger] t[i].name) by {
            assert(t[i] == cs[i + 1]);
        }
        lemma_columns_round_trip(t, rest);
        assert(columns_bytes(cs) + rest =~= column_bytes(cs[0]) + (columns_bytes(t) + rest));
        assert(no_nul(cs[0].name));
        lemma_column_round_trip(cs[0], columns_bytes(t) + rest);
        assert(seq![cs[0]] + t =~= cs);
    }
}

#[verifier::spinoff_prover]
#[verifier::rlimit(40)]
proof fn lemma_payload_round_trip(m: BackendModel, frame: Seq<u8>)
    requires
        supported(m),
        !(m is NotImplemented),
    ensures
        parse_payload(message_id(m), payload_bytes(m), frame) == Ok::<_, CodecError>(
            (m, Seq::<u8>::empty()),
        ),
{
    let e = Seq::<u8>::empty();
    let p = payload_bytes(m);
    match m {
        BackendModel::AuthenticationOk => {
            assert(p =~= u32_bytes(AUTH_OK) + e);
            lemma_u32_round_trip(AUTH_OK, e);
        },
        BackendModel::AuthenticationSASL(mech) => {
            let r = cstr_bytes(mech) + seq![0u8];
            assert(p =~= u32_bytes(AUTH_SASL) + r);
            lemma_u32_round_trip(AUTH_SASL, r);
            lemma_cstr_round_trip(mech, seq![0u8]);
            assert(seq![0u8].skip(1) =~= e);
        },
        BackendModel::AuthenticationSASLContinue(r) => {
            lemma_u32_round_trip(AUTH_SASL_CONTINUE, r);
        },
        BackendModel::AuthenticationSASLFinal(r) => {
            lemma_u32_round_trip(AUTH_SASL_FINAL, r);
        },
        BackendModel::CommandComplete(t) => {
            assert(p =~= cstr_bytes(t) + e);
            lemma_cstr_round_trip(t, e);
        },
        BackendModel::BackendKeyData { process, secret_key } => {
            assert(p =~= u32_bytes(process) + (u32_bytes(secret_key) + e));
            lemma_u32_round_trip(process, u32_bytes(secret_key) + e);
            lemma_u32_round_trip(secret_key, e);
        },
        BackendModel::DataRow(fs) => {
            assert(p =~= u16_bytes(fs.len() as u16) + (fields_bytes(fs) + e));
            lemma_u16_round_trip(fs.len() as u16, fields_bytes(fs) + e);
            lemma_fields_round_trip(fs, e);
        },
        BackendModel::EmptyQueryResponse => {},
        BackendModel::ErrorResponse(raw) => {},
        BackendModel::ParameterStatus { parameter, value } => {
            assert(p =~= cstr_bytes(parameter) + (cstr_bytes(value) + e));
            lemma_cstr_round_trip(parameter, cstr_bytes(value) + e);
            lemma_cstr_round_trip(value, e);
        },
        BackendModel::ReadyForQuery(st) => {
            lemma_u8_round_trip(st, e);
            assert(seq![st] + e =~= p);
        },
        BackendModel::RowDescription(cs) => {
            assert(p =~= u16_bytes(cs.len() as u16) + (columns_bytes(cs) + e));
            lemma_u16_round_trip(cs.len() as u16, columns_bytes(cs) + e);
            lemma_columns_round_trip(cs, e);
        },
        BackendModel::NotImplemented(_) => {},
    }
}

proof fn lemma_frame_round_trip(m: BackendModel)
    requires
        supported(m),
    ensures
        parse_frame(encode_message(m)) == Ok::<_, CodecError>(m),
        encode_message(m).len() >= 5,
        length_field(encode_message(m)) as int + 1 == encode_message(m).len(),
{
    let f = encode_message(m);
    if let BackendModel::NotImplemented(raw) = m {
    } else {
        let p = payload_bytes(m);
        let n = (p.len() + 4) as u32;
        assert(f[0] == message_id(m));
        assert(f.skip(5) =~= p);
        lemma_payload_round_trip(m, f);
        assert(f.skip(1) =~= u32_bytes(n) + p);
        lemma_u32_round_trip(n, p);
    }
}

/// The header of `e` is the header of `e` followed by anything.
proof fn lemma_length_field_prefix(e: Seq<u8>, more: Seq<u8>)
    requires
        e.len() >= 5,
    ensures
        length_field(e + more) == length_field(e),
{
    let a = (e + more).skip(1);
    let b = e.skip(1);
    assert(a[0] == b[0] && a[1] == b[1] && a[2] == b[2] && a[3] == b[3]);
}

/// Decoding what the encoder wrote for a supported message gives that
/// message back and leaves whatever followed it.
pub proof fn lemma_decode_encode(m: BackendModel, rest: Seq<u8>)
    requires
        supported(m),
    ensures
        decode_step(DecodeState::Head, encode_message(m) + rest) == (
            DecodeState::Head,
            Ok::<_, CodecError>(Some(m)),
            rest,
        ),
{
    lemma_decoder_fed(m, 0, 0, rest);
}

proof fn lemma_u16_i16_cast(x: u16)
    ensures
        (x as i16) as u16 == x,
{
    assert((x as i16) as u16 == x) by (bit_vector);
}

proof fn lemma_u32_i32_cast(x: u32)
    ensures
        (x as i32) as u32 == x,
{
    assert((x as i32) as u32 == x) by (bit_vector);
}

#[verifier::spinoff_prover]
#[verifier::rlimit(40)]
proof fn lemma_fields_inv(s: Seq<u8>, n: nat)
    ensures
        match parse_fields(s, n) {
            Ok((fs, r)) => fs.len() == n && (forall|i: int|
                0 <= i < fs.len() ==> sized_ok(#[trigger] fs[i])) && s == fields_bytes(fs) + r,
            Err(_) => true,
        },
    decreases n,
{
    if n == 0 {
        assert(fields_bytes(Seq::<Option<Seq<u8>>>::empty()) == Seq::<u8>::empty());
        assert(s =~= Seq::<u8>::empty() + s);
    } else {
        lemma_parse_sized_inv(s);
        if let Some((f, r)) = parse_sized(s) {
            lemma_fields_inv(r, (n - 1) as nat);
            if let Ok((fs, r2)) = parse_fields(r, (n - 1) as nat) {
                let all = seq![f] + fs;
                assert(all[0] == f);
                assert(all.skip(1) =~= fs);
                assert(fields_bytes(all) == sized_bytes(f) + fields_bytes(fs));
                assert(s =~= fields_bytes(all) + r2);
                assert forall|i: int| 0 <= i < all.len() implies sized_ok(#[trigger] all[i]) by {
                    if i > 0 {
                        assert(all[i] == fs[i - 1]);
                    }
                }
            }
        }
    }
}

#[verifier::spinoff_prover]
#[verifier::rlimit(40)]
proof fn lemma_column_inv(s: Seq<u8>)
    ensures
        match parse_column(s) {
            Ok((c, r)) => no_nul(c.name) && s == column_bytes(c) + r,
            Err(_) => true,
        },
{
    lemma_parse_cstr_inv(s);
    if let Some((name, t)) = parse_cstr(s) {
        if t.len() >= COLUMN_TRAILER {
            lemma_parse_u32_inv(t);
            lemma_parse_u16_inv(t.skip(4));
            lemma_parse_u32_inv(t.skip(6));
            lemma_parse_u16_inv(t.skip(10));
            lemma_parse_u32_inv(t.skip(12));
            lemma_parse_u16_inv(t.skip(16));
            assert(t.skip(4).skip(2) =~= t.skip(6));
            assert(t.skip(6).skip(4) =~= t.skip(10));
            assert(t.skip(10).skip(2) =~= t.skip(12));
            assert(t.skip(12).skip(4) =~= t.skip(16));
            assert(t.skip(16).skip(2) =~= t.skip(18));
            lemma_u16_i16_cast(be_u16(t.skip(10)));
            lemma_u32_i32_cast(be_u32(t.skip(12)));
            if let Ok((c, _)) = parse_column(s) {
                assert(column_bytes(c) + t.skip(18) =~= cstr_bytes(name) + (u32_bytes(c.table_oid)
                    + (u16_bytes(c.column_attr) + (u32_bytes(c.data_type_oid) + (u16_bytes(
                    c.data_type_size as u16,
                ) + (u32_bytes(c.type_modifier as u32) + (u16_bytes(c.format) + t.skip(
                    18,
                ))))))));
            }
        }
    }
}

#[verifier::spinoff_prover]
#[verifier::rlimit(40)]
proof fn lemma_columns_inv(s: Seq<u8>, n: nat)
    ensures
        match parse_columns(s, n) {
            Ok((cs, r)) => cs.len() == n && (forall|i: int|
                0 <= i < cs.len() ==> no_nul(#[trigger] cs[i].name)) && s == columns_bytes(cs) + r,
            Err(_) => true,
        },
    decreases n,
{
    if n == 0 {
        assert(columns_bytes(Seq::<ColumnModel>::empty()) == Seq::<u8>::empty());
        assert(s =~= Seq::<u8>::empty() + s);
    } else {
        lemma_column_inv(s);
        if let Ok((c, r)) = parse_column(s) {
            lemma_columns_inv(r, (n - 1) as nat);
            if let Ok((cs, r2)) = parse_columns(r, (n - 1) as nat) {
                let all = seq![c] + cs;
                assert(all[0] == c);
                assert(all.skip(1) =~= cs);
                assert(columns_bytes(all) == column_bytes(c) + columns_bytes(cs));
                assert(s =~= columns_bytes(all) + r2);
                assert forall|i: int| 0 <= i < all.len() implies no_nul(#[trigger] all[i].name) by {
                    if i > 0 {
                        assert(all[i] == cs[i - 1]);
                    }
                }
            }
        }
    }
}

#[verifier::spinoff_prover]
#[verifier::rlimit(40)]
proof fn lemma_authentication_inv(p: Seq<u8>)
    ensures
        match parse_authentication(p) {
            Ok((m, r)) => message_id(m) == ID_AUTHENTICATION && !(m is NotImplemented) && p
                == payload_bytes(m) + r,
            Err(_) => true,
        },
{
    if p.len() >= 4 {
        lemma_parse_u32_inv(p);
        let r = p.skip(4);
        lemma_parse_cstr_inv(r);
        if let Some((mech, r2)) = parse_cstr(r) {
            if r2.len() > 0 {
                assert(r2 =~= seq![r2[0]] + r2.skip(1));
            }
        }
        assert(r =~= r + Seq::<u8>::empty());
    }
}

/// What a known identifier's payload reads as is written back as that
/// payload, and a payload of another identifier is the whole frame.
pub open spec fn payload_inv(id: u8, p: Seq<u8>, frame: Seq<u8>) -> bool {
    match parse_payload(id, p, frame) {
        Ok((m, r)) => if is_known_id(id) {
            &&& message_id(m) == id
            &&& !(m is NotImplemented)
            &&& p == payload_bytes(m) + r
            &&& match m {
                BackendModel::DataRow(fs) => fs.len() <= 0xFFFF && forall|i: int|
                    0 <= i < fs.len() ==> sized_ok(#[trigger] fs[i]),
                BackendModel::RowDescription(cs) => cs.len() <= 0xFFFF,
                _ => true,
            }
        } else {
            m == BackendModel::NotImplemented(frame)
        },
        Err(_) => true,
    }
}

#[verifier::spinoff_prover]
#[verifier::rlimit(40)]
proof fn lemma_payload_inv_key_data(p: Seq<u8>, frame: Seq<u8>)
    ensures
        payload_inv(ID_BACKEND_KEY_DATA, p, frame),
{
    if p.len() >= 8 {
        lemma_parse_u32_inv(p);
        lemma_parse_u32_inv(p.skip(4));
        assert(p.skip(4).skip(4) =~= p.skip(8));
        let m = BackendModel::BackendKeyData { process: be_u32(p), secret_key: be_u32(p.skip(4)) };
        assert(parse_payload(ID_BACKEND_KEY_DATA, p, frame) == Ok::<_, CodecError>((m, p.skip(8))));
        assert(p =~= payload_bytes(m) + p.skip(8));
    }
}

#[verifier::spinoff_prover]
#[verifier::rlimit(40)]
proof fn lemma_payload_inv_data_row(p: Seq<u8>, frame: Seq<u8>)
    ensures
        payload_inv(ID_DATA_ROW, p, frame),
{
    if p.len() >= 2 {
        lemma_parse_u16_inv(p);
        let n = be_u16(p);
        lemma_fields_inv(p.skip(2), n as nat);
        if let Ok((fs, r)) = parse_fields(p.skip(2), n as nat) {
            let m = BackendModel::DataRow(fs);
            assert(parse_payload(ID_DATA_ROW, p, frame) == Ok::<_, CodecError>((m, r)));
            assert(fs.len() as u16 == n);
            assert(p =~= payload_bytes(m) + r);
        }
    }
}

#[verifier::spinoff_prover]
#[verifier::rlimit(40)]
proof fn lemma_payload_inv_row_description(p: Seq<u8>, frame: Seq<u8>)
    ensures
        payload_inv(ID_ROW_DESCRIPTION, p, frame),
{
    if p.len() >= 2 {
        lemma_parse_u16_inv(p);
        let n = be_u16(p);
        lemma_columns_inv(p.skip(2), n as nat);
        if let Ok((cs, r)) = parse_columns(p.skip(2), n as nat) {
            let m = BackendModel::RowDescription(cs);
            assert(parse_payload(ID_ROW_DESCRIPTION, p, frame) == Ok::<_, CodecError>((m, r)));
            assert(cs.len() as u16 == n);
            assert(p =~= payload_bytes(m) + r);
        }
    }
}

#[verifier::spinoff_prover]
#[verifier::rlimit(40)]
proof fn lemma_payload_inv_parameter_status(p: Seq<u8>, frame: Seq<u8>)
    ensures
        payload_inv(ID_PARAMETER_STATUS, p, frame),
{
    lemma_parse_cstr_inv(p);
    if let Some((a, r)) = parse_cstr(p) {
        lemma_parse_cstr_inv(r);
        if let Some((b, r2)) = parse_cstr(r) {
            let m = BackendModel::ParameterStatus { parameter: a, value: b };
            assert(parse_payload(ID_PARAMETER_STATUS, p, frame) == Ok::<_, CodecError>((m, r2)));
            assert(p =~= payload_bytes(m) + r2);
        }
    }
}

#[verifier::spinoff_prover]
#[verifier::rlimit(40)]
proof fn lemma_payload_inv_other(id: u8, p: Seq<u8>, frame: Seq<u8>)
    requires
        id == ID_COMMAND_COMPLETE || id == ID_ERROR_RESPONSE || id == ID_EMPTY_QUERY_RESPONSE
            || id == ID_READY_FOR_QUERY || !is_known_id(id),
    ensures
        payload_inv(id, p, frame),
{
    let e = Seq::<u8>::empty();
    lemma_parse_cstr_inv(p);
    assert(p =~= p + e);
    assert(p =~= e + p);
    if p.len() >= 1 {
        assert(p =~= seq![p[0]] + p.skip(1));
    }
}

proof fn lemma_payload_inv(id: u8, p: Seq<u8>, frame: Seq<u8>)
    ensures
        payload_inv(id, p, frame),
{
    if id == ID_AUTHENTICATION {
        lemma_authentication_inv(p);
    } else if id == ID_BACKEND_KEY_DATA {
        lemma_payload_inv_key_data(p, frame);
    } else if id == ID_DATA_ROW {
        lemma_payload_inv_data_row(p, frame);
    } else if id == ID_PARAMETER_STATUS {
        lemma_payload_inv_parameter_status(p, frame);
    } else if id == ID_ROW_DESCRIPTION {
        lemma_payload_inv_row_description(p, frame);
    } else {
        lemma_payload_inv_other(id, p, frame);
    }
}

/// A buffer whose length field is under its own 4 bytes (a frame shorter
/// than the 5-byte header) is rejected, and nothing is consumed.
pub proof fn lemma_header_short_length(buf: Seq<u8>)
    requires
        buf.len() >= 5,
        length_field(buf) < 4,
    ensures
        decode_step(DecodeState::Head, buf) == (
            DecodeState::Head,
            Err::<Option<BackendModel>, CodecError>(CodecError::InvalidInput),
            buf,
        ),
{
}

/// Passing a frame through is byte-exact: a message that the decoder reads
/// from a buffer is one that the encoder writes, and writing it gives back
/// exactly the bytes that it was read from.
pub proof fn lemma_encode_decode(buf: Seq<u8>)
    ensures
        match decode_step(DecodeState::Head, buf) {
            (_, Ok(Some(m)), rest) => encodable(m) && encode_message(m) + rest == buf,
            _ => true,
        },
{
    if buf.len() >= 5 && length_field(buf) >= 4 && buf.len() > length_field(buf) {
        let n = length_field(buf);
        let f = buf.take(n + 1);
        let rest = buf.skip(n + 1);
        assert(buf =~= f + rest);
        lemma_length_field_prefix(f, rest);
        lemma_payload_inv(f[0], f.skip(5), f);
        if let Ok(m) = parse_frame(f) {
            if is_known_id(f[0]) {
                lemma_parse_u32_inv(f.skip(1));
                assert(f.skip(1).skip(4) =~= f.skip(5));
                assert(payload_bytes(m) =~= f.skip(5));
                assert(encode_message(m) =~= f);
            }
        }
    }
}

/// The state of a decoder that has been fed the first `k` bytes of frame
/// `e` in any chunks, starting before a header.
pub open spec fn fed_state(e: Seq<u8>, k: int) -> DecodeState {
    if k < 5 {
        DecodeState::Head
    } else {
        DecodeState::Message(frame_length(e))
    }
}

/// Feeding the frame of a supported message in chunks of any size: while
/// part of it is missing the decoder consumes nothing, reports that it needs
/// more, and moves only from waiting for the header to waiting for the
/// body; once the whole frame is there, with anything after it, the next
/// call yields the message and leaves exactly what followed, waiting for
/// the next header.
pub proof fn lemma_decoder_fed(m: BackendModel, k: int, j: int, rest: Seq<u8>)
    requires
        supported(m),
        0 <= k <= j,
        k < encode_message(m).len(),
    ensures
        j < encode_message(m).len() ==> decode_step(
            fed_state(encode_message(m), k),
            encode_message(m).take(j),
        ) == (fed_state(encode_message(m), j), Ok::<_, CodecError>(None::<BackendModel>), encode_message(m).take(j)),
        decode_step(fed_state(encode_message(m), k), encode_message(m) + rest) == (
            DecodeState::Head,
            Ok::<_, CodecError>(Some(m)),
            rest,
        ),
{
    let e = encode_message(m);
    lemma_frame_round_trip(m);
    let n = frame_length(e);
    lemma_length_field_prefix(e, rest);
    assert((e + rest).take(n as int) =~= e);
    assert((e + rest).skip(n as int) =~= rest);
    if j < e.len() && j >= 5 {
        let t = e.take(j);
        assert(e =~= t + e.skip(j));
        lemma_length_field_prefix(t, e.skip(j));
    }
}

/// A decoder fed `input` one byte at a time, called once after each byte:
/// the messages it yields in order (or the first error), its state and what
/// its buffer holds at the end.
pub open spec fn feed_bytes(st: DecodeState, buf: Seq<u8>, input: Seq<u8>) -> (
    Result<Seq<BackendModel>, CodecError>,
    DecodeState,
    Seq<u8>,
)
    decreases input.len(),
{
    if input.len() == 0 {
        (Ok(Seq::empty()), st, buf)
    } else {
        let (s1, r, b1) = decode_step(st, buf.push(input[0]));
        match r {
            Err(e) => (Err(e), s1, b1),
            Ok(None) => feed_bytes(s1, b1, input.skip(1)),
            Ok(Some(m)) => yield_first(m, feed_bytes(s1, b1, input.skip(1))),
        }
    }
}

pub open spec fn yield_first(
    m: BackendModel,
    x: (Result<Seq<BackendModel>, CodecError>, DecodeState, Seq<u8>),
) -> (Result<Seq<BackendModel>, CodecError>, DecodeState, Seq<u8>) {
    match x.0 {
        Ok(ms) => (Ok(seq![m] + ms), x.1, x.2),
        Err(e) => x,
    }
}

/// The encodings of `ms`, one after another.
pub open spec fn encode_all(ms: Seq<BackendModel>) -> Seq<u8> {
    concat_map(ms, |m: BackendModel| encode_message(m))
}

proof fn lemma_feed_frame(m: BackendModel, k: int, tail: Seq<u8>)
    requires
        supported(m),
        0 <= k < encode_message(m).len(),
    ensures
        feed_bytes(
            fed_state(encode_message(m), k),
            encode_message(m).take(k),
            encode_message(m).skip(k) + tail,
        ) == yield_first(m, feed_bytes(DecodeState::Head, Seq::empty(), tail)),
    decreases encode_message(m).len() - k,
{
    let e = encode_message(m);
    let input = e.skip(k) + tail;
    assert(input[0] == e[k]);
    assert(e.take(k).push(e[k]) =~= e.take(k + 1));
    assert(input.skip(1) =~= e.skip(k + 1) + tail);
    if k + 1 == e.len() {
        lemma_decoder_fed(m, k, k, Seq::empty());
        assert(e + Seq::<u8>::empty() =~= e);
        assert(e.take(k + 1) =~= e);
        assert(e.skip(k + 1) + tail =~= tail);
    } else {
        lemma_decoder_fed(m, k, k + 1, Seq::empty());
        lemma_feed_frame(m, k + 1, tail);
    }
}

/// A byte stream made of the encodings of supported messages, fed to a
/// fresh decoder one byte at a time, yields exactly those messages in order
/// and leaves the decoder waiting for a header with an empty buffer.
pub proof fn lemma_byte_at_a_time(ms: Seq<BackendModel>)
    requires
        forall|i: int| 0 <= i < ms.len() ==> supported(#[trigger] ms[i]),
    ensures
        feed_bytes(DecodeState::Head, Seq::empty(), encode_all(ms)) == (
            Ok::<_, CodecError>(ms),
            DecodeState::Head,
            Seq::<u8>::empty(),
        ),
    decreases ms.len(),
{
    if ms.len() == 0 {
        assert(encode_all(ms) == Seq::<u8>::empty());
        assert(ms =~= Seq::<BackendModel>::empty());
    } else {
        let t = ms.skip(1);
        assert forall|i: int| 0 <= i < t.len() implies supported(#[trigger] t[i]) by {
            assert(t[i] == ms[i + 1]);
        }
        lemma_byte_at_a_time(t);
        let e = encode_message(ms[0]);
        assert(encode_all(ms) == e + encode_all(t));
        assert(supported(ms[0]));
        lemma_frame_round_trip(ms[0]);
        lemma_feed_frame(ms[0], 0, encode_all(t));
        assert(e.take(0) =~= Seq::<u8>::empty());
        assert(e.skip(0) =~= e);
        assert(seq![ms[0]] + t =~= ms);
    }
}

// ---------------------------------------------------------------------------
// Decoding, executable.

fn get_data_row_fields(s: &[u8], pos: usize, n: u16) -> (r: Result<
    (Vec<Option<Vec<u8>>>, usize),
    CodecError,
>)
    requires
        pos <= s@.len(),
    ensures
        match r {
            Ok((fs, p)) => pos <= p <= s@.len() && parse_fields(s@.skip(pos as int), n as nat) == Ok::<_, CodecError>((fields_view(fs@), s@.skip(p as int))),
            Err(e) => parse_fields(s@.skip(pos as int), n as nat) == Err::<(Seq<Option<Seq<u8>>>, Seq<u8>), CodecError>(e),
        },
{
    let mut out: Vec<Option<Vec<u8>>> = Vec::new();
    let mut p: usize = pos;
    let mut i: u16 = 0;
    proof {
        lemma_prepend_empty(parse_fields(s@.skip(pos as int), n as nat));
        assert(fields_view(out@) =~= Seq::<Option<Seq<u8>>>::empty());
    }
    while i < n
        invariant
            pos <= p <= s@.len(),
            i <= n,
            parse_fields(s@.skip(pos as int), n as nat) == prepend(
                fields_view(out@),
                parse_fields(s@.skip(p as int), (n - i) as nat),
            ),
        decreases n - i,
    {
        let ghost before = fields_view(out@);
        let (f, q) = match get_sized(s, p) {
            Ok(x) => x,
            Err(e) => {
                return Err(e);
            },
        };
        proof {
            lemma_prepend_step(before, opt_view(f), parse_fields(s@.skip(q as int), (n - i - 1) as nat));
        }
        out.push(f);
        assert(fields_view(out@) =~= before.push(opt_view(f)));
        p = q;
        i = i + 1;
    }
    Ok((out, p))
}

fn get_row_description(s: &[u8], pos: usize) -> (r: Result<(RowDescription, usize), CodecError>)
    requires
        pos <= s@.len(),
    ensures
        match r {
            Ok((c, p)) => pos <= p <= s@.len() && parse_column(s@.skip(pos as int)) == Ok::<_, CodecError>((c@, s@.skip(p as int))),
            Err(e) => parse_column(s@.skip(pos as int)) == Err::<(ColumnModel, Seq<u8>), CodecError>(e),
        },
{
    let (name, p) = get_cstr(s, pos)?;
    if s.len() - p < COLUMN_TRAILER {
        return Err(CodecError::InvalidInput);
    }
    let ghost r = s@.skip(p as int);
    let (table_oid, p1) = get_u32(s, p)?;
    let (column_attr, p2) = get_u16(s, p1)?;
    let (data_type_oid, p3) = get_u32(s, p2)?;
    let (data_type_size, p4) = get_i16(s, p3)?;
    let (type_modifier, p5) = get_i32(s, p4)?;
    let (format, p6) = get_u16(s, p5)?;
    assert(r.skip(4) =~= s@.skip(p1 as int));
    assert(r.skip(6) =~= s@.skip(p2 as int));
    assert(r.skip(10) =~= s@.skip(p3 as int));
    assert(r.skip(12) =~= s@.skip(p4 as int));
    assert(r.skip(16) =~= s@.skip(p5 as int));
    assert(r.skip(18) =~= s@.skip(p6 as int));
    let c = RowDescription {
        name,
        table_oid,
        column_attr,
        data_type_oid,
        data_type_size,
        type_modifier,
        format,
    };
    Ok((c, p6))
}

fn get_row_descriptions(s: &[u8], pos: usize, n: u16) -> (r: Result<
    (Vec<RowDescription>, usize),
    CodecError,
>)
    requires
        pos <= s@.len(),
    ensures
        match r {
            Ok((cs, p)) => pos <= p <= s@.len() && parse_columns(s@.skip(pos as int), n as nat) == Ok::<_, CodecError>((columns_view(cs@), s@.skip(p as int))),
            Err(e) => parse_columns(s@.skip(pos as int), n as nat) == Err::<(Seq<ColumnModel>, Seq<u8>), CodecError>(e),
        },
{
    let mut out: Vec<RowDescription> = Vec::new();
    let mut p: usize = pos;
    let mut i: u16 = 0;
    proof {
        lemma_prepend_empty(parse_columns(s@.skip(pos as int), n as nat));
        assert(columns_view(out@) =~= Seq::<ColumnModel>::empty());
    }
    while i < n
        invariant
            pos <= p <= s@.len(),
            i <= n,
            parse_columns(s@.skip(pos as int), n as nat) == prepend(
                columns_view(out@),
                parse_columns(s@.skip(p as int), (n - i) as nat),
            ),
        decreases n - i,
    {
        let ghost before = columns_view(out@);
        let (c, q) = match get_row_description(s, p) {
            Ok(x) => x,
            Err(e) => {
                return Err(e);
            },
        };
        proof {
            lemma_prepend_step(before, c@, parse_columns(s@.skip(q as int), (n - i - 1) as nat));
        }
        out.push(c);
        assert(columns_view(out@) =~= before.push(c@));
        p = q;
        i = i + 1;
    }
    Ok((out, p))
}

fn decode_authentication(s: &[u8]) -> (r: Result<Message, CodecError>)
    requires
        s@.len() >= 5,
    ensures
        match r {
            Ok(m) => parse_authentication(s@.skip(5)) == Ok::<_, CodecError>((m@, Seq::<u8>::empty())),
            Err(e) => match parse_authentication(s@.skip(5)) {
                Ok((_, rest)) => e == CodecError::InvalidInput && rest.len() > 0,
                Err(e2) => e == e2,
            },
        },
{
    let (code, p) = get_u32(s, 5)?;
    let m = if code == AUTH_OK {
        Message::AuthenticationOk()
    } else if code == AUTH_SASL {
        let (mech, q) = get_cstr(s, p)?;
        if q == s.len() || s[q] != 0 {
            return Err(CodecError::InvalidInput);
        }
        if q + 1 != s.len() {
            assert(s@.skip(q as int).skip(1).len() > 0);
            return Err(CodecError::InvalidInput);
        }
        assert(s@.skip(q as int).skip(1) =~= Seq::<u8>::empty());
        Message::AuthenticationSASL(mech)
    } else if code == AUTH_SASL_CONTINUE || code == AUTH_SASL_FINAL {
        if p == s.len() {
            return Err(CodecError::InvalidInput);
        }
        let response = copy_range(s, p, s.len());
        assert(response@ =~= s@.skip(p as int));
        if code == AUTH_SASL_CONTINUE {
            Message::AuthenticationSASLContinue(response)
        } else {
            Message::AuthenticationSASLFinal(response)
        }
    } else {
        return Err(CodecError::InvalidInput);
    };
    if code == AUTH_OK && p != s.len() {
        return Err(CodecError::InvalidInput);
    }
    assert(s@.skip(p as int).len() == 0 ==> s@.skip(p as int) =~= Seq::<u8>::empty());
    Ok(m)
}

/// Decodes one whole frame, header included.
fn decode_frame(s: &[u8]) -> (r: Result<Message, CodecError>)
    ensures
        match r {
            Ok(m) => parse_frame(s@) == Ok::<_, CodecError>(m@),
            Err(e) => parse_frame(s@) == Err::<BackendModel, CodecError>(e),
        },
{
    if s.len() < 5 {
        return Err(CodecError::InvalidInput);
    }
    let id = s[0];
    let ghost pl = s@.skip(5);
    assert(pl =~= s@.skip(5));
    if id == ID_AUTHENTICATION {
        return decode_authentication(s);
    }
    let (m, p) = if id == ID_BACKEND_KEY_DATA {
        let (process, p1) = get_u32(s, 5)?;
        let (secret_key, p2) = get_u32(s, p1)?;
        (Message::BackendKeyData { process, secret_key }, p2)
    } else if id == ID_COMMAND_COMPLETE {
        let (tag, p1) = get_cstr(s, 5)?;
        (Message::CommandComplete(tag), p1)
    } else if id == ID_DATA_ROW {
        let (n, p1) = get_u16(s, 5)?;
        let (fields, p2) = get_data_row_fields(s, p1, n)?;
        (Message::DataRow(fields), p2)
    } else if id == ID_ERROR_RESPONSE {
        let raw = copy_range(s, 5, s.len());
        assert(raw@ =~= pl);
        (Message::ErrorResponse(raw), s.len())
    } else if id == ID_EMPTY_QUERY_RESPONSE {
        (Message::EmptyQueryResponse(), 5)
    } else if id == ID_PARAMETER_STATUS {
        let (parameter, p1) = get_cstr(s, 5)?;
        let (value, p2) = get_cstr(s, p1)?;
        (Message::ParameterStatus { parameter, value }, p2)
    } else if id == ID_READY_FOR_QUERY {
        let (st, p1) = get_u8(s, 5)?;
        if !(st == 73 || st == 84 || st == 69) {
            return Err(CodecError::InvalidInput);
        }
        (Message::ReadyForQuery(st), p1)
    } else if id == ID_ROW_DESCRIPTION {
        let (n, p1) = get_u16(s, 5)?;
        let (columns, p2) = get_row_descriptions(s, p1, n)?;
        (Message::RowDescription(columns), p2)
    } else {
        let raw = copy_range(s, 0, s.len());
        assert(raw@ =~= s@);
        (Message::NotImplemented(raw), s.len())
    };
    assert(s@.skip(s@.len() as int) =~= Seq::<u8>::empty());
    assert(parse_payload(id, pl, s@) == Ok::<_, CodecError>((m@, s@.skip(p as int))));
    if p != s.len() {
        return Err(CodecError::InvalidInput);
    }
    Ok(m)
}


// ---------------------------------------------------------------------------
// Encoding, executable.

fn put_row_description(out: &mut Vec<u8>, c: &RowDescription)
    ensures
        final(out)@ == old(out)@ + column_bytes(c@),
{
    put_cstr(out, c.name.as_slice());
    put_u32(out, c.table_oid);
    put_u16(out, c.column_attr);
    put_u32(out, c.data_type_oid);
    put_u16(out, c.data_type_size as u16);
    put_u32(out, c.type_modifier as u32);
    put_u16(out, c.format);
    assert(out@ =~= old(out)@ + column_bytes(c@));
}

fn put_data_row_fields(out: &mut Vec<u8>, fs: &Vec<Option<Vec<u8>>>) -> (r: Result<(), CodecError>)
    ensures
        r is Ok <==> forall|i: int| 0 <= i < fs@.len() ==> sized_ok(#[trigger] fields_view(fs@)[i]),
        r is Ok ==> final(out)@ == old(out)@ + fields_bytes(fields_view(fs@)),
        r is Err ==> r == Err::<(), CodecError>(CodecError::InvalidInput),
{
    let ghost v = fields_view(fs@);
    let mut i: usize = 0;
    assert(v.take(0) =~= Seq::<Option<Seq<u8>>>::empty());
    assert(fields_bytes(v.take(0)) == Seq::<u8>::empty());
    assert(out@ =~= old(out)@ + fields_bytes(v.take(0)));
    while i < fs.len()
        invariant
            i <= fs@.len(),
            v == fields_view(fs@),
            out@ == old(out)@ + fields_bytes(v.take(i as int)),
            forall|j: int| 0 <= j < i ==> sized_ok(#[trigger] v[j]),
        decreases fs@.len() - i,
    {
        let f = &fs[i];
        match f {
            Some(b) => {
                if b.len() >= NULL_LENGTH as usize {
                    assert(!sized_ok(v[i as int]));
                    return Err(CodecError::InvalidInput);
                }
            },
            None => {},
        }
        proof {
            lemma_fields_bytes(v, i as int);
        }
        put_sized(out, f);
        i = i + 1;
        assert(out@ =~= old(out)@ + fields_bytes(v.take(i as int)));
    }
    assert(v.take(i as int) =~= v);
    Ok(())
}

fn put_row_descriptions(out: &mut Vec<u8>, cs: &Vec<RowDescription>)
    ensures
        final(out)@ == old(out)@ + columns_bytes(columns_view(cs@)),
{
    let ghost v = columns_view(cs@);
    let mut i: usize = 0;
    assert(v.take(0) =~= Seq::<ColumnModel>::empty());
    assert(columns_bytes(v.take(0)) == Seq::<u8>::empty());
    assert(out@ =~= old(out)@ + columns_bytes(v.take(0)));
    while i < cs.len()
        invariant
            i <= cs@.len(),
            v == columns_view(cs@),
            out@ == old(out)@ + columns_bytes(v.take(i as int)),
        decreases cs@.len() - i,
    {
        proof {
            lemma_concat_map_push(v, |c: ColumnModel| column_bytes(c), i as int);
        }
        put_row_description(out, &cs[i]);
        i = i + 1;
        assert(out@ =~= old(out)@ + columns_bytes(v.take(i as int)));
    }
    assert(v.take(i as int) =~= v);
}

fn message_id_of(msg: &Message) -> (r: u8)
    requires
        !(msg@ is NotImplemented),
    ensures
        r == message_id(msg@),
{
    match msg {
        Message::NotImplemented(_) => 0,
        Message::AuthenticationOk() => ID_AUTHENTICATION,
        Message::AuthenticationSASL(_) => ID_AUTHENTICATION,
        Message::AuthenticationSASLContinue(_) => ID_AUTHENTICATION,
        Message::AuthenticationSASLFinal(_) => ID_AUTHENTICATION,
        Message::CommandComplete(_) => ID_COMMAND_COMPLETE,
        Message::BackendKeyData { .. } => ID_BACKEND_KEY_DATA,
        Message::DataRow(_) => ID_DATA_ROW,
        Message::EmptyQueryResponse() => ID_EMPTY_QUERY_RESPONSE,
        Message::ErrorResponse(_) => ID_ERROR_RESPONSE,
        Message::ParameterStatus { .. } => ID_PARAMETER_STATUS,
        Message::ReadyForQuery(_) => ID_READY_FOR_QUERY,
        Message::RowDescription(_) => ID_ROW_DESCRIPTION,
    }
}

/// Writes the payload of a modelled message; fails when a count or a field
/// length does not fit its wire field.
fn put_payload(msg: &Message, p: &mut Vec<u8>) -> (r: Result<(), CodecError>)
    requires
        !(msg@ is NotImplemented),
    ensures
        r is Ok <==> match msg@ {
            BackendModel::DataRow(fs) => fs.len() <= 0xFFFF && forall|i: int|
                0 <= i < fs.len() ==> sized_ok(#[trigger] fs[i]),
            BackendModel::RowDescription(cs) => cs.len() <= 0xFFFF,
            _ => true,
        },
        r is Ok ==> final(p)@ == old(p)@ + payload_bytes(msg@),
        r is Err ==> r == Err::<(), CodecError>(CodecError::InvalidInput),
{
    match msg {
        Message::NotImplemented(_) => {},
        Message::AuthenticationOk() => {
            put_u32(p, AUTH_OK);
        },
        Message::AuthenticationSASL(mech) => {
            put_u32(p, AUTH_SASL);
            put_cstr(p, mech.as_slice());
            put_u8(p, 0);
        },
        Message::AuthenticationSASLContinue(r) => {
            put_u32(p, AUTH_SASL_CONTINUE);
            put_slice(p, r.as_slice());
        },
        Message::AuthenticationSASLFinal(r) => {
            put_u32(p, AUTH_SASL_FINAL);
            put_slice(p, r.as_slice());
        },
        Message::CommandComplete(t) => {
            put_cstr(p, t.as_slice());
        },
        Message::BackendKeyData { process, secret_key } => {
            put_u32(p, *process);
            put_u32(p, *secret_key);
        },
        Message::DataRow(fs) => {
            if fs.len() > 0xFFFF {
                return Err(CodecError::InvalidInput);
            }
            put_u16(p, fs.len() as u16);
            put_data_row_fields(p, fs)?;
        },
        Message::EmptyQueryResponse() => {},
        Message::ErrorResponse(raw) => {
            put_slice(p, raw.as_slice());
        },
        Message::ParameterStatus { parameter, value } => {
            put_cstr(p, parameter.as_slice());
            put_cstr(p, value.as_slice());
        },
        Message::ReadyForQuery(st) => {
            put_u8(p, *st);
        },
        Message::RowDescription(cs) => {
            if cs.len() > 0xFFFF {
                return Err(CodecError::InvalidInput);
            }
            put_u16(p, cs.len() as u16);
            put_row_descriptions(p, cs);
        },
    }
    assert(p@ =~= old(p)@ + payload_bytes(msg@));
    Ok(())
}

/// Incremental decoder of server messages.
#[derive(Clone, Debug)]
pub struct Codec {
    state: DecodeState,
}

impl Default for Codec {
    fn default() -> (r: Codec)
        ensures
            r.state() == DecodeState::Head,
    {
        Codec::new()
    }
}

impl Codec {
    pub closed spec fn state(&self) -> DecodeState {
        self.state
    }

    /// A decoder that waits for a message header.
    pub fn new() -> (r: Codec)
        ensures
            r.state() == DecodeState::Head,
    {
        Codec { state: DecodeState::Head }
    }

    /// Reads the header at the front of `src` without consuming it: the
    /// length of its frame (the length field plus the identifier byte),
    /// `None` if fewer than 5 bytes are there, or an error if the length
    /// field is less than its own 4 bytes.
    fn decode_header(&self, src: &Vec<u8>) -> (r: Result<Option<u64>, CodecError>)
        ensures
            match r {
                Ok(None) => src@.len() < 5,
                Ok(Some(n)) => src@.len() >= 5 && length_field(src@) >= 4 && n == frame_length(src@),
                Err(e) => src@.len() >= 5 && length_field(src@) < 4 && e == CodecError::InvalidInput,
            },
    {
        if src.len() < 5 {
            return Ok(None);
        }
        let (n, _) = get_u32(src.as_slice(), 1)?;
        if n < 4 {
            return Err(CodecError::InvalidInput);
        }
        Ok(Some(n as u64 + 1))
    }

    /// Takes the frame of `n` bytes off the front of `src` and decodes it,
    /// or returns `Ok(None)` while it is incomplete.
    fn decode_message(&mut self, n: u64, src: &mut Vec<u8>) -> (r: Result<Option<Message>, CodecError>)
        ensures
            (final(self).state(), outcome_view(r), final(src)@) == decode_body(n, old(src)@),
    {
        if (src.len() as u64) < n {
            self.state = DecodeState::Message(n);
            return Ok(None);
        }
        let mut frame = src.split_off(n as usize);
        std::mem::swap(src, &mut frame);
        self.state = DecodeState::Head;
        match decode_frame(frame.as_slice()) {
            Ok(m) => Ok(Some(m)),
            Err(e) => Err(e),
        }
    }

    /// Decodes the next message at the front of `src`, consuming its bytes.
    /// `Ok(None)` asks for more bytes.
    pub fn decode(&mut self, src: &mut Vec<u8>) -> (r: Result<Option<Message>, CodecError>)
        ensures
            (final(self).state(), outcome_view(r), final(src)@) == decode_step(old(self).state(), old(src)@),
    {
        let n = match self.state {
            DecodeState::Head => match self.decode_header(src) {
                Ok(None) => {
                    return Ok(None);
                },
                Ok(Some(n)) => n,
                Err(e) => {
                    return Err(e);
                },
            },
            DecodeState::Message(n) => n,
        };
        self.decode_message(n, src)
    }

    /// Appends the frame of `msg` to `dst`. Fails, writing nothing, when a
    /// count, a field length or the frame length does not fit its wire field.
    pub fn encode(&mut self, msg: Message, dst: &mut Vec<u8>) -> (r: Result<(), CodecError>)
        ensures
            final(self).state() == old(self).state(),
            r is Ok <==> encodable(msg@),
            r is Ok ==> final(dst)@ == old(dst)@ + encode_message(msg@),
            r is Err ==> final(dst)@ == old(dst)@ && r == Err::<(), CodecError>(
                CodecError::InvalidInput,
            ),
    {
        if let Message::NotImplemented(raw) = &msg {
            put_slice(dst, raw.as_slice());
            return Ok(());
        }
        let mut p: Vec<u8> = Vec::new();
        put_payload(&msg, &mut p)?;
        assert(p@ =~= payload_bytes(msg@));
        if p.len() > 0xFFFF_FFFF - 4 {
            return Err(CodecError::InvalidInput);
        }
        put_u8(dst, message_id_of(&msg));
        put_u32(dst, (p.len() + 4) as u32);
        put_slice(dst, p.as_slice());
        assert(dst@ =~= old(dst)@ + encode_message(msg@));
        Ok(())
    }
}

} // verus!
