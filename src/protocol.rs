//! Messages of the client/server wire protocol (version 3) that the engine
//! exchanges at start-up and per query: building and reading their bytes.
use vstd::prelude::*;

use crate::Error;

verus! {

pub const AUTH_TYPE_OK: u32 = 0;

pub const PROTOCOL_VERSION_NUMBER: u32 = 196608;

pub const SSL_REQUEST_NUMBER: u32 = 80877103;

pub const COMMAND_COMPLETE_TAG: u8 = 67;

pub const EMPTY_QUERY_RESPONSE_TAG: u8 = 73;

pub const BACKEND_KEY_DATA_TAG: u8 = 75;

pub const AUTHENTICATION_TAG: u8 = 82;

pub const PARAMETER_STATUS_TAG: u8 = 83;

pub const READY_FOR_QUERY_TAG: u8 = 90;

pub const ROW_DESCRIPTION_TAG: u8 = 84;

/// A message sent by the client.
#[derive(Debug, Clone, PartialEq, Eq)]
pub enum FrontendMessage {
    StartupMessage(StartupMessage),
    Query(Query),
}

/// A simple query: its text, UTF-8.
#[derive(Debug, Clone, PartialEq, Eq)]
pub struct Query {
    pub query: Vec<u8>,
}

/// The first message of a session: protocol version and parameters.
#[derive(Debug, Clone, PartialEq, Eq)]
pub struct StartupMessage {
    pub protocol_version: u32,
    /// Name and value of each parameter, in the order sent.
    pub parameters: Vec<(Vec<u8>, Vec<u8>)>,
}

pub struct ReadyForQuery;

pub struct CommandComplete;

pub struct AuthenticationOk;

/// Big-endian bytes of a 32-bit value.
pub open spec fn be4(v: u32) -> Seq<u8> {
    seq![(v / 16777216) as u8, ((v / 65536) % 256) as u8, ((v / 256) % 256) as u8, (v % 256) as u8]
}

pub open spec fn get_be32(b: Seq<u8>, i: int) -> u32 {
    (b[i] as int * 16777216 + b[i + 1] as int * 65536 + b[i + 2] as int * 256 + b[i + 3] as int) as u32
}

fn push_be4(out: &mut Vec<u8>, v: u32)
    ensures
        final(out)@ == old(out)@ + be4(v),
{
    out.push((v / 16777216) as u8);
    out.push(((v / 65536) % 256) as u8);
    out.push(((v / 256) % 256) as u8);
    out.push((v % 256) as u8);
    assert(final(out)@ =~= old(out)@ + be4(v));
}

fn push_all(out: &mut Vec<u8>, b: &[u8])
    ensures
        final(out)@ == old(out)@ + b@,
{
    let mut k: usize = 0;
    while k < b.len()
        invariant
            k <= b@.len(),
            out@ == old(out)@ + b@.subrange(0, k as int),
        decreases b@.len() - k,
    {
        out.push(b[k]);
        k = k + 1;
        assert(out@ =~= old(out)@ + b@.subrange(0, k as int));
    }
    assert(b@.subrange(0, k as int) =~= b@);
}

/// `SELECT 0`
pub open spec fn select_tag() -> Seq<u8> {
    seq![83u8, 69, 76, 69, 67, 84, 32, 48]
}

/// `TimeZone`, then `America/Sao_Paulo`, each ending in a zero byte.
pub open spec fn time_zone_status() -> Seq<u8> {
    seq![84u8, 105, 109, 101, 90, 111, 110, 101, 0]
        + seq![65u8, 109, 101, 114, 105, 99, 97, 47, 83, 97, 111, 95, 80, 97, 117, 108, 111, 0]
}

impl AuthenticationOk {
    /// The authentication-ok message: tag, length 8, auth type 0.
    pub fn encode() -> (r: Vec<u8>)
        ensures
            r@ == seq![AUTHENTICATION_TAG] + be4(8) + be4(AUTH_TYPE_OK),
    {
        let mut r: Vec<u8> = Vec::new();
        r.push(AUTHENTICATION_TAG);
        push_be4(&mut r, 8);
        push_be4(&mut r, AUTH_TYPE_OK);
        assert(r@ =~= seq![AUTHENTICATION_TAG] + be4(8) + be4(AUTH_TYPE_OK));
        r
    }
}

impl CommandComplete {
    /// The command-complete message for a `SELECT 0`.
    pub fn encode() -> (r: Vec<u8>)
        ensures
            r@ == seq![COMMAND_COMPLETE_TAG] + be4(13) + select_tag() + seq![0u8],
    {
        let mut r: Vec<u8> = Vec::new();
        r.push(COMMAND_COMPLETE_TAG);
        push_be4(&mut r, 13);
        let tag: [u8; 8] = [83u8, 69, 76, 69, 67, 84, 32, 48];
        assert(tag@ =~= select_tag());
        push_all(&mut r, &tag);
        r.push(0);
        assert(r@ =~= seq![COMMAND_COMPLETE_TAG] + be4(13) + select_tag() + seq![0u8]);
        r
    }
}

impl ReadyForQuery {
    /// Backend key data (process 42, key 12345), the time-zone parameter
    /// status, and ready-for-query in the idle state.
    pub fn encode() -> (r: Vec<u8>)
        ensures
            r@ == seq![BACKEND_KEY_DATA_TAG] + be4(12) + be4(42) + be4(12345)
                + seq![PARAMETER_STATUS_TAG] + be4(31) + time_zone_status()
                + seq![READY_FOR_QUERY_TAG, 0u8, 0u8, 0u8, 5u8, EMPTY_QUERY_RESPONSE_TAG],
    {
        let mut r: Vec<u8> = Vec::new();
        r.push(BACKEND_KEY_DATA_TAG);
        push_be4(&mut r, 12);
        push_be4(&mut r, 42);
        push_be4(&mut r, 12345);
        r.push(PARAMETER_STATUS_TAG);
        push_be4(&mut r, 31);
        let status: [u8; 27] = [84u8, 105, 109, 101, 90, 111, 110, 101, 0, 65, 109, 101, 114, 105, 99, 97, 47, 83, 97, 111, 95, 80, 97, 117, 108, 111, 0];
        assert(status@ =~= time_zone_status());
        push_all(&mut r, &status);
        let ready: [u8; 6] = [READY_FOR_QUERY_TAG, 0u8, 0u8, 0u8, 5u8, EMPTY_QUERY_RESPONSE_TAG];
        push_all(&mut r, &ready);
        assert(r@ =~= seq![BACKEND_KEY_DATA_TAG] + be4(12) + be4(42) + be4(12345)
            + seq![PARAMETER_STATUS_TAG] + be4(31) + time_zone_status()
            + seq![READY_FOR_QUERY_TAG, 0u8, 0u8, 0u8, 5u8, EMPTY_QUERY_RESPONSE_TAG]);
        r
    }
}

fn read_be32(b: &Vec<u8>, i: usize) -> (r: u32)
    requires
        i + 4 <= b.len(),
    ensures
        r == get_be32(b@, i as int),
{
    b[i] as u32 * 16777216 + b[i + 1] as u32 * 65536 + b[i + 2] as u32 * 256 + b[i + 3] as u32
}

impl Query {
    /// Reads a query message body: a four-byte big-endian length counting
    /// itself, then the query text and its terminating zero byte. Fails
    /// with `CodecError` when the bytes are shorter than the length says or
    /// the length is below four.
    pub fn decode(src: &Vec<u8>) -> (r: Result<FrontendMessage, Error>)
        ensures
            (src@.len() >= 4 && get_be32(src@, 0) >= 4 && src@.len() >= get_be32(src@, 0)) <==> r is Ok,
            r matches Ok(m) ==> m matches FrontendMessage::Query(q) && ({
                let n = get_be32(src@, 0) as int;
                q.query@ == if n > 4 { src@.subrange(4, n - 1) } else { seq![] }
            }),
            r matches Err(e) ==> e == Error::CodecError,
    {
        if src.len() < 4 {
            return Err(Error::CodecError);
        }
        let n = read_be32(src, 0) as usize;
        if n < 4 || src.len() < n {
            return Err(Error::CodecError);
        }
        let query = if n > 4 { crate::page::copy_range(src, 4, n - 1) } else { Vec::new() };
        assert(query@ == if n > 4 { src@.subrange(4, n - 1) } else { Seq::<u8>::empty() });
        Ok(FrontendMessage::Query(Query { query }))
    }
}


/// Index of the first zero byte of `s` at or after `i`.
pub open spec fn cstr_end(s: Seq<u8>, i: int) -> Option<int>
    decreases s.len() - i,
{
    if i < 0 || i >= s.len() {
        None
    } else if s[i] == 0 {
        Some(i)
    } else {
        cstr_end(s, i + 1)
    }
}

pub open spec fn prepend_param(p: (Seq<u8>, Seq<u8>), o: Option<Seq<(Seq<u8>, Seq<u8>)>>) -> Option<Seq<(Seq<u8>, Seq<u8>)>> {
    match o {
        Some(ps) => Some(seq![p] + ps),
        None => None,
    }
}

/// The name/value pairs from index `i` on: zero-terminated strings in
/// pairs, ending at the end of the bytes or at an empty name.
pub open spec fn parse_params(s: Seq<u8>, i: int) -> Option<Seq<(Seq<u8>, Seq<u8>)>>
    decreases s.len() - i,
{
    if i < 0 || i >= s.len() || s[i] == 0 {
        Some(seq![])
    } else {
        match cstr_end(s, i) {
            Some(k) => match cstr_end(s, k + 1) {
                Some(v) => if i < v + 1 <= s.len() {
                    prepend_param((s.subrange(i, k), s.subrange(k + 1, v)), parse_params(s, v + 1))
                } else {
                    None
                },
                None => None,
            },
            None => None,
        }
    }
}

proof fn lemma_cstr_end_bounds(s: Seq<u8>, i: int)
    requires
        cstr_end(s, i) is Some,
    ensures
        i <= cstr_end(s, i)->0 < s.len(),
        s[cstr_end(s, i)->0] == 0,
        forall|j: int| i <= j < cstr_end(s, i)->0 ==> s[j] != 0,
    decreases s.len() - i,
{
    if 0 <= i < s.len() && s[i] != 0 {
        lemma_cstr_end_bounds(s, i + 1);
    }
}

/// Index of the first zero byte of `s` at or after `i`, if any.
fn find_nul(s: &Vec<u8>, i: usize) -> (r: Option<usize>)
    ensures
        r matches Some(k) ==> cstr_end(s@, i as int) == Some(k as int),
        r is None ==> cstr_end(s@, i as int) is None,
{
    let mut j: usize = i;
    while j < s.len()
        invariant
            i <= j,
            cstr_end(s@, i as int) == cstr_end(s@, j as int),
        decreases s@.len() - j,
    {
        if s[j] == 0 {
            return Some(j);
        }
        j = j + 1;
    }
    None
}

impl StartupMessage {
    /// Reads a start-up message body: the protocol version, four bytes
    /// big-endian, then zero-terminated name and value strings in pairs,
    /// up to the end or an empty name. Fails with `CodecError` when the body
    /// is shorter than four bytes or a string lacks its terminator.
    pub fn decode(src: &Vec<u8>) -> (r: Result<FrontendMessage, Error>)
        ensures
            (src@.len() >= 4 && parse_params(src@, 4) is Some) <==> r is Ok,
            r matches Ok(m) ==> m matches FrontendMessage::StartupMessage(sm)
                && sm.protocol_version == get_be32(src@, 0)
                && parse_params(src@, 4) == Some(sm.parameters@.map_values(|p: (Vec<u8>, Vec<u8>)| (p.0@, p.1@))),
            r matches Err(e) ==> e == Error::CodecError,
    {
        if src.len() < 4 {
            return Err(Error::CodecError);
        }
        let protocol_version = read_be32(src, 0);
        let mut parameters: Vec<(Vec<u8>, Vec<u8>)> = Vec::new();
        let mut pos: usize = 4;
        let ghost s = src@;
        while pos < src.len() && src[pos] != 0
            invariant
                s == src@,
                4 <= pos <= src@.len(),
                parse_params(s, 4) == match parse_params(s, pos as int) {
                    Some(rest) => Some(parameters@.map_values(|p: (Vec<u8>, Vec<u8>)| (p.0@, p.1@)) + rest),
                    None => None,
                },
            decreases src@.len() - pos,
        {
            let ghost before = parameters@.map_values(|p: (Vec<u8>, Vec<u8>)| (p.0@, p.1@));
            let k = match find_nul(src, pos) {
                Some(k) => k,
                None => return Err(Error::CodecError),
            };
            proof {
                lemma_cstr_end_bounds(s, pos as int);
            }
            let v = match find_nul(src, k + 1) {
                Some(v) => v,
                None => return Err(Error::CodecError),
            };
            proof {
                lemma_cstr_end_bounds(s, k + 1);
            }
            let name = crate::page::copy_range(src, pos, k);
            let value = crate::page::copy_range(src, k + 1, v);
            let ghost pair = (name@, value@);
            parameters.push((name, value));
            proof {
                let after = parameters@.map_values(|p: (Vec<u8>, Vec<u8>)| (p.0@, p.1@));
                assert(after =~= before.push(pair));
                match parse_params(s, v + 1) {
                    Some(rest) => {
                        assert(before + (seq![pair] + rest) =~= after + rest);
                    },
                    None => {},
                }
            }
            pos = v + 1;
        }
        proof {
            let done = parameters@.map_values(|p: (Vec<u8>, Vec<u8>)| (p.0@, p.1@));
            assert(done + seq![] =~= done);
        }
        Ok(FrontendMessage::StartupMessage(StartupMessage { protocol_version, parameters }))
    }
}


/// Description of one column of a result.
#[derive(Debug, Clone, PartialEq, Eq)]
pub struct FieldDescription {
    /// Column name, UTF-8.
    pub name: Vec<u8>,
    pub table_oid: u32,
    pub table_attribute_number: u16,
    pub data_type_oid: u32,
    pub data_type_size: i16,
    pub type_modifier: i32,
    pub format: i16,
}

/// The columns of a result.
#[derive(Debug, Clone, PartialEq, Eq)]
pub struct RowDescriptor {
    pub fields: Vec<FieldDescription>,
}

/// Big-endian bytes of a 16-bit value.
pub open spec fn be2(v: u16) -> Seq<u8> {
    seq![(v / 256) as u8, (v % 256) as u8]
}

/// One column's description: its name and a zero byte, then table,
/// attribute number, type, type size, type modifier and format, big-endian.
pub open spec fn field_bytes(f: FieldDescription) -> Seq<u8> {
    f.name@ + seq![0u8] + be4(f.table_oid) + be2(f.table_attribute_number) + be4(f.data_type_oid)
        + be2(f.data_type_size as u16) + be4(f.type_modifier as u32) + be2(f.format as u16)
}

pub open spec fn fields_bytes(fs: Seq<FieldDescription>) -> Seq<u8>
    decreases fs.len(),
{
    if fs.len() == 0 {
        seq![]
    } else {
        fields_bytes(fs.drop_last()) + field_bytes(fs.last())
    }
}

/// The body of a row-description message: the column count, then each column.
pub open spec fn row_description_body(fs: Seq<FieldDescription>) -> Seq<u8> {
    be2(fs.len() as u16) + fields_bytes(fs)
}

fn push_be2(out: &mut Vec<u8>, v: u16)
    ensures
        final(out)@ == old(out)@ + be2(v),
{
    out.push((v / 256) as u8);
    out.push((v % 256) as u8);
    assert(final(out)@ =~= old(out)@ + be2(v));
}

impl RowDescriptor {
    /// The row-description message: tag, length counting itself, body.
    /// Fails with `CodecError` when there are more columns than a count
    /// holds or the message is longer than a signed length holds.
    pub fn encode(&self) -> (r: Result<Vec<u8>, Error>)
        ensures
            (self.fields@.len() <= u16::MAX && row_description_body(self.fields@).len() + 4 <= i32::MAX) <==> r is Ok,
            r matches Ok(b) ==> b@ == seq![ROW_DESCRIPTION_TAG]
                + be4((row_description_body(self.fields@).len() + 4) as u32) + row_description_body(self.fields@),
            r matches Err(e) ==> e == Error::CodecError,
    {
        let n = self.fields.len();
        if n > u16::MAX as usize {
            return Err(Error::CodecError);
        }
        let mut body: Vec<u8> = Vec::new();
        push_be2(&mut body, n as u16);
        let mut k: usize = 0;
        while k < n
            invariant
                n == self.fields@.len(),
                n <= u16::MAX,
                k <= n,
                body@ == be2(n as u16) + fields_bytes(self.fields@.subrange(0, k as int)),
            decreases n - k,
        {
            let f = &self.fields[k];
            let ghost before = body@;
            push_all(&mut body, f.name.as_slice());
            body.push(0);
            push_be4(&mut body, f.table_oid);
            push_be2(&mut body, f.table_attribute_number);
            push_be4(&mut body, f.data_type_oid);
            push_be2(&mut body, f.data_type_size as u16);
            push_be4(&mut body, f.type_modifier as u32);
            push_be2(&mut body, f.format as u16);
            proof {
                let sub = self.fields@.subrange(0, k + 1);
                assert(sub.drop_last() =~= self.fields@.subrange(0, k as int));
                assert(sub.last() == *f);
                assert(body@ =~= before + field_bytes(*f));
                assert(body@ =~= be2(n as u16) + fields_bytes(sub));
            }
            k = k + 1;
        }
        proof {
            assert(self.fields@.subrange(0, n as int) =~= self.fields@);
        }
        if body.len() > (i32::MAX as usize) - 4 {
            return Err(Error::CodecError);
        }
        let mut out: Vec<u8> = Vec::new();
        out.push(ROW_DESCRIPTION_TAG);
        push_be4(&mut out, (body.len() + 4) as u32);
        push_all(&mut out, body.as_slice());
        assert(out@ =~= seq![ROW_DESCRIPTION_TAG] + be4((row_description_body(self.fields@).len() + 4) as u32) + row_description_body(self.fields@));
        Ok(out)
    }
}

} // verus!
