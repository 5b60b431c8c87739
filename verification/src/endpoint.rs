//! The network endpoint and its IP address codec.
//!
//! An address travels as a raw byte string of exactly 4 or 16 octets; an
//! endpoint is a three-field record of address, UDP port and TCP port.  The
//! models here are the address octets and the two ports, and every encoder
//! and decoder is specified against them.

use crate::wire::{
    enc_bytes, enc_uint, lemma_enc_uint_len, lemma_parse_list_header_at,
    lemma_parse_str_header_at, lemma_parse_uint_at, lemma_pow256_8, lemma_subrange_split,
    list_header, parse_list_header, parse_str_header, parse_uint, push_bytes,
    push_list_header, push_uint, read_array, read_list_header, read_str_header, read_uint,
    uint_len, DecodeError,
};
use vstd::prelude::*;

verus! {

/// A raw IP address: exactly the 4 or 16 octets it is sent as.
#[derive(Clone, Copy, Debug, PartialEq, Eq, Hash)]
pub enum Ip {
    V4([u8; 4]),
    V6([u8; 16]),
}

impl View for Ip {
    type V = Seq<u8>;

    open spec fn view(&self) -> Seq<u8> {
        match self {
            Ip::V4(a) => a@,
            Ip::V6(a) => a@,
        }
    }
}

/// A node's reachable address: where to send UDP datagrams and where to
/// dial TCP.
#[derive(Clone, Copy, Debug, PartialEq, Eq, Hash)]
pub struct Endpoint {
    pub address: Ip,
    pub udp_port: u16,
    pub tcp_port: u16,
}

/// The mathematical value of an endpoint: address octets and ports.
#[verifier::ext_equal]
pub struct EndpointModel {
    pub addr: Seq<u8>,
    pub udp: u16,
    pub tcp: u16,
}

impl View for Endpoint {
    type V = EndpointModel;

    open spec fn view(&self) -> EndpointModel {
        EndpointModel { addr: self.address@, udp: self.udp_port, tcp: self.tcp_port }
    }
}

/// An endpoint model that some `Endpoint` value can hold.
pub open spec fn ep_wf(m: EndpointModel) -> bool {
    m.addr.len() == 4 || m.addr.len() == 16
}

/// The payload of an encoded endpoint: its three fields in order.
pub open spec fn ep_payload(m: EndpointModel) -> Seq<u8> {
    enc_bytes(m.addr) + enc_uint(m.udp as u64) + enc_uint(m.tcp as u64)
}

/// An endpoint as a wire item: a list of address, UDP port, TCP port.
pub open spec fn enc_endpoint(m: EndpointModel) -> Seq<u8> {
    list_header(ep_payload(m).len()) + ep_payload(m)
}

/// Reads an address item: the payload must be empty (rejected as such),
/// 4 octets, or 16 octets; any other length is reported, never guessed at.
pub open spec fn parse_ip(s: Seq<u8>, i: int, limit: int) -> Result<(Seq<u8>, int), DecodeError>
    recommends
        0 <= i,
        limit <= s.len(),
{
    match parse_str_header(s, i, limit) {
        Ok((ps, pe)) => {
            if pe - ps == 0 {
                Err(DecodeError::EmptyAddress)
            } else if pe - ps == 4 || pe - ps == 16 {
                Ok((s.subrange(ps, pe), pe))
            } else {
                Err(DecodeError::InvalidAddressLength((pe - ps) as usize))
            }
        },
        Err(e) => Err(e),
    }
}

/// Reads a port: an integer item that must fit in sixteen bits.
pub open spec fn parse_u16(s: Seq<u8>, i: int, limit: int) -> Result<(u16, int), DecodeError>
    recommends
        0 <= i,
        limit <= s.len(),
{
    match parse_uint(s, i, limit) {
        Ok((v, j)) => {
            if v > 0xffff {
                Err(DecodeError::MalformedField)
            } else {
                Ok((v as u16, j))
            }
        },
        Err(e) => Err(e),
    }
}

/// Reads an endpoint: a list of exactly address, UDP port, TCP port.
pub open spec fn parse_endpoint(s: Seq<u8>, i: int, limit: int) -> Result<
    (EndpointModel, int),
    DecodeError,
>
    recommends
        0 <= i,
        limit <= s.len(),
{
    match parse_list_header(s, i, limit) {
        Err(e) => Err(e),
        Ok((ps, pe)) => match parse_ip(s, ps, pe) {
            Err(e) => Err(e),
            Ok((addr, j1)) => match parse_u16(s, j1, pe) {
                Err(e) => Err(e),
                Ok((udp, j2)) => match parse_u16(s, j2, pe) {
                    Err(e) => Err(e),
                    Ok((tcp, j3)) => {
                        if j3 == pe {
                            Ok((EndpointModel { addr, udp, tcp }, pe))
                        } else {
                            Err(DecodeError::FieldCountMismatch)
                        }
                    },
                },
            },
        },
    }
}

/// An address item alone as a whole input.
pub open spec fn parse_ip_msg(s: Seq<u8>) -> Result<Seq<u8>, DecodeError> {
    match parse_ip(s, 0, s.len() as int) {
        Ok((a, _)) => Ok(a),
        Err(e) => Err(e),
    }
}

/// An endpoint alone as a whole input.
pub open spec fn parse_endpoint_msg(s: Seq<u8>) -> Result<EndpointModel, DecodeError> {
    match parse_endpoint(s, 0, s.len() as int) {
        Ok((m, _)) => Ok(m),
        Err(e) => Err(e),
    }
}

/// Parsing recovers an address item laid down at position `i`.
pub proof fn lemma_parse_ip_at(s: Seq<u8>, i: int, limit: int, addr: Seq<u8>)
    requires
        0 <= i,
        i + enc_bytes(addr).len() <= limit,
        limit <= s.len(),
        addr.len() == 4 || addr.len() == 16,
        s.subrange(i, i + enc_bytes(addr).len()) == enc_bytes(addr),
    ensures
        parse_ip(s, i, limit) == Ok::<(Seq<u8>, int), DecodeError>(
            (addr, i + enc_bytes(addr).len()),
        ),
{
    lemma_pow256_8();
    lemma_parse_str_header_at(s, i, limit, addr);
}

/// Parsing recovers a port laid down at position `i`.
pub proof fn lemma_parse_u16_at(s: Seq<u8>, i: int, limit: int, v: u16)
    requires
        0 <= i,
        i + enc_uint(v as u64).len() <= limit,
        limit <= s.len(),
        s.subrange(i, i + enc_uint(v as u64).len()) == enc_uint(v as u64),
    ensures
        parse_u16(s, i, limit) == Ok::<(u16, int), DecodeError>(
            (v, i + enc_uint(v as u64).len()),
        ),
{
    lemma_parse_uint_at(s, i, limit, v as u64);
}

/// The encoded endpoint payload is short: its list header is one byte.
pub proof fn lemma_ep_payload_len(m: EndpointModel)
    requires
        ep_wf(m),
    ensures
        ep_payload(m).len() <= 35,
        enc_endpoint(m).len() == 1 + ep_payload(m).len(),
{
    lemma_enc_uint_len(m.udp as u64);
    lemma_enc_uint_len(m.tcp as u64);
}

/// Parsing recovers an endpoint laid down at position `i`.
pub proof fn lemma_parse_endpoint_at(s: Seq<u8>, i: int, limit: int, m: EndpointModel)
    requires
        0 <= i,
        i + enc_endpoint(m).len() <= limit,
        limit <= s.len(),
        ep_wf(m),
        s.subrange(i, i + enc_endpoint(m).len()) == enc_endpoint(m),
    ensures
        parse_endpoint(s, i, limit) == Ok::<(EndpointModel, int), DecodeError>(
            (m, i + enc_endpoint(m).len()),
        ),
{
    let a = enc_bytes(m.addr);
    let b = enc_uint(m.udp as u64);
    let c = enc_uint(m.tcp as u64);
    let p = ep_payload(m);
    lemma_ep_payload_len(m);
    lemma_pow256_8();
    lemma_parse_list_header_at(s, i, limit, p);
    let ps = i + list_header(p.len()).len();
    let pe = ps + p.len();
    assert(p =~= a + (b + c));
    lemma_subrange_split(s, ps, a, b + c);
    lemma_subrange_split(s, ps + a.len(), b, c);
    lemma_parse_ip_at(s, ps, pe, m.addr);
    lemma_parse_u16_at(s, ps + a.len(), pe, m.udp);
    lemma_parse_u16_at(s, ps + a.len() + b.len(), pe, m.tcp);
    assert(EndpointModel { addr: m.addr, udp: m.udp, tcp: m.tcp } =~= m);
}

/// Law: an address of four or sixteen octets decodes back from its own
/// encoding.
pub proof fn lemma_ip_round_trip(addr: Seq<u8>)
    requires
        addr.len() == 4 || addr.len() == 16,
    ensures
        parse_ip_msg(enc_bytes(addr)) == Ok::<Seq<u8>, DecodeError>(addr),
{
    let s = enc_bytes(addr);
    assert(s.subrange(0, s.len() as int) =~= s);
    lemma_parse_ip_at(s, 0, s.len() as int, addr);
}

/// Law: an address item of any other payload length is rejected — empty as
/// such, the rest with the offending length — never truncated or padded.
pub proof fn lemma_ip_rejects_wrong_length(s: Seq<u8>, ps: int, pe: int)
    requires
        parse_str_header(s, 0, s.len() as int) == Ok::<(int, int), DecodeError>((ps, pe)),
    ensures
        pe - ps == 0 ==> parse_ip_msg(s) == Err::<Seq<u8>, DecodeError>(DecodeError::EmptyAddress),
        pe - ps != 0 && pe - ps != 4 && pe - ps != 16 ==> parse_ip_msg(s) == Err::<
            Seq<u8>,
            DecodeError,
        >(DecodeError::InvalidAddressLength((pe - ps) as usize)),
{
}

/// Law: an endpoint decodes back from its own encoding.
pub proof fn lemma_endpoint_round_trip(m: EndpointModel)
    requires
        ep_wf(m),
    ensures
        parse_endpoint_msg(enc_endpoint(m)) == Ok::<EndpointModel, DecodeError>(m),
{
    let s = enc_endpoint(m);
    assert(s.subrange(0, s.len() as int) =~= s);
    lemma_parse_endpoint_at(s, 0, s.len() as int, m);
}

impl Ip {
    /// Serializes the address as a byte-string item.
    pub fn encode(&self) -> (out: Vec<u8>)
        ensures
            out@ == enc_bytes(self@),
    {
        let mut out: Vec<u8> = Vec::new();
        match self {
            Ip::V4(a) => push_bytes(a.as_slice(), &mut out),
            Ip::V6(a) => push_bytes(a.as_slice(), &mut out),
        }
        proof {
            assert(out@ =~= enc_bytes(self@));
        }
        out
    }

    /// The number of bytes `encode` produces: header plus octets.
    pub fn length(&self) -> (n: usize)
        ensures
            n == enc_bytes(self@).len(),
    {
        match self {
            Ip::V4(_) => 5,
            Ip::V6(_) => 17,
        }
    }

    /// Parses one address item from the front of `b`.
    pub fn decode(b: &[u8]) -> (r: Result<Ip, DecodeError>)
        ensures
            match r {
                Ok(ip) => parse_ip_msg(b@) == Ok::<Seq<u8>, DecodeError>(ip@),
                Err(e) => parse_ip_msg(b@) == Err::<Seq<u8>, DecodeError>(e),
            },
    {
        match read_ip(b, 0, b.len()) {
            Ok((ip, _)) => Ok(ip),
            Err(e) => Err(e),
        }
    }
}

/// Reads an address item; the executable twin of `parse_ip`.
pub(crate) fn read_ip(s: &[u8], i: usize, limit: usize) -> (r: Result<(Ip, usize), DecodeError>)
    requires
        i <= limit <= s@.len(),
    ensures
        match r {
            Ok(p) => parse_ip(s@, i as int, limit as int) == Ok::<(Seq<u8>, int), DecodeError>(
                (p.0@, p.1 as int),
            ) && i < p.1 <= limit,
            Err(e) => parse_ip(s@, i as int, limit as int) == Err::<(Seq<u8>, int), DecodeError>(e),
        },
{
    match read_str_header(s, i, limit) {
        Err(e) => Err(e),
        Ok((ps, pe)) => {
            let l = pe - ps;
            if l == 0 {
                Err(DecodeError::EmptyAddress)
            } else if l == 4 {
                let a: [u8; 4] = read_array::<4>(s, ps);
                Ok((Ip::V4(a), pe))
            } else if l == 16 {
                let a: [u8; 16] = read_array::<16>(s, ps);
                Ok((Ip::V6(a), pe))
            } else {
                Err(DecodeError::InvalidAddressLength(l))
            }
        },
    }
}

/// Reads a port; the executable twin of `parse_u16`.
pub(crate) fn read_u16(s: &[u8], i: usize, limit: usize) -> (r: Result<(u16, usize), DecodeError>)
    requires
        i <= limit <= s@.len(),
    ensures
        match r {
            Ok(p) => parse_u16(s@, i as int, limit as int) == Ok::<(u16, int), DecodeError>(
                (p.0, p.1 as int),
            ) && i < p.1 <= limit,
            Err(e) => parse_u16(s@, i as int, limit as int) == Err::<(u16, int), DecodeError>(e),
        },
{
    match read_uint(s, i, limit) {
        Err(e) => Err(e),
        Ok((v, j)) => {
            if v > 0xffff {
                Err(DecodeError::MalformedField)
            } else {
                Ok((v as u16, j))
            }
        },
    }
}

/// Appends an encoded endpoint.
pub(crate) fn push_endpoint(e: &Endpoint, out: &mut Vec<u8>)
    ensures
        final(out)@ == old(out)@ + enc_endpoint(e@),
{
    let mut p: Vec<u8> = Vec::new();
    match &e.address {
        Ip::V4(a) => push_bytes(a.as_slice(), &mut p),
        Ip::V6(a) => push_bytes(a.as_slice(), &mut p),
    }
    push_uint(e.udp_port as u64, &mut p);
    push_uint(e.tcp_port as u64, &mut p);
    proof {
        assert(p@ =~= ep_payload(e@));
    }
    push_list_header(p.len(), out);
    out.append(&mut p);
    proof {
        assert(out@ =~= old(out)@ + enc_endpoint(e@));
    }
}

/// Reads an endpoint; the executable twin of `parse_endpoint`.
pub(crate) fn read_endpoint(s: &[u8], i: usize, limit: usize) -> (r: Result<
    (Endpoint, usize),
    DecodeError,
>)
    requires
        i <= limit <= s@.len(),
    ensures
        match r {
            Ok(p) => parse_endpoint(s@, i as int, limit as int) == Ok::<
                (EndpointModel, int),
                DecodeError,
            >((p.0@, p.1 as int)) && i < p.1 <= limit,
            Err(e) => parse_endpoint(s@, i as int, limit as int) == Err::<
                (EndpointModel, int),
                DecodeError,
            >(e),
        },
{
    let (ps, pe) = match read_list_header(s, i, limit) {
        Ok(x) => x,
        Err(e) => {
            return Err(e);
        },
    };
    let (addr, j1) = match read_ip(s, ps, pe) {
        Ok(x) => x,
        Err(e) => {
            return Err(e);
        },
    };
    let (udp, j2) = match read_u16(s, j1, pe) {
        Ok(x) => x,
        Err(e) => {
            return Err(e);
        },
    };
    let (tcp, j3) = match read_u16(s, j2, pe) {
        Ok(x) => x,
        Err(e) => {
            return Err(e);
        },
    };
    if j3 == pe {
        Ok((Endpoint { address: addr, udp_port: udp, tcp_port: tcp }, pe))
    } else {
        Err(DecodeError::FieldCountMismatch)
    }
}

/// The number of bytes an encoded endpoint occupies.
pub(crate) fn endpoint_length(e: &Endpoint) -> (n: usize)
    ensures
        n == enc_endpoint(e@).len(),
        n <= 36,
{
    proof {
        lemma_ep_payload_len(e@);
        lemma_enc_uint_len(e.udp_port as u64);
        lemma_enc_uint_len(e.tcp_port as u64);
    }
    1 + e.address.length() + uint_len(e.udp_port as u64) + uint_len(e.tcp_port as u64)
}

impl Endpoint {
    /// Serializes the endpoint as a three-field list item.
    pub fn encode(&self) -> (out: Vec<u8>)
        ensures
            out@ == enc_endpoint(self@),
    {
        let mut out: Vec<u8> = Vec::new();
        push_endpoint(self, &mut out);
        proof {
            assert(out@ =~= enc_endpoint(self@));
        }
        out
    }

    /// Parses one endpoint from the front of `b`.
    pub fn decode(b: &[u8]) -> (r: Result<Endpoint, DecodeError>)
        ensures
            match r {
                Ok(e) => parse_endpoint_msg(b@) == Ok::<EndpointModel, DecodeError>(e@),
                Err(e) => parse_endpoint_msg(b@) == Err::<EndpointModel, DecodeError>(e),
            },
    {
        match read_endpoint(b, 0, b.len()) {
            Ok((e, _)) => Ok(e),
            Err(e) => Err(e),
        }
    }
}

} // verus!
