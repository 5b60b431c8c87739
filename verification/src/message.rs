//! The four discovery message bodies and their codecs.
//!
//! FindNode and Neighbours each have one canonical wire shape.  Ping and
//! Pong have two historically valid shapes: the canonical one, and an
//! extended one with a trailing record-sequence number that newer peers
//! append.  The decoder accepts both, keeps the canonical fields, and
//! retries the extended shape only on a field-count mismatch, so genuine
//! corruption is never mistaken for a version difference.  The laws at the
//! end of this module state and prove the round-trip and compatibility
//! guarantees.

use crate::endpoint::{
    enc_endpoint, ep_wf, lemma_ep_payload_len, lemma_parse_endpoint_at, lemma_parse_ip_at,
    lemma_parse_u16_at, parse_endpoint, parse_ip, parse_u16, push_endpoint, read_endpoint,
    read_ip, read_u16, Endpoint, EndpointModel, Ip,
};
use crate::wire::{
    enc_bytes, enc_uint, lemma_be_bytes_len, lemma_enc_uint_len, lemma_parse_fixed_at,
    lemma_parse_list_header_at, lemma_parse_uint_at, lemma_pow256_8, lemma_subrange_split,
    list_header, parse_fixed, parse_list_header, parse_uint, pow256, push_bytes, push_list_header,
    push_uint, read_fixed_array, read_list_header, read_uint, uint_len, DecodeError,
};
use vstd::prelude::*;

verus! {

/// An opaque node identifier: the 64 bytes of a public key.
#[derive(Clone, Copy, Debug, PartialEq, Eq, Hash)]
pub struct NodeId(pub [u8; 64]);

impl View for NodeId {
    type V = Seq<u8>;

    open spec fn view(&self) -> Seq<u8> {
        self.0@
    }
}

/// A 32-byte hash, echoed by a Pong to tie it to the Ping it answers.
#[derive(Clone, Copy, Debug, PartialEq, Eq, Hash)]
pub struct H256(pub [u8; 32]);

impl View for H256 {
    type V = Seq<u8>;

    open spec fn view(&self) -> Seq<u8> {
        self.0@
    }
}

/// A routing-table entry as it travels in a Neighbours message: an endpoint
/// together with the node's identifier.
#[derive(Clone, Copy, Debug, PartialEq, Eq, Hash)]
pub struct NodeRecord {
    pub address: Ip,
    pub udp_port: u16,
    pub tcp_port: u16,
    pub id: NodeId,
}

/// The mathematical value of a node record.
#[verifier::ext_equal]
pub struct NodeRecordModel {
    pub addr: Seq<u8>,
    pub udp: u16,
    pub tcp: u16,
    pub id: Seq<u8>,
}

impl View for NodeRecord {
    type V = NodeRecordModel;

    open spec fn view(&self) -> NodeRecordModel {
        NodeRecordModel {
            addr: self.address@,
            udp: self.udp_port,
            tcp: self.tcp_port,
            id: self.id@,
        }
    }
}

/// A Neighbours response is built from raw records by keeping only their
/// reachable address.
impl From<NodeRecord> for Endpoint {
    fn from(r: NodeRecord) -> (e: Endpoint) {
        Endpoint { address: r.address, udp_port: r.udp_port, tcp_port: r.tcp_port }
    }
}

impl vstd::std_specs::convert::FromSpecImpl<NodeRecord> for Endpoint {
    open spec fn obeys_from_spec() -> bool {
        true
    }

    open spec fn from_spec(r: NodeRecord) -> Endpoint {
        Endpoint { address: r.address, udp_port: r.udp_port, tcp_port: r.tcp_port }
    }
}

/// A record model that some `NodeRecord` value can hold.
pub open spec fn record_wf(m: NodeRecordModel) -> bool {
    &&& m.addr.len() == 4 || m.addr.len() == 16
    &&& m.id.len() == 64
}

/// The payload of an encoded record: address, UDP port, TCP port, id.
pub open spec fn record_payload(m: NodeRecordModel) -> Seq<u8> {
    enc_bytes(m.addr) + enc_uint(m.udp as u64) + enc_uint(m.tcp as u64) + enc_bytes(m.id)
}

/// A node record as a wire item.
pub open spec fn enc_record(m: NodeRecordModel) -> Seq<u8> {
    list_header(record_payload(m).len()) + record_payload(m)
}

/// A sequence of records, encoded back to back.
pub open spec fn enc_records(rs: Seq<NodeRecordModel>) -> Seq<u8>
    decreases rs.len(),
{
    if rs.len() == 0 {
        Seq::empty()
    } else {
        enc_record(rs[0]) + enc_records(rs.drop_first())
    }
}

/// Reads a node record: a list of exactly address, UDP port, TCP port, id.
pub open spec fn parse_record(s: Seq<u8>, i: int, limit: int) -> Result<
    (NodeRecordModel, int),
    DecodeError,
>
    recommends
        0 <= i,
        limit <= s.len(),
{
    match parse_list_header(s, i, limit) {
        Err(e) => Err(e),
        Ok((ps, pe)) => match parse_ip(s, ps, pe) {
            Err(e) => Err(e),
            Ok((addr, j1)) => match parse_u16(s, j1, pe) {
                Err(e) => Err(e),
                Ok((udp, j2)) => match parse_u16(s, j2, pe) {
                    Err(e) => Err(e),
                    Ok((tcp, j3)) => match parse_fixed(s, j3, pe, 64) {
                        Err(e) => Err(e),
                        Ok((id, j4)) => {
                            if j4 == pe {
                                Ok((NodeRecordModel { addr, udp, tcp, id }, pe))
                            } else {
                                Err(DecodeError::FieldCountMismatch)
                            }
                        },
                    },
                },
            },
        },
    }
}

/// Reads records back to back until `end`; the region must be filled
/// exactly.
pub open spec fn parse_records(s: Seq<u8>, i: int, end: int) -> Result<
    Seq<NodeRecordModel>,
    DecodeError,
>
    recommends
        0 <= i,
        end <= s.len(),
    decreases end - i,
{
    if i >= end {
        Ok(Seq::empty())
    } else {
        match parse_record(s, i, end) {
            Err(e) => Err(e),
            Ok((r, j)) => {
                if i < j <= end {
                    match parse_records(s, j, end) {
                        Ok(rest) => Ok(seq![r] + rest),
                        Err(e) => Err(e),
                    }
                } else {
                    Err(DecodeError::MalformedField)
                }
            },
        }
    }
}

/// An encoded record is never empty and fits well inside a length header.
pub proof fn lemma_record_len(m: NodeRecordModel)
    requires
        record_wf(m),
    ensures
        record_payload(m).len() <= 108,
        1 <= enc_record(m).len() <= 117,
{
    lemma_enc_uint_len(m.udp as u64);
    lemma_enc_uint_len(m.tcp as u64);
    lemma_pow256_8();
    lemma_be_bytes_len(64, 8);
    lemma_be_bytes_len(record_payload(m).len(), 8);
}

/// Parsing recovers a node record laid down at position `i`.
#[verifier::rlimit(100)]
#[verifier::spinoff_prover]
pub proof fn lemma_parse_record_at(s: Seq<u8>, i: int, limit: int, m: NodeRecordModel)
    requires
        0 <= i,
        i + enc_record(m).len() <= limit,
        limit <= s.len(),
        record_wf(m),
        s.subrange(i, i + enc_record(m).len()) == enc_record(m),
    ensures
        parse_record(s, i, limit) == Ok::<(NodeRecordModel, int), DecodeError>(
            (m, i + enc_record(m).len()),
        ),
{
    let a = enc_bytes(m.addr);
    let b = enc_uint(m.udp as u64);
    let c = enc_uint(m.tcp as u64);
    let d = enc_bytes(m.id);
    let p = record_payload(m);
    lemma_record_len(m);
    lemma_pow256_8();
    lemma_parse_list_header_at(s, i, limit, p);
    let ps = i + list_header(p.len()).len();
    let pe = ps + p.len();
    assert(p =~= a + (b + (c + d)));
    lemma_subrange_split(s, ps, a, b + (c + d));
    assert((b + (c + d)) =~= b + (c + d));
    lemma_subrange_split(s, ps + a.len(), b, c + d);
    lemma_subrange_split(s, ps + a.len() + b.len(), c, d);
    lemma_parse_ip_at(s, ps, pe, m.addr);
    lemma_parse_u16_at(s, ps + a.len(), pe, m.udp);
    lemma_parse_u16_at(s, ps + a.len() + b.len(), pe, m.tcp);
    lemma_parse_fixed_at(s, ps + a.len() + b.len() + c.len(), pe, m.id);
    assert(NodeRecordModel { addr: m.addr, udp: m.udp, tcp: m.tcp, id: m.id } =~= m);
}

/// Parsing recovers a run of records laid down from `i` to `end`.
pub proof fn lemma_parse_records_at(s: Seq<u8>, i: int, end: int, rs: Seq<NodeRecordModel>)
    requires
        0 <= i,
        end == i + enc_records(rs).len(),
        end <= s.len(),
        forall|k: int| 0 <= k < rs.len() ==> record_wf(#[trigger] rs[k]),
        s.subrange(i, end) == enc_records(rs),
    ensures
        parse_records(s, i, end) == Ok::<Seq<NodeRecordModel>, DecodeError>(rs),
    decreases rs.len(),
{
    if rs.len() == 0 {
        assert(Seq::<NodeRecordModel>::empty() =~= rs);
    } else {
        let m0 = rs[0];
        let rest = rs.drop_first();
        assert(record_wf(m0));
        assert(enc_records(rs) == enc_record(m0) + enc_records(rest));
        lemma_subrange_split(s, i, enc_record(m0), enc_records(rest));
        lemma_parse_record_at(s, i, end, m0);
        lemma_record_len(m0);
        let j = i + enc_record(m0).len();
        assert(forall|k: int| 0 <= k < rest.len() ==> record_wf(#[trigger] rest[k])) by {
            assert(forall|k: int| 0 <= k < rest.len() ==> rest[k] == rs[k + 1]);
        }
        lemma_parse_records_at(s, j, end, rest);
        assert(seq![m0] + rest =~= rs);
    }
}

/// A request for the peers nearest to `id`.
#[derive(Clone, Copy, Debug, PartialEq, Eq)]
pub struct FindNodeMessage {
    pub id: NodeId,
    pub expire: u64,
}

/// The mathematical value of a FindNode message.
#[verifier::ext_equal]
pub struct FindNodeModel {
    pub id: Seq<u8>,
    pub expire: u64,
}

impl View for FindNodeMessage {
    type V = FindNodeModel;

    open spec fn view(&self) -> FindNodeModel {
        FindNodeModel { id: self.id@, expire: self.expire }
    }
}

/// A FindNode model that some `FindNodeMessage` value can hold.
pub open spec fn find_node_wf(m: FindNodeModel) -> bool {
    m.id.len() == 64
}

/// The payload of an encoded FindNode message: id, expiry.
pub open spec fn find_node_payload(m: FindNodeModel) -> Seq<u8> {
    enc_bytes(m.id) + enc_uint(m.expire)
}

/// A FindNode message as a whole input.
pub open spec fn enc_find_node(m: FindNodeModel) -> Seq<u8> {
    list_header(find_node_payload(m).len()) + find_node_payload(m)
}

/// Reads a FindNode message: a list of exactly id and expiry.
pub open spec fn parse_find_node(s: Seq<u8>) -> Result<FindNodeModel, DecodeError> {
    match parse_list_header(s, 0, s.len() as int) {
        Err(e) => Err(e),
        Ok((ps, pe)) => match parse_fixed(s, ps, pe, 64) {
            Err(e) => Err(e),
            Ok((id, j1)) => match parse_uint(s, j1, pe) {
                Err(e) => Err(e),
                Ok((expire, j2)) => {
                    if j2 == pe {
                        Ok(FindNodeModel { id, expire })
                    } else {
                        Err(DecodeError::FieldCountMismatch)
                    }
                },
            },
        },
    }
}

/// Law: a FindNode message decodes back from its own encoding.
pub proof fn lemma_find_node_round_trip(m: FindNodeModel)
    requires
        find_node_wf(m),
    ensures
        parse_find_node(enc_find_node(m)) == Ok::<FindNodeModel, DecodeError>(m),
{
    let a = enc_bytes(m.id);
    let b = enc_uint(m.expire);
    let p = find_node_payload(m);
    let s = enc_find_node(m);
    lemma_enc_uint_len(m.expire);
    lemma_pow256_8();
    lemma_be_bytes_len(64, 8);
    assert(s.subrange(0, s.len() as int) =~= s);
    lemma_parse_list_header_at(s, 0, s.len() as int, p);
    let ps = list_header(p.len()).len() as int;
    let pe = ps + p.len() as int;
    lemma_subrange_split(s, ps, a, b);
    lemma_parse_fixed_at(s, ps, pe, m.id);
    lemma_parse_uint_at(s, ps + a.len(), pe, m.expire);
    assert(FindNodeModel { id: m.id, expire: m.expire } =~= m);
}

impl FindNodeMessage {
    /// Serializes the message as a two-field list.
    pub fn encode(&self) -> (out: Vec<u8>)
        ensures
            out@ == enc_find_node(self@),
    {
        let mut p: Vec<u8> = Vec::new();
        push_bytes(self.id.0.as_slice(), &mut p);
        push_uint(self.expire, &mut p);
        proof {
            assert(p@ =~= find_node_payload(self@));
        }
        let mut out: Vec<u8> = Vec::new();
        push_list_header(p.len(), &mut out);
        out.append(&mut p);
        proof {
            assert(out@ =~= enc_find_node(self@));
        }
        out
    }

    /// Parses a FindNode message from `b`.
    pub fn decode(b: &[u8]) -> (r: Result<FindNodeMessage, DecodeError>)
        ensures
            match r {
                Ok(m) => parse_find_node(b@) == Ok::<FindNodeModel, DecodeError>(m@),
                Err(e) => parse_find_node(b@) == Err::<FindNodeModel, DecodeError>(e),
            },
    {
        let (ps, pe) = match read_list_header(b, 0, b.len()) {
            Ok(x) => x,
            Err(e) => {
                return Err(e);
            },
        };
        let (id, j1) = match read_fixed_array::<64>(b, ps, pe) {
            Ok(x) => x,
            Err(e) => {
                return Err(e);
            },
        };
        let (expire, j2) = match read_uint(b, j1, pe) {
            Ok(x) => x,
            Err(e) => {
                return Err(e);
            },
        };
        if j2 == pe {
            Ok(FindNodeMessage { id: NodeId(id), expire })
        } else {
            Err(DecodeError::FieldCountMismatch)
        }
    }
}

/// A liveness probe carrying the sender's and receiver's endpoints.
#[derive(Clone, Copy, Debug, PartialEq, Eq)]
pub struct PingMessage {
    pub from: Endpoint,
    pub to: Endpoint,
    pub expire: u64,
}

/// The mathematical value of a Ping message.  The wire-only protocol
/// version and the optional trailing sequence number are not part of it.
#[verifier::ext_equal]
pub struct PingModel {
    pub from: EndpointModel,
    pub to: EndpointModel,
    pub expire: u64,
}

impl View for PingMessage {
    type V = PingModel;

    open spec fn view(&self) -> PingModel {
        PingModel { from: self.from@, to: self.to@, expire: self.expire }
    }
}

/// A Ping model that some `PingMessage` value can hold.
pub open spec fn ping_wf(m: PingModel) -> bool {
    ep_wf(m.from) && ep_wf(m.to)
}

/// The canonical Ping payload: version 4, sender, receiver, expiry.
pub open spec fn ping_payload(m: PingModel) -> Seq<u8> {
    enc_uint(4) + enc_endpoint(m.from) + enc_endpoint(m.to) + enc_uint(m.expire)
}

/// The canonical Ping wire shape; the encoder only ever emits this one.
pub open spec fn enc_ping(m: PingModel) -> Seq<u8> {
    list_header(ping_payload(m).len()) + ping_payload(m)
}

/// The extended Ping wire shape newer peers send: the canonical fields
/// with a trailing record-sequence number.
pub open spec fn enc_ping_ext(m: PingModel, enr_seq: u64) -> Seq<u8> {
    list_header(ping_payload(m).len() + enc_uint(enr_seq).len()) + (ping_payload(m) + enc_uint(
        enr_seq,
    ))
}

/// Reads one Ping shape: the canonical four fields, and with `ext` also a
/// trailing sequence number.  The version and the sequence number are
/// checked for form but their values are discarded.
pub open spec fn parse_ping_shape(s: Seq<u8>, ext: bool) -> Result<PingModel, DecodeError> {
    match parse_list_header(s, 0, s.len() as int) {
        Err(e) => Err(e),
        Ok((ps, pe)) => match parse_uint(s, ps, pe) {
            Err(e) => Err(e),
            Ok((_version, j1)) => match parse_endpoint(s, j1, pe) {
                Err(e) => Err(e),
                Ok((from, j2)) => match parse_endpoint(s, j2, pe) {
                    Err(e) => Err(e),
                    Ok((to, j3)) => match parse_uint(s, j3, pe) {
                        Err(e) => Err(e),
                        Ok((expire, j4)) => {
                            if ext {
                                match parse_uint(s, j4, pe) {
                                    Err(e) => Err(e),
                                    Ok((_enr_seq, j5)) => {
                                        if j5 == pe {
                                            Ok(PingModel { from, to, expire })
                                        } else {
                                            Err(DecodeError::FieldCountMismatch)
                                        }
                                    },
                                }
                            } else {
                                if j4 == pe {
                                    Ok(PingModel { from, to, expire })
                                } else {
                                    Err(DecodeError::FieldCountMismatch)
                                }
                            }
                        },
                    },
                },
            },
        },
    }
}

/// Reads a Ping message: first the canonical shape; on a field-count
/// mismatch — and only then — the extended shape of the same bytes.
pub open spec fn parse_ping(s: Seq<u8>) -> Result<PingModel, DecodeError> {
    match parse_ping_shape(s, false) {
        Ok(m) => Ok(m),
        Err(DecodeError::FieldCountMismatch) => parse_ping_shape(s, true),
        Err(e) => Err(e),
    }
}

/// The canonical Ping encoding parses as the canonical shape.
#[verifier::rlimit(100)]
#[verifier::spinoff_prover]
pub proof fn lemma_parse_ping_enc(m: PingModel)
    requires
        ping_wf(m),
    ensures
        parse_ping_shape(enc_ping(m), false) == Ok::<PingModel, DecodeError>(m),
{
    let v = enc_uint(4);
    let f = enc_endpoint(m.from);
    let t = enc_endpoint(m.to);
    let x = enc_uint(m.expire);
    let p = ping_payload(m);
    let s = enc_ping(m);
    lemma_enc_uint_len(4);
    lemma_enc_uint_len(m.expire);
    lemma_ep_payload_len(m.from);
    lemma_ep_payload_len(m.to);
    lemma_pow256_8();
    assert(s.subrange(0, s.len() as int) =~= s);
    lemma_parse_list_header_at(s, 0, s.len() as int, p);
    let ps = list_header(p.len()).len() as int;
    let pe = ps + p.len() as int;
    assert(p =~= v + (f + (t + x)));
    lemma_subrange_split(s, ps, v, f + (t + x));
    lemma_subrange_split(s, ps + v.len(), f, t + x);
    lemma_subrange_split(s, ps + v.len() + f.len(), t, x);
    lemma_parse_uint_at(s, ps, pe, 4);
    lemma_parse_endpoint_at(s, ps + v.len(), pe, m.from);
    lemma_parse_endpoint_at(s, ps + v.len() + f.len(), pe, m.to);
    lemma_parse_uint_at(s, ps + v.len() + f.len() + t.len(), pe, m.expire);
    assert(PingModel { from: m.from, to: m.to, expire: m.expire } =~= m);
}

/// The extended Ping encoding parses as the extended shape, and fails the
/// canonical shape with exactly a field-count mismatch.
#[verifier::rlimit(100)]
#[verifier::spinoff_prover]
pub proof fn lemma_parse_ping_enc_ext(m: PingModel, enr_seq: u64)
    requires
        ping_wf(m),
    ensures
        parse_ping_shape(enc_ping_ext(m, enr_seq), true) == Ok::<PingModel, DecodeError>(m),
        parse_ping_shape(enc_ping_ext(m, enr_seq), false) == Err::<PingModel, DecodeError>(
            DecodeError::FieldCountMismatch,
        ),
{
    let v = enc_uint(4);
    let f = enc_endpoint(m.from);
    let t = enc_endpoint(m.to);
    let x = enc_uint(m.expire);
    let n = enc_uint(enr_seq);
    let p = ping_payload(m) + n;
    let s = enc_ping_ext(m, enr_seq);
    lemma_enc_uint_len(4);
    lemma_enc_uint_len(m.expire);
    lemma_enc_uint_len(enr_seq);
    lemma_ep_payload_len(m.from);
    lemma_ep_payload_len(m.to);
    lemma_pow256_8();
    assert(s.subrange(0, s.len() as int) =~= s);
    lemma_parse_list_header_at(s, 0, s.len() as int, p);
    let ps = list_header(p.len()).len() as int;
    let pe = ps + p.len() as int;
    assert(p =~= v + (f + (t + (x + n))));
    lemma_subrange_split(s, ps, v, f + (t + (x + n)));
    lemma_subrange_split(s, ps + v.len(), f, t + (x + n));
    lemma_subrange_split(s, ps + v.len() + f.len(), t, x + n);
    lemma_subrange_split(s, ps + v.len() + f.len() + t.len(), x, n);
    lemma_parse_uint_at(s, ps, pe, 4);
    lemma_parse_endpoint_at(s, ps + v.len(), pe, m.from);
    lemma_parse_endpoint_at(s, ps + v.len() + f.len(), pe, m.to);
    lemma_parse_uint_at(s, ps + v.len() + f.len() + t.len(), pe, m.expire);
    lemma_parse_uint_at(s, ps + v.len() + f.len() + t.len() + x.len(), pe, enr_seq);
    assert(PingModel { from: m.from, to: m.to, expire: m.expire } =~= m);
}

/// Law: a Ping decodes back from the (always canonical) encoding.
pub proof fn lemma_ping_round_trip(m: PingModel)
    requires
        ping_wf(m),
    ensures
        parse_ping(enc_ping(m)) == Ok::<PingModel, DecodeError>(m),
{
    lemma_parse_ping_enc(m);
}

/// Law: a Ping in the extended shape decodes to the same value for every
/// trailing sequence number, which is absorbed and discarded.
pub proof fn lemma_ping_extension_tolerance(m: PingModel, enr_seq: u64)
    requires
        ping_wf(m),
    ensures
        parse_ping(enc_ping_ext(m, enr_seq)) == Ok::<PingModel, DecodeError>(m),
{
    lemma_parse_ping_enc_ext(m, enr_seq);
}

/// Law: the shape retry never masks a real error — any canonical-shape
/// failure other than a field-count mismatch is returned unchanged, and
/// the extended shape is not attempted.
pub proof fn lemma_ping_error_not_masked(s: Seq<u8>, e: DecodeError)
    requires
        parse_ping_shape(s, false) == Err::<PingModel, DecodeError>(e),
        e != DecodeError::FieldCountMismatch,
    ensures
        parse_ping(s) == Err::<PingModel, DecodeError>(e),
{
}

impl PingMessage {
    /// Serializes the message in the canonical four-field shape; the
    /// extended shape is never produced.
    pub fn encode(&self) -> (out: Vec<u8>)
        ensures
            out@ == enc_ping(self@),
    {
        let mut p: Vec<u8> = Vec::new();
        push_uint(4, &mut p);
        push_endpoint(&self.from, &mut p);
        push_endpoint(&self.to, &mut p);
        push_uint(self.expire, &mut p);
        proof {
            assert(p@ =~= ping_payload(self@));
        }
        let mut out: Vec<u8> = Vec::new();
        push_list_header(p.len(), &mut out);
        out.append(&mut p);
        proof {
            assert(out@ =~= enc_ping(self@));
        }
        out
    }

    /// The number of bytes `encode` produces.
    pub fn length(&self) -> (n: usize)
        ensures
            n == enc_ping(self@).len(),
    {
        proof {
            lemma_enc_uint_len(4);
            lemma_enc_uint_len(self.expire);
            assert(enc_uint(4) =~= seq![4u8]) by {
                crate::wire::lemma_enc_uint_single(4);
            }
        }
        let pl = 1 + crate::endpoint::endpoint_length(&self.from) + crate::endpoint::endpoint_length(
            &self.to,
        ) + uint_len(self.expire);
        proof {
            assert(ping_payload(self@).len() == pl);
        }
        if pl <= 55 {
            1 + pl
        } else {
            proof {
                crate::wire::lemma_be_bytes_single(pl as nat);
            }
            2 + pl
        }
    }

    /// Reads one Ping shape; the executable twin of `parse_ping_shape`.
    fn decode_shape(b: &[u8], ext: bool) -> (r: Result<PingMessage, DecodeError>)
        ensures
            match r {
                Ok(m) => parse_ping_shape(b@, ext) == Ok::<PingModel, DecodeError>(m@),
                Err(e) => parse_ping_shape(b@, ext) == Err::<PingModel, DecodeError>(e),
            },
    {
        let (ps, pe) = match read_list_header(b, 0, b.len()) {
            Ok(x) => x,
            Err(e) => {
                return Err(e);
            },
        };
        let (_version, j1) = match read_uint(b, ps, pe) {
            Ok(x) => x,
            Err(e) => {
                return Err(e);
            },
        };
        let (from, j2) = match read_endpoint(b, j1, pe) {
            Ok(x) => x,
            Err(e) => {
                return Err(e);
            },
        };
        let (to, j3) = match read_endpoint(b, j2, pe) {
            Ok(x) => x,
            Err(e) => {
                return Err(e);
            },
        };
        let (expire, j4) = match read_uint(b, j3, pe) {
            Ok(x) => x,
            Err(e) => {
                return Err(e);
            },
        };
        if ext {
            let (_enr_seq, j5) = match read_uint(b, j4, pe) {
                Ok(x) => x,
                Err(e) => {
                    return Err(e);
                },
            };
            if j5 == pe {
                Ok(PingMessage { from, to, expire })
            } else {
                Err(DecodeError::FieldCountMismatch)
            }
        } else {
            if j4 == pe {
                Ok(PingMessage { from, to, expire })
            } else {
                Err(DecodeError::FieldCountMismatch)
            }
        }
    }

    /// Parses a Ping message, accepting the canonical shape and — only
    /// after a field-count mismatch — the extended shape.
    pub fn decode(b: &[u8]) -> (r: Result<PingMessage, DecodeError>)
        ensures
            match r {
                Ok(m) => parse_ping(b@) == Ok::<PingModel, DecodeError>(m@),
                Err(e) => parse_ping(b@) == Err::<PingModel, DecodeError>(e),
            },
    {
        match Self::decode_shape(b, false) {
            Ok(m) => Ok(m),
            Err(e) => match e {
                DecodeError::FieldCountMismatch => Self::decode_shape(b, true),
                _ => Err(e),
            },
        }
    }
}

/// The answer to a Ping, echoing the hash of the Ping's datagram.
#[derive(Clone, Copy, Debug, PartialEq, Eq)]
pub struct PongMessage {
    pub to: Endpoint,
    pub echo: H256,
    pub expire: u64,
}

/// The mathematical value of a Pong message.
#[verifier::ext_equal]
pub struct PongModel {
    pub to: EndpointModel,
    pub echo: Seq<u8>,
    pub expire: u64,
}

impl View for PongMessage {
    type V = PongModel;

    open spec fn view(&self) -> PongModel {
        PongModel { to: self.to@, echo: self.echo@, expire: self.expire }
    }
}

/// A Pong model that some `PongMessage` value can hold.
pub open spec fn pong_wf(m: PongModel) -> bool {
    ep_wf(m.to) && m.echo.len() == 32
}

/// The canonical Pong payload: receiver, echoed hash, expiry.
pub open spec fn pong_payload(m: PongModel) -> Seq<u8> {
    enc_endpoint(m.to) + enc_bytes(m.echo) + enc_uint(m.expire)
}

/// The canonical Pong wire shape; the encoder only ever emits this one.
pub open spec fn enc_pong(m: PongModel) -> Seq<u8> {
    list_header(pong_payload(m).len()) + pong_payload(m)
}

/// The extended Pong wire shape with a trailing record-sequence number.
pub open spec fn enc_pong_ext(m: PongModel, enr_seq: u64) -> Seq<u8> {
    list_header(pong_payload(m).len() + enc_uint(enr_seq).len()) + (pong_payload(m) + enc_uint(
        enr_seq,
    ))
}

/// Reads one Pong shape: the canonical three fields, and with `ext` also a
/// trailing sequence number whose value is discarded.
pub open spec fn parse_pong_shape(s: Seq<u8>, ext: bool) -> Result<PongModel, DecodeError> {
    match parse_list_header(s, 0, s.len() as int) {
        Err(e) => Err(e),
        Ok((ps, pe)) => match parse_endpoint(s, ps, pe) {
            Err(e) => Err(e),
            Ok((to, j1)) => match parse_fixed(s, j1, pe, 32) {
                Err(e) => Err(e),
                Ok((echo, j2)) => match parse_uint(s, j2, pe) {
                    Err(e) => Err(e),
                    Ok((expire, j3)) => {
                        if ext {
                            match parse_uint(s, j3, pe) {
                                Err(e) => Err(e),
                                Ok((_enr_seq, j4)) => {
                                    if j4 == pe {
                                        Ok(PongModel { to, echo, expire })
                                    } else {
                                        Err(DecodeError::FieldCountMismatch)
                                    }
                                },
                            }
                        } else {
                            if j3 == pe {
                                Ok(PongModel { to, echo, expire })
                            } else {
                                Err(DecodeError::FieldCountMismatch)
                            }
                        }
                    },
                },
            },
        },
    }
}

/// Reads a Pong message with the same retry policy as a Ping.
pub open spec fn parse_pong(s: Seq<u8>) -> Result<PongModel, DecodeError> {
    match parse_pong_shape(s, false) {
        Ok(m) => Ok(m),
        Err(DecodeError::FieldCountMismatch) => parse_pong_shape(s, true),
        Err(e) => Err(e),
    }
}

/// The canonical Pong encoding parses as the canonical shape.
#[verifier::rlimit(100)]
#[verifier::spinoff_prover]
pub proof fn lemma_parse_pong_enc(m: PongModel)
    requires
        pong_wf(m),
    ensures
        parse_pong_shape(enc_pong(m), false) == Ok::<PongModel, DecodeError>(m),
{
    let t = enc_endpoint(m.to);
    let h = enc_bytes(m.echo);
    let x = enc_uint(m.expire);
    let p = pong_payload(m);
    let s = enc_pong(m);
    lemma_enc_uint_len(m.expire);
    lemma_ep_payload_len(m.to);
    lemma_pow256_8();
    assert(s.subrange(0, s.len() as int) =~= s);
    lemma_parse_list_header_at(s, 0, s.len() as int, p);
    let ps = list_header(p.len()).len() as int;
    let pe = ps + p.len() as int;
    assert(p =~= t + (h + x));
    lemma_subrange_split(s, ps, t, h + x);
    lemma_subrange_split(s, ps + t.len(), h, x);
    lemma_parse_endpoint_at(s, ps, pe, m.to);
    lemma_parse_fixed_at(s, ps + t.len(), pe, m.echo);
    lemma_parse_uint_at(s, ps + t.len() + h.len(), pe, m.expire);
    assert(PongModel { to: m.to, echo: m.echo, expire: m.expire } =~= m);
}

/// The extended Pong encoding parses as the extended shape, and fails the
/// canonical shape with exactly a field-count mismatch.
#[verifier::rlimit(100)]
#[verifier::spinoff_prover]
pub proof fn lemma_parse_pong_enc_ext(m: PongModel, enr_seq: u64)
    requires
        pong_wf(m),
    ensures
        parse_pong_shape(enc_pong_ext(m, enr_seq), true) == Ok::<PongModel, DecodeError>(m),
        parse_pong_shape(enc_pong_ext(m, enr_seq), false) == Err::<PongModel, DecodeError>(
            DecodeError::FieldCountMismatch,
        ),
{
    let t = enc_endpoint(m.to);
    let h = enc_bytes(m.echo);
    let x = enc_uint(m.expire);
    let n = enc_uint(enr_seq);
    let p = pong_payload(m) + n;
    let s = enc_pong_ext(m, enr_seq);
    lemma_enc_uint_len(m.expire);
    lemma_enc_uint_len(enr_seq);
    lemma_ep_payload_len(m.to);
    lemma_pow256_8();
    assert(s.subrange(0, s.len() as int) =~= s);
    lemma_parse_list_header_at(s, 0, s.len() as int, p);
    let ps = list_header(p.len()).len() as int;
    let pe = ps + p.len() as int;
    assert(p =~= t + (h + (x + n)));
    lemma_subrange_split(s, ps, t, h + (x + n));
    lemma_subrange_split(s, ps + t.len(), h, x + n);
    lemma_subrange_split(s, ps + t.len() + h.len(), x, n);
    lemma_parse_endpoint_at(s, ps, pe, m.to);
    lemma_parse_fixed_at(s, ps + t.len(), pe, m.echo);
    lemma_parse_uint_at(s, ps + t.len() + h.len(), pe, m.expire);
    lemma_parse_uint_at(s, ps + t.len() + h.len() + x.len(), pe, enr_seq);
    assert(PongModel { to: m.to, echo: m.echo, expire: m.expire } =~= m);
}

/// Law: a Pong decodes back from the (always canonical) encoding.
pub proof fn lemma_pong_round_trip(m: PongModel)
    requires
        pong_wf(m),
    ensures
        parse_pong(enc_pong(m)) == Ok::<PongModel, DecodeError>(m),
{
    lemma_parse_pong_enc(m);
}

/// Law: a Pong in the extended shape decodes to the same value for every
/// trailing sequence number.
pub proof fn lemma_pong_extension_tolerance(m: PongModel, enr_seq: u64)
    requires
        pong_wf(m),
    ensures
        parse_pong(enc_pong_ext(m, enr_seq)) == Ok::<PongModel, DecodeError>(m),
{
    lemma_parse_pong_enc_ext(m, enr_seq);
}

/// Law: the Pong shape retry never masks a real error either.
pub proof fn lemma_pong_error_not_masked(s: Seq<u8>, e: DecodeError)
    requires
        parse_pong_shape(s, false) == Err::<PongModel, DecodeError>(e),
        e != DecodeError::FieldCountMismatch,
    ensures
        parse_pong(s) == Err::<PongModel, DecodeError>(e),
{
}

impl PongMessage {
    /// Serializes the message in the canonical three-field shape; the
    /// extended shape is never produced.
    pub fn encode(&self) -> (out: Vec<u8>)
        ensures
            out@ == enc_pong(self@),
    {
        let mut p: Vec<u8> = Vec::new();
        push_endpoint(&self.to, &mut p);
        push_bytes(self.echo.0.as_slice(), &mut p);
        push_uint(self.expire, &mut p);
        proof {
            assert(p@ =~= pong_payload(self@));
        }
        let mut out: Vec<u8> = Vec::new();
        push_list_header(p.len(), &mut out);
        out.append(&mut p);
        proof {
            assert(out@ =~= enc_pong(self@));
        }
        out
    }

    /// Reads one Pong shape; the executable twin of `parse_pong_shape`.
    fn decode_shape(b: &[u8], ext: bool) -> (r: Result<PongMessage, DecodeError>)
        ensures
            match r {
                Ok(m) => parse_pong_shape(b@, ext) == Ok::<PongModel, DecodeError>(m@),
                Err(e) => parse_pong_shape(b@, ext) == Err::<PongModel, DecodeError>(e),
            },
    {
        let (ps, pe) = match read_list_header(b, 0, b.len()) {
            Ok(x) => x,
            Err(e) => {
                return Err(e);
            },
        };
        let (to, j1) = match read_endpoint(b, ps, pe) {
            Ok(x) => x,
            Err(e) => {
                return Err(e);
            },
        };
        let (echo, j2) = match read_fixed_array::<32>(b, j1, pe) {
            Ok(x) => x,
            Err(e) => {
                return Err(e);
            },
        };
        let (expire, j3) = match read_uint(b, j2, pe) {
            Ok(x) => x,
            Err(e) => {
                return Err(e);
            },
        };
        if ext {
            let (_enr_seq, j4) = match read_uint(b, j3, pe) {
                Ok(x) => x,
                Err(e) => {
                    return Err(e);
                },
            };
            if j4 == pe {
                Ok(PongMessage { to, echo: H256(echo), expire })
            } else {
                Err(DecodeError::FieldCountMismatch)
            }
        } else {
            if j3 == pe {
                Ok(PongMessage { to, echo: H256(echo), expire })
            } else {
                Err(DecodeError::FieldCountMismatch)
            }
        }
    }

    /// Parses a Pong message, accepting the canonical shape and — only
    /// after a field-count mismatch — the extended shape.
    pub fn decode(b: &[u8]) -> (r: Result<PongMessage, DecodeError>)
        ensures
            match r {
                Ok(m) => parse_pong(b@) == Ok::<PongModel, DecodeError>(m@),
                Err(e) => parse_pong(b@) == Err::<PongModel, DecodeError>(e),
            },
    {
        match Self::decode_shape(b, false) {
            Ok(m) => Ok(m),
            Err(e) => match e {
                DecodeError::FieldCountMismatch => Self::decode_shape(b, true),
                _ => Err(e),
            },
        }
    }
}

/// The models of a sequence of record values.
pub open spec fn record_models(ns: Seq<NodeRecord>) -> Seq<NodeRecordModel> {
    ns.map_values(|r: NodeRecord| r@)
}

/// The answer to FindNode: the closest records the peer knows, whole, so
/// the receiver also learns each node's identifier.
#[derive(Clone, Debug, PartialEq, Eq)]
pub struct NeighboursMessage {
    pub nodes: Vec<NodeRecord>,
    pub expire: u64,
}

/// The mathematical value of a Neighbours message.
#[verifier::ext_equal]
pub struct NeighboursModel {
    pub nodes: Seq<NodeRecordModel>,
    pub expire: u64,
}

impl View for NeighboursMessage {
    type V = NeighboursModel;

    open spec fn view(&self) -> NeighboursModel {
        NeighboursModel { nodes: record_models(self.nodes@), expire: self.expire }
    }
}

/// A Neighbours model that some `NeighboursMessage` value can hold.
pub open spec fn neighbours_wf(m: NeighboursModel) -> bool {
    forall|k: int| 0 <= k < m.nodes.len() ==> record_wf(#[trigger] m.nodes[k])
}

/// The payload of an encoded Neighbours message: the node list — wire
/// order kept, duplicates kept — then the expiry.
pub open spec fn neighbours_payload(m: NeighboursModel) -> Seq<u8> {
    (list_header(enc_records(m.nodes).len()) + enc_records(m.nodes)) + enc_uint(m.expire)
}

/// A Neighbours message as a whole input.
pub open spec fn enc_neighbours(m: NeighboursModel) -> Seq<u8> {
    list_header(neighbours_payload(m).len()) + neighbours_payload(m)
}

/// Reads a Neighbours message: a list of exactly a node list and expiry.
pub open spec fn parse_neighbours(s: Seq<u8>) -> Result<NeighboursModel, DecodeError> {
    match parse_list_header(s, 0, s.len() as int) {
        Err(e) => Err(e),
        Ok((ps, pe)) => match parse_list_header(s, ps, pe) {
            Err(e) => Err(e),
            Ok((qs, qe)) => match parse_records(s, qs, qe) {
                Err(e) => Err(e),
                Ok(nodes) => match parse_uint(s, qe, pe) {
                    Err(e) => Err(e),
                    Ok((expire, j)) => {
                        if j == pe {
                            Ok(NeighboursModel { nodes, expire })
                        } else {
                            Err(DecodeError::FieldCountMismatch)
                        }
                    },
                },
            },
        },
    }
}

/// Appending one record to a run extends its encoding at the end.
pub proof fn lemma_enc_records_push(rs: Seq<NodeRecordModel>, x: NodeRecordModel)
    ensures
        enc_records(rs.push(x)) == enc_records(rs) + enc_record(x),
    decreases rs.len(),
{
    if rs.len() == 0 {
        assert(rs.push(x)[0] == x);
        assert(rs.push(x).drop_first() =~= Seq::<NodeRecordModel>::empty());
        assert(rs =~= Seq::<NodeRecordModel>::empty());
        assert(enc_records(Seq::<NodeRecordModel>::empty()) == Seq::<u8>::empty());
        assert(enc_records(rs.push(x)) =~= enc_records(rs) + enc_record(x));
    } else {
        assert(rs.push(x)[0] == rs[0]);
        assert(rs.push(x).drop_first() =~= rs.drop_first().push(x));
        lemma_enc_records_push(rs.drop_first(), x);
        assert(enc_record(rs[0]) + (enc_records(rs.drop_first()) + enc_record(x)) =~= (enc_record(
            rs[0],
        ) + enc_records(rs.drop_first())) + enc_record(x));
    }
}

/// Law: a Neighbours message decodes back from its own encoding, for every
/// node list whose encoding the length headers can carry.
#[verifier::rlimit(100)]
#[verifier::spinoff_prover]
pub proof fn lemma_neighbours_round_trip(m: NeighboursModel)
    requires
        neighbours_wf(m),
        enc_neighbours(m).len() < pow256(8),
    ensures
        parse_neighbours(enc_neighbours(m)) == Ok::<NeighboursModel, DecodeError>(m),
{
    let recs = enc_records(m.nodes);
    let inner = list_header(recs.len()) + recs;
    let x = enc_uint(m.expire);
    let p = neighbours_payload(m);
    let s = enc_neighbours(m);
    let ps = list_header(p.len()).len() as int;
    let pe = ps + p.len() as int;
    let qs = ps + list_header(recs.len()).len() as int;
    let qe = qs + recs.len() as int;
    lemma_enc_uint_len(m.expire);
    assert(parse_list_header(s, 0, s.len() as int) == Ok::<(int, int), DecodeError>((ps, pe))
        && s.subrange(ps, pe) == p) by {
        lemma_pow256_8();
        assert(s.subrange(0, s.len() as int) =~= s);
        lemma_parse_list_header_at(s, 0, s.len() as int, p);
    }
    assert(s.subrange(ps, qe) == inner && s.subrange(qe, pe) == x) by {
        lemma_subrange_split(s, ps, inner, x);
    }
    assert(parse_list_header(s, ps, pe) == Ok::<(int, int), DecodeError>((qs, qe))
        && s.subrange(qs, qe) == recs) by {
        lemma_pow256_8();
        lemma_parse_list_header_at(s, ps, pe, recs);
    }
    assert(parse_records(s, qs, qe) == Ok::<Seq<NodeRecordModel>, DecodeError>(m.nodes)) by {
        lemma_parse_records_at(s, qs, qe, m.nodes);
    }
    assert(parse_uint(s, qe, pe) == Ok::<(u64, int), DecodeError>((m.expire, pe))) by {
        lemma_parse_uint_at(s, qe, pe, m.expire);
    }
    assert(NeighboursModel { nodes: m.nodes, expire: m.expire } =~= m);
}

/// Appends an encoded node record.
pub(crate) fn push_record(r: &NodeRecord, out: &mut Vec<u8>)
    ensures
        final(out)@ == old(out)@ + enc_record(r@),
{
    let mut p: Vec<u8> = Vec::new();
    match &r.address {
        Ip::V4(a) => push_bytes(a.as_slice(), &mut p),
        Ip::V6(a) => push_bytes(a.as_slice(), &mut p),
    }
    push_uint(r.udp_port as u64, &mut p);
    push_uint(r.tcp_port as u64, &mut p);
    push_bytes(r.id.0.as_slice(), &mut p);
    proof {
        assert(p@ =~= record_payload(r@));
    }
    push_list_header(p.len(), out);
    out.append(&mut p);
    proof {
        assert(out@ =~= old(out)@ + enc_record(r@));
    }
}

/// Reads a node record; the executable twin of `parse_record`.
pub(crate) fn read_record(s: &[u8], i: usize, limit: usize) -> (r: Result<
    (NodeRecord, usize),
    DecodeError,
>)
    requires
        i <= limit <= s@.len(),
    ensures
        match r {
            Ok(p) => parse_record(s@, i as int, limit as int) == Ok::<
                (NodeRecordModel, int),
                DecodeError,
            >((p.0@, p.1 as int)) && i < p.1 <= limit,
            Err(e) => parse_record(s@, i as int, limit as int) == Err::<
                (NodeRecordModel, int),
                DecodeError,
            >(e),
        },
{
    let (ps, pe) = match read_list_header(s, i, limit) {
        Ok(x) => x,
        Err(e) => {
            return Err(e);
        },
    };
    let (addr, j1) = match read_ip(s, ps, pe) {
        Ok(x) => x,
        Err(e) => {
            return Err(e);
        },
    };
    let (udp, j2) = match read_u16(s, j1, pe) {
        Ok(x) => x,
        Err(e) => {
            return Err(e);
        },
    };
    let (tcp, j3) = match read_u16(s, j2, pe) {
        Ok(x) => x,
        Err(e) => {
            return Err(e);
        },
    };
    let (id, j4) = match read_fixed_array::<64>(s, j3, pe) {
        Ok(x) => x,
        Err(e) => {
            return Err(e);
        },
    };
    if j4 == pe {
        Ok((NodeRecord { address: addr, udp_port: udp, tcp_port: tcp, id: NodeId(id) }, pe))
    } else {
        Err(DecodeError::FieldCountMismatch)
    }
}

impl NeighboursMessage {
    /// Serializes the message: the records in their given order, then the
    /// expiry, as a two-field list.
    pub fn encode(&self) -> (out: Vec<u8>)
        ensures
            out@ == enc_neighbours(self@),
    {
        let mut recs: Vec<u8> = Vec::new();
        let n = self.nodes.len();
        let mut k: usize = 0;
        while k < n
            invariant
                n == self.nodes@.len(),
                k <= n,
                recs@ == enc_records(record_models(self.nodes@.take(k as int))),
            decreases n - k,
        {
            let ghost pre = record_models(self.nodes@.take(k as int));
            let rec = self.nodes[k];
            push_record(&rec, &mut recs);
            proof {
                lemma_enc_records_push(pre, rec@);
                assert(record_models(self.nodes@.take(k as int + 1)) =~= pre.push(rec@));
            }
            k = k + 1;
        }
        proof {
            assert(self.nodes@.take(n as int) =~= self.nodes@);
        }
        let mut p: Vec<u8> = Vec::new();
        push_list_header(recs.len(), &mut p);
        p.append(&mut recs);
        push_uint(self.expire, &mut p);
        proof {
            assert(p@ =~= neighbours_payload(self@));
        }
        let mut out: Vec<u8> = Vec::new();
        push_list_header(p.len(), &mut out);
        out.append(&mut p);
        proof {
            assert(out@ =~= enc_neighbours(self@));
        }
        out
    }

    /// Parses a Neighbours message from `b`.
    pub fn decode(b: &[u8]) -> (r: Result<NeighboursMessage, DecodeError>)
        ensures
            match r {
                Ok(m) => parse_neighbours(b@) == Ok::<NeighboursModel, DecodeError>(m@),
                Err(e) => parse_neighbours(b@) == Err::<NeighboursModel, DecodeError>(e),
            },
    {
        let (ps, pe) = match read_list_header(b, 0, b.len()) {
            Ok(x) => x,
            Err(e) => {
                return Err(e);
            },
        };
        let (qs, qe) = match read_list_header(b, ps, pe) {
            Ok(x) => x,
            Err(e) => {
                return Err(e);
            },
        };
        let mut nodes: Vec<NodeRecord> = Vec::new();
        let mut pos: usize = qs;
        while pos < qe
            invariant
                qs <= pos <= qe <= pe <= b@.len(),
                parse_list_header(b@, 0, b@.len() as int) == Ok::<(int, int), DecodeError>(
                    (ps as int, pe as int),
                ),
                parse_list_header(b@, ps as int, pe as int) == Ok::<(int, int), DecodeError>(
                    (qs as int, qe as int),
                ),
                (match parse_records(b@, pos as int, qe as int) {
                    Ok(rest) => parse_records(b@, qs as int, qe as int) == Ok::<
                        Seq<NodeRecordModel>,
                        DecodeError,
                    >(record_models(nodes@) + rest),
                    Err(e) => parse_records(b@, qs as int, qe as int) == Err::<
                        Seq<NodeRecordModel>,
                        DecodeError,
                    >(e),
                }),
            decreases qe - pos,
        {
            let (rec, j) = match read_record(b, pos, qe) {
                Ok(x) => x,
                Err(e) => {
                    return Err(e);
                },
            };
            let ghost pre = record_models(nodes@);
            nodes.push(rec);
            proof {
                assert(record_models(nodes@) =~= pre.push(rec@));
                match parse_records(b@, j as int, qe as int) {
                    Ok(rest2) => {
                        assert(pre + (seq![rec@] + rest2) =~= pre.push(rec@) + rest2);
                    },
                    Err(_) => {},
                }
            }
            pos = j;
        }
        proof {
            assert(record_models(nodes@) + Seq::<NodeRecordModel>::empty() =~= record_models(
                nodes@,
            ));
        }
        let (expire, j) = match read_uint(b, qe, pe) {
            Ok(x) => x,
            Err(e) => {
                return Err(e);
            },
        };
        if j == pe {
            Ok(NeighboursMessage { nodes, expire })
        } else {
            Err(DecodeError::FieldCountMismatch)
        }
    }
}

} // verus!
