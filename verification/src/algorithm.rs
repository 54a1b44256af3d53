//! The decision core of the iterative resolution engine. Everything here is
//! computed from plain bytes and values: classifying a response, turning a
//! delegation into the next candidate-server list, and choosing which names
//! to chase next. The caller owns the socket and drives the loop, bounded by
//! `MAX_DEPTH`, performing one send-and-receive per step.

use vstd::prelude::*;

use crate::compression::{CompressedName, DOT};
use crate::error::{DnsError, ParseError};
use crate::message::{
    spec_answer_ip_list, spec_authority_list, spec_cname_list, spec_parse_message,
    spec_server_list, Message, ResponseType,
};
use crate::net::IpAddress;
use crate::server_info::{
    score_is, sorted_by_score_desc, spec_score, ServerInfo, ServerInfoView,
};

verus! {

/// How many delegation hops one resolution walk may take.
pub const MAX_DEPTH: usize = 8;

/// The UDP port that nameservers answer on.
pub const PORT: u16 = 53;

/// The address of a root server, where every walk starts: 198.41.0.4.
pub open spec fn spec_root_ip() -> IpAddress {
    IpAddress::V4(0xC629_0004)
}

/// The root server's address, the fixed entry point of the walk.
pub fn root_server_ip() -> (r: IpAddress)
    ensures
        r == spec_root_ip(),
{
    IpAddress::V4(0xC629_0004)
}

/// The candidate list a walk starts from: the root server alone, under the
/// root name.
pub fn initial_servers() -> (r: Vec<ServerInfo>)
    ensures
        r@.len() == 1,
        r@[0]@ == (ServerInfoView { name: seq![seq![DOT]], ip: Some(spec_root_ip()) }),
{
    let mut seg: Vec<u8> = Vec::new();
    seg.push(DOT);
    let mut name: Vec<Vec<u8>> = Vec::new();
    name.push(seg);
    let info = ServerInfo { name: CompressedName(name), ip: Some(root_server_ip()) };
    let mut r: Vec<ServerInfo> = Vec::new();
    r.push(info);
    proof {
        assert(r@[0]@.name =~= seq![seq![DOT]]);
    }
    r
}

/// The readable form of a wire name for diagnostics: every byte after the
/// leading length prefix, with length prefixes shown as dots.
pub open spec fn spec_print_domain(d: Seq<u8>) -> Seq<u8> {
    Seq::new((d.len() - 1) as nat, |i: int| if d[i + 1] < 32 {
        DOT
    } else {
        d[i + 1]
    })
}

/// Renders a wire-form name for diagnostics, dropping its leading length
/// byte and writing every later length prefix as a dot.
pub fn print_domain(domain: &[u8]) -> (r: Vec<u8>)
    requires
        domain@.len() >= 1,
    ensures
        r@ == spec_print_domain(domain@),
{
    let mut r: Vec<u8> = Vec::new();
    let mut k: usize = 1;
    while k < domain.len()
        invariant
            1 <= k <= domain@.len(),
            r@ =~= spec_print_domain(domain@).subrange(0, k - 1),
        decreases domain@.len() - k,
    {
        let b = domain[k];
        if b < 32 {
            r.push(DOT);
        } else {
            r.push(b);
        }
        k = k + 1;
        proof {
            assert(r@ =~= spec_print_domain(domain@).subrange(0, k - 1));
        }
    }
    proof {
        assert(spec_print_domain(domain@).subrange(0, domain@.len() - 1) =~= spec_print_domain(
            domain@,
        ));
    }
    r
}

/// The views of a server list.
pub open spec fn server_views(s: Seq<ServerInfo>) -> Seq<ServerInfoView> {
    s.map_values(|si: ServerInfo| si@)
}

/// The servers whose view-level score against `t` is exactly `v`.
pub open spec fn view_score_is(t: Seq<u8>, v: int) -> spec_fn(ServerInfoView) -> bool {
    |sv: ServerInfoView| spec_score(sv.name, t) == v
}

proof fn lemma_filter_map_view(s: Seq<ServerInfo>, t: Seq<u8>, v: int)
    ensures
        server_views(s.filter(score_is(t, v))) == server_views(s).filter(view_score_is(t, v)),
    decreases s.len(),
{
    reveal(Seq::filter);
    if s.len() == 0 {
        assert(server_views(s) =~= Seq::<ServerInfoView>::empty());
        assert(s.filter(score_is(t, v)) == s);
        assert(server_views(s).filter(view_score_is(t, v)) == server_views(s));
    } else {
        let d = s.drop_last();
        lemma_filter_map_view(d, t, v);
        assert(server_views(s).drop_last() =~= server_views(d));
        assert(server_views(s).last() == s.last()@);
        assert(score_is(t, v)(s.last()) == view_score_is(t, v)(s.last()@));
        if score_is(t, v)(s.last()) {
            assert(server_views(s.filter(score_is(t, v))) =~= server_views(
                d.filter(score_is(t, v)),
            ).push(s.last()@));
            assert(server_views(s).filter(view_score_is(t, v)) == server_views(s).drop_last().filter(
                view_score_is(t, v),
            ).push(server_views(s).last()));
        } else {
            assert(server_views(s.filter(score_is(t, v))) =~= server_views(
                d.filter(score_is(t, v)),
            ));
            assert(server_views(s).filter(view_score_is(t, v)) == server_views(s).drop_last().filter(
                view_score_is(t, v),
            ));
        }
    }
}

/// What one response tells the walk to do next.
#[derive(Debug)]
pub enum ResolutionStep {
    /// The answer section held addresses: resolution is done.
    Answered(Vec<IpAddress>),
    /// The answer section held only aliases: chase each target in order with
    /// a fresh sub-query; the first that resolves is the answer.
    FollowCnames(Vec<CompressedName>),
    /// A delegation with glue: continue the walk with these servers, best
    /// ranked first.
    NextServers(Vec<ServerInfo>),
    /// A delegation without glue: resolve these nameserver names in order
    /// with fresh sub-queries; the first that resolves supplies the next
    /// servers.
    ResolveNameservers(Vec<CompressedName>),
    /// The walk stops with this error.
    Reject(DnsError),
}

/// Decides the next step of the walk from one response's bytes, for the
/// query name `domain`: parse, classify, and extract.
pub fn process_response(resp_bytes: &[u8], domain: &[u8]) -> (r: ResolutionStep)
    requires
        domain@.len() < u32::MAX,
    ensures
        (match spec_parse_message(resp_bytes@) {
            Err(e) => r matches ResolutionStep::Reject(err) && err == DnsError::ParsingError(e),
            Ok(m) => {
                if m.header.ancount > 0 {
                    let ips = spec_answer_ip_list(m.answers);
                    if ips.len() > 0 {
                        r matches ResolutionStep::Answered(v) && v@ == ips
                    } else {
                        match spec_cname_list(m.answers, resp_bytes@) {
                            Ok(cs) => r matches ResolutionStep::FollowCnames(v) && v@.map_values(
                                |c: CompressedName| c@,
                            ) == cs,
                            Err(e) => r matches ResolutionStep::Reject(err) && err
                                == DnsError::ParsingError(e),
                        }
                    }
                } else if m.header.nscount > 0 {
                    if m.header.arcount > 0 {
                        match spec_server_list(m.additionals, resp_bytes@) {
                            Ok(glue) => r matches ResolutionStep::NextServers(v) && v@.len()
                                == glue.len() && sorted_by_score_desc(v@, domain@) && (forall|
                                sc: int,
                            |
                                #[trigger] server_views(v@).filter(view_score_is(domain@, sc))
                                    == glue.filter(view_score_is(domain@, sc))),
                            Err(e) => r matches ResolutionStep::Reject(err) && err
                                == DnsError::ParsingError(e),
                        }
                    } else {
                        match spec_authority_list(m.authorities, resp_bytes@) {
                            Ok(ns) => if ns.len() == 0 {
                                r matches ResolutionStep::Reject(err) && err
                                    == DnsError::InvalidFormat
                            } else {
                                r matches ResolutionStep::ResolveNameservers(v) && v@.map_values(
                                    |c: CompressedName| c@,
                                ) == ns
                            },
                            Err(e) => r matches ResolutionStep::Reject(err) && err
                                == DnsError::ParsingError(e),
                        }
                    }
                } else {
                    r matches ResolutionStep::Reject(err) && err == DnsError::InvalidFormat
                }
            },
        }),
{
    let response = match Message::from_bytes(resp_bytes) {
        Ok(m) => m,
        Err(e) => {
            return ResolutionStep::Reject(DnsError::ParsingError(e));
        },
    };
    match response.get_type() {
        ResponseType::Error => ResolutionStep::Reject(DnsError::InvalidFormat),
        ResponseType::Answer => {
            let ips = response.get_answer_ips();
            if ips.len() > 0 {
                return ResolutionStep::Answered(ips);
            }
            match response.get_cnames(resp_bytes) {
                Ok(cnames) => ResolutionStep::FollowCnames(cnames),
                Err(e) => ResolutionStep::Reject(DnsError::ParsingError(e)),
            }
        },
        ResponseType::Delegation => {
            if response.get_arcount() > 0 {
                match response.get_additional_info(resp_bytes) {
                    Ok(mut servers) => {
                        let ghost presort = servers@;
                        crate::server_info::sort_server_list(&mut servers, domain);
                        proof {
                            assert forall|sc: int|
                                #[trigger] server_views(servers@).filter(
                                    view_score_is(domain@, sc),
                                ) == server_views(presort).filter(view_score_is(domain@, sc)) by {
                                lemma_filter_map_view(servers@, domain@, sc);
                                lemma_filter_map_view(presort, domain@, sc);
                                assert(servers@.filter(score_is(domain@, sc)) == presort.filter(
                                    score_is(domain@, sc),
                                ));
                            }
                        }
                        ResolutionStep::NextServers(servers)
                    },
                    Err(e) => ResolutionStep::Reject(DnsError::ParsingError(e)),
                }
            } else {
                match response.get_authorities_info(resp_bytes) {
                    Ok(names) => {
                        if names.len() == 0 {
                            ResolutionStep::Reject(DnsError::InvalidFormat)
                        } else {
                            ResolutionStep::ResolveNameservers(names)
                        }
                    },
                    Err(e) => ResolutionStep::Reject(DnsError::ParsingError(e)),
                }
            }
        },
    }
}

/// Wraps addresses that a nameserver lookup returned into a candidate list:
/// each server carries an empty name, since the walk resolved it itself.
pub fn servers_from_ips(ips: &Vec<IpAddress>) -> (r: Vec<ServerInfo>)
    ensures
        r@.len() == ips@.len(),
        forall|i: int|
            0 <= i < r@.len() ==> #[trigger] r@[i]@ == (ServerInfoView {
                name: Seq::empty(),
                ip: Some(ips@[i]),
            }),
{
    let mut r: Vec<ServerInfo> = Vec::new();
    let mut i: usize = 0;
    while i < ips.len()
        invariant
            i <= ips@.len(),
            r@.len() == i,
            forall|j: int|
                0 <= j < i ==> #[trigger] r@[j]@ == (ServerInfoView {
                    name: Seq::empty(),
                    ip: Some(ips@[j]),
                }),
        decreases ips@.len() - i,
    {
        let info = ServerInfo { name: CompressedName(Vec::new()), ip: Some(ips[i]) };
        proof {
            assert(info@.name =~= Seq::<Seq<u8>>::empty());
        }
        r.push(info);
        i = i + 1;
    }
    r
}

} // verus!
