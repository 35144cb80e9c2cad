//! The request handler's decisions: which response a request gets, or which
//! upstream must be asked. Receiving, resolving and sending happen around it.
use vstd::prelude::*;
use crate::config::{Rule, RECORD_A, RECORD_AAAA};
use crate::dns_router::{DnsRouter, RouterView};
use crate::labels::domain_path;
use crate::routing::build_from;
use crate::upstream::{SpecialUpstream, Upstream};

verus! {

/// The operation code of a standard query.
pub const OPCODE_QUERY: u8 = 0;

/// Whether a DNS message is a query or a response.
#[derive(Clone, Copy, Debug, PartialEq, Eq, Structural)]
pub enum MessageType {
    Query,
    Response,
}

/// The error codes the handler answers with.
#[derive(Clone, Copy, Debug, PartialEq, Eq, Structural)]
pub enum ResponseCode {
    FormErr,
    NXDomain,
    NotImp,
}

/// What the handler reads of a request: its type, its operation code, and
/// the name, record type (DNS type code) and EDNS presence of its question.
#[derive(Debug)]
pub struct RequestInfo {
    pub message_type: MessageType,
    pub op_code: u8,
    pub name: String,
    pub query_type: u16,
    pub has_edns: bool,
}

/// How a request is answered.
#[derive(Debug)]
pub enum Action {
    /// A response without records carrying this code.
    Respond(ResponseCode),
    /// `NOERROR` with an empty answer section.
    NoRecords,
    /// `NOERROR` with one synthesized `A` record for this address.
    AnswerA(u32),
    /// `NOERROR` with one synthesized `AAAA` record for this address.
    AnswerAAAA(u128),
    /// Look the question up with the resolver for `upstream`; a lookup
    /// failure is answered with `ServFail`.
    Resolve { upstream: Upstream, use_edns: bool },
}

/// The action for a query routed to `u`.
pub open spec fn answer_for(u: Upstream, query_type: u16, has_edns: bool) -> Action {
    match u {
        Upstream::Special(SpecialUpstream::NXDOMAIN) => Action::Respond(ResponseCode::NXDomain),
        Upstream::Special(SpecialUpstream::NODATA) => Action::NoRecords,
        Upstream::IPv4 { ipv4 } => if query_type == RECORD_A {
            Action::AnswerA(ipv4)
        } else {
            Action::NoRecords
        },
        Upstream::IPv6 { ipv6 } => if query_type == RECORD_AAAA {
            Action::AnswerAAAA(ipv6)
        } else {
            Action::NoRecords
        },
        _ => Action::Resolve { upstream: u, use_edns: has_edns },
    }
}

/// The action for a request, given the router's model: a response is
/// refused with `FormErr`, an operation other than a query with `NotImp`,
/// and a query that matches no rule gets `NXDomain`.
pub open spec fn plan(v: RouterView, req: RequestInfo) -> Action {
    match req.message_type {
        MessageType::Response => Action::Respond(ResponseCode::FormErr),
        MessageType::Query => if req.op_code != OPCODE_QUERY {
            Action::Respond(ResponseCode::NotImp)
        } else {
            match v.search(domain_path(req.name@), req.query_type) {
                None => Action::Respond(ResponseCode::NXDomain),
                Some(u) => answer_for(u, req.query_type, req.has_edns),
            }
        },
    }
}

/// Owns the router and decides how each request is answered.
#[derive(Debug)]
pub struct DnsHandler {
    router: DnsRouter,
}

impl DnsHandler {
    pub closed spec fn wf(&self) -> bool {
        self.router.wf()
    }

    /// The model of the handler's router.
    pub closed spec fn view(&self) -> RouterView {
        self.router.view()
    }

    pub fn new() -> (r: DnsHandler)
        ensures
            r.wf(),
            r.view() == RouterView::empty(),
    {
        DnsHandler { router: DnsRouter::new() }
    }

    /// Adds the rules of a configuration, the last one first with priority
    /// 0, so that the first one gets the highest priority.
    pub fn add_rules(&mut self, rules: Vec<Rule>)
        requires
            old(self).wf(),
        ensures
            final(self).wf(),
            final(self).view() == build_from(old(self).view(), rules@),
    {
        let ghost all = rules@;
        let ghost v0 = self.view();
        let n = rules.len();
        let mut rules = rules;
        let mut priority: usize = 0;
        assert(all.subrange(n as int, n as int) =~= Seq::<Rule>::empty());
        while rules.len() > 0
            invariant
                self.wf(),
                n == all.len(),
                rules@ == all.subrange(0, rules@.len() as int),
                priority == n - rules@.len(),
                self.view() == build_from(v0, all.subrange(rules@.len() as int, n as int)),
            decreases rules@.len(),
        {
            let k = rules.len();
            let rule = rules.pop().unwrap();
            proof {
                let s = all.subrange(k - 1, n as int);
                assert(s.drop_first() =~= all.subrange(k as int, n as int));
                assert(s[0] == all[k - 1]);
                assert(rules@ =~= all.subrange(0, k - 1));
            }
            self.router.add_rule(rule, priority);
            priority = priority + 1;
        }
        assert(all.subrange(0, n as int) =~= all);
    }

    /// The upstream for a question.
    pub fn search_upstream(&self, name: String, query_type: u16) -> (r: Option<Upstream>)
        requires
            self.wf(),
        ensures
            r == self.view().search(domain_path(name@), query_type),
    {
        self.router.search(name, query_type)
    }

    /// Decides how `req` is answered.
    pub fn handle_request(&self, req: RequestInfo) -> (r: Action)
        requires
            self.wf(),
        ensures
            r == plan(self.view(), req),
    {
        match req.message_type {
            MessageType::Response => Action::Respond(ResponseCode::FormErr),
            MessageType::Query => {
                if req.op_code != OPCODE_QUERY {
                    return Action::Respond(ResponseCode::NotImp);
                }
                let query_type = req.query_type;
                let has_edns = req.has_edns;
                match self.search_upstream(req.name, query_type) {
                    None => Action::Respond(ResponseCode::NXDomain),
                    Some(u) => match u {
                        Upstream::Special(SpecialUpstream::NXDOMAIN) => Action::Respond(
                            ResponseCode::NXDomain,
                        ),
                        Upstream::Special(SpecialUpstream::NODATA) => Action::NoRecords,
                        Upstream::IPv4 { ipv4 } => if query_type == RECORD_A {
                            Action::AnswerA(ipv4)
                        } else {
                            Action::NoRecords
                        },
                        Upstream::IPv6 { ipv6 } => if query_type == RECORD_AAAA {
                            Action::AnswerAAAA(ipv6)
                        } else {
                            Action::NoRecords
                        },
                        _ => Action::Resolve { upstream: u, use_edns: has_edns },
                    },
                }
            },
        }
    }
}

} // verus!
