//! The query API: what requests mean and what they are answered.
//!
//! Both front ends answer alike; a client sees the same topology whichever
//! protocol it speaks.

use vstd::prelude::*;
use vstd::string::*;

use crate::graph::scoped::ScopedForest;
use crate::graph::types::{
    EdgeEvent, NodeId, ScopeId, ScopeList, Visibility, first_occurrences, GLOBAL_SCOPE,
};
use crate::text::{decimal, parse_decimal, parsed, push_decimal};

verus! {

/// Members that a request without a cap is answered.
pub const DEFAULT_MEMBER_CAP: usize = 1_000;

/// The largest answer to a member request.
pub const MAX_MEMBER_CAP: usize = 10_000;

/// Why a request is refused.
#[derive(Debug, PartialEq, Eq)]
pub enum RequestError {
    /// Neither `global` nor a number.
    InvalidScope { raw: String },
    /// More members asked for than an answer may hold.
    CapTooLarge { cap: usize },
    /// A short list is indistinguishable from a small component, so a worker
    /// without a member index refuses.
    NoMemberIndex,
    /// An injected edge has no log position.
    LogBacked,
    /// Nothing takes edges any more.
    ShutDown,
}

/// What a [`RequestError`] says.
#[verifier::ext_equal]
pub ghost enum RequestErrorView {
    InvalidScope(Seq<char>),
    CapTooLarge(usize),
    NoMemberIndex,
    LogBacked,
    ShutDown,
}

impl View for RequestError {
    type V = RequestErrorView;

    open spec fn view(&self) -> RequestErrorView {
        match self {
            RequestError::InvalidScope { raw } => RequestErrorView::InvalidScope(raw@),
            RequestError::CapTooLarge { cap } => RequestErrorView::CapTooLarge(*cap),
            RequestError::NoMemberIndex => RequestErrorView::NoMemberIndex,
            RequestError::LogBacked => RequestErrorView::LogBacked,
            RequestError::ShutDown => RequestErrorView::ShutDown,
        }
    }
}

/// The words of a refusal.
pub open spec fn refusal(e: RequestErrorView) -> Seq<char> {
    match e {
        RequestErrorView::InvalidScope(raw) => "invalid scope '"@ + raw
            + "': expected 'global' or a numeric scope id"@,
        RequestErrorView::CapTooLarge(cap) => "cap must be at most "@ + decimal(
            MAX_MEMBER_CAP as nat,
        ) + ", got "@ + decimal(cap as nat),
        RequestErrorView::NoMemberIndex =>
            "this worker has no member index: start it with --member-index, and check forest.members_available in GetStats \u{2014} a run written without the flag disables the query for the whole stack"@,
        RequestErrorView::LogBacked =>
            "this worker ingests from a log; its offsets are assigned there. Produce to the log instead of injecting."@,
        RequestErrorView::ShutDown => "ingest pipeline is shut down"@,
    }
}

/// The code that the RPC front end answers a refusal with.
#[derive(Debug, Clone, Copy, PartialEq, Eq, Structural)]
pub enum RpcCode {
    InvalidArgument,
    Unimplemented,
    FailedPrecondition,
    Unavailable,
}

/// The HTTP status of a refusal.
pub open spec fn refusal_status(e: RequestErrorView) -> u16 {
    match e {
        RequestErrorView::InvalidScope(_) => 400,
        RequestErrorView::CapTooLarge(_) => 400,
        RequestErrorView::NoMemberIndex => 501,
        RequestErrorView::LogBacked => 409,
        RequestErrorView::ShutDown => 503,
    }
}

/// The RPC code of a refusal.
pub open spec fn refusal_code(e: RequestErrorView) -> RpcCode {
    match e {
        RequestErrorView::InvalidScope(_) => RpcCode::InvalidArgument,
        RequestErrorView::CapTooLarge(_) => RpcCode::InvalidArgument,
        RequestErrorView::NoMemberIndex => RpcCode::Unimplemented,
        RequestErrorView::LogBacked => RpcCode::FailedPrecondition,
        RequestErrorView::ShutDown => RpcCode::Unavailable,
    }
}

impl RequestError {
    /// The HTTP status of this refusal.
    pub fn http_status(&self) -> (status: u16)
        ensures
            status == refusal_status(self@),
    {
        match self {
            RequestError::InvalidScope { .. } => 400,
            RequestError::CapTooLarge { .. } => 400,
            RequestError::NoMemberIndex => 501,
            RequestError::LogBacked => 409,
            RequestError::ShutDown => 503,
        }
    }

    /// The RPC code of this refusal. A worker without a member index says that
    /// it cannot list rather than listing nothing.
    pub fn rpc_code(&self) -> (code: RpcCode)
        ensures
            code == refusal_code(self@),
    {
        match self {
            RequestError::InvalidScope { .. } => RpcCode::InvalidArgument,
            RequestError::CapTooLarge { .. } => RpcCode::InvalidArgument,
            RequestError::NoMemberIndex => RpcCode::Unimplemented,
            RequestError::LogBacked => RpcCode::FailedPrecondition,
            RequestError::ShutDown => RpcCode::Unavailable,
        }
    }

    pub fn to_text(&self) -> (s: String)
        ensures
            s@ == refusal(self@),
    {
        match self {
            RequestError::InvalidScope { raw } => {
                let mut s = String::from_str("invalid scope '");
                s.append(raw.as_str());
                s.append("': expected 'global' or a numeric scope id");
                s
            },
            RequestError::CapTooLarge { cap } => {
                let mut s = String::from_str("cap must be at most ");
                push_decimal(&mut s, MAX_MEMBER_CAP as u64);
                s.append(", got ");
                push_decimal(&mut s, *cap as u64);
                s
            },
            RequestError::NoMemberIndex => String::from_str(
                "this worker has no member index: start it with --member-index, and check forest.members_available in GetStats \u{2014} a run written without the flag disables the query for the whole stack",
            ),
            RequestError::LogBacked => String::from_str(
                "this worker ingests from a log; its offsets are assigned there. Produce to the log instead of injecting.",
            ),
            RequestError::ShutDown => String::from_str("ingest pipeline is shut down"),
        }
    }
}

/// Whether `s` is `global` in any mix of cases.
pub open spec fn says_global(s: Seq<char>) -> bool {
    &&& s.len() == "global"@.len()
    &&& forall|i: int|
        0 <= i < s.len() ==> (#[trigger] s[i] == "global"@[i] || s[i] == "GLOBAL"@[i])
}

/// The scope that `raw` addresses.
pub open spec fn scope_addressed(raw: Seq<char>) -> Option<nat> {
    if says_global(raw) {
        Some(GLOBAL_SCOPE as nat)
    } else {
        parsed(raw, u32::MAX as nat)
    }
}

/// Scopes are addressed as `global` or a numeric tenant id.
pub fn parse_scope(raw: &str) -> (r: Result<ScopeId, RequestError>)
    ensures
        match r {
            Ok(s) => scope_addressed(raw@) == Some(s as nat),
            Err(e) => scope_addressed(raw@) is None && e@ == RequestErrorView::InvalidScope(raw@),
        },
{
    let lower = "global";
    let upper = "GLOBAL";
    let n: usize = raw.unicode_len();
    proof {
        reveal_strlit("global");
        reveal_strlit("GLOBAL");
    }
    let mut same: bool = n == 6;
    let mut i: usize = 0;
    while same && i < n
        invariant
            i <= n,
            n == raw@.len(),
            same ==> n == 6,
            lower@ == "global"@,
            upper@ == "GLOBAL"@,
            "global"@.len() == 6,
            "GLOBAL"@.len() == 6,
            same ==> forall|j: int|
                0 <= j < i ==> (#[trigger] raw@[j] == "global"@[j] || raw@[j] == "GLOBAL"@[j]),
            !same ==> !says_global(raw@),
        decreases n - i,
    {
        let c = raw.get_char(i);
        if c != lower.get_char(i) && c != upper.get_char(i) {
            assert(raw@[i as int] == c);
            same = false;
        }
        i += 1;
    }
    if same {
        assert(says_global(raw@));
        return Ok(GLOBAL_SCOPE);
    }
    match parse_decimal(raw, u32::MAX as u64) {
        Some(s) => Ok(s as u32),
        None => Err(RequestError::InvalidScope { raw: String::from_str(raw) }),
    }
}

/// The cap of a member request: zero asks for the default.
pub fn member_cap(asked: u32) -> (r: Result<usize, RequestError>)
    ensures
        match r {
            Ok(cap) => asked <= MAX_MEMBER_CAP && cap == (if asked == 0 {
                DEFAULT_MEMBER_CAP
            } else {
                asked as usize
            }),
            Err(e) => asked > MAX_MEMBER_CAP && e@ == RequestErrorView::CapTooLarge(
                asked as usize,
            ),
        },
{
    let cap: usize = asked as usize;
    if cap == 0 {
        Ok(DEFAULT_MEMBER_CAP)
    } else if cap > MAX_MEMBER_CAP {
        Err(RequestError::CapTooLarge { cap })
    } else {
        Ok(cap)
    }
}

#[derive(Debug, Clone, Copy, PartialEq, Eq, Structural)]
pub struct ComponentResponse {
    pub scope: ScopeId,
    pub node: NodeId,
    /// The component's canonical id: the lowest graph id it contains, so the
    /// routing target is deterministic and only ever decreases as merges land.
    pub root: NodeId,
}

/// The component of `node` as `scope` sees it.
pub fn component(forest: &mut ScopedForest, scope: ScopeId, node: NodeId) -> (r: ComponentResponse)
    requires
        old(forest).wf(),
    ensures
        final(forest).wf(),
        final(forest).agrees(old(forest)),
        r.scope == scope,
        r.node == node,
        r.root == old(forest).root_in(scope, node),
{
    let root: NodeId = forest.scope_root(scope, node);
    ComponentResponse { scope, node, root }
}

#[derive(Debug, Clone, Copy, PartialEq, Eq, Structural)]
pub struct ConnectedResponse {
    pub scope: ScopeId,
    pub u: NodeId,
    pub v: NodeId,
    pub connected: bool,
}

/// Whether `scope` sees `u` and `v` in one component.
pub fn connected(forest: &mut ScopedForest, scope: ScopeId, u: NodeId, v: NodeId) -> (r:
    ConnectedResponse)
    requires
        old(forest).wf(),
    ensures
        final(forest).wf(),
        final(forest).agrees(old(forest)),
        r.scope == scope,
        r.u == u,
        r.v == v,
        r.connected == (old(forest).root_in(scope, u) == old(forest).root_in(scope, v)),
{
    let connected: bool = forest.connected(scope, u, v);
    ConnectedResponse { scope, u, v, connected }
}

#[derive(Debug)]
pub struct MembersResponse {
    pub scope: ScopeId,
    pub node: NodeId,
    pub root: NodeId,
    pub members: Vec<NodeId>,
    pub truncated: bool,
}

/// The members of `node`'s component as `scope` sees it, at most `asked`.
pub fn members(forest: &mut ScopedForest, scope: ScopeId, node: NodeId, asked: u32) -> (r: Result<
    MembersResponse,
    RequestError,
>)
    requires
        old(forest).wf(),
    ensures
        final(forest).wf(),
        final(forest).agrees(old(forest)),
        match r {
            Err(e) => if asked > MAX_MEMBER_CAP {
                e@ == RequestErrorView::CapTooLarge(asked as usize)
            } else {
                e@ == RequestErrorView::NoMemberIndex && !old(forest).answers_members()
            },
            Ok(m) => {
                &&& asked <= MAX_MEMBER_CAP
                &&& old(forest).answers_members()
                &&& m.scope == scope
                &&& m.node == node
                &&& m.root == old(forest).root_in(scope, node)
                &&& old(forest).consistent() && old(forest).members_covered() ==> old(
                    forest,
                ).lists_members(
                    scope,
                    node,
                    if asked == 0 {
                        DEFAULT_MEMBER_CAP
                    } else {
                        asked as usize
                    },
                    m.members@,
                    m.truncated,
                )
            },
        },
{
    proof {
        forest.agreement_is_reflexive();
    }
    let cap: usize = match member_cap(asked) {
        Ok(cap) => cap,
        Err(e) => {
            return Err(e);
        },
    };
    let found = match forest.members(scope, node, cap) {
        Some(m) => m,
        None => {
            return Err(RequestError::NoMemberIndex);
        },
    };
    let truncated: bool = found.is_truncated();
    let ghost walked = *forest;
    let root: NodeId = forest.scope_root(scope, node);
    proof {
        walked.agreement_resolves(old(forest));
        walked.agreeing_forests_answer_alike(old(forest));
        ScopedForest::agreement_chains(old(forest), &walked, forest);
    }
    Ok(MembersResponse { scope, node, root, members: found.into_nodes(), truncated })
}

/// The edge that a request injects, in canonical form: an empty list of scopes,
/// or one with the global scope, means everyone, and repeated ids count once.
pub fn injected_edge(
    src: NodeId,
    dst: NodeId,
    scopes: Vec<ScopeId>,
    props: Option<String>,
    now_ms: i64,
) -> (e: EdgeEvent)
    ensures
        e.src == src,
        e.dst == dst,
        e.event_time_ms == now_ms,
        e.props == props,
        e.visibility is Global <==> scopes@.len() == 0 || scopes@.contains(GLOBAL_SCOPE),
        e.visibility matches Visibility::Scoped(l) ==> l@ == first_occurrences(scopes@),
{
    let visibility = Visibility::Scoped(ScopeList::from_vec(scopes)).normalize();
    EdgeEvent { src, dst, visibility, event_time_ms: now_ms, props }
}

/// Whether a worker takes injected edges: one that ingests from a log does not,
/// since minting offsets would collide with those that the log assigns.
pub fn accepts_injection(log_backed: bool, running: bool) -> (r: Result<(), RequestError>)
    ensures
        match r {
            Ok(_) => !log_backed && running,
            Err(e) => e@ == (if log_backed {
                RequestErrorView::LogBacked
            } else {
                RequestErrorView::ShutDown
            }) && (log_backed || !running),
        },
{
    if log_backed {
        Err(RequestError::LogBacked)
    } else if !running {
        Err(RequestError::ShutDown)
    } else {
        Ok(())
    }
}

/// **A scope is addressed as `global`, in any mix of cases, or by its number.**
pub proof fn a_scope_is_addressed_by_name_or_number(raw: Seq<char>)
    ensures
        ({
            let named = raw.len() == 6 && (raw[0] == 'g' || raw[0] == 'G') && (raw[1] == 'l'
                || raw[1] == 'L') && (raw[2] == 'o' || raw[2] == 'O') && (raw[3] == 'b' || raw[3]
                == 'B') && (raw[4] == 'a' || raw[4] == 'A') && (raw[5] == 'l' || raw[5] == 'L');
            scope_addressed(raw) == if named {
                Some(0nat)
            } else {
                parsed(raw, 0xFFFF_FFFF)
            }
        }),
{
    reveal_strlit("global");
    reveal_strlit("GLOBAL");
    if says_global(raw) {
        assert(raw[0] == "global"@[0] || raw[0] == "GLOBAL"@[0]);
        assert(raw[1] == "global"@[1] || raw[1] == "GLOBAL"@[1]);
        assert(raw[2] == "global"@[2] || raw[2] == "GLOBAL"@[2]);
        assert(raw[3] == "global"@[3] || raw[3] == "GLOBAL"@[3]);
        assert(raw[4] == "global"@[4] || raw[4] == "GLOBAL"@[4]);
        assert(raw[5] == "global"@[5] || raw[5] == "GLOBAL"@[5]);
    }
}

/// **A scope's number addresses it.**
pub proof fn a_scope_is_reached_by_its_number(scope: ScopeId)
    ensures
        scope_addressed(decimal(scope as nat)) == Some(scope as nat),
{
    crate::text::decimal_reads_back(scope as nat, u32::MAX as nat);
    crate::text::decimal_digits(scope as nat);
    a_scope_is_addressed_by_name_or_number(decimal(scope as nat));
    assert(crate::text::is_digit(decimal(scope as nat)[0]));
}

/// **A refusal is answered by what was wrong, never by how it was asked**: a bad
/// request is the caller's, a missing index is not implemented, a worker fed by
/// a log is in conflict, and one that is shut down is unavailable.
pub proof fn a_refusal_is_answered_by_its_kind(e: RequestErrorView)
    ensures
        refusal_status(e) == 400 <==> e is InvalidScope || e is CapTooLarge,
        refusal_status(e) == 501 <==> e is NoMemberIndex,
        refusal_status(e) == 409 <==> e is LogBacked,
        refusal_status(e) == 503 <==> e is ShutDown,
        refusal_code(e) is InvalidArgument <==> refusal_status(e) == 400,
        refusal_code(e) is Unimplemented <==> refusal_status(e) == 501,
        refusal_code(e) is FailedPrecondition <==> refusal_status(e) == 409,
        refusal_code(e) is Unavailable <==> refusal_status(e) == 503,
{
}

/// **A refusal says what was asked**: two refused scopes are refused in the same
/// words only where they are the same, and so with two caps.
pub proof fn a_refusal_says_what_was_asked(a: Seq<char>, b: Seq<char>, m: usize, n: usize)
    ensures
        refusal(RequestErrorView::InvalidScope(a)) == refusal(RequestErrorView::InvalidScope(b))
            <==> a == b,
        refusal(RequestErrorView::CapTooLarge(m)) == refusal(RequestErrorView::CapTooLarge(n))
            <==> m == n,
{
    let p = "invalid scope '"@;
    let x = refusal(RequestErrorView::InvalidScope(a));
    let y = refusal(RequestErrorView::InvalidScope(b));
    if x == y {
        assert(x.len() == y.len());
        assert(a =~= x.subrange(p.len() as int, (p.len() + a.len()) as int));
        assert(b =~= y.subrange(p.len() as int, (p.len() + b.len()) as int));
    }
    let v = refusal(RequestErrorView::CapTooLarge(m));
    let w = refusal(RequestErrorView::CapTooLarge(n));
    if v == w {
        let q = "cap must be at most "@ + decimal(MAX_MEMBER_CAP as nat) + ", got "@;
        assert(decimal(m as nat) =~= v.skip(q.len() as int));
        assert(decimal(n as nat) =~= w.skip(q.len() as int));
        crate::text::decimal_is_injective(m as nat, n as nat);
    }
}

/// **A cap is granted as asked up to ten thousand**, and zero asks for the default;
/// more is refused.
pub proof fn a_cap_is_granted_as_asked(asked: u32, r: Result<usize, RequestError>)
    requires
        call_ensures(member_cap, (asked,), r),
    ensures
        r is Ok <==> asked <= 10_000,
        r matches Ok(cap) ==> 0 < cap <= 10_000 && (asked > 0 ==> cap == asked),
        r matches Ok(cap) ==> (asked == 0 ==> cap == 1_000),
        r matches Err(e) ==> (e matches RequestError::CapTooLarge { cap } && cap == asked),
{
}

/// **A scope is reached by its number, and only scope 0 by the name.**
pub proof fn a_parsed_scope_is_the_one_addressed(
    raw: &str,
    scope: ScopeId,
    r: Result<ScopeId, RequestError>,
)
    requires
        call_ensures(parse_scope, (raw,), r),
    ensures
        raw@ == decimal(scope as nat) ==> r is Ok && r->Ok_0 == scope,
        r matches Err(e) ==> (e matches RequestError::InvalidScope { raw: given } && given@ == raw@),
{
    a_scope_is_reached_by_its_number(scope);
}

/// **An injected edge is the one that was asked for**, seen by those that were
/// listed, or by everyone.
pub proof fn an_injected_edge_is_the_one_asked_for(
    src: NodeId,
    dst: NodeId,
    scopes: Vec<ScopeId>,
    props: Option<String>,
    now_ms: i64,
    e: EdgeEvent,
    scope: ScopeId,
)
    requires
        call_ensures(injected_edge, (src, dst, scopes, props, now_ms), e),
    ensures
        e.src == src && e.dst == dst && e.event_time_ms == now_ms && e.props == props,
        crate::graph::history::visible(e, scope) <==> scopes@.len() == 0 || scopes@.contains(0)
            || scopes@.contains(scope),
{
    crate::graph::history::an_edge_is_seen_by_those_it_lists(e, scope);
    crate::graph::types::first_occurrences_keep_every_id(scopes@);
    if let Visibility::Scoped(l) = e.visibility {
        assert(l@ == first_occurrences(scopes@));
        assert(scopes@.contains(scopes@[0]));
        assert(l@.contains(scopes@[0]));
    }
}

/// **A worker takes an injected edge only where no log feeds it and it runs**, and
/// says which of these fails.
pub proof fn an_edge_is_injected_only_where_no_log_feeds(
    log_backed: bool,
    running: bool,
    r: Result<(), RequestError>,
)
    requires
        call_ensures(accepts_injection, (log_backed, running), r),
    ensures
        r is Ok <==> !log_backed && running,
        log_backed ==> (r matches Err(e) && e is LogBacked),
        !log_backed && !running ==> (r matches Err(e) && e is ShutDown),
{
}

/// **A member list is answered within its cap**, and under the root that stands for
/// the node; a cap that is too large is refused before anything is asked.
pub proof fn a_member_list_is_answered_within_its_cap(
    forest: &mut ScopedForest,
    scope: ScopeId,
    node: NodeId,
    asked: u32,
    r: Result<MembersResponse, RequestError>,
)
    requires
        call_ensures(members, (forest, scope, node, asked), r),
        old(forest).consistent(),
        old(forest).members_covered(),
    ensures
        asked > 10_000 ==> r is Err,
        r is Ok <==> asked <= 10_000 && old(forest).answers_members(),
        r matches Ok(m) ==> {
            &&& m.scope == scope && m.node == node
            &&& m.root == old(forest).root_in(scope, node)
            &&& m.members@.len() <= if asked == 0 {
                1_000
            } else {
                asked as int
            }
            &&& forall|i: int|
                0 <= i < m.members@.len() ==> old(forest).root_in(
                    scope,
                    #[trigger] m.members@[i],
                ) == m.root
            &&& m.members@.no_duplicates()
        },
{
    if let Ok(m) = r {
        assert forall|i: int| 0 <= i < m.members@.len() implies forest.root_in(
            scope,
            #[trigger] m.members@[i],
        ) == m.root by {
            assert(m.members@.contains(m.members@[i]));
        }
    }
}

} // verus!
