//! Edge event sources: a configurable firehose simulator, so the engine runs
//! end to end out of the box.

use rand::rngs::StdRng;
use rand::RngExt;
use vstd::prelude::*;

use crate::graph::types::{EdgeEvent, NodeId, ScopeId, ScopeList, Visibility};
use crate::text::{decimal, decimal_text};

verus! {

#[derive(Debug, Clone)]
pub struct SimulatorConfig {
    /// Target events per second.
    pub rate: u64,
    /// Node id space to draw endpoints from.
    pub nodes: u64,
    /// Number of tenant scopes (ids 1..=scopes; 0 is global).
    pub scopes: u32,
    /// Fraction (0-100) of edges that are globally visible.
    pub global_pct: u8,
    /// Fraction (0-100) of scoped edges visible to two scopes.
    pub multi_scope_pct: u8,
    /// Optional deterministic seed.
    pub seed: Option<u64>,
}

impl Default for SimulatorConfig {
    fn default() -> (c: SimulatorConfig)
        ensures
            c == (SimulatorConfig {
                rate: 5_000,
                nodes: 1_000_000,
                scopes: 3_000,
                global_pct: 15,
                multi_scope_pct: 5,
                seed: None,
            }),
    {
        SimulatorConfig {
            rate: 5_000,
            nodes: 1_000_000,
            scopes: 3_000,
            global_pct: 15,
            multi_scope_pct: 5,
            seed: None,
        }
    }
}

/// `rand`'s standard generator.
#[verifier::external_type_specification]
#[verifier::external_body]
pub struct ExStdRng(rand::rngs::StdRng);

/// `RngExt::random_range` over `0..end`: some number below `end`.
#[verifier::external_body]
fn draw_below(rng: &mut StdRng, end: u64) -> (n: u64)
    requires
        0 < end,
    ensures
        n < end,
{
    rng.random_range(0..end)
}

/// `RngExt::random_range` over `low..=high`: some number in between.
#[verifier::external_body]
fn draw_between(rng: &mut StdRng, low: u32, high: u32) -> (n: u32)
    requires
        low <= high,
    ensures
        low <= n <= high,
{
    rng.random_range(low..=high)
}

/// `RngExt::random_range` over `0..end` for a byte: some number below `end`.
#[verifier::external_body]
fn draw_byte_below(rng: &mut StdRng, end: u8) -> (n: u8)
    requires
        0 < end,
    ensures
        n < end,
{
    rng.random_range(0..end)
}

/// Milliseconds between two bursts.
pub const TICK_MS: u64 = 20;

/// Events of one burst: bursts approximate the target rate without a timer
/// per event.
pub fn events_per_tick(cfg: &SimulatorConfig) -> (n: u64)
    ensures
        n == (if cfg.rate < 50 { 1int } else { cfg.rate as int / 50 }),
{
    let n: u64 = cfg.rate / 50;
    if n < 1 {
        1
    } else {
        n
    }
}

/// The properties of a simulated edge.
pub open spec fn weight_props(weight: u32) -> Seq<char> {
    "{\"weight\":"@ + decimal(weight as nat) + "}"@
}

/// The simulated edge between `src` and `dst`.
pub fn simulated_edge(
    src: NodeId,
    dst: NodeId,
    visibility: Visibility,
    weight: u32,
    now_ms: i64,
) -> (e: EdgeEvent)
    ensures
        e.src == src,
        e.dst == dst,
        e.visibility == visibility,
        e.event_time_ms == now_ms,
        e.props is Some && e.props->Some_0@ == weight_props(weight),
{
    let mut props = String::from_str("{\"weight\":");
    props.append(decimal_text(weight as u64).as_str());
    props.append("}");
    EdgeEvent { src, dst, visibility, event_time_ms: now_ms, props: Some(props) }
}

/// Whether `draw`, out of a hundred, makes an edge globally visible.
pub fn is_global(cfg: &SimulatorConfig, draw: u8) -> (r: bool)
    ensures
        r == (draw < cfg.global_pct),
{
    draw < cfg.global_pct
}

/// Whether `draw`, out of a hundred, makes a scoped edge visible to two scopes.
pub fn is_multi_scope(cfg: &SimulatorConfig, draw: u8) -> (r: bool)
    ensures
        r == (draw < cfg.multi_scope_pct),
{
    draw < cfg.multi_scope_pct
}

/// The visibility of an edge of one or two scopes.
pub fn scoped_to(first: ScopeId, second: Option<ScopeId>) -> (v: Visibility)
    ensures
        v is Scoped,
        v->Scoped_0@ == (match second {
            None => seq![first],
            Some(s) => seq![first, s],
        }),
{
    let mut scopes: Vec<ScopeId> = Vec::new();
    scopes.push(first);
    if let Some(s) = second {
        scopes.push(s);
        assert(scopes@ =~= seq![first, s]);
    } else {
        assert(scopes@ =~= seq![first]);
    }
    Visibility::Scoped(ScopeList::from_vec(scopes))
}

/// What a simulated edge may look like.
pub open spec fn plausible(cfg: SimulatorConfig, e: EdgeEvent, now_ms: i64) -> bool {
    &&& e.src < cfg.nodes
    &&& e.dst < cfg.nodes
    &&& e.event_time_ms == now_ms
    &&& exists|weight: u32| 1 <= weight < 100 && props_say(e, weight)
    &&& match e.visibility {
        Visibility::Global => cfg.global_pct > 0,
        Visibility::Scoped(list) => {
            &&& cfg.global_pct < 100
            &&& forall|i: int| 0 <= i < list@.len() ==> 1 <= #[trigger] list@[i] <= cfg.scopes
            &&& {
                ||| list@.len() == 1 && cfg.multi_scope_pct < 100
                ||| list@.len() == 2 && cfg.multi_scope_pct > 0
            }
        },
    }
}

pub open spec fn props_say(e: EdgeEvent, weight: u32) -> bool {
    e.props is Some && e.props->Some_0@ == weight_props(weight)
}

/// What one edge is drawn as. Where a draw is not needed, it is not made and
/// its number means nothing.
#[derive(Debug, Clone, Copy, PartialEq, Eq, Structural)]
pub struct Draws {
    pub src: NodeId,
    pub dst: NodeId,
    /// Out of a hundred: whether everyone sees the edge.
    pub global: u8,
    /// Who sees it otherwise.
    pub first: ScopeId,
    /// Out of a hundred: whether another scope sees it too.
    pub multi: u8,
    /// The other scope.
    pub second: ScopeId,
    pub weight: u32,
}

/// `e` is the edge that was drawn as `d`.
pub open spec fn drawn(cfg: SimulatorConfig, d: Draws, e: EdgeEvent, now_ms: i64) -> bool {
    &&& e.src == d.src
    &&& e.dst == d.dst
    &&& e.event_time_ms == now_ms
    &&& props_say(e, d.weight)
    &&& match e.visibility {
        Visibility::Global => d.global < cfg.global_pct,
        Visibility::Scoped(list) => d.global >= cfg.global_pct && list@ == if d.multi
            < cfg.multi_scope_pct {
            seq![d.first, d.second]
        } else {
            seq![d.first]
        },
    }
}

/// The edge that was drawn as `d`.
pub fn drawn_event(cfg: &SimulatorConfig, d: Draws, now_ms: i64) -> (e: EdgeEvent)
    ensures
        drawn(*cfg, d, e, now_ms),
{
    let visibility = if is_global(cfg, d.global) {
        Visibility::Global
    } else if is_multi_scope(cfg, d.multi) {
        scoped_to(d.first, Some(d.second))
    } else {
        scoped_to(d.first, None)
    };
    simulated_edge(d.src, d.dst, visibility, d.weight, now_ms)
}

/// The numbers of `d` that mean something are in range.
pub open spec fn in_range(cfg: SimulatorConfig, d: Draws) -> bool {
    &&& d.src < cfg.nodes
    &&& d.dst < cfg.nodes
    &&& d.global < 100
    &&& d.global >= cfg.global_pct ==> 1 <= d.first <= cfg.scopes && d.multi < 100 && (d.multi
        < cfg.multi_scope_pct ==> 1 <= d.second <= cfg.scopes)
    &&& 1 <= d.weight < 100
}

/// **What is drawn in range is plausible.**
pub proof fn drawn_edges_are_plausible(cfg: SimulatorConfig, d: Draws, e: EdgeEvent, now_ms: i64)
    requires
        in_range(cfg, d),
        drawn(cfg, d, e, now_ms),
    ensures
        plausible(cfg, e, now_ms),
{
    assert(1 <= d.weight < 100 && props_say(e, d.weight));
}

/// Draws one edge. What is drawn is up to the generator; what holds of every
/// draw is stated.
pub fn next_event(cfg: &SimulatorConfig, rng: &mut StdRng, now_ms: i64) -> (e: EdgeEvent)
    requires
        cfg.nodes > 0,
        cfg.scopes > 0,
    ensures
        exists|d: Draws| in_range(*cfg, d) && #[trigger] drawn(*cfg, d, e, now_ms),
        plausible(*cfg, e, now_ms),
{
    let src: u64 = draw_below(rng, cfg.nodes);
    let dst: u64 = draw_below(rng, cfg.nodes);
    let global: u8 = draw_byte_below(rng, 100);
    let mut first: u32 = 0;
    let mut multi: u8 = 0;
    let mut second: u32 = 0;
    if !is_global(cfg, global) {
        first = draw_between(rng, 1, cfg.scopes);
        multi = draw_byte_below(rng, 100);
        if is_multi_scope(cfg, multi) {
            second = draw_between(rng, 1, cfg.scopes);
        }
    }
    let weight: u32 = draw_between(rng, 1, 99);
    let d = Draws { src, dst, global, first, multi, second, weight };
    let e = drawn_event(cfg, d, now_ms);
    proof {
        assert(in_range(*cfg, d) && drawn(*cfg, d, e, now_ms));
        drawn_edges_are_plausible(*cfg, d, e, now_ms);
    }
    e
}

/// **An edge is what was drawn for it**: its ends, its weight and the moment,
/// seen by everyone where the first draw out of a hundred falls below the global
/// share, and otherwise by one scope, or by two where the second draw falls
/// below that share.
pub proof fn an_edge_is_what_was_drawn(
    cfg: SimulatorConfig,
    d: Draws,
    e: EdgeEvent,
    now_ms: i64,
)
    requires
        drawn(cfg, d, e, now_ms),
    ensures
        e.src == d.src && e.dst == d.dst && e.event_time_ms == now_ms,
        e.visibility is Global <==> d.global < cfg.global_pct,
        e.visibility matches Visibility::Scoped(l) ==> {
            &&& l@.len() == 2 <==> d.multi < cfg.multi_scope_pct
            &&& l@.len() == 1 <==> d.multi >= cfg.multi_scope_pct
            &&& l@[0] == d.first
            &&& l@.len() == 2 ==> l@[1] == d.second
        },
        e.props is Some && e.props->Some_0@ == "{\"weight\":"@ + decimal(d.weight as nat) + "}"@,
{
}

/// **A burst is a fiftieth of a second's events**, rounded down, and never empty;
/// and an edge that is drawn is seen by the scopes that were drawn for it.
pub proof fn a_burst_is_a_fiftieth(cfg: SimulatorConfig, n: u64)
    requires
        call_ensures(events_per_tick, (&cfg,), n),
    ensures
        n >= 1,
        cfg.rate >= 50 ==> 50 * n <= cfg.rate < 50 * (n + 1),
        cfg.rate < 50 ==> n == 1,
{
}

/// **An edge that is handed out is the one drawn.**
pub proof fn a_drawn_edge_is_handed_out(
    cfg: SimulatorConfig,
    d: Draws,
    now_ms: i64,
    e: EdgeEvent,
)
    requires
        call_ensures(drawn_event, (&cfg, d, now_ms), e),
    ensures
        e.src == d.src && e.dst == d.dst && e.event_time_ms == now_ms,
        e.visibility is Global <==> d.global < cfg.global_pct,
        e.visibility matches Visibility::Scoped(l) ==> l@.len() > 0 && l@[0] == d.first
            && (l@.len() > 1 <==> d.multi < cfg.multi_scope_pct) && (l@.len() > 1 ==> l@.len() == 2
            && l@[1] == d.second),
{
    an_edge_is_what_was_drawn(cfg, d, e, now_ms);
}

/// **A simulated edge carries the weight drawn**, as the one member of an object.
pub proof fn a_simulated_edge_carries_its_weight(
    src: NodeId,
    dst: NodeId,
    visibility: Visibility,
    weight: u32,
    now_ms: i64,
    e: EdgeEvent,
)
    requires
        call_ensures(simulated_edge, (src, dst, visibility, weight, now_ms), e),
    ensures
        e.src == src && e.dst == dst && e.event_time_ms == now_ms && e.visibility == visibility,
        e.props matches Some(p) && p@ == "{\"weight\":"@ + decimal(weight as nat) + "}"@,
{
}

} // verus!
