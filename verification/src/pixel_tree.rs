//! The per-pixel temporal integration state machine: converts a stream of
//! (intensity, time) integration steps into discrete decimation-coded
//! events.
//!
//! A pixel holds a cascade of levels ordered from highest decimation at
//! the front to lowest at the back: when an integration step overflows a
//! level's threshold, the level emits a pending event and a child level is
//! seeded with the residual intensity. Intensities are exact integers and
//! times are exact fractions of ticks, so every quantity the cascade
//! tracks is computed without rounding until an event's delta-t is
//! truncated to whole ticks.

use vstd::prelude::*;

use crate::{d_shift, two_pow, EventCoordless, D_MAX};

verus! {

/// The error returned by the pixel integration tree.
#[derive(Debug, Copy, Clone, PartialEq, Eq, Structural)]
pub enum PixelError {
    /// A level was asked for its pending event while it has none.
    NoPendingEvent,
    /// A level's decimation value ran past the threshold table.
    DecimationOverflow,
    /// An exact fraction outgrew its fixed-width representation.
    ArithmeticOverflow,
}

impl PixelError {
    /// A human-readable description of the error.
    pub fn message(&self) -> String {
        match self {
            PixelError::NoPendingEvent => String::from_str("no pending best event"),
            PixelError::DecimationOverflow => String::from_str(
                "decimation value exceeds the threshold table",
            ),
            PixelError::ArithmeticOverflow => String::from_str(
                "exact time arithmetic overflowed",
            ),
        }
    }
}

/// An exact non-negative fraction of ticks.
#[derive(Debug, Copy, Clone, PartialEq, Eq)]
pub struct Frac {
    pub num: u128,
    pub den: u128,
}

impl Frac {
    /// A fraction is well-formed when its denominator is positive.
    pub open spec fn wf(&self) -> bool {
        self.den >= 1
    }

    /// Builds the fraction `num / den`.
    pub fn new(num: u64, den: u64) -> (r: Frac)
        requires
            den >= 1,
        ensures
            r.num == num && r.den == den,
            r.wf(),
    {
        Frac { num: num as u128, den: den as u128 }
    }

    /// The zero fraction.
    pub fn zero() -> (r: Frac)
        ensures
            r.num == 0 && r.den == 1,
            r.wf(),
    {
        Frac { num: 0, den: 1 }
    }

    /// Exact addition over a common denominator, or nothing when a field
    /// outgrows its width.
    pub fn add(self, other: Frac) -> (r: Option<Frac>)
        requires
            self.wf(),
            other.wf(),
        ensures
            r matches Some(f) ==> f.num == self.num * other.den + other.num * self.den && f.den
                == self.den * other.den && f.wf(),
            r is None <==> self.num * other.den + other.num * self.den > u128::MAX || self.den
                * other.den > u128::MAX,
    {
        proof {
            assert(self.num * other.den <= self.num * other.den + other.num * self.den
                && other.num * self.den <= self.num * other.den + other.num * self.den)
                by (nonlinear_arith)
                requires
                    self.num >= 0 && other.num >= 0 && self.den >= 1 && other.den >= 1,
            ;
        }
        let a = match self.num.checked_mul(other.den) {
            Some(a) => a,
            None => {
                return None;
            },
        };
        let b = match other.num.checked_mul(self.den) {
            Some(b) => b,
            None => {
                return None;
            },
        };
        let d = match self.den.checked_mul(other.den) {
            Some(d) => d,
            None => {
                return None;
            },
        };
        proof {
            assert(self.den * other.den >= 1) by (nonlinear_arith)
                requires
                    self.den >= 1 && other.den >= 1,
            ;
        }
        match a.checked_add(b) {
            Some(n) => Some(Frac { num: n, den: d }),
            None => None,
        }
    }

    /// Exact multiplication by the ratio `a / b`, or nothing when a field
    /// outgrows its width.
    pub fn mul_ratio(self, a: u64, b: u64) -> (r: Option<Frac>)
        requires
            self.wf(),
            b >= 1,
        ensures
            r matches Some(f) ==> f.num == self.num * a && f.den == self.den * b && f.wf(),
            r is None <==> self.num * a > u128::MAX || self.den * b > u128::MAX,
    {
        let n = match self.num.checked_mul(a as u128) {
            Some(n) => n,
            None => {
                return None;
            },
        };
        proof {
            assert(self.den * b >= 1) by (nonlinear_arith)
                requires
                    self.den >= 1 && b >= 1,
            ;
        }
        match self.den.checked_mul(b as u128) {
            Some(d) => Some(Frac { num: n, den: d }),
            None => None,
        }
    }

    /// The fraction rounded down to whole ticks, stopping at the 32-bit
    /// range.
    pub fn floor_u32_sat(self) -> (r: u32)
        requires
            self.wf(),
        ensures
            r as int == (if self.num as int / self.den as int > u32::MAX {
                u32::MAX as int
            } else {
                self.num as int / self.den as int
            }),
    {
        let q = self.num / self.den;
        if q > u32::MAX as u128 {
            u32::MAX
        } else {
            q as u32
        }
    }
}

/// The integration state of one cascade level: its decimation value, the
/// total intensity fed to it since its last reset, and the exact time over
/// which that intensity arrived.
#[derive(Debug, Copy, Clone, PartialEq, Eq)]
pub struct PixelState {
    pub d: u8,
    pub integration: u64,
    pub delta_t: Frac,
}

/// One level of the cascade: its state and its pending event, if it has
/// fired since the last pop.
#[derive(Debug, Copy, Clone, PartialEq, Eq)]
pub struct PixelLevel {
    pub state: PixelState,
    pub best_event: Option<EventCoordless>,
}

/// The floor of the base-two logarithm; zero for inputs below two.
pub open spec fn spec_log2_floor(n: int) -> int
    decreases n,
{
    if n <= 1 {
        0
    } else {
        1 + spec_log2_floor(n / 2)
    }
}

proof fn lemma_two_pow_64()
    ensures
        two_pow(64) == 0x1_0000_0000_0000_0000,
{
    reveal_with_fuel(two_pow, 65);
}

/// The floor of the base-two logarithm of a machine word.
fn floor_log2_u64(n: u64) -> (r: u8)
    ensures
        r as int == spec_log2_floor(n as int),
{
    let mut v: u64 = n;
    let mut r: u8 = 0;
    proof {
        assert(two_pow(0) == 1);
    }
    while v >= 2
        invariant
            spec_log2_floor(n as int) == r + spec_log2_floor(v as int),
            two_pow(r as nat) * (v as int) <= n as int,
            r <= 64,
        decreases v,
    {
        let ghost r_old = r as nat;
        let ghost v_old = v as int;
        proof {
            crate::framer::lemma_two_pow_le(r_old, r_old);
            if r_old >= 64 {
                lemma_two_pow_64();
                crate::framer::lemma_two_pow_le(64, r_old);
                assert(two_pow(r_old) * (v as int) >= two_pow(r_old) * 2) by (nonlinear_arith)
                    requires
                        v >= 2 && two_pow(r_old) >= 1,
                ;
                assert(false);
            }
        }
        v = v / 2;
        r = r + 1;
        proof {
            vstd::arithmetic::div_mod::lemma_fundamental_div_mod(v_old, 2);
            vstd::arithmetic::div_mod::lemma_mod_bound(v_old, 2);
            assert(two_pow(r as nat) == 2 * two_pow(r_old));
            assert(two_pow(r as nat) * (v as int) <= n as int) by (nonlinear_arith)
                requires
                    two_pow(r as nat) == 2 * two_pow(r_old) && 2 * (v as int) <= v_old && two_pow(
                        r_old,
                    ) >= 1 && two_pow(r_old) * v_old <= n as int,
            ;
        }
    }
    r
}

/// The sum of the threshold-equivalent intensities of a sequence of
/// events: two to each event's decimation value, added up.
pub open spec fn spec_sum_pow(s: Seq<EventCoordless>) -> int
    decreases s.len(),
{
    if s.len() == 0 {
        0
    } else {
        two_pow(s[0].d as nat) + spec_sum_pow(s.drop_first())
    }
}

/// The structural part of the cascade invariant: positive time
/// denominators, a pending event at every level but possibly the last, a
/// bounded decimation value and a covering exact time wherever a pending
/// event exists, and a last level whose accumulation covers its own
/// pending event's threshold.
pub open spec fn levels_basic(s: Seq<PixelLevel>) -> bool {
    &&& s.len() >= 1
    &&& forall|j: int| 0 <= j < s.len() ==> (#[trigger] s[j]).state.delta_t.den >= 1
    &&& forall|j: int| 0 <= j < s.len() - 1 ==> (#[trigger] s[j].best_event) is Some
    &&& forall|j: int|
        0 <= j < s.len() && (#[trigger] s[j].best_event) is Some ==> {
            let b = s[j].best_event.unwrap();
            b.d <= D_MAX && b.delta_t as int * s[j].state.delta_t.den <= s[j].state.delta_t.num
        }
    &&& (s[s.len() - 1].best_event is Some ==> s[s.len() - 1].state.integration >= two_pow(
        s[s.len() - 1].best_event.unwrap().d as nat,
    ))
}

/// The conservation part of the cascade invariant: each level's
/// accumulation splits exactly into its pending event's threshold plus
/// its child's accumulation.
pub open spec fn chain_plain(s: Seq<PixelLevel>) -> bool {
    forall|j: int|
        0 <= j < s.len() - 1 ==> s[j].state.integration == two_pow(
            (#[trigger] s[j].best_event).unwrap().d as nat,
        ) + s[j + 1].state.integration
}

/// The conservation invariant during an integration walk standing at
/// level `idx` with `cur` intensity still to add: the level just above
/// the walk has accounted for `cur` that its child has not yet received.
pub open spec fn chain_pending(s: Seq<PixelLevel>, idx: int, cur: int) -> bool {
    forall|j: int|
        0 <= j < s.len() - 1 ==> s[j].state.integration == two_pow(
            (#[trigger] s[j].best_event).unwrap().d as nat,
        ) + s[j + 1].state.integration + (if j == idx - 1 {
            cur
        } else {
            0int
        })
}

/// The exact effect of one integration step on the root level.
pub open spec fn spec_root_step(pre: PixelLevel, post: PixelLevel, i: int, t: Frac) -> bool {
    &&& post.state.integration == pre.state.integration + i
    &&& spec_frac_is_sum(post.state.delta_t, pre.state.delta_t, t)
    &&& post.state.d >= pre.state.d
    &&& (pre.state.integration + i < two_pow(pre.state.d as nat) ==> post == (PixelLevel {
        state: PixelState {
            d: pre.state.d,
            integration: post.state.integration,
            delta_t: post.state.delta_t,
        },
        best_event: pre.best_event,
    }))
    &&& (pre.state.integration + i >= two_pow(pre.state.d as nat) ==> post == (PixelLevel {
        state: PixelState {
            d: (pre.state.d + 1) as u8,
            integration: post.state.integration,
            delta_t: post.state.delta_t,
        },
        best_event: Some(
            EventCoordless { d: pre.state.d, delta_t: spec_fire_dt(pre.state, t, i) as u32 },
        ),
    }))
}

/// What integrating one step leaves at one level: no event, or a fired
/// event with the intensity and exact time left over past the fill.
pub enum LevelOutcome {
    NoFire,
    Fired(Option<(u64, Frac)>),
}

/// A per-pixel integration cascade. Level 0 is the root; each deeper
/// level is the fallback branch seeded when the level above it overflowed.
#[derive(Debug, Clone, PartialEq, Eq)]
pub struct PixelNode {
    pub nodes: Vec<PixelLevel>,
}

impl PixelNode {
    /// The invariant of the cascade: at least one level; every level but
    /// possibly the last holds a pending event; a level's accumulated
    /// intensity splits exactly into its pending event's threshold plus
    /// its child's accumulated intensity (or at least covers the
    /// threshold at the last level); and a level's exact time covers its
    /// pending event's truncated delta-t.
    pub open spec fn wf(&self) -> bool {
        levels_basic(self.nodes@) && chain_plain(self.nodes@)
    }

    /// A fresh pixel: one level whose decimation value is the floor
    /// base-two logarithm of the starting intensity, with nothing
    /// integrated yet.
    pub fn new(start_intensity: u64) -> (r: PixelNode)
        ensures
            r.wf(),
            r.nodes.len() == 1,
            r.nodes[0].state.d as int == spec_log2_floor(start_intensity as int),
            r.nodes[0].state.integration == 0,
            r.nodes[0].state.delta_t.num == 0,
            r.nodes[0].state.delta_t.den == 1,
            r.nodes[0].best_event is None,
    {
        let d = floor_log2_u64(start_intensity);
        let mut nodes: Vec<PixelLevel> = Vec::new();
        nodes.push(
            PixelLevel {
                state: PixelState { d, integration: 0, delta_t: Frac::zero() },
                best_event: None,
            },
        );
        PixelNode { nodes }
    }

    /// Pops the cascade's pending events, root to leaf (highest
    /// decimation first), and resets the pixel to the bottom-most residual
    /// state: the last level's accumulation minus what its own event
    /// consumed. Fails, changing nothing, exactly when a level lacks a
    /// pending event — by the invariant, only the last level can.
    ///
    /// Conservation law: the threshold-equivalent intensity of the popped
    /// events plus the residual equals everything the pixel integrated
    /// since its last reset (the root level's accumulated intensity).
    #[verifier::rlimit(100)]
    #[verifier::spinoff_prover]
    pub fn pop_best_events(&mut self) -> (r: Result<Vec<EventCoordless>, PixelError>)
        requires
            old(self).wf(),
        ensures
            final(self).wf(),
            r is Err <==> old(self).nodes@.last().best_event is None,
            r is Err ==> *final(self) == *old(self) && r == Err::<Vec<EventCoordless>, PixelError>(
                PixelError::NoPendingEvent,
            ),
            r matches Ok(events) ==> {
                let pre = old(self).nodes@;
                let last = pre.last();
                let b = last.best_event.unwrap();
                &&& events@.len() == pre.len()
                &&& forall|k: int|
                    0 <= k < pre.len() ==> #[trigger] events@[k] == pre[k].best_event.unwrap()
                &&& final(self).nodes.len() == 1
                &&& final(self).nodes[0].best_event is None
                &&& final(self).nodes[0].state.d == last.state.d
                &&& final(self).nodes[0].state.integration == last.state.integration - two_pow(
                    b.d as nat,
                )
                &&& final(self).nodes[0].state.delta_t.num == last.state.delta_t.num
                    - b.delta_t as int * last.state.delta_t.den
                &&& final(self).nodes[0].state.delta_t.den == last.state.delta_t.den
                &&& spec_sum_pow(events@) + final(self).nodes[0].state.integration == old(
                    self,
                ).nodes[0].state.integration
            },
    {
        let len = self.nodes.len();
        if self.nodes[len - 1].best_event.is_none() {
            return Err(PixelError::NoPendingEvent);
        }
        let mut events: Vec<EventCoordless> = Vec::new();
        let mut k: usize = 0;
        while k < len
            invariant
                k <= len,
                len == self.nodes.len(),
                self.wf(),
                self.nodes@.last().best_event is Some,
                events@.len() == k,
                forall|j: int|
                    0 <= j < k ==> #[trigger] events@[j] == self.nodes[j].best_event.unwrap(),
            decreases len - k,
        {
            let ev = match self.nodes[k].best_event {
                Some(ev) => ev,
                None => {
                    proof {
                        assert(k as int == len - 1 || self.nodes[k as int].best_event is Some);
                        assert(false);
                    }
                    return Err(PixelError::NoPendingEvent);
                },
            };
            events.push(ev);
            k = k + 1;
        }
        let last = self.nodes[len - 1];
        let b = match last.best_event {
            Some(b) => b,
            None => {
                proof {
                    assert(false);
                }
                return Err(PixelError::NoPendingEvent);
            },
        };
        let threshold = d_shift(b.d) as u64;
        let resid_int = last.state.integration - threshold;
        proof {
            assert((b.delta_t as u128 as int) * (last.state.delta_t.den as int) <= u128::MAX);
        }
        let resid_dt = Frac {
            num: last.state.delta_t.num - (b.delta_t as u128) * last.state.delta_t.den,
            den: last.state.delta_t.den,
        };
        let mut nodes: Vec<PixelLevel> = Vec::new();
        nodes.push(
            PixelLevel {
                state: PixelState { d: last.state.d, integration: resid_int, delta_t: resid_dt },
                best_event: None,
            },
        );
        proof {
            lemma_chain_sum(old(self).nodes@, events@, 0);
            assert(events@.skip(0) =~= events@);
        }
        self.nodes = nodes;
        Ok(events)
    }
}

/// Along a well-formed cascade in which every level holds a pending
/// event, a level's accumulated intensity equals the threshold-equivalent
/// sum of the events from that level down, plus the last level's residual.
#[verifier::rlimit(60)]
proof fn lemma_chain_sum(nodes: Seq<PixelLevel>, events: Seq<EventCoordless>, j: int)
    requires
        nodes.len() >= 1,
        0 <= j < nodes.len(),
        events.len() == nodes.len(),
        forall|i: int|
            0 <= i < nodes.len() ==> (#[trigger] nodes[i]).best_event == Some(events[i]),
        forall|i: int|
            0 <= i < nodes.len() - 1 ==> (#[trigger] nodes[i]).state.integration == two_pow(
                nodes[i].best_event.unwrap().d as nat,
            ) + nodes[i + 1].state.integration,
    ensures
        nodes[j].state.integration == spec_sum_pow(events.skip(j)) + (
        nodes.last().state.integration - two_pow(nodes.last().best_event.unwrap().d as nat)),
    decreases nodes.len() - j,
{
    let s = events.skip(j);
    assert(s[0] == events[j]);
    if j == nodes.len() - 1 {
        assert(s.len() == 1);
        assert(s.drop_first() =~= Seq::<EventCoordless>::empty());
        assert(spec_sum_pow(s.drop_first()) == 0);
        assert(spec_sum_pow(s) == two_pow(s[0].d as nat));
        assert(nodes.last() == nodes[j]);
        assert(nodes[j].best_event.unwrap() == events[j]);
    } else {
        lemma_chain_sum(nodes, events, j + 1);
        assert(s.drop_first() =~= events.skip(j + 1));
        assert(spec_sum_pow(s) == two_pow(s[0].d as nat) + spec_sum_pow(events.skip(j + 1)));
        assert(nodes[j].best_event.unwrap() == events[j]);
        assert(nodes[j].state.integration == two_pow(nodes[j].best_event.unwrap().d as nat)
            + nodes[j + 1].state.integration);
    }
}


/// A fraction is the exact sum of two others, over the common denominator.
pub open spec fn spec_frac_is_sum(f: Frac, a: Frac, b: Frac) -> bool {
    f.num == a.num * b.den + b.num * a.den && f.den == a.den * b.den
}

/// The truncated delta-t of the event a level emits when it fires: the
/// level's accumulated time plus the share of the incoming time needed to
/// exactly fill the threshold, rounded down to whole ticks and stopped at
/// the 32-bit range.
#[verifier::opaque]
pub open spec fn spec_fire_dt(st: PixelState, t: Frac, i: int) -> int {
    let threshold = two_pow(st.d as nat);
    let prop = if threshold >= st.integration {
        threshold - st.integration
    } else {
        0
    };
    let fill_num = st.delta_t.num * (t.den * i) + t.num * prop * st.delta_t.den;
    let fill_den = st.delta_t.den * (t.den * i);
    let q = fill_num / fill_den;
    if q > u32::MAX {
        u32::MAX as int
    } else {
        q
    }
}

/// Growing a covering fraction keeps it covering: if `k` ticks fit under
/// `an / ad`, they fit under `an / ad + bn / bd`.
proof fn lemma_frac_add_ge(k: int, an: int, ad: int, bn: int, bd: int)
    requires
        k * ad <= an,
        ad >= 1,
        bd >= 1,
        bn >= 0,
        k >= 0,
    ensures
        k * (ad * bd) <= an * bd + bn * ad,
{
    assert(k * (ad * bd) <= an * bd + bn * ad) by (nonlinear_arith)
        requires
            k * ad <= an && ad >= 1 && bd >= 1 && bn >= 0 && k >= 0,
    ;
}

/// A fired event's truncated delta-t never exceeds the level's new
/// accumulated time: the fill time uses at most the whole incoming step.
proof fn lemma_fire_cover(ev: int, dn: int, dd: int, tn: int, td: int, i: int, prop: int)
    requires
        dd >= 1,
        td >= 1,
        i >= 1,
        0 <= prop <= i,
        dn >= 0,
        tn >= 0,
        ev >= 0,
        ev <= (dn * (td * i) + tn * prop * dd) / (dd * (td * i)),
    ensures
        ev * (dd * td) <= dn * td + tn * dd,
{
    let fill_num = dn * (td * i) + tn * prop * dd;
    let fill_den = dd * (td * i);
    let sum_num = dn * td + tn * dd;
    let sum_den = dd * td;
    assert(fill_den >= 1 && fill_num >= 0 && sum_den >= 1) by (nonlinear_arith)
        requires
            dd >= 1 && td >= 1 && i >= 1 && dn >= 0 && tn >= 0 && prop >= 0 && fill_den == dd * (
            td * i) && fill_num == dn * (td * i) + tn * prop * dd && sum_den == dd * td,
    ;
    let q = fill_num / fill_den;
    vstd::arithmetic::div_mod::lemma_fundamental_div_mod(fill_num, fill_den);
    vstd::arithmetic::div_mod::lemma_mod_bound(fill_num, fill_den);
    assert(q * fill_den <= fill_num) by (nonlinear_arith)
        requires
            fill_num == fill_den * q + fill_num % fill_den && fill_num % fill_den >= 0,
    ;
    assert(ev * fill_den <= q * fill_den) by (nonlinear_arith)
        requires
            ev <= q && fill_den >= 1,
    ;
    assert(fill_num * sum_den <= sum_num * fill_den) by (nonlinear_arith)
        requires
            fill_num == dn * (td * i) + tn * prop * dd && fill_den == dd * (td * i) && sum_num
                == dn * td + tn * dd && sum_den == dd * td && dd >= 1 && td >= 1 && tn >= 0 && prop
                <= i,
    ;
    assert(ev * sum_den <= sum_num) by (nonlinear_arith)
        requires
            ev * fill_den <= fill_num && fill_num * sum_den <= sum_num * fill_den && fill_den >= 1
                && sum_den >= 1 && ev >= 0,
    ;
}

/// The exact sum of two fractions over the common denominator.
pub open spec fn spec_frac_sum(a: Frac, b: Frac) -> Frac {
    Frac { num: (a.num * b.den + b.num * a.den) as u128, den: (a.den * b.den) as u128 }
}

/// Whether the exact sum's fields fit their width.
pub open spec fn spec_frac_sum_fits(a: Frac, b: Frac) -> bool {
    a.num * b.den + b.num * a.den <= u128::MAX && a.den * b.den <= u128::MAX
}

/// The exact product of a fraction with the ratio `a / b`.
pub open spec fn spec_frac_scaled(t: Frac, a: int, b: int) -> Frac {
    Frac { num: (t.num * a) as u128, den: (t.den * b) as u128 }
}

/// Whether the exact product's fields fit their width.
pub open spec fn spec_frac_scaled_fits(t: Frac, a: int, b: int) -> bool {
    t.num * a <= u128::MAX && t.den * b <= u128::MAX
}

/// Exactly when one integration step at one level succeeds: the level's
/// decimation value is within the threshold table, the intensity sum fits
/// the machine word, and every product and sum of the exact time
/// arithmetic — the accumulation, and on a fire the fill share and the
/// residue — fits its width.
pub open spec fn spec_level_fits(lv: PixelLevel, i: int, t: Frac) -> bool {
    let threshold = two_pow(lv.state.d as nat);
    let fires = lv.state.integration + i >= threshold;
    let prop = if threshold >= lv.state.integration {
        threshold - lv.state.integration
    } else {
        0
    };
    &&& lv.state.d <= D_MAX
    &&& lv.state.integration + i <= u64::MAX
    &&& spec_frac_sum_fits(lv.state.delta_t, t)
    &&& (fires ==> {
        &&& spec_frac_scaled_fits(t, prop, i)
        &&& spec_frac_sum_fits(lv.state.delta_t, spec_frac_scaled(t, prop, i))
        &&& spec_frac_scaled_fits(t, lv.state.integration + i - threshold, i)
    })
}

/// The level after an accumulation that does not reach its threshold.
pub open spec fn spec_no_fire_level(lv: PixelLevel, i: int, t: Frac) -> PixelLevel {
    PixelLevel {
        state: PixelState {
            d: lv.state.d,
            integration: (lv.state.integration + i) as u64,
            delta_t: spec_frac_sum(lv.state.delta_t, t),
        },
        best_event: lv.best_event,
    }
}

/// The level after firing: the pending event at the old decimation value
/// with the exactly-truncated fill time, the raised decimation value, and
/// the full accumulation.
pub open spec fn spec_fired_level(lv: PixelLevel, i: int, t: Frac) -> PixelLevel {
    PixelLevel {
        state: PixelState {
            d: (lv.state.d + 1) as u8,
            integration: (lv.state.integration + i) as u64,
            delta_t: spec_frac_sum(lv.state.delta_t, t),
        },
        best_event: Some(
            EventCoordless { d: lv.state.d, delta_t: spec_fire_dt(lv.state, t, i) as u32 },
        ),
    }
}

/// A fresh fallback level: decimation from the floor logarithm of the
/// seeding intensity, nothing integrated.
pub open spec fn spec_fresh_level(seed: int) -> PixelLevel {
    PixelLevel {
        state: PixelState {
            d: spec_log2_floor(seed) as u8,
            integration: 0,
            delta_t: Frac { num: 0, den: 1 },
        },
        best_event: None,
    }
}

/// The exact effect of one integration step on one level, together with
/// its outcome: accumulation, and on a fire the pending event, the raised
/// decimation value, and the exact residue.
pub open spec fn spec_level_step(
    pre: PixelLevel,
    post: PixelLevel,
    outcome: LevelOutcome,
    i: int,
    t: Frac,
) -> bool {
    let threshold = two_pow(pre.state.d as nat);
    let fires = pre.state.integration + i >= threshold;
    &&& spec_root_step(pre, post, i, t)
    &&& post.state.delta_t.den >= 1
    &&& pre.state.d <= D_MAX
    &&& (!fires ==> outcome == LevelOutcome::NoFire)
    &&& (fires ==> {
        let resid = pre.state.integration + i - threshold;
        &&& (resid == 0 ==> outcome == LevelOutcome::Fired(None::<(u64, Frac)>))
        &&& (resid > 0 ==> (outcome matches LevelOutcome::Fired(Some(p)) && p.0 == resid
            && p.1.num == t.num * resid && p.1.den == t.den * i && p.1.wf()))
    })
    &&& (post.best_event is Some ==> post.best_event.unwrap().d <= D_MAX
        && post.best_event.unwrap().delta_t as int * post.state.delta_t.den
        <= post.state.delta_t.num)
}

/// Applies one integration step to one level's value.
fn level_apply(lv: PixelLevel, cur_i: u64, cur_t: Frac) -> (r: Result<
    (PixelLevel, LevelOutcome),
    PixelError,
>)
    requires
        lv.state.delta_t.den >= 1,
        cur_t.wf(),
        cur_i >= 1,
        lv.best_event is Some ==> lv.best_event.unwrap().d <= D_MAX
            && lv.best_event.unwrap().delta_t as int * lv.state.delta_t.den
            <= lv.state.delta_t.num,
    ensures
        r matches Ok(p) ==> spec_level_step(lv, p.0, p.1, cur_i as int, cur_t),
        r == Err::<(PixelLevel, LevelOutcome), PixelError>(PixelError::DecimationOverflow)
            <==> lv.state.d > D_MAX,
        r is Ok <==> spec_level_fits(lv, cur_i as int, cur_t),
        r matches Ok(p) ==> p.0 == (if lv.state.integration + cur_i >= two_pow(
            lv.state.d as nat,
        ) {
            spec_fired_level(lv, cur_i as int, cur_t)
        } else {
            spec_no_fire_level(lv, cur_i as int, cur_t)
        }),
{
    proof {
        reveal(spec_fire_dt);
    }
    if lv.state.d > D_MAX {
        return Err(PixelError::DecimationOverflow);
    }
    let threshold: u64 = d_shift(lv.state.d) as u64;
    let int_new = match lv.state.integration.checked_add(cur_i) {
        Some(v) => v,
        None => {
            return Err(PixelError::ArithmeticOverflow);
        },
    };
    let dt_new = match lv.state.delta_t.add(cur_t) {
        Some(f) => f,
        None => {
            return Err(PixelError::ArithmeticOverflow);
        },
    };
    if int_new >= threshold {
        let prop_num: u64 = if threshold >= lv.state.integration {
            threshold - lv.state.integration
        } else {
            0
        };
        let fill_part = match cur_t.mul_ratio(prop_num, cur_i) {
            Some(f) => f,
            None => {
                return Err(PixelError::ArithmeticOverflow);
            },
        };
        let fill = match lv.state.delta_t.add(fill_part) {
            Some(f) => f,
            None => {
                return Err(PixelError::ArithmeticOverflow);
            },
        };
        let ev_dt = fill.floor_u32_sat();
        proof {
            lemma_fire_cover(
                ev_dt as int,
                lv.state.delta_t.num as int,
                lv.state.delta_t.den as int,
                cur_t.num as int,
                cur_t.den as int,
                cur_i as int,
                prop_num as int,
            );
        }
        let best = EventCoordless { d: lv.state.d, delta_t: ev_dt };
        let resid_i = int_new - threshold;
        let outcome = if resid_i > 0 {
            match cur_t.mul_ratio(resid_i, cur_i) {
                Some(f) => LevelOutcome::Fired(Some((resid_i, f))),
                None => {
                    return Err(PixelError::ArithmeticOverflow);
                },
            }
        } else {
            LevelOutcome::Fired(None)
        };
        let post = PixelLevel {
            state: PixelState { d: lv.state.d + 1, integration: int_new, delta_t: dt_new },
            best_event: Some(best),
        };
        Ok((post, outcome))
    } else {
        proof {
            if lv.best_event is Some {
                let b = lv.best_event.unwrap();
                lemma_frac_add_ge(
                    b.delta_t as int,
                    lv.state.delta_t.num as int,
                    lv.state.delta_t.den as int,
                    cur_t.num as int,
                    cur_t.den as int,
                );
            }
        }
        let post = PixelLevel {
            state: PixelState { d: lv.state.d, integration: int_new, delta_t: dt_new },
            best_event: lv.best_event,
        };
        Ok((post, LevelOutcome::NoFire))
    }
}


/// The cascade born from a fresh fallback level: seeded from the floor
/// logarithm of the intensity fed to its parent, it absorbs `i` over `t`,
/// and its own overflow seeds the next fresh level with the residue. The
/// result is the sequence of levels, or nothing when a level's decimation
/// value leaves the table or the exact arithmetic outgrows its width.
pub open spec fn spec_fresh_walk(seed: int, i: int, t: Frac) -> Option<Seq<PixelLevel>>
    decreases i,
{
    let lv = spec_fresh_level(seed);
    let threshold = two_pow(lv.state.d as nat);
    if !spec_level_fits(lv, i, t) {
        None
    } else if i < threshold {
        Some(seq![spec_no_fire_level(lv, i, t)])
    } else if i == threshold {
        Some(seq![spec_fired_level(lv, i, t)])
    } else {
        let resid = i - threshold;
        if threshold < 1 {
            // the threshold is always positive; this branch only
            // witnesses that the residue shrinks
            None
        } else {
            match spec_fresh_walk(i, resid, spec_frac_scaled(t, resid, i)) {
                None => None,
                Some(s) => Some(seq![spec_fired_level(lv, i, t)] + s),
            }
        }
    }
}

/// The exact result of integrating one step into a cascade. Each level
/// accumulates the step; the first level whose threshold is reached fires,
/// drops everything below itself, and — when intensity is left over —
/// hands the residue to a fresh fallback cascade. Nothing is returned
/// when a level's decimation value leaves the table or the exact
/// arithmetic outgrows its width, and the pixel is then left unchanged.
pub open spec fn spec_chain_walk(levels: Seq<PixelLevel>, i: int, t: Frac) -> Option<
    Seq<PixelLevel>,
>
    decreases levels.len(),
{
    if levels.len() == 0 {
        None
    } else {
        let lv = levels[0];
        let threshold = two_pow(lv.state.d as nat);
        if !spec_level_fits(lv, i, t) {
            None
        } else if lv.state.integration + i < threshold {
            if levels.len() == 1 {
                Some(seq![spec_no_fire_level(lv, i, t)])
            } else {
                match spec_chain_walk(levels.drop_first(), i, t) {
                    None => None,
                    Some(s) => Some(seq![spec_no_fire_level(lv, i, t)] + s),
                }
            }
        } else {
            let resid = lv.state.integration + i - threshold;
            if resid == 0 {
                Some(seq![spec_fired_level(lv, i, t)])
            } else {
                match spec_fresh_walk(i, resid, spec_frac_scaled(t, resid, i)) {
                    None => None,
                    Some(s) => Some(seq![spec_fired_level(lv, i, t)] + s),
                }
            }
        }
    }
}

/// Commits a level that accumulated without firing, shifting the walk's
/// pending intensity one level down.
#[verifier::rlimit(100)]
#[verifier::spinoff_prover]
fn commit_no_fire(work: &mut Vec<PixelLevel>, idx: usize, new_lv: PixelLevel, Ghost(cur): Ghost<
    int,
>)
    requires
        idx < old(work).len(),
        cur >= 0,
        levels_basic(old(work)@),
        chain_pending(old(work)@, idx as int, cur),
        new_lv.state.integration == old(work)@[idx as int].state.integration + cur,
        new_lv.best_event == old(work)@[idx as int].best_event,
        new_lv.state.delta_t.den >= 1,
        new_lv.best_event is Some ==> new_lv.best_event.unwrap().d <= D_MAX
            && new_lv.best_event.unwrap().delta_t as int * new_lv.state.delta_t.den
            <= new_lv.state.delta_t.num,
    ensures
        final(work)@ == old(work)@.update(idx as int, new_lv),
        final(work).len() == old(work).len(),
        levels_basic(final(work)@),
        chain_pending(final(work)@, idx as int + 1, cur),
        idx as int == old(work)@.len() - 1 ==> chain_plain(final(work)@),
{
    let ghost before = work@;
    work.set(idx, new_lv);
    proof {
        assert(work@ == before.update(idx as int, new_lv));
        assert forall|j: int|
            0 <= j < work@.len() - 1 implies work@[j].state.integration == two_pow(
            (#[trigger] work@[j].best_event).unwrap().d as nat,
        ) + work@[j + 1].state.integration + (if j == idx as int {
            cur
        } else {
            0int
        }) by {
            assert(before[j].best_event is Some);
            if j == idx as int {
                assert(work@[j] == new_lv);
                assert(work@[j + 1] == before[j + 1]);
                assert(before[j].state.integration == two_pow(
                    before[j].best_event.unwrap().d as nat,
                ) + before[j + 1].state.integration);
            } else if j == idx - 1 {
                assert(work@[j] == before[j]);
                assert(work@[j + 1] == new_lv);
                assert(before[j].state.integration == two_pow(
                    before[j].best_event.unwrap().d as nat,
                ) + before[j + 1].state.integration + cur);
            } else {
                assert(work@[j] == before[j]);
                assert(work@[j + 1] == before[j + 1]);
                assert(before[j].state.integration == two_pow(
                    before[j].best_event.unwrap().d as nat,
                ) + before[j + 1].state.integration);
            }
        }
        assert forall|j: int|
            0 <= j < work@.len() && (#[trigger] work@[j].best_event) is Some implies {
            let b = work@[j].best_event.unwrap();
            b.d <= D_MAX && b.delta_t as int * work@[j].state.delta_t.den
                <= work@[j].state.delta_t.num
        } by {
            if j != idx as int {
                assert(work@[j] == before[j]);
            } else {
                assert(before[j].best_event == new_lv.best_event);
            }
        }
        assert forall|j: int| 0 <= j < work@.len() implies (#[trigger] work@[j]).state.delta_t.den
            >= 1 by {
            if j != idx as int {
                assert(work@[j] == before[j]);
            }
        }
        assert forall|j: int|
            0 <= j < work@.len() - 1 implies (#[trigger] work@[j].best_event) is Some by {
            if j != idx as int {
                assert(work@[j] == before[j]);
            } else {
                assert(before[j].best_event is Some);
            }
        }
        assert(work@[work@.len() - 1].best_event is Some ==> work@[work@.len()
            - 1].state.integration >= two_pow(
            work@[work@.len() - 1].best_event.unwrap().d as nat,
        )) by {
            let last = work@.len() - 1;
            if work@[last].best_event is Some {
                if last == idx as int {
                    assert(before[last].best_event is Some);
                    assert(before[last].state.integration >= two_pow(
                        before[last].best_event.unwrap().d as nat,
                    ));
                } else {
                    assert(work@[last] == before[last]);
                }
            }
        }
        assert(levels_basic(work@));
        if idx as int == before.len() - 1 {
            assert(chain_pending(work@, idx as int + 1, cur));
            assert forall|j: int|
                0 <= j < work@.len() - 1 implies work@[j].state.integration == two_pow(
                (#[trigger] work@[j].best_event).unwrap().d as nat,
            ) + work@[j + 1].state.integration by {
                assert(j != idx as int);
                assert(work@[j].state.integration == two_pow(
                    work@[j].best_event.unwrap().d as nat,
                ) + work@[j + 1].state.integration + (if j == idx as int {
                    cur
                } else {
                    0int
                }));
            }
        }
    }
}

/// Commits a level that fired with nothing left over: its exact fill ends
/// the cascade below it.
#[verifier::rlimit(100)]
#[verifier::spinoff_prover]
fn commit_fire_final(work: &mut Vec<PixelLevel>, idx: usize, new_lv: PixelLevel, Ghost(
    cur,
): Ghost<int>)
    requires
        idx < old(work).len(),
        levels_basic(old(work)@),
        chain_pending(old(work)@, idx as int, cur),
        new_lv.state.integration == old(work)@[idx as int].state.integration + cur,
        new_lv.state.delta_t.den >= 1,
        new_lv.best_event is Some,
        new_lv.best_event.unwrap().d <= D_MAX,
        new_lv.best_event.unwrap().delta_t as int * new_lv.state.delta_t.den
            <= new_lv.state.delta_t.num,
        new_lv.state.integration == two_pow(new_lv.best_event.unwrap().d as nat),
    ensures
        final(work).len() == idx + 1,
        final(work)@ == old(work)@.update(idx as int, new_lv).subrange(0, idx as int + 1),
        final(work)@[idx as int] == new_lv,
        forall|j: int| 0 <= j < idx ==> final(work)@[j] == old(work)@[j],
        levels_basic(final(work)@),
        chain_plain(final(work)@),
{
    let ghost before = work@;
    work.set(idx, new_lv);
    work.truncate(idx + 1);
    proof {
        assert(work@ == before.update(idx as int, new_lv).subrange(0, idx as int + 1));
        assert(work@[idx as int] == new_lv);
        assert forall|j: int|
            0 <= j < work@.len() - 1 implies work@[j].state.integration == two_pow(
            (#[trigger] work@[j].best_event).unwrap().d as nat,
        ) + work@[j + 1].state.integration by {
            assert(work@[j] == before[j]);
            assert(before[j].best_event is Some);
        }
        assert(levels_basic(work@));
    }
}

/// Commits a level that fired with intensity left over: the cascade below
/// it is replaced by a fresh fallback level that will absorb the residue.
#[verifier::rlimit(100)]
#[verifier::spinoff_prover]
fn commit_fire_resid(
    work: &mut Vec<PixelLevel>,
    idx: usize,
    new_lv: PixelLevel,
    seed_d: u8,
    Ghost(cur): Ghost<int>,
    Ghost(resid): Ghost<int>,
)
    requires
        idx < old(work).len(),
        levels_basic(old(work)@),
        chain_pending(old(work)@, idx as int, cur),
        new_lv.state.integration == old(work)@[idx as int].state.integration + cur,
        new_lv.state.delta_t.den >= 1,
        new_lv.best_event is Some,
        new_lv.best_event.unwrap().d <= D_MAX,
        new_lv.best_event.unwrap().delta_t as int * new_lv.state.delta_t.den
            <= new_lv.state.delta_t.num,
        new_lv.state.integration == two_pow(new_lv.best_event.unwrap().d as nat) + resid,
        resid > 0,
    ensures
        final(work).len() == idx + 2,
        final(work)@[idx as int] == new_lv,
        final(work)@[idx as int + 1].state.integration == 0,
        final(work)@[idx as int + 1].state.d == seed_d,
        final(work)@[idx as int + 1].state.delta_t.num == 0,
        final(work)@[idx as int + 1].state.delta_t.den == 1,
        final(work)@[idx as int + 1].best_event is None,
        forall|j: int| 0 <= j < idx ==> final(work)@[j] == old(work)@[j],
        levels_basic(final(work)@),
        chain_pending(final(work)@, idx as int + 1, resid),
{
    let ghost before = work@;
    work.set(idx, new_lv);
    work.truncate(idx + 1);
    work.push(
        PixelLevel {
            state: PixelState { d: seed_d, integration: 0, delta_t: Frac::zero() },
            best_event: None,
        },
    );
    proof {
        assert(work.len() == idx + 2);
        assert(work@[idx as int] == new_lv);
        assert forall|j: int|
            0 <= j < work@.len() - 1 implies work@[j].state.integration == two_pow(
            (#[trigger] work@[j].best_event).unwrap().d as nat,
        ) + work@[j + 1].state.integration + (if j == idx as int {
            resid
        } else {
            0int
        }) by {
            if j < idx {
                assert(work@[j] == before[j]);
                assert(before[j].best_event is Some);
            }
        }
        assert(levels_basic(work@));
    }
}

impl PixelNode {
    /// Integrates `intensity` units of light arriving over `time` ticks.
    ///
    /// The step walks the cascade from the root: each level accumulates
    /// the full incoming intensity and time; a level whose threshold is
    /// reached emits its pending event, raises its decimation value, and
    /// — when intensity is left over beyond the exact fill — replaces
    /// everything below itself with a fresh fallback level that then
    /// integrates the leftover. The walk stops at the first level that
    /// neither fires nor has a level below it.
    ///
    /// On any error the pixel is left exactly as it was: a level whose
    /// decimation value has outgrown the threshold table reports
    /// `DecimationOverflow`, and exact-arithmetic overflow reports
    /// `ArithmeticOverflow`.
    #[verifier::rlimit(100)]
    #[verifier::spinoff_prover]
    pub fn integrate(&mut self, intensity: u64, time: Frac) -> (r: Result<(), PixelError>)
        requires
            old(self).wf(),
            time.wf(),
            intensity >= 1,
        ensures
            final(self).wf(),
            r is Err ==> *final(self) == *old(self),
            r is Ok <==> spec_chain_walk(old(self).nodes@, intensity as int, time) is Some,
            r is Ok ==> final(self).nodes@ == spec_chain_walk(
                old(self).nodes@,
                intensity as int,
                time,
            ).unwrap(),
            r is Ok ==> spec_root_step(
                old(self).nodes@[0],
                final(self).nodes@[0],
                intensity as int,
                time,
            ),
    {
        let ghost orig = old(self).nodes@;
        let ghost walk_full = spec_chain_walk(orig, intensity as int, time);
        let mut work = self.nodes.clone();
        proof {
            assert(work@ =~= orig);
        }
        let mut idx: usize = 0;
        let mut cur_i: u64 = intensity;
        let mut cur_t: Frac = time;
        let ghost mut fired: bool = false;
        let ghost mut seed: int = 0;
        proof {
            assert(orig.skip(0) =~= orig);
            match spec_chain_walk(orig, intensity as int, time) {
                None => {},
                Some(s0) => {
                    assert(work@.take(0) + s0 =~= s0);
                },
            }
        }
        loop
            invariant_except_break
                idx < work.len(),
                chain_pending(work@, idx as int, cur_i as int),
                fired ==> work[idx as int] == spec_fresh_level(seed),
                fired ==> idx == work.len() - 1,
                idx == 0 ==> work@ == orig && cur_i == intensity && cur_t == time && !fired,
                idx >= 1 ==> spec_root_step(orig[0], work[0], intensity as int, time),
                !fired ==> cur_i == intensity && cur_t == time,
                !fired ==> work.len() == orig.len(),
                !fired ==> work@.skip(idx as int) == orig.skip(idx as int),
                !fired ==> walk_full == (match spec_chain_walk(
                    orig.skip(idx as int),
                    intensity as int,
                    time,
                ) {
                    None => None::<Seq<PixelLevel>>,
                    Some(s) => Some(work@.take(idx as int) + s),
                }),
                fired ==> walk_full == (match spec_fresh_walk(seed, cur_i as int, cur_t) {
                    None => None::<Seq<PixelLevel>>,
                    Some(s) => Some(work@.take(idx as int) + s),
                }),
            invariant
                old(self).wf(),
                orig == old(self).nodes@,
                walk_full == spec_chain_walk(orig, intensity as int, time),
                intensity >= 1,
                time.wf(),
                work.len() >= 1,
                cur_t.wf(),
                cur_i >= 1,
                levels_basic(work@),
            ensures
                levels_basic(work@),
                chain_plain(work@),
                spec_root_step(orig[0], work[0], intensity as int, time),
                walk_full == Some(work@),
            decreases (if fired {
                0int
            } else {
                work.len() - idx
            }), cur_i,
        {
            let lv = work[idx];
            let ghost g_fired = fired;
            let ghost g_seed = seed;
            let ghost g_work = work@;
            let ghost g_idx = idx as int;
            let ghost g_i = cur_i as int;
            let ghost g_t = cur_t;
            proof {
                if !g_fired {
                    assert(orig.skip(g_idx)[0] == work@[g_idx]);
                    assert(orig.skip(g_idx).len() == work@.len() - g_idx);
                }
            }
            let (new_lv, outcome) = match level_apply(lv, cur_i, cur_t) {
                Ok(p) => p,
                Err(e) => {
                    proof {
                        // the walk fails exactly where the step does
                        if !g_fired {
                            assert(spec_chain_walk(orig.skip(g_idx), intensity as int, time)
                                is None);
                        } else {
                            assert(spec_fresh_walk(g_seed, g_i, g_t) is None);
                        }
                        assert(walk_full is None);
                    }
                    return Err(e);
                },
            };
            proof {
                crate::framer::lemma_two_pow_le(0, lv.state.d as nat);
            }
            match outcome {
                LevelOutcome::NoFire => {
                    commit_no_fire(&mut work, idx, new_lv, Ghost(cur_i as int));
                    proof {
                        assert(new_lv == spec_no_fire_level(lv, g_i, g_t));
                        assert(lv.state.integration + g_i < two_pow(lv.state.d as nat));
                    }
                    if idx + 1 < work.len() {
                        proof {
                            if g_fired {
                                assert(g_idx == g_work.len() - 1);
                                assert(false);
                            }
                            assert(orig.len() == g_work.len());
                            assert(orig.skip(g_idx).len() > 1);
                            assert(0 <= g_idx + 1 <= orig.len());
                            assert forall|k: int|
                                0 <= k < orig.skip(g_idx).drop_first().len() implies orig.skip(
                                g_idx,
                            ).drop_first()[k] == orig.skip(g_idx + 1)[k] by {
                                assert(orig.skip(g_idx).drop_first()[k] == orig.skip(g_idx)[k
                                    + 1]);
                                assert(orig.skip(g_idx)[k + 1] == orig[g_idx + 1 + k]);
                            }
                            assert(orig.skip(g_idx).drop_first() =~= orig.skip(g_idx + 1));
                            assert(work@.take(g_idx + 1) =~= g_work.take(g_idx) + seq![new_lv]);
                            assert(work@.skip(g_idx + 1) =~= orig.skip(g_idx + 1));
                            match spec_chain_walk(orig.skip(g_idx + 1), intensity as int, time) {
                                None => {},
                                Some(sub) => {
                                    assert(g_work.take(g_idx) + (seq![new_lv] + sub)
                                        =~= work@.take(g_idx + 1) + sub);
                                },
                            }
                        }
                        idx = idx + 1;
                    } else {
                        proof {
                            if !g_fired {
                                assert(orig.skip(g_idx).len() == 1);
                                assert(spec_chain_walk(orig.skip(g_idx), intensity as int, time)
                                    == Some(seq![new_lv]));
                            } else {
                                assert(g_i < two_pow(spec_fresh_level(g_seed).state.d as nat));
                                assert(spec_fresh_walk(g_seed, g_i, g_t) == Some(seq![new_lv]));
                            }
                            assert(g_work.take(g_idx) + seq![new_lv] =~= work@);
                            assert(walk_full == Some(work@));
                        }
                        break;
                    }
                },
                LevelOutcome::Fired(None) => {
                    commit_fire_final(&mut work, idx, new_lv, Ghost(cur_i as int));
                    proof {
                        assert(new_lv == spec_fired_level(lv, g_i, g_t));
                        assert(lv.state.integration + g_i == two_pow(lv.state.d as nat));
                        if !g_fired {
                            assert(spec_chain_walk(orig.skip(g_idx), intensity as int, time)
                                == Some(seq![new_lv]));
                        } else {
                            assert(spec_fresh_walk(g_seed, g_i, g_t) == Some(seq![new_lv]));
                        }
                        assert(g_work.take(g_idx) + seq![new_lv] =~= work@);
                        assert(walk_full == Some(work@));
                    }
                    break;
                },
                LevelOutcome::Fired(Some((resid_i, resid_t))) => {
                    let seed_d = floor_log2_u64(cur_i);
                    commit_fire_resid(
                        &mut work,
                        idx,
                        new_lv,
                        seed_d,
                        Ghost(cur_i as int),
                        Ghost(resid_i as int),
                    );
                    proof {
                        assert(new_lv == spec_fired_level(lv, g_i, g_t));
                        assert(resid_i == lv.state.integration + g_i - two_pow(
                            lv.state.d as nat,
                        ));
                        assert(resid_t == spec_frac_scaled(g_t, resid_i as int, g_i));
                        let sub_walk = spec_fresh_walk(
                            g_i,
                            resid_i as int,
                            spec_frac_scaled(g_t, resid_i as int, g_i),
                        );
                        if !g_fired {
                            assert(spec_chain_walk(orig.skip(g_idx), intensity as int, time)
                                == (match sub_walk {
                                None => None::<Seq<PixelLevel>>,
                                Some(s) => Some(seq![new_lv] + s),
                            }));
                        } else {
                            assert(two_pow(spec_fresh_level(g_seed).state.d as nat) >= 1);
                            assert(spec_fresh_walk(g_seed, g_i, g_t) == (match sub_walk {
                                None => None::<Seq<PixelLevel>>,
                                Some(s) => Some(seq![new_lv] + s),
                            }));
                        }
                        assert(work@.take(g_idx + 1) =~= g_work.take(g_idx) + seq![new_lv]);
                        match sub_walk {
                            None => {},
                            Some(sub) => {
                                assert(g_work.take(g_idx) + (seq![new_lv] + sub) =~= work@.take(
                                    g_idx + 1,
                                ) + sub);
                            },
                        }
                        assert(work@[g_idx + 1] == spec_fresh_level(g_i));
                        fired = true;
                        seed = g_i;
                    }
                    cur_i = resid_i;
                    cur_t = resid_t;
                    idx = idx + 1;
                },
            }
        }
        self.nodes = work;
        Ok(())
    }

    /// Integrates one step into the main (root) level alone, for a pixel
    /// that has no fallback chain yet. Returns the leftover intensity and
    /// time to seed a fallback with when the level fired with a residue,
    /// as the exact pair (intensity, time).
    pub fn integrate_main(&mut self, intensity: u64, time: Frac) -> (r: Result<
        Option<(u64, Frac)>,
        PixelError,
    >)
        requires
            old(self).wf(),
            old(self).nodes@.len() == 1,
            time.wf(),
            intensity >= 1,
        ensures
            final(self).wf(),
            r is Err ==> *final(self) == *old(self),
            r is Ok <==> spec_level_fits(old(self).nodes@[0], intensity as int, time),
            r is Ok ==> {
                let pre = old(self).nodes@[0];
                let post = final(self).nodes@[0];
                &&& final(self).nodes@.len() == 1
                &&& post.state.integration == pre.state.integration + intensity
                &&& spec_frac_is_sum(post.state.delta_t, pre.state.delta_t, time)
                &&& (pre.state.integration + intensity < two_pow(pre.state.d as nat)
                    ==> post.state.d == pre.state.d && post.best_event == pre.best_event
                    && r == Ok::<Option<(u64, Frac)>, PixelError>(None))
                &&& (pre.state.integration + intensity >= two_pow(pre.state.d as nat)
                    ==> post.state.d == pre.state.d + 1 && post.best_event == Some(
                    EventCoordless {
                        d: pre.state.d,
                        delta_t: spec_fire_dt(pre.state, time, intensity as int) as u32,
                    },
                ))
                &&& (pre.state.integration + intensity == two_pow(pre.state.d as nat) ==> r
                    == Ok::<Option<(u64, Frac)>, PixelError>(None))
                &&& (pre.state.integration + intensity > two_pow(pre.state.d as nat) ==> (
                r matches Ok(Some(resid)) && resid.0 == pre.state.integration + intensity
                    - two_pow(pre.state.d as nat) && resid.1.num == time.num * resid.0
                    && resid.1.den == time.den * intensity))
            },
    {
        let lv = self.nodes[0];
        match level_apply(lv, intensity, time) {
            Err(e) => Err(e),
            Ok((post, outcome)) => {
                self.nodes.set(0, post);
                match outcome {
                    LevelOutcome::NoFire => Ok(None),
                    LevelOutcome::Fired(resid) => Ok(resid),
                }
            },
        }
    }
}


/// Each pending event accounts for at least one unit of intensity, so the
/// cascade can never be deeper than the root has integrated: the depth is
/// bounded by the total integrated intensity plus one.
pub proof fn lemma_chain_depth(p: PixelNode)
    requires
        p.wf(),
    ensures
        p.nodes@.len() <= p.nodes@[0].state.integration + 1,
{
    lemma_chain_depth_from(p.nodes@, 0);
}

/// A level's accumulation covers one unit per pending event below it.
proof fn lemma_chain_depth_from(s: Seq<PixelLevel>, j: int)
    requires
        s.len() >= 1,
        0 <= j < s.len(),
        levels_basic(s),
        chain_plain(s),
    ensures
        s[j].state.integration >= s.len() - 1 - j,
    decreases s.len() - j,
{
    if j < s.len() - 1 {
        lemma_chain_depth_from(s, j + 1);
        assert(s[j].best_event is Some);
        crate::framer::lemma_two_pow_le(0, s[j].best_event.unwrap().d as nat);
    }
}

/// The floor logarithm is never negative.
proof fn lemma_log2_floor_nonneg(n: int)
    ensures
        spec_log2_floor(n) >= 0,
    decreases n,
{
    if n > 1 {
        lemma_log2_floor_nonneg(n / 2);
    }
}

/// The fallback is the lower-decimation branch: when a step's intensity
/// lies within the root's current scale, a root overflow whose residue
/// does not itself overflow leaves exactly one fallback level, seeded at
/// the floor logarithm of the intensity — at most the root's old
/// decimation value, strictly below its new one.
pub proof fn lemma_fallback_lower_d(levels: Seq<PixelLevel>, i: int, t: Frac)
    requires
        levels.len() >= 1,
        spec_chain_walk(levels, i, t) is Some,
        levels[0].state.integration + i > two_pow(levels[0].state.d as nat),
        spec_log2_floor(i) <= levels[0].state.d,
        levels[0].state.integration + i - two_pow(levels[0].state.d as nat) < two_pow(
            spec_log2_floor(i) as nat,
        ),
    ensures
        ({
            let out = spec_chain_walk(levels, i, t).unwrap();
            &&& out.len() == 2
            &&& out[0].state.d == levels[0].state.d + 1
            &&& out[1].state.d == spec_log2_floor(i)
            &&& out[1].state.d <= levels[0].state.d
            &&& out[1].state.d < out[0].state.d
        }),
{
    let lv = levels[0];
    let resid = lv.state.integration + i - two_pow(lv.state.d as nat);
    let scaled = spec_frac_scaled(t, resid, i);
    let fresh = spec_fresh_level(i);
    lemma_log2_floor_nonneg(i);
    assert(spec_fresh_walk(i, resid, scaled) is Some);
    assert(resid < two_pow(fresh.state.d as nat));
    assert(spec_fresh_walk(i, resid, scaled) == Some(
        seq![spec_no_fire_level(fresh, resid, scaled)],
    ));
    assert(spec_chain_walk(levels, i, t) == Some(
        seq![spec_fired_level(lv, i, t)] + seq![spec_no_fire_level(fresh, resid, scaled)],
    ));
}



} // verus!
