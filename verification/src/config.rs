//! The settings of one proxy.

use crate::binary64::Double;
use crate::duration::Duration;
use crate::universes::{invalid_input, InvalidInput};
use std::collections::HashSet;
use vstd::prelude::*;
use vstd::string::*;

verus! {

/// How packets are passed on.
#[derive(Clone, Copy, Debug, PartialEq, Eq, Structural)]
pub enum Mode {
    /// At once.
    Passthrough,
    /// ArtDmx spread over each frame interval, ArtSync at once.
    Spread,
    /// ArtDmx held until ArtSync, then spread over the next frame interval.
    SyncDelay,
    /// ArtDmx spread over each frame interval, ArtSync ignored.
    FixedFps,
}

/// What happens to packets that are not understood.
#[derive(Clone, Copy, Debug, PartialEq, Eq, Structural)]
pub enum UnknownPolicy {
    Forward,
    Drop,
}

/// The settings of one proxy.
#[derive(Clone, Debug)]
pub struct SmootherConfig {
    pub mode: Mode,
    /// The frame rate until a better one is known.
    pub fps: Double,
    /// Whether statistics are printed.
    pub stats: bool,
    /// The universes that are let through; all of them where there is no list.
    pub universes: Option<HashSet<u16>>,
    pub min_packet_gap: Option<Duration>,
    pub unknown_policy: UnknownPolicy,
}

impl SmootherConfig {
    /// ArtDmx for the universe is let through.
    pub open spec fn allows(self, universe: u16) -> bool {
        match self.universes {
            None => true,
            Some(universes) => universes@.contains(universe),
        }
    }

    /// The gap that is kept between two packets; none where none is set.
    pub open spec fn gap(self) -> Duration {
        match self.min_packet_gap {
            None => Duration { nanos: 0 },
            Some(gap) => gap,
        }
    }

    /// Whether ArtDmx for the universe is let through.
    pub fn is_allowed(&self, universe: u16) -> (r: bool)
        ensures
            r == self.allows(universe),
            self.universes is None ==> r,
            self.universes matches Some(universes) ==> r == universes@.contains(universe),
    {
        broadcast use vstd::std_specs::hash::group_hash_axioms;

        match &self.universes {
            None => true,
            Some(universes) => universes.contains(&universe),
        }
    }

    /// The gap that is kept between two packets.
    pub fn min_gap(&self) -> (r: Duration)
        ensures
            r == self.gap(),
            self.min_packet_gap is None ==> r.nanos == 0,
            self.min_packet_gap matches Some(gap) ==> r.nanos == gap.nanos,
    {
        match self.min_packet_gap {
            None => Duration::zero(),
            Some(gap) => gap,
        }
    }
}

/// Refuses a frame rate that is not a positive finite number.
pub fn validate_config(config: &SmootherConfig) -> (r: Result<(), InvalidInput>)
    ensures
        r is Ok <==> config.fps.is_positive(),
        r is Ok <==> {
            &&& config.fps.bits / 0x8000_0000_0000_0000 == 0
            &&& (config.fps.bits / 0x10_0000_0000_0000) % 0x800 != 0x7ff
            &&& config.fps.bits != 0
        },
        r matches Err(e) ==> e.message@ == "--fps must be a positive finite number"@,
{
    if !config.fps.is_positive_finite() {
        return Err(invalid_input("--fps must be a positive finite number".to_owned()));
    }
    Ok(())
}

/// What to start a proxy with.
#[derive(Debug)]
pub struct Launch {
    /// The gap that is kept between two packets.
    pub min_gap: Duration,
    /// Whether statistics are printed.
    pub reports: bool,
    /// Whether ArtDmx is held back.
    pub buffers: bool,
    /// The address to send from.
    pub local_address: &'static str,
}

/// What to start a proxy with, or what is wrong with its settings.
pub fn launch(config: &SmootherConfig, target_is_ipv4: bool) -> (r: Result<Launch, InvalidInput>)
    ensures
        r is Ok <==> config.fps.is_positive(),
        r is Ok <==> {
            &&& config.fps.bits / 0x8000_0000_0000_0000 == 0
            &&& (config.fps.bits / 0x10_0000_0000_0000) % 0x800 != 0x7ff
            &&& config.fps.bits != 0
        },
        r matches Err(e) ==> e.message@ == "--fps must be a positive finite number"@,
        r matches Ok(start) ==> {
            &&& start.min_gap == config.gap()
            &&& start.min_gap.nanos == (match config.min_packet_gap {
                Some(gap) => gap.nanos,
                None => 0,
            })
            &&& start.reports == config.stats
            &&& start.buffers == (config.mode != Mode::Passthrough)
            &&& start.local_address@ == (if target_is_ipv4 {
                "0.0.0.0:0"@
            } else {
                "[::]:0"@
            })
        },
{
    match validate_config(config) {
        Ok(()) => {},
        Err(e) => return Err(e),
    }
    let local_address = if target_is_ipv4 {
        "0.0.0.0:0"
    } else {
        "[::]:0"
    };
    Ok(
        Launch {
            min_gap: config.min_gap(),
            reports: config.stats,
            buffers: config.mode != Mode::Passthrough,
            local_address,
        },
    )
}

/// The microseconds between packets at so many packets in a second, rounded up.
pub open spec fn micros_per_packet(pps: u64) -> nat {
    ((1_000_000 + pps - 1) / pps as int) as nat
}

/// The gap that a ceiling on the packets in a second asks for; none for no ceiling or for zero.
pub open spec fn gap_from_pps(max_pps: Option<u64>) -> Option<Duration> {
    match max_pps {
        Some(pps) if pps > 0 => Some(Duration { nanos: (micros_per_packet(pps) * 1_000) as u128 }),
        _ => None,
    }
}

/// The gap that is asked for in microseconds.
pub open spec fn gap_from_micros(min_packet_gap_us: Option<u64>) -> Option<Duration> {
    match min_packet_gap_us {
        Some(micros) => Some(Duration { nanos: (micros * 1_000) as u128 }),
        None => None,
    }
}

/// The larger of two gaps, or the one there is.
pub open spec fn larger_gap(a: Option<Duration>, b: Option<Duration>) -> Option<Duration> {
    match (a, b) {
        (Some(x), Some(y)) => if x.nanos < y.nanos {
            b
        } else {
            a
        },
        (Some(_), None) => a,
        (None, _) => b,
    }
}

/// The gap to keep between packets: the larger of what the two settings ask for.
pub fn packet_gap(min_packet_gap_us: Option<u64>, max_pps: Option<u64>) -> (r: Option<Duration>)
    ensures
        r == larger_gap(gap_from_micros(min_packet_gap_us), gap_from_pps(max_pps)),
        r matches Some(gap) ==> gap.wf(),
        min_packet_gap_us matches Some(micros) ==> r matches Some(gap) && gap.nanos >= micros * 1_000,
        max_pps is None || max_pps == Some(0u64) ==> match min_packet_gap_us {
            Some(micros) => r matches Some(gap) && gap.nanos == micros * 1_000,
            None => r is None,
        },
{
    let explicit = match min_packet_gap_us {
        Some(micros) => Some(Duration::from_micros(micros)),
        None => None,
    };
    let from_pps = match max_pps {
        Some(pps) => if pps > 0 {
            let quotient: u64 = 1_000_000 / pps;
            let micros: u64 = if 1_000_000 % pps == 0 {
                quotient
            } else {
                quotient + 1
            };
            proof {
                lemma_round_up(pps);
            }
            Some(Duration::from_micros(micros))
        } else {
            None
        },
        None => None,
    };
    match (explicit, from_pps) {
        (Some(a), Some(b)) => Some(a.max(b)),
        (Some(a), None) => Some(a),
        (None, Some(b)) => Some(b),
        (None, None) => None,
    }
}

/// Rounding up adds one to a quotient that leaves a rest.
proof fn lemma_round_up(pps: u64)
    requires
        pps > 0,
    ensures
        micros_per_packet(pps) == 1_000_000int / pps as int + (if 1_000_000int % pps as int == 0 {
            0int
        } else {
            1
        }),
        0 <= 1_000_000int / pps as int <= 1_000_000,
{
    let d = pps as int;
    let (q, rest) = (1_000_000int / d, 1_000_000int % d);
    vstd::arithmetic::div_mod::lemma_fundamental_div_mod(1_000_000, d);
    let extra: int = if rest == 0 {
        0
    } else {
        1
    };
    let left = if rest == 0 {
        d - 1
    } else {
        rest - 1
    };
    assert(1_000_000 + d - 1 == (q + extra) * d + left) by (nonlinear_arith)
        requires
            1_000_000 == d * q + rest,
            extra == 0 && left == d - 1 && rest == 0 || extra == 1 && left == rest - 1,
    ;
    vstd::arithmetic::div_mod::lemma_fundamental_div_mod_converse(
        1_000_000 + d - 1,
        d,
        q + extra,
        left,
    );
    assert(0 <= q <= 1_000_000) by (nonlinear_arith)
        requires
            1_000_000 == d * q + rest,
            d >= 1,
            0 <= rest < d,
    ;
}

/// At the gap that a ceiling asks for, no more packets than the ceiling fit into a second, and a
/// gap that is shorter by a microsecond would let more through.
pub proof fn law_ceiling_is_kept(pps: u64)
    requires
        pps > 0,
    ensures
        gap_from_pps(Some(pps)) matches Some(gap) && gap.nanos * pps >= 1_000_000_000 && (gap.nanos
            - 1_000) * pps < 1_000_000_000,
{
    lemma_round_up(pps);
    let d = pps as int;
    let (q, rest) = (1_000_000int / d, 1_000_000int % d);
    vstd::arithmetic::div_mod::lemma_fundamental_div_mod(1_000_000, d);
    let micros = micros_per_packet(pps);
    let nanos = micros * 1_000;
    assert(nanos * d >= 1_000_000_000 && (nanos - 1_000) * d < 1_000_000_000) by (nonlinear_arith)
        requires
            nanos == micros * 1_000,
            1_000_000 == d * q + rest,
            0 <= rest < d,
            rest == 0 && micros == q || rest > 0 && micros == q + 1,
    ;
}

/// The gap is at least what each of the two settings asks for, and no more than one of them does.
pub proof fn law_gap_covers_both(min_packet_gap_us: Option<u64>, max_pps: Option<u64>)
    ensures
        ({
            let (a, b) = (gap_from_micros(min_packet_gap_us), gap_from_pps(max_pps));
            let gap = larger_gap(a, b);
            &&& gap == a || gap == b
            &&& a matches Some(x) ==> gap matches Some(g) && g.nanos >= x.nanos
            &&& b matches Some(y) ==> gap matches Some(g) && g.nanos >= y.nanos
        }),
{
}

/// A gap that is asked for in microseconds, with no ceiling beside it, is the gap, to the
/// nanosecond; with neither there is none.
pub proof fn law_microseconds_are_the_gap(micros: u64, max_pps: Option<u64>)
    requires
        max_pps is None || max_pps == Some(0u64),
    ensures
        larger_gap(gap_from_micros(Some(micros)), gap_from_pps(max_pps)) matches Some(gap) && gap.nanos
            == micros * 1_000,
        larger_gap(gap_from_micros(None), gap_from_pps(max_pps)) is None,
{
}

/// A ceiling with no microseconds beside it gives the shortest gap of whole microseconds at which no
/// more packets than that fit into a second.
pub proof fn law_ceiling_is_the_gap(pps: u64)
    requires
        pps > 0,
    ensures
        larger_gap(gap_from_micros(None), gap_from_pps(Some(pps))) matches Some(gap) && gap.nanos * pps
            >= 1_000_000_000 && (gap.nanos - 1_000) * pps < 1_000_000_000 && gap.nanos % 1_000 == 0,
{
    law_ceiling_is_kept(pps);
    lemma_round_up(pps);
}

/// With both, the gap is at least the microseconds, long enough for the ceiling, and no longer than
/// one of the two needs.
pub proof fn law_longer_demand_is_the_gap(micros: u64, pps: u64)
    requires
        pps > 0,
    ensures
        larger_gap(gap_from_micros(Some(micros)), gap_from_pps(Some(pps))) matches Some(gap)
            && gap.nanos >= micros * 1_000 && gap.nanos * pps >= 1_000_000_000 && gap.nanos % 1_000 == 0
            && (gap.nanos == micros * 1_000 || (gap.nanos - 1_000) * pps < 1_000_000_000),
{
    law_ceiling_is_kept(pps);
    lemma_round_up(pps);
    let (n, m) = ((micros_per_packet(pps) * 1_000) as int, (micros * 1_000) as int);
    assert(m >= n ==> m * pps >= n * pps) by (nonlinear_arith)
        requires
            pps > 0,
    ;
}

/// The gap that is kept is the one that is set, and none where none is.
pub proof fn law_set_gap_is_kept(config: SmootherConfig)
    ensures
        config.min_packet_gap is None ==> config.gap().nanos == 0,
        config.min_packet_gap matches Some(gap) ==> config.gap() == gap,
{
}

} // verus!
