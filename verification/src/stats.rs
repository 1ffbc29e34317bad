//! What is counted, and how it is shown.

use crate::artnet;
use crate::artnet::{classify, PacketKind};
use crate::binary64;
use crate::binary64::Binary64;
use crate::float_bounds;
use crate::text;
use vstd::prelude::*;
use vstd::string::*;

verus! {

/// The counters of one proxy. A counter that is full starts again at zero.
#[derive(Clone, Copy, Debug, PartialEq, Eq, Structural)]
pub struct Stats {
    pub input_packets: u64,
    pub output_packets: u64,
    pub input_dmx: u64,
    pub input_sync: u64,
    pub dropped_packets: u64,
    pub late_frames: u64,
    pub queued_packets: usize,
    pub frame_rate_milli_hz: u64,
}

impl Default for Stats {
    fn default() -> (r: Stats)
        ensures
            r == (Stats {
                input_packets: 0,
                output_packets: 0,
                input_dmx: 0,
                input_sync: 0,
                dropped_packets: 0,
                late_frames: 0,
                queued_packets: 0,
                frame_rate_milli_hz: 0,
            }),
    {
        Stats {
            input_packets: 0,
            output_packets: 0,
            input_dmx: 0,
            input_sync: 0,
            dropped_packets: 0,
            late_frames: 0,
            queued_packets: 0,
            frame_rate_milli_hz: 0,
        }
    }
}

impl Stats {
    /// The counters after a packet of a kind has come in.
    pub open spec fn with_input(self, kind: PacketKind) -> Stats {
        let counted = Stats { input_packets: self.input_packets.wrapping_add(1), ..self };
        match kind {
            PacketKind::ArtDmx { .. } => Stats { input_dmx: self.input_dmx.wrapping_add(1), ..counted },
            PacketKind::ArtSync => Stats { input_sync: self.input_sync.wrapping_add(1), ..counted },
            _ => counted,
        }
    }

    /// The counters after a packet has been sent.
    pub open spec fn with_output(self) -> Stats {
        Stats { output_packets: self.output_packets.wrapping_add(1), ..self }
    }

    /// The counters after a packet has been dropped.
    pub open spec fn with_drop(self) -> Stats {
        Stats { dropped_packets: self.dropped_packets.wrapping_add(1), ..self }
    }

    /// The counters after a frame has been late.
    pub open spec fn with_late_frame(self) -> Stats {
        Stats { late_frames: self.late_frames.wrapping_add(1), ..self }
    }

    /// The counters after a packet has been queued.
    pub open spec fn with_queued(self) -> Stats {
        Stats { queued_packets: self.queued_packets.wrapping_add(1), ..self }
    }

    /// The counters after a packet has left the queue.
    pub open spec fn with_unqueued(self) -> Stats {
        Stats { queued_packets: self.queued_packets.wrapping_sub(1), ..self }
    }

    /// The counters with another frame rate.
    pub open spec fn with_frame_rate(self, milli_hz: nat) -> Stats {
        Stats { frame_rate_milli_hz: milli_hz as u64, ..self }
    }

    /// Counts a packet that has been sent.
    pub fn count_output(&mut self)
        ensures
            *final(self) == old(self).with_output(),
            *final(self) == (Stats { output_packets: old(self).output_packets.wrapping_add(1), ..*old(self) }),
    {
        self.output_packets = self.output_packets.wrapping_add(1);
    }

    /// Counts a packet that has been dropped.
    pub fn count_drop(&mut self)
        ensures
            *final(self) == old(self).with_drop(),
            *final(self) == (Stats { dropped_packets: old(self).dropped_packets.wrapping_add(1), ..*old(self) }),
    {
        self.dropped_packets = self.dropped_packets.wrapping_add(1);
    }

    /// Counts a frame that has been late.
    pub fn count_late_frame(&mut self)
        ensures
            *final(self) == old(self).with_late_frame(),
            *final(self) == (Stats { late_frames: old(self).late_frames.wrapping_add(1), ..*old(self) }),
    {
        self.late_frames = self.late_frames.wrapping_add(1);
    }

    /// Counts a packet that has been queued.
    pub fn count_queued(&mut self)
        ensures
            *final(self) == old(self).with_queued(),
            *final(self) == (Stats { queued_packets: old(self).queued_packets.wrapping_add(1), ..*old(self) }),
    {
        self.queued_packets = self.queued_packets.wrapping_add(1);
    }

    /// Counts a packet that has left the queue.
    pub fn count_unqueued(&mut self)
        ensures
            *final(self) == old(self).with_unqueued(),
            *final(self) == (Stats { queued_packets: old(self).queued_packets.wrapping_sub(1), ..*old(self) }),
    {
        self.queued_packets = self.queued_packets.wrapping_sub(1);
    }
}

/// Finds out what a packet is, and counts it.
pub fn record_input(stats: &mut Stats, packet: &[u8]) -> (r: PacketKind)
    ensures
        r == artnet::kind_of(packet@),
        *final(stats) == old(stats).with_input(r),
        *final(stats) == (Stats {
            input_packets: old(stats).input_packets.wrapping_add(1),
            input_dmx: if r is ArtDmx {
                old(stats).input_dmx.wrapping_add(1)
            } else {
                old(stats).input_dmx
            },
            input_sync: if r is ArtSync {
                old(stats).input_sync.wrapping_add(1)
            } else {
                old(stats).input_sync
            },
            ..*old(stats)
        }),
{
    let kind = classify(packet);
    stats.input_packets = stats.input_packets.wrapping_add(1);
    match kind {
        PacketKind::ArtDmx { .. } => {
            stats.input_dmx = stats.input_dmx.wrapping_add(1);
        },
        PacketKind::ArtSync => {
            stats.input_sync = stats.input_sync.wrapping_add(1);
        },
        _ => {},
    }
    kind
}

/// The counters that a report gives the growth of.
#[derive(Clone, Copy, Debug, PartialEq, Eq, Structural)]
pub struct Totals {
    pub input: u64,
    pub output: u64,
    pub dmx: u64,
    pub sync: u64,
}

impl Totals {
    /// The counters before anything has been counted.
    pub fn zero() -> (r: Totals)
        ensures
            r == (Totals { input: 0, output: 0, dmx: 0, sync: 0 }),
    {
        Totals { input: 0, output: 0, dmx: 0, sync: 0 }
    }

    /// No counter has started again since.
    pub open spec fn precedes(self, stats: Stats) -> bool {
        &&& self.input <= stats.input_packets
        &&& self.output <= stats.output_packets
        &&& self.dmx <= stats.input_dmx
        &&& self.sync <= stats.input_sync
    }

    /// Whether no counter has started again since.
    pub fn is_before(&self, stats: &Stats) -> (r: bool)
        ensures
            r == self.precedes(*stats),
            r <==> self.input <= stats.input_packets && self.output <= stats.output_packets && self.dmx
                <= stats.input_dmx && self.sync <= stats.input_sync,
    {
        self.input <= stats.input_packets && self.output <= stats.output_packets && self.dmx
            <= stats.input_dmx && self.sync <= stats.input_sync
    }
}

/// A frame rate in hundredths of a frame: `milli_hz / 1000` as a double, rounded to two decimals.
pub open spec fn rate_hundredths(milli_hz: nat) -> nat {
    binary64::round_half_even(
        binary64::float_div(binary64::float_of(milli_hz), binary64::float_of(1000)) * 100,
        binary64::one(),
    )
}

/// A number of hundredths with its two decimals.
pub open spec fn with_decimals(hundredths: nat) -> Seq<char> {
    text::decimal_of(hundredths / 100) + "."@ + seq![
        text::digit_of(hundredths / 10 % 10),
        text::digit_of(hundredths % 10),
    ]
}

/// The report on the counters, and on their growth since an earlier report.
pub open spec fn report_line(stats: Stats, last: Totals) -> Seq<char> {
    "stats in_pps="@ + text::decimal_of((stats.input_packets - last.input) as nat) + " out_pps="@
        + text::decimal_of((stats.output_packets - last.output) as nat) + " artdmx_pps="@
        + text::decimal_of((stats.input_dmx - last.dmx) as nat) + " artsync_pps="@ + text::decimal_of(
        (stats.input_sync - last.sync) as nat,
    ) + " dropped="@ + text::decimal_of(stats.dropped_packets as nat) + " late_frames="@
        + text::decimal_of(stats.late_frames as nat) + " queue_depth="@ + text::decimal_of(
        stats.queued_packets as nat,
    ) + " est_fps="@ + with_decimals(rate_hundredths(stats.frame_rate_milli_hz as nat))
}

/// A rate that a counter holds is not too large to be shown.
proof fn lemma_rate_bounded(milli_hz: u64)
    ensures
        binary64::float_div(binary64::float_of(milli_hz as nat), binary64::float_of(1000))
            < 0x1_0000_0000_0000_0000 * binary64::one(),
{
    let o = binary64::one();
    let b = binary64::MANTISSA_BOUND as int;
    float_bounds::lemma_one_is_large();
    float_bounds::lemma_float_of_error(milli_hz as nat);
    float_bounds::lemma_float_of_exact(1000);
    let f = binary64::float_of(milli_hz as nat);
    assert(f <= 0x2_0000_0000_0000_0000 * o) by (nonlinear_arith)
        requires
            f * b <= (milli_hz * o) * (b + 1),
            milli_hz <= 0xffff_ffff_ffff_ffff,
            b >= 1,
    ;
    let top = 0x8000_0000_0000_0000nat;
    float_bounds::lemma_nearest_monotone(f, 1000 * o, top, 1);
    vstd::arithmetic::power2::lemma2_to64();
    vstd::arithmetic::power2::lemma_pow2_adds(31, 32);
    vstd::arithmetic::power2::lemma_pow2_adds(63, 1074);
    float_bounds::lemma_representable(top, 1, 1, 63 + 1074);
}

/// The frame rate with two decimals.
fn rate_text(milli_hz: u64) -> (r: String)
    ensures
        r@ == with_decimals(rate_hundredths(milli_hz as nat)),
{
    let thousand = Binary64::from_integer(1000);
    proof {
        lemma_rate_bounded(milli_hz);
    }
    let hundredths: u128 = Binary64::from_integer(milli_hz).over(thousand).scaled(100);
    let mut r = text::decimal((hundredths / 100) as u64);
    r.append(".");
    r.append(text::decimal((hundredths / 10 % 10) as u64).as_str());
    r.append(text::decimal((hundredths % 10) as u64).as_str());
    assert(r@ =~= with_decimals(hundredths as nat));
    r
}

/// The report on the counters, and on their growth since the last report.
pub fn report(stats: &Stats, last: &mut Totals) -> (r: String)
    requires
        old(last).precedes(*stats),
    ensures
        r@ == report_line(*stats, *old(last)),
        r@ == "stats in_pps="@ + text::decimal_of((stats.input_packets - old(last).input) as nat)
            + " out_pps="@ + text::decimal_of((stats.output_packets - old(last).output) as nat)
            + " artdmx_pps="@ + text::decimal_of((stats.input_dmx - old(last).dmx) as nat)
            + " artsync_pps="@ + text::decimal_of((stats.input_sync - old(last).sync) as nat)
            + " dropped="@ + text::decimal_of(stats.dropped_packets as nat) + " late_frames="@
            + text::decimal_of(stats.late_frames as nat) + " queue_depth="@ + text::decimal_of(
            stats.queued_packets as nat,
        ) + " est_fps="@ + with_decimals(rate_hundredths(stats.frame_rate_milli_hz as nat)),
        *final(last) == (Totals {
            input: stats.input_packets,
            output: stats.output_packets,
            dmx: stats.input_dmx,
            sync: stats.input_sync,
        }),
{
    let mut r = "stats in_pps=".to_owned();
    r.append(text::decimal(stats.input_packets - last.input).as_str());
    r.append(" out_pps=");
    r.append(text::decimal(stats.output_packets - last.output).as_str());
    r.append(" artdmx_pps=");
    r.append(text::decimal(stats.input_dmx - last.dmx).as_str());
    r.append(" artsync_pps=");
    r.append(text::decimal(stats.input_sync - last.sync).as_str());
    r.append(" dropped=");
    r.append(text::decimal(stats.dropped_packets).as_str());
    r.append(" late_frames=");
    r.append(text::decimal(stats.late_frames).as_str());
    r.append(" queue_depth=");
    r.append(text::decimal(stats.queued_packets as u64).as_str());
    r.append(" est_fps=");
    r.append(rate_text(stats.frame_rate_milli_hz).as_str());
    last.input = stats.input_packets;
    last.output = stats.output_packets;
    last.dmx = stats.input_dmx;
    last.sync = stats.input_sync;
    r
}

/// The frame rate is shown to the nearest hundredth of a frame, a tie to either side, and above
/// `2^49` thousandths to five parts in `2^53`.
pub proof fn law_rate_is_shown_to_the_hundredth(milli_hz: u64)
    ensures
        ({
            let (h, m) = (rate_hundredths(milli_hz as nat) as int, milli_hz as int);
            let b = 0x20_0000_0000_0000int;
            &&& 20 * (b * h) <= 2 * (m * (b + 5)) + 10 * b
            &&& 2 * (m * (b - 5)) <= 20 * (b * h) + 10 * b
            &&& m <= 0x2_0000_0000_0000 ==> 10 * h <= m + 5 && m <= 10 * h + 5
        }),
{
    let o = binary64::one() as int;
    let b = binary64::MANTISSA_BOUND as int;
    let m = milli_hz as nat;
    float_bounds::lemma_one_is_large();
    float_bounds::lemma_float_of_error(m);
    float_bounds::lemma_float_of_exact(1000);
    let f = binary64::float_of(m);
    let den = (1000 * o) as nat;
    let q = binary64::nearest(f, den);
    let x = 1000 * q;
    let exact = m * o;
    if m == 0 {
        float_bounds::lemma_float_of_exact(0);
        binary64::lemma_nearest_zero(den);
    } else {
        assert(2 * (f * o) >= den * b) by (nonlinear_arith)
            requires
                f >= o,
                den == 1000 * o,
                o >= 1000 * b,
                b > 0,
        ;
        float_bounds::lemma_nearest_error(f, den);
        assert(x * b <= f * (b + 1) && f * (b - 1) <= x * b) by (nonlinear_arith)
            requires
                (q * den) * b <= (f * o) * (b + 1),
                (f * o) * (b - 1) <= (q * den) * b,
                den == 1000 * o,
                x == 1000 * q,
                o > 0,
        ;
        assert(x * b <= exact * (b + 3) && exact * (b - 3) <= x * b) by (nonlinear_arith)
            requires
                x * b <= f * (b + 1),
                f * (b - 1) <= x * b,
                f * b <= exact * (b + 1),
                exact * (b - 1) <= f * b,
                exact >= 0,
                b >= 100,
        {
            assert((x * b) * b <= (f * b) * (b + 1));
            assert((f * b) * (b + 1) <= (exact * (b + 1)) * (b + 1));
            assert((b + 1) * (b + 1) <= (b + 3) * b);
            assert(exact * ((b + 1) * (b + 1)) <= exact * ((b + 3) * b));
            assert((exact * (b - 1)) * (b - 1) <= (f * b) * (b - 1));
            assert((f * b) * (b - 1) <= (x * b) * b);
            assert((b - 3) * b <= (b - 1) * (b - 1));
            assert(exact * ((b - 3) * b) <= exact * ((b - 1) * (b - 1)));
            assert((x * b) * b <= (exact * (b + 3)) * b);
            assert((exact * (b - 3)) * b <= (x * b) * b);
        }
    }
    let num = (q * 100) as nat;
    float_bounds::lemma_round_half_even_error(num, o as nat);
    let h = rate_hundredths(m) as int;
    let (high, low) = (m * (b + 5), m * (b - 5));
    assert(x == 10 * num);
    assert(x * b <= high * o && low * o <= x * b) by (nonlinear_arith)
        requires
            x * b <= exact * (b + 3),
            exact * (b - 3) <= x * b,
            exact == m * o,
            high == m * (b + 5),
            low == m * (b - 5),
            m >= 0,
            o > 0,
    ;
    assert(20 * (b * h) <= 2 * high + 10 * b && 2 * low <= 20 * (b * h) + 10 * b) by (nonlinear_arith)
        requires
            2 * (h * o) <= 2 * num + o,
            2 * num <= 2 * (h * o) + o,
            x == 10 * num,
            x * b <= high * o,
            low * o <= x * b,
            o > 0,
            b > 0,
    {
        assert((20 * (b * h)) * o <= (2 * high + 10 * b) * o);
        assert((2 * low) * o <= (20 * (b * h) + 10 * b) * o);
    }
    if m <= 0x2_0000_0000_0000 {
        let mi = m as int;
        assert(20 * h <= 2 * mi + 10 && 2 * mi <= 20 * h + 10) by (nonlinear_arith)
            requires
                20 * (b * h) <= 2 * high + 10 * b,
                2 * low <= 20 * (b * h) + 10 * b,
                high == mi * (b + 5),
                low == mi * (b - 5),
                0 <= mi <= 0x2_0000_0000_0000,
                b == 0x20_0000_0000_0000,
        {
            assert(b * (20 * h) <= b * (2 * mi + 10) + 10 * mi);
            assert(10 * mi < b);
            assert(b * (20 * h) < b * (2 * mi + 11));
            assert(b * (2 * mi - 1) < b * (20 * h + 10));
        }
    }
}

/// A number of hundredths is shown with the whole number, a point, and one digit each for the tenths
/// and the hundredths.
pub proof fn law_hundredths_have_two_digits(whole: nat, tenth: nat, hundredth: nat)
    requires
        tenth < 10,
        hundredth < 10,
    ensures
        with_decimals(100 * whole + 10 * tenth + hundredth) == text::decimal_of(whole) + seq![
            '.',
            (48 + tenth) as char,
            (48 + hundredth) as char,
        ],
{
    reveal_strlit(".");
    let n = 100 * whole + 10 * tenth + hundredth;
    assert(n / 100 == whole && n / 10 % 10 == tenth && n % 10 == hundredth);
    assert(with_decimals(n) =~= text::decimal_of(whole) + seq![
        '.',
        (48 + tenth) as char,
        (48 + hundredth) as char,
    ]);
}

/// The frame rate is divided by a thousand in double precision, and its hundredths are rounded once.
pub proof fn law_rate_rounds_once(milli_hz: nat)
    ensures
        rate_hundredths(milli_hz) == binary64::round_half_even(
            binary64::nearest(binary64::nearest(milli_hz, 1), binary64::nearest(1000, 1)) * 100,
            binary64::one(),
        ),
{
}

/// A report shows the growth of four counters since the last one, and three counters and the frame
/// rate as they are, each in decimal behind its name.
pub proof fn law_report_shows_every_counter(stats: Stats, last: Totals)
    requires
        last.input <= stats.input_packets,
        last.output <= stats.output_packets,
        last.dmx <= stats.input_dmx,
        last.sync <= stats.input_sync,
    ensures
        last.precedes(stats),
        report_line(stats, last) == "stats in_pps="@ + text::decimal_of(
            (stats.input_packets - last.input) as nat,
        ) + " out_pps="@ + text::decimal_of((stats.output_packets - last.output) as nat)
            + " artdmx_pps="@ + text::decimal_of((stats.input_dmx - last.dmx) as nat)
            + " artsync_pps="@ + text::decimal_of((stats.input_sync - last.sync) as nat)
            + " dropped="@ + text::decimal_of(stats.dropped_packets as nat) + " late_frames="@
            + text::decimal_of(stats.late_frames as nat) + " queue_depth="@ + text::decimal_of(
            stats.queued_packets as nat,
        ) + " est_fps="@ + with_decimals(rate_hundredths(stats.frame_rate_milli_hz as nat)),
{
}

/// Counting changes one counter by one, and a counter that is full starts again; a packet that comes
/// in is counted as one, and as ArtDmx or ArtSync where it is.
pub proof fn law_counting_in_numbers(stats: Stats, kind: PacketKind)
    ensures
        stats.with_output() == (Stats {
            output_packets: stats.output_packets.wrapping_add(1),
            ..stats
        }),
        stats.with_drop() == (Stats { dropped_packets: stats.dropped_packets.wrapping_add(1), ..stats }),
        stats.with_late_frame() == (Stats { late_frames: stats.late_frames.wrapping_add(1), ..stats }),
        stats.with_queued() == (Stats { queued_packets: stats.queued_packets.wrapping_add(1), ..stats }),
        stats.with_unqueued() == (Stats { queued_packets: stats.queued_packets.wrapping_sub(1), ..stats }),
        stats.with_unqueued().with_queued() == stats,
        stats.with_input(kind) == (Stats {
            input_packets: stats.input_packets.wrapping_add(1),
            input_dmx: if kind is ArtDmx {
                stats.input_dmx.wrapping_add(1)
            } else {
                stats.input_dmx
            },
            input_sync: if kind is ArtSync {
                stats.input_sync.wrapping_add(1)
            } else {
                stats.input_sync
            },
            ..stats
        }),
{
}

} // verus!
