//! The reporter: at each interval, the memory of the process and the throughput.
use crate::binary64::{self, Binary64};
use crate::decimal;
use crate::harness::REPORT_INTERVAL_SECS;
use crate::memory::{self, MemoryUsage};
use crate::variant::Variant;
use vstd::arithmetic::power2::*;
use vstd::prelude::*;

verus! {

/// The bytes of a megabyte, as the reports count them.
pub const MEGABYTE: u64 = 1048576;

/// `bytes` in megabytes, in double precision.
pub open spec fn megabytes(bytes: nat) -> binary64::Double {
    binary64::quotient(bytes, MEGABYTE as nat)
}

/// The requests per second of an interval with `delta` requests, in double precision.
pub open spec fn per_second(delta: nat) -> binary64::Double {
    binary64::quotient(delta, REPORT_INTERVAL_SECS as nat)
}

/// A memory figure as it stands in a report: two decimals, in eight columns.
pub open spec fn memory_figure(bytes: nat) -> Seq<char> {
    decimal::right_aligned(megabytes(bytes).text(2), 8)
}

/// A rate as it stands in a report: requests per second, with one decimal.
pub open spec fn rate_figure(delta: nat) -> Seq<char> {
    per_second(delta).text(1)
}

/// The part of a report that shows the memory.
pub open spec fn memory_part(usage: Option<MemoryUsage>) -> Seq<char> {
    match usage {
        Some(usage) => "phys "@ + memory_figure(usage.physical_mem as nat) + " MB | virt "@
            + memory_figure(usage.virtual_mem as nat) + " MB"@,
        None => "<unavailable>"@,
    }
}

/// The report on `total` requests, `delta` of them since the last report.
pub open spec fn report_line(
    variant: Variant,
    total: nat,
    delta: nat,
    usage: Option<MemoryUsage>,
) -> Seq<char> {
    "["@ + variant.name_text() + "] mem: "@ + memory_part(usage) + " | requests: "@
        + decimal::decimal(total) + " total, "@ + rate_figure(delta) + "/s"@
}

/// The reporter of a variant.
#[derive(Clone, Copy, Debug, PartialEq, Eq, Structural)]
pub struct Reporter {
    /// The variant that it reports on.
    pub variant: Variant,
    /// Whether the first tick is over, so that the next one ends a full interval.
    pub primed: bool,
    /// The total of the last report.
    pub last_count: u64,
}

impl Reporter {
    /// A reporter before its first tick.
    pub open spec fn fresh(variant: Variant) -> Reporter {
        Reporter { variant, primed: false, last_count: 0 }
    }

    /// The reporter after a tick.
    pub open spec fn after_tick(self) -> Reporter {
        Reporter { primed: true, ..self }
    }

    /// The reporter after a report on `total` requests.
    pub open spec fn after_report(self, total: u64) -> Reporter {
        Reporter { last_count: total, ..self }
    }

    /// How many of `total` requests came since the last report.
    pub open spec fn delta(self, total: u64) -> nat {
        (total - self.last_count) as nat
    }

    /// A reporter that has reported nothing yet.
    pub fn new(variant: Variant) -> (reporter: Self)
        ensures
            reporter == Self::fresh(variant),
            reporter.variant == variant,
            !reporter.primed,
            reporter.last_count == 0,
    {
        Reporter { variant, primed: false, last_count: 0 }
    }

    /// Takes in a tick of the clock and says whether a report is due. The first tick
    /// comes at once and is skipped, so that the first report covers a full interval.
    pub fn tick(&mut self) -> (due: bool)
        ensures
            *final(self) == old(self).after_tick(),
            due == old(self).primed,
            final(self).primed,
            final(self).variant == old(self).variant,
            final(self).last_count == old(self).last_count,
    {
        let due = self.primed;
        self.primed = true;
        due
    }

    /// Writes the report on `total` requests and a memory reading.
    pub fn report(&mut self, total: u64, usage: Option<MemoryUsage>) -> (line: String)
        requires
            old(self).last_count <= total,
        ensures
            *final(self) == old(self).after_report(total),
            final(self).variant == old(self).variant,
            final(self).primed == old(self).primed,
            final(self).last_count == total,
            line@ == report_line(
                old(self).variant,
                total as nat,
                old(self).delta(total),
                usage,
            ),
            line@ == "["@ + old(self).variant.name_text() + (match usage {
                Some(usage) => "] mem: phys "@ + memory_figure(usage.physical_mem as nat)
                    + " MB | virt "@ + memory_figure(usage.virtual_mem as nat)
                    + " MB | requests: "@,
                None => "] mem: <unavailable> | requests: "@,
            }) + decimal::decimal(total as nat) + " total, "@ + rate_figure(
                (total - old(self).last_count) as nat,
            ) + "/s"@,
    {
        let delta = total - self.last_count;
        self.last_count = total;
        let per_sec = Binary64::quotient(delta, REPORT_INTERVAL_SECS);
        let mut line = String::new();
        line.append("[");
        line.append(self.variant.name());
        line.append("] mem: ");
        match usage {
            Some(usage) => {
                line.append("phys ");
                line.append(format_memory(usage.physical_mem).as_str());
                line.append(" MB | virt ");
                line.append(format_memory(usage.virtual_mem).as_str());
                line.append(" MB");
            },
            None => {
                line.append("<unavailable>");
            },
        }
        line.append(" | requests: ");
        decimal::push_decimal(&mut line, total as u128);
        line.append(" total, ");
        line.append(per_sec.format(1).as_str());
        line.append("/s");
        assert(line@ =~= report_line(self.variant, total as nat, delta as nat, usage));
        proof {
            law_a_report_says_what_it_shows(self.variant, total as nat, delta as nat, usage);
        }
        line
    }

    /// Reads the memory of the process and writes the report on it and on `total`
    /// requests, whatever the reading is.
    pub fn report_now(&mut self, total: u64) -> (line: String)
        requires
            old(self).last_count <= total,
        ensures
            *final(self) == old(self).after_report(total),
            final(self).variant == old(self).variant,
            final(self).primed == old(self).primed,
            final(self).last_count == total,
            exists|usage: Option<MemoryUsage>|
                memory::is_reading(usage) && line@ == #[trigger] report_line(
                    old(self).variant,
                    total as nat,
                    (total - old(self).last_count) as nat,
                    usage,
                ),
    {
        broadcast use memory::law_a_reading_is_what_was_read;

        let usage = memory::read_memory();
        self.report(total, usage)
    }
}

/// Writes a memory figure: megabytes with two decimals, in eight columns.
fn format_memory(bytes: usize) -> (text: String)
    ensures
        text@ == memory_figure(bytes as nat),
{
    decimal::align_right(Binary64::quotient(bytes as u64, MEGABYTE).format(2), 8)
}

/// A report names the variant, then shows the physical memory as physical and the
/// virtual memory as virtual, or that there is no reading, then the total and the rate.
#[verifier::spinoff_prover]
#[verifier::rlimit(40)]
pub proof fn law_a_report_says_what_it_shows(
    variant: Variant,
    total: nat,
    delta: nat,
    usage: Option<MemoryUsage>,
)
    ensures
        report_line(variant, total, delta, usage) == "["@ + variant.name_text() + (match usage {
            Some(usage) => "] mem: phys "@ + memory_figure(usage.physical_mem as nat)
                + " MB | virt "@ + memory_figure(usage.virtual_mem as nat) + " MB | requests: "@,
            None => "] mem: <unavailable> | requests: "@,
        }) + decimal::decimal(total) + " total, "@ + rate_figure(delta) + "/s"@,
{
    reveal_strlit("] mem: ");
    reveal_strlit("phys ");
    reveal_strlit("] mem: phys ");
    reveal_strlit(" MB");
    reveal_strlit(" | requests: ");
    reveal_strlit(" MB | requests: ");
    reveal_strlit("<unavailable>");
    reveal_strlit("] mem: <unavailable> | requests: ");
    assert("] mem: "@ + "phys "@ =~= "] mem: phys "@);
    assert(" MB"@ + " | requests: "@ =~= " MB | requests: "@);
    assert("] mem: "@ + "<unavailable>"@ + " | requests: "@ =~= "] mem: <unavailable> | requests: "@);
    let front = "["@ + variant.name_text();
    let back = decimal::decimal(total) + " total, "@ + rate_figure(delta) + "/s"@;
    match usage {
        Some(usage) => {
            let (p, v) = (
                memory_figure(usage.physical_mem as nat),
                memory_figure(usage.virtual_mem as nat),
            );
            assert(report_line(variant, total, delta, Some(usage)) =~= front + ("] mem: "@
                + "phys "@) + p + " MB | virt "@ + v + (" MB"@ + " | requests: "@) + back);
            assert(report_line(variant, total, delta, Some(usage)) =~= front + ("] mem: phys "@ + p
                + " MB | virt "@ + v + " MB | requests: "@) + back);
        },
        None => {
            assert(report_line(variant, total, delta, None) =~= front + ("] mem: "@
                + "<unavailable>"@ + " | requests: "@) + back);
        },
    }
    assert(report_line(variant, total, delta, usage) =~= "["@ + variant.name_text() + (match usage {
        Some(usage) => "] mem: phys "@ + memory_figure(usage.physical_mem as nat) + " MB | virt "@
            + memory_figure(usage.virtual_mem as nat) + " MB | requests: "@,
        None => "] mem: <unavailable> | requests: "@,
    }) + decimal::decimal(total) + " total, "@ + rate_figure(delta) + "/s"@);
}

/// The memory figure of fewer than `2^53` bytes is the exact count of megabytes,
/// rounded once, to the nearest hundredth.
pub proof fn law_memory_figures_are_exact(bytes: nat)
    requires
        bytes < binary64::SIGNIFICAND_END,
    ensures
        megabytes(bytes).units(2) == binary64::round_half_even(bytes * 100, MEGABYTE as nat),
{
    lemma2_to64();
    binary64::law_small_integers_are_doubles(bytes);
    binary64::law_figure_over_a_power_of_two(bytes, 20, 2);
    reveal_with_fuel(decimal::power_of_ten, 3);
}

/// More memory never reads as less.
pub proof fn law_more_memory_never_reads_as_less(bytes: nat, more: nat)
    requires
        bytes <= more,
    ensures
        megabytes(bytes).units(2) <= megabytes(more).units(2),
{
    binary64::law_quotient_keeps_order(bytes, more, MEGABYTE as nat, 2);
}

/// The rate of an interval with fewer than `2^51` requests is printed exactly: the
/// printed rate times the interval is the count of requests.
pub proof fn law_rates_are_exact(delta: nat)
    requires
        2 * delta < binary64::SIGNIFICAND_MIN,
    ensures
        per_second(delta).units(1) * REPORT_INTERVAL_SECS == delta * 10,
{
    reveal_with_fuel(decimal::power_of_ten, 2);
    binary64::law_short_decimals_are_exact(delta, REPORT_INTERVAL_SECS as nat, 1, 2 * delta);
}

/// The reporter after one tick per total, with a report on that total where one is
/// due.
pub open spec fn after_ticks(reporter: Reporter, totals: Seq<u64>) -> Reporter
    decreases totals.len(),
{
    if totals.len() == 0 {
        reporter
    } else {
        let before = after_ticks(reporter, totals.drop_last());
        if before.primed {
            before.after_tick().after_report(totals.last())
        } else {
            before.after_tick()
        }
    }
}

/// The sum of the counts that the reports of these ticks show as new.
pub open spec fn reported(reporter: Reporter, totals: Seq<u64>) -> nat
    decreases totals.len(),
{
    if totals.len() == 0 {
        0
    } else {
        let before = after_ticks(reporter, totals.drop_last());
        reported(reporter, totals.drop_last()) + if before.primed {
            before.after_tick().delta(totals.last())
        } else {
            0
        }
    }
}

/// The first tick is the only one on which no report is due.
pub proof fn law_every_tick_but_the_first_reports(variant: Variant, earlier: Seq<u64>)
    ensures
        after_ticks(Reporter::fresh(variant), earlier).primed <==> earlier.len() > 0,
        after_ticks(Reporter::fresh(variant), earlier).variant == variant,
    decreases earlier.len(),
{
    if earlier.len() > 0 {
        law_every_tick_but_the_first_reports(variant, earlier.drop_last());
    }
}

/// As long as the count of requests does not go down, every report can be made, and
/// every request is shown as new in exactly one of them: the counts of all reports so
/// far add up to the last total, the requests before the first tick included.
pub proof fn law_every_request_is_reported_once(variant: Variant, totals: Seq<u64>)
    requires
        forall|i: int, j: int| 0 <= i <= j < totals.len() ==> totals[i] <= totals[j],
    ensures
        totals.len() > 0 ==> after_ticks(Reporter::fresh(variant), totals.drop_last()).last_count
            <= totals.last(),
        totals.len() > 1 ==> reported(Reporter::fresh(variant), totals) == totals.last(),
        reported(Reporter::fresh(variant), totals) == after_ticks(
            Reporter::fresh(variant),
            totals,
        ).last_count,
        totals.len() > 1 ==> after_ticks(Reporter::fresh(variant), totals).last_count
            == totals.last(),
        totals.len() <= 1 ==> after_ticks(Reporter::fresh(variant), totals).last_count == 0,
    decreases totals.len(),
{
    if totals.len() > 0 {
        law_every_request_is_reported_once(variant, totals.drop_last());
        law_every_tick_but_the_first_reports(variant, totals.drop_last());
    }
}

/// A tick leaves everything but the readiness as it was: above all the total of the last
/// report, from which the next rate is counted. A report leaves the readiness as it was.
pub proof fn law_a_tick_keeps_the_last_total(reporter: Reporter, total: u64)
    ensures
        reporter.after_tick().primed,
        reporter.after_tick().last_count == reporter.last_count,
        reporter.after_tick().variant == reporter.variant,
        reporter.after_report(total).last_count == total,
        reporter.after_report(total).primed == reporter.primed,
        reporter.after_report(total).variant == reporter.variant,
        reporter.last_count <= total ==> reporter.last_count + reporter.after_tick().delta(total)
            == total,
{
}

/// A reporter that is driven by ticks, with a report where one is due, over totals that
/// do not go down: each report counts what came since the total of the report before it,
/// and the first one counts everything.
pub proof fn law_each_report_covers_its_own_interval(variant: Variant, totals: Seq<u64>)
    requires
        forall|i: int, j: int| 0 <= i <= j < totals.len() ==> totals[i] <= totals[j],
        totals.len() > 1,
    ensures
        ({
            let ready = after_ticks(Reporter::fresh(variant), totals.drop_last()).after_tick();
            let previous = if totals.len() > 2 {
                totals[totals.len() - 2] as int
            } else {
                0
            };
            &&& ready.variant == variant
            &&& ready.last_count <= totals.last()
            &&& ready.delta(totals.last()) == totals.last() - previous
            &&& ready.after_report(totals.last()) == after_ticks(Reporter::fresh(variant), totals)
        }),
{
    law_every_request_is_reported_once(variant, totals);
    law_every_request_is_reported_once(variant, totals.drop_last());
    law_every_tick_but_the_first_reports(variant, totals.drop_last());
}

/// The rate in the line of a driven reporter, for fewer than `2^51` requests in the
/// interval: the line ends with the total, the rate and `/s`; the rate is a plain number
/// with one decimal, and five times it is the count of requests since the line before.
#[verifier::spinoff_prover]
#[verifier::rlimit(40)]
pub proof fn law_each_line_shows_the_rate_of_its_interval(
    variant: Variant,
    totals: Seq<u64>,
    usage: Option<MemoryUsage>,
) -> (rate: Seq<char>)
    requires
        forall|i: int, j: int| 0 <= i <= j < totals.len() ==> totals[i] <= totals[j],
        totals.len() > 1,
        2 * totals.last() < 0x10_0000_0000_0000,
    ensures
        ({
            let ready = after_ticks(Reporter::fresh(variant), totals.drop_last()).after_tick();
            let line = report_line(
                ready.variant,
                totals.last() as nat,
                ready.delta(totals.last()),
                usage,
            );
            let end = decimal::decimal(totals.last() as nat) + " total, "@ + rate + "/s"@;
            let previous = if totals.len() > 2 {
                totals[totals.len() - 2] as int
            } else {
                0
            };
            let point = rate.len() - 2;
            &&& end.len() <= line.len()
            &&& line.skip(line.len() - end.len()) == end
            &&& point > 0
            &&& rate[point] == '.'
            &&& decimal::is_plain_number(rate.take(point))
            &&& '0' <= rate[point + 1] <= '9'
            &&& 5 * (10 * decimal::number(rate.take(point)) + (rate[point + 1] as int
                - '0' as int)) == 10 * (totals.last() - previous)
        }),
{
    law_each_report_covers_its_own_interval(variant, totals);
    let ready = after_ticks(Reporter::fresh(variant), totals.drop_last()).after_tick();
    let delta = ready.delta(totals.last());
    let rate = rate_figure(delta);
    law_a_rate_reads_as_requests_per_second(delta);
    let line = report_line(ready.variant, totals.last() as nat, delta, usage);
    let end = decimal::decimal(totals.last() as nat) + " total, "@ + rate + "/s"@;
    assert(line.skip(line.len() - end.len()) =~= end);
    rate
}

/// The text of the rate of any count of requests: a plain number, the point and one
/// digit, which make up the tenths of the count over five in double precision.
pub proof fn law_any_rate_reads_as_its_quotient(delta: nat)
    ensures
        ({
            let rate = rate_figure(delta);
            let point = rate.len() - 2;
            &&& point > 0
            &&& rate[point] == '.'
            &&& decimal::is_plain_number(rate.take(point))
            &&& '0' <= rate[point + 1] <= '9'
            &&& 10 * decimal::number(rate.take(point)) + (rate[point + 1] as int - '0' as int)
                == binary64::quotient(delta, 5).units(1)
        }),
{
    let rate = rate_figure(delta);
    let point = rate.len() - 2;
    binary64::law_text_shows_the_units(per_second(delta), 1);
    reveal_with_fuel(decimal::power_of_ten, 2);
    let (whole, scale) = (decimal::number(rate.take(point)), decimal::power_of_ten(1));
    assert(whole * scale == 10 * whole) by (nonlinear_arith)
        requires
            scale == 10,
    ;
    assert('0' <= rate[point + 1] <= '9');
    decimal::law_digits_count_tenfold(Seq::empty(), rate[point + 1]);
    assert(rate.skip(point + 1) =~= Seq::<char>::empty().push(rate[point + 1]));
}

/// The text of a rate of fewer than `2^51` requests: a plain number, the point and one
/// digit, which make up exactly a fifth of the count.
pub proof fn law_a_rate_reads_as_requests_per_second(delta: nat)
    requires
        2 * delta < 0x10_0000_0000_0000,
    ensures
        ({
            let rate = rate_figure(delta);
            let point = rate.len() - 2;
            &&& point > 0
            &&& rate[point] == '.'
            &&& decimal::is_plain_number(rate.take(point))
            &&& '0' <= rate[point + 1] <= '9'
            &&& 5 * (10 * decimal::number(rate.take(point)) + (rate[point + 1] as int
                - '0' as int)) == 10 * delta
        }),
{
    law_rates_are_exact(delta);
    law_any_rate_reads_as_its_quotient(delta);
}

/// The hundredths of a megabyte that a figure shows are those closest to the bytes as a
/// double holds them, the even ones of two that are equally close.
#[verifier::spinoff_prover]
#[verifier::rlimit(40)]
pub proof fn law_memory_figures_are_closest(bytes: nat)
    ensures
        ({
            let shown = megabytes(bytes).units(2) * 1048576int;
            let exact = 100 * binary64::converted(bytes);
            &&& 2 * binary64::distance(shown, exact as int) <= 1048576
            &&& 2 * binary64::distance(shown, exact as int) == 1048576 ==> megabytes(bytes).units(2)
                % 2 == 0
        }),
        bytes < 0x20_0000_0000_0000 ==> binary64::converted(bytes) == bytes,
{
    lemma2_to64();
    reveal_with_fuel(decimal::power_of_ten, 3);
    binary64::law_figure_over_a_power_of_two(bytes, 20, 2);
    let (c, scale) = (binary64::converted(bytes), decimal::power_of_ten(2));
    assert(c * scale == 100 * c) by (nonlinear_arith)
        requires
            scale == 100,
    ;
    let exact = 100 * c;
    binary64::law_rounding_moves_by_half_a_unit(exact, 1048576);
    if 2 * binary64::distance(megabytes(bytes).units(2) * 1048576int, exact as int) == 1048576 {
        binary64::law_a_tie_goes_to_the_even_integer(exact, 1048576);
    }
    if bytes < 0x20_0000_0000_0000 {
        binary64::law_small_integers_are_doubles(bytes);
    }
}

/// The memory figure of any count of bytes: spaces, a plain number, the point and two
/// digits, at least eight characters, and no space that is not needed for that. The
/// digits make up the hundredths of a megabyte. The result is where the number begins.
#[verifier::spinoff_prover]
#[verifier::rlimit(40)]
pub proof fn law_a_memory_figure_reads_as_megabytes(bytes: nat) -> (start: int)
    ensures
        ({
            let figure = memory_figure(bytes);
            let point = figure.len() - 3;
            &&& 0 <= start < point
            &&& figure.len() >= 8
            &&& start > 0 ==> figure.len() == 8
            &&& forall|i: int| 0 <= i < start ==> #[trigger] figure[i] == ' '
            &&& forall|i: int| start <= i < figure.len() ==> #[trigger] figure[i] != ' '
            &&& decimal::is_plain_number(figure.subrange(start, point))
            &&& figure[point] == '.'
            &&& 100 * decimal::number(figure.subrange(start, point)) + decimal::number(
                figure.skip(point + 1),
            ) == binary64::quotient(bytes, 1048576).units(2)
        }),
{
    let x = megabytes(bytes);
    let text = x.text(2);
    let figure = memory_figure(bytes);
    let start = figure.len() - text.len();
    let point = figure.len() - 3;
    decimal::law_alignment_adds_spaces_in_front(text, 8);
    binary64::law_text_shows_the_units(x, 2);
    let (whole, scale) = (decimal::number(text.take(text.len() - 3)), decimal::power_of_ten(2));
    assert(whole * scale == 100 * whole) by {
        reveal_with_fuel(decimal::power_of_ten, 3);
        assert(whole * scale == 100 * whole) by (nonlinear_arith)
            requires
                scale == 100,
        ;
    }
    assert(figure.subrange(start, point) =~= text.take(text.len() - 3));
    assert(figure.skip(point + 1) =~= text.skip(text.len() - 2));
    assert forall|i: int| start <= i < figure.len() implies #[trigger] figure[i] != ' ' by {
        assert(figure[i] == text[i - start]);
        if i < point {
            assert(text.take(text.len() - 3)[i - start] == text[i - start]);
        }
    }
    start
}

/// Two memory figures that look alike show the same hundredths of a megabyte.
proof fn lemma_like_figures_show_alike(a: nat, b: nat)
    requires
        memory_figure(a) == memory_figure(b),
    ensures
        megabytes(a).units(2) == megabytes(b).units(2),
{
    let figure = memory_figure(a);
    let i = law_a_memory_figure_reads_as_megabytes(a);
    let j = law_a_memory_figure_reads_as_megabytes(b);
    if i < j {
        assert(figure[i] == ' ');
    } else if j < i {
        assert(figure[j] == ' ');
    }
}

/// A line shows one reading: if two readings give the same line, then they show the same
/// physical memory and the same virtual memory, each in its own place, and one is
/// missing exactly if the other is. A line with the two exchanged is another line unless
/// both read alike.
#[verifier::spinoff_prover]
#[verifier::rlimit(40)]
pub proof fn law_a_line_shows_one_reading(
    variant: Variant,
    total: nat,
    delta: nat,
    a: Option<MemoryUsage>,
    b: Option<MemoryUsage>,
)
    requires
        report_line(variant, total, delta, a) == report_line(variant, total, delta, b),
    ensures
        a is Some <==> b is Some,
        a is Some && b is Some ==> {
            &&& megabytes(a->0.physical_mem as nat).units(2) == megabytes(
                b->0.physical_mem as nat,
            ).units(2)
            &&& megabytes(a->0.virtual_mem as nat).units(2) == megabytes(
                b->0.virtual_mem as nat,
            ).units(2)
        },
{
    let line = report_line(variant, total, delta, a);
    let front = "["@ + variant.name_text() + "] mem: "@;
    let back = " | requests: "@ + decimal::decimal(total) + " total, "@ + rate_figure(delta)
        + "/s"@;
    reveal_strlit("<unavailable>");
    reveal_strlit("phys ");
    reveal_strlit(" MB | virt ");
    reveal_strlit(" MB");
    assert(line =~= front + memory_part(a) + back);
    assert(line =~= front + memory_part(b) + back);
    let part = line.subrange(front.len() as int, line.len() - back.len());
    assert(part =~= memory_part(a));
    assert(part =~= memory_part(b));
    if a is Some {
        assert(memory_part(a)[0] == 'p');
    } else {
        assert(memory_part(a)[0] == '<');
    }
    if b is Some {
        assert(memory_part(b)[0] == 'p');
    } else {
        assert(memory_part(b)[0] == '<');
    }
    if a is Some && b is Some {
        let (pa, va) = (memory_figure(a->0.physical_mem as nat), memory_figure(a->0.virtual_mem as nat));
        let (pb, vb) = (memory_figure(b->0.physical_mem as nat), memory_figure(b->0.virtual_mem as nat));
        let i = law_a_memory_figure_reads_as_megabytes(a->0.physical_mem as nat);
        let j = law_a_memory_figure_reads_as_megabytes(b->0.physical_mem as nat);
        if pa.len() < pb.len() {
            assert(part[5int + pa.len()] == ' ');
            assert(part[5int + pa.len()] == pb[pa.len() as int]);
        } else if pb.len() < pa.len() {
            assert(part[5int + pb.len()] == ' ');
            assert(part[5int + pb.len()] == pa[pb.len() as int]);
        }
        assert(part.subrange(5, 5int + pa.len()) =~= pa);
        assert(part.subrange(5, 5int + pb.len()) =~= pb);
        lemma_like_figures_show_alike(a->0.physical_mem as nat, b->0.physical_mem as nat);
        assert(part.subrange(16int + pa.len(), part.len() - 3) =~= va);
        assert(part.subrange(16int + pb.len(), part.len() - 3) =~= vb);
        lemma_like_figures_show_alike(a->0.virtual_mem as nat, b->0.virtual_mem as nat);
    }
}

} // verus!
