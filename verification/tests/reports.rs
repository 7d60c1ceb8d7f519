use load_harness::memory::MemoryUsage;
use load_harness::reporter::Reporter;
use load_harness::variant::Variant;

fn usage(physical_mem: usize, virtual_mem: usize) -> Option<MemoryUsage> {
    Some(MemoryUsage { physical_mem, virtual_mem })
}

#[test]
fn first_tick_is_skipped() {
    let mut reporter = Reporter::new(Variant::UreqStreaming);
    assert!(!reporter.tick());
    for _ in 0..3 {
        assert!(reporter.tick());
        reporter.report(0, None);
    }
}

#[test]
fn report_with_memory() {
    let mut reporter = Reporter::new(Variant::ReqwestStreaming);
    assert_eq!(
        reporter.report(212, usage(16 * 1024 * 1024, 425_000 * 1024 * 1024)),
        "[reqwest_streaming] mem: phys    16.00 MB | virt 425000.00 MB | requests: 212 total, 42.4/s"
    );
    assert_eq!(
        reporter.report(213, usage(17_000_000, 0)),
        "[reqwest_streaming] mem: phys    16.21 MB | virt     0.00 MB | requests: 213 total, 0.2/s"
    );
}

#[test]
fn report_without_memory() {
    let mut reporter = Reporter::new(Variant::UreqCollecting);
    assert_eq!(
        reporter.report(7, None),
        "[ureq_collecting] mem: <unavailable> | requests: 7 total, 1.4/s"
    );
    assert_eq!(
        reporter.report(7, None),
        "[ureq_collecting] mem: <unavailable> | requests: 7 total, 0.0/s"
    );
}

#[test]
fn report_matches_double_precision() {
    let mut last = 0u64;
    let mut reporter = Reporter::new(Variant::ReqwestTweaks);
    for step in 0..60 {
        let total = last + (1u64 << step) + step * step;
        let (physical, reserved) = ((total * 1000) as usize, usize::MAX >> step);
        let per_sec = (total - last) as f64 / 5.0;
        let phys_mb = physical as f64 / (1024.0 * 1024.0);
        let virt_mb = reserved as f64 / (1024.0 * 1024.0);
        assert_eq!(
            reporter.report(total, usage(physical, reserved)),
            format!(
                "[reqwest_tweaks] mem: phys {phys_mb:8.2} MB | virt {virt_mb:8.2} MB | requests: {total} total, {per_sec:.1}/s"
            )
        );
        last = total;
    }
}

#[test]
fn every_request_is_reported_once() {
    let mut reporter = Reporter::new(Variant::ReqwestCollecting);
    let mut tenths = 0;
    for total in [3u64, 3, 10, 250, 251, 1000] {
        let line = reporter.report(total, None);
        let rate = line.rsplit(' ').next().unwrap().trim_end_matches("/s").replace('.', "");
        tenths += rate.parse::<u64>().unwrap();
        assert_eq!(reporter.last_count, total);
    }
    assert_eq!(tenths * 5, 1000 * 10);
}

/// The two memory figures of a line, in megabytes.
fn figures(line: &str) -> (f64, f64) {
    let rest = line.strip_prefix("[reqwest_tweaks] mem: phys ").unwrap();
    let (phys, rest) = rest.split_once(" MB | virt ").unwrap();
    let (reserved, rest) = rest.split_once(" MB | requests: ").unwrap();
    assert_eq!(rest, "10 total, 0.0/s");
    (phys.trim().parse().unwrap(), reserved.trim().parse().unwrap())
}

#[test]
fn reading_of_this_process() {
    let mut reporter = Reporter::new(Variant::ReqwestTweaks);
    reporter.report(10, None);
    let (phys, reserved) = figures(&reporter.report_now(10));
    assert!(0.0 < phys && phys <= reserved);
    let held = std::hint::black_box(vec![1u8; 64 * 1024 * 1024]);
    let (more_phys, more_reserved) = figures(&reporter.report_now(10));
    assert!(more_phys > phys + 50.0);
    assert!(more_reserved > reserved + 50.0);
    assert_eq!(std::hint::black_box(held)[12345], 1);
}
