use psi_exporter::aggregate::aggregate;
use psi_exporter::locate::{locate, Candidate, FsTree};
use psi_exporter::parse::PsiLine;
use psi_exporter::snapshot::{build_snapshot, Controller, MetricName, Sample};

fn file(name: &[u8], content: &[u8]) -> FsTree {
    FsTree::File { name: name.to_vec(), content: Some(content.to_vec()) }
}

fn dir(name: &[u8], children: Vec<FsTree>) -> FsTree {
    FsTree::Dir { name: name.to_vec(), children }
}

const SOME_FULL: &[u8] =
    b"some avg10=5.00 avg60=2.00 avg300=1.00 total=500000\nfull avg10=0.00 avg60=0.00 avg300=0.00 total=0\n";

fn sample_tuple(s: &Sample) -> (MetricName, Vec<u8>, Controller, PsiLine, u64) {
    (s.name, s.service.clone(), s.controller, s.kind, s.value_millionths)
}

#[test]
fn locator_prunes_boundaries() {
    // Siblings named like delegation boundaries are pruned whole: even a
    // pressure file inside them must not be visited.
    let root = dir(
        b"cgroup",
        vec![
            dir(b"x.mount", vec![file(b"cpu.pressure", SOME_FULL)]),
            dir(b"y.socket", vec![file(b"cpu.pressure", SOME_FULL)]),
            dir(b"z.scope", vec![file(b"cpu.pressure", SOME_FULL)]),
            file(b"w.pressure", SOME_FULL),
        ],
    );
    let cands: Vec<Candidate> = locate(&root);
    assert_eq!(cands.len(), 1);
    assert_eq!(cands[0].service, b"/".to_vec());
    assert_eq!(cands[0].controller, b"w".to_vec());
}

#[test]
fn locator_yields_nested_services() {
    let root = dir(
        b"cgroup",
        vec![dir(
            b"a.slice",
            vec![dir(b"b.service", vec![file(b"io.pressure", SOME_FULL)])],
        )],
    );
    let cands = locate(&root);
    assert_eq!(cands.len(), 1);
    assert_eq!(cands[0].service, b"/a.slice/b.service".to_vec());
    assert_eq!(cands[0].controller, b"io".to_vec());
}

#[test]
fn aggregation_keeps_services_apart() {
    // Two services with identical controller data get two independent
    // entries, keyed by their distinct paths.
    let root = dir(
        b"cgroup",
        vec![
            dir(b"a.slice", vec![file(b"cpu.pressure", SOME_FULL)]),
            dir(b"b.slice", vec![file(b"cpu.pressure", SOME_FULL)]),
        ],
    );
    let entries = aggregate(&locate(&root)).unwrap();
    assert_eq!(entries.len(), 2);
    assert_eq!(entries[0].service, b"/a.slice".to_vec());
    assert_eq!(entries[1].service, b"/b.slice".to_vec());
    let a = entries[0].measurements.cpu.some_rec.unwrap();
    let b = entries[1].measurements.cpu.some_rec.unwrap();
    assert_eq!(a, b);
}

#[test]
fn aggregation_skips_unreadable_files() {
    let root = dir(
        b"cgroup",
        vec![dir(
            b"a.slice",
            vec![FsTree::File { name: b"cpu.pressure".to_vec(), content: None }],
        )],
    );
    let entries = aggregate(&locate(&root)).unwrap();
    assert_eq!(entries.len(), 0);
}

#[test]
fn aggregation_fails_on_malformed_line() {
    let root = dir(
        b"cgroup",
        vec![dir(b"a.slice", vec![file(b"cpu.pressure", b"garbage\n")])],
    );
    assert!(aggregate(&locate(&root)).is_err());
}

#[test]
fn aggregation_drops_unknown_controller() {
    // The locator accepts any `<name>.pressure`; the aggregator keeps the
    // entry but routes an unknown controller nowhere.
    let root = dir(
        b"cgroup",
        vec![dir(b"a.slice", vec![file(b"hugetlb.pressure", SOME_FULL)])],
    );
    let entries = aggregate(&locate(&root)).unwrap();
    assert_eq!(entries.len(), 1);
    assert!(entries[0].measurements.cpu.some_rec.is_none());
    assert!(entries[0].measurements.memory.some_rec.is_none());
    assert!(entries[0].measurements.io.some_rec.is_none());
}

#[test]
fn zero_suppression() {
    let root = dir(
        b"cgroup",
        vec![dir(
            b"a.slice",
            vec![file(b"cpu.pressure", b"some avg10=0.00 avg60=0.00 avg300=0.00 total=0\n")],
        )],
    );
    let entries = aggregate(&locate(&root)).unwrap();

    // With zero-reporting off, the all-zero combination yields no sample.
    let silent = build_snapshot(&entries, true, false);
    assert_eq!(silent.len(), 0);

    // With zero-reporting on, exactly one counter sample, valued zero.
    let loud = build_snapshot(&entries, true, true);
    let totals: Vec<&Sample> =
        loud.iter().filter(|s| s.name == MetricName::TotalSeconds).collect();
    assert_eq!(totals.len(), 1);
    assert_eq!(totals[0].value_millionths, 0);
    assert_eq!(totals[0].kind, PsiLine::SomeTasks);
}

#[test]
fn average_suppression() {
    let root = dir(
        b"cgroup",
        vec![dir(b"a.slice", vec![file(b"cpu.pressure", SOME_FULL)])],
    );
    let entries = aggregate(&locate(&root)).unwrap();
    for report_zeros in [false, true] {
        let out = build_snapshot(&entries, false, report_zeros);
        assert!(out.iter().all(|s| s.name == MetricName::TotalSeconds));
        assert!(!out.is_empty() || !report_zeros);
    }
}

#[test]
fn missing_kind_yields_no_samples() {
    // A file with only a `full` line gives nothing for kind `some`.
    let root = dir(
        b"cgroup",
        vec![dir(
            b"a.slice",
            vec![file(b"cpu.pressure", b"full avg10=1.00 avg60=0.50 avg300=0.25 total=42\n")],
        )],
    );
    let entries = aggregate(&locate(&root)).unwrap();
    assert!(entries[0].measurements.cpu.some_rec.is_none());
    let out = build_snapshot(&entries, true, true);
    assert!(out.iter().all(|s| s.kind == PsiLine::FullTasks));
    let expected = vec![
        (MetricName::TotalSeconds, b"/a.slice".to_vec(), Controller::Cpu, PsiLine::FullTasks, 42u64),
        (MetricName::Avg10Ratio, b"/a.slice".to_vec(), Controller::Cpu, PsiLine::FullTasks, 10000),
        (MetricName::Avg60Ratio, b"/a.slice".to_vec(), Controller::Cpu, PsiLine::FullTasks, 5000),
        (MetricName::Avg300Ratio, b"/a.slice".to_vec(), Controller::Cpu, PsiLine::FullTasks, 2500),
    ];
    let got: Vec<_> = out.iter().map(sample_tuple).collect();
    assert_eq!(got, expected);
}

#[test]
fn end_to_end_example() {
    // A mountpoint with /a.slice/cpu.pressure under default policies: the
    // `some` values are 0.5 s and ratios 0.05 / 0.02 / 0.01 (here in
    // millionths), the `full` values are all zero but still reported.
    let root = dir(b"cgroup", vec![dir(b"a.slice", vec![file(b"cpu.pressure", SOME_FULL)])]);
    let cands = locate(&root);
    let entries = aggregate(&cands).unwrap();
    let out = build_snapshot(&entries, true, true);
    let svc = b"/a.slice".to_vec();
    let expected = vec![
        (MetricName::TotalSeconds, svc.clone(), Controller::Cpu, PsiLine::SomeTasks, 500000u64),
        (MetricName::Avg10Ratio, svc.clone(), Controller::Cpu, PsiLine::SomeTasks, 50000),
        (MetricName::Avg60Ratio, svc.clone(), Controller::Cpu, PsiLine::SomeTasks, 20000),
        (MetricName::Avg300Ratio, svc.clone(), Controller::Cpu, PsiLine::SomeTasks, 10000),
        (MetricName::TotalSeconds, svc.clone(), Controller::Cpu, PsiLine::FullTasks, 0),
        (MetricName::Avg10Ratio, svc.clone(), Controller::Cpu, PsiLine::FullTasks, 0),
        (MetricName::Avg60Ratio, svc.clone(), Controller::Cpu, PsiLine::FullTasks, 0),
        (MetricName::Avg300Ratio, svc.clone(), Controller::Cpu, PsiLine::FullTasks, 0),
    ];
    let got: Vec<_> = out.iter().map(sample_tuple).collect();
    assert_eq!(got, expected);
}

#[test]
fn last_line_of_a_kind_wins() {
    let content = b"some avg10=1.00 avg60=1.00 avg300=1.00 total=1\nsome avg10=2.00 avg60=2.00 avg300=2.00 total=2\n";
    let root = dir(b"cgroup", vec![dir(b"a.slice", vec![file(b"cpu.pressure", content)])]);
    let entries = aggregate(&locate(&root)).unwrap();
    let rec = entries[0].measurements.cpu.some_rec.unwrap();
    assert_eq!(rec.total, 2);
    assert!(entries[0].measurements.cpu.full_rec.is_none());
}

#[test]
fn scrape_whole_tree() {
    let root = dir(b"cgroup", vec![dir(b"a.slice", vec![file(b"cpu.pressure", SOME_FULL)])]);
    let samples = psi_exporter::snapshot::scrape(&root, true, true).unwrap();
    assert_eq!(samples.len(), 8);
    assert_eq!(samples[0].name, MetricName::TotalSeconds);
    assert_eq!(samples[0].value_millionths, 500000);

    let bad = dir(b"cgroup", vec![dir(b"a.slice", vec![file(b"cpu.pressure", b"nonsense")])]);
    assert!(psi_exporter::snapshot::scrape(&bad, true, true).is_err());
}
