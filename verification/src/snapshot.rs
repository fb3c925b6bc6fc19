//! Turning aggregated measurements into a metric sample list.
//!
//! Four metrics are emitted, each labelled with the service id, the
//! controller and the pressure kind. The cumulative counter carries the
//! stall time; the three gauges carry the kernel's moving averages as
//! ratios. All values are integers in millionths: the counter's value is
//! the stall time in microseconds (so millionths of a second), a gauge's
//! value is the ratio scaled by one million. Two policies thin the output:
//! with `report_avg` false no gauge is emitted at all, and with
//! `report_zeros` false any single sample whose value is exactly zero is
//! left out. A kind whose record is absent yields nothing, zero or
//! otherwise.

use vstd::prelude::*;

use crate::aggregate::EntryView;
use crate::aggregate::PsiStats;
use crate::aggregate::ServiceEntry;
use crate::aggregate::entry_views;
use crate::aggregate::aggregate;
use crate::aggregate::spec_aggregate;
use crate::locate::FsTree;
use crate::locate::locate;
use crate::locate::spec_locate;
use crate::parse::ParseError;
use crate::parse::PsiLine;
use crate::parse::PsiRecord;

verus! {

/// The four metric names.
#[derive(Clone, Copy, Debug, PartialEq, Eq, Structural)]
pub enum MetricName {
    TotalSeconds,
    Avg10Ratio,
    Avg60Ratio,
    Avg300Ratio,
}

/// The three controllers a service reports.
#[derive(Clone, Copy, Debug, PartialEq, Eq, Structural)]
pub enum Controller {
    Cpu,
    Memory,
    Io,
}

/// One metric sample: a name, the three labels, and the value in
/// millionths (of a second for the counter, of the ratio for the gauges).
pub struct Sample {
    pub name: MetricName,
    pub service: Vec<u8>,
    pub controller: Controller,
    pub kind: PsiLine,
    pub value_millionths: u64,
}

/// The mathematical image of a sample.
pub struct SampleView {
    pub name: MetricName,
    pub service: Seq<u8>,
    pub controller: Controller,
    pub kind: PsiLine,
    pub value_millionths: u64,
}

impl View for Sample {
    type V = SampleView;

    open spec fn view(&self) -> SampleView {
        SampleView {
            name: self.name,
            service: self.service@,
            controller: self.controller,
            kind: self.kind,
            value_millionths: self.value_millionths,
        }
    }
}

pub open spec fn sample_views(s: Seq<Sample>) -> Seq<SampleView> {
    s.map_values(|x: Sample| x@)
}

pub open spec fn mk_sample(
    name: MetricName,
    service: Seq<u8>,
    controller: Controller,
    kind: PsiLine,
    value: u64,
) -> SampleView {
    SampleView {
        name: name,
        service: service,
        controller: controller,
        kind: kind,
        value_millionths: value,
    }
}

/// The samples of one record: the counter, suppressed only when zeros are
/// silenced and the stall time is zero; then each gauge, present only when
/// averages are reported at all, each suppressed on zero independently.
pub open spec fn rec_samples(
    service: Seq<u8>,
    controller: Controller,
    kind: PsiLine,
    rec: PsiRecord,
    report_avg: bool,
    report_zeros: bool,
) -> Seq<SampleView> {
    (if report_zeros || rec.total > 0 {
        seq![mk_sample(MetricName::TotalSeconds, service, controller, kind, rec.total)]
    } else {
        Seq::empty()
    }) + (if report_avg && (report_zeros || rec.avg10 > 0) {
        seq![
            mk_sample(
                MetricName::Avg10Ratio,
                service,
                controller,
                kind,
                (rec.avg10 * 100) as u64,
            ),
        ]
    } else {
        Seq::empty()
    }) + (if report_avg && (report_zeros || rec.avg60 > 0) {
        seq![
            mk_sample(
                MetricName::Avg60Ratio,
                service,
                controller,
                kind,
                (rec.avg60 * 100) as u64,
            ),
        ]
    } else {
        Seq::empty()
    }) + (if report_avg && (report_zeros || rec.avg300 > 0) {
        seq![
            mk_sample(
                MetricName::Avg300Ratio,
                service,
                controller,
                kind,
                (rec.avg300 * 100) as u64,
            ),
        ]
    } else {
        Seq::empty()
    })
}

/// The samples of one controller: the `some` kind, then the `full` kind;
/// an absent kind yields nothing at all.
pub open spec fn stats_samples(
    service: Seq<u8>,
    controller: Controller,
    st: PsiStats,
    report_avg: bool,
    report_zeros: bool,
) -> Seq<SampleView> {
    (match st.some_rec {
        Some(rec) => rec_samples(
            service,
            controller,
            PsiLine::SomeTasks,
            rec,
            report_avg,
            report_zeros,
        ),
        None => Seq::empty(),
    }) + (match st.full_rec {
        Some(rec) => rec_samples(
            service,
            controller,
            PsiLine::FullTasks,
            rec,
            report_avg,
            report_zeros,
        ),
        None => Seq::empty(),
    })
}

/// The samples of one service: cpu, then memory, then io.
pub open spec fn service_samples(e: EntryView, report_avg: bool, report_zeros: bool) -> Seq<
    SampleView,
> {
    stats_samples(e.service, Controller::Cpu, e.measurements.cpu, report_avg, report_zeros)
        + stats_samples(
        e.service,
        Controller::Memory,
        e.measurements.memory,
        report_avg,
        report_zeros,
    ) + stats_samples(e.service, Controller::Io, e.measurements.io, report_avg, report_zeros)
}

/// The whole snapshot: the services' samples in entry order.
pub open spec fn spec_snapshot_from(
    es: Seq<EntryView>,
    i: int,
    report_avg: bool,
    report_zeros: bool,
) -> Seq<SampleView>
    decreases es.len() - i,
{
    if i < 0 || i >= es.len() {
        Seq::empty()
    } else {
        service_samples(es[i], report_avg, report_zeros) + spec_snapshot_from(
            es,
            i + 1,
            report_avg,
            report_zeros,
        )
    }
}

pub open spec fn spec_snapshot(es: Seq<EntryView>, report_avg: bool, report_zeros: bool) -> Seq<
    SampleView,
> {
    spec_snapshot_from(es, 0, report_avg, report_zeros)
}

/// Appends the samples of one kind's record, honoring both policies.
fn push_rec_samples(
    out: &mut Vec<Sample>,
    service: &Vec<u8>,
    controller: Controller,
    kind: PsiLine,
    rec: &PsiRecord,
    report_avg: bool,
    report_zeros: bool,
)
    ensures
        sample_views(final(out)@) == sample_views(old(out)@) + rec_samples(
            service@,
            controller,
            kind,
            *rec,
            report_avg,
            report_zeros,
        ),
{
    if report_zeros || rec.total > 0 {
        out.push(
            Sample {
                name: MetricName::TotalSeconds,
                service: service.clone(),
                controller: controller,
                kind: kind,
                value_millionths: rec.total,
            },
        );
    }
    if report_avg && (report_zeros || rec.avg10 > 0) {
        out.push(
            Sample {
                name: MetricName::Avg10Ratio,
                service: service.clone(),
                controller: controller,
                kind: kind,
                value_millionths: (rec.avg10 as u64) * 100,
            },
        );
    }
    if report_avg && (report_zeros || rec.avg60 > 0) {
        out.push(
            Sample {
                name: MetricName::Avg60Ratio,
                service: service.clone(),
                controller: controller,
                kind: kind,
                value_millionths: (rec.avg60 as u64) * 100,
            },
        );
    }
    if report_avg && (report_zeros || rec.avg300 > 0) {
        out.push(
            Sample {
                name: MetricName::Avg300Ratio,
                service: service.clone(),
                controller: controller,
                kind: kind,
                value_millionths: (rec.avg300 as u64) * 100,
            },
        );
    }
    assert(sample_views(out@) =~= sample_views(old(out)@) + rec_samples(
        service@,
        controller,
        kind,
        *rec,
        report_avg,
        report_zeros,
    ));
}

/// Appends the samples of one controller's stats.
fn push_stats_samples(
    out: &mut Vec<Sample>,
    service: &Vec<u8>,
    controller: Controller,
    st: &PsiStats,
    report_avg: bool,
    report_zeros: bool,
)
    ensures
        sample_views(final(out)@) == sample_views(old(out)@) + stats_samples(
            service@,
            controller,
            *st,
            report_avg,
            report_zeros,
        ),
{
    match &st.some_rec {
        Some(rec) => {
            push_rec_samples(out, service, controller, PsiLine::SomeTasks, rec, report_avg, report_zeros);
        },
        None => {},
    }
    match &st.full_rec {
        Some(rec) => {
            push_rec_samples(out, service, controller, PsiLine::FullTasks, rec, report_avg, report_zeros);
        },
        None => {},
    }
    assert(sample_views(out@) =~= sample_views(old(out)@) + stats_samples(
        service@,
        controller,
        *st,
        report_avg,
        report_zeros,
    ));
}

/// Builds the snapshot of an aggregated entry list under the two policies.
///
/// The result is exactly `spec_snapshot` of the entries: per service and
/// controller the `some` then the `full` kind, per kind the counter and,
/// only if `report_avg`, the three gauges, each sample suppressed when
/// `report_zeros` is off and its value is zero.
#[verifier::rlimit(80)]
pub fn build_snapshot(
    entries: &Vec<ServiceEntry>,
    report_avg: bool,
    report_zeros: bool,
) -> (out: Vec<Sample>)
    ensures
        sample_views(out@) == spec_snapshot(entry_views(entries@), report_avg, report_zeros),
{
    let ghost evs = entry_views(entries@);
    let mut out: Vec<Sample> = Vec::new();
    let mut i: usize = 0;
    proof {
        assert(sample_views(out@) =~= Seq::<SampleView>::empty());
    }
    while i < entries.len()
        invariant
            i <= entries@.len(),
            evs == entry_views(entries@),
            sample_views(out@) + spec_snapshot_from(evs, i as int, report_avg, report_zeros)
                == spec_snapshot(evs, report_avg, report_zeros),
        decreases entries@.len() - i,
    {
        let e = &entries[i];
        proof {
            assert(evs[i as int] == e@);
        }
        let ghost p0 = sample_views(out@);
        let ghost c1 = stats_samples(e.service@, Controller::Cpu, e.measurements.cpu, report_avg, report_zeros);
        let ghost c2 = stats_samples(e.service@, Controller::Memory, e.measurements.memory, report_avg, report_zeros);
        let ghost c3 = stats_samples(e.service@, Controller::Io, e.measurements.io, report_avg, report_zeros);
        push_stats_samples(&mut out, &e.service, Controller::Cpu, &e.measurements.cpu, report_avg, report_zeros);
        push_stats_samples(&mut out, &e.service, Controller::Memory, &e.measurements.memory, report_avg, report_zeros);
        push_stats_samples(&mut out, &e.service, Controller::Io, &e.measurements.io, report_avg, report_zeros);
        proof {
            let rest = spec_snapshot_from(evs, i + 1, report_avg, report_zeros);
            assert(sample_views(out@) == ((p0 + c1) + c2) + c3);
            assert(service_samples(evs[i as int], report_avg, report_zeros) == (c1 + c2) + c3);
            assert(spec_snapshot_from(evs, i as int, report_avg, report_zeros) == ((c1 + c2)
                + c3) + rest);
            vstd::seq_lib::lemma_concat_associative(p0, (c1 + c2) + c3, rest);
            vstd::seq_lib::lemma_concat_associative(p0 + c1, c2, c3);
            vstd::seq_lib::lemma_concat_associative(p0, c1, c2);
            vstd::seq_lib::lemma_concat_associative(p0, c1 + c2, c3);
            assert((((p0 + c1) + c2) + c3) + rest == p0 + (((c1 + c2) + c3) + rest));
        }
        i = i + 1;
    }
    proof {
        assert(spec_snapshot_from(evs, i as int, report_avg, report_zeros) == Seq::<
            SampleView,
        >::empty());
        assert(sample_views(out@) =~= spec_snapshot(evs, report_avg, report_zeros));
    }
    out
}


/// One whole scrape: locates the pressure files of a mountpoint image,
/// aggregates them per service, and builds the snapshot under the two
/// policies. Fails exactly when some readable pressure file holds a
/// malformed line.
pub fn scrape(root: &FsTree, report_avg: bool, report_zeros: bool) -> (r: Result<
    Vec<Sample>,
    ParseError,
>)
    ensures
        r matches Ok(samples) ==> (spec_aggregate(spec_locate(*root)) matches Ok(es)
            && sample_views(samples@) == spec_snapshot(es, report_avg, report_zeros)),
        r is Err <==> spec_aggregate(spec_locate(*root)) is Err,
{
    let cands = locate(root);
    match aggregate(&cands) {
        Ok(entries) => Ok(build_snapshot(&entries, report_avg, report_zeros)),
        Err(e) => Err(e),
    }
}

/// Law: with `report_avg` off, the snapshot holds counter samples only —
/// no gauge series appears, whatever `report_zeros` says.
pub proof fn lemma_avg_suppression(es: Seq<EntryView>, report_zeros: bool)
    ensures
        forall|k: int|
            0 <= k < spec_snapshot(es, false, report_zeros).len() ==> (#[trigger] spec_snapshot(
                es,
                false,
                report_zeros,
            )[k]).name == MetricName::TotalSeconds,
{
    lemma_avg_suppression_from(es, 0, report_zeros);
}

proof fn lemma_rec_total_only(
    service: Seq<u8>,
    controller: Controller,
    kind: PsiLine,
    rec: PsiRecord,
    report_zeros: bool,
)
    ensures
        forall|k: int|
            0 <= k < rec_samples(service, controller, kind, rec, false, report_zeros).len()
                ==> (#[trigger] rec_samples(service, controller, kind, rec, false, report_zeros)[k]).name
                == MetricName::TotalSeconds,
{
}

proof fn lemma_stats_total_only(
    service: Seq<u8>,
    controller: Controller,
    st: PsiStats,
    report_zeros: bool,
)
    ensures
        forall|k: int|
            0 <= k < stats_samples(service, controller, st, false, report_zeros).len()
                ==> (#[trigger] stats_samples(service, controller, st, false, report_zeros)[k]).name
                == MetricName::TotalSeconds,
{
    if st.some_rec is Some {
        lemma_rec_total_only(service, controller, PsiLine::SomeTasks, st.some_rec->0, report_zeros);
    }
    if st.full_rec is Some {
        lemma_rec_total_only(service, controller, PsiLine::FullTasks, st.full_rec->0, report_zeros);
    }
}

proof fn lemma_service_total_only(e: EntryView, report_zeros: bool)
    ensures
        forall|k: int|
            0 <= k < service_samples(e, false, report_zeros).len() ==> (#[trigger] service_samples(
                e,
                false,
                report_zeros,
            )[k]).name == MetricName::TotalSeconds,
{
    lemma_stats_total_only(e.service, Controller::Cpu, e.measurements.cpu, report_zeros);
    lemma_stats_total_only(e.service, Controller::Memory, e.measurements.memory, report_zeros);
    lemma_stats_total_only(e.service, Controller::Io, e.measurements.io, report_zeros);
}

proof fn lemma_avg_suppression_from(es: Seq<EntryView>, i: int, report_zeros: bool)
    ensures
        forall|k: int|
            0 <= k < spec_snapshot_from(es, i, false, report_zeros).len()
                ==> (#[trigger] spec_snapshot_from(es, i, false, report_zeros)[k]).name
                == MetricName::TotalSeconds,
    decreases es.len() - i,
{
    if 0 <= i < es.len() {
        lemma_service_total_only(es[i], report_zeros);
        lemma_avg_suppression_from(es, i + 1, report_zeros);
    }
}

} // verus!
