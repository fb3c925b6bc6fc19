//! Merging parsed pressure records into one structure per service.
//!
//! Each candidate file is parsed line by line; a `some` line fills the
//! `some` slot, a `full` line the `full` slot (the last line of a kind
//! wins). The resulting per-controller stats are routed into the entry of
//! the candidate's service, which is created on first encounter; an unknown
//! controller name leaves the entry untouched. A candidate without content
//! (unreadable at read time) is skipped; a malformed line fails the whole
//! aggregation.

use vstd::prelude::*;

use crate::locate::Candidate;
use crate::locate::CandidateView;
use crate::locate::cand_views;
use crate::parse::ParseError;
use crate::parse::PsiLine;
use crate::parse::PsiRecord;
use crate::parse::parse_psi_line;
use crate::parse::spec_parse_line;
use crate::parse::lemma_spec_parse_valid;

verus! {

/// The two pressure kinds of one controller file, as far as its lines gave
/// them.
#[derive(Clone, Copy, Debug)]
pub struct PsiStats {
    pub some_rec: Option<PsiRecord>,
    pub full_rec: Option<PsiRecord>,
}

/// The three controllers of one service.
#[derive(Clone, Copy, Debug)]
pub struct PsiMeasurements {
    pub cpu: PsiStats,
    pub memory: PsiStats,
    pub io: PsiStats,
}

pub open spec fn empty_stats() -> PsiStats {
    PsiStats { some_rec: None, full_rec: None }
}

pub open spec fn empty_measurements() -> PsiMeasurements {
    PsiMeasurements { cpu: empty_stats(), memory: empty_stats(), io: empty_stats() }
}

/// One service with its measurements.
pub struct ServiceEntry {
    pub service: Vec<u8>,
    pub measurements: PsiMeasurements,
}

/// The mathematical image of a service entry.
pub struct EntryView {
    pub service: Seq<u8>,
    pub measurements: PsiMeasurements,
}

impl View for ServiceEntry {
    type V = EntryView;

    open spec fn view(&self) -> EntryView {
        EntryView { service: self.service@, measurements: self.measurements }
    }
}

pub open spec fn entry_views(s: Seq<ServiceEntry>) -> Seq<EntryView> {
    s.map_values(|e: ServiceEntry| e@)
}

/// The records a stats bundle may hold: averages within 100.00.
pub open spec fn stats_valid(st: PsiStats) -> bool {
    (st.some_rec matches Some(rec) ==> rec.valid()) && (st.full_rec matches Some(rec)
        ==> rec.valid())
}

/// All records an entry list holds stay within the averages' bounds.
pub open spec fn entries_valid(es: Seq<EntryView>) -> bool {
    forall|i: int|
        0 <= i < es.len() ==> stats_valid(#[trigger] es[i].measurements.cpu) && stats_valid(
            es[i].measurements.memory,
        ) && stats_valid(es[i].measurements.io)
}

/// No two entries name the same service.
pub open spec fn distinct_services(es: Seq<EntryView>) -> bool {
    forall|i: int, j: int| 0 <= i < j < es.len() ==> es[i].service != es[j].service
}

// --- splitting a file into lines -------------------------------------------

/// Index of the first line feed in `s`, or `s.len()` if there is none.
pub open spec fn nl_pos(s: Seq<u8>) -> int
    decreases s.len(),
{
    if s.len() == 0 {
        0
    } else if s[0] == 10 {
        0
    } else {
        1 + nl_pos(s.skip(1))
    }
}

pub proof fn lemma_nl_pos_le(s: Seq<u8>)
    ensures
        0 <= nl_pos(s) <= s.len(),
    decreases s.len(),
{
    if s.len() != 0 && s[0] != 10 {
        lemma_nl_pos_le(s.skip(1));
    }
}

/// The lines of a file: separated by line feeds, a final line feed ends the
/// last line rather than opening an empty one.
pub open spec fn spec_lines(s: Seq<u8>) -> Seq<Seq<u8>>
    decreases s.len(),
    via spec_lines_decreases
{
    if s.len() == 0 {
        Seq::empty()
    } else {
        let p = nl_pos(s);
        if p == s.len() {
            seq![s]
        } else {
            seq![s.take(p)] + spec_lines(s.skip(p + 1))
        }
    }
}

#[via_fn]
proof fn spec_lines_decreases(s: Seq<u8>) {
    lemma_nl_pos_le(s);
}

/// Finds the first line feed in `t[from..to]`.
fn find_nl(t: &[u8], from: usize, to: usize) -> (r: usize)
    requires
        from <= to <= t@.len(),
    ensures
        from <= r <= to,
        r - from == nl_pos(t@.subrange(from as int, to as int)),
    decreases to - from,
{
    if from == to {
        return from;
    }
    if t[from] == 10 {
        from
    } else {
        proof {
            assert(t@.subrange(from as int, to as int).skip(1) =~= t@.subrange(
                from + 1,
                to as int,
            ));
        }
        find_nl(t, from + 1, to)
    }
}

// --- one file ----------------------------------------------------------------

/// Where a parsed record lands in the file's stats: by its own kind token.
pub open spec fn route(st: PsiStats, rec: PsiRecord) -> PsiStats {
    match rec.line {
        PsiLine::SomeTasks => PsiStats { some_rec: Some(rec), ..st },
        PsiLine::FullTasks => PsiStats { full_rec: Some(rec), ..st },
    }
}

/// Folds the lines `ls[i..]` into the stats; the first malformed line is
/// the whole file's error.
pub open spec fn fold_lines(st: PsiStats, ls: Seq<Seq<u8>>, i: int) -> Result<
    PsiStats,
    ParseError,
>
    decreases ls.len() - i,
{
    if i >= ls.len() {
        Ok(st)
    } else {
        match spec_parse_line(ls[i]) {
            Ok(rec) => fold_lines(route(st, rec), ls, i + 1),
            Err(e) => Err(e),
        }
    }
}

/// What parsing one pressure file's content yields.
pub open spec fn spec_parse_content(s: Seq<u8>) -> Result<PsiStats, ParseError> {
    fold_lines(empty_stats(), spec_lines(s), 0)
}

fn copy_range(t: &[u8], from: usize, to: usize) -> (v: Vec<u8>)
    requires
        from <= to <= t@.len(),
    ensures
        v@ == t@.subrange(from as int, to as int),
{
    let mut v: Vec<u8> = Vec::new();
    let mut k = from;
    while k < to
        invariant
            from <= k <= to <= t@.len(),
            v@ == t@.subrange(from as int, k as int),
        decreases to - k,
    {
        v.push(t[k]);
        assert(v@ =~= t@.subrange(from as int, k + 1));
        k = k + 1;
    }
    v
}

/// Parses the full content of one pressure file into its two kinds.
///
/// Returns exactly what `spec_parse_content` names: the last `some` and
/// `full` lines win, any malformed line is an error.
pub fn parse_content(content: &[u8]) -> (r: Result<PsiStats, ParseError>)
    ensures
        r == spec_parse_content(content@),
{
    let ghost ls = spec_lines(content@);
    let mut st = PsiStats { some_rec: None, full_rec: None };
    let mut pos: usize = 0;
    let ghost mut idx: int = 0;
    proof {
        assert(content@.subrange(0, content@.len() as int) =~= content@);
        assert(ls.skip(0) =~= ls);
    }
    while pos < content.len()
        invariant
            pos <= content@.len(),
            0 <= idx <= ls.len(),
            ls == spec_lines(content@),
            pos < content@.len() ==> spec_lines(content@.subrange(pos as int, content@.len() as int)) == ls.skip(idx),
            pos == content@.len() ==> idx == ls.len(),
            fold_lines(empty_stats(), ls, 0) == fold_lines(st, ls, idx),
        decreases content@.len() - pos,
    {
        proof {
            assert(content@.subrange(0, content@.len() as int) =~= content@);
        }
        let nl = find_nl(content, pos, content.len());
        let ghost rest = content@.subrange(pos as int, content@.len() as int);
        proof {
            lemma_nl_pos_le(rest);
            assert(rest.take(nl - pos) =~= content@.subrange(pos as int, nl as int));
            if nl < content@.len() {
                assert(rest.skip(nl - pos + 1) =~= content@.subrange(
                    nl + 1,
                    content@.len() as int,
                ));
            }
            assert(ls.skip(idx)[0] == ls[idx]);
            assert(ls.skip(idx).skip(1) =~= ls.skip(idx + 1));
        }
        let line = copy_range(content, pos, nl);
        match parse_psi_line(line.as_slice()) {
            Ok(rec) => {
                st = if rec.line == PsiLine::SomeTasks {
                    PsiStats { some_rec: Some(rec), ..st }
                } else {
                    PsiStats { full_rec: Some(rec), ..st }
                };
            },
            Err(_) => {
                return Err(ParseError);
            },
        }
        if nl == content.len() {
            pos = content.len();
            proof {
                assert(ls.skip(idx).len() == 1);
                idx = idx + 1;
            }
        } else {
            proof {
                assert(spec_lines(rest) == seq![rest.take(nl - pos)] + spec_lines(
                    rest.skip(nl - pos + 1),
                ));
            }
            pos = nl + 1;
            proof {
                idx = idx + 1;
                assert(spec_lines(content@.subrange(pos as int, content@.len() as int))
                    == ls.skip(idx));
                if pos == content@.len() {
                    assert(content@.subrange(pos as int, content@.len() as int).len() == 0);
                    assert(ls.skip(idx).len() == 0);
                }
            }
        }
    }
    proof {
        assert(fold_lines(st, ls, idx) == Ok::<PsiStats, ParseError>(st));
    }
    Ok(st)
}


// --- the service map ---------------------------------------------------------

/// The bytes of `cpu`.
pub open spec fn ctrl_cpu() -> Seq<u8> {
    seq![99u8, 112, 117]
}

/// The bytes of `memory`.
pub open spec fn ctrl_memory() -> Seq<u8> {
    seq![109u8, 101, 109, 111, 114, 121]
}

/// The bytes of `io`.
pub open spec fn ctrl_io() -> Seq<u8> {
    seq![105u8, 111]
}

/// Routes one file's stats into the named controller; any other name is
/// dropped without effect.
pub open spec fn set_controller(m: PsiMeasurements, controller: Seq<u8>, st: PsiStats) -> PsiMeasurements {
    if controller == ctrl_cpu() {
        PsiMeasurements { cpu: st, ..m }
    } else if controller == ctrl_memory() {
        PsiMeasurements { memory: st, ..m }
    } else if controller == ctrl_io() {
        PsiMeasurements { io: st, ..m }
    } else {
        m
    }
}

/// Index of the entry of `service`, or `es.len()` if there is none.
pub open spec fn find_service(es: Seq<EntryView>, service: Seq<u8>) -> int
    decreases es.len(),
{
    if es.len() == 0 {
        0
    } else if es[0].service == service {
        0
    } else {
        1 + find_service(es.skip(1), service)
    }
}

pub proof fn lemma_find_service(es: Seq<EntryView>, service: Seq<u8>)
    ensures
        0 <= find_service(es, service) <= es.len(),
        find_service(es, service) < es.len() ==> es[find_service(es, service)].service
            == service,
        forall|j: int|
            0 <= j < find_service(es, service) ==> (#[trigger] es[j]).service != service,
    decreases es.len(),
{
    if es.len() != 0 && es[0].service != service {
        lemma_find_service(es.skip(1), service);
        assert forall|j: int| 0 <= j < find_service(es, service) implies (#[trigger] es[j]).service
            != service by {
            if j > 0 {
                assert(es.skip(1)[j - 1] == es[j]);
            }
        }
    }
}

/// What one candidate file does to the entry list: the entry of its
/// service is created on first encounter, then its controller slot is set.
pub open spec fn upsert(es: Seq<EntryView>, service: Seq<u8>, controller: Seq<u8>, st: PsiStats) -> Seq<EntryView> {
    let i = find_service(es, service);
    if i == es.len() {
        es + seq![
            EntryView {
                service: service,
                measurements: set_controller(empty_measurements(), controller, st),
            },
        ]
    } else {
        es.update(
            i,
            EntryView {
                service: service,
                measurements: set_controller(es[i].measurements, controller, st),
            },
        )
    }
}

/// Folds the candidates `cs[i..]` into the entry list.
pub open spec fn spec_aggregate_from(es: Seq<EntryView>, cs: Seq<CandidateView>, i: int) -> Result<
    Seq<EntryView>,
    ParseError,
>
    decreases cs.len() - i,
{
    if i >= cs.len() {
        Ok(es)
    } else {
        let c = cs[i];
        if c.content is Some {
            match spec_parse_content(c.content->0) {
                Ok(st) => spec_aggregate_from(
                    upsert(es, c.service, c.controller, st),
                    cs,
                    i + 1,
                ),
                Err(e) => Err(e),
            }
        } else {
            spec_aggregate_from(es, cs, i + 1)
        }
    }
}

/// What aggregating a candidate list yields: one entry per distinct
/// service, in order of first encounter, or the first file's parse error.
pub open spec fn spec_aggregate(cs: Seq<CandidateView>) -> Result<Seq<EntryView>, ParseError> {
    spec_aggregate_from(Seq::empty(), cs, 0)
}

/// Whether two byte strings are equal.
pub fn bytes_equal(a: &[u8], b: &[u8]) -> (r: bool)
    ensures
        r == (a@ == b@),
{
    if a.len() != b.len() {
        assert(a@ != b@);
        return false;
    }
    let n = a.len();
    let mut k: usize = 0;
    while k < n
        invariant
            n == a@.len() == b@.len(),
            k <= n,
            forall|m: int| 0 <= m < k ==> a@[m] == b@[m],
        decreases n - k,
    {
        if a[k] != b[k] {
            return false;
        }
        k = k + 1;
    }
    assert(a@ =~= b@);
    true
}

fn ctrl_cpu_bytes() -> (v: Vec<u8>)
    ensures
        v@ == ctrl_cpu(),
{
    let mut v: Vec<u8> = Vec::new();
    v.push(99);
    v.push(112);
    v.push(117);
    assert(v@ =~= ctrl_cpu());
    v
}

fn ctrl_memory_bytes() -> (v: Vec<u8>)
    ensures
        v@ == ctrl_memory(),
{
    let mut v: Vec<u8> = Vec::new();
    v.push(109);
    v.push(101);
    v.push(109);
    v.push(111);
    v.push(114);
    v.push(121);
    assert(v@ =~= ctrl_memory());
    v
}

fn ctrl_io_bytes() -> (v: Vec<u8>)
    ensures
        v@ == ctrl_io(),
{
    let mut v: Vec<u8> = Vec::new();
    v.push(105);
    v.push(111);
    assert(v@ =~= ctrl_io());
    v
}

/// Applies one candidate's stats to the entry list.
fn upsert_entry(es: &mut Vec<ServiceEntry>, service: &Vec<u8>, controller: &Vec<u8>, st: PsiStats)
    ensures
        entry_views(final(es)@) == upsert(entry_views(old(es)@), service@, controller@, st),
{
    let ghost evs = entry_views(old(es)@);
    proof {
        lemma_find_service(evs, service@);
    }
    let n = es.len();
    let mut k: usize = 0;
    let mut found = false;
    while k < n && !found
        invariant
            n == es@.len(),
            k <= n,
            evs == entry_views(es@),
            forall|j: int| 0 <= j < k ==> (#[trigger] evs[j]).service != service@,
            found ==> (k < n && evs[k as int].service == service@),
        decreases n - k, (if found { 0int } else { 1int }),
    {
        if bytes_equal(es[k].service.as_slice(), service.as_slice()) {
            found = true;
        } else {
            k = k + 1;
        }
    }
    if found {
        proof {
            lemma_find_service_at(evs, service@, k as int);
        }
        let mut m = es[k].measurements;
        set_controller_exec(&mut m, controller, st);
        es[k].measurements = m;
        assert(entry_views(es@) =~= upsert(evs, service@, controller@, st));
    } else {
        proof {
            lemma_find_service_at(evs, service@, n as int);
        }
        let mut m = PsiMeasurements {
            cpu: PsiStats { some_rec: None, full_rec: None },
            memory: PsiStats { some_rec: None, full_rec: None },
            io: PsiStats { some_rec: None, full_rec: None },
        };
        set_controller_exec(&mut m, controller, st);
        es.push(ServiceEntry { service: service.clone(), measurements: m });
        assert(entry_views(es@) =~= upsert(evs, service@, controller@, st));
    }
}

/// `find_service` is the first index whose service matches, or the length.
pub proof fn lemma_find_service_at(es: Seq<EntryView>, service: Seq<u8>, k: int)
    requires
        0 <= k <= es.len(),
        forall|j: int| 0 <= j < k ==> (#[trigger] es[j]).service != service,
        k < es.len() ==> es[k].service == service,
    ensures
        find_service(es, service) == k,
    decreases es.len(),
{
    if es.len() != 0 {
        if k == 0 {
            if es.len() > 0 && es[0].service != service {
                // k == 0 < es.len() forces a match at 0
            }
        } else {
            assert(es[0].service != service);
            assert forall|j: int| 0 <= j < k - 1 implies (#[trigger] es.skip(1)[j]).service
                != service by {
                assert(es.skip(1)[j] == es[j + 1]);
            }
            assert(k - 1 < es.skip(1).len() ==> es.skip(1)[k - 1].service == service);
            lemma_find_service_at(es.skip(1), service, k - 1);
        }
    }
}

/// Sets the named controller slot; an unknown name changes nothing.
fn set_controller_exec(m: &mut PsiMeasurements, controller: &Vec<u8>, st: PsiStats)
    ensures
        *final(m) == set_controller(*old(m), controller@, st),
{
    let cpu = ctrl_cpu_bytes();
    let mem = ctrl_memory_bytes();
    let io = ctrl_io_bytes();
    if bytes_equal(controller.as_slice(), cpu.as_slice()) {
        m.cpu = st;
    } else if bytes_equal(controller.as_slice(), mem.as_slice()) {
        m.memory = st;
    } else if bytes_equal(controller.as_slice(), io.as_slice()) {
        m.io = st;
    }
}

/// Aggregates located candidates into one entry per service.
///
/// `Ok` holds exactly `spec_aggregate` of the candidates: entries in order
/// of first encounter, each service once; `Err` comes exactly when some
/// readable candidate holds a malformed line.
pub fn aggregate(cands: &Vec<Candidate>) -> (r: Result<Vec<ServiceEntry>, ParseError>)
    ensures
        r matches Ok(es) ==> (spec_aggregate(cand_views(cands@)) matches Ok(evs) && entry_views(
            es@,
        ) == evs),
        r is Err <==> spec_aggregate(cand_views(cands@)) is Err,
{
    let ghost cvs = cand_views(cands@);
    let mut es: Vec<ServiceEntry> = Vec::new();
    let mut i: usize = 0;
    proof {
        assert(entry_views(es@) =~= Seq::<EntryView>::empty());
    }
    while i < cands.len()
        invariant
            i <= cands@.len(),
            cvs == cand_views(cands@),
            spec_aggregate(cvs) == spec_aggregate_from(entry_views(es@), cvs, i as int),
        decreases cands@.len() - i,
    {
        proof {
            assert(cvs[i as int] == cands@[i as int]@);
        }
        let c = &cands[i];
        match &c.content {
            Some(content) => {
                match parse_content(content.as_slice()) {
                    Ok(st) => {
                        upsert_entry(&mut es, &c.service, &c.controller, st);
                    },
                    Err(_) => {
                        return Err(ParseError);
                    },
                }
            },
            None => {},
        }
        i = i + 1;
    }
    Ok(es)
}

/// Law: aggregation keeps services distinct — every service that was
/// encountered has exactly one entry, so two services never share one.
pub proof fn lemma_aggregate_distinct(cs: Seq<CandidateView>)
    ensures
        spec_aggregate(cs) matches Ok(es) ==> distinct_services(es),
{
    lemma_aggregate_from_distinct(Seq::empty(), cs, 0);
}

proof fn lemma_upsert_distinct(es: Seq<EntryView>, service: Seq<u8>, controller: Seq<u8>, st: PsiStats)
    requires
        distinct_services(es),
    ensures
        distinct_services(upsert(es, service, controller, st)),
{
    lemma_find_service(es, service);
    let i = find_service(es, service);
    let r = upsert(es, service, controller, st);
    if i == es.len() {
        assert forall|a: int, b: int| 0 <= a < b < r.len() implies r[a].service != r[b].service by {
            if b == es.len() {
                assert(r[a] == es[a]);
                assert(r[b].service == service);
            } else {
                assert(r[a] == es[a] && r[b] == es[b]);
            }
        }
    } else {
        assert forall|a: int, b: int| 0 <= a < b < r.len() implies r[a].service != r[b].service by {
            assert(r[a].service == es[a].service);
            assert(r[b].service == es[b].service);
        }
    }
}

proof fn lemma_aggregate_from_distinct(es: Seq<EntryView>, cs: Seq<CandidateView>, i: int)
    requires
        distinct_services(es),
    ensures
        spec_aggregate_from(es, cs, i) matches Ok(out) ==> distinct_services(out),
    decreases cs.len() - i,
{
    if i < cs.len() {
        let c = cs[i];
        if c.content is Some {
            match spec_parse_content(c.content->0) {
                Ok(st) => {
                    lemma_upsert_distinct(es, c.service, c.controller, st);
                    lemma_aggregate_from_distinct(
                        upsert(es, c.service, c.controller, st),
                        cs,
                        i + 1,
                    );
                },
                Err(_) => {},
            }
        } else {
            lemma_aggregate_from_distinct(es, cs, i + 1);
        }
    }
}


/// Folding well-formed lines keeps the stats valid.
proof fn lemma_fold_lines_valid(st: PsiStats, ls: Seq<Seq<u8>>, i: int)
    requires
        stats_valid(st),
    ensures
        fold_lines(st, ls, i) matches Ok(out) ==> stats_valid(out),
    decreases ls.len() - i,
{
    if i < ls.len() {
        match spec_parse_line(ls[i]) {
            Ok(rec) => {
                lemma_spec_parse_valid(ls[i]);
                lemma_fold_lines_valid(route(st, rec), ls, i + 1);
            },
            Err(_) => {},
        }
    }
}

/// Whatever a file parses to is valid.
pub proof fn lemma_parse_content_valid(s: Seq<u8>)
    ensures
        spec_parse_content(s) matches Ok(st) ==> stats_valid(st),
{
    lemma_fold_lines_valid(empty_stats(), spec_lines(s), 0);
}

proof fn lemma_upsert_valid(es: Seq<EntryView>, service: Seq<u8>, controller: Seq<u8>, st: PsiStats)
    requires
        entries_valid(es),
        stats_valid(st),
    ensures
        entries_valid(upsert(es, service, controller, st)),
{
    lemma_find_service(es, service);
    let r = upsert(es, service, controller, st);
    assert forall|i: int|
        0 <= i < r.len() implies stats_valid(#[trigger] r[i].measurements.cpu) && stats_valid(
        r[i].measurements.memory,
    ) && stats_valid(r[i].measurements.io) by {
        if i < es.len() && r[i] != es[i] {
            assert(stats_valid(es[i].measurements.cpu));
        } else if i < es.len() {
            assert(stats_valid(es[i].measurements.cpu));
        }
    }
}

proof fn lemma_aggregate_from_valid(es: Seq<EntryView>, cs: Seq<CandidateView>, i: int)
    requires
        entries_valid(es),
    ensures
        spec_aggregate_from(es, cs, i) matches Ok(out) ==> entries_valid(out),
    decreases cs.len() - i,
{
    if i < cs.len() {
        let c = cs[i];
        if c.content is Some {
            match spec_parse_content(c.content->0) {
                Ok(st) => {
                    lemma_parse_content_valid(c.content->0);
                    lemma_upsert_valid(es, c.service, c.controller, st);
                    lemma_aggregate_from_valid(upsert(es, c.service, c.controller, st), cs, i + 1);
                },
                Err(_) => {},
            }
        } else {
            lemma_aggregate_from_valid(es, cs, i + 1);
        }
    }
}

/// Law: everything aggregation yields is within the averages' bounds, so
/// the snapshot builder can always take it.
pub proof fn lemma_aggregate_valid(cs: Seq<CandidateView>)
    ensures
        spec_aggregate(cs) matches Ok(es) ==> entries_valid(es),
{
    lemma_aggregate_from_valid(Seq::empty(), cs, 0);
}

} // verus!
