//! Request metrics in the Prometheus text format: counters by route class and
//! status class, and a latency histogram for each route class.

use crate::log;
use crate::log::push_padded;
use crate::text;
use crate::text::{decimal_text, same_text, split_text};
use vstd::prelude::*;

verus! {

/// The route classes, a closed set: whatever paths clients send, the labels
/// stay bounded.
pub const ROUTES: [&'static str; 19] = [
    "retrieve",
    "ingest",
    "feedback",
    "touch",
    "match",
    "consolidate",
    "sleep",
    "checkpoint",
    "purge",
    "quarantine",
    "stats",
    "graph",
    "traces",
    "trace",
    "dbs",
    "db_admin",
    "health",
    "ui",
    "other",
];

/// The upper bounds of the histogram's buckets, in nanoseconds.
pub const BOUNDS: [u64; 11] = [
    1_000_000,
    5_000_000,
    10_000_000,
    25_000_000,
    50_000_000,
    100_000_000,
    250_000_000,
    500_000_000,
    1_000_000_000,
    2_500_000_000,
    5_000_000_000,
];

/// The same bounds as labels, in seconds.
pub const BOUND_LABELS: [&'static str; 11] = [
    "0.001",
    "0.005",
    "0.01",
    "0.025",
    "0.05",
    "0.1",
    "0.25",
    "0.5",
    "1",
    "2.5",
    "5",
];

pub const STATUS_CLASSES: [&'static str; 3] = ["2xx", "4xx", "5xx"];

/// A text without the occurrences of `c` that it begins with.
pub open spec fn without_leading(s: Seq<char>, c: char) -> Seq<char>
    decreases s.len(),
{
    if s.len() > 0 && s[0] == c {
        without_leading(s.drop_first(), c)
    } else {
        s
    }
}

/// The part of a path before its second slash.
pub open spec fn first_segment(path: Seq<char>) -> Seq<char> {
    text::split_char(without_leading(path, '/'), '/')[0]
}

/// The class that the first segment of a path asks for.
pub open spec fn asked_class(seg: Seq<char>) -> Seq<char> {
    if seg == ""@ {
        "db_admin"@
    } else if seg == "metrics"@ {
        "stats"@
    } else if seg == "live"@ || seg == "ready"@ {
        "health"@
    } else if seg == "db_admin"@ {
        "other"@
    } else {
        seg
    }
}

pub open spec fn is_class(name: Seq<char>) -> bool {
    exists|i: int| 0 <= i < 19 && #[trigger] ROUTES@[i]@ == name
}

/// The route class of a path; what is no class is "other".
pub open spec fn class_of(path: Seq<char>) -> Seq<char> {
    let name = asked_class(first_segment(path));
    if is_class(name) {
        name
    } else {
        "other"@
    }
}

/// No two route classes have the same name.
pub proof fn route_classes_are_distinct(i: int, j: int)
    requires
        0 <= i < j < 19,
    ensures
        ROUTES@[i]@ != ROUTES@[j]@,
{
    reveal_strlit("retrieve");
    reveal_strlit("ingest");
    reveal_strlit("feedback");
    reveal_strlit("touch");
    reveal_strlit("match");
    reveal_strlit("consolidate");
    reveal_strlit("sleep");
    reveal_strlit("checkpoint");
    reveal_strlit("purge");
    reveal_strlit("quarantine");
    reveal_strlit("stats");
    reveal_strlit("graph");
    reveal_strlit("traces");
    reveal_strlit("trace");
    reveal_strlit("dbs");
    reveal_strlit("db_admin");
    reveal_strlit("health");
    reveal_strlit("ui");
    reveal_strlit("other");
    let a = ROUTES@[i]@;
    let b = ROUTES@[j]@;
    assert(a.len() != b.len() || a[0] != b[0] || a[1] != b[1]);
}

fn leading_dropped(s: &str, c: char) -> (res: String)
    ensures
        res@ == without_leading(s@, c),
{
    let v = text::chars_of(s);
    let n: usize = v.len();
    let mut i: usize = 0;
    assert(v@.skip(0) =~= s@);
    while i < n && v[i] == c
        invariant
            i <= n,
            n == v@.len(),
            without_leading(v@.skip(i as int), c) == without_leading(s@, c),
        decreases n - i,
    {
        assert(v@.skip(i as int).drop_first() =~= v@.skip(i + 1));
        i += 1;
    }
    assert(v@.subrange(i as int, n as int) =~= v@.skip(i as int));
    text::text_of(&v, i, n)
}

/// The number of a path's route class.
pub fn classify(db_route: &str) -> (res: usize)
    ensures
        res < 19,
        ROUTES@[res as int]@ == class_of(db_route@),
{
    let rest = leading_dropped(db_route, '/');
    let segs = split_text(rest.as_str(), '/');
    proof {
        text::lemma_split_nonempty(rest@, text::equals('/'));
        assert(text::views(segs@)[0] == segs@[0]@);
    }
    let seg: &str = segs[0].as_str();
    let name: &str = if same_text(seg, "") {
        "db_admin"
    } else if same_text(seg, "metrics") {
        "stats"
    } else if same_text(seg, "live") || same_text(seg, "ready") {
        "health"
    } else if same_text(seg, "db_admin") {
        "other"
    } else {
        seg
    };
    let mut i: usize = 0;
    while i < 19
        invariant
            i <= 19,
            name@ == asked_class(first_segment(db_route@)),
            forall|j: int| 0 <= j < i ==> #[trigger] ROUTES@[j]@ != name@,
        decreases 19 - i,
    {
        if same_text(ROUTES[i], name) {
            return i;
        }
        i += 1;
    }
    18
}

pub open spec fn status_of(code: u16) -> int {
    if 200 <= code <= 399 {
        0
    } else if 400 <= code <= 499 {
        1
    } else {
        2
    }
}

fn status_class(code: u16) -> (res: usize)
    ensures
        res == status_of(code),
{
    if 200 <= code && code <= 399 {
        0
    } else if 400 <= code && code <= 499 {
        1
    } else {
        2
    }
}

/// The first bucket, from `i` on, that a latency falls into.
pub open spec fn bucket_from(nanos: u64, i: int) -> int
    decreases 11 - i,
{
    if i >= 11 {
        11
    } else if nanos <= BOUNDS@[i] {
        i
    } else {
        bucket_from(nanos, i + 1)
    }
}

/// A latency histogram: the last bucket has no upper bound.
pub struct HistV {
    pub buckets: Seq<u64>,
    pub sum_micros: u64,
    pub count: u64,
}

/// What is counted for one route class.
pub struct RouteV {
    pub statuses: Seq<u64>,
    pub hist: HistV,
}

pub open spec fn observed(h: HistV, nanos: u64) -> HistV {
    let b = bucket_from(nanos, 0);
    HistV {
        buckets: h.buckets.update(b, h.buckets[b].wrapping_add(1)),
        sum_micros: h.sum_micros.wrapping_add((nanos / 1000) as u64),
        count: h.count.wrapping_add(1),
    }
}

/// The metrics after one more request; a number past the last class counts for
/// the last class.
pub open spec fn recorded(m: Seq<RouteV>, route: int, status: u16, nanos: u64) -> Seq<RouteV> {
    let r = if route < 18 {
        route
    } else {
        18
    };
    let s = status_of(status);
    m.update(
        r,
        RouteV {
            statuses: m[r].statuses.update(s, m[r].statuses[s].wrapping_add(1)),
            hist: observed(m[r].hist, nanos),
        },
    )
}

struct Hist {
    buckets: Vec<u64>,
    sum_micros: u64,
    count: u64,
}

impl Hist {
    spec fn view(&self) -> HistV {
        HistV { buckets: self.buckets@, sum_micros: self.sum_micros, count: self.count }
    }

    spec fn wf(&self) -> bool {
        self.buckets@.len() == 12
    }

    fn new() -> (res: Self)
        ensures
            res.wf(),
            res.view() == (HistV { buckets: Seq::new(12, |i: int| 0u64), sum_micros: 0, count: 0 }),
    {
        let mut buckets: Vec<u64> = Vec::new();
        let mut i: usize = 0;
        while i < 12
            invariant
                i <= 12,
                buckets@ == Seq::new(i as nat, |i: int| 0u64),
            decreases 12 - i,
        {
            buckets.push(0);
            i += 1;
            assert(buckets@ =~= Seq::new(i as nat, |i: int| 0u64));
        }
        Hist { buckets, sum_micros: 0, count: 0 }
    }

    fn observe(&mut self, nanos: u64)
        requires
            old(self).wf(),
        ensures
            final(self).wf(),
            final(self).view() == observed(old(self).view(), nanos),
    {
        let mut i: usize = 0;
        while i < 11 && nanos > BOUNDS[i]
            invariant
                i <= 11,
                bucket_from(nanos, i as int) == bucket_from(nanos, 0),
            decreases 11 - i,
        {
            i += 1;
        }
        let c: u64 = self.buckets[i].wrapping_add(1);
        self.buckets.set(i, c);
        self.sum_micros = self.sum_micros.wrapping_add(nanos / 1000);
        self.count = self.count.wrapping_add(1);
    }
}

struct Route {
    statuses: Vec<u64>,
    hist: Hist,
}

impl Route {
    spec fn view(&self) -> RouteV {
        RouteV { statuses: self.statuses@, hist: self.hist.view() }
    }

    spec fn wf(&self) -> bool {
        self.statuses@.len() == 3 && self.hist.wf()
    }
}

/// What no request was counted for yet.
pub open spec fn unused() -> RouteV {
    RouteV {
        statuses: seq![0u64, 0u64, 0u64],
        hist: HistV { buckets: Seq::new(12, |i: int| 0u64), sum_micros: 0, count: 0 },
    }
}

/// Counters and latency histograms, one row for each route class.
pub struct RequestMetrics {
    routes: Vec<Route>,
}

impl RequestMetrics {
    /// What is counted for each route class.
    pub closed spec fn view(&self) -> Seq<RouteV> {
        self.routes@.map_values(|r: Route| r.view())
    }

    pub closed spec fn wf(&self) -> bool {
        &&& self.routes@.len() == 19
        &&& forall|i: int| 0 <= i < 19 ==> (#[trigger] self.routes@[i]).wf()
    }

    pub fn new() -> (res: Self)
        ensures
            res.wf(),
            res.view() == Seq::new(19, |i: int| unused()),
    {
        let mut routes: Vec<Route> = Vec::new();
        let mut i: usize = 0;
        while i < 19
            invariant
                i <= 19,
                routes@.len() == i,
                forall|j: int| 0 <= j < i ==> (#[trigger] routes@[j]).wf() && routes@[j].view()
                    == unused(),
            decreases 19 - i,
        {
            let statuses: Vec<u64> = vec![0u64, 0u64, 0u64];
            assert(statuses@ =~= seq![0u64, 0u64, 0u64]);
            routes.push(Route { statuses, hist: Hist::new() });
            i += 1;
        }
        let res = RequestMetrics { routes };
        assert(res.view() =~= Seq::new(19, |i: int| unused()));
        res
    }

    /// Counts one request that took `nanos` nanoseconds.
    pub fn record(&mut self, route: usize, status: u16, nanos: u64)
        requires
            old(self).wf(),
        ensures
            final(self).wf(),
            final(self).view() == recorded(old(self).view(), route as int, status, nanos),
    {
        let r: usize = if route < 18 {
            route
        } else {
            18
        };
        let s: usize = status_class(status);
        let mut row = Route { statuses: Vec::new(), hist: Hist::new() };
        std::mem::swap(&mut row, &mut self.routes[r]);
        let c: u64 = row.statuses[s].wrapping_add(1);
        row.statuses.set(s, c);
        row.hist.observe(nanos);
        std::mem::swap(&mut row, &mut self.routes[r]);
        assert(self.view() =~= recorded(old(self).view(), route as int, status, nanos));
    }

    /// Appends the metrics in the Prometheus text format. Classes and statuses
    /// that no request was counted for are left out.
    pub fn render(&self, out: &mut String)
        requires
            self.wf(),
        ensures
            final(out)@ == old(out)@ + rendered(self.view()),
    {
        let ghost start = out@;
        let ghost m = self.view();
        out.append("# TYPE psyrag_requests_total counter\n");
        out.append("# HELP psyrag_requests_total HTTP requests by route class and status class.\n");
        let ghost head = out@;
        assert(head =~= start + counter_head());
        let mut r: usize = 0;
        assert(head + counters_text(m, 0) =~= head);
        while r < 19
            invariant
                r <= 19,
                self.wf(),
                m == self.view(),
                out@ == head + counters_text(m, r as int),
            decreases 19 - r,
        {
            assert(m[r as int] == self.routes@[r as int].view());
            push_counters(out, ROUTES[r], &self.routes[r].statuses);
            r += 1;
            assert(out@ =~= head + counters_text(m, r as int));
        }
        out.append("# TYPE psyrag_request_duration_seconds histogram\n");
        out.append("# HELP psyrag_request_duration_seconds Request latency by route class.\n");
        let ghost second = out@;
        assert(second =~= start + counter_head() + counters_text(m, 19) + hist_head());
        let mut k: usize = 0;
        assert(second + hists_text(m, 0) =~= second);
        while k < 19
            invariant
                k <= 19,
                self.wf(),
                m == self.view(),
                out@ == second + hists_text(m, k as int),
            decreases 19 - k,
        {
            assert(m[k as int] == self.routes@[k as int].view());
            push_hist(out, ROUTES[k], &self.routes[k].hist);
            k += 1;
            assert(out@ =~= second + hists_text(m, k as int));
        }
        assert(out@ =~= start + rendered(m));
    }
}

pub open spec fn counter_head() -> Seq<char> {
    "# TYPE psyrag_requests_total counter\n"@
        + "# HELP psyrag_requests_total HTTP requests by route class and status class.\n"@
}

pub open spec fn hist_head() -> Seq<char> {
    "# TYPE psyrag_request_duration_seconds histogram\n"@
        + "# HELP psyrag_request_duration_seconds Request latency by route class.\n"@
}

pub open spec fn counter_line(name: Seq<char>, status: Seq<char>, v: u64) -> Seq<char> {
    "psyrag_requests_total{route=\""@ + name + "\",status=\""@ + status + "\"} "@ + text::decimal(
        v as nat,
    ) + "\n"@
}

/// The lines of the first `k` status classes of a route class.
pub open spec fn status_lines(name: Seq<char>, statuses: Seq<u64>, k: int) -> Seq<char>
    decreases k,
{
    if k <= 0 {
        Seq::empty()
    } else {
        status_lines(name, statuses, k - 1) + if statuses[k - 1] > 0 {
            counter_line(name, STATUS_CLASSES@[k - 1]@, statuses[k - 1])
        } else {
            Seq::empty()
        }
    }
}

/// The counters of the first `n` route classes.
pub open spec fn counters_text(m: Seq<RouteV>, n: int) -> Seq<char>
    decreases n,
{
    if n <= 0 {
        Seq::empty()
    } else {
        counters_text(m, n - 1) + status_lines(ROUTES@[n - 1]@, m[n - 1].statuses, 3)
    }
}

/// How many latencies fell into the first `k` buckets.
pub open spec fn cumulative(buckets: Seq<u64>, k: int) -> u64
    decreases k,
{
    if k <= 0 {
        0
    } else {
        cumulative(buckets, k - 1).wrapping_add(buckets[k - 1])
    }
}

pub open spec fn bucket_line(name: Seq<char>, bound: Seq<char>, v: u64) -> Seq<char> {
    "psyrag_request_duration_seconds_bucket{route=\""@ + name + "\",le=\""@ + bound + "\"} "@
        + text::decimal(v as nat) + "\n"@
}

/// The lines of the first `k` buckets that have a bound.
pub open spec fn bucket_lines(name: Seq<char>, buckets: Seq<u64>, k: int) -> Seq<char>
    decreases k,
{
    if k <= 0 {
        Seq::empty()
    } else {
        bucket_lines(name, buckets, k - 1) + bucket_line(
            name,
            BOUND_LABELS@[k - 1]@,
            cumulative(buckets, k),
        )
    }
}

/// The digits behind the point of `frac` parts of `10^width`, without zeros at
/// the end.
pub open spec fn fraction(frac: nat, width: nat) -> Seq<char>
    decreases width,
{
    if width > 0 && frac % 10 == 0 {
        fraction(frac / 10, (width - 1) as nat)
    } else {
        log::padded(frac, width)
    }
}

/// A number of microseconds in seconds, with as many digits as it needs.
pub open spec fn seconds_text(micros: nat) -> Seq<char> {
    let whole = text::decimal(micros / 1_000_000);
    if micros % 1_000_000 == 0 {
        whole
    } else {
        whole.push('.') + fraction(micros % 1_000_000, 6)
    }
}

/// The histogram of one route class; nothing where no request was counted.
pub open spec fn hist_text(name: Seq<char>, h: HistV) -> Seq<char> {
    if h.count == 0 {
        Seq::empty()
    } else {
        bucket_lines(name, h.buckets, 11) + bucket_line(name, "+Inf"@, cumulative(h.buckets, 12))
            + "psyrag_request_duration_seconds_sum{route=\""@ + name + "\"} "@ + seconds_text(
            h.sum_micros as nat,
        ) + "\n"@ + "psyrag_request_duration_seconds_count{route=\""@ + name + "\"} "@
            + text::decimal(h.count as nat) + "\n"@
    }
}

/// The histograms of the first `n` route classes.
pub open spec fn hists_text(m: Seq<RouteV>, n: int) -> Seq<char>
    decreases n,
{
    if n <= 0 {
        Seq::empty()
    } else {
        hists_text(m, n - 1) + hist_text(ROUTES@[n - 1]@, m[n - 1].hist)
    }
}

/// The metrics as text.
pub open spec fn rendered(m: Seq<RouteV>) -> Seq<char> {
    counter_head() + counters_text(m, 19) + hist_head() + hists_text(m, 19)
}

fn push_counters(out: &mut String, name: &str, statuses: &Vec<u64>)
    requires
        statuses@.len() == 3,
    ensures
        final(out)@ == old(out)@ + status_lines(name@, statuses@, 3),
{
    let ghost start = out@;
    let mut i: usize = 0;
    assert(out@ =~= start + status_lines(name@, statuses@, 0));
    while i < 3
        invariant
            i <= 3,
            statuses@.len() == 3,
            out@ == start + status_lines(name@, statuses@, i as int),
        decreases 3 - i,
    {
        let v: u64 = statuses[i];
        if v > 0 {
            out.append("psyrag_requests_total{route=\"");
            out.append(name);
            out.append("\",status=\"");
            out.append(STATUS_CLASSES[i]);
            out.append("\"} ");
            out.append(decimal_text(v).as_str());
            out.append("\n");
        }
        i += 1;
        assert(out@ =~= start + status_lines(name@, statuses@, i as int));
    }
}

fn push_bucket(out: &mut String, name: &str, bound: &str, v: u64)
    ensures
        final(out)@ == old(out)@ + bucket_line(name@, bound@, v),
{
    let ghost start = out@;
    out.append("psyrag_request_duration_seconds_bucket{route=\"");
    out.append(name);
    out.append("\",le=\"");
    out.append(bound);
    out.append("\"} ");
    out.append(decimal_text(v).as_str());
    out.append("\n");
    assert(out@ =~= start + bucket_line(name@, bound@, v));
}

fn push_seconds(out: &mut String, micros: u64)
    ensures
        final(out)@ == old(out)@ + seconds_text(micros as nat),
{
    let ghost start = out@;
    out.append(decimal_text(micros / 1_000_000).as_str());
    let mut frac: u64 = micros % 1_000_000;
    if frac != 0 {
        let ghost all = fraction(frac as nat, 6);
        let mut width: usize = 6;
        while width > 0 && frac % 10 == 0
            invariant
                width <= 6,
                fraction(frac as nat, width as nat) == all,
            decreases width,
        {
            frac = frac / 10;
            width -= 1;
        }
        out.push('.');
        push_padded(out, frac, width);
    }
    assert(out@ =~= start + seconds_text(micros as nat));
}

fn push_hist(out: &mut String, name: &str, h: &Hist)
    requires
        h.wf(),
    ensures
        final(out)@ == old(out)@ + hist_text(name@, h.view()),
{
    let ghost start = out@;
    if h.count == 0 {
        assert(out@ =~= start + hist_text(name@, h.view()));
        return;
    }
    let mut seen: u64 = 0;
    let mut i: usize = 0;
    assert(out@ =~= start + bucket_lines(name@, h.buckets@, 0));
    while i < 11
        invariant
            i <= 11,
            h.wf(),
            seen == cumulative(h.buckets@, i as int),
            out@ == start + bucket_lines(name@, h.buckets@, i as int),
        decreases 11 - i,
    {
        seen = seen.wrapping_add(h.buckets[i]);
        push_bucket(out, name, BOUND_LABELS[i], seen);
        i += 1;
        assert(out@ =~= start + bucket_lines(name@, h.buckets@, i as int));
    }
    seen = seen.wrapping_add(h.buckets[11]);
    push_bucket(out, name, "+Inf", seen);
    out.append("psyrag_request_duration_seconds_sum{route=\"");
    out.append(name);
    out.append("\"} ");
    push_seconds(out, h.sum_micros);
    out.append("\n");
    out.append("psyrag_request_duration_seconds_count{route=\"");
    out.append(name);
    out.append("\"} ");
    out.append(decimal_text(h.count).as_str());
    out.append("\n");
    assert(out@ =~= start + hist_text(name@, h.view()));
}

proof fn lemma_cumulative_same(a: Seq<u64>, b: Seq<u64>, k: int)
    requires
        forall|i: int| 0 <= i < k ==> #[trigger] a[i] == b[i],
    ensures
        cumulative(a, k) == cumulative(b, k),
    decreases k,
{
    if k > 0 {
        lemma_cumulative_same(a, b, k - 1);
        assert(a[k - 1] == b[k - 1]);
    }
}

proof fn lemma_cumulative_update(a: Seq<u64>, b: int, k: int)
    requires
        0 <= b < a.len(),
        0 <= k <= a.len(),
    ensures
        cumulative(a.update(b, a[b].wrapping_add(1)), k) == (if b < k {
            cumulative(a, k).wrapping_add(1)
        } else {
            cumulative(a, k)
        }),
    decreases k,
{
    let c = a.update(b, a[b].wrapping_add(1));
    if b >= k {
        lemma_cumulative_same(a, c, k);
    } else {
        lemma_cumulative_update(a, b, k - 1);
    }
}

proof fn lemma_bucket(nanos: u64, i: int)
    requires
        0 <= i <= 11,
    ensures
        i <= bucket_from(nanos, i) <= 11,
        bucket_from(nanos, i) < 11 ==> nanos <= BOUNDS@[bucket_from(nanos, i)],
        forall|j: int| i <= j < bucket_from(nanos, i) ==> nanos > #[trigger] BOUNDS@[j],
    decreases 11 - i,
{
    if i < 11 && nanos > BOUNDS@[i] {
        lemma_bucket(nanos, i + 1);
    }
}

/// Every latency is counted once: the count of the unbounded bucket is that of
/// all requests, and one more request adds to the buckets whose bound it does
/// not exceed and to no other.
pub proof fn every_latency_is_counted(h: HistV, nanos: u64, k: int)
    requires
        h.buckets.len() == 12,
        cumulative(h.buckets, 12) == h.count,
        0 <= k < 11,
    ensures
        cumulative(observed(h, nanos).buckets, 12) == observed(h, nanos).count,
        cumulative(observed(h, nanos).buckets, k + 1) == (if nanos <= BOUNDS@[k] {
            cumulative(h.buckets, k + 1).wrapping_add(1)
        } else {
            cumulative(h.buckets, k + 1)
        }),
{
    let b = bucket_from(nanos, 0);
    lemma_bucket(nanos, 0);
    lemma_cumulative_update(h.buckets, b, 12);
    lemma_cumulative_update(h.buckets, b, k + 1);
    if b <= k {
        lemma_bounds_ascend(b, k);
    }
}

proof fn lemma_bounds_ascend(i: int, j: int)
    requires
        0 <= i <= j < 11,
    ensures
        BOUNDS@[i] <= BOUNDS@[j],
{
}

} // verus!
