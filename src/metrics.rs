use vstd::prelude::*;

verus! {

/// The largest value in `s`, or zero for an empty sequence.
pub open spec fn max_of(s: Seq<u64>) -> int
    decreases s.len(),
{
    if s.len() == 0 {
        0
    } else {
        let m = max_of(s.drop_last());
        if s.last() > m {
            s.last() as int
        } else {
            m
        }
    }
}

/// Telemetry of one run: the resident-memory samples taken so far and their
/// high-water mark, in bytes.
pub struct PipelineMetrics {
    peak_memory_bytes: u64,
    samples: Ghost<Seq<u64>>,
}

/// What the run summary reports, in fixed-point integers: hundredths of a
/// second, hundredths of a minute, hundredths of a mebibyte and hundredths of
/// a gibibyte (each rounded down).
#[derive(Clone, Copy, Debug, PartialEq, Eq)]
pub struct MetricsSummary {
    pub elapsed_centiseconds: u64,
    pub elapsed_centiminutes: u64,
    pub peak_memory_centi_mb: u64,
    pub peak_memory_centi_gb: u64,
}

pub open spec fn mib() -> int {
    1048576int
}

impl PipelineMetrics {
    /// The samples taken so far, in the order they were taken.
    pub closed spec fn samples(&self) -> Seq<u64> {
        self.samples@
    }

    /// The reported peak.
    pub closed spec fn peak(&self) -> u64 {
        self.peak_memory_bytes
    }

    pub closed spec fn wf(&self) -> bool {
        self.peak_memory_bytes as int == max_of(self.samples@)
    }

    pub fn new() -> (r: PipelineMetrics)
        ensures
            r.wf(),
            r.samples() == Seq::<u64>::empty(),
            r.peak() == 0,
    {
        PipelineMetrics { peak_memory_bytes: 0, samples: Ghost(Seq::empty()) }
    }

    /// Records one reading of the process's resident memory. `None` stands for
    /// a reading that could not be taken: it is not an error, and the peak
    /// keeps its last known value.
    pub fn update_memory(&mut self, observed: Option<u64>)
        requires
            old(self).wf(),
        ensures
            final(self).wf(),
            match observed {
                Some(m) => {
                    &&& final(self).samples() == old(self).samples().push(m)
                    &&& final(self).peak() == if m > old(self).peak() {
                        m
                    } else {
                        old(self).peak()
                    }
                },
                None => final(self).samples() == old(self).samples() && final(self).peak()
                    == old(self).peak(),
            },
    {
        if let Some(m) = observed {
            let ghost prev = self.samples@;
            self.samples = Ghost(prev.push(m));
            assert(self.samples@.drop_last() == prev);
            if m > self.peak_memory_bytes {
                self.peak_memory_bytes = m;
            }
        }
    }

    pub fn peak_memory_bytes(&self) -> (r: u64)
        ensures
            r == self.peak(),
    {
        self.peak_memory_bytes
    }

    /// The summary of a run that has lasted `elapsed_millis` milliseconds.
    pub fn summary(&self, elapsed_millis: u64) -> (r: MetricsSummary)
        ensures
            r.elapsed_centiseconds == elapsed_millis / 10,
            r.elapsed_centiminutes == elapsed_millis / 600,
            r.peak_memory_centi_mb as int == (self.peak() as int * 100) / mib(),
            r.peak_memory_centi_gb as int == (self.peak() as int * 100) / (mib() * 1024),
    {
        let peak = self.peak_memory_bytes as u128;
        let mb = (peak * 100) / (1024 * 1024);
        let gb = (peak * 100) / (1024 * 1024 * 1024);
        proof {
            lemma_scaled_fits(peak as int);
        }
        MetricsSummary {
            elapsed_centiseconds: elapsed_millis / 10,
            elapsed_centiminutes: elapsed_millis / 600,
            peak_memory_centi_mb: mb as u64,
            peak_memory_centi_gb: gb as u64,
        }
    }
}

proof fn lemma_scaled_fits(p: int)
    requires
        0 <= p <= u64::MAX,
    ensures
        (p * 100) / (mib() * 1024) <= (p * 100) / mib() <= u64::MAX,
{
    let x = p * 100;
    assert(0 <= x <= 100 * u64::MAX) by (nonlinear_arith)
        requires
            x == p * 100,
            0 <= p <= u64::MAX,
    ;
    vstd::arithmetic::div_mod::lemma_div_is_ordered_by_denominator(x, mib(), mib() * 1024);
    vstd::arithmetic::div_mod::lemma_div_is_ordered(x, 100 * u64::MAX, mib());
}

/// The peak is a high-water mark: it is at least every sample taken during
/// the run.
pub proof fn lemma_peak_bounds_samples(m: PipelineMetrics)
    requires
        m.wf(),
    ensures
        forall|i: int| 0 <= i < m.samples().len() ==> m.samples()[i] <= m.peak(),
{
    lemma_max_of_bounds(m.samples());
}

proof fn lemma_max_of_bounds(s: Seq<u64>)
    ensures
        forall|i: int| 0 <= i < s.len() ==> s[i] <= max_of(s),
    decreases s.len(),
{
    if s.len() > 0 {
        lemma_max_of_bounds(s.drop_last());
        assert forall|i: int| 0 <= i < s.len() implies s[i] <= max_of(s) by {
            if i < s.len() - 1 {
                assert(s[i] == s.drop_last()[i]);
            }
        }
    }
}

} // verus!
