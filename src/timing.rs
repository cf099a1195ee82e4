use vstd::prelude::*;

verus! {

/// Cycles per second, from `cpu_elapsed` cycles counted over
/// `os_elapsed_micros` microseconds of wall time; saturates at `u64::MAX`.
pub fn estimate_cpu_frequency(cpu_elapsed: u64, os_elapsed_micros: u128) -> (r: u64)
    requires
        os_elapsed_micros > 0,
    ensures
        r as int == if 1_000_000 * cpu_elapsed as int / os_elapsed_micros as int > u64::MAX {
            u64::MAX as int
        } else {
            1_000_000 * cpu_elapsed as int / os_elapsed_micros as int
        },
{
    let micros_per_second: u128 = 1_000_000;
    assert(micros_per_second * (cpu_elapsed as u128) <= 1_000_000 * u64::MAX) by (nonlinear_arith)
        requires
            micros_per_second == 1_000_000,
    ;
    let freq = micros_per_second * (cpu_elapsed as u128) / os_elapsed_micros;
    if freq > u64::MAX as u128 {
        u64::MAX
    } else {
        freq as u64
    }
}

/// Milliseconds taken by `elapsed` cycles at `freq` cycles per second.
pub fn elapsed_to_ms(elapsed: u64, freq: u64) -> (r: u64)
    requires
        freq > 0,
        elapsed * 1000 <= u64::MAX,
    ensures
        r as int == elapsed as int * 1000 / freq as int,
{
    (elapsed * 1000) / freq
}

/// The cycles counted under one section name.
#[derive(Debug, PartialEq)]
pub struct Section {
    pub name: String,
    pub total: u64,
}

pub open spec fn sections_view(s: Seq<Section>) -> Seq<(Seq<char>, u64)> {
    Seq::new(s.len(), |k: int| (s[k].name@, s[k].total))
}

/// No name stands twice.
pub open spec fn distinct_names(s: Seq<(Seq<char>, u64)>) -> bool {
    forall|i: int, j: int| 0 <= i < s.len() && 0 <= j < s.len() && s[i].0 == s[j].0 ==> i == j
}

/// The cycles from `from` to `to`, or none if the counter went back.
pub open spec fn cycles_between(from: u64, to: u64) -> u64 {
    if to >= from {
        (to - from) as u64
    } else {
        0
    }
}

pub open spec fn saturating_sum(a: u64, b: u64) -> u64 {
    if a + b > u64::MAX {
        u64::MAX
    } else {
        (a + b) as u64
    }
}

/// The sections after `elapsed` more cycles under `name`: added to its
/// total where the name is known, else a new section at the end.
pub open spec fn record(s: Seq<(Seq<char>, u64)>, name: Seq<char>, elapsed: u64) -> Seq<
    (Seq<char>, u64),
> {
    if exists|k: int| 0 <= k < s.len() && s[k].0 == name {
        let k = choose|k: int| 0 <= k < s.len() && s[k].0 == name;
        s.update(k, (name, saturating_sum(s[k].1, elapsed)))
    } else {
        s.push((name, elapsed))
    }
}

pub struct ProfileState {
    pub start: u64,
    pub end: u64,
    pub cpu_freq: u64,
    pub section_start: u64,
    pub sections: Seq<(Seq<char>, u64)>,
}

/// Sums the cycles spent in named sections of a run. The counter readings
/// are handed in by the caller.
pub struct Profiler {
    start: u64,
    end: u64,
    cpu_freq: u64,
    current_section_start: u64,
    sections: Vec<Section>,
}

impl View for Profiler {
    type V = ProfileState;

    closed spec fn view(&self) -> ProfileState {
        ProfileState {
            start: self.start,
            end: self.end,
            cpu_freq: self.cpu_freq,
            section_start: self.current_section_start,
            sections: sections_view(self.sections@),
        }
    }
}

impl Profiler {
    pub open spec fn wf(&self) -> bool {
        distinct_names(self@.sections)
    }

    /// A profiler started at counter reading `start`, for a counter that
    /// runs at `cpu_freq` cycles per second.
    pub fn new(cpu_freq: u64, start: u64) -> (r: Profiler)
        ensures
            r.wf(),
            r@ == (ProfileState {
                start,
                end: 0,
                cpu_freq,
                section_start: 0,
                sections: Seq::empty(),
            }),
    {
        let r = Profiler {
            start,
            end: 0,
            cpu_freq,
            current_section_start: 0,
            sections: Vec::new(),
        };
        assert(sections_view(r.sections@) =~= Seq::empty());
        r
    }

    /// Marks the start of a section at counter reading `now`.
    pub fn start_section(&mut self, now: u64)
        ensures
            final(self)@ == (ProfileState { section_start: now, ..old(self)@ }),
    {
        self.current_section_start = now;
    }

    /// Ends the current section at counter reading `now` and adds its cycles
    /// to the total of `name`.
    pub fn end_section(&mut self, name: &str, now: u64)
        requires
            old(self).wf(),
        ensures
            final(self).wf(),
            final(self)@ == (ProfileState {
                sections: record(
                    old(self)@.sections,
                    name@,
                    cycles_between(old(self)@.section_start, now),
                ),
                ..old(self)@
            }),
    {
        let elapsed = if now >= self.current_section_start {
            now - self.current_section_start
        } else {
            0
        };
        let key = name.to_owned();
        let ghost s = sections_view(self.sections@);
        let ghost pre = *self;
        let mut i: usize = 0;
        while i < self.sections.len()
            invariant
                i <= self.sections.len(),
                s == sections_view(self.sections@),
                *self == pre,
                pre.wf(),
                pre@ == old(self)@,
                elapsed == cycles_between(pre@.section_start, now),
                forall|k: int| 0 <= k < i ==> s[k].0 != name@,
                key@ == name@,
            decreases self.sections.len() - i,
        {
            if self.sections[i].name == key {
                let total = self.sections[i].total;
                let sum = if total > u64::MAX - elapsed {
                    u64::MAX
                } else {
                    total + elapsed
                };
                self.sections.set(i, Section { name: key, total: sum });
                proof {
                    assert(s[i as int].0 == name@);
                    let k = choose|k: int| 0 <= k < s.len() && s[k].0 == name@;
                    assert(k == i);
                    assert(sections_view(self.sections@) =~= s.update(
                        i as int,
                        (name@, saturating_sum(s[i as int].1, elapsed)),
                    ));
                    assert(distinct_names(sections_view(self.sections@)));
                }
                return;
            }
            i = i + 1;
        }
        self.sections.push(Section { name: key, total: elapsed });
        assert(sections_view(self.sections@) =~= s.push((name@, elapsed)));
        assert(distinct_names(sections_view(self.sections@)));
    }

    /// Stops the run at counter reading `now`; gives the cycles it took.
    pub fn finalize(&mut self, now: u64) -> (r: u64)
        ensures
            final(self)@ == (ProfileState { end: now, ..old(self)@ }),
            r == cycles_between(old(self)@.start, now),
    {
        self.end = now;
        if now >= self.start {
            now - self.start
        } else {
            0
        }
    }

    pub fn cpu_freq(&self) -> (r: u64)
        ensures
            r == self@.cpu_freq,
    {
        self.cpu_freq
    }

    /// The sections in the order their names first ended.
    pub fn sections(&self) -> (r: &Vec<Section>)
        ensures
            sections_view(r@) == self@.sections,
    {
        &self.sections
    }
}

} // verus!
