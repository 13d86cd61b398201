use vstd::prelude::*;

verus! {

/// The processors of the machine, as seen from the one that runs the caller.
/// The caller stays on that processor while it uses the value.
#[derive(Clone, Copy, PartialEq, Eq, Structural, Debug)]
pub struct CpuInfo {
    num_cpus: usize,
    cpu_id: usize,
}

impl CpuInfo {
    pub closed spec fn spec_num_cpus(&self) -> usize {
        self.num_cpus
    }

    pub closed spec fn spec_cpu_id(&self) -> usize {
        self.cpu_id
    }

    /// Processor `cpu_id` of `num_cpus`.
    pub fn new(num_cpus: usize, cpu_id: usize) -> (r: CpuInfo)
        requires
            cpu_id < num_cpus,
        ensures
            r.spec_num_cpus() == num_cpus,
            r.spec_cpu_id() == cpu_id,
    {
        CpuInfo { num_cpus, cpu_id }
    }

    pub fn num_cpus(&self) -> (r: usize)
        ensures
            r == self.spec_num_cpus(),
    {
        self.num_cpus
    }

    pub fn cpu_id(&self) -> (r: usize)
        ensures
            r == self.spec_cpu_id(),
    {
        self.cpu_id
    }
}

} // verus!
