use vstd::prelude::*;

verus! {

/// One process as the operating system reports it, before filtering.
/// Memory and disk counters are in bytes; `cpu` is in hundredths of a percent.
pub struct ProcessSample {
    pub pid: u32,
    pub name: String,
    pub mem: u64,
    pub cpu: u32,
    pub disk_read: u64,
    pub disk_written: u64,
    pub status: String,
}

/// One entry of a snapshot's process list.
/// Memory and disk counters are in bytes; `cpu` is in hundredths of a percent.
pub struct Prcs {
    pub name: String,
    pub mem: u64,
    pub cpu: u32,
    pub disk_read: u64,
    pub disk_written: u64,
    pub status: String,
    pub is_this_process: bool,
}

/// The mathematical value of a [`Prcs`].
pub struct PrcsView {
    pub name: Seq<char>,
    pub mem: u64,
    pub cpu: u32,
    pub disk_read: u64,
    pub disk_written: u64,
    pub status: Seq<char>,
    pub is_this_process: bool,
}

impl View for Prcs {
    type V = PrcsView;

    open spec fn view(&self) -> PrcsView {
        PrcsView {
            name: self.name@,
            mem: self.mem,
            cpu: self.cpu,
            disk_read: self.disk_read,
            disk_written: self.disk_written,
            status: self.status@,
            is_this_process: self.is_this_process,
        }
    }
}

/// A process list, ordered by resident memory, largest first.
pub struct Processes(pub Vec<Prcs>);

impl View for Processes {
    type V = Seq<PrcsView>;

    open spec fn view(&self) -> Seq<PrcsView> {
        self.0@.map_values(|p: Prcs| p@)
    }
}

impl From<Vec<Prcs>> for Processes {
    fn from(p: Vec<Prcs>) -> (r: Processes)
        ensures
            r.0 == p,
    {
        Processes(p)
    }
}

impl vstd::std_specs::convert::FromSpecImpl<Vec<Prcs>> for Processes {
    open spec fn obeys_from_spec() -> bool {
        true
    }

    open spec fn from_spec(p: Vec<Prcs>) -> Processes {
        Processes(p)
    }
}

/// The representative volume of a snapshot; sizes in bytes.
pub struct DiskUsage {
    pub name: String,
    pub total: u64,
    pub used: u64,
}

/// Counters of one network interface, in bytes.
pub struct NetIface {
    pub name: String,
    pub received: u64,
    pub transmitted: u64,
}

/// Facts about the host, captured once at start-up.
#[derive(Clone)]
pub struct HostInfo {
    pub host: String,
    pub os: String,
    pub cpu_name: String,
    pub cores: Option<u64>,
    pub mhz: u64,
}

/// One complete point-in-time view of the host.
/// Per-core loads are in hundredths of a percent; memory is in bytes.
pub struct SysInfo {
    pub general: HostInfo,
    pub cpu: Vec<u32>,
    pub mem_total: u64,
    pub mem_used: u64,
    pub processes: Processes,
    pub disk: Option<DiskUsage>,
    pub net: Vec<NetIface>,
}

} // verus!
