use vstd::prelude::*;
use std::collections::HashSet;
use std::time::{Duration, SystemTime};

verus! {

broadcast use vstd::std_specs::hash::group_hash_axioms;

/// Seconds between two snapshots of the counters.
pub const LOG_INTERVAL: u64 = 60;

#[verifier::external_type_specification]
#[verifier::external_body]
pub struct ExSystemTime(SystemTime);

/// `std::time::SystemTime::now`: the system clock's current time. What it
/// reads is left open.
#[verifier::external_body]
fn system_now() -> (t: SystemTime) {
    SystemTime::now()
}

/// `std::time::SystemTime::elapsed`: the time from `t` to now; `None` where
/// it fails because the clock now reads earlier than `t`. What it reads is
/// left open.
#[verifier::external_body]
fn elapsed_since(t: &SystemTime) -> (r: Option<Duration>) {
    match t.elapsed() {
        Ok(d) => Some(d),
        Err(_) => None,
    }
}

/// `std::time::Duration::as_secs`: the whole seconds of `d`. A `Duration`
/// is opaque here, so nothing is stated of the number.
#[verifier::external_body]
fn whole_seconds(d: &Duration) -> (r: u64) {
    d.as_secs()
}

/// The counters of a fuzzing session.
#[derive(Clone, Copy, Debug)]
pub struct LogInfo {
    pub seed_count: u32,
    pub crash_count: u32,
    pub uniq_crash_count: u32,
    pub exec_count: u64,
    pub total_node: u32,
}

impl LogInfo {
    /// All counters at zero.
    pub fn new() -> (r: Self)
        ensures
            r.seed_count == 0,
            r.crash_count == 0,
            r.uniq_crash_count == 0,
            r.exec_count == 0,
            r.total_node == 0,
    {
        LogInfo { seed_count: 0, crash_count: 0, uniq_crash_count: 0, exec_count: 0, total_node: 0 }
    }
}

/// The history of a fuzzing session: when it started, when the last
/// snapshot of the counters was taken, the snapshots, and the coverage
/// paths of the crashes seen so far.
pub struct LogData {
    pub start_time: SystemTime,
    pub last_time: SystemTime,
    pub infos: Vec<LogInfo>,
    pub crash_paths: HashSet<u64>,
}

impl LogData {
    /// A history that started at `start` and whose last snapshot was
    /// taken at `last`, without snapshots or crashes.
    pub fn new_at(start: SystemTime, last: SystemTime) -> (r: Self)
        ensures
            r.start_time == start,
            r.last_time == last,
            r.infos@ == Seq::<LogInfo>::empty(),
            r.crash_paths@ == Set::<u64>::empty(),
    {
        LogData { start_time: start, last_time: last, infos: Vec::new(), crash_paths: HashSet::new() }
    }

    /// A history that starts now, without snapshots or crashes.
    pub fn new() -> (r: Self)
        ensures
            r.infos@ == Seq::<LogInfo>::empty(),
            r.crash_paths@ == Set::<u64>::empty(),
    {
        let start = system_now();
        let last = system_now();
        LogData::new_at(start, last)
    }

    /// Sets the time of the last snapshot to `t`.
    pub fn set_last_time(&mut self, t: SystemTime)
        ensures
            final(self).last_time == t,
            final(self).start_time == old(self).start_time,
            final(self).infos == old(self).infos,
            final(self).crash_paths == old(self).crash_paths,
    {
        self.last_time = t;
    }

    /// Sets the time of the last snapshot to now.
    pub fn reset_last_time(&mut self)
        ensures
            final(self).start_time == old(self).start_time,
            final(self).infos == old(self).infos,
            final(self).crash_paths == old(self).crash_paths,
    {
        self.set_last_time(system_now());
    }
}

/// The counters and the history of a fuzzing session.
pub struct Log {
    pub info: LogInfo,
    pub data: LogData,
}

impl Log {
    /// The count of distinct crashes is the number of distinct crash paths,
    /// and no greater than the count of all crashes.
    pub open spec fn crash_counts_consistent(&self) -> bool {
        &&& self.data.crash_paths@.finite()
        &&& self.info.uniq_crash_count == self.data.crash_paths@.len()
        &&& self.info.uniq_crash_count <= self.info.crash_count
    }

    /// A session that starts now with every counter at zero.
    pub fn new() -> (r: Self)
        ensures
            r.info == (LogInfo {
                seed_count: 0,
                crash_count: 0,
                uniq_crash_count: 0,
                exec_count: 0,
                total_node: 0,
            }),
            r.data.infos@ == Seq::<LogInfo>::empty(),
            r.data.crash_paths@ == Set::<u64>::empty(),
            r.crash_counts_consistent(),
    {
        Log { info: LogInfo::new(), data: LogData::new() }
    }

    /// Takes a snapshot of the counters at time `now` when at least
    /// `LOG_INTERVAL` seconds have passed since the last one (`elapsed` is
    /// that time); otherwise leaves the log as it is.
    pub fn update_after(&mut self, elapsed: u64, now: SystemTime)
        ensures
            elapsed < LOG_INTERVAL ==> *final(self) == *old(self),
            elapsed >= LOG_INTERVAL ==> {
                &&& final(self).info == old(self).info
                &&& final(self).data.infos@ == old(self).data.infos@.push(old(self).info)
                &&& final(self).data.last_time == now
                &&& final(self).data.start_time == old(self).data.start_time
                &&& final(self).data.crash_paths == old(self).data.crash_paths
            },
    {
        if elapsed < LOG_INTERVAL {
            return ;
        }
        self.data.set_last_time(now);
        let info = self.info;
        self.data.infos.push(info);
    }

    /// Takes a snapshot of the counters when at least `LOG_INTERVAL` seconds
    /// have passed since the last one. Returns `false`, and leaves the log as
    /// it is, when the clock reads earlier than the last snapshot, so that
    /// no time can be measured.
    pub fn update(&mut self) -> (ok: bool)
        ensures
            !ok ==> *final(self) == *old(self),
            final(self).info == old(self).info,
            final(self).data.start_time == old(self).data.start_time,
            final(self).data.crash_paths == old(self).data.crash_paths,
            final(self).data.infos@ == old(self).data.infos@ || final(self).data.infos@ == old(
                self,
            ).data.infos@.push(old(self).info),
    {
        match elapsed_since(&self.data.last_time) {
            Some(d) => {
                let t = whole_seconds(&d);
                let now = system_now();
                self.update_after(t, now);
                true
            },
            None => false,
        }
    }

    /// Counts a crash whose coverage path is `subpath`. A path not seen
    /// before also counts as a distinct crash, whose number comes back;
    /// a path seen before gives `None`.
    pub fn record_crash(&mut self, subpath: u64) -> (r: Option<u32>)
        requires
            old(self).info.crash_count < u32::MAX,
            !old(self).data.crash_paths@.contains(subpath) ==> old(self).info.uniq_crash_count
                < u32::MAX,
        ensures
            final(self).info.crash_count == old(self).info.crash_count + 1,
            final(self).data.crash_paths@ == old(self).data.crash_paths@.insert(subpath),
            final(self).info.seed_count == old(self).info.seed_count,
            final(self).info.exec_count == old(self).info.exec_count,
            final(self).info.total_node == old(self).info.total_node,
            final(self).data.infos == old(self).data.infos,
            final(self).data.start_time == old(self).data.start_time,
            final(self).data.last_time == old(self).data.last_time,
            old(self).data.crash_paths@.contains(subpath) ==> r is None
                && final(self).info.uniq_crash_count == old(self).info.uniq_crash_count,
            !old(self).data.crash_paths@.contains(subpath) ==> r == Some(
                (old(self).info.uniq_crash_count + 1) as u32,
            ) && final(self).info.uniq_crash_count == old(self).info.uniq_crash_count + 1,
            old(self).crash_counts_consistent() ==> final(self).crash_counts_consistent(),
    {
        self.info.crash_count = self.info.crash_count + 1;
        if self.data.crash_paths.insert(subpath) {
            self.info.uniq_crash_count = self.info.uniq_crash_count + 1;
            Some(self.info.uniq_crash_count)
        } else {
            proof {
                assert(old(self).data.crash_paths@.insert(subpath) =~= old(self).data.crash_paths@);
            }
            None
        }
    }

    /// Counts a new seed and gives its number.
    pub fn next_seed_number(&mut self) -> (r: u32)
        requires
            old(self).info.seed_count < u32::MAX,
        ensures
            r == old(self).info.seed_count + 1,
            final(self).info == (LogInfo { seed_count: r, ..old(self).info }),
            final(self).data == old(self).data,
    {
        self.info.seed_count = self.info.seed_count + 1;
        self.info.seed_count
    }

    /// Counts one run of the target that reached `newnode` new coverage
    /// nodes, and tells whether its input is worth keeping: it is when it
    /// reached a new node.
    pub fn record_exec(&mut self, newnode: u32) -> (keep: bool)
        requires
            old(self).info.exec_count < u64::MAX,
            old(self).info.total_node + newnode <= u32::MAX,
        ensures
            keep == (newnode > 0),
            final(self).info == (LogInfo {
                exec_count: (old(self).info.exec_count + 1) as u64,
                total_node: (old(self).info.total_node + newnode) as u32,
                ..old(self).info
            }),
            final(self).data == old(self).data,
    {
        self.info.exec_count = self.info.exec_count + 1;
        self.info.total_node = self.info.total_node + newnode;
        newnode > 0
    }

    /// Records the outcome of the first run over all seeds: how many runs
    /// were made and how many nodes they reached.
    pub fn record_dry_run(&mut self, runs: u64, total_node: u32)
        ensures
            final(self).info == (LogInfo { exec_count: runs, total_node, ..old(self).info }),
            final(self).data == old(self).data,
    {
        self.info.exec_count = runs;
        self.info.total_node = total_node;
    }
}

} // verus!
