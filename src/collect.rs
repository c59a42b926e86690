use vstd::prelude::*;

use crate::snapshot::{DiskUsage, HostInfo, NetIface, ProcessSample, Processes, Prcs, PrcsView, SysInfo};

verus! {

/// The list entry made from a sample; it is marked as this process when its
/// process id is `own_pid`.
pub open spec fn record_of(p: ProcessSample, own_pid: u32) -> PrcsView {
    PrcsView {
        name: p.name@,
        mem: p.mem,
        cpu: p.cpu,
        disk_read: p.disk_read,
        disk_written: p.disk_written,
        status: p.status@,
        is_this_process: p.pid == own_pid,
    }
}

/// Where an entry with memory `m` goes in a list ordered largest first: after
/// every entry with at least as much memory, so that equal entries keep the
/// order in which they arrived.
pub open spec fn slot_for(s: Seq<PrcsView>, m: u64) -> nat
    decreases s.len(),
{
    if s.len() == 0 {
        0
    } else if s[0].mem < m {
        0
    } else {
        1 + slot_for(s.drop_first(), m)
    }
}

pub open spec fn insert_by_mem(s: Seq<PrcsView>, p: PrcsView) -> Seq<PrcsView> {
    s.insert(slot_for(s, p.mem) as int, p)
}

/// The process list of a snapshot: the samples with nonzero resident memory,
/// stably ordered by memory, largest first.
pub open spec fn process_list(raw: Seq<ProcessSample>, own_pid: u32) -> Seq<PrcsView>
    decreases raw.len(),
{
    if raw.len() == 0 {
        seq![]
    } else {
        let rest = process_list(raw.drop_last(), own_pid);
        if raw.last().mem > 0 {
            insert_by_mem(rest, record_of(raw.last(), own_pid))
        } else {
            rest
        }
    }
}

pub open spec fn sorted_by_mem(s: Seq<PrcsView>) -> bool {
    forall|i: int, j: int| 0 <= i < j < s.len() ==> s[i].mem >= s[j].mem
}

proof fn lemma_slot_for(s: Seq<PrcsView>, m: u64)
    ensures
        slot_for(s, m) <= s.len(),
        forall|k: int| 0 <= k < slot_for(s, m) ==> s[k].mem >= m,
        slot_for(s, m) < s.len() ==> s[slot_for(s, m) as int].mem < m,
    decreases s.len(),
{
    if s.len() > 0 && s[0].mem >= m {
        lemma_slot_for(s.drop_first(), m);
        assert forall|k: int| 0 <= k < slot_for(s, m) implies s[k].mem >= m by {
            if k > 0 {
                assert(s[k] == s.drop_first()[k - 1]);
            }
        }
    }
}

proof fn lemma_slot_for_at(s: Seq<PrcsView>, m: u64, j: int)
    requires
        0 <= j <= s.len(),
        forall|k: int| 0 <= k < j ==> s[k].mem >= m,
        j < s.len() ==> s[j].mem < m,
    ensures
        slot_for(s, m) == j,
    decreases s.len(),
{
    if j > 0 {
        assert forall|k: int| 0 <= k < j - 1 implies s.drop_first()[k].mem >= m by {
            assert(s[k + 1].mem >= m);
        }
        lemma_slot_for_at(s.drop_first(), m, j - 1);
    }
}

proof fn lemma_insert_keeps_order(s: Seq<PrcsView>, p: PrcsView)
    requires
        sorted_by_mem(s),
    ensures
        sorted_by_mem(insert_by_mem(s, p)),
        insert_by_mem(s, p).len() == s.len() + 1,
        forall|i: int|
            0 <= i < s.len() + 1 ==> insert_by_mem(s, p)[i] == p || s.contains(
                #[trigger] insert_by_mem(s, p)[i],
            ),
{
    let k = slot_for(s, p.mem) as int;
    lemma_slot_for(s, p.mem);
    s.insert_ensures(k, p);
    let t = insert_by_mem(s, p);
    assert forall|i: int, j: int| 0 <= i < j < t.len() implies t[i].mem >= t[j].mem by {
        if j < k {
        } else if j == k {
        } else if i < k {
            assert(t[j] == s[j - 1]);
        } else if i == k {
            assert(t[j] == s[j - 1]);
        } else {
            assert(t[i] == s[i - 1]);
            assert(t[j] == s[j - 1]);
        }
    }
    assert forall|i: int| 0 <= i < s.len() + 1 implies t[i] == p || s.contains(#[trigger] t[i]) by {
        if i < k {
            assert(t[i] == s[i]);
        } else if i > k {
            assert(t[i] == s[i - 1]);
        }
    }
}

/// Every process list is ordered by memory, largest first, holds only entries
/// made from samples with nonzero resident memory, and has one entry for each
/// such sample.
pub proof fn lemma_process_list_ordered(raw: Seq<ProcessSample>, own_pid: u32)
    ensures
        process_list(raw, own_pid).len() == raw.filter(|p: ProcessSample| p.mem > 0).len(),
        sorted_by_mem(process_list(raw, own_pid)),
        forall|i: int|
            0 <= i < process_list(raw, own_pid).len() ==> (#[trigger] process_list(raw, own_pid)[i]).mem > 0,
        forall|i: int|
            0 <= i < process_list(raw, own_pid).len() ==> exists|j: int|
                0 <= j < raw.len() && raw[j].mem > 0 && #[trigger] process_list(raw, own_pid)[i]
                    == record_of(raw[j], own_pid),
    decreases raw.len(),
{
    let keep = |p: ProcessSample| p.mem > 0;
    if raw.len() == 0 {
        assert(raw.filter(keep).len() == 0) by {
            reveal(Seq::filter);
        }
    } else {
        let pre = raw.drop_last();
        let rest = process_list(pre, own_pid);
        lemma_process_list_ordered(pre, own_pid);
        assert(raw.filter(keep) == if raw.last().mem > 0 {
            pre.filter(keep).push(raw.last())
        } else {
            pre.filter(keep)
        }) by {
            reveal(Seq::filter);
        }
        assert forall|j: int| 0 <= j < pre.len() implies raw[j] == pre[j] by {}
        if raw.last().mem > 0 {
            let p = record_of(raw.last(), own_pid);
            lemma_insert_keeps_order(rest, p);
            let t = process_list(raw, own_pid);
            assert forall|i: int| 0 <= i < t.len() implies (#[trigger] t[i]).mem > 0 && exists|j: int|
                0 <= j < raw.len() && raw[j].mem > 0 && t[i] == record_of(raw[j], own_pid) by {
                if t[i] == p {
                    assert(raw[raw.len() - 1] == raw.last());
                } else {
                    assert(rest.contains(t[i]));
                    let q = choose|q: int| 0 <= q < rest.len() && rest[q] == t[i];
                    let j = choose|j: int| 0 <= j < raw.len() - 1 && pre[j].mem > 0 && rest[q] == record_of(pre[j], own_pid);
                    assert(raw[j] == pre[j]);
                }
            }
        } else {
            let t = process_list(raw, own_pid);
            assert forall|i: int| 0 <= i < t.len() implies exists|j: int|
                0 <= j < raw.len() && raw[j].mem > 0 && #[trigger] t[i] == record_of(raw[j], own_pid) by {
                let j = choose|j: int| 0 <= j < pre.len() && pre[j].mem > 0 && rest[i] == record_of(pre[j], own_pid);
                assert(raw[j] == pre[j]);
            }
        }
    }
}

/// The entries for the samples with nonzero resident memory, in sample order.
pub open spec fn kept_records(raw: Seq<ProcessSample>, own_pid: u32) -> Seq<PrcsView>
    decreases raw.len(),
{
    if raw.len() == 0 {
        seq![]
    } else {
        let rest = kept_records(raw.drop_last(), own_pid);
        if raw.last().mem > 0 {
            rest.push(record_of(raw.last(), own_pid))
        } else {
            rest
        }
    }
}

pub open spec fn mem_is(m: u64) -> spec_fn(PrcsView) -> bool {
    |p: PrcsView| p.mem == m
}

proof fn lemma_filter_push(s: Seq<PrcsView>, x: PrcsView, m: u64)
    ensures
        s.push(x).filter(mem_is(m)) == if x.mem == m {
            s.filter(mem_is(m)).push(x)
        } else {
            s.filter(mem_is(m))
        },
{
    reveal(Seq::filter);
    assert(s.push(x).drop_last() =~= s);
}

proof fn lemma_filter_none(s: Seq<PrcsView>, m: u64)
    requires
        forall|i: int| 0 <= i < s.len() ==> s[i].mem < m,
    ensures
        s.filter(mem_is(m)) == Seq::<PrcsView>::empty(),
{
    broadcast use vstd::seq_lib::group_filter_ensures;

    if s.filter(mem_is(m)).len() > 0 {
        let x = s.filter(mem_is(m))[0];
        assert(mem_is(m)(x));
        assert(s.filter(mem_is(m)).contains(x));
        s.lemma_filter_contains_rev(mem_is(m), x);
        let j = choose|j: int| 0 <= j < s.len() && s[j] == x;
        assert(s[j].mem < m);
    }
    assert(s.filter(mem_is(m)) =~= Seq::<PrcsView>::empty());
}

/// The process list holds exactly one entry for each sample with nonzero
/// resident memory, and entries with equal memory stand in sample order.
pub proof fn lemma_process_list_stable(raw: Seq<ProcessSample>, own_pid: u32)
    ensures
        process_list(raw, own_pid).to_multiset() == kept_records(raw, own_pid).to_multiset(),
        forall|m: u64|
            #[trigger] process_list(raw, own_pid).filter(mem_is(m)) == kept_records(raw, own_pid).filter(mem_is(m)),
    decreases raw.len(),
{
    broadcast use vstd::seq_lib::group_to_multiset_ensures;

    if raw.len() > 0 {
        let pre = raw.drop_last();
        let rest = process_list(pre, own_pid);
        let kept = kept_records(pre, own_pid);
        lemma_process_list_stable(pre, own_pid);
        if raw.last().mem > 0 {
            let p = record_of(raw.last(), own_pid);
            lemma_process_list_ordered(pre, own_pid);
            lemma_slot_for(rest, p.mem);
            let k = slot_for(rest, p.mem) as int;
            let a = rest.subrange(0, k);
            let b = rest.subrange(k, rest.len() as int);
            assert(rest =~= a + b);
            assert(insert_by_mem(rest, p) == a.push(p) + b);
            vstd::seq_lib::lemma_multiset_commutative(a.push(p), b);
            vstd::seq_lib::lemma_multiset_commutative(a, b);
            assert(process_list(raw, own_pid).to_multiset() =~= kept_records(raw, own_pid).to_multiset());
            assert forall|m: u64|
                #[trigger] process_list(raw, own_pid).filter(mem_is(m)) == kept_records(raw, own_pid).filter(
                    mem_is(m),
                ) by {
                Seq::filter_distributes_over_add(a.push(p), b, mem_is(m));
                Seq::filter_distributes_over_add(a, b, mem_is(m));
                lemma_filter_push(a, p, m);
                lemma_filter_push(kept, p, m);
                if p.mem == m {
                    assert forall|i: int| 0 <= i < b.len() implies b[i].mem < m by {
                        if k + i > k {
                            assert(rest[k].mem >= rest[k + i].mem);
                        }
                    }
                    lemma_filter_none(b, m);
                    assert(a.filter(mem_is(m)) + b.filter(mem_is(m)) =~= a.filter(mem_is(m)));
                    assert(a.filter(mem_is(m)).push(p) + b.filter(mem_is(m)) =~= a.filter(mem_is(m)).push(p));
                }
            }
        }
    }
}

/// Builds the process list of a snapshot: drops the samples with zero resident
/// memory, marks the entry whose process id is `own_pid`, and orders the rest by
/// memory, largest first, keeping the sample order among equal memory.
pub fn build_processes(raw: &Vec<ProcessSample>, own_pid: u32) -> (r: Processes)
    ensures
        r@ == process_list(raw@, own_pid),
{
    let mut out: Vec<Prcs> = Vec::new();
    let n = raw.len();
    let mut i: usize = 0;
    while i < n
        invariant
            n == raw.len(),
            i <= n,
            out@.map_values(|p: Prcs| p@) == process_list(raw@.subrange(0, i as int), own_pid),
        decreases n - i,
    {
        let s = &raw[i];
        proof {
            assert(raw@.subrange(0, i + 1).drop_last() =~= raw@.subrange(0, i as int));
            assert(raw@.subrange(0, i + 1).last() == raw@[i as int]);
        }
        if s.mem > 0 {
            let ghost before = out@.map_values(|p: Prcs| p@);
            let m = s.mem;
            let mut j: usize = 0;
            while j < out.len() && out[j].mem >= m
                invariant
                    j <= out.len(),
                    before == out@.map_values(|p: Prcs| p@),
                    forall|k: int| 0 <= k < j ==> before[k].mem >= m,
                decreases out.len() - j,
            {
                j = j + 1;
            }
            proof {
                lemma_slot_for_at(before, m, j as int);
            }
            let rec = Prcs {
                name: s.name.clone(),
                mem: s.mem,
                cpu: s.cpu,
                disk_read: s.disk_read,
                disk_written: s.disk_written,
                status: s.status.clone(),
                is_this_process: s.pid == own_pid,
            };
            out.insert(j, rec);
            proof {
                assert(rec@ == record_of(raw@[i as int], own_pid));
                assert(out@.map_values(|p: Prcs| p@) =~= before.insert(j as int, rec@));
            }
        }
        i = i + 1;
    }
    proof {
        assert(raw@.subrange(0, n as int) =~= raw@);
    }
    Processes(out)
}

/// The usage of a volume from its size and its free space; a volume reporting
/// more free space than its size counts as unused.
pub fn disk_usage(name: String, total: u64, available: u64) -> (r: DiskUsage)
    ensures
        r.name == name,
        r.total == total,
        r.used == if available <= total {
            total - available
        } else {
            0
        },
{
    let used = if available <= total {
        total - available
    } else {
        0
    };
    DiskUsage { name, total, used }
}

fn text_or(o: Option<String>, placeholder: &str) -> (r: String)
    ensures
        r@ == match o {
            Some(s) => s@,
            None => placeholder@,
        },
{
    match o {
        Some(s) => s,
        None => String::from_str(placeholder),
    }
}

/// The host name as reported, or `Unknown host` when the system gives none.
pub fn host_or_unknown(o: Option<String>) -> (r: String)
    ensures
        r@ == match o {
            Some(s) => s@,
            None => "Unknown host"@,
        },
{
    text_or(o, "Unknown host")
}

/// The operating system's description as reported, or `Unknown OS` when the
/// system gives none.
pub fn os_or_unknown(o: Option<String>) -> (r: String)
    ensures
        r@ == match o {
            Some(s) => s@,
            None => "Unknown OS"@,
        },
{
    text_or(o, "Unknown OS")
}

/// The pause between two ticks: the requested one, but never shorter than the
/// shortest interval over which the metrics source measures load.
pub fn sampling_interval_ms(requested: u64, minimum: u64) -> (r: u64)
    ensures
        r == if requested < minimum {
            minimum
        } else {
            requested
        },
        r >= minimum,
{
    if requested < minimum {
        minimum
    } else {
        requested
    }
}

/// Assembles one snapshot from what was sampled in a tick.
pub fn build_snapshot(
    general: HostInfo,
    cpu: Vec<u32>,
    mem_total: u64,
    mem_used: u64,
    samples: &Vec<ProcessSample>,
    own_pid: u32,
    disk: Option<DiskUsage>,
    net: Vec<NetIface>,
) -> (r: SysInfo)
    ensures
        r.general == general,
        r.cpu == cpu,
        r.mem_total == mem_total,
        r.mem_used == mem_used,
        r.processes@ == process_list(samples@, own_pid),
        r.disk == disk,
        r.net == net,
{
    let processes = build_processes(samples, own_pid);
    SysInfo { general, cpu, mem_total, mem_used, processes, disk, net }
}

} // verus!
