//! Host-metrics snapshots: the data model, the collector's process ordering,
//! the wire encoder and a latest-wins broadcast hub.
//!
//! Units: memory, disk and network figures are bytes everywhere; loads are
//! hundredths of a percent in the data and percentages with two fraction
//! digits on the wire.
mod collect;
mod encode;
mod hub;
mod snapshot;

pub use collect::{
    build_processes, build_snapshot, disk_usage, host_or_unknown, insert_by_mem, kept_records,
    lemma_process_list_ordered, lemma_process_list_stable, mem_is, os_or_unknown, process_list,
    record_of, sampling_interval_ms, slot_for, sorted_by_mem,
};
pub use encode::{
    centi, centi_value, decimal, digit_char, digits_value, disk_json, escaped, escaped_char,
    hex_digit, hex_value, host_json, joined, json_quoted, lemma_centi_round_trip,
    lemma_decimal_round_trip, lemma_quoted_round_trip, load_text, message, net_json, opt_decimal,
    prc_json, prc_text, short_escape, unescaped, unquoted,
};
pub use hub::{
    lemma_index_unique, lemma_late_subscriber, lemma_leave_keeps_others,
    lemma_reader_sees_every_publish, publish_and_read, Cursor, Hub, HubOp, HubView, SlotView,
};
pub use snapshot::{
    DiskUsage, HostInfo, NetIface, ProcessSample, Processes, Prcs, PrcsView, SysInfo,
};
