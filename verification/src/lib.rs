//! Expert paging, routing and tracing logic of a two-device inference engine.

pub mod config;
pub mod windows;
pub mod pool;
pub mod expert_pager;
pub mod residency;
pub mod prefetch;
pub mod pager_laws;
pub mod pool_laws;
pub mod count_laws;
pub mod room_laws;
pub mod union_laws;
pub mod routing;
pub mod substitute;
pub mod substitute_laws;
pub mod choice_laws;
pub mod knobs;
pub mod b2_mirror;
pub mod kv_window;
pub mod layer_ops;
pub mod layer_compress;
pub mod layer_attention;
pub mod layer_plan;
pub mod attention_laws;
pub mod layer_laws;
pub mod layer_values;
pub mod layer_value_laws;
pub mod lane_laws;
pub mod counts;
pub mod miss_shape;
pub mod text;
pub mod scan;
pub mod scan_laws;
pub mod token;
pub mod token_laws;
pub mod pick_stats;
pub mod diagnostics;
pub mod batch_scratch;
pub mod scratch_sizes;
pub mod size_laws;
pub mod layout_laws;
pub mod dispatch;
pub mod fidelity_tap;
pub mod utc;
pub mod text_order;
pub mod sys_sample;
pub mod evtrace_kinds;
pub mod evtrace;
pub mod evt_file;
pub mod evt_header;
pub mod evt_laws;
pub mod mtp;
pub mod mtp_laws;
pub mod draft_laws;
pub mod head;
pub mod head_laws;
pub mod devices;
pub mod pool_setup;
pub mod ownership;
pub mod share_laws;
pub mod tally_laws;
pub mod report_laws;
