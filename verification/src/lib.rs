//! A single-threaded IPv4 TCP port scanner core built around a kernel
//! submission/completion ring.
//!
//! The library owns the correctness-critical state: the fixed-capacity pool
//! of operation slots and I/O buffers (`ring`), the enumeration of target
//! hosts from CIDR blocks (`ip_source`), the per-probe-class capabilities
//! that build chains of kernel operations and interpret their completions
//! (`scan`), and the drive-loop decisions (`engine`). The thin binary around
//! it performs the actual kernel calls and logging.

pub mod engine;
pub mod ip_source;
pub mod lines;
pub mod ring;
pub mod scan;
