//! Discovery of a device's pairing and service ports, and the races that
//! decide which discovered port plays which role.
//!
//! The library holds the decisions: how a port range is split among scan
//! workers, how the ports they find are put in order, how a race keeps its
//! first success, and how the session moves from stage to stage. Sockets,
//! threads, processes and name lookup stay with the caller.

pub mod ports;
pub mod race;
pub mod scan;
pub mod session;

pub use ports::{PortRange, DISCOVERY_END, DISCOVERY_START};
pub use race::Race;
pub use scan::{collect_open_ports, partition, PORT_COUNT, PROBE_TIMEOUT_MS, SCAN_WORKERS};
pub use session::{exit_code, Connection, Failure, Session, Stage, SETTLE_DELAY_MS};
