//! The configuration the platform hands the server: thread count, index
//! capacity, NUMA placement strategy, transport, and ports. Parsing the
//! command line, discovering the machine's topology, pinning and
//! spawning threads, and the sockets themselves live outside the
//! library, in the server binary.

use vstd::prelude::*;

verus! {

/// A core id, as the platform numbers them.
pub type CpuId = usize;

/// A spawned worker's handle.
pub type ThreadId = usize;

/// Defines the strategy how threads are allocated in the system.
#[derive(Debug, Copy, Clone, Eq, PartialEq)]
pub enum NumaTopology {
    /// Allocate threads on the same socket (as much as possible before
    /// going to the next).
    Sequential,
    /// Spread thread allocation out across sockets.
    Interleave,
}

/// The transport layer workers serve on.
#[derive(Debug, Copy, Clone, Eq, PartialEq)]
pub enum Transport {
    Udp,
    Tcp,
}

/// Control settings of the KV server.
#[derive(Copy, Clone, Eq, PartialEq, Debug)]
pub struct CmdArgs {
    /// How many threads/cores to allocate.
    pub threads: usize,
    /// How to allocate threads on the system.
    pub numa_strategy: NumaTopology,
    /// Initial hash-map capacity.
    pub capacity: usize,
    /// Transport layer.
    pub transport: Transport,
    /// In case of TCP transport, how many connections we expect per port.
    pub tcp_connections_per_port: usize,
    /// Start port address.
    pub port: usize,
}

/// The settings the command line starts from: one worker, capacity
/// 10000, interleaved placement, UDP, one TCP stream per port, base
/// port 6666.
pub fn default_args() -> (r: CmdArgs)
    ensures
        r.threads == 1,
        r.numa_strategy == NumaTopology::Interleave,
        r.capacity == 10000,
        r.transport == Transport::Udp,
        r.tcp_connections_per_port == 1,
        r.port == 6666,
{
    CmdArgs {
        threads: 1,
        numa_strategy: NumaTopology::Interleave,
        capacity: 10000,
        transport: Transport::Udp,
        tcp_connections_per_port: 1,
        port: 6666,
    }
}

/// Whether a worker terminates on what `recv` returned: a zero-byte
/// read means the peer closed, which ends the worker on a stream
/// transport only (a datagram of zero bytes is just an empty request).
pub fn should_terminate(transport: Transport, bytes_received: usize) -> (r: bool)
    ensures
        r == (transport == Transport::Tcp && bytes_received == 0),
{
    match transport {
        Transport::Tcp => bytes_received == 0,
        Transport::Udp => false,
    }
}

/// The port worker `worker_id` binds: the base port plus the worker id,
/// where that fits a port number.
pub fn worker_port(args: &CmdArgs, worker_id: usize) -> (r: Option<u16>)
    ensures
        match r {
            Some(p) => args.port + worker_id <= u16::MAX && p as int == args.port + worker_id,
            None => args.port + worker_id > u16::MAX,
        },
{
    if worker_id <= (u16::MAX as usize) && args.port <= (u16::MAX as usize) - worker_id {
        Some((args.port + worker_id) as u16)
    } else {
        None
    }
}

} // verus!
