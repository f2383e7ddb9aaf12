//! Network-facing value types: transfer counters, backend selection, health
//! states, and the configuration records of the kernel-bypass backends. The
//! transports themselves do I/O and live outside the library.

use vstd::prelude::*;

verus! {

/// Transfer counters for one transport; the enclosing service derives its
/// rates from these.
#[derive(Clone, Copy, Debug)]
pub struct NetworkMetrics {
    pub rx_packets: u64,
    pub tx_packets: u64,
    pub rx_bytes: u64,
    pub tx_bytes: u64,
    pub dropped_packets: u64,
    pub errors: u64,
    pub cumulative_latency_ns: u64,
    pub latency_samples: u64,
}

impl NetworkMetrics {
    /// Fresh counters, all zero.
    pub fn new() -> (r: NetworkMetrics)
        ensures
            r == (NetworkMetrics {
                rx_packets: 0,
                tx_packets: 0,
                rx_bytes: 0,
                tx_bytes: 0,
                dropped_packets: 0,
                errors: 0,
                cumulative_latency_ns: 0,
                latency_samples: 0,
            }),
    {
        NetworkMetrics {
            rx_packets: 0,
            tx_packets: 0,
            rx_bytes: 0,
            tx_bytes: 0,
            dropped_packets: 0,
            errors: 0,
            cumulative_latency_ns: 0,
            latency_samples: 0,
        }
    }

    /// Accounts one received packet of `bytes` bytes; counters wrap like the
    /// machine's own.
    pub fn record_rx_packet(&mut self, bytes: usize)
        ensures
            *final(self) == (NetworkMetrics {
                rx_packets: vstd::wrapping::u64_specs::wrapping_add(old(self).rx_packets, 1),
                rx_bytes: vstd::wrapping::u64_specs::wrapping_add(
                    old(self).rx_bytes,
                    bytes as u64,
                ),
                ..*old(self)
            }),
    {
        self.rx_packets = self.rx_packets.wrapping_add(1);
        self.rx_bytes = self.rx_bytes.wrapping_add(bytes as u64);
    }

    /// Accounts one sent packet of `bytes` bytes.
    pub fn record_tx_packet(&mut self, bytes: usize)
        ensures
            *final(self) == (NetworkMetrics {
                tx_packets: vstd::wrapping::u64_specs::wrapping_add(old(self).tx_packets, 1),
                tx_bytes: vstd::wrapping::u64_specs::wrapping_add(
                    old(self).tx_bytes,
                    bytes as u64,
                ),
                ..*old(self)
            }),
    {
        self.tx_packets = self.tx_packets.wrapping_add(1);
        self.tx_bytes = self.tx_bytes.wrapping_add(bytes as u64);
    }

    /// Accounts one dropped packet.
    pub fn record_dropped(&mut self)
        ensures
            *final(self) == (NetworkMetrics {
                dropped_packets: vstd::wrapping::u64_specs::wrapping_add(
                    old(self).dropped_packets,
                    1,
                ),
                ..*old(self)
            }),
    {
        self.dropped_packets = self.dropped_packets.wrapping_add(1);
    }

    /// Accounts one transport error.
    pub fn record_error(&mut self)
        ensures
            *final(self) == (NetworkMetrics {
                errors: vstd::wrapping::u64_specs::wrapping_add(old(self).errors, 1),
                ..*old(self)
            }),
    {
        self.errors = self.errors.wrapping_add(1);
    }

    /// Accounts one latency sample, in nanoseconds.
    pub fn record_latency(&mut self, latency_ns: u64)
        ensures
            *final(self) == (NetworkMetrics {
                cumulative_latency_ns: vstd::wrapping::u64_specs::wrapping_add(
                    old(self).cumulative_latency_ns,
                    latency_ns,
                ),
                latency_samples: vstd::wrapping::u64_specs::wrapping_add(
                    old(self).latency_samples,
                    1,
                ),
                ..*old(self)
            }),
    {
        self.cumulative_latency_ns = self.cumulative_latency_ns.wrapping_add(latency_ns);
        self.latency_samples = self.latency_samples.wrapping_add(1);
    }

    /// Resets every counter to zero.
    pub fn reset(&mut self)
        ensures
            *final(self) == (NetworkMetrics {
                rx_packets: 0,
                tx_packets: 0,
                rx_bytes: 0,
                tx_bytes: 0,
                dropped_packets: 0,
                errors: 0,
                cumulative_latency_ns: 0,
                latency_samples: 0,
            }),
    {
        self.rx_packets = 0;
        self.tx_packets = 0;
        self.rx_bytes = 0;
        self.tx_bytes = 0;
        self.dropped_packets = 0;
        self.errors = 0;
        self.cumulative_latency_ns = 0;
        self.latency_samples = 0;
    }
}

/// Which transport backend serves the engine.
#[derive(Clone, Copy, Debug, PartialEq, Eq, Structural)]
pub enum BackendType {
    /// Asynchronous kernel sockets (the default).
    Tokio,
    /// Kernel-bypass user-space networking.
    Dpdk,
    /// Hardware-accelerated path.
    Fpga,
}

/// Health of the service as reported by its probes.
#[derive(Clone, Copy, Debug, PartialEq, Eq, Structural)]
pub enum HealthStatus {
    Healthy,
    /// Running with some functionality unavailable.
    Degraded,
    Unhealthy,
}

/// Configuration of the kernel-bypass backend's queues and memory pools.
#[derive(Clone, Debug)]
pub struct DpdkConfig {
    /// Environment-abstraction-layer arguments.
    pub eal_args: Vec<String>,
    pub port_id: u16,
    pub rx_queues: u16,
    pub tx_queues: u16,
    pub rx_desc: u16,
    pub tx_desc: u16,
    pub mbuf_pool_size: u32,
    pub mbuf_cache_size: u32,
    pub mtu: u16,
    pub enable_rss: bool,
    pub enable_checksum_offload: bool,
    pub rx_burst_size: u16,
    pub tx_burst_size: u16,
}

impl Default for DpdkConfig {
    /// Four receive and transmit queues with receive-side scaling, standard
    /// descriptor and buffer-pool sizes, and batches of thirty-two packets.
    fn default() -> (r: Self)
        ensures
            r.port_id == 0,
            r.rx_queues == 4,
            r.tx_queues == 4,
            r.rx_desc == 2048,
            r.tx_desc == 2048,
            r.mbuf_pool_size == 8192,
            r.mbuf_cache_size == 256,
            r.mtu == 1500,
            r.enable_rss,
            r.enable_checksum_offload,
            r.rx_burst_size == 32,
            r.tx_burst_size == 32,
            r.eal_args@.len() == 3,
    {
        let mut eal_args: Vec<String> = Vec::new();
        eal_args.push("--proc-type=primary".to_owned());
        eal_args.push("--huge-dir=/dev/hugepages".to_owned());
        eal_args.push("--file-prefix=dpdk".to_owned());
        DpdkConfig {
            eal_args,
            port_id: 0,
            rx_queues: 4,
            tx_queues: 4,
            rx_desc: 2048,
            tx_desc: 2048,
            mbuf_pool_size: 8192,
            mbuf_cache_size: 256,
            mtu: 1500,
            enable_rss: true,
            enable_checksum_offload: true,
            rx_burst_size: 32,
            tx_burst_size: 32,
        }
    }
}

/// Configuration of the submission-queue-polling backend.
#[derive(Clone, Copy, Debug)]
pub struct IoUringConfig {
    pub queue_depth: u32,
    pub sqpoll: bool,
    pub sqpoll_idle_ms: u32,
    pub use_registered_files: bool,
    pub use_registered_buffers: bool,
    pub buffer_size: usize,
    pub buffer_pool_size: usize,
}

impl Default for IoUringConfig {
    /// A deep queue without kernel polling, registered files and buffers,
    /// and sixty-four-kibibyte buffers.
    fn default() -> (r: Self)
        ensures
            r == (IoUringConfig {
                queue_depth: 2048,
                sqpoll: false,
                sqpoll_idle_ms: 2000,
                use_registered_files: true,
                use_registered_buffers: true,
                buffer_size: 65536,
                buffer_pool_size: 1024,
            }),
    {
        IoUringConfig {
            queue_depth: 2048,
            sqpoll: false,
            sqpoll_idle_ms: 2000,
            use_registered_files: true,
            use_registered_buffers: true,
            buffer_size: 65536,
            buffer_pool_size: 1024,
        }
    }
}

} // verus!
