use sashstore::arch::{default_args, should_terminate, worker_port, NumaTopology, Transport};

#[test]
fn only_a_closed_stream_terminates_a_worker() {
    assert!(should_terminate(Transport::Tcp, 0));
    assert!(!should_terminate(Transport::Tcp, 12));
    assert!(!should_terminate(Transport::Udp, 0));
    assert!(!should_terminate(Transport::Udp, 12));
}

#[test]
fn default_settings_match_the_cli_defaults() {
    let args = default_args();
    assert_eq!(args.threads, 1);
    assert_eq!(args.capacity, 10000);
    assert_eq!(args.numa_strategy, NumaTopology::Interleave);
    assert_eq!(args.transport, Transport::Udp);
    assert_eq!(args.tcp_connections_per_port, 1);
    assert_eq!(args.port, 6666);
}

#[test]
fn worker_ports_step_from_the_base_port() {
    let args = default_args();
    assert_eq!(worker_port(&args, 0), Some(6666));
    assert_eq!(worker_port(&args, 1), Some(6667));
    assert_eq!(worker_port(&args, 7), Some(6673));
}

#[test]
fn worker_port_past_the_range_is_refused() {
    let mut args = default_args();
    args.port = 65535;
    assert_eq!(worker_port(&args, 0), Some(65535));
    assert_eq!(worker_port(&args, 1), None);
}
