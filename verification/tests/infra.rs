use matching_engine::{
    idle_action, partition_requests, route_to_partition, stamp_match_outputs, AlignedBuffer,
    CodecError, DpdkConfig, EngineOutput, IdleAction, LengthDelimitedCodec, NetworkMetrics,
    NewOrderRequest, OrderConfirmation, OrderType, PartitionConfig, SharedBuffer, TickBasedOrderBook,
    ContractSpec, TimestampCache,
};
use std::time::Instant;

#[test]
fn test_dpdk_config() {
    let config = DpdkConfig::default();
    assert_eq!(config.rx_queues, 4);
    assert_eq!(config.tx_queues, 4);
    assert!(config.enable_rss);
}

#[test]
fn test_shared_buffer() {
    let buf = SharedBuffer::from_vec(vec![1, 2, 3, 4, 5]);
    assert_eq!(buf.len(), 5);
    assert_eq!(buf.as_slice(), &[1, 2, 3, 4, 5]);

    let slice = buf.slice(1, 4);
    assert_eq!(slice.as_slice(), &[2, 3, 4]);

    // The first buffer still shows all bytes after slicing.
    assert_eq!(buf.as_slice(), &[1, 2, 3, 4, 5]);
}

#[test]
fn test_aligned_buffer() {
    let buf = AlignedBuffer::new(1024, 64);
    assert_eq!(buf.len(), 1024);

    let addr = buf.virt_addr();
    assert_eq!(addr % 64, 0, "Buffer is not aligned to 64 bytes");
}

#[test]
fn test_partial_frame() {
    let codec = LengthDelimitedCodec::new();

    // Only 2 bytes: not enough to read the length prefix.
    let buf = [0u8; 2];
    let result = codec.decode(&buf).unwrap();
    assert!(result.is_none());
}

#[test]
fn test_frame_round_trip() {
    let codec = LengthDelimitedCodec::new();
    let payload = [9u8, 8, 7, 6, 5];
    let mut buf = [0u8; 32];

    let written = codec.encode(&payload, &mut buf).unwrap();
    assert_eq!(written, 9);
    assert_eq!(&buf[0..4], &[0, 0, 0, 5]);

    let decoded = codec.decode(&buf[..written]).unwrap().unwrap();
    assert_eq!(decoded, &payload);
}

#[test]
fn test_frame_too_large() {
    let codec = LengthDelimitedCodec::with_max_frame_len(4);
    let payload = [1u8; 8];
    let mut buf = [0u8; 32];
    assert_eq!(
        codec.encode(&payload, &mut buf),
        Err(CodecError::FrameTooLarge { len: 8, max: 4 })
    );

    // A prefix announcing more than the limit is refused on decode too.
    let wire = [0u8, 0, 0, 200, 1, 2];
    assert!(matches!(
        codec.decode(&wire),
        Err(CodecError::FrameTooLarge { len: 200, max: 4 })
    ));
}

#[test]
fn test_encode_buffer_too_small() {
    let codec = LengthDelimitedCodec::new();
    let payload = [1u8; 8];
    let mut buf = [0u8; 6];
    assert_eq!(codec.encode(&payload, &mut buf), Err(CodecError::BufferTooSmall));
}

#[test]
fn test_network_metrics_counters() {
    let mut metrics = NetworkMetrics::new();

    metrics.record_rx_packet(1024);
    metrics.record_rx_packet(2048);
    metrics.record_tx_packet(512);
    metrics.record_dropped();
    metrics.record_latency(100_000);
    metrics.record_latency(200_000);

    assert_eq!(metrics.rx_packets, 2);
    assert_eq!(metrics.tx_packets, 1);
    assert_eq!(metrics.rx_bytes, 3072);
    assert_eq!(metrics.tx_bytes, 512);
    assert_eq!(metrics.dropped_packets, 1);
    assert_eq!(metrics.cumulative_latency_ns, 300_000);
    assert_eq!(metrics.latency_samples, 2);

    metrics.reset();
    assert_eq!(metrics.rx_packets, 0);
    assert_eq!(metrics.latency_samples, 0);
}

#[test]
fn partitioned_service_test_routing_consistency() {
    let partition1 = route_to_partition("BTC/USD", 4);
    let partition2 = route_to_partition("BTC/USD", 4);
    let partition3 = route_to_partition("BTC/USD", 4);

    assert_eq!(partition1, partition2);
    assert_eq!(partition2, partition3);
    assert!(partition1 < 4);
}

#[test]
fn partitioned_engine_test_routing_consistency() {
    for n in [1usize, 2, 4, 8] {
        let first = route_to_partition("ETH/USD", n);
        for _ in 0..10 {
            assert_eq!(route_to_partition("ETH/USD", n), first);
        }
    }
}

#[test]
fn test_partition_requests_grouping() {
    let symbols = ["BTC/USD", "ETH/USD", "BNB/USD", "SOL/USD", "BTC/USD"];
    let requests: Vec<NewOrderRequest> = symbols
        .iter()
        .enumerate()
        .map(|(i, s)| NewOrderRequest {
            user_id: i as u64,
            symbol: String::from(*s),
            order_type: OrderType::Buy,
            price: 100,
            quantity: 1,
        })
        .collect();

    let buckets = partition_requests(&requests, 3);
    assert_eq!(buckets.len(), 3);

    // Every request lands in the bucket its symbol routes to, and
    // partition-local submission order is preserved.
    let mut seen = 0;
    for (b, bucket) in buckets.iter().enumerate() {
        let mut last_user = None;
        for req in bucket {
            assert_eq!(route_to_partition(&req.symbol, 3), b);
            if let Some(prev) = last_user {
                assert!(req.user_id > prev);
            }
            last_user = Some(req.user_id);
            seen += 1;
        }
    }
    assert_eq!(seen, requests.len());

    // The two orders for the same symbol stay in submission order.
    let b = route_to_partition("BTC/USD", 3);
    let btc: Vec<u64> = buckets[b]
        .iter()
        .filter(|r| r.symbol == "BTC/USD")
        .map(|r| r.user_id)
        .collect();
    assert_eq!(btc, vec![0, 4]);
}

#[test]
fn test_idle_action_policy() {
    assert_eq!(idle_action(true), IdleAction::Spin);
    assert_eq!(idle_action(false), IdleAction::Yield);
}

#[test]
fn test_partition_config_default() {
    let config = PartitionConfig::default();
    assert!(config.partition_count >= 1);
    assert_eq!(config.queue_capacity, 10_000);
    assert_eq!(config.batch_size, 100);
    assert!(config.enable_cpu_affinity);
}

#[test]
fn test_stamp_match_outputs() {
    let spec = ContractSpec::new("TEST", 10, 1000, 2000);
    let mut book = TickBasedOrderBook::new(spec);
    book.match_order(NewOrderRequest {
        user_id: 1,
        symbol: String::from("TEST"),
        order_type: OrderType::Sell,
        price: 1500,
        quantity: 30,
    });
    let (trades, _) = book.match_order(NewOrderRequest {
        user_id: 2,
        symbol: String::from("TEST"),
        order_type: OrderType::Buy,
        price: 1500,
        quantity: 50,
    });
    let conf = Some(OrderConfirmation { order_id: 2, user_id: 2 });

    let (outputs, next_id) = stamp_match_outputs(trades, conf, 41, 777);
    assert_eq!(next_id, 42);
    assert_eq!(outputs.len(), 2);
    match &outputs[0] {
        EngineOutput::Trade(t) => {
            assert_eq!(t.trade_id, 41);
            assert_eq!(t.timestamp, 777);
            assert_eq!(t.matched_quantity, 30);
        }
        _ => panic!("first output should be the trade"),
    }
    match &outputs[1] {
        EngineOutput::Confirmation(c) => {
            assert_eq!(c.order_id, 2);
            assert_eq!(c.user_id, 2);
        }
        _ => panic!("second output should be the confirmation"),
    }
}

#[test]
fn test_cache_usage() {
    let mut cache = TimestampCache::new(100);
    cache.force_update();

    let ts1 = cache.fast_timestamp();
    let mut same_count = 0;

    for _ in 1..50 {
        let ts = cache.fast_timestamp();
        if ts == ts1 {
            same_count += 1;
        }
    }

    assert!(same_count > 40, "Should use cache most of the time");
}

#[test]
fn test_performance_comparison() {
    let mut cache = TimestampCache::new(100);

    let start = Instant::now();
    for _ in 0..10000 {
        cache.precise_timestamp();
    }
    let precise_duration = start.elapsed();

    cache.force_update();

    let start = Instant::now();
    for _ in 0..10000 {
        cache.fast_timestamp();
    }
    let fast_duration = start.elapsed();

    println!(
        "Precise: {:?}, Fast: {:?}, Speedup: {:.2}x",
        precise_duration,
        fast_duration,
        precise_duration.as_nanos() as f64 / fast_duration.as_nanos() as f64
    );

    let speedup = precise_duration.as_nanos() as f64 / fast_duration.as_nanos() as f64;
    assert!(
        speedup >= 1.5,
        "Fast timestamp should be at least 1.5x faster, got {:.2}x",
        speedup
    );
}

#[test]
fn test_fast_timestamp_refresh_after_interval() {
    let mut cache = TimestampCache::new(2);
    let first = cache.fast_timestamp();
    assert!(first > 0, "the first call performs a real read");
    // Two cached calls, then a refresh.
    let a = cache.fast_timestamp();
    let b = cache.fast_timestamp();
    assert_eq!(a, first);
    assert_eq!(b, first);
    let c = cache.fast_timestamp();
    assert!(c >= first);
}
