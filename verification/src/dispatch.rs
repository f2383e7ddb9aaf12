//! Partitioned dispatch: deterministic symbol-to-partition routing, batch
//! grouping of requests by partition, per-partition statistics, and the
//! worker's adaptive idle policy. The worker threads and their queues live
//! outside the library; every decision they take is computed here.

use crate::protocol::NewOrderRequest;
use std::collections::hash_map::DefaultHasher;
use std::hash::Hasher;
use vstd::prelude::*;
use vstd::std_specs::hash::DefaultHasherAdditionalSpecFns;
use vstd::string::StringSliceAdditionalSpecFns;

verus! {

/// Configuration of the partitioned engine.
#[derive(Clone, Debug)]
pub struct PartitionConfig {
    /// Number of single-threaded worker partitions.
    pub partition_count: usize,
    /// Capacity of each partition's command queue.
    pub queue_capacity: usize,
    /// Most commands drained per batch.
    pub batch_size: usize,
    /// Pin each worker to a core.
    pub enable_cpu_affinity: bool,
}

/// Relies on `num_cpus::get`: the number of logical CPUs of this machine; it
/// is documented to be at least one, and nothing more is assumed.
#[verifier::external_body]
fn detected_parallelism() -> (r: usize)
    ensures
        r >= 1,
{
    num_cpus::get()
}

impl Default for PartitionConfig {
    /// One partition per detected CPU, a ten-thousand-command queue, and
    /// batches of one hundred.
    fn default() -> (r: Self)
        ensures
            r.partition_count >= 1,
            r.queue_capacity == 10_000,
            r.batch_size == 100,
            r.enable_cpu_affinity,
    {
        PartitionConfig {
            partition_count: detected_parallelism(),
            queue_capacity: 10_000,
            batch_size: 100,
            enable_cpu_affinity: true,
        }
    }
}

/// Counters one partition worker keeps about its own work.
#[derive(Clone, Copy, Debug, Default)]
pub struct PartitionStats {
    pub orders_processed: u64,
    pub trades_generated: u64,
    pub queue_depth: usize,
}

impl PartitionStats {
    /// Fresh counters, all zero.
    pub fn new() -> (r: PartitionStats)
        ensures
            r.orders_processed == 0,
            r.trades_generated == 0,
            r.queue_depth == 0,
    {
        PartitionStats { orders_processed: 0, trades_generated: 0, queue_depth: 0 }
    }

    /// Accounts one processed order and its generated trades; the counters
    /// wrap on overflow like the machine's own.
    pub fn record_order(&mut self, trade_count: u64)
        ensures
            final(self).orders_processed == vstd::wrapping::u64_specs::wrapping_add(
                old(self).orders_processed,
                1,
            ),
            final(self).trades_generated == vstd::wrapping::u64_specs::wrapping_add(
                old(self).trades_generated,
                trade_count,
            ),
            final(self).queue_depth == old(self).queue_depth,
    {
        self.orders_processed = self.orders_processed.wrapping_add(1);
        self.trades_generated = self.trades_generated.wrapping_add(trade_count);
    }
}

/// The digest the routing hasher assigns to one write of `s`.
pub open spec fn spec_symbol_hash(s: Seq<u8>) -> u64 {
    DefaultHasher::spec_finish(seq![s])
}

/// Partition of a symbol among `n`: the hash of its UTF-8 bytes modulo `n`.
pub open spec fn spec_route(s: Seq<char>, n: int) -> int {
    spec_symbol_hash(vstd::utf8::encode_utf8(s)) as int % n
}

/// Routing is a pure function of the symbol and the partition count:
/// identical inputs land on identical partitions, on every call.
pub proof fn lemma_route_stable(a: Seq<char>, b: Seq<char>, n: int)
    requires
        a == b,
    ensures
        spec_route(a, n) == spec_route(b, n),
{
}

/// Partition that handles `symbol` among `partition_count` workers.
pub fn route_to_partition(symbol: &str, partition_count: usize) -> (r: usize)
    requires
        partition_count > 0,
    ensures
        r == spec_route(symbol@, partition_count as int),
        r < partition_count,
{
    let mut hasher = DefaultHasher::new();
    hasher.write(symbol.as_bytes());
    let h = hasher.finish();
    proof {
        assert(hasher@ =~= seq![symbol.spec_bytes()]);
    }
    (h % (partition_count as u64)) as usize
}

/// An exact copy of a request.
fn clone_request(r: &NewOrderRequest) -> (c: NewOrderRequest)
    ensures
        c == *r,
{
    NewOrderRequest {
        user_id: r.user_id,
        symbol: r.symbol.clone(),
        order_type: r.order_type,
        price: r.price,
        quantity: r.quantity,
    }
}

/// Filtering distributes over appending one element.
proof fn lemma_filter_push<A>(s: Seq<A>, x: A, p: spec_fn(A) -> bool)
    ensures
        s.push(x).filter(p) == (if p(x) {
            s.filter(p).push(x)
        } else {
            s.filter(p)
        }),
{
    reveal_with_fuel(Seq::filter, 2);
    assert(s.push(x).drop_last() =~= s);
    assert(s.push(x).last() == x);
}

/// Groups a batch of requests by their partition: bucket `b` receives, in
/// submission order, exactly the requests whose symbol routes to `b`.
pub fn partition_requests(requests: &Vec<NewOrderRequest>, partition_count: usize) -> (r: Vec<
    Vec<NewOrderRequest>,
>)
    requires
        partition_count > 0,
    ensures
        r@.len() == partition_count,
        forall|b: int|
            0 <= b < partition_count ==> (#[trigger] r@[b])@ == requests@.filter(
                |q: NewOrderRequest| spec_route(q.symbol@, partition_count as int) == b,
            ),
{
    let mut buckets: Vec<Vec<NewOrderRequest>> = Vec::new();
    let mut b: usize = 0;
    while b < partition_count
        invariant
            partition_count > 0,
            b <= partition_count,
            buckets@.len() == b,
            forall|bb: int|
                0 <= bb < b ==> (#[trigger] buckets@[bb])@ == requests@.filter(
                    |q: NewOrderRequest| spec_route(q.symbol@, partition_count as int) == bb,
                ),
        decreases partition_count - b,
    {
        let ghost pred = |q: NewOrderRequest| spec_route(q.symbol@, partition_count as int)
            == b as int;
        let mut bucket: Vec<NewOrderRequest> = Vec::new();
        let n = requests.len();
        let mut i: usize = 0;
        proof {
            assert(requests@.subrange(0, 0) =~= Seq::<NewOrderRequest>::empty());
            assert(bucket@ =~= requests@.subrange(0, 0).filter(pred));
        }
        while i < n
            invariant
                partition_count > 0,
                n == requests@.len(),
                i <= n,
                pred == (|q: NewOrderRequest| spec_route(q.symbol@, partition_count as int)
                    == b as int),
                bucket@ == requests@.subrange(0, i as int).filter(pred),
            decreases n - i,
        {
            let route = route_to_partition(requests[i].symbol.as_str(), partition_count);
            if route == b {
                bucket.push(clone_request(&requests[i]));
            }
            proof {
                assert(requests@.subrange(0, i + 1) =~= requests@.subrange(0, i as int).push(
                    requests@[i as int],
                ));
                lemma_filter_push(requests@.subrange(0, i as int), requests@[i as int], pred);
            }
            i = i + 1;
        }
        proof {
            assert(requests@.subrange(0, n as int) =~= requests@);
        }
        buckets.push(bucket);
        b = b + 1;
    }
    buckets
}

/// What an idle worker does next: spin one iteration when it just had
/// backlog, yield the thread otherwise.
#[derive(Clone, Copy, Debug, PartialEq, Eq, Structural)]
pub enum IdleAction {
    Spin,
    Yield,
}

/// The adaptive idle policy of the batch-drain loop.
pub fn idle_action(had_backlog: bool) -> (r: IdleAction)
    ensures
        r == (if had_backlog {
            IdleAction::Spin
        } else {
            IdleAction::Yield
        }),
{
    if had_backlog {
        IdleAction::Spin
    } else {
        IdleAction::Yield
    }
}

} // verus!
