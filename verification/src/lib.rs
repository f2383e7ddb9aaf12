//! Core of a tick-priced limit-order matching engine.
//!
//! Price levels live in a dense array indexed by `(price - min_price) / tick_size`;
//! a bitmap per side mirrors level occupancy and answers best-price and
//! next-price queries with word-level bit scans; each level is a fixed-capacity
//! FIFO ring buffer of resting orders.

mod bitmap;
mod book;
mod buffer;
mod codec;
mod dispatch;
mod engine;
mod net;
mod protocol;
mod ring;
mod timestamp;
mod trades;
mod use_cases;
mod validation;

pub use bitmap::FastBitmap;
pub use book::{ContractSpec, OrderNode, TickBasedOrderBook};
pub use buffer::{AlignedBuffer, SharedBuffer};
pub use codec::{CodecError, LengthDelimitedCodec};
pub use dispatch::{
    idle_action, partition_requests, route_to_partition, IdleAction, PartitionConfig,
    PartitionStats,
};
pub use engine::{stamp_match_outputs, stamp_trade, EngineCommand, EngineOutput};
pub use net::{BackendType, DpdkConfig, HealthStatus, IoUringConfig, NetworkMetrics};
pub use protocol::{
    CancelOrderRequest, ClientMessage, NewOrderRequest, OrderConfirmation, OrderType,
    ServerMessage, TradeNotification,
};
pub use ring::RingBuffer;
pub use timestamp::TimestampCache;
pub use trades::TradeVec;
pub use use_cases::{
    CancelOrderError, CancelOrderResult, CancelOrderUseCase, MatchOrderError, MatchOrderResult,
    MatchOrderUseCase,
};
pub use validation::{OrderValidator, ValidationConfig, ValidationError};
