//! State machines for the nodes of a simulated cluster: a shared node runtime
//! and the workloads that run on it (echo, unique ids, broadcast, a grow-only
//! counter, a replicated log and two transactional key-value stores).
//!
//! Every handler is a function from the node's state and one inbound message
//! to the next state and an ordered batch of outbound messages. Reading lines
//! and writing them is left to the program around this library.

pub mod echo;
pub mod grow_only_counter;
pub mod kv;
pub mod log;
pub mod message;
pub mod multi_node_broadcast;
pub mod multi_node_kafka;
pub mod node;
pub mod single_node_broadcast;
pub mod single_node_kafka;
pub mod single_node_tat;
pub mod str_map;
pub mod strings;
pub mod tarct;
pub mod tarut;
pub mod txn;
pub mod unique_ids;

pub use kv::Counter;
pub use message::{ErrorCode, Message, MessageBody};
pub use node::{MessageHandler, Node};
pub use str_map::StrMap;
pub use strings::{str_eq, str_lt};
