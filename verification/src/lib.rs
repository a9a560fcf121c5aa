//! Wire types and protocol logic for talking to out-of-process model runners.
//!
//! An orchestrator delegates loading, packing and inference to a runner
//! process. Everything the two sides exchange passes through the pieces in
//! this crate:
//!
//! - `message`, `tensor`, `handle`, `ids`: the requests and responses and
//!   what they are made of;
//! - `codec`, `tensor_wire`, `wire`: their byte encoding;
//! - `frame`, `mux`, `demux`: the frames that carry several channels
//!   over one connection, and the order in which they are sent;
//! - `rpc`, `session`, `runner`: the calls in flight, and each end of a
//!   connection as a whole;
//! - `fs`: the tokens that keep a runner inside the directory it was
//!   given;
//! - `shm`: the handles that stand for tensors in shared memory;
//! - `seal`: the runner's cache of sealed tensor sets;
//! - `component`: the entry point of a model in a sandboxed guest.
//!
//! Nothing in this crate reads or writes a connection, a file or a
//! memory mapping. Each piece takes plain values and says what follows
//! from them; the program around it does the input and output.

pub mod codec;
pub mod component;
pub mod demux;
pub mod error;
pub mod frame;
pub mod fs;
pub mod handle;
pub mod ids;
pub mod message;
pub mod mux;
pub mod rpc;
pub mod runner;
pub mod seal;
pub mod session;
pub mod shm;
pub mod table;
pub mod tensor;
pub mod tensor_wire;
pub mod text;
pub mod wire;

pub use component::{set_infer_fn, InferSlot};
pub use error::ConnectionError;
pub use handle::{Handle, TensorMap};
pub use ids::{ChannelId, FdId, FsToken, RpcId, SealHandle, StreamID};
pub use message::{Device, RPCRequest, RPCRequestData, RPCResponse, RPCResponseData};
pub use runner::RunnerSession;
pub use session::Session;
pub use tensor::{Dtype, Tensor, TensorNumeric, TensorString};
