//! Embeddable autodiff + tensor runtime for on-device learning: the verified core.
//!
//! Tensors hold `f32` elements by their bit patterns; this crate lays them out,
//! moves them and serialises them, builds and orders the computation graph,
//! meters training budgets and draws random numbers. The numeric kernels that
//! compute on the elements live beside it.
pub mod budget;
pub mod checkpoint;
pub mod data;
pub mod idx;
pub mod matmul;
pub mod model;
pub mod optim;
pub mod prng;
pub mod program;
pub mod session;
pub mod tensor;

pub use budget::{BudgetMeter, StopReason, TrainBudget};
pub use checkpoint::{encode_checkpoint, load_checkpoint_bytes, CheckpointError, OptimizerSlot, OptimizerState};
pub use data::{shuffle_indices, Dataset, TensorDataset};
pub use model::{
    ModelContext, ModelProgram, ModelVar, ModelVarOp, OpParams, MV_FLAG_COST, MV_FLAG_DESIRED_OUTPUT, MV_FLAG_INPUT,
    MV_FLAG_NONE, MV_FLAG_OUTPUT, MV_FLAG_PARAMETER, MV_FLAG_REQUIRES_GRAD,
};
pub use optim::MomentTable;
pub use prng::Prng;
pub use session::{AdaptBatch, ReplayBuffer};
pub use tensor::Tensor;
