pub mod definition;
pub mod eval;
pub mod graph;
pub mod ops;
pub mod plan;
pub mod signal;
pub mod store;

pub use definition::EvalContext;
pub use definition::SignalDef;
pub use eval::EvaluationError;
pub use eval::EvaluationValueMap;
pub use ops::FloatBinaryOp;
pub use ops::UnaryOp;
pub use plan::CustomPlanner;
pub use plan::EvaluationPassDescriptor;
pub use plan::EvaluationPlanner;
pub use plan::PlanError;
pub use plan::PlannedEvaluation;
pub use signal::Signal;
pub use signal::SignalMap;
pub use signal::SignalSet;
pub use store::SignalDefMap;
pub use store::SignalMatrix;
