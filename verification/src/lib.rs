//! Semantic topology checks for substation configuration descriptions: a
//! reader for the configuration language, the communication graph built from
//! a configuration, its strongly connected components, a topological order,
//! statistics, the timing of protection signals, and the isolation rules.

pub mod graph;
pub mod hashing;
pub mod model;
pub mod parser;
pub mod text;
pub mod validator;
pub mod xml;

pub use graph::digraph::GraphBuilder;
pub use graph::scc::{KosarajuSCC, TarjanSCC};
pub use graph::timing::TimingAnalyzer;
pub use graph::topology::TopologyAnalyzer;
pub use graph::toposort::KahnTopoSort;
pub use hashing::PairMap;
pub use model::{
    AccessPoint, DelayProfile, DirectedGraph, GraphNode, HeaderInfo, IEDRole, IsolationViolation, NodeType,
    SCDModel, ServiceType, SubNetwork, TimingAnalysisResult, TimingPath, TimingViolation, TopologyStats,
    ViolationSeverity, ViolationType, VirtualTerminal, IED,
};
pub use parser::{ParseError, SCDParser};
pub use validator::IsolationValidator;
