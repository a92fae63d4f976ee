//! Channel adapters, tool plumbing and self-evolution logic of the RayClaw agent,
//! with every decision stated as a contract and proved.

pub mod channels;
pub mod codec;
pub mod frontmatter;
pub mod handles;
pub mod json;
pub mod maps;
pub mod mcp;
pub mod metrics;
pub mod paths;
pub mod skill_evolution;
pub mod skills;
pub mod stamps;
pub mod text;
pub mod tools;
