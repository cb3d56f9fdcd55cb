//! Output: CSV rows and their text, reports and diagram checks.
pub mod csv;
pub mod dup_report;
pub mod mermaid_links;
pub mod peering_diagram;
pub mod peering_dot;
pub mod peering_topology;
pub mod terminal;
pub mod validate_dot;
