pub mod agent_classifier;
pub mod csv_repository;
pub mod github;
