//! Starred-repository tooling: the request, pagination, CSV-record,
//! prompt and README logic, each with a contract proved by Verus.

pub mod text;
pub mod tools;
pub mod usecases;
pub mod record_search;
