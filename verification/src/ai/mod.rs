//! Clients of LLM services.

pub mod claude;
