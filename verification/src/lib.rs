//! Patch-source helpers of the sashiko review service: lore.kernel.org URLs
//! and thread mboxes, e-mail patch parsing, the IPC symbol broker, NNTP and
//! Patchwork protocol decisions, and the error mapping of the LLM messages API.

pub mod text;
pub mod lore;
pub mod email;
pub mod worker;
pub mod ipc;
pub mod nntp;
pub mod patchwork;
pub mod ai;
