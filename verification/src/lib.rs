//! What a desktop front end for Ollama decides and computes: what it may fetch,
//! how it reads what Ollama streams, which files a cancelled download leaves to
//! delete, and what it does when it is closed. The window, the disk, the
//! processes and the network are left to the application around it.

pub mod blob_laws;
pub mod blobs;
pub mod close;
pub mod failure;
pub mod install;
pub mod json;
pub mod lines;
pub mod locate;
pub mod registry;
pub mod request;
pub mod stream;
pub mod stream_laws;
pub mod text;
