//! Conversation version control: the rules by which captured conversations are
//! identified, linked to commits, redacted and exchanged between repositories.

pub mod accepting;
pub mod agreeing;
pub mod authority;
pub mod batch;
pub mod bounded;
pub mod capture;
pub mod carrying;
pub mod changeset;
pub mod collecting;
pub mod consent;
pub mod derivation;
pub mod digest;
pub mod encoding;
pub mod fault;
pub mod fidelity;
pub mod git;
pub mod graph;
pub mod grounding;
pub mod guarding;
pub mod hooks;
pub mod import;
pub mod ingest;
pub mod json;
pub mod keeping;
pub mod layout;
pub mod ledger;
pub mod lines;
pub mod linker;
pub mod links;
pub mod measures;
pub mod models;
pub mod noticing;
pub mod order;
pub mod outbound;
pub mod planning;
pub mod policing;
pub mod privacy;
pub mod projection;
pub mod prune;
pub mod publishing;
pub mod reading;
pub mod redaction;
pub mod repository;
pub mod rereading;
pub mod rewrite;
pub mod roundtrip;
pub mod scrubbing;
pub mod segmenting;
pub mod settings;
pub mod squash;
pub mod squashing;
pub mod store;
pub mod storing;
pub mod suppression;
pub mod sync;
pub mod text;
pub mod textset;
pub mod transcript;
pub mod transition;
pub mod tree;
pub mod upgrade;
pub mod vscode;

