//! The core of a local-first property graph database.
//!
//! Every module states what it does in contracts that are proved: identifiers, names and
//! locators; the graph model; the `.nost` language; the journal; ignore rules; link
//! resolution; query execution; analysis packets and build plans.

pub mod analysis;
pub mod answers;
pub mod big;
pub mod bindings;
pub mod bytes;
pub mod cancel;
pub mod clauses;
pub mod contribution;
pub mod copies;
pub mod crc;
pub mod cypher;
pub mod decimal;
pub mod diagnostic;
pub mod evaluate;
pub mod evidence;
pub mod execute;
pub mod federation;
pub mod float;
pub mod generation;
pub mod graph;
pub mod id;
pub mod ignore;
pub mod journal;
pub mod keeping;
pub mod link;
pub mod locator;
pub mod matching;
pub mod mutate;
pub mod name;
pub mod nost;
pub mod number;
pub mod order;
pub mod packet;
pub mod plan;
pub mod procedure;
pub mod projection;
pub mod property;
pub mod scan;
pub mod schema;
pub mod settings;
pub mod shortest;
pub mod single;
pub mod sorting;
pub mod text;
pub mod unicode;
pub mod value;
pub mod laws;
