//! Small command-line tools as a verified library: word counts, field cutting, a JSON
//! lexer and parser, Huffman compression, and the decisions of a round-robin load
//! balancer with health checks.
pub mod text;
pub mod lines;
pub mod wc;
pub mod cut;
pub mod lexer;
pub mod parser;
pub mod bits;
pub mod queue;
pub mod tree;
pub mod header;
pub mod encoder;
pub mod decoder;
pub mod roundtrip;
pub mod balancer;
pub mod ties;
