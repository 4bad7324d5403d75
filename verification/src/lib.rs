//! Records of command runs in the `.rommy` text format: the format's parser,
//! the record writer, and the decisions of the `rommy` command-line tool.
pub mod cli;
pub mod clock;
pub mod meta;
pub mod outpath;
pub mod parser;
pub mod paths;
pub mod record;
pub mod report;
pub mod roundtrip;
pub mod scratch;
pub mod text;
