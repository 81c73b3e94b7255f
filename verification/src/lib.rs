//! The WCP waveform text format: a parser, and an exporter to VCD-style text.
//!
//! [`parse_wcp`] reads a document into a [`WcpWaveform`]; [`wcp_to_vcd`] writes a waveform as
//! VCD-style text. [`WcpParser`] is the state machine under the parser, for callers that get
//! their lines one at a time.

pub mod ident;
pub mod number;
pub mod parser;
pub mod parser_proofs;
pub mod range;
pub mod records;
pub mod scanner;
pub mod scope;
pub mod text;
pub mod timeline;
pub mod vcd;
pub mod vcd_proofs;
pub mod waveform;

pub use ident::allocate_identifier;
pub use parser::{parse_wcp, WcpParser};
pub use vcd::wcp_to_vcd;
pub use waveform::{WcpChange, WcpHeader, WcpParseError, WcpSignal, WcpWaveform};
