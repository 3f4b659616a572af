pub mod canonicalizer;
pub mod dkim;
pub mod dkim_checker;
pub mod events;
pub mod header_decoder;
pub mod header_parser;
pub mod message_parser_sink;
pub mod message_scanner;
pub mod reader_parser;
pub mod rfc2047;
pub mod text;
pub mod trusted;
