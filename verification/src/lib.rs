//! A TCP port scanner's library: argument handling, port descriptions,
//! tallying of scan results and the text that the terminal shows.

pub mod parse_arg;
pub mod port_descriptions;
pub mod scanner;
pub mod terminal;
pub mod text;
