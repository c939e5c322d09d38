//! Table-driven asymmetric numeral system (ANS) codec for byte streams.
//!
//! A histogram of the 256 byte values is spread over a state space of size
//! `M`, the sum of the frequencies.  The resulting pair of lookup tables
//! drives a single-symbol transform and its inverse, and a streaming
//! encoder and decoder that keep the running state inside a fixed window by
//! moving fixed-width byte quanta to and from the output.
//!
//! * [`frequencies`]: the histogram, its binary form, and scanning.
//! * [`scaling`]: rescaling a histogram to a power of two.
//! * [`table`]: the lookup tables and the single-symbol transform.
//! * [`uniform`]: the uniform construction of the tables.
//! * [`streaming`]: the streaming codec and its mathematical model.
//! * [`sink`]: encoding into a sink that may refuse a byte.
//! * [`round_trip`]: the laws that relate encoder and decoder.
//! * [`ordering`]: tables and message lists for layout experiments.
//! * [`catalog`]: catalogues of the encodings of all messages of a list.
pub mod catalog;
pub mod frequencies;
pub mod ordering;
pub mod round_trip;
pub mod scaling;
pub mod sink;
pub mod streaming;
pub mod table;
pub mod uniform;

pub use catalog::catalog_encoding_results;
pub use catalog::try_simple_encode;
pub use catalog::CatalogEntry;
pub use frequencies::SymbolFrequencies;
pub use frequencies::TableReadError;
pub use ordering::binary_expand;
pub use ordering::binary_message_list;
pub use ordering::build_flat_frequencies;
pub use ordering::count_bits;
pub use ordering::generate_range_encoder_increasing;
pub use ordering::generate_range_encoder_semidecreasing;
pub use ordering::phased_quat_encoder;
pub use ordering::polarity_a;
pub use ordering::polarity_b;
pub use ordering::polarity_c;
pub use ordering::quat_encoder_a;
pub use ordering::quat_encoder_b;
pub use ordering::quat_encoder_c;
pub use ordering::quat_encoder_d;
pub use ordering::quat_encoder_e;
pub use ordering::quat_encoder_f;
pub use ordering::quat_frequencies;
pub use ordering::quaternary_expand;
pub use ordering::quaternary_message_list;
pub use ordering::simple_decode;
pub use ordering::simple_encode;
pub use ordering::MessageList;
pub use scaling::rank_symbols;
pub use scaling::scale_frequencies;
pub use streaming::DecodeError;
pub use streaming::ParameterError;
pub use streaming::StreamingANSUniform;
pub use table::ANSTableUniform;
