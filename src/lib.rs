//! Encoding and decoding of `vpk0` data, a variable-length LZSS scheme whose
//! offsets and lengths are written with Huffman codes over their bit widths.

pub mod bits;
pub mod errors;

pub mod decode;
pub mod encode;
pub mod format;
pub mod roundtrip;

pub use errors::{EncodeTreeParseErr, VpkError};

pub use decode::{decode, vpk_info, TreeInfo};
pub use encode::lzss::LzssSettings;
pub use encode::{encode, EncoderBuilder, LzssBackend};
pub use format::{VpkHeader, VpkMethod};
