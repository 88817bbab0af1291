//! A rewindable sequential-access layer for parsers.
//!
//! A *cursor* reads a borrowed source one item at a time and can save its
//! position as an opaque *checkpoint*, to which it may later rewind when a
//! speculative match fails.  Two sources are supported:
//!
//! - [`slice_tokens::SliceTokens`] walks a borrowed slice of arbitrary items,
//!   one index per step, yielding references into the slice.
//! - [`str_tokens::StrTokens`] walks a borrowed UTF-8 text, one decoded
//!   character per step, keeping its byte offset on a character boundary.
//!
//! Every cursor also exposes its *consumed* prefix and *remaining* suffix as
//! zero-copy views of the source, and converts back into the full original
//! source regardless of how far it has read.

pub mod slice_tokens;
pub mod str_tokens;
