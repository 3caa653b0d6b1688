/// Art.dat containers: framing, encryption, entry names and the path-traversal guard.
pub mod art;
/// The serialized-asset container (AssetsFile): model, byte layout, reader and writer.
pub mod assets;
/// AudioClip objects: model, byte layout, reader and writer.
pub mod audio;
/// Byte encodings of integers and strings, a byte reader and the `WriteExt` writer.
pub mod binio;
/// Rules that map file extensions to what the tool does with a file.
pub mod command;
/// The block cipher over 32-bit words and its MD5-derived key schedule.
pub mod crypto;
/// The kinds of failure the library reports.
pub mod error;
/// Rebuilding an AssetsFile: object layout, new Art.dat and audio clips, image assembly.
pub mod repack;
/// The identity-based merge of a patch XML document into an original one.
pub mod xml;
