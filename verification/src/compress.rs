//! Flate compression for the streams of a printed page, through `flate2`.

use vstd::prelude::*;

verus! {

/// A zlib encoder writing into a buffer: flate2's `ZlibEncoder` over a
/// `Vec<u8>`, which holds the bytes fed to it until it is finished.
#[verifier::external_body]
pub struct Deflater {
    encoder: flate2::write::ZlibEncoder<Vec<u8>>,
}

#[verifier::external_type_specification]
#[verifier::external_body]
pub struct ExIoError(std::io::Error);

/// The zlib stream — header, deflate data and checksum — that flate2's
/// encoder writes for `data` at compression level `level`: a function of
/// the two alone.
pub uninterp spec fn zlib_stream(level: u32, data: Seq<u8>) -> Seq<u8>;

/// The compression level a `Deflater` was made with.
pub uninterp spec fn deflater_level(d: Deflater) -> u32;

/// What the buffer a `Deflater` writes into held when it was made.
pub uninterp spec fn deflater_sink(d: Deflater) -> Seq<u8>;

/// The bytes fed to a `Deflater` since it was made.
pub uninterp spec fn deflater_fed(d: Deflater) -> Seq<u8>;

/// `flate2::Compression::fast`, by its level: `Compression(1)` in flate2's
/// source, read back through `Compression::level`.
#[verifier::external_body]
fn compression_fast() -> (level: u32)
    ensures
        level == 1,
{
    flate2::Compression::fast().level()
}

/// `flate2::write::ZlibEncoder::new`: an encoder at `level` (as
/// `Compression::new(level)`) writing into `out`, fed nothing yet. flate2
/// asserts that the level is at most 10, the highest its backend has.
#[verifier::external_body]
fn zlib_encoder(out: Vec<u8>, level: u32) -> (d: Deflater)
    requires
        level <= 10,
    ensures
        deflater_level(d) == level,
        deflater_sink(d) == out@,
        deflater_fed(d) == Seq::<u8>::empty(),
{
    Deflater { encoder: flate2::write::ZlibEncoder::new(out, flate2::Compression::new(level)) }
}

/// `Write::write_all` on a `ZlibEncoder` over a `Vec`: it succeeds, and
/// every byte of `data` has been fed to the encoder, after what was fed
/// before. Writing into a `Vec` cannot fail, and the compressor's only
/// errors come from being used after it has finished, which a `Deflater`
/// never is, since finishing consumes it.
#[verifier::external_body]
fn zlib_write_all(deflater: &mut Deflater, data: &[u8]) -> (r: std::io::Result<()>)
    ensures
        r is Ok,
        deflater_level(*final(deflater)) == deflater_level(*old(deflater)),
        deflater_sink(*final(deflater)) == deflater_sink(*old(deflater)),
        deflater_fed(*final(deflater)) == deflater_fed(*old(deflater)) + data@,
{
    std::io::Write::write_all(&mut deflater.encoder, data)
}

/// `flate2::write::ZlibEncoder::finish` over a `Vec`: it succeeds, for the
/// same reasons a write does, and gives back the buffer the encoder wrote
/// into — what it held to begin with, then the finished zlib stream of
/// everything fed to it.
#[verifier::external_body]
fn zlib_finish(deflater: Deflater) -> (r: std::io::Result<Vec<u8>>)
    ensures
        r is Ok,
        r matches Ok(bytes) ==> bytes@ == deflater_sink(deflater) + zlib_stream(
            deflater_level(deflater),
            deflater_fed(deflater),
        ),
{
    deflater.encoder.finish()
}

/// The bytes, zlib-compressed at the fast level.
pub fn flate(data: &[u8]) -> (compressed: Vec<u8>)
    ensures
        compressed@ == zlib_stream(1, data@),
{
    let mut encoder = zlib_encoder(Vec::new(), compression_fast());
    let _ = zlib_write_all(&mut encoder, data);
    assert(Seq::<u8>::empty() + data@ =~= data@);
    assert(deflater_sink(encoder) + zlib_stream(1, data@) =~= zlib_stream(1, data@));
    finished_or_raw(zlib_finish(encoder), data)
}

/// What a stream holds once the encoder has finished: what it wrote, or the
/// bytes it was given when it could not finish.
pub fn finished_or_raw(finished: std::io::Result<Vec<u8>>, data: &[u8]) -> (out: Vec<u8>)
    ensures
        match finished {
            Ok(bytes) => out@ == bytes@,
            Err(_) => out@ == data@,
        },
{
    match finished {
        Ok(bytes) => bytes,
        Err(_) => {
            let mut copy: Vec<u8> = Vec::new();
            crate::paths::push_all(&mut copy, data);
            copy
        },
    }
}

} // verus!
