//! The compression boundary. The two functions here call outside codecs and
//! are trusted: their contracts state what the codecs' sources show, over
//! two named byte-level functions that nothing else defines.

use vstd::prelude::*;

verus! {

/// The gzip encoding (container format, level five, fixed header) of
/// `data`: a function of the input bytes alone.
pub uninterp spec fn gzip_of(data: Seq<u8>) -> Seq<u8>;

/// What transparent decompression makes of `raw`: its decompressed bytes,
/// or nothing when `raw` is too short to sniff or announces a compression
/// format whose body is malformed.
pub uninterp spec fn decode_of(raw: Seq<u8>) -> Option<Seq<u8>>;

/// `raw` is long enough to be sniffed and begins with none of the magic
/// numbers that announce a compressed stream (gzip `1f 8b`, bzip2 `42 5a`,
/// zstd `28 b5 2f fd`, xz `fd 37 7a 58 5a`): such input passes through
/// decompression unchanged.
pub open spec fn plain_payload(b: Seq<u8>) -> bool {
    &&& b.len() >= 5
    &&& !(b[0] == 0x1f && b[1] == 0x8b)
    &&& !(b[0] == 0x42 && b[1] == 0x5a)
    &&& !(b[0] == 0x28 && b[1] == 0xb5 && b[2] == 0x2f && b[3] == 0xfd)
    &&& !(b[0] == 0xfd && b[1] == 0x37 && b[2] == 0x7a && b[3] == 0x58 && b[4] == 0x5a)
}

/// Relies on flate2::write::GzEncoder: gzip-compresses the given bytes in
/// memory at level five. The output depends on the input bytes alone (the
/// header is fixed: zero mtime, a hardcoded operating-system byte), and the
/// call always succeeds: its only error source is the underlying writer,
/// and writing into a byte buffer never fails.
#[verifier::external_body]
pub(crate) fn gzip_compress(data: &Vec<u8>) -> (z: Vec<u8>)
    ensures
        z@ == gzip_of(data@),
{
    let mut enc = flate2::write::GzEncoder::new(Vec::new(), flate2::Compression::new(5));
    std::io::Write::write_all(&mut enc, data.as_slice()).expect("a byte buffer cannot fail");
    enc.finish().expect("a byte buffer cannot fail")
}

/// Relies on niffler::get_reader: sniffs the first five bytes for a magic
/// number, decompresses a recognized stream, and passes unrecognized
/// content through unchanged. Fewer than five bytes, or a recognized
/// stream with a malformed body, is an error.
#[verifier::external_body]
pub(crate) fn sniff_decompress(raw: &Vec<u8>) -> (r: Result<Vec<u8>, ()>)
    ensures
        r matches Ok(c) ==> decode_of(raw@) == Some(c@),
        r is Err ==> decode_of(raw@) is None,
        r matches Ok(c) ==> (forall|x: Seq<u8>| raw@ == gzip_of(x) ==> c@ == x),
        r matches Ok(c) ==> (plain_payload(raw@) ==> c@ == raw@),
        r is Err ==> !plain_payload(raw@) && (forall|x: Seq<u8>| raw@ != gzip_of(x)),
{
    let stream: Box<dyn std::io::Read> = Box::new(std::io::Cursor::new(raw.clone()));
    match niffler::get_reader(stream) {
        Ok((mut reader, _format)) => {
            let mut out = Vec::new();
            match std::io::Read::read_to_end(&mut reader, &mut out) {
                Ok(_) => Ok(out),
                Err(_) => Err(()),
            }
        },
        Err(_) => Err(()),
    }
}

} // verus!
