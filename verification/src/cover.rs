//! Cover art travels as a `data:` URI: a MIME type and base64-encoded
//! image bytes. The base64 transcoding itself is done by the `base64`
//! crate behind trusted wrappers; everything around it is verified.
use vstd::prelude::*;
use base64::Engine;
use crate::text::{find_sub, find_sub_spec, from_chars, has_prefix, push_lit, starts_with_lit, subvec, to_chars};

verus! {

/// What base64 encoding with the STANDARD padded alphabet returns for a
/// byte sequence.
pub uninterp spec fn b64_of(b: Seq<u8>) -> Seq<char>;

/// Relies on base64's `Engine::encode` with the `STANDARD` engine: the
/// result is a function of the input bytes alone, and an empty input
/// encodes to the empty string.
#[verifier::external_body]
fn b64_encode(b: &Vec<u8>) -> (r: String)
    requires
        b@.len() < usize::MAX / 4,
    ensures
        r@ == b64_of(b@),
        b@.len() == 0 ==> r@.len() == 0,
{
    base64::engine::general_purpose::STANDARD.encode(b.as_slice())
}

/// Relies on base64's `Engine::decode` with the `STANDARD` engine:
/// decoding inverts encoding, so an input that is the encoding of some
/// bytes decodes to exactly those bytes.
#[verifier::external_body]
fn b64_decode(s: &str) -> (r: Option<Vec<u8>>)
    ensures
        forall|b: Seq<u8>| s@ == b64_of(b) ==> r is Some && r->Some_0@ == b,
{
    match base64::engine::general_purpose::STANDARD.decode(s.as_bytes()) {
        Ok(v) => Some(v),
        Err(_) => None,
    }
}

/// Decoded cover art: the MIME type named by the URI and the image bytes.
pub struct DataUriParts {
    pub mime_type: String,
    pub bytes: Vec<u8>,
}

/// The MIME types carried through unchanged; anything else is read as
/// JPEG.
pub open spec fn mime_of(header: Seq<char>) -> Seq<char> {
    if header == "image/jpeg"@ || header == "image/png"@ || header == "image/bmp"@ || header
        == "image/gif"@ || header == "image/tiff"@ {
        header
    } else {
        "image/jpeg"@
    }
}

fn mime_exec(header: &Vec<char>) -> (r: String)
    ensures
        r@ == mime_of(header@),
{
    let h = from_chars(header);
    if crate::text::string_eq_lit(h.as_str(), "image/jpeg") || crate::text::string_eq_lit(
        h.as_str(),
        "image/png",
    ) || crate::text::string_eq_lit(h.as_str(), "image/bmp") || crate::text::string_eq_lit(
        h.as_str(),
        "image/gif",
    ) || crate::text::string_eq_lit(h.as_str(), "image/tiff") {
        h
    } else {
        String::from_str("image/jpeg")
    }
}

/// The MIME header and base64 payload of a `data:` URI, when it has the
/// shape `data:<mime>;base64,<payload>`.
pub open spec fn data_uri_parts_spec(uri: Seq<char>) -> Option<(Seq<char>, Seq<char>)> {
    if !has_prefix(uri, "data:"@) {
        None
    } else {
        let rest = uri.skip("data:"@.len() as int);
        match find_sub_spec(rest, ";base64,"@) {
            Some(i) => Some((mime_of(rest.take(i)), rest.skip(i + ";base64,"@.len()))),
            None => None,
        }
    }
}

/// Read a cover-art `data:` URI into its MIME type and image bytes. The
/// call fails on a URI without the `data:`/`;base64,` frame, and on a
/// payload that is not a base64 encoding; a payload that encodes bytes
/// `b` comes back as exactly `b`.
pub fn parse_data_uri(uri: &str) -> (r: Option<DataUriParts>)
    ensures
        data_uri_parts_spec(uri@) is None ==> r is None,
        r matches Some(p) ==> (data_uri_parts_spec(uri@) matches Some(mp) && p.mime_type@
            == mp.0),
        forall|b: Seq<u8>|
            data_uri_parts_spec(uri@) matches Some(mp) ==> (mp.1 == #[trigger] b64_of(b) ==> (
            r matches Some(p) && p.bytes@ == b && p.mime_type@ == mp.0)),
{
    let uv = to_chars(uri);
    if !starts_with_lit(&uv, "data:") {
        return None;
    }
    proof {
        reveal_strlit("data:");
        reveal_strlit(";base64,");
    }
    let rest = subvec(&uv, 5, uv.len());
    proof {
        assert(rest@ =~= uv@.skip(5));
    }
    match find_sub(&rest, ";base64,") {
        Some(i) => {
            let header = subvec(&rest, 0, i);
            let payload = subvec(&rest, i + 8, rest.len());
            proof {
                assert(header@ =~= rest@.take(i as int));
                assert(payload@ =~= rest@.skip(i + 8));
            }
            let mime_type = mime_exec(&header);
            let ps = from_chars(&payload);
            match b64_decode(ps.as_str()) {
                Some(bytes) => Some(DataUriParts { mime_type, bytes }),
                None => None,
            }
        },
        None => None,
    }
}

/// Write cover-art bytes as a `data:` URI under the given MIME type.
pub fn encode_data_uri(mime: &str, data: &Vec<u8>) -> (r: String)
    requires
        data@.len() < usize::MAX / 4,
    ensures
        r@ == "data:"@ + mime@ + ";base64,"@ + b64_of(data@),
{
    let mut out: Vec<char> = Vec::new();
    push_lit(&mut out, "data:");
    push_lit(&mut out, mime);
    push_lit(&mut out, ";base64,");
    let enc = b64_encode(data);
    let ev = to_chars(enc.as_str());
    crate::text::append_chars(&mut out, &ev);
    proof {
        assert(out@ =~= "data:"@ + mime@ + ";base64,"@ + b64_of(data@));
    }
    from_chars(&out)
}

} // verus!
