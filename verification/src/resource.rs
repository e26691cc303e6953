//! Embedded images: recognizing base64 `data:` URLs of the EPUB core image
//! formats and turning them into resources of the container.
use vstd::prelude::*;

use base64::Engine;

use crate::prepare::{resource_view, Resource, ResourceV};
use crate::text::{
    ascii_lower, ascii_upper, lemma_ascii_lower_absorbs, lemma_hex32_injective, digits, zero_pad,
    chars_of, chars_start_with, hex32, lower_chars, owned, push_padded, push_str,
    str_starts_with, string_of,
};
use crate::EpubError;

verus! {

/// The canonical media type and file extension of the EPUB core image formats,
/// looked up case-insensitively.
pub open spec fn resource_kind(media_type: Seq<char>) -> Option<(Seq<char>, Seq<char>)> {
    let m = ascii_lower(media_type);
    if m == "image/gif"@ {
        Some(("image/gif"@, "gif"@))
    } else if m == "image/jpeg"@ || m == "image/jpg"@ {
        Some(("image/jpeg"@, "jpg"@))
    } else if m == "image/png"@ {
        Some(("image/png"@, "png"@))
    } else if m == "image/svg+xml"@ {
        Some(("image/svg+xml"@, "svg"@))
    } else if m == "image/webp"@ {
        Some(("image/webp"@, "webp"@))
    } else {
        None
    }
}

/// The kind of a media type does not depend on its ASCII case, and the
/// canonical media type of a kind is of that kind itself.
pub proof fn lemma_resource_kind_case(media_type: Seq<char>)
    ensures
        resource_kind(ascii_upper(media_type)) == resource_kind(media_type),
        resource_kind(ascii_lower(media_type)) == resource_kind(media_type),
        resource_kind(media_type) matches Some((t, e)) ==> resource_kind(t) == Some((t, e)),
{
    lemma_ascii_lower_absorbs(media_type);
    reveal_strlit("image/gif");
    reveal_strlit("image/jpeg");
    reveal_strlit("image/jpg");
    reveal_strlit("image/png");
    reveal_strlit("image/svg+xml");
    reveal_strlit("image/webp");
    if let Some((t, e)) = resource_kind(media_type) {
        assert(ascii_lower(t) =~= t);
    }
}

/// Whether the characters in `x` are those of `lit`.
fn chars_are(x: &[char], lit: &str) -> (r: bool)
    ensures
        r == (x@ == lit@),
{
    let y = chars_of(lit);
    if x.len() != y.len() {
        return false;
    }
    let r = chars_start_with(x, y.as_slice());
    proof {
        assert(x@.take(x@.len() as int) =~= x@);
        assert(y@.take(y@.len() as int) =~= y@);
    }
    r
}

/// Return canonical media type and extension for EPUB core image formats.
pub fn supported_resource(media_type: &str) -> (r: Option<(&'static str, &'static str)>)
    ensures
        match (r, resource_kind(media_type@)) {
            (Some((m, e)), Some((km, ke))) => m@ == km && e@ == ke,
            (None, None) => true,
            _ => false,
        },
{
    let lower = lower_chars(chars_of(media_type).as_slice());
    let m = lower.as_slice();
    if chars_are(m, "image/gif") {
        Some(("image/gif", "gif"))
    } else if chars_are(m, "image/jpeg") || chars_are(m, "image/jpg") {
        Some(("image/jpeg", "jpg"))
    } else if chars_are(m, "image/png") {
        Some(("image/png", "png"))
    } else if chars_are(m, "image/svg+xml") {
        Some(("image/svg+xml", "svg"))
    } else if chars_are(m, "image/webp") {
        Some(("image/webp", "webp"))
    } else {
        None
    }
}

/// Whether a URL starts with `http://` or `https://`.
pub open spec fn is_remote_url(value: Seq<char>) -> bool {
    "http://"@.is_prefix_of(value) || "https://"@.is_prefix_of(value)
}

/// Whether a URL points to a remote resource.
pub fn is_remote(value: &str) -> (r: bool)
    ensures
        r == is_remote_url(value@),
{
    str_starts_with(value, "http://") || str_starts_with(value, "https://")
}

/// The position of the first `c` in `s`.
pub open spec fn first_index(s: Seq<char>, c: char) -> Option<int>
    decreases s.len(),
{
    if s.len() == 0 {
        None
    } else if s[0] == c {
        Some(0)
    } else {
        match first_index(s.drop_first(), c) {
            Some(i) => Some(i + 1),
            None => None,
        }
    }
}

pub proof fn lemma_first_index(s: Seq<char>, c: char)
    ensures
        match first_index(s, c) {
            Some(i) => 0 <= i < s.len() && s[i] == c && forall|j: int| 0 <= j < i ==> s[j] != c,
            None => forall|j: int| 0 <= j < s.len() ==> s[j] != c,
        },
    decreases s.len(),
{
    if s.len() > 0 && s[0] != c {
        lemma_first_index(s.drop_first(), c);
        assert forall|j: int| 1 <= j < s.len() implies s[j] == s.drop_first()[j - 1] by {}
    }
}

/// The pieces of `s` between occurrences of `c`, as `str::split` yields them.
pub open spec fn split_char(s: Seq<char>, c: char) -> Seq<Seq<char>>
    decreases s.len(),
{
    match first_index(s, c) {
        None => seq![s],
        Some(i) => {
            proof {
                lemma_first_index(s, c);
            }
            seq![s.take(i)] + split_char(s.skip(i + 1), c)
        },
    }
}

/// The word `base64`.
pub open spec fn base64_word() -> Seq<char> {
    seq!['b', 'a', 's', 'e', '6', '4']
}

/// Whether one of the pieces equals `base64` up to ASCII case.
pub open spec fn has_base64_piece(pieces: Seq<Seq<char>>) -> bool {
    exists|k: int| 0 <= k < pieces.len() && ascii_lower(#[trigger] pieces[k]) == base64_word()
}

/// The media type and the encoded payload of a `data:` URL that declares a
/// base64 encoding among the parameters after its media type.
pub open spec fn data_url_payload(value: Seq<char>) -> Option<(Seq<char>, Seq<char>)> {
    if !seq!['d', 'a', 't', 'a', ':'].is_prefix_of(value) {
        None
    } else {
        let rest = value.skip(5);
        match first_index(rest, ',') {
            None => None,
            Some(i) => {
                let metadata = rest.take(i);
                let pieces = split_char(metadata, ';');
                if has_base64_piece(pieces.drop_first()) {
                    Some((pieces[0], rest.skip(i + 1)))
                } else {
                    None
                }
            },
        }
    }
}

/// What the standard base64 engine of the `base64` crate decodes from a
/// string (`None` where it reports an error).
pub uninterp spec fn standard_base64_decoding(encoded: Seq<char>) -> Option<Seq<u8>>;

/// The 128-bit SipHash that `typst_utils::hash128` computes of a byte vector.
pub uninterp spec fn hash128_of_bytes(data: Seq<u8>) -> u128;

#[verifier::external_type_specification]
#[verifier::external_body]
pub struct ExDecodeError(base64::DecodeError);

/// Calls `base64::engine::general_purpose::STANDARD.decode` on the string.
/// The contract claims that the outcome is a function of the string alone,
/// named `standard_base64_decoding`; nothing is claimed of the error value.
#[verifier::external_body]
fn decode_standard_base64(encoded: &str) -> (r: Result<Vec<u8>, base64::DecodeError>)
    ensures
        match r {
            Ok(data) => standard_base64_decoding(encoded@) == Some(data@),
            Err(_) => standard_base64_decoding(encoded@) is None,
        },
{
    base64::engine::general_purpose::STANDARD.decode(encoded)
}

/// Renders a `base64::DecodeError` with its `Display` impl; nothing is
/// claimed of the text.
#[verifier::external_body]
fn decode_error_text(error: &base64::DecodeError) -> String {
    format!("{error}")
}

/// Calls `typst_utils::hash128` on a byte vector. The contract claims that
/// the hash is a function of the bytes alone (the function hashes `usize`
/// lengths as `u64` so that it is the same on every architecture), named
/// `hash128_of_bytes`.
#[verifier::external_body]
fn hash_bytes(data: &Vec<u8>) -> (h: u128)
    ensures
        h == hash128_of_bytes(data@),
{
    typst_utils::hash128(data)
}

/// `assets/<32 hex digits of the hash>.<extension>`.
pub open spec fn asset_path(hash: u128, extension: Seq<char>) -> Seq<char> {
    seq!['a', 's', 's', 'e', 't', 's', '/'] + hex32(hash) + seq!['.'] + extension
}

/// The path of an extracted resource, from the hash of its data and its
/// file extension.
pub fn resource_path(hash: u128, extension: &str) -> (path: String)
    ensures
        path@ == asset_path(hash, extension@),
{
    let mut path = string_of(vec!['a', 's', 's', 'e', 't', 's', '/'].as_slice());
    push_padded(&mut path, hash, 16, 32);
    path.push('.');
    push_str(&mut path, extension);
    assert(path@ =~= asset_path(hash, extension@));
    path
}

/// The resource for decoded image data, given the hash of the data, the
/// canonical media type and the file extension: stored under
/// `assets/<hash>.<extension>`.
pub fn resource_from(data: Vec<u8>, hash: u128, media_type: &'static str, extension: &str) -> (r:
    Resource)
    ensures
        r.path@ == asset_path(hash, extension@),
        r.media_type == media_type,
        r.data@ == data@,
{
    let path = resource_path(hash, extension);
    Resource { path, media_type, data }
}

/// What a `src` value turns into.
pub enum Embedding {
    /// Not a base64 `data:` URL of a supported image format.
    NotEmbedded,
    /// A supported base64 `data:` URL whose payload does not decode.
    Undecodable,
    /// The resource that the URL holds.
    Embedded(ResourceV),
}

/// The resource that an attribute value holds, if it is a base64 `data:` URL
/// of one of the EPUB core image formats.
pub open spec fn embedding_of(value: Seq<char>) -> Embedding {
    match data_url_payload(value) {
        None => Embedding::NotEmbedded,
        Some((media, encoded)) => match resource_kind(media) {
            None => Embedding::NotEmbedded,
            Some((media_type, extension)) => match standard_base64_decoding(encoded) {
                None => Embedding::Undecodable,
                Some(data) => Embedding::Embedded(
                    ResourceV {
                        path: asset_path(hash128_of_bytes(data), extension),
                        media_type,
                        data,
                    },
                ),
            },
        },
    }
}

/// The message of a failed resource decoding: `failed to decode EPUB
/// resource (<reason>)`.
pub open spec fn decode_failure_message(message: Seq<char>) -> bool {
    exists|reason: Seq<char>|
        message == "failed to decode EPUB resource ("@ + reason + seq![')']
}

/// Finds the first `c` in `s`.
pub fn find_char(s: &[char], c: char) -> (r: Option<usize>)
    ensures
        match (r, first_index(s@, c)) {
            (Some(i), Some(j)) => i == j,
            (None, None) => true,
            _ => false,
        },
{
    proof { lemma_first_index(s@, c); }
    let mut i: usize = 0;
    while i < s.len()
        invariant
            i <= s.len(),
            forall|j: int| 0 <= j < i ==> s@[j] != c,
        decreases s.len() - i,
    {
        if s[i] == c {
            proof {
                lemma_first_index(s@, c);
            }
            return Some(i);
        }
        i = i + 1;
    }
    None
}

/// Whether `s` is `base64` up to ASCII case.
fn is_base64_word(s: &[char]) -> (r: bool)
    ensures
        r == (ascii_lower(s@) == base64_word()),
{
    let lower = lower_chars(s);
    let word = vec!['b', 'a', 's', 'e', '6', '4'];
    if lower.len() != word.len() {
        return false;
    }
    let r = chars_start_with(lower.as_slice(), word.as_slice());
    proof {
        assert(lower@.take(lower@.len() as int) =~= lower@);
        assert(word@ =~= base64_word());
    }
    r
}

/// Whether a piece of `s` between semicolons is `base64` up to ASCII case.
fn any_base64_piece(s: &[char]) -> (r: bool)
    ensures
        r == has_base64_piece(split_char(s@, ';')),
    decreases s.len(),
{
    let pieces = Ghost(split_char(s@, ';'));
    match find_char(s, ';') {
        None => {
            assert(pieces@ == seq![s@]);
            let r = is_base64_word(s);
            proof {
                if r {
                    assert(ascii_lower(pieces@[0]) == base64_word());
                }
            }
            r
        },
        Some(j) => {
            proof { lemma_first_index(s@, ';'); }
            let head = vstd::slice::slice_subrange(s, 0, j);
            let tail = vstd::slice::slice_subrange(s, j + 1, s.len());
            assert(head@ =~= s@.take(j as int));
            assert(tail@ =~= s@.skip(j + 1));
            let here = is_base64_word(head);
            let later = any_base64_piece(tail);
            proof {
                let rest = split_char(tail@, ';');
                assert(pieces@ =~= seq![head@] + rest);
                if here {
                    assert(ascii_lower(pieces@[0]) == base64_word());
                }
                if later {
                    let k = choose|k: int| 0 <= k < rest.len() && ascii_lower(#[trigger] rest[k]) == base64_word();
                    assert(pieces@[k + 1] == rest[k]);
                }
                if has_base64_piece(pieces@) {
                    let k = choose|k: int| 0 <= k < pieces@.len() && ascii_lower(#[trigger] pieces@[k]) == base64_word();
                    if k > 0 {
                        assert(rest[k - 1] == pieces@[k]);
                    }
                }
            }
            here || later
        },
    }
}

/// Decode a supported base64 data URL into an EPUB resource.
pub fn decode_data_resource(value: &str) -> (r: Result<Option<Resource>, EpubError>)
    ensures
        match (r, embedding_of(value@)) {
            (Ok(None), Embedding::NotEmbedded) => true,
            (Ok(Some(res)), Embedding::Embedded(v)) => resource_view(res) == v,
            (Err(e), Embedding::Undecodable) => decode_failure_message(e.message@),
            _ => false,
        },
{
    let v = chars_of(value);
    let prefix = vec!['d', 'a', 't', 'a', ':'];
    if !chars_start_with(v.as_slice(), prefix.as_slice()) {
        return Ok(None);
    }
    let rest = vstd::slice::slice_subrange(v.as_slice(), 5, v.len());
    assert(rest@ =~= value@.skip(5));
    let comma = match find_char(rest, ',') {
        Some(i) => i,
        None => return Ok(None),
    };
    proof { lemma_first_index(rest@, ','); }
    let metadata = vstd::slice::slice_subrange(rest, 0, comma);
    let encoded = vstd::slice::slice_subrange(rest, comma + 1, rest.len());
    assert(metadata@ =~= rest@.take(comma as int));
    assert(encoded@ =~= rest@.skip(comma + 1));
    let ghost pieces = split_char(metadata@, ';');
    let media: &[char] = match find_char(metadata, ';') {
        None => {
            assert(pieces == seq![metadata@]);
            assert(!has_base64_piece(pieces.drop_first()));
            return Ok(None);
        },
        Some(j) => {
            proof { lemma_first_index(metadata@, ';'); }
            let head = vstd::slice::slice_subrange(metadata, 0, j);
            let tail = vstd::slice::slice_subrange(metadata, j + 1, metadata.len());
            assert(head@ =~= metadata@.take(j as int));
            assert(tail@ =~= metadata@.skip(j + 1));
            assert(pieces.drop_first() =~= split_char(tail@, ';'));
            if !any_base64_piece(tail) {
                return Ok(None);
            }
            head
        },
    };
    let media_text = string_of(media);
    let (media_type, extension) = match supported_resource(media_text.as_str()) {
        Some(kind) => kind,
        None => return Ok(None),
    };
    let encoded_text = string_of(encoded);
    let data = match decode_standard_base64(encoded_text.as_str()) {
        Ok(data) => data,
        Err(error) => {
            let mut message = owned("failed to decode EPUB resource (");
            let reason = decode_error_text(&error);
            push_str(&mut message, reason.as_str());
            message.push(')');
            assert(message@ =~= "failed to decode EPUB resource ("@ + reason@ + seq![')']);
            return Err(EpubError { message, element: None });
        },
    };
    let hash = hash_bytes(&data);
    Ok(Some(resource_from(data, hash, media_type, extension)))
}


/// An embedded image is stored at `assets/`, then the 32 lowercase
/// hexadecimal digits of the hash of all of its decoded bytes, then a dot and
/// the extension of its kind; its bytes are all that the standard base64
/// engine decodes from the URL's payload, and its media type is the
/// canonical one of its kind.
pub proof fn lemma_embedded_resource(value: Seq<char>)
    ensures
        embedding_of(value) is Embedded ==> {
            let r = embedding_of(value)->Embedded_0;
            let media = data_url_payload(value).unwrap().0;
            let encoded = data_url_payload(value).unwrap().1;
            let extension = resource_kind(media).unwrap().1;
            &&& standard_base64_decoding(encoded) == Some(r.data)
            &&& resource_kind(media) == Some((r.media_type, extension))
            &&& r.path == "assets/"@ + zero_pad(digits(hash128_of_bytes(r.data) as nat, 16), 32) + "."@
                + extension
        },
{
    reveal_strlit("assets/");
    reveal_strlit(".");
    if embedding_of(value) is Embedded {
        let r = embedding_of(value)->Embedded_0;
        let media = data_url_payload(value).unwrap().0;
        let extension = resource_kind(media).unwrap().1;
        assert(r.path =~= "assets/"@ + zero_pad(digits(hash128_of_bytes(r.data) as nat, 16), 32) + "."@
            + extension);
    }
}

/// The canonical media type of a kind fixes its extension.
proof fn lemma_kind_extension(m1: Seq<char>, m2: Seq<char>)
    requires
        resource_kind(m1) is Some,
        resource_kind(m2) is Some,
        resource_kind(m1).unwrap().0 == resource_kind(m2).unwrap().0,
    ensures
        resource_kind(m1).unwrap().1 == resource_kind(m2).unwrap().1,
{
    reveal_strlit("image/gif");
    reveal_strlit("image/jpeg");
    reveal_strlit("image/png");
    reveal_strlit("image/svg+xml");
    reveal_strlit("image/webp");
    assert("image/gif"@[6] != "image/png"@[6]);
    assert("image/jpeg"@[6] != "image/webp"@[6]);
    assert("image/gif"@ != "image/png"@);
    assert("image/jpeg"@ != "image/webp"@);
}

/// Two embedded images of the same media type whose decoded bytes hash
/// differently are stored under different paths.
pub proof fn lemma_embedded_paths_differ(first: Seq<char>, second: Seq<char>)
    requires
        embedding_of(first) is Embedded,
        embedding_of(second) is Embedded,
        embedding_of(first)->Embedded_0.media_type == embedding_of(second)->Embedded_0.media_type,
        hash128_of_bytes(embedding_of(first)->Embedded_0.data) != hash128_of_bytes(
            embedding_of(second)->Embedded_0.data,
        ),
    ensures
        embedding_of(first)->Embedded_0.path != embedding_of(second)->Embedded_0.path,
{
    lemma_embedded_resource(first);
    lemma_embedded_resource(second);
    let r1 = embedding_of(first)->Embedded_0;
    let r2 = embedding_of(second)->Embedded_0;
    let e1 = resource_kind(data_url_payload(first).unwrap().0).unwrap().1;
    let e2 = resource_kind(data_url_payload(second).unwrap().0).unwrap().1;
    lemma_kind_extension(data_url_payload(first).unwrap().0, data_url_payload(second).unwrap().0);
    assert(e1 == e2);
    let h1 = hex32(hash128_of_bytes(r1.data));
    let h2 = hex32(hash128_of_bytes(r2.data));
    if r1.path == r2.path {
        reveal_strlit("assets/");
        reveal_strlit(".");
        let p = "assets/"@;
        let dot = "."@;
        assert(r1.path == p + h1 + dot + e1);
        assert(r2.path == p + h2 + dot + e2);
        assert((p + h1 + dot + e1).len() == p.len() + h1.len() + dot.len() + e1.len());
        assert((p + h2 + dot + e2).len() == p.len() + h2.len() + dot.len() + e2.len());
        assert(h1.len() == h2.len());
        assert(r1.path.subrange(7, 7 + h1.len() as int) =~= h1);
        assert(r2.path.subrange(7, 7 + h2.len() as int) =~= h2);
        lemma_hex32_injective(hash128_of_bytes(r1.data), hash128_of_bytes(r2.data));
    }
}

} // verus!
