//! Resolving the URI of a buffer or image to its bytes: inline `data:` URIs
//! are base64-decoded; any other URI names a file beside the document, whose
//! bytes the caller has read.
use vstd::prelude::*;
use vstd::slice::{slice_subrange, slice_to_vec};
use vstd::utf8::encode_utf8;
use base64::Engine;
use crate::error::Error;
use crate::document::{Buffer, Document};

verus! {

/// What base64 (standard alphabet, padded) decoding gives for `s`, or `None`
/// where `s` is not valid base64.
pub uninterp spec fn base64_decoded(s: Seq<u8>) -> Option<Seq<u8>>;

/// What percent-decoding gives for `s`, or `None` where the decoded bytes are
/// not UTF-8.
pub uninterp spec fn percent_decoded(s: Seq<char>) -> Option<Seq<char>>;

/// Relies on base64's `STANDARD.decode`: the decoded bytes, or an error for
/// input that is not valid base64.
#[verifier::external_body]
fn base64_decode(data: &[u8]) -> (r: Option<Vec<u8>>)
    ensures
        match r {
            Some(v) => base64_decoded(data@) == Some(v@),
            None => base64_decoded(data@) is None,
        },
{
    base64::engine::general_purpose::STANDARD.decode(data).ok()
}

/// Relies on urlencoding's `decode`: the percent-decoded text, or an error
/// where it is not UTF-8; text without `%` comes back unchanged.
#[verifier::external_body]
fn percent_decode(uri: &str) -> (r: Option<String>)
    ensures
        match r {
            Some(s) => percent_decoded(uri@) == Some(s@),
            None => percent_decoded(uri@) is None,
        },
        !uri@.contains('%') ==> r is Some && r->Some_0@ == uri@,
{
    urlencoding::decode(uri).ok().map(|c| c.into_owned())
}

/// Files beside the document that URIs may name: each file's name (as the
/// decoded URI gives it) and its bytes.
pub type ResourceFiles = Vec<(String, Vec<u8>)>;

/// The bytes of the first file called `name`, if any.
pub open spec fn file_lookup(files: Seq<(String, Vec<u8>)>, name: Seq<char>) -> Option<Seq<u8>>
    decreases files.len(),
{
    if files.len() == 0 {
        None
    } else if files[0].0@ == name {
        Some(files[0].1@)
    } else {
        file_lookup(files.drop_first(), name)
    }
}

/// The URI's bytes begin with `data:`.
pub open spec fn is_data_uri(b: Seq<u8>) -> bool {
    &&& b.len() >= 5
    &&& b[0] == 100u8
    &&& b[1] == 97u8
    &&& b[2] == 116u8
    &&& b[3] == 97u8
    &&& b[4] == 58u8
}

/// `i` is the position of the first comma in `b`.
pub open spec fn first_comma_at(b: Seq<u8>, i: int) -> bool {
    &&& 0 <= i < b.len()
    &&& b[i] == 44u8
    &&& forall|j: int| 0 <= j < i ==> b[j] != 44u8
}

/// `r` is the outcome of resolving a URI whose characters are `chars`, with
/// `files` at hand.
pub open spec fn uri_resolved(
    r: Result<Vec<u8>, Error>,
    chars: Seq<char>,
    files: Seq<(String, Vec<u8>)>,
) -> bool {
    let b = encode_utf8(chars);
    if is_data_uri(b) {
        if exists|i: int| first_comma_at(b, i) {
            let i = choose|i: int| first_comma_at(b, i);
            match base64_decoded(b.subrange(i + 1, b.len() as int)) {
                Some(d) => r is Ok && r->Ok_0@ == d,
                None => r == Err::<Vec<u8>, Error>(Error::Base64DecodeFailed),
            }
        } else {
            r == Err::<Vec<u8>, Error>(Error::Base64MIMENotFound)
        }
    } else {
        match percent_decoded(chars) {
            None => r == Err::<Vec<u8>, Error>(Error::UTF8Err),
            Some(name) => match file_lookup(files, name) {
                Some(d) => r is Ok && r->Ok_0@ == d,
                None => r matches Err(Error::FileReadFailed { path }) && path@ == name,
            },
        }
    }
}

/// The bytes of the first file called `name` in `files`.
fn find_file(files: &ResourceFiles, name: &String) -> (r: Option<Vec<u8>>)
    ensures
        match file_lookup(files@, name@) {
            Some(d) => r is Some && r->Some_0@ == d,
            None => r is None,
        },
{
    let mut i: usize = 0;
    assert(files@.subrange(0, files@.len() as int) =~= files@);
    while i < files.len()
        invariant
            0 <= i <= files@.len(),
            file_lookup(files@, name@) == file_lookup(files@.subrange(i as int, files@.len() as int), name@),
        decreases files@.len() - i,
    {
        let ghost rest = files@.subrange(i as int, files@.len() as int);
        assert(rest[0] == files@[i as int]);
        if files[i].0 == *name {
            return Some(slice_to_vec(files[i].1.as_slice()));
        }
        assert(rest.drop_first() =~= files@.subrange(i + 1, files@.len() as int));
        i = i + 1;
    }
    assert(files@.subrange(i as int, files@.len() as int).len() == 0);
    None
}

/// The bytes a URI stands for: the base64 payload after the first comma of a
/// `data:` URI, or the bytes of the file that a percent-decoded URI names.
pub fn read_uri_data(uri: &str, files: &ResourceFiles) -> (r: Result<Vec<u8>, Error>)
    ensures
        uri_resolved(r, uri@, files@),
{
    let b = uri.as_bytes();
    let is_data = b.len() >= 5 && b[0] == 100u8 && b[1] == 97u8 && b[2] == 116u8 && b[3] == 97u8
        && b[4] == 58u8;
    if is_data {
        let mut i: usize = 0;
        while i < b.len() && b[i] != 44u8
            invariant
                0 <= i <= b@.len(),
                forall|j: int| 0 <= j < i ==> b@[j] != 44u8,
            decreases b@.len() - i,
        {
            i = i + 1;
        }
        if i == b.len() {
            assert forall|k: int| !first_comma_at(b@, k) by {
                if 0 <= k < b@.len() && b@[k] == 44u8 {
                    assert(b@[k] != 44u8);
                }
            }
            return Err(Error::Base64MIMENotFound);
        }
        assert(first_comma_at(b@, i as int));
        proof {
            let c = choose|c: int| first_comma_at(b@, c);
            if c < i {
                assert(b@[c] != 44u8);
            } else if c > i {
                assert(b@[i as int] != 44u8);
            }
        }
        let payload = slice_subrange(b, i + 1, b.len());
        match base64_decode(payload) {
            Some(d) => Ok(d),
            None => Err(Error::Base64DecodeFailed),
        }
    } else {
        match percent_decode(uri) {
            None => Err(Error::UTF8Err),
            Some(name) => match find_file(files, &name) {
                Some(d) => Ok(d),
                None => Err(Error::FileReadFailed { path: name }),
            },
        }
    }
}

/// The bytes a URI resolves to, where it resolves.
pub open spec fn uri_ok(chars: Seq<char>, files: Seq<(String, Vec<u8>)>) -> Option<Seq<u8>> {
    let b = encode_utf8(chars);
    if is_data_uri(b) {
        if exists|i: int| first_comma_at(b, i) {
            let i = choose|i: int| first_comma_at(b, i);
            base64_decoded(b.subrange(i + 1, b.len() as int))
        } else {
            None
        }
    } else {
        match percent_decoded(chars) {
            Some(name) => file_lookup(files, name),
            None => None,
        }
    }
}

/// A buffer that is not read: a compression fallback, or one without a URI
/// (the embedded chunk).
pub open spec fn buffer_skipped(b: Buffer) -> bool {
    b.meshopt_fallback || b.uri is None
}

/// The bytes buffer `b` resolves to, where it has a URI that resolves.
pub open spec fn buffer_ok(b: Buffer, files: Seq<(String, Vec<u8>)>) -> Option<Seq<u8>> {
    uri_ok(b.uri->Some_0@, files)
}

proof fn lemma_uri_resolved_ok(r: Result<Vec<u8>, Error>, chars: Seq<char>, files: Seq<(String, Vec<u8>)>)
    requires
        uri_resolved(r, chars, files),
    ensures
        r is Ok <==> uri_ok(chars, files) is Some,
        r is Ok ==> uri_ok(chars, files) == Some(r->Ok_0@),
{
}

/// Resolves every buffer of the document that has a URI and is not a
/// compression fallback; the entry of every other buffer is `None`.
pub fn load_model_buffers(gltf_info: &Document, files: &ResourceFiles) -> (r: Result<
    Vec<Option<Vec<u8>>>,
    Error,
>)
    ensures
        r is Ok <==> forall|i: int|
            0 <= i < gltf_info.buffers@.len() ==> buffer_skipped(#[trigger] gltf_info.buffers@[i])
                || buffer_ok(gltf_info.buffers@[i], files@) is Some,
        r matches Ok(v) ==> {
            &&& v@.len() == gltf_info.buffers@.len()
            &&& forall|i: int|
                0 <= i < v@.len() ==> if buffer_skipped(#[trigger] gltf_info.buffers@[i]) {
                    v@[i] is None
                } else {
                    v@[i] is Some && buffer_ok(gltf_info.buffers@[i], files@) == Some(v@[i]->Some_0@)
                }
        },
        r matches Err(e) ==> exists|i: int|
            0 <= i < gltf_info.buffers@.len() && !buffer_skipped(#[trigger] gltf_info.buffers@[i])
                && uri_resolved(Err(e), gltf_info.buffers@[i].uri->Some_0@, files@) && forall|j: int|
                0 <= j < i ==> buffer_skipped(#[trigger] gltf_info.buffers@[j]) || buffer_ok(
                    gltf_info.buffers@[j],
                    files@,
                ) is Some,
{
    let mut buffer_vec: Vec<Option<Vec<u8>>> = Vec::new();
    let mut index: usize = 0;
    while index < gltf_info.buffers.len()
        invariant
            0 <= index <= gltf_info.buffers@.len(),
            buffer_vec@.len() == index,
            forall|i: int|
                0 <= i < index ==> if buffer_skipped(#[trigger] gltf_info.buffers@[i]) {
                    buffer_vec@[i] is None
                } else {
                    buffer_vec@[i] is Some && buffer_ok(gltf_info.buffers@[i], files@) == Some(
                        buffer_vec@[i]->Some_0@,
                    )
                },
        decreases gltf_info.buffers@.len() - index,
    {
        let buffer = &gltf_info.buffers[index];
        if buffer.meshopt_fallback {
            buffer_vec.push(None);
        } else {
            match &buffer.uri {
                Some(uri) => {
                    let data = read_uri_data(uri.as_str(), files);
                    proof {
                        lemma_uri_resolved_ok(data, uri@, files@);
                    }
                    match data {
                        Ok(d) => {
                            buffer_vec.push(Some(d));
                        },
                        Err(e) => {
                            assert(!buffer_skipped(gltf_info.buffers@[index as int]));
                            return Err(e);
                        },
                    }
                },
                None => {
                    buffer_vec.push(None);
                },
            }
        }
        index = index + 1;
    }
    Ok(buffer_vec)
}

} // verus!

verus! {

/// Whether `uri` is a `data:` URI.
fn is_data(uri: &str) -> (r: bool)
    ensures
        r == is_data_uri(encode_utf8(uri@)),
{
    let b = uri.as_bytes();
    b.len() >= 5 && b[0] == 100u8 && b[1] == 97u8 && b[2] == 116u8 && b[3] == 97u8 && b[4] == 58u8
}

/// The URI names a file beside the document rather than inline data.
pub open spec fn names_file(uri: Seq<char>) -> bool {
    !is_data_uri(encode_utf8(uri))
}

/// Buffer `b` is read from a file.
pub open spec fn buffer_file(b: Buffer) -> bool {
    !buffer_skipped(b) && names_file(b.uri->Some_0@)
}

/// Image `i` is read from a file.
pub open spec fn image_file(i: crate::document::Image) -> bool {
    i.uri is Some && names_file(i.uri->Some_0@)
}

/// `name` is among `names`.
pub open spec fn listed(names: Seq<String>, name: Seq<char>) -> bool {
    exists|j: int| 0 <= j < names.len() && (#[trigger] names[j])@ == name
}

/// Appends the decoded file name of `uri` to `names` if it names a file.
fn push_file_name(uri: &String, names: &mut Vec<String>) -> (r: Result<(), Error>)
    ensures
        names_file(uri@) && percent_decoded(uri@) is None ==> r == Err::<(), Error>(Error::UTF8Err),
        !(names_file(uri@) && percent_decoded(uri@) is None) ==> r is Ok,
        forall|j: int| 0 <= j < old(names)@.len() ==> #[trigger] final(names)@[j] == old(names)@[j],
        final(names)@.len() >= old(names)@.len(),
        r is Ok && names_file(uri@) ==> listed(final(names)@, percent_decoded(uri@)->Some_0),
{
    if is_data(uri.as_str()) {
        return Ok(());
    }
    match percent_decode(uri.as_str()) {
        Some(name) => {
            names.push(name);
            assert(final(names)@[final(names)@.len() - 1]@ == percent_decoded(uri@)->Some_0) by {
                assert(names@[names@.len() - 1] == name);
            }
            Ok(())
        },
        None => Err(Error::UTF8Err),
    }
}

/// The decoded names of the files beside the document that its buffers and
/// images read, so that a caller can read each before loading.
pub fn external_file_names(gltf_info: &Document) -> (r: Result<Vec<String>, Error>)
    ensures
        r is Ok <==> (forall|i: int|
            0 <= i < gltf_info.buffers@.len() && buffer_file(#[trigger] gltf_info.buffers@[i])
                ==> percent_decoded(gltf_info.buffers@[i].uri->Some_0@) is Some) && (forall|i: int|
            0 <= i < gltf_info.images@.len() && image_file(#[trigger] gltf_info.images@[i])
                ==> percent_decoded(gltf_info.images@[i].uri->Some_0@) is Some),
        r is Err ==> r == Err::<Vec<String>, Error>(Error::UTF8Err),
        r matches Ok(names) ==> {
            &&& forall|i: int|
                0 <= i < gltf_info.buffers@.len() && buffer_file(#[trigger] gltf_info.buffers@[i])
                    ==> listed(names@, percent_decoded(gltf_info.buffers@[i].uri->Some_0@)->Some_0)
            &&& forall|i: int|
                0 <= i < gltf_info.images@.len() && image_file(#[trigger] gltf_info.images@[i])
                    ==> listed(names@, percent_decoded(gltf_info.images@[i].uri->Some_0@)->Some_0)
        },
{
    let ghost doc = *gltf_info;
    let mut names: Vec<String> = Vec::new();
    let mut i: usize = 0;
    while i < gltf_info.buffers.len()
        invariant
            doc == *gltf_info,
            0 <= i <= doc.buffers@.len(),
            forall|k: int|
                0 <= k < i && buffer_file(#[trigger] doc.buffers@[k]) ==> percent_decoded(
                    doc.buffers@[k].uri->Some_0@,
                ) is Some && listed(names@, percent_decoded(doc.buffers@[k].uri->Some_0@)->Some_0),
        decreases doc.buffers@.len() - i,
    {
        let buffer = &gltf_info.buffers[i];
        if !buffer.meshopt_fallback {
            match &buffer.uri {
                Some(uri) => {
                    let ghost before = names@;
                    match push_file_name(uri, &mut names) {
                        Ok(()) => {},
                        Err(e) => {
                            return Err(e);
                        },
                    }
                    proof {
                        assert forall|k: int|
                            0 <= k < i && buffer_file(#[trigger] doc.buffers@[k]) implies listed(
                                names@,
                                percent_decoded(doc.buffers@[k].uri->Some_0@)->Some_0,
                            ) by {
                            let j = choose|j: int|
                                0 <= j < before.len() && (#[trigger] before[j])@ == percent_decoded(
                                    doc.buffers@[k].uri->Some_0@,
                                )->Some_0;
                            assert(names@[j] == before[j]);
                        }
                    }
                },
                None => {},
            }
        }
        i = i + 1;
    }
    let mut m: usize = 0;
    while m < gltf_info.images.len()
        invariant
            doc == *gltf_info,
            0 <= m <= doc.images@.len(),
            forall|k: int|
                0 <= k < doc.buffers@.len() && buffer_file(#[trigger] doc.buffers@[k]) ==> percent_decoded(
                    doc.buffers@[k].uri->Some_0@,
                ) is Some && listed(names@, percent_decoded(doc.buffers@[k].uri->Some_0@)->Some_0),
            forall|k: int|
                0 <= k < m && image_file(#[trigger] doc.images@[k]) ==> percent_decoded(
                    doc.images@[k].uri->Some_0@,
                ) is Some && listed(names@, percent_decoded(doc.images@[k].uri->Some_0@)->Some_0),
        decreases doc.images@.len() - m,
    {
        let image = &gltf_info.images[m];
        match &image.uri {
            Some(uri) => {
                let ghost before = names@;
                match push_file_name(uri, &mut names) {
                    Ok(()) => {},
                    Err(e) => {
                        return Err(e);
                    },
                }
                proof {
                    assert forall|k: int|
                        0 <= k < doc.buffers@.len() && buffer_file(#[trigger] doc.buffers@[k]) implies listed(
                            names@,
                            percent_decoded(doc.buffers@[k].uri->Some_0@)->Some_0,
                        ) by {
                        let j = choose|j: int|
                            0 <= j < before.len() && (#[trigger] before[j])@ == percent_decoded(
                                doc.buffers@[k].uri->Some_0@,
                            )->Some_0;
                        assert(names@[j] == before[j]);
                    }
                    assert forall|k: int|
                        0 <= k < m && image_file(#[trigger] doc.images@[k]) implies listed(
                            names@,
                            percent_decoded(doc.images@[k].uri->Some_0@)->Some_0,
                        ) by {
                        let j = choose|j: int|
                            0 <= j < before.len() && (#[trigger] before[j])@ == percent_decoded(
                                doc.images@[k].uri->Some_0@,
                            )->Some_0;
                        assert(names@[j] == before[j]);
                    }
                }
            },
            None => {},
        }
        m = m + 1;
    }
    Ok(names)
}

} // verus!
