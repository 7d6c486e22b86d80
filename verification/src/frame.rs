use vstd::prelude::*;
use vstd::string::*;

use crate::errors::FrameError;
use crate::header::{
    boundary_of, build_header, end_marker, is_boundary, lemma_boundary_exists,
    lemma_boundary_unique, lemma_build_injective, locate_boundary, parse_header, spec_build,
    start_marker, str_eq, wf_identifier,
};

verus! {

/// A complete persisted blob: the header line for the identifier, one
/// newline, then the body text.
pub open spec fn spec_frame(type_identifier: Seq<char>, body: Seq<char>) -> Seq<char> {
    spec_build(type_identifier) + seq!['\n'] + body
}

/// What the parsed header names: the interior of a marker-wrapped header
/// line, or the whole line when it carries no markers.
pub open spec fn spec_found(header: Seq<char>) -> Seq<char> {
    if exists|c: Seq<char>| header == spec_build(c) {
        choose|c: Seq<char>| header == spec_build(c)
    } else {
        header
    }
}

/// The terminal states of the load state machine, one per outcome.
pub enum LoadShape {
    /// The source could not be opened.
    MissingSource,
    /// The blob holds no newline, so no boundary exists.
    Malformed,
    /// The header names some other content than the expected identifier.
    Mismatch { found: Seq<char> },
    /// The header matches; `body` is what is handed to the body decoder.
    Accepted { body: Seq<char> },
}

/// The load protocol on the raw text of the source: locate the boundary,
/// verify the header against the expected identifier, and hand out the body.
pub open spec fn spec_load(contents: Option<Seq<char>>, expected: Seq<char>) -> LoadShape {
    match contents {
        None => LoadShape::MissingSource,
        Some(raw) => if !raw.contains('\n') {
            LoadShape::Malformed
        } else {
            let b = boundary_of(raw);
            let header = raw.subrange(0, b);
            let body = raw.subrange(b + 1, raw.len() as int);
            if header == spec_build(expected) {
                LoadShape::Accepted { body }
            } else {
                LoadShape::Mismatch { found: spec_found(header) }
            }
        },
    }
}

/// Renders the blob that save writes: header line, newline, body.
pub fn frame_blob(type_identifier: &str, body: &str) -> (r: String)
    requires
        wf_identifier(type_identifier@),
    ensures
        r@ == spec_frame(type_identifier@, body@),
{
    let mut s = build_header(type_identifier);
    s.append("\n");
    s.append(body);
    proof {
        reveal_strlit("\n");
        assert("\n"@ =~= seq!['\n']);
        assert(s@ =~= spec_frame(type_identifier@, body@));
    }
    s
}

/// The save protocol, after the destination has been opened (or not) and the
/// body codec has run: maps an open failure to `CannotOpenForWrite`, an
/// encode failure to `EncodeError`, and otherwise renders the full blob to
/// write. The first failure wins; no partial success is ever reported.
pub fn save_frame(opened_for_write: bool, encoded: Result<String, String>, type_identifier: &str)
    -> (r: Result<String, FrameError>)
    requires
        wf_identifier(type_identifier@),
    ensures
        !opened_for_write ==> r == Err::<String, FrameError>(FrameError::CannotOpenForWrite),
        opened_for_write && encoded is Err ==> (r matches Err(e) && e matches
            FrameError::EncodeError { diagnostic } && diagnostic@ == encoded->Err_0@),
        opened_for_write && encoded is Ok ==> (r matches Ok(blob) && blob@ == spec_frame(
            type_identifier@,
            encoded->Ok_0@,
        )),
{
    if !opened_for_write {
        return Err(FrameError::CannotOpenForWrite);
    }
    match encoded {
        Ok(body) => Ok(frame_blob(type_identifier, body.as_str())),
        Err(diagnostic) => Err(FrameError::EncodeError { diagnostic }),
    }
}

/// The load protocol on what reading the source gave: `None` when the source
/// could not be opened, otherwise the raw text. Returns the body text to hand
/// to the body decoder, or the error of the state in which loading stopped.
pub fn load_frame(contents: Option<&str>, expected_type_identifier: &str)
    -> (r: Result<String, FrameError>)
    ensures
        ({
            let shape = spec_load(
                match contents {
                    Some(raw) => Some(raw@),
                    None => None,
                },
                expected_type_identifier@,
            );
            match shape {
                LoadShape::MissingSource => r == Err::<String, FrameError>(FrameError::CannotOpen),
                LoadShape::Malformed => r == Err::<String, FrameError>(FrameError::MalformedBlob),
                LoadShape::Mismatch { found } => r matches Err(e) && e matches
                    FrameError::HeaderMismatch { expected, found: f } && expected@
                    == expected_type_identifier@ && f@ == found,
                LoadShape::Accepted { body } => r matches Ok(b) && b@ == body,
            }
        }),
{
    let raw = match contents {
        Some(raw) => raw,
        None => {
            return Err(FrameError::CannotOpen);
        },
    };
    let boundary = match locate_boundary(raw) {
        Ok(i) => i,
        Err(e) => {
            return Err(e);
        },
    };
    proof {
        lemma_boundary_unique(raw@, boundary as int, boundary_of(raw@));
    }
    let n = raw.unicode_len();
    let header = raw.substring_char(0, boundary);
    let body = raw.substring_char(boundary + 1, n);
    match parse_header(header) {
        Some(content) => {
            if str_eq(content.as_str(), expected_type_identifier) {
                proof {
                    assert(header@ == spec_build(expected_type_identifier@));
                }
                Ok(String::from_str(body))
            } else {
                proof {
                    lemma_mismatch_found(header@, content@, expected_type_identifier@);
                }
                Err(FrameError::HeaderMismatch {
                    expected: String::from_str(expected_type_identifier),
                    found: content,
                })
            }
        },
        None => {
            proof {
                assert(spec_found(header@) == header@);
            }
            Err(FrameError::HeaderMismatch {
                expected: String::from_str(expected_type_identifier),
                found: String::from_str(header),
            })
        },
    }
}

/// A header whose interior is `content != expected` is a mismatch whose
/// reported content is exactly `content`.
proof fn lemma_mismatch_found(header: Seq<char>, content: Seq<char>, expected: Seq<char>)
    requires
        header == spec_build(content),
        content != expected,
    ensures
        header != spec_build(expected),
        spec_found(header) == content,
{
    if header == spec_build(expected) {
        lemma_build_injective(content, expected);
    }
    let c = choose|c: Seq<char>| header == spec_build(c);
    lemma_build_injective(c, content);
}

/// Neither marker holds a newline, so a header line built from newline-free
/// content holds none either.
proof fn lemma_build_no_newline(content: Seq<char>)
    requires
        !content.contains('\n'),
    ensures
        !spec_build(content).contains('\n'),
{
    reveal_strlit("[gd_ron]");
    reveal_strlit("[/gd_ron]");
    assert(!start_marker().contains('\n'));
    assert(!end_marker().contains('\n'));
    let s = spec_build(content);
    assert forall|i: int| 0 <= i < s.len() implies s[i] != '\n' by {
        if i < start_marker().len() {
            assert(s[i] == start_marker()[i]);
        } else if i < start_marker().len() + content.len() {
            assert(s[i] == content[i - start_marker().len()]);
        } else {
            assert(s[i] == end_marker()[i - start_marker().len() - content.len()]);
        }
    }
}

/// Boundary correctness: for any header content without a newline, the
/// boundary of `build(content) + "\n" + body` is exactly the length of the
/// built header line, whatever the body holds.
pub proof fn lemma_boundary_correct(content: Seq<char>, body: Seq<char>)
    requires
        !content.contains('\n'),
    ensures
        is_boundary(spec_frame(content, body), spec_build(content).len() as int),
        boundary_of(spec_frame(content, body)) == spec_build(content).len(),
{
    lemma_build_no_newline(content);
    let blob = spec_frame(content, body);
    let header = spec_build(content);
    let b = header.len() as int;
    assert(blob[b] == '\n');
    assert forall|j: int| 0 <= j < b implies blob[j] != '\n' by {
        assert(blob[j] == header[j]);
    }
    assert(is_boundary(blob, b));
    assert(blob.contains('\n'));
    lemma_boundary_exists(blob);
    lemma_boundary_unique(blob, b, boundary_of(blob));
}

/// Splitting a framed blob at its boundary gives back the header line and
/// the body it was framed from.
proof fn lemma_frame_splits(content: Seq<char>, body: Seq<char>)
    requires
        !content.contains('\n'),
    ensures
        spec_frame(content, body).subrange(0, spec_build(content).len() as int) == spec_build(
            content,
        ),
        spec_frame(content, body).subrange(
            (spec_build(content).len() + 1) as int,
            spec_frame(content, body).len() as int,
        ) == body,
{
    let blob = spec_frame(content, body);
    let header = spec_build(content);
    let b = header.len() as int;
    assert(blob.subrange(0, b) =~= header);
    assert(blob.subrange(b + 1, blob.len() as int) =~= body);
}

/// Round trip: loading a blob framed for a well-formed identifier, with that
/// same identifier expected, accepts it and hands the body out unchanged.
pub proof fn lemma_round_trip(type_identifier: Seq<char>, body: Seq<char>)
    requires
        wf_identifier(type_identifier),
    ensures
        spec_load(Some(spec_frame(type_identifier, body)), type_identifier)
            == (LoadShape::Accepted { body }),
{
    lemma_boundary_correct(type_identifier, body);
    lemma_frame_splits(type_identifier, body);
}

/// Tamper detection: a blob framed for one identifier, loaded while another
/// is expected, is refused as a mismatch that names the identifier found in
/// the blob — the body is never handed to the decoder.
pub proof fn lemma_tamper_detection(found_id: Seq<char>, expected_id: Seq<char>, body: Seq<char>)
    requires
        wf_identifier(found_id),
        wf_identifier(expected_id),
        found_id != expected_id,
    ensures
        spec_load(Some(spec_frame(found_id, body)), expected_id)
            == (LoadShape::Mismatch { found: found_id }),
{
    lemma_boundary_correct(found_id, body);
    lemma_frame_splits(found_id, body);
    let blob = spec_frame(found_id, body);
    let header = blob.subrange(0, spec_build(found_id).len() as int);
    lemma_mismatch_found(header, found_id, expected_id);
}

/// Malformed input: raw text without a newline has no header/body boundary,
/// so loading it stops as malformed whatever identifier is expected.
pub proof fn lemma_malformed_without_newline(raw: Seq<char>, expected: Seq<char>)
    requires
        !raw.contains('\n'),
    ensures
        spec_load(Some(raw), expected) == LoadShape::Malformed,
{
}

/// Maps the body decoder's outcome: a decode failure becomes `DecodeError`
/// with the decoder's diagnostic; a decoded value passes through untouched,
/// so no partially populated value can ever be reported.
pub fn decode_outcome<T>(decoded: Result<T, String>) -> (r: Result<T, FrameError>)
    ensures
        decoded matches Ok(v) ==> r == Ok::<T, FrameError>(v),
        decoded matches Err(d) ==> (r matches Err(e) && e matches FrameError::DecodeError {
            diagnostic } && diagnostic@ == d@),
{
    match decoded {
        Ok(v) => Ok(v),
        Err(diagnostic) => Err(FrameError::DecodeError { diagnostic }),
    }
}

} // verus!
