//! Compressed artifacts: gzip-compressed HTML documents and gzip-compressed
//! newline-delimited JSON analysis records.
//!
//! Decompression and JSON parsing are delegated to outside code behind
//! trusted wrappers; the line splitting and the all-or-nothing policy (one
//! malformed line fails the whole call) are verified here.

use vstd::prelude::*;

use crate::errors::{ErrorLayer, ServerError};
use serde_json::Value;
use vstd::string::StrSliceExecFns;

verus! {

/// Declares `serde_json::Value`, the structured record type of the analysis
/// artifacts, so that it can stand in signatures; the library carries such
/// values through without reading them.
#[verifier::external_type_specification]
#[verifier::external_body]
pub struct ExValue(serde_json::Value);

/// The text a gzip container decompresses to, when it is well-formed gzip
/// wrapping well-formed UTF-8; it is a function of the compressed bytes
/// alone.
pub uninterp spec fn gunzip_text_of(b: Seq<u8>) -> Option<Seq<char>>;

/// Whether a line of text parses as one JSON value; a function of the text
/// alone.
pub uninterp spec fn json_line_ok(s: Seq<char>) -> bool;

/// Relies on `flate2::read::GzDecoder` and `std::io::Read::read_to_string`:
/// whole-buffer decompression of the buffer's first gzip member to UTF-8
/// text, a pure function of the compressed bytes; it fails when the decoder
/// cannot decode the buffer or the decoded bytes are not UTF-8 (bytes after
/// the first member are ignored).
#[verifier::external_body]
pub(crate) fn gunzip_text(compressed: &Vec<u8>) -> (r: Result<String, String>)
    ensures
        (r is Ok) == (gunzip_text_of(compressed@) is Some),
        r matches Ok(t) ==> Some(t@) == gunzip_text_of(compressed@),
{
    let mut gz = flate2::read::GzDecoder::new(&compressed[..]);
    let mut out = String::new();
    match std::io::Read::read_to_string(&mut gz, &mut out) {
        Ok(_) => Ok(out),
        Err(e) => Err(e.to_string()),
    }
}

/// Relies on `serde_json::from_str::<Value>`: whether a line parses is a
/// function of the text alone.
#[verifier::external_body]
fn parse_json_line(s: &str) -> (r: Result<Value, String>)
    ensures
        (r is Ok) == json_line_ok(s@),
{
    match serde_json::from_str::<serde_json::Value>(s) {
        Ok(v) => Ok(v),
        Err(e) => Err(e.to_string()),
    }
}

/// Position of the first occurrence of `c` in `s`, or `s.len()` if none.
pub open spec fn first_char(s: Seq<char>, c: char) -> nat
    decreases s.len(),
{
    if s.len() == 0 {
        0
    } else if s[0] == c {
        0
    } else {
        1 + first_char(s.drop_first(), c)
    }
}

proof fn lemma_first_char_char(s: Seq<char>, c: char, m: int)
    requires
        0 <= m <= s.len(),
        forall|k: int| 0 <= k < m ==> s[k] != c,
        m < s.len() ==> s[m] == c,
    ensures
        first_char(s, c) == m,
    decreases m,
{
    if s.len() == 0 {
    } else if s[0] == c {
        assert(m == 0);
    } else {
        assert(m > 0);
        lemma_first_char_char(s.drop_first(), c, m - 1);
    }
}

/// The lines of a text: the newline-separated pieces, a trailing newline
/// terminating the last line rather than opening an empty one.
pub open spec fn lines_chars(t: Seq<char>) -> Seq<Seq<char>>
    decreases t.len(),
{
    if t.len() == 0 {
        Seq::empty()
    } else {
        let i = first_char(t, '\n') as int;
        if i >= t.len() {
            seq![t]
        } else {
            seq![t.take(i)] + lines_chars(t.skip(i + 1))
        }
    }
}

/// Parse decompressed NDJSON text: one structured value per line, in order,
/// and a single malformed line fails the whole call with a storage error.
#[verifier::rlimit(60)]
pub fn decode_ndjson_text(text: &str) -> (r: Result<Vec<Value>, ServerError>)
    ensures
        (r is Ok) <==> (forall|j: int|
            0 <= j < lines_chars(text@).len() ==> json_line_ok(#[trigger] lines_chars(text@)[j])),
        r matches Ok(vs) ==> vs@.len() == lines_chars(text@).len(),
        r matches Err(e) ==> e matches ServerError::StickyProblem(d) && d.layer
            == ErrorLayer::ServerLayer,
{
    let ghost full = lines_chars(text@);
    let n = text.unicode_len();
    let mut vals: Vec<Value> = Vec::new();
    let ghost mut done: Seq<Seq<char>> = Seq::empty();
    let mut start: usize = 0;
    proof {
        assert(text@.skip(0) =~= text@);
        assert(full =~~= done + lines_chars(text@.skip(0)));
    }
    while start < n
        invariant
            n == text@.len(),
            0 <= start <= n,
            full == lines_chars(text@),
            full =~~= done + lines_chars(text@.skip(start as int)),
            vals@.len() == done.len(),
            forall|j: int| 0 <= j < done.len() ==> json_line_ok(#[trigger] done[j]),
        decreases n - start,
    {
        let mut e: usize = start;
        while e < n && text.get_char(e) != '\n'
            invariant
                n == text@.len(),
                start <= e <= n,
                forall|k: int| start <= k < e ==> text@[k] != '\n',
            decreases n - e,
        {
            e = e + 1;
        }
        let next: usize = if e < n {
            e + 1
        } else {
            n
        };
        let line = text.substring_char(start, e);
        let ghost rem = text@.skip(start as int);
        proof {
            assert forall|k: int| 0 <= k < e - start implies rem[k] != '\n' by {
                assert(rem[k] == text@[start + k]);
            }
            if e < n {
                assert(rem[e - start] == text@[e as int]);
            }
            lemma_first_char_char(rem, '\n', e - start);
            if e < n {
                assert(rem.take(e - start) =~= line@);
                assert(rem.skip(e - start + 1) =~= text@.skip(next as int));
            } else {
                assert(rem =~= line@);
                assert(lines_chars(text@.skip(next as int)) =~= Seq::<Seq<char>>::empty());
            }
            assert(lines_chars(rem) =~~= seq![line@] + lines_chars(text@.skip(next as int)));
            assert(full[done.len() as int] == line@);
        }
        match parse_json_line(line) {
            Ok(v) => {
                vals.push(v);
                proof {
                    done = done.push(line@);
                    assert(full =~~= done + lines_chars(text@.skip(next as int)));
                }
            },
            Err(msg) => {
                proof {
                    assert(!json_line_ok(full[done.len() as int]));
                }
                return Err(ServerError::sticky_storage(msg));
            },
        }
        start = next;
    }
    proof {
        assert(lines_chars(text@.skip(start as int)) =~~= Seq::<Seq<char>>::empty());
        assert(full =~~= done);
    }
    Ok(vals)
}

/// Read newline-delimited JSON that has been gzip-compressed: decompress the
/// whole buffer, then parse every line; a malformed container or line fails
/// the call with a storage error and no partial result.
pub fn read_gzipped_ndjson(compressed: &Vec<u8>) -> (r: Result<Vec<Value>, ServerError>)
    ensures
        (r is Ok) <==> (gunzip_text_of(compressed@) matches Some(t) && forall|j: int|
            0 <= j < lines_chars(t).len() ==> json_line_ok(#[trigger] lines_chars(t)[j])),
        r matches Ok(vs) ==> gunzip_text_of(compressed@) matches Some(t) && vs@.len()
            == lines_chars(t).len(),
        r matches Err(e) ==> e matches ServerError::StickyProblem(d) && d.layer
            == ErrorLayer::ServerLayer,
{
    match gunzip_text(compressed) {
        Ok(text) => decode_ndjson_text(text.as_str()),
        Err(msg) => Err(ServerError::sticky_storage(msg)),
    }
}

} // verus!
