//! The response normalizer.
//!
//! A raw response — protocol version, status code, ordered headers and a
//! body read as text — is reduced to one canonical text: the status line,
//! the headers not named in the skip list, a blank line, and the body,
//! pretty-printed when it parses as JSON.  That text is the sole basis on
//! which two responses are compared.

use vstd::prelude::*;

use crate::chars::{push_decimal, push_str_chars, spec_decimal, str_chars};
use crate::json::{spec_emit_pretty, spec_parse_json};
use crate::req::str_pairs_view;

verus! {

/// Comparison options: response headers excluded from the canonical text.
/// Matching is by exact name, not case-folded.
#[derive(Debug, PartialEq, Eq)]
pub struct ResponseContext {
    pub skip_headers: Vec<String>,
}

/// The views of a list of strings.
pub open spec fn strs_view(s: Seq<String>) -> Seq<Seq<char>>
    decreases s,
{
    if s.len() == 0 {
        Seq::empty()
    } else {
        seq![s[0]@] + strs_view(s.drop_first())
    }
}

/// `strs_view` maps indexwise.
pub proof fn lemma_strs_view(s: Seq<String>)
    ensures
        strs_view(s).len() == s.len(),
        forall|i: int| 0 <= i < s.len() ==> strs_view(s)[i] == s[i]@,
    decreases s,
{
    if s.len() != 0 {
        lemma_strs_view(s.drop_first());
    }
}

impl View for ResponseContext {
    type V = Seq<Seq<char>>;

    open spec fn view(&self) -> Seq<Seq<char>> {
        strs_view(self.skip_headers@)
    }
}

impl ResponseContext {
    /// Comparison options with the given skip list.
    pub fn new(skip_headers: Vec<String>) -> (r: Self)
        ensures
            r@ == strs_view(skip_headers@),
    {
        Self { skip_headers }
    }
}

impl Default for ResponseContext {
    /// Options that skip nothing.
    fn default() -> (r: Self)
        ensures
            r@ == Seq::<Seq<char>>::empty(),
    {
        let r = Self { skip_headers: Vec::new() };
        proof {
            assert(strs_view(r.skip_headers@) =~= Seq::<Seq<char>>::empty());
        }
        r
    }
}

/// One response as the transport reports it, in plain values.
#[derive(Debug, PartialEq, Eq)]
pub struct RawResponse {
    /// The final URL the response came from.
    pub url: String,
    /// The protocol version, e.g. `HTTP/1.1`.
    pub version: String,
    /// The status code.
    pub status: u16,
    /// The response headers, in their original order.
    pub headers: Vec<(String, String)>,
    /// The body, read as text.
    pub body: String,
}

/// The mathematical content of a [`RawResponse`].
pub struct RawResponseModel {
    pub url: Seq<char>,
    pub version: Seq<char>,
    pub status: int,
    pub headers: Seq<(Seq<char>, Seq<char>)>,
    pub body: Seq<char>,
}

impl View for RawResponse {
    type V = RawResponseModel;

    open spec fn view(&self) -> RawResponseModel {
        RawResponseModel {
            url: self.url@,
            version: self.version@,
            status: self.status as int,
            headers: str_pairs_view(self.headers@),
            body: self.body@,
        }
    }
}

/// The canonical status line: version, a space, the decimal status code.
pub open spec fn spec_status_line(version: Seq<char>, status: int) -> Seq<char> {
    version + seq![' '] + spec_decimal(status) + seq!['\n']
}

/// The canonical header lines: each unskipped header as `name: value`,
/// in the response's order.
pub open spec fn spec_headers_text(
    hs: Seq<(Seq<char>, Seq<char>)>,
    skip: Seq<Seq<char>>,
) -> Seq<char>
    decreases hs,
{
    if hs.len() == 0 {
        Seq::empty()
    } else {
        let rest = spec_headers_text(hs.drop_first(), skip);
        if skip.contains(hs[0].0) {
            rest
        } else {
            hs[0].0 + seq![':', ' '] + hs[0].1 + seq!['\n'] + rest
        }
    }
}

/// The canonical body: pretty-printed when it parses as JSON, verbatim
/// otherwise, with a final newline.
pub open spec fn spec_body_text(b: Seq<char>) -> Seq<char> {
    match spec_parse_json(b) {
        Some(v) => spec_emit_pretty(v, Seq::empty()) + seq!['\n'],
        None => b + seq!['\n'],
    }
}

/// The whole canonical text: status line, filtered headers, one blank
/// line, canonical body.
pub open spec fn spec_canonical_text(r: RawResponseModel, skip: Seq<Seq<char>>) -> Seq<char> {
    spec_status_line(r.version, r.status) + spec_headers_text(r.headers, skip) + seq!['\n']
        + spec_body_text(r.body)
}

/// True when the skip list holds this exact name.
fn skip_contains(skip: &Vec<String>, name: &String) -> (r: bool)
    ensures
        r == strs_view(skip@).contains(name@),
{
    proof {
        lemma_strs_view(skip@);
    }
    let mut i: usize = 0;
    while i < skip.len()
        invariant
            i <= skip@.len(),
            forall|j: int| 0 <= j < i ==> strs_view(skip@)[j] != name@,
        decreases skip@.len() - i,
    {
        proof {
            lemma_strs_view(skip@);
        }
        if crate::chars::str_eq(skip[i].as_str(), name.as_str()) {
            proof {
                assert(strs_view(skip@)[i as int] == name@);
            }
            return true;
        }
        i = i + 1;
    }
    proof {
        lemma_strs_view(skip@);
        if strs_view(skip@).contains(name@) {
            let j = choose|j: int|
                0 <= j < strs_view(skip@).len() && strs_view(skip@)[j] == name@;
        }
    }
    false
}

/// Appends the canonical header lines from index `i` on.
fn headers_into(
    headers: &Vec<(String, String)>,
    i: usize,
    skip: &Vec<String>,
    out: &mut Vec<char>,
)
    requires
        i <= headers@.len(),
    ensures
        final(out)@ == old(out)@ + spec_headers_text(
            str_pairs_view(headers@).skip(i as int),
            strs_view(skip@),
        ),
    decreases headers@.len() - i,
{
    proof {
        crate::req::lemma_str_pairs_view(headers@);
    }
    if i == headers.len() {
        proof {
            assert(str_pairs_view(headers@).skip(i as int) =~= Seq::<(Seq<char>, Seq<char>)>::empty());
            assert(out@ =~= old(out)@ + spec_headers_text(
                str_pairs_view(headers@).skip(i as int),
                strs_view(skip@),
            ));
        }
        return;
    }
    let skipped = skip_contains(skip, &headers[i].0);
    if !skipped {
        push_str_chars(out, headers[i].0.as_str());
        out.push(':');
        out.push(' ');
        push_str_chars(out, headers[i].1.as_str());
        out.push('\n');
    }
    headers_into(headers, i + 1, skip, out);
    proof {
        let hv = str_pairs_view(headers@);
        assert(hv.skip(i as int)[0] == hv[i as int]);
        assert(hv.skip(i as int).drop_first() =~= hv.skip(i as int + 1));
        assert(out@ =~= old(out)@ + spec_headers_text(hv.skip(i as int), strs_view(skip@)));
    }
}

/// Reduces a raw response to its canonical text under the given skip
/// list; see [`spec_canonical_text`].
pub fn canonicalize(raw: &RawResponse, skip_headers: &Vec<String>) -> (r: String)
    ensures
        r@ == spec_canonical_text(raw@, strs_view(skip_headers@)),
{
    let mut out: Vec<char> = Vec::new();
    push_str_chars(&mut out, raw.version.as_str());
    out.push(' ');
    push_decimal(&mut out, raw.status as u64);
    out.push('\n');
    proof {
        assert(out@ =~= spec_status_line(raw.version@, raw.status as int));
        assert(str_pairs_view(raw.headers@).skip(0) =~= str_pairs_view(raw.headers@));
    }
    headers_into(&raw.headers, 0, skip_headers, &mut out);
    out.push('\n');
    match crate::json::parse_json(raw.body.as_str()) {
        Some(v) => {
            let pretty = v.to_pretty_string();
            push_str_chars(&mut out, pretty.as_str());
        },
        None => {
            push_str_chars(&mut out, raw.body.as_str());
        },
    }
    out.push('\n');
    proof {
        assert(out@ =~= spec_canonical_text(raw@, strs_view(skip_headers@)));
    }
    crate::chars::chars_string(&out)
}

} // verus!
