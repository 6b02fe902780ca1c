//! The declarative request specification and its run-time mutation.
//!
//! A [`RequestContext`] describes one HTTP request: method, absolute URL,
//! query parameters, headers, optional JSON body and optional user agent.
//! Overrides parsed from the command line mutate it in argument order;
//! [`RequestContext::build`] then resolves it into the exact request the
//! transport is asked to perform.

use vstd::prelude::*;

use crate::chars::{push_all, str_chars};
use crate::json::{
    spec_obj_upsert, JsonModel, JsonValue,
};
use crate::kv::{KeyVal, KeyValModel, KeyValType};
use crate::Error;

verus! {

/// One request specification.
#[derive(Debug, PartialEq, Eq)]
pub struct RequestContext {
    /// The HTTP method name, `GET` by default.
    pub method: String,
    /// The absolute request URL, as the URL parser renders it.
    pub url: String,
    /// The query parameters: a JSON object of scalars and arrays.
    pub params: JsonValue,
    /// The request headers, in order.
    pub headers: Vec<(String, String)>,
    /// The optional JSON body.
    pub body: Option<JsonValue>,
    /// The optional user agent; a constant default is sent when absent.
    pub user_agent: Option<String>,
}

/// The mathematical content of a [`RequestContext`].
#[verifier::ext_equal]
pub struct RequestModel {
    pub method: Seq<char>,
    pub url: Seq<char>,
    pub params: JsonModel,
    pub headers: Seq<(Seq<char>, Seq<char>)>,
    pub body: Option<JsonModel>,
    pub user_agent: Option<Seq<char>>,
}

/// The views of a sequence of header pairs.
pub open spec fn str_pairs_view(s: Seq<(String, String)>) -> Seq<(Seq<char>, Seq<char>)>
    decreases s,
{
    if s.len() == 0 {
        Seq::empty()
    } else {
        seq![(s[0].0@, s[0].1@)] + str_pairs_view(s.drop_first())
    }
}

/// `str_pairs_view` maps indexwise.
pub proof fn lemma_str_pairs_view(s: Seq<(String, String)>)
    ensures
        str_pairs_view(s).len() == s.len(),
        forall|i: int| 0 <= i < s.len() ==> str_pairs_view(s)[i] == (s[i].0@, s[i].1@),
    decreases s,
{
    if s.len() != 0 {
        lemma_str_pairs_view(s.drop_first());
    }
}

impl View for RequestContext {
    type V = RequestModel;

    open spec fn view(&self) -> RequestModel {
        RequestModel {
            method: self.method@,
            url: self.url@,
            params: self.params@,
            headers: str_pairs_view(self.headers@),
            body: match self.body {
                Some(b) => Some(b@),
                None => None,
            },
            user_agent: match self.user_agent {
                Some(u) => Some(u@),
                None => None,
            },
        }
    }
}

/// The views of a sequence of overrides.
pub open spec fn kvs_view(s: Seq<KeyVal>) -> Seq<KeyValModel>
    decreases s,
{
    if s.len() == 0 {
        Seq::empty()
    } else {
        seq![s[0]@] + kvs_view(s.drop_first())
    }
}

/// `kvs_view` maps indexwise.
pub proof fn lemma_kvs_view(s: Seq<KeyVal>)
    ensures
        kvs_view(s).len() == s.len(),
        forall|i: int| 0 <= i < s.len() ==> kvs_view(s)[i] == s[i]@,
    decreases s,
{
    if s.len() != 0 {
        lemma_kvs_view(s.drop_first());
    }
}

/// Lowercases one ASCII letter.
pub open spec fn lower_char(c: char) -> char {
    if 'A' as u32 <= c as u32 && c as u32 <= 'Z' as u32 {
        (c as u32 + 32) as char
    } else {
        c
    }
}

/// An ASCII-lowercased copy of a name.
pub open spec fn lower_name(s: Seq<char>) -> Seq<char> {
    s.map_values(|c: char| lower_char(c))
}

/// True for a character allowed in a header name: a letter, a digit, or
/// one of the token punctuation characters.
pub open spec fn is_header_name_char(c: char) -> bool {
    crate::json::is_digit(c) || ('a' as u32 <= c as u32 && c as u32 <= 'z' as u32) || ('A' as u32
        <= c as u32 && c as u32 <= 'Z' as u32) || c == '!' || c == '#' || c == '$' || c == '%'
        || c == '&' || c == '\'' || c == '*' || c == '+' || c == '-' || c == '.' || c == '^'
        || c == '_' || c == '`' || c == '|' || c == '~'
}

/// True for a valid, non-empty header name.
pub open spec fn valid_header_name(s: Seq<char>) -> bool {
    s.len() > 0 && (forall|i: int| 0 <= i < s.len() ==> is_header_name_char(#[trigger] s[i]))
}

/// True for a header-value character: tab or visible ASCII with space.
pub open spec fn is_header_value_char(c: char) -> bool {
    (c as u32 >= 32 && (c as u32) < 127) || c == '\t'
}

/// True for a valid header value.
pub open spec fn valid_header_value(s: Seq<char>) -> bool {
    forall|i: int| 0 <= i < s.len() ==> is_header_value_char(#[trigger] s[i])
}

/// Headers with every pair of the given name removed.
pub open spec fn remove_header(hs: Seq<(Seq<char>, Seq<char>)>, name: Seq<char>) -> Seq<
    (Seq<char>, Seq<char>),
>
    decreases hs,
{
    if hs.len() == 0 {
        Seq::empty()
    } else if hs[0].0 == name {
        remove_header(hs.drop_first(), name)
    } else {
        seq![hs[0]] + remove_header(hs.drop_first(), name)
    }
}

/// Replaces every header of the given (lowercased) name by one pair at
/// the end.
pub open spec fn spec_header_set(
    hs: Seq<(Seq<char>, Seq<char>)>,
    name: Seq<char>,
    val: Seq<char>,
) -> Seq<(Seq<char>, Seq<char>)> {
    remove_header(hs, name).push((name, val))
}

/// One override applied to a request: queries upsert a string parameter,
/// headers replace a (lowercased) header after validation, body fields
/// upsert into a present object body and are dropped otherwise.
pub open spec fn spec_apply_one(m: RequestModel, kv: KeyValModel) -> (RequestModel, bool) {
    match kv.kv_type {
        KeyValType::Query => (
            RequestModel {
                params: match m.params {
                    JsonModel::Obj(p) => JsonModel::Obj(
                        spec_obj_upsert(p, kv.key, JsonModel::Str(kv.val)),
                    ),
                    other => other,
                },
                ..m
            },
            true,
        ),
        KeyValType::Header => if valid_header_name(kv.key) && valid_header_value(kv.val) {
            (
                RequestModel {
                    headers: spec_header_set(m.headers, lower_name(kv.key), kv.val),
                    ..m
                },
                true,
            )
        } else {
            (m, false)
        },
        KeyValType::Body => (
            RequestModel {
                body: match m.body {
                    Some(JsonModel::Obj(p)) => Some(
                        JsonModel::Obj(spec_obj_upsert(p, kv.key, JsonModel::Str(kv.val))),
                    ),
                    other => other,
                },
                ..m
            },
            true,
        ),
    }
}

/// Overrides applied in order; stops at the first invalid header.
pub open spec fn spec_apply(m: RequestModel, kvs: Seq<KeyValModel>) -> (RequestModel, bool)
    decreases kvs.len(),
{
    if kvs.len() == 0 {
        (m, true)
    } else {
        let (m2, ok) = spec_apply_one(m, kvs[0]);
        if ok {
            spec_apply(m2, kvs.drop_first())
        } else {
            (m2, false)
        }
    }
}

fn lower_char_exec(c: char) -> (r: char)
    ensures
        r == lower_char(c),
{
    let u = c as u32;
    if 65 <= u && u <= 90 {
        match char::from_u32(u + 32) {
            Some(d) => d,
            None => c,
        }
    } else {
        c
    }
}

fn lower_name_exec(s: &str) -> (r: String)
    ensures
        r@ == lower_name(s@),
{
    let v = str_chars(s);
    let mut out: Vec<char> = Vec::new();
    let mut i: usize = 0;
    while i < v.len()
        invariant
            v@ == s@,
            i <= v@.len(),
            out@ == lower_name(s@).take(i as int),
        decreases v@.len() - i,
    {
        out.push(lower_char_exec(v[i]));
        proof {
            assert(out@ =~= lower_name(s@).take(i as int + 1));
        }
        i = i + 1;
    }
    proof {
        assert(out@ =~= lower_name(s@));
    }
    crate::chars::chars_string(&out)
}

fn check_header_name(s: &str) -> (r: bool)
    ensures
        r == valid_header_name(s@),
{
    let v = str_chars(s);
    if v.len() == 0 {
        return false;
    }
    let mut i: usize = 0;
    while i < v.len()
        invariant
            v@ == s@,
            i <= v@.len(),
            forall|j: int| 0 <= j < i ==> is_header_name_char(#[trigger] s@[j]),
        decreases v@.len() - i,
    {
        let c = v[i];
        let u = c as u32;
        let ok = (48 <= u && u <= 57) || (97 <= u && u <= 122) || (65 <= u && u <= 90) || c == '!'
            || c == '#' || c == '$' || c == '%' || c == '&' || c == '\'' || c == '*' || c == '+'
            || c == '-' || c == '.' || c == '^' || c == '_' || c == '`' || c == '|' || c == '~';
        if !ok {
            return false;
        }
        i = i + 1;
    }
    true
}

fn check_header_value(s: &str) -> (r: bool)
    ensures
        r == valid_header_value(s@),
{
    let v = str_chars(s);
    let mut i: usize = 0;
    while i < v.len()
        invariant
            v@ == s@,
            i <= v@.len(),
            forall|j: int| 0 <= j < i ==> is_header_value_char(#[trigger] s@[j]),
        decreases v@.len() - i,
    {
        let c = v[i];
        let u = c as u32;
        if !(c == '\t' || (32 <= u && u < 127)) {
            return false;
        }
        i = i + 1;
    }
    true
}

/// Removes every header of the given name and appends the new pair.
fn header_set_exec(headers: &mut Vec<(String, String)>, name: String, val: String)
    ensures
        str_pairs_view(final(headers)@) == spec_header_set(str_pairs_view(old(headers)@), name@, val@),
{
    let ghost orig = old(headers)@;
    let mut out: Vec<(String, String)> = Vec::new();
    let mut i: usize = 0;
    proof {
        lemma_str_pairs_view(orig);
    }
    while i < headers.len()
        invariant
            i <= headers@.len(),
            headers@ == orig,
            name@ == name@,
            str_pairs_view(out@) == remove_header(str_pairs_view(orig.take(i as int)), name@),
        decreases headers@.len() - i,
    {
        let ghost pre = out@;
        let keep = !crate::chars::str_eq(headers[i].0.as_str(), name.as_str());
        if keep {
            let k = headers[i].0.clone();
            let v = headers[i].1.clone();
            out.push((k, v));
        }
        proof {
            lemma_str_pairs_view(orig.take(i as int));
            lemma_str_pairs_view(orig.take(i as int + 1));
            lemma_str_pairs_view(pre);
            lemma_str_pairs_view(out@);
            lemma_remove_header_snoc(
                str_pairs_view(orig.take(i as int)),
                (orig[i as int].0@, orig[i as int].1@),
                name@,
            );
            assert(str_pairs_view(orig.take(i as int + 1)) =~= str_pairs_view(orig.take(i as int)).push(
                (orig[i as int].0@, orig[i as int].1@),
            ));
            if keep {
                assert(str_pairs_view(out@) =~= str_pairs_view(pre).push(
                    (orig[i as int].0@, orig[i as int].1@),
                ));
            } else {
                assert(out@ == pre);
            }
        }
        i = i + 1;
    }
    let ghost pre_final = out@;
    out.push((name, val));
    proof {
        assert(orig.take(orig.len() as int) =~= orig);
        lemma_str_pairs_view(out@);
        lemma_str_pairs_view(pre_final);
        assert(out@[out@.len() - 1] == (name, val));
        assert(forall|j: int| 0 <= j < pre_final.len() ==> out@[j] == pre_final[j]);
        assert(str_pairs_view(out@) =~= str_pairs_view(pre_final).push((name@, val@)));
        assert(str_pairs_view(out@) =~= spec_header_set(str_pairs_view(orig), name@, val@));
    }
    *headers = out;
}

/// Removing from a snoc: the last pair stays exactly when its name
/// differs.
proof fn lemma_remove_header_snoc(
    hs: Seq<(Seq<char>, Seq<char>)>,
    p: (Seq<char>, Seq<char>),
    name: Seq<char>,
)
    ensures
        p.0 == name ==> remove_header(hs.push(p), name) == remove_header(hs, name),
        p.0 != name ==> remove_header(hs.push(p), name) == remove_header(hs, name).push(p),
    decreases hs.len(),
{
    if hs.len() == 0 {
        assert(hs.push(p)[0] == p);
        assert(hs.push(p).drop_first() =~= Seq::<(Seq<char>, Seq<char>)>::empty());
        assert(remove_header(hs.push(p).drop_first(), name) == Seq::<(
            Seq<char>,
            Seq<char>,
        )>::empty());
        assert(remove_header(hs, name) == Seq::<(Seq<char>, Seq<char>)>::empty());
        if p.0 == name {
            assert(remove_header(hs.push(p), name) == remove_header(
                hs.push(p).drop_first(),
                name,
            ));
            assert(remove_header(hs.push(p), name) =~= remove_header(hs, name));
        } else {
            assert(remove_header(hs.push(p), name) == seq![p] + remove_header(
                hs.push(p).drop_first(),
                name,
            ));
            assert(remove_header(hs.push(p), name) =~= remove_header(hs, name).push(p));
        }
    } else {
        let t = hs.drop_first();
        assert(hs.push(p)[0] == hs[0]);
        assert(hs.push(p).drop_first() =~= t.push(p));
        lemma_remove_header_snoc(t, p, name);
        if hs[0].0 == name {
            assert(remove_header(hs.push(p), name) == remove_header(t.push(p), name));
            assert(remove_header(hs, name) == remove_header(t, name));
        } else {
            assert(remove_header(hs.push(p), name) == seq![hs[0]] + remove_header(
                t.push(p),
                name,
            ));
            assert(remove_header(hs, name) == seq![hs[0]] + remove_header(t, name));
            if p.0 != name {
                assert(seq![hs[0]] + remove_header(t, name).push(p) =~= (seq![hs[0]]
                    + remove_header(t, name)).push(p));
            }
        }
    }
}

impl RequestContext {
    /// Applies overrides in argument order: later overrides of one key
    /// overwrite earlier ones; a body override with no body present is
    /// dropped; an invalid header override stops with
    /// [`Error::HeaderParseError`], keeping what was applied before it.
    pub fn update(&mut self, values: &Vec<KeyVal>) -> (r: Result<(), Error>)
        ensures
            final(self)@ == spec_apply(old(self)@, kvs_view(values@)).0,
            (r is Ok) == spec_apply(old(self)@, kvs_view(values@)).1,
            r matches Err(e) ==> e == Error::HeaderParseError,
    {
        let ghost all = kvs_view(values@);
        let mut i: usize = 0;
        proof {
            lemma_kvs_view(values@);
            assert(values@.skip(0) =~= values@);
        }
        while i < values.len()
            invariant
                i <= values@.len(),
                all == kvs_view(values@),
                spec_apply(old(self)@, all) == spec_apply(self@, kvs_view(values@.skip(i as int))),
            decreases values@.len() - i,
        {
            let ghost pre = self@;
            let ghost rem = kvs_view(values@.skip(i as int));
            proof {
                lemma_kvs_view(values@);
                lemma_kvs_view(values@.skip(i as int));
                assert(values@.skip(i as int)[0] == values@[i as int]);
                assert(rem[0] == values@[i as int]@);
                assert(rem.len() > 0);
            }
            let kv = &values[i];
            match kv.kv_type {
                KeyValType::Query => {
                    let key = kv.key.clone();
                    let val = kv.val.clone();
                    self.params.obj_upsert(key, JsonValue::Str(val));
                },
                KeyValType::Header => {
                    if !check_header_name(kv.key.as_str()) || !check_header_value(
                        kv.val.as_str(),
                    ) {
                        proof {
                            assert(spec_apply_one(pre, rem[0]).1 == false);
                            assert(spec_apply_one(pre, rem[0]).0 == pre);
                        }
                        return Err(Error::HeaderParseError);
                    }
                    let name = lower_name_exec(kv.key.as_str());
                    let val = kv.val.clone();
                    header_set_exec(&mut self.headers, name, val);
                },
                KeyValType::Body => {
                    match &mut self.body {
                        Some(b) => {
                            let key = kv.key.clone();
                            let val = kv.val.clone();
                            b.obj_upsert(key, JsonValue::Str(val));
                        },
                        None => {
                        },
                    }
                },
            }
            proof {
                assert(self@ == spec_apply_one(pre, rem[0]).0);
                assert(spec_apply_one(pre, rem[0]).1);
                assert(kvs_view(values@.skip(i as int)).drop_first() =~= kvs_view(
                    values@.skip(i as int + 1),
                )) by {
                    lemma_kvs_view_skip(values@, i as int);
                }
                assert(spec_apply(pre, rem) == spec_apply(self@, kvs_view(
                    values@.skip(i as int + 1),
                )));
            }
            i = i + 1;
        }
        proof {
            assert(values@.skip(values@.len() as int) =~= Seq::<KeyVal>::empty());
            assert(kvs_view(Seq::<KeyVal>::empty()) =~= Seq::<KeyValModel>::empty());
        }
        Ok(())
    }
}

/// The view of a skipped sequence drops the same prefix.
proof fn lemma_kvs_view_skip(s: Seq<KeyVal>, i: int)
    requires
        0 <= i < s.len(),
    ensures
        kvs_view(s.skip(i)).drop_first() == kvs_view(s.skip(i + 1)),
{
    lemma_kvs_view(s.skip(i));
    lemma_kvs_view(s.skip(i + 1));
    assert(kvs_view(s.skip(i)).drop_first() =~= kvs_view(s.skip(i + 1)));
}


/// An uppercase hexadecimal digit.
pub open spec fn spec_hex_up(d: int) -> char {
    if d == 0 { '0' } else if d == 1 { '1' } else if d == 2 { '2' } else if d == 3 { '3' }
    else if d == 4 { '4' } else if d == 5 { '5' } else if d == 6 { '6' } else if d == 7 { '7' }
    else if d == 8 { '8' } else if d == 9 { '9' } else if d == 10 { 'A' } else if d == 11 { 'B' }
    else if d == 12 { 'C' } else if d == 13 { 'D' } else if d == 14 { 'E' } else { 'F' }
}

/// True for a character copied into a query string unencoded.
pub open spec fn is_unreserved(c: char) -> bool {
    crate::json::is_digit(c) || ('a' as u32 <= c as u32 && c as u32 <= 'z' as u32) || ('A' as u32
        <= c as u32 && c as u32 <= 'Z' as u32) || c == '-' || c == '_' || c == '.' || c == '~'
}

/// The percent escape of one byte, with uppercase hex digits.
pub open spec fn pct_byte(b: u8) -> Seq<char> {
    seq!['%', spec_hex_up(b as int / 16), spec_hex_up(b as int % 16)]
}

/// The percent escapes of a byte sequence.
pub open spec fn pct_bytes(bs: Seq<u8>) -> Seq<char>
    decreases bs.len(),
{
    if bs.len() == 0 {
        Seq::empty()
    } else {
        pct_byte(bs[0]) + pct_bytes(bs.drop_first())
    }
}

/// How one character appears in a query string: unreserved characters
/// stand as themselves, every other character as the percent escapes of
/// its UTF-8 bytes.
pub open spec fn pct_char(c: char) -> Seq<char> {
    if is_unreserved(c) {
        seq![c]
    } else {
        pct_bytes(vstd::utf8::encode_scalar(c as u32))
    }
}

/// The form encoding of a whole text.
pub open spec fn pct_encode(s: Seq<char>) -> Seq<char>
    decreases s.len(),
{
    if s.len() == 0 {
        Seq::empty()
    } else {
        pct_char(s[0]) + pct_encode(s.drop_first())
    }
}

/// The query text of one scalar parameter value: string content, number
/// lexeme, `true`/`false`, or empty for null; arrays and objects have no
/// scalar text.
pub open spec fn scalar_text(v: JsonModel) -> Option<Seq<char>> {
    match v {
        JsonModel::Str(s) => Some(s),
        JsonModel::Num(n) => Some(n),
        JsonModel::Bool(b) => Some(
            if b {
                seq!['t', 'r', 'u', 'e']
            } else {
                seq!['f', 'a', 'l', 's', 'e']
            },
        ),
        JsonModel::Null => Some(Seq::empty()),
        _ => None,
    }
}

/// The `key=value` units of one parameter: one unit per scalar, one unit
/// per scalar array element, none for anything else.
pub open spec fn spec_units_of(k: Seq<char>, v: JsonModel) -> Seq<Seq<char>> {
    match v {
        JsonModel::Arr(elems) => spec_units_elems(k, elems),
        other => match scalar_text(other) {
            Some(t) => seq![pct_encode(k) + seq!['='] + pct_encode(t)],
            None => Seq::empty(),
        },
    }
}

/// The units of the elements of an array-valued parameter.
pub open spec fn spec_units_elems(k: Seq<char>, elems: Seq<JsonModel>) -> Seq<Seq<char>>
    decreases elems.len(),
{
    if elems.len() == 0 {
        Seq::empty()
    } else {
        let rest = spec_units_elems(k, elems.drop_first());
        match scalar_text(elems[0]) {
            Some(t) => seq![pct_encode(k) + seq!['='] + pct_encode(t)] + rest,
            None => rest,
        }
    }
}

/// The units of all parameters in key order.
pub open spec fn spec_units_pairs(pairs: Seq<(Seq<char>, JsonModel)>) -> Seq<Seq<char>>
    decreases pairs.len(),
{
    if pairs.len() == 0 {
        Seq::empty()
    } else {
        spec_units_of(pairs[0].0, pairs[0].1) + spec_units_pairs(pairs.drop_first())
    }
}

/// Units joined with `&`.
pub open spec fn join_amp(units: Seq<Seq<char>>) -> Seq<char>
    decreases units.len(),
{
    if units.len() == 0 {
        Seq::empty()
    } else if units.len() == 1 {
        units[0]
    } else {
        units[0] + seq!['&'] + join_amp(units.drop_first())
    }
}

/// The whole form-encoded query string of a parameter object; empty for
/// anything that is not an object.
pub open spec fn spec_form_encode(params: JsonModel) -> Seq<char> {
    match params {
        JsonModel::Obj(pairs) => join_amp(spec_units_pairs(pairs)),
        _ => Seq::empty(),
    }
}


fn hex_up_exec(d: u32) -> (c: char)
    requires
        d < 16,
    ensures
        c == spec_hex_up(d as int),
{
    match d {
        0 => '0', 1 => '1', 2 => '2', 3 => '3', 4 => '4', 5 => '5', 6 => '6', 7 => '7',
        8 => '8', 9 => '9', 10 => 'A', 11 => 'B', 12 => 'C', 13 => 'D', 14 => 'E', _ => 'F',
    }
}

/// The UTF-8 bytes of one character.
fn utf8_bytes(c: char) -> (r: Vec<u8>)
    ensures
        r@ == vstd::utf8::encode_scalar(c as u32),
{
    proof {
        vstd::utf8::char_is_scalar(c);
    }
    let u = c as u32;
    let mut r: Vec<u8> = Vec::new();
    if u <= 0x7F {
        r.push((u & 0x7F) as u8);
        assert(r@ =~= vstd::utf8::encode_scalar(c as u32));
    } else if u <= 0x7FF {
        r.push((0xC0 | ((u >> 6) & 0x1F) as u8) as u8);
        r.push((0x80 | (u & 0x3F) as u8) as u8);
        assert(r@ =~= vstd::utf8::encode_scalar(c as u32));
    } else if u <= 0xFFFF {
        r.push((0xE0 | ((u >> 12) & 0x0F) as u8) as u8);
        r.push((0x80 | ((u >> 6) & 0x3F) as u8) as u8);
        r.push((0x80 | (u & 0x3F) as u8) as u8);
        assert(r@ =~= vstd::utf8::encode_scalar(c as u32));
    } else {
        r.push((0xF0 | ((u >> 18) & 0x7) as u8) as u8);
        r.push((0x80 | ((u >> 12) & 0x3F) as u8) as u8);
        r.push((0x80 | ((u >> 6) & 0x3F) as u8) as u8);
        r.push((0x80 | (u & 0x3F) as u8) as u8);
        assert(r@ =~= vstd::utf8::encode_scalar(c as u32));
    }
    r
}

proof fn lemma_pct_snoc(s: Seq<char>, c: char)
    ensures
        pct_encode(s.push(c)) == pct_encode(s) + pct_char(c),
    decreases s.len(),
{
    if s.len() == 0 {
        assert(s.push(c)[0] == c);
        assert(s.push(c).drop_first() =~= Seq::<char>::empty());
        assert(pct_encode(s.push(c).drop_first()) == Seq::<char>::empty());
        assert(pct_encode(s.push(c)) == pct_char(c) + pct_encode(s.push(c).drop_first()));
        assert(pct_encode(s) == Seq::<char>::empty());
        assert(pct_encode(s.push(c)) =~= pct_encode(s) + pct_char(c));
    } else {
        let h = pct_char(s[0]);
        let t = s.drop_first();
        lemma_pct_snoc(t, c);
        assert(s.push(c)[0] == s[0]);
        assert(s.push(c).drop_first() =~= t.push(c));
        assert(pct_encode(s.push(c)) == h + pct_encode(t.push(c)));
        assert(pct_encode(t.push(c)) == pct_encode(t) + pct_char(c));
        assert(h + (pct_encode(t) + pct_char(c)) =~= (h + pct_encode(t)) + pct_char(c));
        assert(pct_encode(s) == h + pct_encode(t));
    }
}

/// Appends the form encoding of `s` to `out`.
fn pct_push(out: &mut Vec<char>, s: &Vec<char>)
    ensures
        final(out)@ == old(out)@ + pct_encode(s@),
{
    let mut i: usize = 0;
    while i < s.len()
        invariant
            i <= s@.len(),
            out@ == old(out)@ + pct_encode(s@.take(i as int)),
        decreases s@.len() - i,
    {
        let c = s[i];
        let u = c as u32;
        let unres = (48 <= u && u <= 57) || (97 <= u && u <= 122) || (65 <= u && u <= 90) || c
            == '-' || c == '_' || c == '.' || c == '~';
        if unres {
            out.push(c);
        } else {
            let bs = utf8_bytes(c);
            let mut j: usize = 0;
            let ghost mid = out@;
            while j < bs.len()
                invariant
                    j <= bs@.len(),
                    bs@ == vstd::utf8::encode_scalar(c as u32),
                    out@ == mid + pct_bytes(bs@.take(j as int)),
                decreases bs@.len() - j,
            {
                let b = bs[j];
                out.push('%');
                out.push(hex_up_exec((b as u32) / 16));
                out.push(hex_up_exec((b as u32) % 16));
                proof {
                    lemma_pct_bytes_snoc(bs@.take(j as int), bs@[j as int]);
                    assert(bs@.take(j as int).push(bs@[j as int]) =~= bs@.take(j as int + 1));
                    assert(out@ =~= mid + pct_bytes(bs@.take(j as int + 1)));
                }
                j = j + 1;
            }
            proof {
                assert(bs@.take(bs@.len() as int) =~= bs@);
                assert(out@ =~= mid + pct_char(c));
            }
        }
        proof {
            lemma_pct_snoc(s@.take(i as int), s@[i as int]);
            assert(s@.take(i as int).push(s@[i as int]) =~= s@.take(i as int + 1));
            assert(out@ =~= old(out)@ + pct_encode(s@.take(i as int + 1)));
        }
        i = i + 1;
    }
    assert(s@.take(s@.len() as int) =~= s@);
}

proof fn lemma_pct_bytes_snoc(bs: Seq<u8>, b: u8)
    ensures
        pct_bytes(bs.push(b)) == pct_bytes(bs) + pct_byte(b),
    decreases bs.len(),
{
    if bs.len() == 0 {
        assert(bs.push(b)[0] == b);
        assert(bs.push(b).drop_first() =~= Seq::<u8>::empty());
        assert(pct_bytes(bs.push(b).drop_first()) == Seq::<char>::empty());
        assert(pct_bytes(bs.push(b)) == pct_byte(b) + pct_bytes(bs.push(b).drop_first()));
        assert(pct_bytes(bs) == Seq::<char>::empty());
        assert(pct_bytes(bs.push(b)) =~= pct_bytes(bs) + pct_byte(b));
    } else {
        let h = pct_byte(bs[0]);
        let t = bs.drop_first();
        lemma_pct_bytes_snoc(t, b);
        assert(bs.push(b)[0] == bs[0]);
        assert(bs.push(b).drop_first() =~= t.push(b));
        assert(pct_bytes(bs.push(b)) == h + pct_bytes(t.push(b)));
        assert(pct_bytes(t.push(b)) == pct_bytes(t) + pct_byte(b));
        assert(h + (pct_bytes(t) + pct_byte(b)) =~= (h + pct_bytes(t)) + pct_byte(b));
        assert(pct_bytes(bs) == h + pct_bytes(t));
    }
}

/// The views of a list of query units.
pub open spec fn units_view(s: Seq<Vec<char>>) -> Seq<Seq<char>>
    decreases s,
{
    if s.len() == 0 {
        Seq::empty()
    } else {
        seq![s[0]@] + units_view(s.drop_first())
    }
}

proof fn lemma_units_view(s: Seq<Vec<char>>)
    ensures
        units_view(s).len() == s.len(),
        forall|i: int| 0 <= i < s.len() ==> units_view(s)[i] == s[i]@,
    decreases s,
{
    if s.len() != 0 {
        lemma_units_view(s.drop_first());
    }
}

/// One `key=value` unit.
fn unit_exec(k: &Vec<char>, t: &Vec<char>) -> (r: Vec<char>)
    ensures
        r@ == pct_encode(k@) + seq!['='] + pct_encode(t@),
{
    let mut r: Vec<char> = Vec::new();
    pct_push(&mut r, k);
    r.push('=');
    pct_push(&mut r, t);
    proof {
        assert(r@ =~= pct_encode(k@) + seq!['='] + pct_encode(t@));
    }
    r
}

/// The scalar query text of a value, if it has one.
fn scalar_text_exec(v: &JsonValue) -> (r: Option<Vec<char>>)
    ensures
        match r {
            Some(t) => scalar_text(v@) == Some(t@),
            None => scalar_text(v@) is None,
        },
{
    match v {
        JsonValue::Str(s) => Some(str_chars(s.as_str())),
        JsonValue::Num(n) => Some(str_chars(n.as_str())),
        JsonValue::Bool(b) => {
            let mut t: Vec<char> = Vec::new();
            if *b {
                t.push('t');
                t.push('r');
                t.push('u');
                t.push('e');
                proof {
                    assert(t@ =~= seq!['t', 'r', 'u', 'e']);
                }
            } else {
                t.push('f');
                t.push('a');
                t.push('l');
                t.push('s');
                t.push('e');
                proof {
                    assert(t@ =~= seq!['f', 'a', 'l', 's', 'e']);
                }
            }
            Some(t)
        },
        JsonValue::Null => {
            let t: Vec<char> = Vec::new();
            proof {
                assert(t@ =~= Seq::<char>::empty());
            }
            Some(t)
        },
        _ => None,
    }
}

/// The units of the array elements from index `i` on.
fn units_elems_exec(k: &Vec<char>, a: &Vec<JsonValue>, i: usize, out: &mut Vec<Vec<char>>)
    requires
        i <= a@.len(),
    ensures
        units_view(final(out)@) == units_view(old(out)@) + spec_units_elems(
            k@,
            crate::json::arr_view(a@).skip(i as int),
        ),
    decreases a@.len() - i,
{
    proof {
        crate::json::lemma_arr_view(a@);
        lemma_units_view(out@);
    }
    if i == a.len() {
        proof {
            assert(crate::json::arr_view(a@).skip(i as int) =~= Seq::<JsonModel>::empty());
            assert(units_view(out@) =~= units_view(out@) + spec_units_elems(
                k@,
                crate::json::arr_view(a@).skip(i as int),
            ));
        }
        return;
    }
    let ghost pre = out@;
    match scalar_text_exec(&a[i]) {
        Some(t) => {
            let u = unit_exec(k, &t);
            out.push(u);
        },
        None => {
        },
    }
    proof {
        lemma_units_view(out@);
        lemma_units_view(pre);
        assert(units_view(out@) =~= units_view(pre) + spec_units_of_head(
            k@,
            crate::json::arr_view(a@).skip(i as int)[0],
        ));
    }
    units_elems_exec(k, a, i + 1, out);
    proof {
        let av = crate::json::arr_view(a@);
        assert(av.skip(i as int)[0] == av[i as int]);
        assert(av.skip(i as int).drop_first() =~= av.skip(i as int + 1));
        assert(units_view(out@) =~= units_view(pre) + spec_units_elems(k@, av.skip(i as int)));
    }
}

/// The units of one element position: one unit for a scalar, none else.
pub open spec fn spec_units_of_head(k: Seq<char>, v: JsonModel) -> Seq<Seq<char>> {
    match scalar_text(v) {
        Some(t) => seq![pct_encode(k) + seq!['='] + pct_encode(t)],
        None => Seq::empty(),
    }
}

/// The units of all parameters from index `i` on.
fn units_pairs_exec(o: &Vec<(String, JsonValue)>, i: usize, out: &mut Vec<Vec<char>>)
    requires
        i <= o@.len(),
    ensures
        units_view(final(out)@) == units_view(old(out)@) + spec_units_pairs(
            crate::json::obj_view(o@).skip(i as int),
        ),
    decreases o@.len() - i,
{
    proof {
        crate::json::lemma_obj_view(o@);
    }
    if i == o.len() {
        proof {
            assert(crate::json::obj_view(o@).skip(i as int) =~= Seq::<(
                Seq<char>,
                JsonModel,
            )>::empty());
            assert(units_view(out@) =~= units_view(out@) + spec_units_pairs(
                crate::json::obj_view(o@).skip(i as int),
            ));
        }
        return;
    }
    let ghost pre = out@;
    let kc = str_chars(o[i].0.as_str());
    match &o[i].1 {
        JsonValue::Arr(a) => {
            proof {
                assert(o@[i as int].1@ == JsonModel::Arr(crate::json::arr_view(a@)));
                assert(crate::json::arr_view(a@).skip(0) =~= crate::json::arr_view(a@));
            }
            units_elems_exec(&kc, a, 0, out);
        },
        other => {
            match scalar_text_exec(other) {
                Some(t) => {
                    let u = unit_exec(&kc, &t);
                    out.push(u);
                    proof {
                        lemma_units_view(out@);
                        lemma_units_view(pre);
                        assert(units_view(out@) =~= units_view(pre) + spec_units_of(
                            o@[i as int].0@,
                            o@[i as int].1@,
                        ));
                    }
                },
                None => {
                    proof {
                        assert(units_view(out@) =~= units_view(pre) + spec_units_of(
                            o@[i as int].0@,
                            o@[i as int].1@,
                        ));
                    }
                },
            }
        },
    }
    units_pairs_exec(o, i + 1, out);
    proof {
        let ov = crate::json::obj_view(o@);
        assert(ov.skip(i as int)[0] == ov[i as int]);
        assert(ov.skip(i as int).drop_first() =~= ov.skip(i as int + 1));
        assert(units_view(out@) =~= units_view(pre) + spec_units_pairs(ov.skip(i as int)));
    }
}

/// Joins units with `&` from index `i` on.
fn join_amp_exec(units: &Vec<Vec<char>>, i: usize, out: &mut Vec<char>)
    requires
        i <= units@.len(),
    ensures
        final(out)@ == old(out)@ + join_amp(units_view(units@).skip(i as int)),
    decreases units@.len() - i,
{
    proof {
        lemma_units_view(units@);
    }
    if i == units.len() {
        proof {
            assert(units_view(units@).skip(i as int) =~= Seq::<Seq<char>>::empty());
            assert(out@ =~= old(out)@ + join_amp(units_view(units@).skip(i as int)));
        }
        return;
    }
    push_all(out, &units[i]);
    if i + 1 < units.len() {
        out.push('&');
    }
    join_amp_exec(units, i + 1, out);
    proof {
        let uv = units_view(units@);
        assert(uv.skip(i as int)[0] == uv[i as int]);
        assert(uv.skip(i as int).drop_first() =~= uv.skip(i as int + 1));
        if i + 1 == units.len() {
            assert(uv.skip(i as int).len() == 1);
            assert(uv.skip(i as int + 1) =~= Seq::<Seq<char>>::empty());
        }
        assert(out@ =~= old(out)@ + join_amp(uv.skip(i as int)));
    }
}

/// The form-encoded query string of a parameter object.
pub fn form_encode(params: &JsonValue) -> (r: Vec<char>)
    ensures
        r@ == spec_form_encode(params@),
{
    match params {
        JsonValue::Obj(o) => {
            let mut units: Vec<Vec<char>> = Vec::new();
            proof {
                assert(units_view(units@) =~= Seq::<Seq<char>>::empty());
                assert(params@ == JsonModel::Obj(crate::json::obj_view(o@)));
            }
            units_pairs_exec(o, 0, &mut units);
            let mut out: Vec<char> = Vec::new();
            join_amp_exec(&units, 0, &mut out);
            proof {
                assert(crate::json::obj_view(o@).skip(0) =~= crate::json::obj_view(o@));
                assert(units_view(units@).skip(0) =~= units_view(units@));
            }
            out
        },
        _ => {
            let out: Vec<char> = Vec::new();
            proof {
                assert(out@ =~= Seq::<char>::empty());
            }
            out
        },
    }
}


/// The scheme of a URL: the text before the first `:`; empty, matching
/// no accepted scheme, when there is no `:`.
pub open spec fn scheme_of(url: Seq<char>) -> Seq<char> {
    let i = crate::kv::spec_find_char(url, ':');
    if i >= 0 {
        url.take(i)
    } else {
        Seq::empty()
    }
}

/// The URL with its query replaced: the new query text stands between
/// the path and any fragment; an old query is dropped.
pub open spec fn spec_with_query(url: Seq<char>, qs: Seq<char>) -> Seq<char> {
    let h = crate::kv::spec_find_char(url, '#');
    let base0 = if h >= 0 {
        url.take(h)
    } else {
        url
    };
    let frag = if h >= 0 {
        url.skip(h)
    } else {
        Seq::empty()
    };
    let q = crate::kv::spec_find_char(base0, '?');
    let base = if q >= 0 {
        base0.take(q)
    } else {
        base0
    };
    base + seq!['?'] + qs + frag
}

/// The lowercase name of the content-type header.
pub open spec fn ct_name() -> Seq<char> {
    seq!['c', 'o', 'n', 't', 'e', 'n', 't', '-', 't', 'y', 'p', 'e']
}

/// The JSON media type looked for in an explicit content type.
pub open spec fn app_json() -> Seq<char> {
    seq!['a', 'p', 'p', 'l', 'i', 'c', 'a', 't', 'i', 'o', 'n', '/', 'j', 's', 'o', 'n']
}

/// The user agent sent when none is configured.
pub open spec fn default_user_agent() -> Seq<char> {
    seq!['R', 'e', 'q', 'u', 'e', 's', 't', 'e', 'r', '/', '0', '.', '1', '.', '0']
}

/// The accepted scheme names.
pub open spec fn http_scheme() -> Seq<char> {
    seq!['h', 't', 't', 'p']
}

pub open spec fn https_scheme() -> Seq<char> {
    seq!['h', 't', 't', 'p', 's']
}

/// The value of the first header whose name lowercases to
/// `content-type`.
pub open spec fn content_type_of(hs: Seq<(Seq<char>, Seq<char>)>) -> Option<Seq<char>>
    decreases hs,
{
    if hs.len() == 0 {
        None
    } else if lower_name(hs[0].0) == ct_name() {
        Some(hs[0].1)
    } else {
        content_type_of(hs.drop_first())
    }
}

/// True when `needle` occurs contiguously in `hay`.
pub open spec fn spec_contains(hay: Seq<char>, needle: Seq<char>) -> bool {
    exists|i: int|
        0 <= i && i + needle.len() <= hay.len() && #[trigger] hay.subrange(i, i + needle.len())
            == needle
}

/// Substring search.
fn contains_sub(hay: &Vec<char>, needle: &Vec<char>) -> (r: bool)
    ensures
        r == spec_contains(hay@, needle@),
{
    if needle.len() > hay.len() {
        proof {
            assert(!spec_contains(hay@, needle@)) by {
                if spec_contains(hay@, needle@) {
                    let i = choose|i: int|
                        0 <= i && i + needle@.len() <= hay@.len() && #[trigger] hay@.subrange(
                            i,
                            i + needle@.len(),
                        ) == needle@;
                }
            }
        }
        return false;
    }
    if needle.len() == 0 {
        proof {
            assert(hay@.subrange(0, needle@.len() as int) =~= needle@);
            assert(0 + needle@.len() <= hay@.len());
            assert(spec_contains(hay@, needle@));
        }
        return true;
    }
    let n = needle.len();
    let mut i: usize = 0;
    while i <= hay.len() - n
        invariant
            n == needle@.len(),
            1 <= n <= hay@.len(),
            hay@.len() <= usize::MAX,
            i <= hay@.len() - n + 1,
            forall|k: int|
                0 <= k < i ==> #[trigger] hay@.subrange(k, k + needle@.len()) != needle@,
        decreases hay@.len() - n - i + 1,
    {
        let mut j: usize = 0;
        let mut ok = true;
        while j < n
            invariant
                n == needle@.len(),
                i + n <= hay@.len(),
                hay@.len() <= usize::MAX,
                j <= n,
                ok ==> forall|t: int| 0 <= t < j ==> hay@[i + t] == needle@[t],
                !ok ==> hay@.subrange(i as int, i as int + needle@.len()) != needle@,
            decreases n - j,
        {
            if hay[i + j] != needle[j] {
                proof {
                    assert(hay@.subrange(i as int, i as int + needle@.len())[j as int] == hay@[i
                        + j]);
                }
                ok = false;
                j = n;
            } else {
                j = j + 1;
            }
        }
        if ok {
            proof {
                assert(hay@.subrange(i as int, i as int + needle@.len()) =~= needle@);
            }
            return true;
        }
        i = i + 1;
    }
    proof {
        assert(!spec_contains(hay@, needle@)) by {
            if spec_contains(hay@, needle@) {
                let k = choose|k: int|
                    0 <= k && k + needle@.len() <= hay@.len() && #[trigger] hay@.subrange(
                        k,
                        k + needle@.len(),
                    ) == needle@;
                assert(k < i);
            }
        }
    }
    false
}

/// The index of the first occurrence of `c`, if any.
fn find_char_exec(v: &Vec<char>, c: char) -> (r: Option<usize>)
    ensures
        match r {
            Some(i) => i < v@.len() && crate::kv::spec_find_char(v@, c) == i,
            None => crate::kv::spec_find_char(v@, c) < 0,
        },
{
    let mut i: usize = 0;
    while i < v.len()
        invariant
            i <= v@.len(),
            forall|j: int| 0 <= j < i ==> v@[j] != c,
        decreases v@.len() - i,
    {
        if v[i] == c {
            proof {
                crate::kv::lemma_find_char_at_pub(v@, c, i as int);
            }
            return Some(i);
        }
        i = i + 1;
    }
    proof {
        crate::kv::lemma_find_char(v@, c);
        if crate::kv::spec_find_char(v@, c) >= 0 {
            let k = crate::kv::spec_find_char(v@, c);
            assert(v@[k] == c);
        }
    }
    None
}

/// One request as handed to the transport: resolved method, URL with
/// query string, headers, serialized body and user agent.
#[derive(Debug, PartialEq, Eq)]
pub struct ResolvedRequest {
    pub method: String,
    pub url: String,
    pub headers: Vec<(String, String)>,
    pub body_text: Option<String>,
    pub user_agent: String,
}

/// The mathematical content of a [`ResolvedRequest`].
pub struct ResolvedModel {
    pub method: Seq<char>,
    pub url: Seq<char>,
    pub headers: Seq<(Seq<char>, Seq<char>)>,
    pub body_text: Option<Seq<char>>,
    pub user_agent: Seq<char>,
}

impl View for ResolvedRequest {
    type V = ResolvedModel;

    open spec fn view(&self) -> ResolvedModel {
        ResolvedModel {
            method: self.method@,
            url: self.url@,
            headers: str_pairs_view(self.headers@),
            body_text: match self.body_text {
                Some(b) => Some(b@),
                None => None,
            },
            user_agent: self.user_agent@,
        }
    }
}

/// What [`RequestContext::build`] produces, stated once: only `http` and
/// `https` URLs are accepted; a body with an explicit non-JSON content
/// type is refused; the query string is the form encoding of the
/// parameters, replacing any query in the URL; the body is serialized
/// compactly; a default user agent fills in for an absent one.
pub open spec fn spec_build(m: RequestModel) -> Result<ResolvedModel, Error> {
    let scheme = scheme_of(m.url);
    if !(scheme == http_scheme() || scheme == https_scheme()) {
        Err(Error::UnsupportedScheme)
    } else if match (m.body, content_type_of(m.headers)) {
        (Some(_), Some(ct)) => !spec_contains(ct, app_json()),
        _ => false,
    } {
        Err(Error::UnsupportedContentType)
    } else {
        let qs = spec_form_encode(m.params);
        Ok(
            ResolvedModel {
                method: m.method,
                url: if qs.len() == 0 {
                    m.url
                } else {
                    spec_with_query(m.url, qs)
                },
                headers: m.headers,
                body_text: match m.body {
                    Some(b) => Some(crate::json::spec_emit(b)),
                    None => None,
                },
                user_agent: match m.user_agent {
                    Some(u) => u,
                    None => default_user_agent(),
                },
            },
        )
    }
}

impl RequestContext {
    /// Resolves this specification into the exact request asked of the
    /// transport; see [`spec_build`] for the contract.
    pub fn build(&self) -> (r: Result<ResolvedRequest, Error>)
        ensures
            match r {
                Ok(rr) => spec_build(self@) == Ok::<ResolvedModel, Error>(rr@),
                Err(e) => spec_build(self@) == Err::<ResolvedModel, Error>(e),
            },
    {
        let uc = str_chars(self.url.as_str());
        let scheme_ok = match find_char_exec(&uc, ':') {
            Some(i) => {
                let sch = crate::json::vec_dup(&uc);
                let mut sch = sch;
                sch.truncate(i);
                proof {
                    assert(sch@ =~= self.url@.take(i as int));
                    reveal_strlit("http");
                    reveal_strlit("https");
                    assert("http"@ =~= http_scheme());
                    assert("https"@ =~= https_scheme());
                }
                let s1 = crate::chars::chars_string(&sch);
                crate::chars::str_eq(s1.as_str(), "http") || crate::chars::str_eq(
                    s1.as_str(),
                    "https",
                )
            },
            None => {
                proof {
                    reveal_strlit("http");
                    reveal_strlit("https");
                    assert("http"@ =~= http_scheme());
                    assert("https"@ =~= https_scheme());
                    assert(scheme_of(self.url@) == Seq::<char>::empty());
                    assert(http_scheme().len() == 4 && https_scheme().len() == 5);
                }
                false
            },
        };
        if !scheme_ok {
            return Err(Error::UnsupportedScheme);
        }
        if self.body.is_some() {
            match self.find_content_type() {
                Some(ct) => {
                    let ctc = str_chars(ct.as_str());
                    let needle = str_chars("application/json");
                    proof {
                        reveal_strlit("application/json");
                        assert("application/json"@ =~= app_json());
                    }
                    if !contains_sub(&ctc, &needle) {
                        return Err(Error::UnsupportedContentType);
                    }
                },
                None => {
                },
            }
        }
        let qs = form_encode(&self.params);
        let url = if qs.len() == 0 {
            self.url.clone()
        } else {
            let h = find_char_exec(&uc, '#');
            let (base0, frag): (Vec<char>, Vec<char>) = match h {
                Some(hi) => {
                    let mut b = crate::json::vec_dup(&uc);
                    b.truncate(hi);
                    let f = crate::json::copy_range_pub(&uc, hi, uc.len());
                    (b, f)
                },
                None => (crate::json::vec_dup(&uc), Vec::new()),
            };
            proof {
                if h is Some {
                    assert(base0@ =~= self.url@.take(h->0 as int));
                    assert(frag@ =~= self.url@.skip(h->0 as int));
                } else {
                    assert(frag@ =~= Seq::<char>::empty());
                }
            }
            let q = find_char_exec(&base0, '?');
            let base: Vec<char> = match q {
                Some(qi) => {
                    let mut b = crate::json::vec_dup(&base0);
                    b.truncate(qi);
                    proof {
                        assert(b@ =~= base0@.take(qi as int));
                    }
                    b
                },
                None => crate::json::vec_dup(&base0),
            };
            let mut u2 = base;
            u2.push('?');
            push_all(&mut u2, &qs);
            push_all(&mut u2, &frag);
            proof {
                assert(u2@ =~= spec_with_query(self.url@, qs@));
            }
            crate::chars::chars_string(&u2)
        };
        let mut headers: Vec<(String, String)> = Vec::new();
        let mut i: usize = 0;
        while i < self.headers.len()
            invariant
                i <= self.headers@.len(),
                headers@.len() == i,
                forall|j: int|
                    0 <= j < i ==> headers@[j].0@ == self.headers@[j].0@ && headers@[j].1@
                        == self.headers@[j].1@,
            decreases self.headers@.len() - i,
        {
            let k = self.headers[i].0.clone();
            let v = self.headers[i].1.clone();
            headers.push((k, v));
            i = i + 1;
        }
        proof {
            lemma_str_pairs_view(headers@);
            lemma_str_pairs_view(self.headers@);
            assert(str_pairs_view(headers@) =~= str_pairs_view(self.headers@));
        }
        let body_text = match &self.body {
            Some(b) => Some(b.to_compact_string()),
            None => None,
        };
        let user_agent = match &self.user_agent {
            Some(u) => u.clone(),
            None => {
                proof {
                    reveal_strlit("Requester/0.1.0");
                    assert("Requester/0.1.0"@ =~= default_user_agent());
                }
                let ua: &str = "Requester/0.1.0";
                String::from_str(ua)
            },
        };
        Ok(
            ResolvedRequest {
                method: self.method.clone(),
                url,
                headers,
                body_text,
                user_agent,
            },
        )
    }

    /// The value of the first content-type header, if any.
    fn find_content_type(&self) -> (r: Option<&String>)
        ensures
            match r {
                Some(v) => content_type_of(self@.headers) == Some(v@),
                None => content_type_of(self@.headers) is None,
            },
    {
        let mut i: usize = 0;
        proof {
            lemma_str_pairs_view(self.headers@);
            assert(str_pairs_view(self.headers@).skip(0) =~= str_pairs_view(self.headers@));
        }
        while i < self.headers.len()
            invariant
                i <= self.headers@.len(),
                content_type_of(str_pairs_view(self.headers@)) == content_type_of(
                    str_pairs_view(self.headers@).skip(i as int),
                ),
            decreases self.headers@.len() - i,
        {
            let name = lower_name_exec(self.headers[i].0.as_str());
            proof {
                reveal_strlit("content-type");
                assert("content-type"@ =~= ct_name());
            }
            let ghost hv = str_pairs_view(self.headers@);
            proof {
                lemma_str_pairs_view(self.headers@);
                assert(hv.skip(i as int)[0] == hv[i as int]);
                assert(hv.skip(i as int).drop_first() =~= hv.skip(i as int + 1));
            }
            if crate::chars::str_eq(name.as_str(), "content-type") {
                return Some(&self.headers[i].1);
            }
            i = i + 1;
        }
        proof {
            assert(str_pairs_view(self.headers@).skip(self.headers@.len() as int) =~= Seq::<(
                Seq<char>,
                Seq<char>,
            )>::empty());
        }
        None
    }
}


/// What splitting a URL yields: `None` when the text is not an absolute
/// URL; otherwise the URL without its query, as the parser renders it,
/// and the decoded query pairs in order.
pub uninterp spec fn url_split_of(s: Seq<char>) -> Option<
    (Seq<char>, Seq<(Seq<char>, Seq<char>)>),
>;

/// Relies on `url::Url::parse` for URL validation and normalization,
/// `Url::query_pairs` for decoding the query pairs in order, and
/// `Url::set_query`/`Url::to_string` for rendering the URL without its
/// query.  The result depends on the text alone.
#[verifier::external_body]
fn url_split(s: &str) -> (r: Option<(String, Vec<(String, String)>)>)
    ensures
        match r {
            Some((base, pairs)) => url_split_of(s@) == Some((base@, str_pairs_view(pairs@))),
            None => url_split_of(s@) is None,
        },
{
    match url::Url::parse(s) {
        Ok(mut u) => {
            let pairs: Vec<(String, String)> = u
                .query_pairs()
                .map(|(k, v)| (k.into_owned(), v.into_owned()))
                .collect();
            u.set_query(None);
            Some((u.to_string(), pairs))
        },
        Err(_) => None,
    }
}

/// The method a parsed URL's request defaults to.
pub open spec fn get_method() -> Seq<char> {
    seq!['G', 'E', 'T']
}

/// One decoded query pair folded into accumulated parameters: a first
/// value is stored as a string, a second turns the entry into an array,
/// later ones are appended to it.
pub open spec fn accum_one(
    acc: Seq<(Seq<char>, JsonModel)>,
    k: Seq<char>,
    v: Seq<char>,
) -> Seq<(Seq<char>, JsonModel)> {
    let nv = match crate::json::spec_obj_get(acc, k) {
        None => JsonModel::Str(v),
        Some(JsonModel::Str(prev)) => JsonModel::Arr(seq![JsonModel::Str(prev), JsonModel::Str(v)]),
        Some(JsonModel::Arr(a)) => JsonModel::Arr(a.push(JsonModel::Str(v))),
        Some(other) => other,
    };
    spec_obj_upsert(acc, k, nv)
}

/// All query pairs folded in order.
pub open spec fn accum_pairs(
    acc: Seq<(Seq<char>, JsonModel)>,
    pairs: Seq<(Seq<char>, Seq<char>)>,
) -> Seq<(Seq<char>, JsonModel)>
    decreases pairs.len(),
{
    if pairs.len() == 0 {
        acc
    } else {
        accum_pairs(accum_one(acc, pairs[0].0, pairs[0].1), pairs.drop_first())
    }
}

impl RequestContext {
    /// Parses a URL into a request specification: method `GET`, the URL
    /// without its query, the query pairs accumulated into parameters
    /// (repeated keys become arrays), no headers, body or user agent.
    /// Fails with [`Error::UrlParseError`] exactly when the URL parser
    /// rejects the text.
    pub fn from_url_str(s: &str) -> (r: Result<RequestContext, Error>)
        ensures
            match url_split_of(s@) {
                None => r matches Err(e) && e == Error::UrlParseError,
                Some((base, pairs)) => r matches Ok(ctx) && ctx@.method == get_method()
                    && ctx@.url == base && ctx@.params == JsonModel::Obj(
                    accum_pairs(Seq::empty(), pairs),
                ) && ctx@.headers == Seq::<(Seq<char>, Seq<char>)>::empty() && ctx@.body is None
                    && ctx@.user_agent is None,
            },
    {
        let (base, pairs) = match url_split(s) {
            Some(bp) => bp,
            None => {
                return Err(Error::UrlParseError);
            },
        };
        let ghost pv = str_pairs_view(pairs@);
        let mut params = JsonValue::empty_object();
        let mut i: usize = 0;
        proof {
            lemma_str_pairs_view(pairs@);
            assert(pv.skip(0) =~= pv);
            assert(accum_pairs(Seq::empty(), pv) == accum_pairs(params@->Obj_0, pv.skip(0)));
        }
        while i < pairs.len()
            invariant
                i <= pairs@.len(),
                pv == str_pairs_view(pairs@),
                params@ is Obj,
                accum_pairs(Seq::empty(), pv) == accum_pairs(params@->Obj_0, pv.skip(i as int)),
            decreases pairs@.len() - i,
        {
            let ghost pre = params@->Obj_0;
            proof {
                lemma_str_pairs_view(pairs@);
                assert(pv.skip(i as int)[0] == pv[i as int]);
                assert(pv.skip(i as int).drop_first() =~= pv.skip(i as int + 1));
            }
            let k = pairs[i].0.clone();
            let v = pairs[i].1.clone();
            let nv: JsonValue = match params.obj_get(k.as_str()) {
                None => JsonValue::Str(v),
                Some(cur) => {
                    match cur {
                        JsonValue::Str(prev) => {
                            let mut elems: Vec<JsonValue> = Vec::new();
                            elems.push(JsonValue::Str(prev.clone()));
                            elems.push(JsonValue::Str(v));
                            proof {
                                crate::json::lemma_arr_view(elems@);
                                assert(crate::json::arr_view(elems@) =~= seq![
                                    JsonModel::Str(prev@),
                                    JsonModel::Str(pairs@[i as int].1@),
                                ]);
                            }
                            JsonValue::Arr(elems)
                        },
                        JsonValue::Arr(_) => {
                            let ghost curm = cur@;
                            let ghost vv = v@;
                            let mut copy = cur.deep_clone();
                            match &mut copy {
                                JsonValue::Arr(a) => {
                                    let ghost apre = a@;
                                    proof {
                                        assert(curm->Arr_0 == crate::json::arr_view(apre));
                                    }
                                    a.push(JsonValue::Str(v));
                                    proof {
                                        crate::json::lemma_arr_view(a@);
                                        crate::json::lemma_arr_view(apre);
                                        assert(crate::json::arr_view(a@)
                                            =~= crate::json::arr_view(apre).push(
                                            JsonModel::Str(vv),
                                        ));
                                    }
                                },
                                _ => {
                                },
                            }
                            proof {
                                assert(copy@ == JsonModel::Arr(
                                    curm->Arr_0.push(JsonModel::Str(vv)),
                                ));
                            }
                            copy
                        },
                        other => other.deep_clone(),
                    }
                },
            };
            params.obj_upsert(k, nv);
            proof {
                assert(params@->Obj_0 == accum_one(pre, pv[i as int].0, pv[i as int].1));
            }
            i = i + 1;
        }
        proof {
            assert(pv.skip(pairs@.len() as int) =~= Seq::<(Seq<char>, Seq<char>)>::empty());
        }
        proof {
            reveal_strlit("GET");
            assert("GET"@ =~= get_method());
        }
        let method: &str = "GET";
        Ok(
            RequestContext {
                method: String::from_str(method),
                url: base,
                params,
                headers: Vec::new(),
                body: None,
                user_agent: None,
            },
        )
    }
}

} // verus!
