//! Profile stores and the response comparison they drive.
//!
//! A profile names either one request specification or a pair of them
//! plus comparison options.  Stores are loaded once from raw entries —
//! every profile's `params` must be a JSON object or the whole load
//! fails — and are read-only afterwards; lookup is by exact name.

use vstd::prelude::*;

use crate::diffcore::{build_diff, spec_rendered_diff, DiffResult};
use crate::json::{JsonModel, JsonValue};
use crate::req::{RequestContext, RequestModel};
use crate::resp::{spec_canonical_text, RawResponse, ResponseContext};
use crate::Error;

verus! {

/// One comparison profile: two requests and comparison options.
#[derive(Debug, PartialEq, Eq)]
pub struct DiffContext {
    pub request1: RequestContext,
    pub request2: RequestContext,
    pub response: ResponseContext,
}

/// The mathematical content of a [`DiffContext`].
pub struct DiffContextModel {
    pub request1: RequestModel,
    pub request2: RequestModel,
    pub response: Seq<Seq<char>>,
}

impl View for DiffContext {
    type V = DiffContextModel;

    open spec fn view(&self) -> DiffContextModel {
        DiffContextModel {
            request1: self.request1@,
            request2: self.request2@,
            response: self.response@,
        }
    }
}

/// The header naming the two compared responses' URLs.
pub open spec fn spec_diff_header(u1: Seq<char>, u2: Seq<char>) -> Seq<char> {
    seq!['-', '-', '-', ' ', 'a', '/'] + u1 + seq!['\n', '+', '+', '+', ' ', 'b', '/'] + u2
        + seq!['\n']
}

impl DiffContext {
    /// Bundles two requests and comparison options into one profile.
    pub fn new(req1: RequestContext, req2: RequestContext, resp: ResponseContext) -> (r: Self)
        ensures
            r@.request1 == req1@,
            r@.request2 == req2@,
            r@.response == resp@,
    {
        Self { request1: req1, request2: req2, response: resp }
    }

    /// Compares two raw responses: their canonical texts under this
    /// profile's skip list are equal, or a rendered diff under a header
    /// naming both URLs.
    pub fn diff_responses(&self, res1: &RawResponse, res2: &RawResponse) -> (r: DiffResult)
        ensures
            (r is Equal) == (spec_canonical_text(res1@, self@.response) == spec_canonical_text(
                res2@,
                self@.response,
            )),
            r matches DiffResult::Diff(s) ==> s@ == spec_diff_header(res1@.url, res2@.url) + seq![
                '\n',
            ] + spec_rendered_diff(
                spec_canonical_text(res1@, self@.response),
                spec_canonical_text(res2@, self@.response),
            ),
    {
        let text1 = crate::resp::canonicalize(res1, &self.response.skip_headers);
        let text2 = crate::resp::canonicalize(res2, &self.response.skip_headers);
        if crate::chars::str_eq(text1.as_str(), text2.as_str()) {
            return DiffResult::Equal;
        }
        let mut header: Vec<char> = Vec::new();
        crate::chars::push_str_chars(&mut header, "--- a/");
        crate::chars::push_str_chars(&mut header, res1.url.as_str());
        header.push('\n');
        crate::chars::push_str_chars(&mut header, "+++ b/");
        crate::chars::push_str_chars(&mut header, res2.url.as_str());
        header.push('\n');
        proof {
            reveal_strlit("--- a/");
            reveal_strlit("+++ b/");
            assert("--- a/"@ =~= seq!['-', '-', '-', ' ', 'a', '/']);
            assert("+++ b/"@ =~= seq!['+', '+', '+', ' ', 'b', '/']);
            assert(header@ =~= spec_diff_header(res1@.url, res2@.url));
        }
        let hs = crate::chars::chars_string(&header);
        DiffResult::Diff(build_diff(hs.as_str(), text1.as_str(), text2.as_str()))
    }
}

/// The views of a name/profile entry list.
pub open spec fn diff_entries_view(s: Seq<(String, DiffContext)>) -> Seq<
    (Seq<char>, DiffContextModel),
>
    decreases s,
{
    if s.len() == 0 {
        Seq::empty()
    } else {
        seq![(s[0].0@, s[0].1@)] + diff_entries_view(s.drop_first())
    }
}

pub proof fn lemma_diff_entries_view(s: Seq<(String, DiffContext)>)
    ensures
        diff_entries_view(s).len() == s.len(),
        forall|i: int| 0 <= i < s.len() ==> diff_entries_view(s)[i] == (s[i].0@, s[i].1@),
    decreases s,
{
    if s.len() != 0 {
        lemma_diff_entries_view(s.drop_first());
    }
}

/// The first profile of the given name, if any.
pub open spec fn spec_lookup<T>(entries: Seq<(Seq<char>, T)>, name: Seq<char>) -> Option<T>
    decreases entries,
{
    if entries.len() == 0 {
        None
    } else if entries[0].0 == name {
        Some(entries[0].1)
    } else {
        spec_lookup(entries.drop_first(), name)
    }
}

/// True when every profile's requests carry object parameters.
pub open spec fn diff_entries_params_ok(entries: Seq<(Seq<char>, DiffContextModel)>) -> bool {
    forall|i: int|
        0 <= i < entries.len() ==> (#[trigger] entries[i].1.request1.params is Obj)
            && entries[i].1.request2.params is Obj
}

/// A named store of comparison profiles.
#[derive(Debug, PartialEq, Eq)]
pub struct DiffConfig {
    ctxs: Vec<(String, DiffContext)>,
}

impl View for DiffConfig {
    type V = Seq<(Seq<char>, DiffContextModel)>;

    closed spec fn view(&self) -> Seq<(Seq<char>, DiffContextModel)> {
        diff_entries_view(self.ctxs@)
    }
}

impl DiffConfig {
    /// A store holding one named profile.
    pub fn new_with_profile(
        profile: String,
        req1: RequestContext,
        req2: RequestContext,
        res: ResponseContext,
    ) -> (r: Self)
        ensures
            r@.len() == 1,
            r@[0].0 == profile@,
            r@[0].1.request1 == req1@,
            r@[0].1.request2 == req2@,
            r@[0].1.response == res@,
    {
        let ctx = DiffContext::new(req1, req2, res);
        let mut ctxs: Vec<(String, DiffContext)> = Vec::new();
        ctxs.push((profile, ctx));
        let r = Self { ctxs };
        proof {
            lemma_diff_entries_view(r.ctxs@);
        }
        r
    }

    /// Builds a store from entries, validating eagerly that every
    /// profile's `params` are JSON objects; one bad profile fails the
    /// whole load with [`Error::ParamsNotObject`].
    pub fn from_entries(entries: Vec<(String, DiffContext)>) -> (r: Result<Self, Error>)
        ensures
            match r {
                Ok(cfg) => cfg@ == diff_entries_view(entries@) && diff_entries_params_ok(cfg@),
                Err(e) => e == Error::ParamsNotObject && !diff_entries_params_ok(
                    diff_entries_view(entries@),
                ),
            },
    {
        let ghost ev = diff_entries_view(entries@);
        let mut i: usize = 0;
        proof {
            lemma_diff_entries_view(entries@);
        }
        while i < entries.len()
            invariant
                i <= entries@.len(),
                ev == diff_entries_view(entries@),
                forall|j: int|
                    0 <= j < i ==> (#[trigger] ev[j].1.request1.params is Obj)
                        && ev[j].1.request2.params is Obj,
            decreases entries@.len() - i,
        {
            proof {
                lemma_diff_entries_view(entries@);
            }
            if !entries[i].1.request1.params.is_object() || !entries[
                i
            ].1.request2.params.is_object() {
                proof {
                    assert(ev[i as int] == (entries@[i as int].0@, entries@[i as int].1@));
                    assert(!diff_entries_params_ok(ev)) by {
                        if diff_entries_params_ok(ev) {
                            assert(ev[i as int].1.request1.params is Obj);
                            assert(ev[i as int].1.request2.params is Obj);
                        }
                    }
                }
                return Err(Error::ParamsNotObject);
            }
            i = i + 1;
        }
        proof {
            lemma_diff_entries_view(entries@);
        }
        Ok(Self { ctxs: entries })
    }

    /// The profile of the given name, or [`Error::ProfileNotFound`].
    pub fn get(&self, profile: &str) -> (r: Result<&DiffContext, Error>)
        ensures
            match r {
                Ok(ctx) => spec_lookup(self@, profile@) == Some(ctx@),
                Err(e) => e == Error::ProfileNotFound && spec_lookup(self@, profile@) is None,
            },
    {
        let mut i: usize = 0;
        proof {
            lemma_diff_entries_view(self.ctxs@);
            assert(self@.skip(0) =~= self@);
        }
        while i < self.ctxs.len()
            invariant
                i <= self.ctxs@.len(),
                spec_lookup(self@, profile@) == spec_lookup(self@.skip(i as int), profile@),
            decreases self.ctxs@.len() - i,
        {
            proof {
                lemma_diff_entries_view(self.ctxs@);
                assert(self@.skip(i as int)[0] == self@[i as int]);
                assert(self@.skip(i as int).drop_first() =~= self@.skip(i as int + 1));
            }
            if crate::chars::str_eq(self.ctxs[i].0.as_str(), profile) {
                return Ok(&self.ctxs[i].1);
            }
            i = i + 1;
        }
        proof {
            assert(self@.skip(self@.len() as int) =~= Seq::<(Seq<char>, DiffContextModel)>::empty());
        }
        Err(Error::ProfileNotFound)
    }
}

/// The views of a name/request entry list.
pub open spec fn req_entries_view(s: Seq<(String, RequestContext)>) -> Seq<
    (Seq<char>, RequestModel),
>
    decreases s,
{
    if s.len() == 0 {
        Seq::empty()
    } else {
        seq![(s[0].0@, s[0].1@)] + req_entries_view(s.drop_first())
    }
}

pub proof fn lemma_req_entries_view(s: Seq<(String, RequestContext)>)
    ensures
        req_entries_view(s).len() == s.len(),
        forall|i: int| 0 <= i < s.len() ==> req_entries_view(s)[i] == (s[i].0@, s[i].1@),
    decreases s,
{
    if s.len() != 0 {
        lemma_req_entries_view(s.drop_first());
    }
}

/// True when every profile's request carries object parameters.
pub open spec fn req_entries_params_ok(entries: Seq<(Seq<char>, RequestModel)>) -> bool {
    forall|i: int| 0 <= i < entries.len() ==> (#[trigger] entries[i].1.params) is Obj
}

/// A named store of single-request profiles.
#[derive(Debug, PartialEq, Eq)]
pub struct RequestConfig {
    ctxs: Vec<(String, RequestContext)>,
}

impl View for RequestConfig {
    type V = Seq<(Seq<char>, RequestModel)>;

    closed spec fn view(&self) -> Seq<(Seq<char>, RequestModel)> {
        req_entries_view(self.ctxs@)
    }
}

impl RequestConfig {
    /// A store holding one named request.
    pub fn new_with_profile(profile: String, ctx: RequestContext) -> (r: Self)
        ensures
            r@.len() == 1,
            r@[0].0 == profile@,
            r@[0].1 == ctx@,
    {
        let mut ctxs: Vec<(String, RequestContext)> = Vec::new();
        ctxs.push((profile, ctx));
        let r = Self { ctxs };
        proof {
            lemma_req_entries_view(r.ctxs@);
        }
        r
    }

    /// Builds a store from entries, validating eagerly that every
    /// profile's `params` are JSON objects.
    pub fn from_entries(entries: Vec<(String, RequestContext)>) -> (r: Result<Self, Error>)
        ensures
            match r {
                Ok(cfg) => cfg@ == req_entries_view(entries@) && req_entries_params_ok(cfg@),
                Err(e) => e == Error::ParamsNotObject && !req_entries_params_ok(
                    req_entries_view(entries@),
                ),
            },
    {
        let ghost ev = req_entries_view(entries@);
        let mut i: usize = 0;
        proof {
            lemma_req_entries_view(entries@);
        }
        while i < entries.len()
            invariant
                i <= entries@.len(),
                ev == req_entries_view(entries@),
                forall|j: int| 0 <= j < i ==> (#[trigger] ev[j].1.params) is Obj,
            decreases entries@.len() - i,
        {
            proof {
                lemma_req_entries_view(entries@);
            }
            if !entries[i].1.params.is_object() {
                proof {
                    assert(ev[i as int] == (entries@[i as int].0@, entries@[i as int].1@));
                    assert(!req_entries_params_ok(ev)) by {
                        if req_entries_params_ok(ev) {
                            assert(ev[i as int].1.params is Obj);
                        }
                    }
                }
                return Err(Error::ParamsNotObject);
            }
            i = i + 1;
        }
        proof {
            lemma_req_entries_view(entries@);
        }
        Ok(Self { ctxs: entries })
    }

    /// The profile of the given name, or [`Error::ProfileNotFound`].
    pub fn get(&self, profile: &str) -> (r: Result<&RequestContext, Error>)
        ensures
            match r {
                Ok(ctx) => spec_lookup(self@, profile@) == Some(ctx@),
                Err(e) => e == Error::ProfileNotFound && spec_lookup(self@, profile@) is None,
            },
    {
        let mut i: usize = 0;
        proof {
            lemma_req_entries_view(self.ctxs@);
            assert(self@.skip(0) =~= self@);
        }
        while i < self.ctxs.len()
            invariant
                i <= self.ctxs@.len(),
                spec_lookup(self@, profile@) == spec_lookup(self@.skip(i as int), profile@),
            decreases self.ctxs@.len() - i,
        {
            proof {
                lemma_req_entries_view(self.ctxs@);
                assert(self@.skip(i as int)[0] == self@[i as int]);
                assert(self@.skip(i as int).drop_first() =~= self@.skip(i as int + 1));
            }
            if crate::chars::str_eq(self.ctxs[i].0.as_str(), profile) {
                return Ok(&self.ctxs[i].1);
            }
            i = i + 1;
        }
        proof {
            assert(self@.skip(self@.len() as int) =~= Seq::<(Seq<char>, RequestModel)>::empty());
        }
        Err(Error::ProfileNotFound)
    }
}


/// A request specification as loaded, before defaulting: every field a
/// config may omit is optional here.
#[derive(Debug, PartialEq, Eq)]
pub struct RawRequestContext {
    pub method: Option<String>,
    pub url: String,
    pub params: Option<JsonValue>,
    pub headers: Option<Vec<(String, String)>>,
    pub body: Option<JsonValue>,
    pub user_agent: Option<String>,
}

/// The mathematical content of a [`RawRequestContext`].
pub struct RawRequestModel {
    pub method: Option<Seq<char>>,
    pub url: Seq<char>,
    pub params: Option<JsonModel>,
    pub headers: Option<Seq<(Seq<char>, Seq<char>)>>,
    pub body: Option<JsonModel>,
    pub user_agent: Option<Seq<char>>,
}

impl View for RawRequestContext {
    type V = RawRequestModel;

    open spec fn view(&self) -> RawRequestModel {
        RawRequestModel {
            method: match self.method {
                Some(m) => Some(m@),
                None => None,
            },
            url: self.url@,
            params: match self.params {
                Some(p) => Some(p@),
                None => None,
            },
            headers: match self.headers {
                Some(h) => Some(crate::req::str_pairs_view(h@)),
                None => None,
            },
            body: match self.body {
                Some(b) => Some(b@),
                None => None,
            },
            user_agent: match self.user_agent {
                Some(u) => Some(u@),
                None => None,
            },
        }
    }
}

/// Resolution: an absent method is `GET`, absent parameters are an empty
/// object, absent headers are none; parameters must then be an object.
pub open spec fn spec_resolve(raw: RawRequestModel) -> Result<RequestModel, Error> {
    let params = match raw.params {
        Some(p) => p,
        None => JsonModel::Obj(Seq::empty()),
    };
    if !(params is Obj) {
        Err(Error::ParamsNotObject)
    } else {
        Ok(
            RequestModel {
                method: match raw.method {
                    Some(m) => m,
                    None => crate::req::get_method(),
                },
                url: raw.url,
                params,
                headers: match raw.headers {
                    Some(h) => h,
                    None => Seq::empty(),
                },
                body: raw.body,
                user_agent: raw.user_agent,
            },
        )
    }
}

/// Unresolution: what a store writes back, dropping every field that
/// resolution would restore.
pub open spec fn spec_unresolve(m: RequestModel) -> RawRequestModel {
    RawRequestModel {
        method: if m.method == crate::req::get_method() {
            None
        } else {
            Some(m.method)
        },
        url: m.url,
        params: if m.params == JsonModel::Obj(Seq::<(Seq<char>, JsonModel)>::empty()) {
            None
        } else {
            Some(m.params)
        },
        headers: if m.headers.len() == 0 {
            None
        } else {
            Some(m.headers)
        },
        body: m.body,
        user_agent: m.user_agent,
    }
}

/// Resolves a raw request; see [`spec_resolve`].
pub fn resolve_request(raw: RawRequestContext) -> (r: Result<RequestContext, Error>)
    ensures
        match r {
            Ok(ctx) => spec_resolve(raw@) == Ok::<RequestModel, Error>(ctx@),
            Err(e) => spec_resolve(raw@) == Err::<RequestModel, Error>(e),
        },
{
    let params = match raw.params {
        Some(p) => p,
        None => JsonValue::empty_object(),
    };
    if !params.is_object() {
        return Err(Error::ParamsNotObject);
    }
    let method = match raw.method {
        Some(m) => m,
        None => {
            proof {
                reveal_strlit("GET");
                assert("GET"@ =~= crate::req::get_method());
            }
            let g: &str = "GET";
            String::from_str(g)
        },
    };
    let headers = match raw.headers {
        Some(h) => h,
        None => {
            let h: Vec<(String, String)> = Vec::new();
            proof {
                assert(crate::req::str_pairs_view(h@) =~= Seq::<(Seq<char>, Seq<char>)>::empty());
            }
            h
        },
    };
    Ok(
        RequestContext {
            method,
            url: raw.url,
            params,
            headers,
            body: raw.body,
            user_agent: raw.user_agent,
        },
    )
}

/// Writes a request back to its raw form; see [`spec_unresolve`].
pub fn unresolve_request(ctx: RequestContext) -> (r: RawRequestContext)
    ensures
        r@ == spec_unresolve(ctx@),
{
    proof {
        reveal_strlit("GET");
        assert("GET"@ =~= crate::req::get_method());
    }
    let is_get = crate::chars::str_eq(ctx.method.as_str(), "GET");
    let method = if is_get {
        None
    } else {
        Some(ctx.method)
    };
    let mut params_empty = false;
    match &ctx.params {
        JsonValue::Obj(o) => {
            if o.len() == 0 {
                params_empty = true;
                proof {
                    assert(crate::json::obj_view(o@) =~= Seq::<(Seq<char>, JsonModel)>::empty());
                }
            }
        },
        _ => {
        },
    }
    let params = if params_empty {
        None
    } else {
        Some(ctx.params)
    };
    let headers = if ctx.headers.len() == 0 {
        proof {
            assert(crate::req::str_pairs_view(ctx.headers@) =~= Seq::<(Seq<char>, Seq<char>)>::empty());
        }
        None
    } else {
        Some(ctx.headers)
    };
    RawRequestContext {
        method,
        url: ctx.url,
        params,
        headers,
        body: ctx.body,
        user_agent: ctx.user_agent,
    }
}

/// Unresolving a request and resolving it back restores it exactly,
/// whenever its parameters are a JSON object (as every loaded or parsed
/// request's are).
pub proof fn lemma_resolve_unresolve(m: RequestModel)
    requires
        m.params is Obj,
    ensures
        spec_resolve(spec_unresolve(m)) == Ok::<RequestModel, Error>(m),
{
    let raw = spec_unresolve(m);
    assert(spec_resolve(raw) is Ok);
    assert(spec_resolve(raw)->Ok_0 =~= m);
}

} // verus!
