//! A small JSON engine: values, a parser, and compact and pretty emitters.
//!
//! Request parameters and bodies, and response bodies, are JSON values.  The
//! crate holds them in [`JsonValue`]: strings are decoded text, numbers keep
//! their source lexeme, and objects are kept sorted by key with unique keys
//! (later insertions of an existing key overwrite its value), so that two
//! texts naming the same fields in any order and with any whitespace parse to
//! the same value.  Every contract speaks over the mathematical mirror
//! [`JsonModel`].

use vstd::prelude::*;

use crate::chars::push_all;

verus! {

/// One JSON value.
///
/// `Num` holds the number's source lexeme unchanged; two numbers are the
/// same value exactly when their lexemes are.  `Obj` pairs are sorted by
/// key and keys are unique; [`JsonValue::obj_upsert`] maintains that shape.
#[derive(Debug, PartialEq, Eq)]
pub enum JsonValue {
    Null,
    Bool(bool),
    Num(String),
    Str(String),
    Arr(Vec<JsonValue>),
    Obj(Vec<(String, JsonValue)>),
}

/// The mathematical content of a [`JsonValue`].
pub enum JsonModel {
    Null,
    Bool(bool),
    Num(Seq<char>),
    Str(Seq<char>),
    Arr(Seq<JsonModel>),
    Obj(Seq<(Seq<char>, JsonModel)>),
}

/// The view of a [`JsonValue`], recursively.
pub open spec fn json_view(v: JsonValue) -> JsonModel
    decreases v,
{
    match v {
        JsonValue::Null => JsonModel::Null,
        JsonValue::Bool(b) => JsonModel::Bool(b),
        JsonValue::Num(s) => JsonModel::Num(s@),
        JsonValue::Str(s) => JsonModel::Str(s@),
        JsonValue::Arr(a) => JsonModel::Arr(arr_view(a@)),
        JsonValue::Obj(o) => JsonModel::Obj(obj_view(o@)),
    }
}

/// The views of a sequence of values.
pub open spec fn arr_view(s: Seq<JsonValue>) -> Seq<JsonModel>
    decreases s,
{
    if s.len() == 0 {
        Seq::empty()
    } else {
        seq![json_view(s[0])] + arr_view(s.drop_first())
    }
}

/// The views of a sequence of key/value pairs.
pub open spec fn obj_view(s: Seq<(String, JsonValue)>) -> Seq<(Seq<char>, JsonModel)>
    decreases s,
{
    if s.len() == 0 {
        Seq::empty()
    } else {
        seq![(s[0].0@, json_view(s[0].1))] + obj_view(s.drop_first())
    }
}

/// `arr_view` maps indexwise.
pub proof fn lemma_arr_view(s: Seq<JsonValue>)
    ensures
        arr_view(s).len() == s.len(),
        forall|i: int| 0 <= i < s.len() ==> arr_view(s)[i] == json_view(s[i]),
    decreases s,
{
    if s.len() != 0 {
        lemma_arr_view(s.drop_first());
    }
}

/// `obj_view` maps indexwise.
pub proof fn lemma_obj_view(s: Seq<(String, JsonValue)>)
    ensures
        obj_view(s).len() == s.len(),
        forall|i: int|
            0 <= i < s.len() ==> obj_view(s)[i] == (s[i].0@, json_view(s[i].1)),
    decreases s,
{
    if s.len() != 0 {
        lemma_obj_view(s.drop_first());
    }
}

impl View for JsonValue {
    type V = JsonModel;

    open spec fn view(&self) -> JsonModel {
        json_view(*self)
    }
}

/// Strict lexicographic order on character sequences, by scalar value.
pub open spec fn str_lt(a: Seq<char>, b: Seq<char>) -> bool
    decreases a.len(),
{
    if b.len() == 0 {
        false
    } else if a.len() == 0 {
        true
    } else if (a[0] as u32) < (b[0] as u32) {
        true
    } else if a[0] == b[0] {
        str_lt(a.drop_first(), b.drop_first())
    } else {
        false
    }
}

/// The keys of an object's pairs are strictly ascending (hence unique).
pub open spec fn obj_sorted(pairs: Seq<(Seq<char>, JsonModel)>) -> bool {
    forall|i: int, j: int| 0 <= i < j < pairs.len() ==> str_lt(pairs[i].0, pairs[j].0)
}

/// Inserts `k -> v` into key-sorted pairs, overwriting an equal key.
pub open spec fn spec_obj_upsert(
    pairs: Seq<(Seq<char>, JsonModel)>,
    k: Seq<char>,
    v: JsonModel,
) -> Seq<(Seq<char>, JsonModel)>
    decreases pairs.len(),
{
    if pairs.len() == 0 {
        seq![(k, v)]
    } else if k == pairs[0].0 {
        seq![(k, v)] + pairs.drop_first()
    } else if str_lt(k, pairs[0].0) {
        seq![(k, v)] + pairs
    } else {
        seq![pairs[0]] + spec_obj_upsert(pairs.drop_first(), k, v)
    }
}

/// Looks a key up in object pairs.
pub open spec fn spec_obj_get(pairs: Seq<(Seq<char>, JsonModel)>, k: Seq<char>) -> Option<JsonModel>
    decreases pairs.len(),
{
    if pairs.len() == 0 {
        None
    } else if pairs[0].0 == k {
        Some(pairs[0].1)
    } else {
        spec_obj_get(pairs.drop_first(), k)
    }
}

/// After an upsert, the inserted key maps to the inserted value and every
/// other key maps to what it mapped to before.
pub proof fn lemma_obj_upsert_get(
    pairs: Seq<(Seq<char>, JsonModel)>,
    k: Seq<char>,
    v: JsonModel,
    q: Seq<char>,
)
    ensures
        spec_obj_get(spec_obj_upsert(pairs, k, v), q) == if q == k {
            Some(v)
        } else {
            spec_obj_get(pairs, q)
        },
    decreases pairs.len(),
{
    lemma_str_lt_irrefl(k);
    if pairs.len() == 0 {
        assert(spec_obj_upsert(pairs, k, v)[0] == (k, v));
        assert(spec_obj_upsert(pairs, k, v).drop_first() =~= Seq::<(
            Seq<char>,
            JsonModel,
        )>::empty());
        assert(spec_obj_get(spec_obj_upsert(pairs, k, v), q) == if q == k {
            Some(v)
        } else {
            spec_obj_get(pairs, q)
        });
    } else if k == pairs[0].0 {
        assert((seq![(k, v)] + pairs.drop_first())[0] == (k, v));
        assert(spec_obj_upsert(pairs, k, v) == seq![(k, v)] + pairs.drop_first());
        assert((seq![(k, v)] + pairs.drop_first()).drop_first() =~= pairs.drop_first());
        assert(spec_obj_get(spec_obj_upsert(pairs, k, v), q) == if q == k {
            Some(v)
        } else {
            spec_obj_get(pairs, q)
        });
    } else if str_lt(k, pairs[0].0) {
        assert((seq![(k, v)] + pairs)[0] == (k, v));
        assert((seq![(k, v)] + pairs).drop_first() =~= pairs);
        assert(spec_obj_get(spec_obj_upsert(pairs, k, v), q) == if q == k {
            Some(v)
        } else {
            spec_obj_get(pairs, q)
        });
    } else {
        lemma_obj_upsert_get(pairs.drop_first(), k, v, q);
        let up = seq![pairs[0]] + spec_obj_upsert(pairs.drop_first(), k, v);
        assert(up[0] == pairs[0]);
        assert(up.drop_first() =~= spec_obj_upsert(pairs.drop_first(), k, v));
        assert(spec_obj_upsert(pairs.drop_first(), k, v).len() > 0) by {
            lemma_obj_upsert_len(pairs.drop_first(), k, v);
        }
        assert(up.len() > 1);
        assert(spec_obj_get(up, q) == if up[0].0 == q {
            Some(up[0].1)
        } else {
            spec_obj_get(up.drop_first(), q)
        });
        assert(spec_obj_get(pairs, q) == if pairs[0].0 == q {
            Some(pairs[0].1)
        } else {
            spec_obj_get(pairs.drop_first(), q)
        });
    }
}

/// An upsert never empties the pairs.
pub proof fn lemma_obj_upsert_len(
    pairs: Seq<(Seq<char>, JsonModel)>,
    k: Seq<char>,
    v: JsonModel,
)
    ensures
        spec_obj_upsert(pairs, k, v).len() >= 1,
    decreases pairs.len(),
{
    if pairs.len() != 0 && k != pairs[0].0 && !str_lt(k, pairs[0].0) {
        lemma_obj_upsert_len(pairs.drop_first(), k, v);
    }
}

/// `str_lt` never holds between a sequence and itself.
pub proof fn lemma_str_lt_irrefl(a: Seq<char>)
    ensures
        !str_lt(a, a),
    decreases a.len(),
{
    if a.len() != 0 {
        lemma_str_lt_irrefl(a.drop_first());
    }
}

/// Exactly one of `a < b`, `a == b`, `b < a` holds.
pub proof fn lemma_str_lt_trichotomy(a: Seq<char>, b: Seq<char>)
    ensures
        str_lt(a, b) || str_lt(b, a) || a == b,
        str_lt(a, b) ==> !str_lt(b, a) && a != b,
    decreases a.len() + b.len(),
{
    lemma_str_lt_irrefl(a);
    lemma_str_lt_irrefl(b);
    if a.len() != 0 && b.len() != 0 {
        lemma_str_lt_trichotomy(a.drop_first(), b.drop_first());
        if !str_lt(a, b) && !str_lt(b, a) {
            assert(a[0] == b[0]) by {
                vstd::utf8::char_u32_cast(a[0], a[0] as u32);
                vstd::utf8::char_u32_cast(b[0], b[0] as u32);
            }
            assert(a.drop_first() == b.drop_first());
            assert(a =~= seq![a[0]] + a.drop_first());
            assert(b =~= seq![b[0]] + b.drop_first());
        }
    }
}

impl JsonValue {
    /// True when the value is an object.
    pub fn is_object(&self) -> (r: bool)
        ensures
            r == (self@ is Obj),
    {
        match self {
            JsonValue::Obj(_) => true,
            _ => false,
        }
    }

    /// An empty JSON object.
    pub fn empty_object() -> (r: JsonValue)
        ensures
            r@ == JsonModel::Obj(Seq::empty()),
    {
        let r = JsonValue::Obj(Vec::new());
        proof {
            assert(Seq::new(0, |i: int| (Seq::<char>::empty(), JsonModel::Null)) =~= Seq::<(
                Seq<char>,
                JsonModel,
            )>::empty());
            assert(r@ matches JsonModel::Obj(p) ==> p =~= Seq::empty());
        }
        r
    }
}

/// Compares suffixes of two character vectors lexicographically.
fn chars_cmp_from(a: &Vec<char>, b: &Vec<char>, i: usize) -> (r: i8)
    requires
        i <= a@.len(),
        i <= b@.len(),
    ensures
        r < 0 <==> str_lt(a@.skip(i as int), b@.skip(i as int)),
        r == 0 <==> a@.skip(i as int) == b@.skip(i as int),
        r > 0 <==> str_lt(b@.skip(i as int), a@.skip(i as int)),
    decreases a@.len() - i,
{
    proof {
        lemma_str_lt_trichotomy(a@.skip(i as int), b@.skip(i as int));
    }
    if i == a.len() && i == b.len() {
        proof {
            assert(a@.skip(i as int) =~= Seq::<char>::empty());
            assert(b@.skip(i as int) =~= Seq::<char>::empty());
        }
        return 0;
    }
    if i == a.len() {
        proof {
            assert(a@.skip(i as int) =~= Seq::<char>::empty());
            assert(b@.skip(i as int).len() != 0);
        }
        return -1;
    }
    if i == b.len() {
        proof {
            assert(b@.skip(i as int) =~= Seq::<char>::empty());
            assert(a@.skip(i as int).len() != 0);
        }
        return 1;
    }
    let ca = a[i];
    let cb = b[i];
    proof {
        assert(a@.skip(i as int)[0] == a@[i as int]);
        assert(b@.skip(i as int)[0] == b@[i as int]);
        assert(a@.skip(i as int).drop_first() =~= a@.skip(i as int + 1));
        assert(b@.skip(i as int).drop_first() =~= b@.skip(i as int + 1));
    }
    if (ca as u32) < (cb as u32) {
        return -1;
    }
    if (cb as u32) < (ca as u32) {
        return 1;
    }
    proof {
        assert(ca == cb) by {
            vstd::utf8::char_u32_cast(ca, ca as u32);
            vstd::utf8::char_u32_cast(cb, cb as u32);
        }
    }
    let r = chars_cmp_from(a, b, i + 1);
    proof {
        if r == 0 {
            assert(a@.skip(i as int) =~= seq![a@[i as int]] + a@.skip(i as int + 1));
            assert(b@.skip(i as int) =~= seq![b@[i as int]] + b@.skip(i as int + 1));
        }
    }
    r
}

/// Compares two character vectors lexicographically; returns a negative,
/// zero or positive sign as `a` is below, equal to or above `b`.
pub fn chars_cmp(a: &Vec<char>, b: &Vec<char>) -> (r: i8)
    ensures
        r < 0 <==> str_lt(a@, b@),
        r == 0 <==> a@ == b@,
        r > 0 <==> str_lt(b@, a@),
{
    let r = chars_cmp_from(a, b, 0);
    proof {
        assert(a@.skip(0) =~= a@);
        assert(b@.skip(0) =~= b@);
    }
    r
}


/// A lowercase hexadecimal digit.
pub open spec fn spec_hex_digit(d: int) -> char {
    if d == 0 { '0' } else if d == 1 { '1' } else if d == 2 { '2' } else if d == 3 { '3' }
    else if d == 4 { '4' } else if d == 5 { '5' } else if d == 6 { '6' } else if d == 7 { '7' }
    else if d == 8 { '8' } else if d == 9 { '9' } else if d == 10 { 'a' } else if d == 11 { 'b' }
    else if d == 12 { 'c' } else if d == 13 { 'd' } else if d == 14 { 'e' } else { 'f' }
}

/// How one character appears inside a JSON string literal: quote, backslash
/// and control characters are escaped, everything else stands as itself.
pub open spec fn spec_escape_char(c: char) -> Seq<char> {
    if c == '"' { seq!['\\', '"'] }
    else if c == '\\' { seq!['\\', '\\'] }
    else if c == '\n' { seq!['\\', 'n'] }
    else if c == '\r' { seq!['\\', 'r'] }
    else if c == '\t' { seq!['\\', 't'] }
    else if c as u32 == 8 { seq!['\\', 'b'] }
    else if c as u32 == 12 { seq!['\\', 'f'] }
    else if (c as u32) < 32 {
        seq!['\\', 'u', '0', '0', spec_hex_digit(c as u32 as int / 16), spec_hex_digit(
            c as u32 as int % 16,
        )]
    } else {
        seq![c]
    }
}

/// The escaped form of a whole string body.
pub open spec fn spec_escape(s: Seq<char>) -> Seq<char>
    decreases s.len(),
{
    if s.len() == 0 {
        Seq::empty()
    } else {
        spec_escape_char(s[0]) + spec_escape(s.drop_first())
    }
}

proof fn lemma_escape_snoc(s: Seq<char>, c: char)
    ensures
        spec_escape(s.push(c)) == spec_escape(s) + spec_escape_char(c),
    decreases s.len(),
{
    if s.len() == 0 {
        assert(s.push(c)[0] == c);
        assert(s.push(c).drop_first() =~= Seq::<char>::empty());
        assert(spec_escape(s.push(c).drop_first()) == Seq::<char>::empty());
        assert(spec_escape(s.push(c)) == spec_escape_char(c) + spec_escape(
            s.push(c).drop_first(),
        ));
        assert(spec_escape(s) == Seq::<char>::empty());
        assert(spec_escape(s.push(c)) =~= spec_escape(s) + spec_escape_char(c));
    } else {
        let h = spec_escape_char(s[0]);
        let t = s.drop_first();
        lemma_escape_snoc(t, c);
        assert(s.push(c)[0] == s[0]);
        assert(s.push(c).drop_first() =~= t.push(c));
        assert(s.push(c).len() != 0);
        assert(spec_escape(s.push(c)) == h + spec_escape(t.push(c)));
        assert(spec_escape(t.push(c)) == spec_escape(t) + spec_escape_char(c));
        assert(h + (spec_escape(t) + spec_escape_char(c)) =~= (h + spec_escape(t))
            + spec_escape_char(c));
        assert(spec_escape(s) == h + spec_escape(t));
    }
}

fn hex_digit_char(d: u32) -> (c: char)
    requires
        d < 16,
    ensures
        c == spec_hex_digit(d as int),
{
    match d {
        0 => '0', 1 => '1', 2 => '2', 3 => '3', 4 => '4', 5 => '5', 6 => '6', 7 => '7',
        8 => '8', 9 => '9', 10 => 'a', 11 => 'b', 12 => 'c', 13 => 'd', 14 => 'e', _ => 'f',
    }
}

/// Appends the escaped form of `s` to `out`.
pub fn push_escaped(out: &mut Vec<char>, s: &Vec<char>)
    ensures
        final(out)@ == old(out)@ + spec_escape(s@),
{
    let mut i: usize = 0;
    while i < s.len()
        invariant
            i <= s@.len(),
            out@ == old(out)@ + spec_escape(s@.take(i as int)),
        decreases s@.len() - i,
    {
        let c = s[i];
        if c == '"' {
            out.push('\\');
            out.push('"');
        } else if c == '\\' {
            out.push('\\');
            out.push('\\');
        } else if c == '\n' {
            out.push('\\');
            out.push('n');
        } else if c == '\r' {
            out.push('\\');
            out.push('r');
        } else if c == '\t' {
            out.push('\\');
            out.push('t');
        } else if c as u32 == 8 {
            out.push('\\');
            out.push('b');
        } else if c as u32 == 12 {
            out.push('\\');
            out.push('f');
        } else if (c as u32) < 32 {
            out.push('\\');
            out.push('u');
            out.push('0');
            out.push('0');
            out.push(hex_digit_char((c as u32) / 16));
            out.push(hex_digit_char((c as u32) % 16));
        } else {
            out.push(c);
        }
        proof {
            lemma_escape_snoc(s@.take(i as int), s@[i as int]);
            assert(s@.take(i as int).push(s@[i as int]) =~= s@.take(i as int + 1));
            assert(out@ =~= old(out)@ + spec_escape(s@.take(i as int + 1)));
        }
        i = i + 1;
    }
    assert(s@.take(s@.len() as int) =~= s@);
}

/// True for a decimal digit character.
pub open spec fn is_digit(c: char) -> bool {
    '0' as u32 <= c as u32 && c as u32 <= '9' as u32
}

/// The first index at or after `i` that does not hold a digit.
pub open spec fn scan_digits(s: Seq<char>, i: int) -> int
    decreases s.len() - i when 0 <= i <= s.len()
{
    if i < s.len() && is_digit(s[i]) {
        scan_digits(s, i + 1)
    } else {
        i
    }
}

pub proof fn lemma_scan_digits(s: Seq<char>, i: int)
    requires
        0 <= i <= s.len(),
    ensures
        i <= scan_digits(s, i) <= s.len(),
        forall|j: int| i <= j < scan_digits(s, i) ==> is_digit(s[j]),
        scan_digits(s, i) < s.len() ==> !is_digit(s[scan_digits(s, i)]),
    decreases s.len() - i,
{
    if i < s.len() && is_digit(s[i]) {
        lemma_scan_digits(s, i + 1);
    }
}

/// Where a JSON number starting at `i` ends, or `None` when no number
/// starts there.  The grammar is JSON's: optional minus, an integer part
/// without leading zeros, an optional fraction, an optional exponent.
pub open spec fn scan_number(s: Seq<char>, i: int) -> Option<int>
    recommends
        0 <= i <= s.len(),
{
    let j = if i < s.len() && s[i] == '-' { i + 1 } else { i };
    if !(j < s.len() && is_digit(s[j])) {
        None
    } else {
        let k = if s[j] == '0' { j + 1 } else { scan_digits(s, j) };
        let after_frac = if k < s.len() && s[k] == '.' {
            if k + 1 < s.len() && is_digit(s[k + 1]) {
                Some(scan_digits(s, k + 1))
            } else {
                None
            }
        } else {
            Some(k)
        };
        match after_frac {
            None => None,
            Some(m) => if m < s.len() && (s[m] == 'e' || s[m] == 'E') {
                let p = if m + 1 < s.len() && (s[m + 1] == '+' || s[m + 1] == '-') {
                    m + 2
                } else {
                    m + 1
                };
                if p < s.len() && is_digit(s[p]) {
                    Some(scan_digits(s, p))
                } else {
                    None
                }
            } else {
                Some(m)
            },
        }
    }
}

/// The compact (single-line) rendering of a value.
pub open spec fn spec_emit(m: JsonModel) -> Seq<char>
    decreases m, 0int,
{
    match m {
        JsonModel::Null => seq!['n', 'u', 'l', 'l'],
        JsonModel::Bool(b) => if b {
            seq!['t', 'r', 'u', 'e']
        } else {
            seq!['f', 'a', 'l', 's', 'e']
        },
        JsonModel::Num(s) => s,
        JsonModel::Str(s) => seq!['"'] + spec_escape(s) + seq!['"'],
        JsonModel::Arr(a) => if a.len() == 0 {
            seq!['[', ']']
        } else {
            seq!['['] + spec_emit(a[0]) + spec_emit_items_rest(a.drop_first()) + seq![']']
        },
        JsonModel::Obj(o) => if o.len() == 0 {
            seq!['{', '}']
        } else {
            seq!['{'] + spec_emit_member(o[0]) + spec_emit_members_rest(o.drop_first()) + seq![
                '}',
            ]
        },
    }
}

/// Compact rendering of `, item` for each remaining item.
pub open spec fn spec_emit_items_rest(a: Seq<JsonModel>) -> Seq<char>
    decreases a, 1int,
{
    if a.len() == 0 {
        Seq::empty()
    } else {
        seq![','] + spec_emit(a[0]) + spec_emit_items_rest(a.drop_first())
    }
}

/// Compact rendering of one `"key":value` member.
pub open spec fn spec_emit_member(p: (Seq<char>, JsonModel)) -> Seq<char>
    decreases p, 0int,
{
    seq!['"'] + spec_escape(p.0) + seq!['"', ':'] + spec_emit(p.1)
}

/// Compact rendering of `, "key":value` for each remaining member.
pub open spec fn spec_emit_members_rest(o: Seq<(Seq<char>, JsonModel)>) -> Seq<char>
    decreases o, 1int,
{
    if o.len() == 0 {
        Seq::empty()
    } else {
        seq![','] + spec_emit_member(o[0]) + spec_emit_members_rest(o.drop_first())
    }
}


/// A copy of a character vector.
pub fn vec_dup(v: &Vec<char>) -> (r: Vec<char>)
    ensures
        r@ == v@,
{
    let mut r: Vec<char> = Vec::new();
    let mut i: usize = 0;
    while i < v.len()
        invariant
            i <= v@.len(),
            r@ == v@.subrange(0, i as int),
        decreases v@.len() - i,
    {
        r.push(v[i]);
        assert(r@ =~= v@.subrange(0, i as int + 1));
        i = i + 1;
    }
    assert(r@ =~= v@);
    r
}

impl JsonValue {
    /// A structurally equal copy of the value.
    pub fn deep_clone(&self) -> (r: JsonValue)
        ensures
            r@ == self@,
        decreases self,
    {
        match self {
            JsonValue::Null => JsonValue::Null,
            JsonValue::Bool(b) => JsonValue::Bool(*b),
            JsonValue::Num(s) => JsonValue::Num(s.clone()),
            JsonValue::Str(s) => JsonValue::Str(s.clone()),
            JsonValue::Arr(a) => {
                let mut out: Vec<JsonValue> = Vec::new();
                let mut i: usize = 0;
                while i < a.len()
                    invariant
                        i <= a@.len(),
                        out@.len() == i,
                        *self is Arr,
                        (*self)->Arr_0 == *a,
                        forall|j: int| 0 <= j < i ==> json_view(out@[j]) == json_view(a@[j]),
                    decreases a@.len() - i,
                {
                    proof {
                        assert(decreases_to!(*self => a@[i as int]));
                    }
                    out.push(a[i].deep_clone());
                    i = i + 1;
                }
                proof {
                    lemma_arr_view(out@);
                    lemma_arr_view(a@);
                    assert(arr_view(out@) =~= arr_view(a@));
                }
                JsonValue::Arr(out)
            },
            JsonValue::Obj(o) => {
                let mut out: Vec<(String, JsonValue)> = Vec::new();
                let mut i: usize = 0;
                while i < o.len()
                    invariant
                        i <= o@.len(),
                        out@.len() == i,
                        *self is Obj,
                        (*self)->Obj_0 == *o,
                        forall|j: int|
                            0 <= j < i ==> out@[j].0@ == o@[j].0@ && json_view(out@[j].1)
                                == json_view(o@[j].1),
                    decreases o@.len() - i,
                {
                    proof {
                        assert(decreases_to!(o@[i as int] => o@[i as int].1));
                        assert(decreases_to!(*self => o@[i as int].1));
                    }
                    let k = o[i].0.clone();
                    let v = o[i].1.deep_clone();
                    out.push((k, v));
                    i = i + 1;
                }
                proof {
                    lemma_obj_view(out@);
                    lemma_obj_view(o@);
                    assert(obj_view(out@) =~= obj_view(o@));
                }
                JsonValue::Obj(out)
            },
        }
    }

    /// Inserts `key -> value` into this object, keeping keys sorted and
    /// overwriting an existing equal key; leaves non-objects unchanged.
    pub fn obj_upsert(&mut self, key: String, value: JsonValue)
        ensures
            old(self)@ matches JsonModel::Obj(pairs) ==> final(self)@ == JsonModel::Obj(
                spec_obj_upsert(pairs, key@, value@),
            ),
            !(old(self)@ is Obj) ==> final(self)@ == old(self)@,
    {
        match self {
            JsonValue::Obj(o) => {
                upsert_pairs(o, key, value);
            },
            _ => {
            },
        }
        proof {
            if (*old(self)) is Obj {
                assert(old(self)@ == JsonModel::Obj(obj_view((*old(self))->Obj_0@)));
                assert(self@ == JsonModel::Obj(obj_view((*self)->Obj_0@)));
            } else {
                assert(*self == *old(self));
            }
        }
    }
}

/// Inserts `key -> value` into key-sorted pairs, overwriting an equal key.
fn upsert_pairs(o: &mut Vec<(String, JsonValue)>, key: String, value: JsonValue)
    ensures
        obj_view(final(o)@) == spec_obj_upsert(obj_view(old(o)@), key@, value@),
{
    let ghost orig = old(o)@;
    let ghost kview = key@;
    let ghost vview = value@;
    let kc = crate::chars::str_chars(key.as_str());
    let mut i: usize = 0;
    loop
        invariant
            i <= o@.len(),
            o@ == orig,
            orig == old(o)@,
            kc@ == kview,
            key@ == kview,
            value@ == vview,
            forall|j: int| 0 <= j < i ==> str_lt(orig[j].0@, kview),
        decreases o@.len() - i,
    {
        if i == o.len() {
            proof {
                lemma_obj_view(orig);
                lemma_obj_upsert_at(obj_view(orig), kview, vview, i as int);
            }
            o.push((key, value));
            proof {
                lemma_obj_view(o@);
                lemma_obj_view(orig);
                assert(obj_view(o@) =~= obj_view(orig).push((kview, vview)));
            }
            return;
        }
        let oc = crate::chars::str_chars(o[i].0.as_str());
        let c = chars_cmp(&kc, &oc);
        if c == 0 {
            proof {
                lemma_obj_view(orig);
                lemma_obj_upsert_at(obj_view(orig), kview, vview, i as int);
            }
            let _ = o.remove(i);
            o.insert(i, (key, value));
            proof {
                lemma_obj_view(o@);
                lemma_obj_view(orig);
                assert(o@ =~= orig.update(i as int, (o@[i as int].0, o@[i as int].1)));
                assert(obj_view(o@) =~= obj_view(orig).update(i as int, (kview, vview)));
            }
            return;
        }
        if c < 0 {
            proof {
                lemma_obj_view(orig);
                lemma_obj_upsert_at(obj_view(orig), kview, vview, i as int);
            }
            o.insert(i, (key, value));
            proof {
                lemma_obj_view(o@);
                lemma_obj_view(orig);
                assert(obj_view(o@) =~= obj_view(orig).insert(i as int, (kview, vview)));
            }
            return;
        }
        i = i + 1;
    }
}

/// When the first `i` keys are below `k` and, at `i`, either the list ends
/// or `k` is at or below the key there, the upsert acts at position `i`.
proof fn lemma_obj_upsert_at(
    pairs: Seq<(Seq<char>, JsonModel)>,
    k: Seq<char>,
    v: JsonModel,
    i: int,
)
    requires
        0 <= i <= pairs.len(),
        forall|j: int| 0 <= j < i ==> str_lt(pairs[j].0, k),
        i < pairs.len() ==> (k == pairs[i].0 || str_lt(k, pairs[i].0)),
    ensures
        i == pairs.len() ==> spec_obj_upsert(pairs, k, v) == pairs.push((k, v)),
        i < pairs.len() && k == pairs[i].0 ==> spec_obj_upsert(pairs, k, v) == pairs.update(
            i,
            (k, v),
        ),
        i < pairs.len() && k != pairs[i].0 ==> spec_obj_upsert(pairs, k, v) == pairs.insert(
            i,
            (k, v),
        ),
    decreases pairs.len(),
{
    lemma_str_lt_irrefl(k);
    if pairs.len() == 0 {
        assert(spec_obj_upsert(pairs, k, v) =~= pairs.push((k, v)));
    } else if i == 0 {
        if k == pairs[0].0 {
            assert(spec_obj_upsert(pairs, k, v) =~= pairs.update(0, (k, v)));
        } else {
            assert(str_lt(k, pairs[0].0));
            assert(spec_obj_upsert(pairs, k, v) =~= pairs.insert(0, (k, v)));
        }
    } else {
        assert(str_lt(pairs[0].0, k));
        lemma_str_lt_trichotomy(k, pairs[0].0);
        assert(k != pairs[0].0);
        assert(!str_lt(k, pairs[0].0));
        lemma_obj_upsert_at(pairs.drop_first(), k, v, i - 1);
        assert(forall|j: int|
            0 <= j < i - 1 ==> pairs.drop_first()[j] == pairs[j + 1]);
        if i == pairs.len() {
            assert(spec_obj_upsert(pairs, k, v) =~= pairs.push((k, v)));
        } else if k == pairs[i].0 {
            assert(spec_obj_upsert(pairs, k, v) =~= pairs.update(i, (k, v)));
        } else {
            assert(spec_obj_upsert(pairs, k, v) =~= pairs.insert(i, (k, v)));
        }
    }
}


/// The pretty rendering of a value at a given indentation prefix: objects
/// and arrays spread over lines, each level indented by two more spaces,
/// and a member's colon followed by one space.
pub open spec fn spec_emit_pretty(m: JsonModel, ind: Seq<char>) -> Seq<char>
    decreases m, 0int,
{
    match m {
        JsonModel::Null => seq!['n', 'u', 'l', 'l'],
        JsonModel::Bool(b) => if b {
            seq!['t', 'r', 'u', 'e']
        } else {
            seq!['f', 'a', 'l', 's', 'e']
        },
        JsonModel::Num(s) => s,
        JsonModel::Str(s) => seq!['"'] + spec_escape(s) + seq!['"'],
        JsonModel::Arr(a) => if a.len() == 0 {
            seq!['[', ']']
        } else {
            seq!['[', '\n'] + (ind + seq![' ', ' ']) + spec_emit_pretty(a[0], ind + seq![' ', ' '])
                + spec_pretty_items_rest(a.drop_first(), ind + seq![' ', ' ']) + seq!['\n'] + ind
                + seq![']']
        },
        JsonModel::Obj(o) => if o.len() == 0 {
            seq!['{', '}']
        } else {
            seq!['{', '\n'] + (ind + seq![' ', ' ']) + spec_pretty_member(o[0], ind + seq![
                ' ',
                ' ',
            ]) + spec_pretty_members_rest(o.drop_first(), ind + seq![' ', ' ']) + seq!['\n'] + ind
                + seq!['}']
        },
    }
}

/// Pretty rendering of `,\n<ind><item>` for each remaining item.
pub open spec fn spec_pretty_items_rest(a: Seq<JsonModel>, ind: Seq<char>) -> Seq<char>
    decreases a, 1int,
{
    if a.len() == 0 {
        Seq::empty()
    } else {
        seq![',', '\n'] + ind + spec_emit_pretty(a[0], ind) + spec_pretty_items_rest(
            a.drop_first(),
            ind,
        )
    }
}

/// Pretty rendering of one `"key": value` member.
pub open spec fn spec_pretty_member(p: (Seq<char>, JsonModel), ind: Seq<char>) -> Seq<char>
    decreases p, 0int,
{
    seq!['"'] + spec_escape(p.0) + seq!['"', ':', ' '] + spec_emit_pretty(p.1, ind)
}

/// Pretty rendering of `,\n<ind>"key": value` for each remaining member.
pub open spec fn spec_pretty_members_rest(o: Seq<(Seq<char>, JsonModel)>, ind: Seq<char>) -> Seq<
    char,
>
    decreases o, 1int,
{
    if o.len() == 0 {
        Seq::empty()
    } else {
        seq![',', '\n'] + ind + spec_pretty_member(o[0], ind) + spec_pretty_members_rest(
            o.drop_first(),
            ind,
        )
    }
}

fn emit_compact_into(v: &JsonValue, out: &mut Vec<char>)
    ensures
        final(out)@ == old(out)@ + spec_emit(v@),
    decreases v, 0int,
{
    match v {
        JsonValue::Null => {
            out.push('n');
            out.push('u');
            out.push('l');
            out.push('l');
            assert(out@ =~= old(out)@ + spec_emit(v@));
        },
        JsonValue::Bool(b) => {
            if *b {
                out.push('t');
                out.push('r');
                out.push('u');
                out.push('e');
            } else {
                out.push('f');
                out.push('a');
                out.push('l');
                out.push('s');
                out.push('e');
            }
            assert(out@ =~= old(out)@ + spec_emit(v@));
        },
        JsonValue::Num(s) => {
            crate::chars::push_str_chars(out, s.as_str());
            assert(out@ =~= old(out)@ + spec_emit(v@));
        },
        JsonValue::Str(s) => {
            out.push('"');
            let sc = crate::chars::str_chars(s.as_str());
            push_escaped(out, &sc);
            out.push('"');
            assert(out@ =~= old(out)@ + spec_emit(v@));
        },
        JsonValue::Arr(a) => {
            proof {
                assert(v@ == JsonModel::Arr(arr_view(a@)));
                lemma_arr_view(a@);
            }
            out.push('[');
            if a.len() == 0 {
                out.push(']');
                proof {
                    assert(arr_view(a@) =~= Seq::<JsonModel>::empty());
                    assert(out@ =~= old(out)@ + spec_emit(v@));
                }
            } else {
                proof {
                    assert(decreases_to!(*v => a@[0]));
                }
                emit_compact_into(&a[0], out);
                proof {
                    assert(decreases_to!(*v => *a));
                }
                emit_items_rest_into(a, 1, out);
                out.push(']');
                proof {
                    assert(arr_view(a@)[0] == json_view(a@[0]));
                    assert(arr_view(a@).skip(1) =~= arr_view(a@).drop_first());
                    assert(out@ =~= old(out)@ + spec_emit(v@));
                }
            }
        },
        JsonValue::Obj(o) => {
            proof {
                assert(v@ == JsonModel::Obj(obj_view(o@)));
                lemma_obj_view(o@);
            }
            out.push('{');
            if o.len() == 0 {
                out.push('}');
                proof {
                    assert(obj_view(o@) =~= Seq::<(Seq<char>, JsonModel)>::empty());
                    assert(out@ =~= old(out)@ + spec_emit(v@));
                }
            } else {
                out.push('"');
                let kc = crate::chars::str_chars(o[0].0.as_str());
                push_escaped(out, &kc);
                out.push('"');
                out.push(':');
                proof {
                    assert(decreases_to!(o@[0] => o@[0].1));
                    assert(decreases_to!(*v => o@[0].1));
                }
                emit_compact_into(&o[0].1, out);
                proof {
                    assert(decreases_to!(*v => *o));
                }
                emit_members_rest_into(o, 1, out);
                out.push('}');
                proof {
                    let ov = obj_view(o@);
                    assert(ov[0] == (o@[0].0@, json_view(o@[0].1)));
                    assert(ov.skip(1) =~= ov.drop_first());
                    assert(spec_emit_member(ov[0]) =~= seq!['"'] + spec_escape(o@[0].0@) + seq![
                        '"',
                        ':',
                    ] + spec_emit(json_view(o@[0].1)));
                    assert(out@ =~= old(out)@ + seq!['{'] + spec_emit_member(ov[0])
                        + spec_emit_members_rest(ov.drop_first()) + seq!['}']);
                    assert(spec_emit(v@) == seq!['{'] + spec_emit_member(ov[0])
                        + spec_emit_members_rest(ov.drop_first()) + seq!['}']);
                    assert(out@ =~= old(out)@ + spec_emit(v@));
                }
            }
        },
    }
}

fn emit_items_rest_into(a: &Vec<JsonValue>, i: usize, out: &mut Vec<char>)
    requires
        1 <= i <= a@.len(),
    ensures
        final(out)@ == old(out)@ + spec_emit_items_rest(arr_view(a@).skip(i as int)),
    decreases a, a@.len() - i,
{
    proof {
        lemma_arr_view(a@);
    }
    if i == a.len() {
        proof {
            assert(arr_view(a@).skip(i as int) =~= Seq::<JsonModel>::empty());
            assert(out@ =~= old(out)@ + spec_emit_items_rest(arr_view(a@).skip(i as int)));
        }
        return;
    }
    out.push(',');
    proof {
        assert(decreases_to!(*a => a@[i as int]));
    }
    emit_compact_into(&a[i], out);
    emit_items_rest_into(a, i + 1, out);
    proof {
        assert(arr_view(a@).skip(i as int)[0] == json_view(a@[i as int]));
        assert(arr_view(a@).skip(i as int).drop_first() =~= arr_view(a@).skip(i as int + 1));
        assert(out@ =~= old(out)@ + spec_emit_items_rest(arr_view(a@).skip(i as int)));
    }
}

fn emit_members_rest_into(o: &Vec<(String, JsonValue)>, i: usize, out: &mut Vec<char>)
    requires
        1 <= i <= o@.len(),
    ensures
        final(out)@ == old(out)@ + spec_emit_members_rest(obj_view(o@).skip(i as int)),
    decreases o, o@.len() - i,
{
    proof {
        lemma_obj_view(o@);
    }
    if i == o.len() {
        proof {
            assert(obj_view(o@).skip(i as int) =~= Seq::<(Seq<char>, JsonModel)>::empty());
            assert(out@ =~= old(out)@ + spec_emit_members_rest(obj_view(o@).skip(i as int)));
        }
        return;
    }
    out.push(',');
    out.push('"');
    let kc = crate::chars::str_chars(o[i].0.as_str());
    push_escaped(out, &kc);
    out.push('"');
    out.push(':');
    proof {
        assert(decreases_to!(*o => o@[i as int]));
        assert(decreases_to!(o@[i as int] => o@[i as int].1));
    }
    emit_compact_into(&o[i].1, out);
    emit_members_rest_into(o, i + 1, out);
    proof {
        let sv = obj_view(o@).skip(i as int);
        assert(sv[0] == (o@[i as int].0@, json_view(o@[i as int].1)));
        assert(sv.drop_first() =~= obj_view(o@).skip(i as int + 1));
        assert(spec_emit_member(sv[0]) =~= seq!['"'] + spec_escape(o@[i as int].0@) + seq![
            '"',
            ':',
        ] + spec_emit(json_view(o@[i as int].1)));
        assert(out@ =~= old(out)@ + seq![','] + spec_emit_member(sv[0]) + spec_emit_members_rest(
            sv.drop_first(),
        ));
        assert(spec_emit_members_rest(sv) == seq![','] + spec_emit_member(sv[0])
            + spec_emit_members_rest(sv.drop_first()));
        assert(out@ =~= old(out)@ + spec_emit_members_rest(sv));
    }
}

impl JsonValue {
    /// The compact one-line JSON text of this value.
    pub fn to_compact_string(&self) -> (r: String)
        ensures
            r@ == spec_emit(self@),
    {
        let mut out: Vec<char> = Vec::new();
        emit_compact_into(self, &mut out);
        crate::chars::chars_string(&out)
    }

    /// The pretty multi-line JSON text of this value, starting at the left
    /// margin.
    pub fn to_pretty_string(&self) -> (r: String)
        ensures
            r@ == spec_emit_pretty(self@, Seq::empty()),
    {
        let mut out: Vec<char> = Vec::new();
        let ind: Vec<char> = Vec::new();
        emit_pretty_into(self, &ind, &mut out);
        crate::chars::chars_string(&out)
    }
}

#[verifier::rlimit(100)]
#[verifier::spinoff_prover]
fn emit_pretty_into(v: &JsonValue, ind: &Vec<char>, out: &mut Vec<char>)
    ensures
        final(out)@ == old(out)@ + spec_emit_pretty(v@, ind@),
    decreases v, 0int,
{
    match v {
        JsonValue::Null => {
            out.push('n');
            out.push('u');
            out.push('l');
            out.push('l');
            assert(out@ =~= old(out)@ + spec_emit_pretty(v@, ind@));
        },
        JsonValue::Bool(b) => {
            if *b {
                out.push('t');
                out.push('r');
                out.push('u');
                out.push('e');
            } else {
                out.push('f');
                out.push('a');
                out.push('l');
                out.push('s');
                out.push('e');
            }
            assert(out@ =~= old(out)@ + spec_emit_pretty(v@, ind@));
        },
        JsonValue::Num(s) => {
            crate::chars::push_str_chars(out, s.as_str());
            assert(out@ =~= old(out)@ + spec_emit_pretty(v@, ind@));
        },
        JsonValue::Str(s) => {
            out.push('"');
            let sc = crate::chars::str_chars(s.as_str());
            push_escaped(out, &sc);
            out.push('"');
            assert(out@ =~= old(out)@ + spec_emit_pretty(v@, ind@));
        },
        JsonValue::Arr(a) => {
            proof {
                assert(v@ == JsonModel::Arr(arr_view(a@)));
                lemma_arr_view(a@);
            }
            out.push('[');
            if a.len() == 0 {
                out.push(']');
                proof {
                    assert(arr_view(a@) =~= Seq::<JsonModel>::empty());
                    assert(out@ =~= old(out)@ + spec_emit_pretty(v@, ind@));
                }
            } else {
                out.push('\n');
                let mut ind2 = vec_dup(ind);
                ind2.push(' ');
                ind2.push(' ');
                push_all(out, &ind2);
                proof {
                    assert(decreases_to!(*v => a@[0]));
                }
                emit_pretty_into(&a[0], &ind2, out);
                proof {
                    assert(decreases_to!(*v => *a));
                }
                pretty_items_rest_into(a, 1, &ind2, out);
                out.push('\n');
                push_all(out, ind);
                out.push(']');
                proof {
                    assert(ind2@ =~= ind@ + seq![' ', ' ']);
                    assert(arr_view(a@)[0] == json_view(a@[0]));
                    assert(arr_view(a@).skip(1) =~= arr_view(a@).drop_first());
                    assert(out@ =~= old(out)@ + spec_emit_pretty(v@, ind@));
                }
            }
        },
        JsonValue::Obj(o) => {
            proof {
                assert(v@ == JsonModel::Obj(obj_view(o@)));
                lemma_obj_view(o@);
            }
            out.push('{');
            if o.len() == 0 {
                out.push('}');
                proof {
                    assert(obj_view(o@) =~= Seq::<(Seq<char>, JsonModel)>::empty());
                    assert(out@ =~= old(out)@ + spec_emit_pretty(v@, ind@));
                }
            } else {
                out.push('\n');
                let mut ind2 = vec_dup(ind);
                ind2.push(' ');
                ind2.push(' ');
                push_all(out, &ind2);
                out.push('"');
                let kc = crate::chars::str_chars(o[0].0.as_str());
                push_escaped(out, &kc);
                out.push('"');
                out.push(':');
                out.push(' ');
                proof {
                    assert(decreases_to!(o@[0] => o@[0].1));
                    assert(decreases_to!(*v => o@[0].1));
                }
                emit_pretty_into(&o[0].1, &ind2, out);
                proof {
                    assert(decreases_to!(*v => *o));
                }
                pretty_members_rest_into(o, 1, &ind2, out);
                out.push('\n');
                push_all(out, ind);
                out.push('}');
                proof {
                    let ov = obj_view(o@);
                    assert(ind2@ =~= ind@ + seq![' ', ' ']);
                    assert(ov[0] == (o@[0].0@, json_view(o@[0].1)));
                    assert(ov.skip(1) =~= ov.drop_first());
                    assert(spec_pretty_member(ov[0], ind2@) =~= seq!['"'] + spec_escape(o@[0].0@)
                        + seq!['"', ':', ' '] + spec_emit_pretty(json_view(o@[0].1), ind2@));
                    assert(out@ =~= old(out)@ + seq!['{', '\n'] + ind2@ + spec_pretty_member(
                        ov[0],
                        ind2@,
                    ) + spec_pretty_members_rest(ov.drop_first(), ind2@) + seq!['\n'] + ind@
                        + seq!['}']);
                    assert(spec_emit_pretty(v@, ind@) == seq!['{', '\n'] + ind2@
                        + spec_pretty_member(ov[0], ind2@) + spec_pretty_members_rest(
                        ov.drop_first(),
                        ind2@,
                    ) + seq!['\n'] + ind@ + seq!['}']);
                    assert(out@ =~= old(out)@ + spec_emit_pretty(v@, ind@));
                }
            }
        },
    }
}

fn pretty_items_rest_into(a: &Vec<JsonValue>, i: usize, ind: &Vec<char>, out: &mut Vec<char>)
    requires
        1 <= i <= a@.len(),
    ensures
        final(out)@ == old(out)@ + spec_pretty_items_rest(arr_view(a@).skip(i as int), ind@),
    decreases a, a@.len() - i,
{
    proof {
        lemma_arr_view(a@);
    }
    if i == a.len() {
        proof {
            assert(arr_view(a@).skip(i as int) =~= Seq::<JsonModel>::empty());
            assert(out@ =~= old(out)@ + spec_pretty_items_rest(arr_view(a@).skip(i as int), ind@));
        }
        return;
    }
    out.push(',');
    out.push('\n');
    push_all(out, ind);
    proof {
        assert(decreases_to!(*a => a@[i as int]));
    }
    emit_pretty_into(&a[i], ind, out);
    pretty_items_rest_into(a, i + 1, ind, out);
    proof {
        assert(arr_view(a@).skip(i as int)[0] == json_view(a@[i as int]));
        assert(arr_view(a@).skip(i as int).drop_first() =~= arr_view(a@).skip(i as int + 1));
        assert(out@ =~= old(out)@ + spec_pretty_items_rest(arr_view(a@).skip(i as int), ind@));
    }
}

fn pretty_members_rest_into(
    o: &Vec<(String, JsonValue)>,
    i: usize,
    ind: &Vec<char>,
    out: &mut Vec<char>,
)
    requires
        1 <= i <= o@.len(),
    ensures
        final(out)@ == old(out)@ + spec_pretty_members_rest(obj_view(o@).skip(i as int), ind@),
    decreases o, o@.len() - i,
{
    proof {
        lemma_obj_view(o@);
    }
    if i == o.len() {
        proof {
            assert(obj_view(o@).skip(i as int) =~= Seq::<(Seq<char>, JsonModel)>::empty());
            assert(out@ =~= old(out)@ + spec_pretty_members_rest(
                obj_view(o@).skip(i as int),
                ind@,
            ));
        }
        return;
    }
    out.push(',');
    out.push('\n');
    push_all(out, ind);
    out.push('"');
    let kc = crate::chars::str_chars(o[i].0.as_str());
    push_escaped(out, &kc);
    out.push('"');
    out.push(':');
    out.push(' ');
    proof {
        assert(decreases_to!(*o => o@[i as int]));
        assert(decreases_to!(o@[i as int] => o@[i as int].1));
    }
    emit_pretty_into(&o[i].1, ind, out);
    pretty_members_rest_into(o, i + 1, ind, out);
    proof {
        let sv = obj_view(o@).skip(i as int);
        assert(sv[0] == (o@[i as int].0@, json_view(o@[i as int].1)));
        assert(sv.drop_first() =~= obj_view(o@).skip(i as int + 1));
        assert(spec_pretty_member(sv[0], ind@) =~= seq!['"'] + spec_escape(o@[i as int].0@)
            + seq!['"', ':', ' '] + spec_emit_pretty(json_view(o@[i as int].1), ind@));
        assert(out@ =~= old(out)@ + seq![',', '\n'] + ind@ + spec_pretty_member(sv[0], ind@)
            + spec_pretty_members_rest(sv.drop_first(), ind@));
        assert(spec_pretty_members_rest(sv, ind@) == seq![',', '\n'] + ind@ + spec_pretty_member(
            sv[0],
            ind@,
        ) + spec_pretty_members_rest(sv.drop_first(), ind@));
        assert(out@ =~= old(out)@ + spec_pretty_members_rest(sv, ind@));
    }
}


/// True for JSON whitespace.
pub open spec fn is_ws(c: char) -> bool {
    c == ' ' || c == '\t' || c == '\n' || c == '\r'
}

/// The first index at or after `i` that does not hold whitespace.
pub open spec fn skip_ws(s: Seq<char>, i: int) -> int
    decreases s.len() - i when 0 <= i <= s.len()
{
    if i < s.len() && is_ws(s[i]) {
        skip_ws(s, i + 1)
    } else {
        i
    }
}

pub proof fn lemma_skip_ws(s: Seq<char>, i: int)
    requires
        0 <= i <= s.len(),
    ensures
        i <= skip_ws(s, i) <= s.len(),
        forall|j: int| i <= j < skip_ws(s, i) ==> is_ws(s[j]),
        skip_ws(s, i) < s.len() ==> !is_ws(s[skip_ws(s, i)]),
    decreases s.len() - i,
{
    if i < s.len() && is_ws(s[i]) {
        lemma_skip_ws(s, i + 1);
    }
}

/// True for a hexadecimal digit.
pub open spec fn is_hex(c: char) -> bool {
    is_digit(c) || ('a' as u32 <= c as u32 && c as u32 <= 'f' as u32) || ('A' as u32 <= c as u32
        && c as u32 <= 'F' as u32)
}

/// The value of a hexadecimal digit.
pub open spec fn hex_val(c: char) -> u32
    recommends
        is_hex(c),
{
    if is_digit(c) {
        (c as u32 - '0' as u32) as u32
    } else if 'a' as u32 <= c as u32 && c as u32 <= 'f' as u32 {
        (c as u32 - 'a' as u32 + 10) as u32
    } else {
        (c as u32 - 'A' as u32 + 10) as u32
    }
}

/// Parses the body of a JSON string from `i` (just after the opening
/// quote): the decoded content and the index after the closing quote.
/// The usual escapes are decoded; a `\u` escape must name a scalar value
/// (surrogates are refused); unescaped control characters are refused.
pub open spec fn spec_parse_string(s: Seq<char>, i: int) -> Option<(Seq<char>, int)>
    decreases s.len() - i when 0 <= i <= s.len()
{
    if i >= s.len() {
        None
    } else {
        let c = s[i];
        if c == '"' {
            Some((Seq::empty(), i + 1))
        } else if c == '\\' {
            if i + 1 >= s.len() {
                None
            } else {
                let e = s[i + 1];
                if e == 'u' {
                    if i + 6 <= s.len() && is_hex(s[i + 2]) && is_hex(s[i + 3]) && is_hex(
                        s[i + 4],
                    ) && is_hex(s[i + 5]) {
                        let code = hex_val(s[i + 2]) * 0x1000 + hex_val(s[i + 3]) * 0x100 + hex_val(
                            s[i + 4],
                        ) * 0x10 + hex_val(s[i + 5]);
                        if 0xD800 <= code < 0xE000 {
                            None
                        } else {
                            match spec_parse_string(s, i + 6) {
                                None => None,
                                Some((rest, j)) => Some((seq![code as char] + rest, j)),
                            }
                        }
                    } else {
                        None
                    }
                } else {
                    let dec: Option<char> = if e == '"' {
                        Some('"')
                    } else if e == '\\' {
                        Some('\\')
                    } else if e == '/' {
                        Some('/')
                    } else if e == 'b' {
                        Some('\u{0008}')
                    } else if e == 'f' {
                        Some('\u{000C}')
                    } else if e == 'n' {
                        Some('\n')
                    } else if e == 'r' {
                        Some('\r')
                    } else if e == 't' {
                        Some('\t')
                    } else {
                        None
                    };
                    match dec {
                        None => None,
                        Some(d) => match spec_parse_string(s, i + 2) {
                            None => None,
                            Some((rest, j)) => Some((seq![d] + rest, j)),
                        },
                    }
                }
            }
        } else if (c as u32) < 32 {
            None
        } else {
            match spec_parse_string(s, i + 1) {
                None => None,
                Some((rest, j)) => Some((seq![c] + rest, j)),
            }
        }
    }
}

/// Folds raw members in source order into a key-sorted object, later
/// occurrences of a key overwriting earlier ones.
pub open spec fn spec_build_obj(
    acc: Seq<(Seq<char>, JsonModel)>,
    pairs: Seq<(Seq<char>, JsonModel)>,
) -> Seq<(Seq<char>, JsonModel)>
    decreases pairs.len(),
{
    if pairs.len() == 0 {
        acc
    } else {
        spec_build_obj(spec_obj_upsert(acc, pairs[0].0, pairs[0].1), pairs.drop_first())
    }
}

/// Parses one JSON value, leading whitespace allowed, returning it and
/// the index just after it.
pub open spec fn spec_parse_value(s: Seq<char>, i: int) -> Option<(JsonModel, int)>
    decreases s.len() - i, 0int when 0 <= i <= s.len()
{
    let j = skip_ws(s, i);
    if j < i || j >= s.len() {
        None
    } else {
        let c = s[j];
        if c == 'n' {
            if j + 4 <= s.len() && s[j + 1] == 'u' && s[j + 2] == 'l' && s[j + 3] == 'l' {
                Some((JsonModel::Null, j + 4))
            } else {
                None
            }
        } else if c == 't' {
            if j + 4 <= s.len() && s[j + 1] == 'r' && s[j + 2] == 'u' && s[j + 3] == 'e' {
                Some((JsonModel::Bool(true), j + 4))
            } else {
                None
            }
        } else if c == 'f' {
            if j + 5 <= s.len() && s[j + 1] == 'a' && s[j + 2] == 'l' && s[j + 3] == 's' && s[j
                + 4] == 'e' {
                Some((JsonModel::Bool(false), j + 5))
            } else {
                None
            }
        } else if c == '"' {
            match spec_parse_string(s, j + 1) {
                None => None,
                Some((content, e)) => Some((JsonModel::Str(content), e)),
            }
        } else if c == '-' || is_digit(c) {
            match scan_number(s, j) {
                None => None,
                Some(e) => if j < e <= s.len() {
                    Some((JsonModel::Num(s.subrange(j, e)), e))
                } else {
                    None
                },
            }
        } else if c == '[' {
            let k = skip_ws(s, j + 1);
            if k < j + 1 || k > s.len() {
                None
            } else if k < s.len() && s[k] == ']' {
                Some((JsonModel::Arr(Seq::empty()), k + 1))
            } else {
                match spec_parse_items(s, j + 1) {
                    None => None,
                    Some((elems, e)) => Some((JsonModel::Arr(elems), e)),
                }
            }
        } else if c == '{' {
            let k = skip_ws(s, j + 1);
            if k < j + 1 || k > s.len() {
                None
            } else if k < s.len() && s[k] == '}' {
                Some((JsonModel::Obj(Seq::empty()), k + 1))
            } else {
                match spec_parse_members(s, j + 1) {
                    None => None,
                    Some((pairs, e)) => Some(
                        (JsonModel::Obj(spec_build_obj(Seq::empty(), pairs)), e),
                    ),
                }
            }
        } else {
            None
        }
    }
}

/// Parses the items of a non-empty array from just after `[` or `,`.
pub open spec fn spec_parse_items(s: Seq<char>, i: int) -> Option<(Seq<JsonModel>, int)>
    decreases s.len() - i, 1int when 0 <= i <= s.len()
{
    match spec_parse_value(s, i) {
        None => None,
        Some((v, m)) => if m <= i || m > s.len() {
            None
        } else {
            let k = skip_ws(s, m);
            if k < m || k >= s.len() {
                None
            } else if s[k] == ',' {
                match spec_parse_items(s, k + 1) {
                    None => None,
                    Some((rest, e)) => Some((seq![v] + rest, e)),
                }
            } else if s[k] == ']' {
                Some((seq![v], k + 1))
            } else {
                None
            }
        },
    }
}

/// Parses the members of a non-empty object from just after `{` or `,`,
/// in source order.
pub open spec fn spec_parse_members(s: Seq<char>, i: int) -> Option<
    (Seq<(Seq<char>, JsonModel)>, int),
>
    decreases s.len() - i, 1int when 0 <= i <= s.len()
{
    let k = skip_ws(s, i);
    if k < i || k >= s.len() {
        None
    } else if s[k] != '"' {
        None
    } else {
        match spec_parse_string(s, k + 1) {
            None => None,
            Some((key, m)) => if m <= k + 1 || m > s.len() {
                None
            } else {
                let c = skip_ws(s, m);
                if c < m || c >= s.len() {
                    None
                } else if s[c] != ':' {
                    None
                } else {
                    match spec_parse_value(s, c + 1) {
                        None => None,
                        Some((v, m2)) => if m2 <= c || m2 > s.len() {
                            None
                        } else {
                            let k2 = skip_ws(s, m2);
                            if k2 < m2 || k2 >= s.len() {
                                None
                            } else if s[k2] == ',' {
                                match spec_parse_members(s, k2 + 1) {
                                    None => None,
                                    Some((rest, e)) => Some((seq![(key, v)] + rest, e)),
                                }
                            } else if s[k2] == '}' {
                                Some((seq![(key, v)], k2 + 1))
                            } else {
                                None
                            }
                        },
                    }
                }
            },
        }
    }
}

/// Parses a whole text as one JSON value: one value, surrounded only by
/// whitespace.
pub open spec fn spec_parse_json(s: Seq<char>) -> Option<JsonModel> {
    match spec_parse_value(s, 0) {
        None => None,
        Some((v, e)) => if 0 <= e <= s.len() && skip_ws(s, e) == s.len() {
            Some(v)
        } else {
            None
        },
    }
}


/// Relies on `char::from_u32`: it returns `None` exactly for surrogate
/// values and values above the largest code point, and otherwise the
/// character with the given value.
pub assume_specification[ char::from_u32 ](i: u32) -> (r: Option<char>)
    ensures
        (0xD800 <= i < 0xE000 || i > 0x10FFFF) ==> r is None,
        !(0xD800 <= i < 0xE000 || i > 0x10FFFF) ==> r == Some(i as char),
;

/// The first non-whitespace index at or after `i`.
fn skip_ws_exec(v: &Vec<char>, i: usize) -> (r: usize)
    requires
        i <= v@.len(),
    ensures
        r == skip_ws(v@, i as int),
        i <= r <= v@.len(),
{
    proof {
        lemma_skip_ws(v@, i as int);
    }
    let mut j: usize = i;
    while j < v.len() && (v[j] == ' ' || v[j] == '\t' || v[j] == '\n' || v[j] == '\r')
        invariant
            i <= j <= v@.len(),
            skip_ws(v@, i as int) == skip_ws(v@, j as int),
        decreases v@.len() - j,
    {
        j = j + 1;
    }
    proof {
        lemma_skip_ws(v@, j as int);
    }
    j
}

fn is_hex_exec(c: char) -> (r: bool)
    ensures
        r == is_hex(c),
{
    let u = c as u32;
    ('0' as u32 <= u && u <= '9' as u32) || ('a' as u32 <= u && u <= 'f' as u32) || ('A' as u32
        <= u && u <= 'F' as u32)
}

fn hex_val_exec(c: char) -> (r: u32)
    requires
        is_hex(c),
    ensures
        r == hex_val(c),
        r < 16,
{
    let u = c as u32;
    if '0' as u32 <= u && u <= '9' as u32 {
        u - '0' as u32
    } else if 'a' as u32 <= u && u <= 'f' as u32 {
        u - 'a' as u32 + 10
    } else {
        u - 'A' as u32 + 10
    }
}

/// Parses a string body; mirrors [`spec_parse_string`].
fn parse_string_exec(v: &Vec<char>, i: usize) -> (r: Option<(Vec<char>, usize)>)
    requires
        i <= v@.len(),
    ensures
        match r {
            Some((content, e)) => spec_parse_string(v@, i as int) == Some((content@, e as int))
                && i < e <= v@.len(),
            None => spec_parse_string(v@, i as int) is None,
        },
    decreases v@.len() - i,
{
    if i >= v.len() {
        return None;
    }
    let c = v[i];
    if c == '"' {
        let content: Vec<char> = Vec::new();
        proof {
            assert(content@ =~= Seq::<char>::empty());
        }
        return Some((content, i + 1));
    }
    if c == '\\' {
        if v.len() - i < 2 {
            return None;
        }
        let e = v[i + 1];
        if e == 'u' {
            if v.len() - i >= 6 && is_hex_exec(v[i + 2]) && is_hex_exec(v[i + 3]) && is_hex_exec(
                v[i + 4],
            ) && is_hex_exec(v[i + 5]) {
                let code = hex_val_exec(v[i + 2]) * 0x1000 + hex_val_exec(v[i + 3]) * 0x100
                    + hex_val_exec(v[i + 4]) * 0x10 + hex_val_exec(v[i + 5]);
                if 0xD800 <= code && code < 0xE000 {
                    return None;
                }
                let d = match char::from_u32(code) {
                    Some(d) => d,
                    None => {
                        proof {
                            assert(code <= 0xFFFF);
                        }
                        return None;
                    },
                };
                match parse_string_exec(v, i + 6) {
                    None => None,
                    Some((mut rest, j)) => {
                        rest.insert(0, d);
                        proof {
                            assert(rest@ =~= seq![(code as char)] + rest@.drop_first());
                        }
                        Some((rest, j))
                    },
                }
            } else {
                None
            }
        } else {
            let dec: Option<char> = if e == '"' {
                Some('"')
            } else if e == '\\' {
                Some('\\')
            } else if e == '/' {
                Some('/')
            } else if e == 'b' {
                Some('\u{0008}')
            } else if e == 'f' {
                Some('\u{000C}')
            } else if e == 'n' {
                Some('\n')
            } else if e == 'r' {
                Some('\r')
            } else if e == 't' {
                Some('\t')
            } else {
                None
            };
            match dec {
                None => None,
                Some(d) => match parse_string_exec(v, i + 2) {
                    None => None,
                    Some((mut rest, j)) => {
                        rest.insert(0, d);
                        proof {
                            assert(rest@ =~= seq![d] + rest@.drop_first());
                        }
                        Some((rest, j))
                    },
                },
            }
        }
    } else if (c as u32) < 32 {
        None
    } else {
        match parse_string_exec(v, i + 1) {
            None => None,
            Some((mut rest, j)) => {
                rest.insert(0, c);
                proof {
                    assert(rest@ =~= seq![c] + rest@.drop_first());
                }
                Some((rest, j))
            },
        }
    }
}

/// The first non-digit index at or after `i`.
fn scan_digits_exec(v: &Vec<char>, i: usize) -> (r: usize)
    requires
        i <= v@.len(),
    ensures
        r == scan_digits(v@, i as int),
        i <= r <= v@.len(),
{
    proof {
        lemma_scan_digits(v@, i as int);
    }
    let mut j: usize = i;
    while j < v.len() && '0' as u32 <= v[j] as u32 && v[j] as u32 <= '9' as u32
        invariant
            i <= j <= v@.len(),
            scan_digits(v@, i as int) == scan_digits(v@, j as int),
        decreases v@.len() - j,
    {
        j = j + 1;
    }
    proof {
        lemma_scan_digits(v@, j as int);
    }
    j
}

/// Where a number starting at `i` ends; mirrors [`scan_number`].
fn scan_number_exec(v: &Vec<char>, i: usize) -> (r: Option<usize>)
    requires
        i <= v@.len(),
    ensures
        match r {
            Some(e) => scan_number(v@, i as int) == Some(e as int) && i <= e <= v@.len(),
            None => scan_number(v@, i as int) is None,
        },
{
    let j: usize = if i < v.len() && v[i] == '-' {
        i + 1
    } else {
        i
    };
    if !(j < v.len() && '0' as u32 <= v[j] as u32 && v[j] as u32 <= '9' as u32) {
        return None;
    }
    let k: usize = if v[j] == '0' {
        j + 1
    } else {
        scan_digits_exec(v, j)
    };
    let after_frac: Option<usize> = if k < v.len() && v[k] == '.' {
        if k + 1 < v.len() && '0' as u32 <= v[k + 1] as u32 && v[k + 1] as u32 <= '9' as u32 {
            Some(scan_digits_exec(v, k + 1))
        } else {
            None
        }
    } else {
        Some(k)
    };
    let m = match after_frac {
        None => {
            return None;
        },
        Some(m) => m,
    };
    if m < v.len() && (v[m] == 'e' || v[m] == 'E') {
        let p: usize = if m + 1 < v.len() && (v[m + 1] == '+' || v[m + 1] == '-') {
            m + 2
        } else {
            m + 1
        };
        if p < v.len() && '0' as u32 <= v[p] as u32 && v[p] as u32 <= '9' as u32 {
            Some(scan_digits_exec(v, p))
        } else {
            None
        }
    } else {
        Some(m)
    }
}


/// Folds raw members into a sorted object; mirrors [`spec_build_obj`].
fn build_obj_exec(raw: Vec<(String, JsonValue)>) -> (r: Vec<(String, JsonValue)>)
    ensures
        obj_view(r@) == spec_build_obj(Seq::empty(), obj_view(raw@)),
{
    let ghost orig = obj_view(raw@);
    let mut rest = raw;
    let mut acc: Vec<(String, JsonValue)> = Vec::new();
    proof {
        assert(obj_view(acc@) =~= Seq::<(Seq<char>, JsonModel)>::empty());
    }
    while rest.len() > 0
        invariant
            spec_build_obj(obj_view(acc@), obj_view(rest@)) == spec_build_obj(
                Seq::empty(),
                orig,
            ),
        decreases rest@.len(),
    {
        let ghost pre_acc = obj_view(acc@);
        let ghost pre_rest = obj_view(rest@);
        proof {
            lemma_obj_view(rest@);
        }
        let (k, v) = rest.remove(0);
        let ghost kv = (k@, json_view(v));
        upsert_pairs(&mut acc, k, v);
        proof {
            lemma_obj_view(rest@);
            assert(pre_rest[0] == kv);
            assert(obj_view(rest@) =~= pre_rest.drop_first());
            assert(obj_view(acc@) == spec_obj_upsert(pre_acc, kv.0, kv.1));
            assert(spec_build_obj(pre_acc, pre_rest) == spec_build_obj(
                spec_obj_upsert(pre_acc, kv.0, kv.1),
                pre_rest.drop_first(),
            ));
        }
    }
    proof {
        assert(obj_view(rest@) =~= Seq::<(Seq<char>, JsonModel)>::empty());
    }
    acc
}

/// Copies `v[from..to]` into a fresh vector.
pub fn copy_range_pub(v: &Vec<char>, from: usize, to: usize) -> (r: Vec<char>)
    requires
        from <= to <= v@.len(),
    ensures
        r@ == v@.subrange(from as int, to as int),
{
    let mut r: Vec<char> = Vec::new();
    let mut i: usize = from;
    while i < to
        invariant
            from <= i <= to <= v@.len(),
            r@ == v@.subrange(from as int, i as int),
        decreases to - i,
    {
        r.push(v[i]);
        assert(r@ =~= v@.subrange(from as int, i as int + 1));
        i = i + 1;
    }
    r
}

/// Parses one value; mirrors [`spec_parse_value`].
fn parse_value_exec(v: &Vec<char>, i: usize) -> (r: Option<(JsonValue, usize)>)
    requires
        i <= v@.len(),
    ensures
        match r {
            Some((val, e)) => spec_parse_value(v@, i as int) == Some((val@, e as int)) && i < e
                <= v@.len(),
            None => spec_parse_value(v@, i as int) is None,
        },
    decreases v@.len() - i, 0int,
{
    let j = skip_ws_exec(v, i);
    if j >= v.len() {
        return None;
    }
    let c = v[j];
    if c == 'n' {
        if v.len() - j >= 4 && v[j + 1] == 'u' && v[j + 2] == 'l' && v[j + 3] == 'l' {
            Some((JsonValue::Null, j + 4))
        } else {
            None
        }
    } else if c == 't' {
        if v.len() - j >= 4 && v[j + 1] == 'r' && v[j + 2] == 'u' && v[j + 3] == 'e' {
            Some((JsonValue::Bool(true), j + 4))
        } else {
            None
        }
    } else if c == 'f' {
        if v.len() - j >= 5 && v[j + 1] == 'a' && v[j + 2] == 'l' && v[j + 3] == 's' && v[j + 4]
            == 'e' {
            Some((JsonValue::Bool(false), j + 5))
        } else {
            None
        }
    } else if c == '"' {
        match parse_string_exec(v, j + 1) {
            None => None,
            Some((content, e)) => Some((JsonValue::Str(crate::chars::chars_string(&content)), e)),
        }
    } else if c == '-' || ('0' as u32 <= c as u32 && c as u32 <= '9' as u32) {
        match scan_number_exec(v, j) {
            None => None,
            Some(e) => if j < e {
                let lex = copy_range_pub(v, j, e);
                Some((JsonValue::Num(crate::chars::chars_string(&lex)), e))
            } else {
                None
            },
        }
    } else if c == '[' {
        let k = skip_ws_exec(v, j + 1);
        if k < v.len() && v[k] == ']' {
            let elems: Vec<JsonValue> = Vec::new();
            proof {
                assert(arr_view(elems@) =~= Seq::<JsonModel>::empty());
            }
            Some((JsonValue::Arr(elems), k + 1))
        } else {
            match parse_items_exec(v, j + 1) {
                None => None,
                Some((elems, e)) => Some((JsonValue::Arr(elems), e)),
            }
        }
    } else if c == '{' {
        let k = skip_ws_exec(v, j + 1);
        if k < v.len() && v[k] == '}' {
            let pairs: Vec<(String, JsonValue)> = Vec::new();
            proof {
                assert(obj_view(pairs@) =~= Seq::<(Seq<char>, JsonModel)>::empty());
            }
            Some((JsonValue::Obj(pairs), k + 1))
        } else {
            match parse_members_exec(v, j + 1) {
                None => None,
                Some((raw, e)) => {
                    let sorted = build_obj_exec(raw);
                    Some((JsonValue::Obj(sorted), e))
                },
            }
        }
    } else {
        None
    }
}

/// Parses array items; mirrors [`spec_parse_items`].
fn parse_items_exec(v: &Vec<char>, i: usize) -> (r: Option<(Vec<JsonValue>, usize)>)
    requires
        i <= v@.len(),
    ensures
        match r {
            Some((elems, e)) => spec_parse_items(v@, i as int) == Some((arr_view(elems@), e as int))
                && i < e <= v@.len(),
            None => spec_parse_items(v@, i as int) is None,
        },
    decreases v@.len() - i, 1int,
{
    match parse_value_exec(v, i) {
        None => None,
        Some((val, m)) => {
            let k = skip_ws_exec(v, m);
            if k >= v.len() {
                return None;
            }
            if v[k] == ',' {
                match parse_items_exec(v, k + 1) {
                    None => None,
                    Some((mut rest, e)) => {
                        let ghost pre = rest@;
                        rest.insert(0, val);
                        proof {
                            assert(rest@.drop_first() =~= pre);
                            assert(rest@[0] == val);
                            assert(arr_view(rest@) == seq![json_view(val)] + arr_view(pre));
                        }
                        Some((rest, e))
                    },
                }
            } else if v[k] == ']' {
                let mut elems: Vec<JsonValue> = Vec::new();
                elems.push(val);
                proof {
                    assert(elems@.drop_first() =~= Seq::<JsonValue>::empty());
                    assert(arr_view(elems@.drop_first()) == Seq::<JsonModel>::empty());
                    assert(arr_view(elems@) =~= seq![json_view(val)]);
                }
                Some((elems, k + 1))
            } else {
                None
            }
        },
    }
}

/// Parses object members in source order; mirrors [`spec_parse_members`].
fn parse_members_exec(v: &Vec<char>, i: usize) -> (r: Option<(Vec<(String, JsonValue)>, usize)>)
    requires
        i <= v@.len(),
    ensures
        match r {
            Some((pairs, e)) => spec_parse_members(v@, i as int) == Some(
                (obj_view(pairs@), e as int),
            ) && i < e <= v@.len(),
            None => spec_parse_members(v@, i as int) is None,
        },
    decreases v@.len() - i, 1int,
{
    let k = skip_ws_exec(v, i);
    if k >= v.len() {
        return None;
    }
    if v[k] != '"' {
        return None;
    }
    match parse_string_exec(v, k + 1) {
        None => None,
        Some((key, m)) => {
            let c = skip_ws_exec(v, m);
            if c >= v.len() {
                return None;
            }
            if v[c] != ':' {
                return None;
            }
            match parse_value_exec(v, c + 1) {
                None => None,
                Some((val, m2)) => {
                    let k2 = skip_ws_exec(v, m2);
                    if k2 >= v.len() {
                        return None;
                    }
                    let keystr = crate::chars::chars_string(&key);
                    if v[k2] == ',' {
                        match parse_members_exec(v, k2 + 1) {
                            None => None,
                            Some((mut rest, e)) => {
                                let ghost pre = rest@;
                                rest.insert(0, (keystr, val));
                                proof {
                                    assert(rest@.drop_first() =~= pre);
                                    assert(rest@[0] == (keystr, val));
                                    assert(obj_view(rest@) == seq![(keystr@, json_view(val))]
                                        + obj_view(pre));
                                }
                                Some((rest, e))
                            },
                        }
                    } else if v[k2] == '}' {
                        let mut pairs: Vec<(String, JsonValue)> = Vec::new();
                        pairs.push((keystr, val));
                        proof {
                            assert(pairs@.drop_first() =~= Seq::<(String, JsonValue)>::empty());
                            assert(obj_view(pairs@.drop_first()) == Seq::<(
                                Seq<char>,
                                JsonModel,
                            )>::empty());
                            assert(obj_view(pairs@) =~= seq![(keystr@, json_view(val))]);
                        }
                        Some((pairs, k2 + 1))
                    } else {
                        None
                    }
                },
            }
        },
    }
}

/// Parses a whole text as one JSON value, or returns `None` when the text
/// is not JSON in this grammar.
pub fn parse_json(s: &str) -> (r: Option<JsonValue>)
    ensures
        match r {
            Some(val) => spec_parse_json(s@) == Some(val@),
            None => spec_parse_json(s@) is None,
        },
{
    let v = crate::chars::str_chars(s);
    match parse_value_exec(&v, 0) {
        None => None,
        Some((val, e)) => {
            let k = skip_ws_exec(&v, e);
            if k == v.len() {
                Some(val)
            } else {
                None
            }
        },
    }
}


impl JsonValue {
    /// Looks a key up in an object; `None` on non-objects.
    pub fn obj_get(&self, key: &str) -> (r: Option<&JsonValue>)
        ensures
            self@ matches JsonModel::Obj(pairs) ==> match r {
                Some(v) => spec_obj_get(pairs, key@) == Some(v@),
                None => spec_obj_get(pairs, key@) is None,
            },
            !(self@ is Obj) ==> r is None,
    {
        match self {
            JsonValue::Obj(o) => {
                proof {
                    assert(self@ == JsonModel::Obj(obj_view(o@)));
                    lemma_obj_view(o@);
                    assert(obj_view(o@).skip(0) =~= obj_view(o@));
                }
                let mut i: usize = 0;
                while i < o.len()
                    invariant
                        i <= o@.len(),
                        self@ == JsonModel::Obj(obj_view(o@)),
                        spec_obj_get(obj_view(o@), key@) == spec_obj_get(
                            obj_view(o@).skip(i as int),
                            key@,
                        ),
                    decreases o@.len() - i,
                {
                    let ghost ov = obj_view(o@);
                    proof {
                        lemma_obj_view(o@);
                        assert(ov.skip(i as int)[0] == ov[i as int]);
                        assert(ov.skip(i as int).drop_first() =~= ov.skip(i as int + 1));
                    }
                    if crate::chars::str_eq(o[i].0.as_str(), key) {
                        return Some(&o[i].1);
                    }
                    i = i + 1;
                }
                proof {
                    assert(obj_view(o@).skip(o@.len() as int) =~= Seq::<(
                        Seq<char>,
                        JsonModel,
                    )>::empty());
                }
                None
            },
            _ => None,
        }
    }
}


/// `str_lt` is transitive.
pub proof fn lemma_str_lt_trans(a: Seq<char>, b: Seq<char>, c: Seq<char>)
    requires
        str_lt(a, b),
        str_lt(b, c),
    ensures
        str_lt(a, c),
    decreases a.len() + b.len() + c.len(),
{
    if a.len() != 0 && b.len() != 0 && c.len() != 0 {
        if a[0] == b[0] && b[0] == c[0] {
            lemma_str_lt_trans(a.drop_first(), b.drop_first(), c.drop_first());
        }
    }
}

/// Every key of an upsert's result is the inserted key or one already
/// present.
proof fn lemma_upsert_keys(
    pairs: Seq<(Seq<char>, JsonModel)>,
    k: Seq<char>,
    v: JsonModel,
    i: int,
)
    requires
        0 <= i < spec_obj_upsert(pairs, k, v).len(),
    ensures
        spec_obj_upsert(pairs, k, v)[i].0 == k || exists|j: int|
            0 <= j < pairs.len() && pairs[j].0 == #[trigger] spec_obj_upsert(pairs, k, v)[i].0,
    decreases pairs.len(),
{
    let up = spec_obj_upsert(pairs, k, v);
    if pairs.len() == 0 {
        assert(up[0] == (k, v));
    } else if k == pairs[0].0 {
        assert(up[0] == (k, v));
        if i > 0 {
            assert(up[i] == pairs.drop_first()[i - 1]);
            assert(pairs[i] == up[i]);
        }
    } else if str_lt(k, pairs[0].0) {
        assert(up[0] == (k, v));
        if i > 0 {
            assert(up[i] == pairs[i - 1]);
        }
    } else {
        assert(up[0] == pairs[0]);
        if i > 0 {
            assert(up[i] == spec_obj_upsert(pairs.drop_first(), k, v)[i - 1]);
            lemma_upsert_keys(pairs.drop_first(), k, v, i - 1);
            if up[i].0 != k {
                let j = choose|j: int|
                    0 <= j < pairs.drop_first().len() && pairs.drop_first()[j].0 == spec_obj_upsert(
                        pairs.drop_first(),
                        k,
                        v,
                    )[i - 1].0;
                assert(pairs[j + 1].0 == up[i].0);
            }
        }
    }
}

/// Upserting keeps the pairs strictly sorted by key.
pub proof fn lemma_obj_upsert_sorted(pairs: Seq<(Seq<char>, JsonModel)>, k: Seq<char>, v: JsonModel)
    requires
        obj_sorted(pairs),
    ensures
        obj_sorted(spec_obj_upsert(pairs, k, v)),
    decreases pairs.len(),
{
    let up = spec_obj_upsert(pairs, k, v);
    if pairs.len() == 0 {
    } else if k == pairs[0].0 {
        assert(up[0] == (k, v));
        assert(forall|i: int| 1 <= i < up.len() ==> up[i] == pairs[i]);
        assert forall|i: int, j: int| 0 <= i < j < up.len() implies str_lt(
            up[i].0,
            up[j].0,
        ) by {
            if i == 0 {
                assert(str_lt(pairs[0].0, pairs[j].0));
            }
        }
    } else if str_lt(k, pairs[0].0) {
        assert(up[0] == (k, v));
        assert(forall|i: int| 1 <= i < up.len() ==> up[i] == pairs[i - 1]);
        assert forall|i: int, j: int| 0 <= i < j < up.len() implies str_lt(
            up[i].0,
            up[j].0,
        ) by {
            if i == 0 {
                if j > 1 {
                    assert(str_lt(pairs[0].0, pairs[j - 1].0));
                    lemma_str_lt_trans(k, pairs[0].0, pairs[j - 1].0);
                }
            }
        }
    } else {
        lemma_str_lt_trichotomy(k, pairs[0].0);
        assert(str_lt(pairs[0].0, k));
        assert(obj_sorted(pairs.drop_first())) by {
            assert(forall|i: int|
                0 <= i < pairs.drop_first().len() ==> pairs.drop_first()[i] == pairs[i + 1]);
        }
        lemma_obj_upsert_sorted(pairs.drop_first(), k, v);
        let rest = spec_obj_upsert(pairs.drop_first(), k, v);
        assert(up[0] == pairs[0]);
        assert(forall|i: int| 1 <= i < up.len() ==> up[i] == rest[i - 1]);
        assert forall|i: int, j: int| 0 <= i < j < up.len() implies str_lt(
            up[i].0,
            up[j].0,
        ) by {
            if i == 0 {
                lemma_upsert_keys(pairs.drop_first(), k, v, j - 1);
                if rest[j - 1].0 == k {
                    assert(str_lt(pairs[0].0, k));
                } else {
                    let t = choose|t: int|
                        0 <= t < pairs.drop_first().len() && pairs.drop_first()[t].0 == rest[j
                            - 1].0;
                    assert(pairs[t + 1].0 == rest[j - 1].0);
                    assert(str_lt(pairs[0].0, pairs[t + 1].0));
                }
            } else {
                assert(str_lt(rest[i - 1].0, rest[j - 1].0));
            }
        }
    }
}

} // verus!
