//! Run-time `key=value` override arguments.
//!
//! One argument names either a query parameter (no prefix, leading letter),
//! a header (`%` prefix) or a body field (`@` prefix), and carries a key and
//! a value separated by the first `=`.

use vstd::prelude::*;

use crate::Error;

verus! {

/// What part of a request an override targets.
#[derive(Debug, Clone, Copy, PartialEq, Eq, Structural)]
pub enum KeyValType {
    /// No prefix: the override upserts a query parameter.
    Query,
    /// `%` prefix: the override upserts a header.
    Header,
    /// `@` prefix: the override upserts a body field.
    Body,
}

/// One parsed override argument.
#[derive(Debug, Clone, PartialEq, Eq)]
pub struct KeyVal {
    pub kv_type: KeyValType,
    pub key: String,
    pub val: String,
}

/// The mathematical content of a [`KeyVal`].
pub struct KeyValModel {
    pub kv_type: KeyValType,
    pub key: Seq<char>,
    pub val: Seq<char>,
}

impl View for KeyVal {
    type V = KeyValModel;

    open spec fn view(&self) -> KeyValModel {
        KeyValModel { kv_type: self.kv_type, key: self.key@, val: self.val@ }
    }
}

impl KeyVal {
    /// Bundles a target, key and value into one override.
    pub fn new(kv_type: KeyValType, key: String, val: String) -> (r: Self)
        ensures
            r@.kv_type == kv_type,
            r@.key == key@,
            r@.val == val@,
    {
        Self { kv_type, key, val }
    }
}

/// True for an ASCII letter.
pub open spec fn spec_is_alpha(c: char) -> bool {
    ('A' as u32 <= c as u32 && c as u32 <= 'Z' as u32) || ('a' as u32 <= c as u32 && c as u32
        <= 'z' as u32)
}

/// The index of the first occurrence of `c` in `s`, or `-1` when absent.
pub open spec fn spec_find_char(s: Seq<char>, c: char) -> int
    decreases s.len(),
{
    if s.len() == 0 {
        -1
    } else if s[0] == c {
        0
    } else {
        let r = spec_find_char(s.drop_first(), c);
        if r < 0 {
            -1
        } else {
            r + 1
        }
    }
}

pub proof fn lemma_find_char(s: Seq<char>, c: char)
    ensures
        spec_find_char(s, c) >= 0 ==> {
            &&& spec_find_char(s, c) < s.len()
            &&& s[spec_find_char(s, c)] == c
            &&& forall|j: int| 0 <= j < spec_find_char(s, c) ==> s[j] != c
        },
        spec_find_char(s, c) < 0 ==> forall|j: int| 0 <= j < s.len() ==> s[j] != c,
    decreases s.len(),
{
    if s.len() != 0 && s[0] != c {
        lemma_find_char(s.drop_first(), c);
        assert(forall|j: int| 1 <= j < s.len() ==> s[j] == s.drop_first()[j - 1]);
    }
}

/// What [`parse_key_val`] returns: the override grammar, stated once.
///
/// An empty argument, an argument whose first character is neither a letter
/// nor a recognized prefix, and an argument without `=` after the prefix all
/// fail; otherwise the text before the first `=` is the key and the rest is
/// the value.
pub open spec fn spec_parse_key_val(s: Seq<char>) -> Option<KeyValModel> {
    if s.len() == 0 {
        None
    } else {
        let kv_type = if s[0] == '%' {
            KeyValType::Header
        } else if s[0] == '@' {
            KeyValType::Body
        } else {
            KeyValType::Query
        };
        let rest = if s[0] == '%' || s[0] == '@' {
            s.drop_first()
        } else {
            s
        };
        if s[0] != '%' && s[0] != '@' && !spec_is_alpha(s[0]) {
            None
        } else {
            let i = spec_find_char(rest, '=');
            if i < 0 {
                None
            } else {
                Some(
                    KeyValModel {
                        kv_type,
                        key: rest.take(i),
                        val: rest.skip(i + 1),
                    },
                )
            }
        }
    }
}

/// The index of the first `=` in `v`, if any.
fn find_eq(v: &Vec<char>, from: usize) -> (r: Option<usize>)
    requires
        from <= v@.len(),
    ensures
        match r {
            Some(i) => from <= i < v@.len() && spec_find_char(v@.skip(from as int), '=') == i - from,
            None => spec_find_char(v@.skip(from as int), '=') < 0,
        },
{
    let mut i: usize = from;
    while i < v.len()
        invariant
            from <= i <= v@.len(),
            forall|j: int| from <= j < i ==> v@[j] != '=',
        decreases v@.len() - i,
    {
        if v[i] == '=' {
            proof {
                lemma_find_char_at_pub(v@.skip(from as int), '=', i - from);
            }
            return Some(i);
        }
        i = i + 1;
    }
    proof {
        lemma_find_char(v@.skip(from as int), '=');
        if spec_find_char(v@.skip(from as int), '=') >= 0 {
            let k = spec_find_char(v@.skip(from as int), '=');
            assert(v@[from + k] == '=');
        }
    }
    None
}

pub proof fn lemma_find_char_at_pub(s: Seq<char>, c: char, i: int)
    requires
        0 <= i < s.len(),
        s[i] == c,
        forall|j: int| 0 <= j < i ==> s[j] != c,
    ensures
        spec_find_char(s, c) == i,
    decreases s.len(),
{
    if i > 0 {
        lemma_find_char_at_pub(s.drop_first(), c, i - 1);
    }
}

/// Parses one override argument.
///
/// Succeeds exactly on the arguments [`spec_parse_key_val`] accepts, and
/// returns [`Error::InvalidOverrideSyntax`] on every other argument.
pub fn parse_key_val(s: &str) -> (r: Result<KeyVal, Error>)
    ensures
        match r {
            Ok(kv) => spec_parse_key_val(s@) == Some(kv@),
            Err(e) => spec_parse_key_val(s@) is None && e == Error::InvalidOverrideSyntax,
        },
{
    let v = crate::chars::str_chars(s);
    if v.len() == 0 {
        return Err(Error::InvalidOverrideSyntax);
    }
    let c0 = v[0];
    let (kv_type, start): (KeyValType, usize) = if c0 == '%' {
        (KeyValType::Header, 1)
    } else if c0 == '@' {
        (KeyValType::Body, 1)
    } else if (c0 as u32 >= 'A' as u32 && c0 as u32 <= 'Z' as u32) || (c0 as u32 >= 'a' as u32
        && c0 as u32 <= 'z' as u32) {
        (KeyValType::Query, 0)
    } else {
        proof {
            assert(c0 == s@[0]);
            assert(!spec_is_alpha(s@[0]));
            assert(s@[0] != '%');
            assert(s@[0] != '@');
            assert(s@.len() != 0);
            assert(spec_parse_key_val(s@) is None);
        }
        return Err(Error::InvalidOverrideSyntax);
    };
    let eq = match find_eq(&v, start) {
        Some(i) => i,
        None => {
            proof {
                let rest = if s@[0] == '%' || s@[0] == '@' {
                    s@.drop_first()
                } else {
                    s@
                };
                assert(rest =~= s@.skip(start as int));
                assert(spec_find_char(rest, '=') < 0);
            }
            return Err(Error::InvalidOverrideSyntax);
        },
    };
    let mut key: Vec<char> = Vec::new();
    let mut i: usize = start;
    while i < eq
        invariant
            start <= i <= eq,
            eq < v@.len(),
            key@ == v@.subrange(start as int, i as int),
        decreases eq - i,
    {
        key.push(v[i]);
        assert(key@ =~= v@.subrange(start as int, i as int + 1));
        i = i + 1;
    }
    let mut val: Vec<char> = Vec::new();
    let mut j: usize = eq + 1;
    while j < v.len()
        invariant
            eq + 1 <= j <= v@.len(),
            val@ == v@.subrange(eq as int + 1, j as int),
        decreases v@.len() - j,
    {
        val.push(v[j]);
        assert(val@ =~= v@.subrange(eq as int + 1, j as int + 1));
        j = j + 1;
    }
    let kv = KeyVal {
        kv_type,
        key: crate::chars::chars_string(&key),
        val: crate::chars::chars_string(&val),
    };
    proof {
        let rest = if s@[0] == '%' || s@[0] == '@' {
            s@.drop_first()
        } else {
            s@
        };
        assert(rest =~= s@.skip(start as int));
        assert(spec_find_char(rest, '=') == eq - start);
        assert(key@ =~= rest.take(eq - start));
        assert(val@ =~= rest.skip(eq - start + 1));
        assert(spec_parse_key_val(s@) == Some(kv@));
    }
    Ok(kv)
}

} // verus!
