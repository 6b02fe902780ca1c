//! The diff engine.
//!
//! Two canonical texts are split into lines (each keeping its newline),
//! a line-level Myers diff is computed, the operations are grouped into
//! hunks with up to three context lines on each side, and the hunks are
//! rendered with old/new line-number columns and a `-`/`+`/space sign.
//! Within a replaced run, a word-level diff marks the emphasized spans
//! for the presentation layer.

use vstd::prelude::*;

use crate::chars::{push_all, push_str_chars, spec_decimal, str_chars};
use crate::resp::{lemma_strs_view, strs_view};

verus! {

/// One line-level diff operation, as the diff algorithm reports it.
#[derive(Debug, Clone, Copy, PartialEq, Eq, Structural)]
pub enum LineOp {
    /// `len` lines equal on both sides.
    Equal { old_index: usize, new_index: usize, len: usize },
    /// `old_len` lines present only on the old side.
    Delete { old_index: usize, old_len: usize, new_index: usize },
    /// `new_len` lines present only on the new side.
    Insert { old_index: usize, new_index: usize, new_len: usize },
    /// `old_len` old lines replaced by `new_len` new lines.
    Replace { old_index: usize, old_len: usize, new_index: usize, new_len: usize },
}

/// The operations from position `(i, j)` on are contiguous, stay in
/// bounds, end at both ends, and `Equal` segments really are equal.
pub open spec fn ops_valid_from(
    ops: Seq<LineOp>,
    old: Seq<Seq<char>>,
    new: Seq<Seq<char>>,
    i: int,
    j: int,
) -> bool
    decreases ops.len(),
{
    if ops.len() == 0 {
        i == old.len() && j == new.len()
    } else {
        match ops[0] {
            LineOp::Equal { old_index, new_index, len } => {
                &&& old_index == i
                &&& new_index == j
                &&& i + len <= old.len()
                &&& j + len <= new.len()
                &&& (forall|k: int| 0 <= k < len ==> #[trigger] old[i + k] == new[j + k])
                &&& ops_valid_from(ops.drop_first(), old, new, i + len, j + len)
            },
            LineOp::Delete { old_index, old_len, new_index } => {
                &&& old_index == i
                &&& new_index == j
                &&& i + old_len <= old.len()
                &&& ops_valid_from(ops.drop_first(), old, new, i + old_len, j)
            },
            LineOp::Insert { old_index, new_index, new_len } => {
                &&& old_index == i
                &&& new_index == j
                &&& j + new_len <= new.len()
                &&& ops_valid_from(ops.drop_first(), old, new, i, j + new_len)
            },
            LineOp::Replace { old_index, old_len, new_index, new_len } => {
                &&& old_index == i
                &&& new_index == j
                &&& i + old_len <= old.len()
                &&& j + new_len <= new.len()
                &&& ops_valid_from(ops.drop_first(), old, new, i + old_len, j + new_len)
            },
        }
    }
}

/// The whole operation list is a valid edit script from old to new.
pub open spec fn is_edit_script(ops: Seq<LineOp>, old: Seq<Seq<char>>, new: Seq<Seq<char>>) -> bool {
    ops_valid_from(ops, old, new, 0, 0)
}

/// What the Myers diff of two token sequences returns.  The result
/// depends on the tokens alone.
pub uninterp spec fn myers_diff_of(old: Seq<Seq<char>>, new: Seq<Seq<char>>) -> Seq<LineOp>;

/// Relies on `similar::capture_diff_slices` with the Myers algorithm:
/// the returned operations are a contiguous edit script that transforms
/// the old tokens into the new tokens, with equal segments marked equal,
/// as the `DiffOp` documentation states.
#[verifier::external_body]
fn diff_slices(old: &Vec<String>, new: &Vec<String>) -> (r: Vec<LineOp>)
    ensures
        r@ == myers_diff_of(strs_view(old@), strs_view(new@)),
        is_edit_script(r@, strs_view(old@), strs_view(new@)),
{
    let ops = similar::capture_diff_slices(similar::Algorithm::Myers, old.as_slice(), new.as_slice());
    ops.iter().map(|op| {
        let (t, o, n) = op.as_tag_tuple();
        match t {
            similar::DiffTag::Equal => LineOp::Equal { old_index: o.start, new_index: n.start, len: o.len() },
            similar::DiffTag::Delete => LineOp::Delete { old_index: o.start, old_len: o.len(), new_index: n.start },
            similar::DiffTag::Insert => LineOp::Insert { old_index: o.start, new_index: n.start, new_len: n.len() },
            similar::DiffTag::Replace => LineOp::Replace { old_index: o.start, old_len: o.len(), new_index: n.start, new_len: n.len() },
        }
    }).collect()
}

/// The lines of a text, each keeping its `\n`; the last line may lack
/// one; an empty text has no lines.
pub open spec fn spec_split_lines(s: Seq<char>) -> Seq<Seq<char>>
    decreases s.len(),
{
    if s.len() == 0 {
        Seq::empty()
    } else {
        let i = crate::kv::spec_find_char(s, '\n');
        if 0 <= i && i < s.len() {
            seq![s.take(i + 1)] + spec_split_lines(s.skip(i + 1))
        } else {
            seq![s]
        }
    }
}

/// The index of the first `\n` at or after `from`, if any.
fn find_nl(v: &Vec<char>, from: usize) -> (r: Option<usize>)
    requires
        from <= v@.len(),
    ensures
        match r {
            Some(i) => from <= i < v@.len() && crate::kv::spec_find_char(
                v@.skip(from as int),
                '\n',
            ) == i - from,
            None => crate::kv::spec_find_char(v@.skip(from as int), '\n') < 0,
        },
{
    let mut i: usize = from;
    while i < v.len()
        invariant
            from <= i <= v@.len(),
            forall|j: int| from <= j < i ==> v@[j] != '\n',
        decreases v@.len() - i,
    {
        if v[i] == '\n' {
            proof {
                crate::kv::lemma_find_char_at_pub(v@.skip(from as int), '\n', i - from);
            }
            return Some(i);
        }
        i = i + 1;
    }
    proof {
        crate::kv::lemma_find_char(v@.skip(from as int), '\n');
        if crate::kv::spec_find_char(v@.skip(from as int), '\n') >= 0 {
            let k = crate::kv::spec_find_char(v@.skip(from as int), '\n');
            assert(v@[from + k] == '\n');
        }
    }
    None
}

fn split_lines_from(v: &Vec<char>, from: usize, out: &mut Vec<String>)
    requires
        from <= v@.len(),
    ensures
        strs_view(final(out)@) == strs_view(old(out)@) + spec_split_lines(v@.skip(from as int)),
    decreases v@.len() - from,
{
    proof {
        lemma_strs_view(out@);
    }
    if from == v.len() {
        proof {
            assert(v@.skip(from as int) =~= Seq::<char>::empty());
            assert(strs_view(out@) =~= strs_view(out@) + spec_split_lines(v@.skip(from as int)));
        }
        return;
    }
    let ghost pre = out@;
    let ghost rest = v@.skip(from as int);
    match find_nl(v, from) {
        Some(i) => {
            let line = crate::json::copy_range_pub(v, from, i + 1);
            out.push(crate::chars::chars_string(&line));
            proof {
                lemma_strs_view(out@);
                lemma_strs_view(pre);
                assert(strs_view(out@) =~= strs_view(pre).push(line@));
                assert(line@ =~= rest.take(i - from + 1));
            }
            split_lines_from(v, i + 1, out);
            proof {
                assert(v@.skip(i as int + 1) =~= rest.skip(i - from + 1));
                assert(spec_split_lines(rest) == seq![rest.take(i - from + 1)]
                    + spec_split_lines(rest.skip(i - from + 1)));
                assert(strs_view(out@) =~= strs_view(pre) + spec_split_lines(rest));
            }
        },
        None => {
            let line = crate::json::copy_range_pub(v, from, v.len());
            out.push(crate::chars::chars_string(&line));
            proof {
                lemma_strs_view(out@);
                lemma_strs_view(pre);
                assert(line@ =~= rest);
                assert(strs_view(out@) =~= strs_view(pre).push(rest));
                assert(spec_split_lines(rest) == seq![rest]);
                assert(strs_view(out@) =~= strs_view(pre) + spec_split_lines(rest));
            }
        },
    }
}

/// Splits a text into its lines, each keeping its `\n`.
pub fn split_lines(s: &str) -> (r: Vec<String>)
    ensures
        strs_view(r@) == spec_split_lines(s@),
{
    let v = str_chars(s);
    let mut out: Vec<String> = Vec::new();
    proof {
        assert(strs_view(out@) =~= Seq::<Seq<char>>::empty());
        assert(v@.skip(0) =~= v@);
    }
    split_lines_from(&v, 0, &mut out);
    proof {
        assert(strs_view(out@) =~= spec_split_lines(s@));
    }
    out
}


/// The operation's ranges lie inside texts of the given lengths.
pub open spec fn op_in_range(op: LineOp, no: int, nn: int) -> bool {
    match op {
        LineOp::Equal { old_index, new_index, len } => old_index + len <= no && new_index + len
            <= nn,
        LineOp::Delete { old_index, old_len, new_index } => old_index + old_len <= no && new_index
            <= nn,
        LineOp::Insert { old_index, new_index, new_len } => old_index <= no && new_index + new_len
            <= nn,
        LineOp::Replace { old_index, old_len, new_index, new_len } => old_index + old_len <= no
            && new_index + new_len <= nn,
    }
}

/// Every operation lies in range.
pub open spec fn ops_in_range(ops: Seq<LineOp>, no: int, nn: int) -> bool {
    forall|i: int| 0 <= i < ops.len() ==> op_in_range(#[trigger] ops[i], no, nn)
}

/// Every operation of every group lies in range.
pub open spec fn groups_in_range(gs: Seq<Seq<LineOp>>, no: int, nn: int) -> bool {
    forall|i: int| 0 <= i < gs.len() ==> ops_in_range(#[trigger] gs[i], no, nn)
}

/// A valid edit script's operations lie in range.
pub proof fn lemma_edit_script_in_range(
    ops: Seq<LineOp>,
    old: Seq<Seq<char>>,
    new: Seq<Seq<char>>,
    i: int,
    j: int,
)
    requires
        ops_valid_from(ops, old, new, i, j),
        0 <= i,
        0 <= j,
    ensures
        ops_in_range(ops, old.len() as int, new.len() as int),
    decreases ops.len(),
{
    if ops.len() > 0 {
        match ops[0] {
            LineOp::Equal { old_index, new_index, len } => {
                lemma_edit_script_in_range(ops.drop_first(), old, new, i + len, j + len);
            },
            LineOp::Delete { old_index, old_len, new_index } => {
                lemma_edit_script_pos(ops.drop_first(), old, new, i + old_len, j);
                lemma_edit_script_in_range(ops.drop_first(), old, new, i + old_len, j);
            },
            LineOp::Insert { old_index, new_index, new_len } => {
                lemma_edit_script_pos(ops.drop_first(), old, new, i, j + new_len);
                lemma_edit_script_in_range(ops.drop_first(), old, new, i, j + new_len);
            },
            LineOp::Replace { old_index, old_len, new_index, new_len } => {
                lemma_edit_script_in_range(
                    ops.drop_first(),
                    old,
                    new,
                    i + old_len,
                    j + new_len,
                );
            },
        }
        assert(forall|k: int|
            1 <= k < ops.len() ==> ops[k] == ops.drop_first()[k - 1]);
    }
}

/// A valid tail keeps both positions within the texts.
pub proof fn lemma_edit_script_pos(
    ops: Seq<LineOp>,
    old: Seq<Seq<char>>,
    new: Seq<Seq<char>>,
    i: int,
    j: int,
)
    requires
        ops_valid_from(ops, old, new, i, j),
    ensures
        i <= old.len(),
        j <= new.len(),
    decreases ops.len(),
{
    if ops.len() > 0 {
        match ops[0] {
            LineOp::Equal { old_index, new_index, len } => {
                lemma_edit_script_pos(ops.drop_first(), old, new, i + len, j + len);
            },
            LineOp::Delete { old_index, old_len, new_index } => {
                lemma_edit_script_pos(ops.drop_first(), old, new, i + old_len, j);
            },
            LineOp::Insert { old_index, new_index, new_len } => {
                lemma_edit_script_pos(ops.drop_first(), old, new, i, j + new_len);
            },
            LineOp::Replace { old_index, old_len, new_index, new_len } => {
                lemma_edit_script_pos(ops.drop_first(), old, new, i + old_len, j + new_len);
            },
        }
    }
}

/// The first operation with a long leading equal run trimmed to its last
/// `n` lines.
pub open spec fn trim_first(ops: Seq<LineOp>, n: int) -> Seq<LineOp> {
    if ops.len() > 0 {
        match ops[0] {
            LineOp::Equal { old_index, new_index, len } => {
                let off = if len > n {
                    len - n
                } else {
                    0
                };
                ops.update(
                    0,
                    LineOp::Equal {
                        old_index: (old_index + off) as usize,
                        new_index: (new_index + off) as usize,
                        len: (len - off) as usize,
                    },
                )
            },
            _ => ops,
        }
    } else {
        ops
    }
}

/// The last operation with a long trailing equal run trimmed to its
/// first `n` lines.
pub open spec fn trim_last(ops: Seq<LineOp>, n: int) -> Seq<LineOp> {
    if ops.len() > 0 {
        match ops[ops.len() - 1] {
            LineOp::Equal { old_index, new_index, len } => {
                let keep = if len > n {
                    n
                } else {
                    len as int
                };
                ops.update(
                    ops.len() - 1,
                    LineOp::Equal { old_index, new_index, len: keep as usize },
                )
            },
            _ => ops,
        }
    } else {
        ops
    }
}

/// True for a pending group that is discarded: empty, or one equal run.
pub open spec fn pending_discarded(pending: Seq<LineOp>) -> bool {
    pending.len() == 0 || (pending.len() == 1 && pending[0] is Equal)
}

/// Walks the operations, cutting a group whenever an equal run longer
/// than `2 * n` lines separates changes: the run's first `n` lines end
/// the group and its last `n` lines start the next.
pub open spec fn group_loop(
    ops: Seq<LineOp>,
    n: int,
    pending: Seq<LineOp>,
    rv: Seq<Seq<LineOp>>,
) -> Seq<Seq<LineOp>>
    decreases ops.len(),
{
    if ops.len() == 0 {
        if pending_discarded(pending) {
            rv
        } else {
            rv.push(pending)
        }
    } else {
        match ops[0] {
            LineOp::Equal { old_index, new_index, len } => {
                if len > 2 * n {
                    let off = len - n;
                    group_loop(
                        ops.drop_first(),
                        n,
                        seq![
                            LineOp::Equal {
                                old_index: (old_index + off) as usize,
                                new_index: (new_index + off) as usize,
                                len: (len - off) as usize,
                            },
                        ],
                        rv.push(
                            pending.push(LineOp::Equal { old_index, new_index, len: n as usize }),
                        ),
                    )
                } else {
                    group_loop(ops.drop_first(), n, pending.push(ops[0]), rv)
                }
            },
            _ => group_loop(ops.drop_first(), n, pending.push(ops[0]), rv),
        }
    }
}

/// The hunks of an operation list with `n` context lines; an empty list
/// has none.
pub open spec fn spec_group_ops(ops: Seq<LineOp>, n: int) -> Seq<Seq<LineOp>> {
    if ops.len() == 0 {
        Seq::empty()
    } else {
        group_loop(trim_last(trim_first(ops, n), n), n, Seq::empty(), Seq::empty())
    }
}

/// The views of a list of groups.
pub open spec fn groups_view(s: Seq<Vec<LineOp>>) -> Seq<Seq<LineOp>>
    decreases s,
{
    if s.len() == 0 {
        Seq::empty()
    } else {
        seq![s[0]@] + groups_view(s.drop_first())
    }
}

proof fn lemma_groups_view(s: Seq<Vec<LineOp>>)
    ensures
        groups_view(s).len() == s.len(),
        forall|i: int| 0 <= i < s.len() ==> groups_view(s)[i] == s[i]@,
    decreases s,
{
    if s.len() != 0 {
        lemma_groups_view(s.drop_first());
    }
}

/// Groups operations into hunks with `n` context lines; mirrors
/// [`spec_group_ops`].
#[verifier::rlimit(100)]
fn group_ops_exec(ops: &Vec<LineOp>, n: usize, Ghost(no): Ghost<int>, Ghost(nn): Ghost<int>) -> (r:
    Vec<Vec<LineOp>>)
    requires
        n <= 1000,
        no <= usize::MAX,
        nn <= usize::MAX,
        ops_in_range(ops@, no, nn),
    ensures
        groups_view(r@) == spec_group_ops(ops@, n as int),
{
    if ops.len() == 0 {
        let r: Vec<Vec<LineOp>> = Vec::new();
        proof {
            assert(groups_view(r@) =~= Seq::<Seq<LineOp>>::empty());
        }
        return r;
    }
    let mut work: Vec<LineOp> = Vec::new();
    let mut ci: usize = 0;
    while ci < ops.len()
        invariant
            ci <= ops@.len(),
            work@ == ops@.take(ci as int),
        decreases ops@.len() - ci,
    {
        work.push(ops[ci]);
        proof {
            assert(work@ =~= ops@.take(ci as int + 1));
        }
        ci = ci + 1;
    }
    proof {
        assert(work@ =~= ops@);
    }
    match work[0] {
        LineOp::Equal { old_index, new_index, len } => {
            let off: usize = if len > n {
                len - n
            } else {
                0
            };
            proof {
                assert(op_in_range(ops@[0], no, nn));
            }
            let nop = LineOp::Equal {
                old_index: old_index + off,
                new_index: new_index + off,
                len: len - off,
            };
            let _ = work.remove(0);
            work.insert(0, nop);
            proof {
                assert(work@ =~= trim_first(ops@, n as int));
            }
        },
        _ => {
            proof {
                assert(work@ =~= trim_first(ops@, n as int));
            }
        },
    }
    let ghost after_first = work@;
    let last = work.len() - 1;
    match work[last] {
        LineOp::Equal { old_index, new_index, len } => {
            let keep: usize = if len > n {
                n
            } else {
                len
            };
            let nop = LineOp::Equal { old_index, new_index, len: keep };
            let _ = work.remove(last);
            work.insert(last, nop);
            proof {
                assert(work@ =~= trim_last(after_first, n as int));
            }
        },
        _ => {
            proof {
                assert(work@ =~= trim_last(after_first, n as int));
            }
        },
    }
    let ghost trimmed = work@;
    proof {
        assert(ops_in_range(trimmed, no, nn)) by {
            assert(forall|k: int|
                0 <= k < ops@.len() ==> op_in_range(#[trigger] ops@[k], no, nn));
            assert(trimmed.len() == ops@.len());
            assert(forall|k: int|
                0 <= k < trimmed.len() ==> op_in_range(#[trigger] trimmed[k], no, nn)) by {
                assert(forall|k: int|
                    0 <= k < trimmed.len() && trimmed[k] == ops@[k] ==> op_in_range(
                        #[trigger] trimmed[k],
                        no,
                        nn,
                    ));
                assert(op_in_range(trimmed[0], no, nn));
                assert(op_in_range(trimmed[trimmed.len() - 1], no, nn));
            }
        }
    }
    let mut pending: Vec<LineOp> = Vec::new();
    let mut rv: Vec<Vec<LineOp>> = Vec::new();
    let mut i: usize = 0;
    proof {
        lemma_groups_view(rv@);
        assert(groups_view(rv@) =~= Seq::<Seq<LineOp>>::empty());
        assert(trimmed.skip(0) =~= trimmed);
        assert(pending@ =~= Seq::<LineOp>::empty());
    }
    while i < work.len()
        invariant
            i <= work@.len(),
            work@ == trimmed,
            n <= 1000,
            no <= usize::MAX,
            nn <= usize::MAX,
            ops_in_range(trimmed, no, nn),
            group_loop(trimmed, n as int, Seq::empty(), Seq::empty()) == group_loop(
                trimmed.skip(i as int),
                n as int,
                pending@,
                groups_view(rv@),
            ),
        decreases work@.len() - i,
    {
        let ghost pre_pending = pending@;
        let ghost pre_rv = groups_view(rv@);
        proof {
            assert(trimmed.skip(i as int)[0] == trimmed[i as int]);
            assert(trimmed.skip(i as int).drop_first() =~= trimmed.skip(i as int + 1));
        }
        let op = work[i];
        proof {
            assert(op_in_range(trimmed[i as int], no, nn));
        }
        let mut cut = false;
        match op {
            LineOp::Equal { old_index, new_index, len } => {
                if len > 2 * n {
                    cut = true;
                    let off: usize = len - n;
                    pending.push(LineOp::Equal { old_index, new_index, len: n });
                    let ghost rvv = rv@;
                    rv.push(pending);
                    proof {
                        lemma_groups_view(rvv);
                        assert(rv@.take(rv@.len() - 1) =~= rvv);
                    }
                    pending = Vec::new();
                    pending.push(
                        LineOp::Equal {
                            old_index: old_index + off,
                            new_index: new_index + off,
                            len: len - off,
                        },
                    );
                    proof {
                        lemma_groups_view(rv@);
                        assert(groups_view(rv@) =~= pre_rv.push(
                            pre_pending.push(LineOp::Equal { old_index, new_index, len: n }),
                        ));
                        assert(pending@ =~= seq![
                            LineOp::Equal {
                                old_index: (old_index + off) as usize,
                                new_index: (new_index + off) as usize,
                                len: (len - off) as usize,
                            },
                        ]);
                    }
                }
            },
            _ => {
            },
        }
        if !cut {
            pending.push(op);
            proof {
                assert(pending@ =~= pre_pending.push(trimmed[i as int]));
                assert(groups_view(rv@) == pre_rv);
            }
        }
        i = i + 1;
    }
    proof {
        assert(trimmed.skip(trimmed.len() as int) =~= Seq::<LineOp>::empty());
    }
    let mut discard = pending.len() == 0;
    if pending.len() == 1 {
        match pending[0] {
            LineOp::Equal { .. } => {
                discard = true;
            },
            _ => {
            },
        }
    }
    if !discard {
        let ghost pre_rv = groups_view(rv@);
        let ghost pend = pending@;
        let ghost rvv = rv@;
        rv.push(pending);
        proof {
            lemma_groups_view(rv@);
            lemma_groups_view(rvv);
            assert(groups_view(rv@) =~= pre_rv.push(pend));
        }
    }
    rv
}


/// `n` spaces.
pub open spec fn spaces(n: int) -> Seq<char>
    decreases n,
{
    if n <= 0 {
        Seq::empty()
    } else {
        seq![' '] + spaces(n - 1)
    }
}

/// `n` dashes.
pub open spec fn dashes(n: int) -> Seq<char>
    decreases n,
{
    if n <= 0 {
        Seq::empty()
    } else {
        seq!['-'] + dashes(n - 1)
    }
}

/// The divider between hunks: eighty dashes on a line of their own.
pub open spec fn divider() -> Seq<char> {
    dashes(80) + seq!['\n']
}

/// A line-number column: the one-based number right-aligned to four
/// characters, or four spaces for an absent number.
pub open spec fn col4(n: Option<int>) -> Seq<char> {
    match n {
        None => spaces(4),
        Some(x) => {
            let d = spec_decimal(x + 1);
            if d.len() >= 4 {
                d
            } else {
                spaces(4 - d.len()) + d
            }
        },
    }
}

/// The marker appended after a final line with no terminating newline.
pub open spec fn no_newline_marker() -> Seq<char> {
    seq![
        '\\', ' ', 'N', 'o', ' ', 'n', 'e', 'w', 'l', 'i', 'n', 'e', ' ', 'a', 't', ' ', 'e',
        'n', 'd', ' ', 'o', 'f', ' ', 'f', 'i', 'l', 'e',
    ]
}

/// A line's content as rendered: as is when it ends with a newline, and
/// followed by a newline and the marker line otherwise.
pub open spec fn line_out(l: Seq<char>) -> Seq<char> {
    if l.len() > 0 && l[l.len() - 1] == '\n' {
        l
    } else {
        l + seq!['\n'] + no_newline_marker() + seq!['\n']
    }
}

/// One rendered line: old column, new column, sign, content.
pub open spec fn render_line(oi: Option<int>, ni: Option<int>, sign: char, l: Seq<char>) -> Seq<
    char,
> {
    col4(oi) + col4(ni) + seq![sign] + line_out(l)
}

/// The rendered equal lines of one run, from offset `k`.
pub open spec fn render_equal(
    old: Seq<Seq<char>>,
    oi: int,
    ni: int,
    k: int,
    len: int,
) -> Seq<char>
    decreases len - k,
{
    if k >= len {
        Seq::empty()
    } else {
        render_line(Some(oi + k), Some(ni + k), ' ', old[oi + k]) + render_equal(
            old,
            oi,
            ni,
            k + 1,
            len,
        )
    }
}

/// The rendered deleted lines of one run, from offset `k`.
pub open spec fn render_dels(old: Seq<Seq<char>>, oi: int, k: int, len: int) -> Seq<char>
    decreases len - k,
{
    if k >= len {
        Seq::empty()
    } else {
        render_line(Some(oi + k), None, '-', old[oi + k]) + render_dels(old, oi, k + 1, len)
    }
}

/// The rendered inserted lines of one run, from offset `k`.
pub open spec fn render_inss(new: Seq<Seq<char>>, ni: int, k: int, len: int) -> Seq<char>
    decreases len - k,
{
    if k >= len {
        Seq::empty()
    } else {
        render_line(None, Some(ni + k), '+', new[ni + k]) + render_inss(new, ni, k + 1, len)
    }
}

/// One rendered operation: its equal, deleted and inserted lines.
pub open spec fn render_op(op: LineOp, old: Seq<Seq<char>>, new: Seq<Seq<char>>) -> Seq<char> {
    match op {
        LineOp::Equal { old_index, new_index, len } => render_equal(
            old,
            old_index as int,
            new_index as int,
            0,
            len as int,
        ),
        LineOp::Delete { old_index, old_len, new_index } => render_dels(
            old,
            old_index as int,
            0,
            old_len as int,
        ),
        LineOp::Insert { old_index, new_index, new_len } => render_inss(
            new,
            new_index as int,
            0,
            new_len as int,
        ),
        LineOp::Replace { old_index, old_len, new_index, new_len } => render_dels(
            old,
            old_index as int,
            0,
            old_len as int,
        ) + render_inss(new, new_index as int, 0, new_len as int),
    }
}

/// One rendered hunk, from operation `k`.
pub open spec fn render_group(
    g: Seq<LineOp>,
    old: Seq<Seq<char>>,
    new: Seq<Seq<char>>,
    k: int,
) -> Seq<char>
    decreases g.len() - k,
{
    if k >= g.len() {
        Seq::empty()
    } else {
        render_op(g[k], old, new) + render_group(g, old, new, k + 1)
    }
}

/// All rendered hunks from index `k`, each after the first preceded by
/// the divider.
pub open spec fn render_groups(
    gs: Seq<Seq<LineOp>>,
    old: Seq<Seq<char>>,
    new: Seq<Seq<char>>,
    k: int,
) -> Seq<char>
    decreases gs.len() - k,
{
    if k >= gs.len() {
        Seq::empty()
    } else {
        let sep = if k > 0 {
            divider()
        } else {
            Seq::<char>::empty()
        };
        sep + render_group(gs[k], old, new, 0) + render_groups(gs, old, new, k + 1)
    }
}

/// The full rendered diff of two texts: their lines diffed, grouped into
/// hunks with three context lines, and rendered.
pub open spec fn spec_rendered_diff(oldt: Seq<char>, newt: Seq<char>) -> Seq<char> {
    let old = spec_split_lines(oldt);
    let new = spec_split_lines(newt);
    render_groups(spec_group_ops(myers_diff_of(old, new), 3), old, new, 0)
}

fn push_spaces(out: &mut Vec<char>, n: usize)
    ensures
        final(out)@ == old(out)@ + spaces(n as int),
    decreases n,
{
    if n == 0 {
        assert(out@ =~= old(out)@ + spaces(0));
        return;
    }
    out.push(' ');
    push_spaces(out, n - 1);
    proof {
        assert(out@ =~= old(out)@ + spaces(n as int));
    }
}

fn push_dashes(out: &mut Vec<char>, n: usize)
    ensures
        final(out)@ == old(out)@ + dashes(n as int),
    decreases n,
{
    if n == 0 {
        assert(out@ =~= old(out)@ + dashes(0));
        return;
    }
    out.push('-');
    push_dashes(out, n - 1);
    proof {
        assert(out@ =~= old(out)@ + dashes(n as int));
    }
}

fn push_col4(out: &mut Vec<char>, n: Option<usize>)
    requires
        n matches Some(x) ==> x < usize::MAX,
    ensures
        final(out)@ == old(out)@ + col4(
            match n {
                Some(x) => Some(x as int),
                None => None,
            },
        ),
{
    match n {
        None => {
            push_spaces(out, 4);
        },
        Some(x) => {
            let mut d: Vec<char> = Vec::new();
            crate::chars::push_decimal(&mut d, (x as u64) + 1);
            proof {
                assert(d@ == spec_decimal(x as int + 1));
            }
            if d.len() < 4 {
                push_spaces(out, 4 - d.len());
            }
            push_all(out, &d);
            proof {
                assert(out@ =~= old(out)@ + col4(Some(x as int)));
            }
        },
    }
}

fn push_line(out: &mut Vec<char>, oi: Option<usize>, ni: Option<usize>, sign: char, l: &String)
    requires
        oi matches Some(x) ==> x < usize::MAX,
        ni matches Some(x) ==> x < usize::MAX,
    ensures
        final(out)@ == old(out)@ + render_line(
            match oi {
                Some(x) => Some(x as int),
                None => None,
            },
            match ni {
                Some(x) => Some(x as int),
                None => None,
            },
            sign,
            l@,
        ),
{
    push_col4(out, oi);
    push_col4(out, ni);
    out.push(sign);
    let lc = str_chars(l.as_str());
    let ends_nl = lc.len() > 0 && lc[lc.len() - 1] == '\n';
    push_all(out, &lc);
    if !ends_nl {
        out.push('\n');
        push_str_chars(out, "\\ No newline at end of file");
        out.push('\n');
        proof {
            reveal_strlit("\\ No newline at end of file");
            assert("\\ No newline at end of file"@ =~= no_newline_marker());
        }
    }
    proof {
        assert(out@ =~= old(out)@ + render_line(
            match oi {
                Some(x) => Some(x as int),
                None => None,
            },
            match ni {
                Some(x) => Some(x as int),
                None => None,
            },
            sign,
            l@,
        ));
    }
}

fn push_equal_run(
    out: &mut Vec<char>,
    old_lines: &Vec<String>,
    oi: usize,
    ni: usize,
    k: usize,
    len: usize,
)
    requires
        k <= len,
        oi + len <= old_lines@.len(),
        old_lines@.len() <= usize::MAX,
        ni + len <= usize::MAX,
    ensures
        final(out)@ == old(out)@ + render_equal(
            strs_view(old_lines@),
            oi as int,
            ni as int,
            k as int,
            len as int,
        ),
    decreases len - k,
{
    proof {
        lemma_strs_view(old_lines@);
    }
    if k == len {
        proof {
            assert(out@ =~= old(out)@ + render_equal(
                strs_view(old_lines@),
                oi as int,
                ni as int,
                k as int,
                len as int,
            ));
        }
        return;
    }
    push_line(out, Some(oi + k), Some(ni + k), ' ', &old_lines[oi + k]);
    push_equal_run(out, old_lines, oi, ni, k + 1, len);
    proof {
        assert(out@ =~= old(out)@ + render_equal(
            strs_view(old_lines@),
            oi as int,
            ni as int,
            k as int,
            len as int,
        ));
    }
}

fn push_del_run(out: &mut Vec<char>, old_lines: &Vec<String>, oi: usize, k: usize, len: usize)
    requires
        k <= len,
        oi + len <= old_lines@.len(),
        old_lines@.len() <= usize::MAX,
    ensures
        final(out)@ == old(out)@ + render_dels(
            strs_view(old_lines@),
            oi as int,
            k as int,
            len as int,
        ),
    decreases len - k,
{
    proof {
        lemma_strs_view(old_lines@);
    }
    if k == len {
        proof {
            assert(out@ =~= old(out)@ + render_dels(
                strs_view(old_lines@),
                oi as int,
                k as int,
                len as int,
            ));
        }
        return;
    }
    push_line(out, Some(oi + k), None, '-', &old_lines[oi + k]);
    push_del_run(out, old_lines, oi, k + 1, len);
    proof {
        assert(out@ =~= old(out)@ + render_dels(
            strs_view(old_lines@),
            oi as int,
            k as int,
            len as int,
        ));
    }
}

fn push_ins_run(out: &mut Vec<char>, new_lines: &Vec<String>, ni: usize, k: usize, len: usize)
    requires
        k <= len,
        ni + len <= new_lines@.len(),
        new_lines@.len() <= usize::MAX,
    ensures
        final(out)@ == old(out)@ + render_inss(
            strs_view(new_lines@),
            ni as int,
            k as int,
            len as int,
        ),
    decreases len - k,
{
    proof {
        lemma_strs_view(new_lines@);
    }
    if k == len {
        proof {
            assert(out@ =~= old(out)@ + render_inss(
                strs_view(new_lines@),
                ni as int,
                k as int,
                len as int,
            ));
        }
        return;
    }
    push_line(out, None, Some(ni + k), '+', &new_lines[ni + k]);
    push_ins_run(out, new_lines, ni, k + 1, len);
    proof {
        assert(out@ =~= old(out)@ + render_inss(
            strs_view(new_lines@),
            ni as int,
            k as int,
            len as int,
        ));
    }
}

fn push_op(out: &mut Vec<char>, op: LineOp, old_lines: &Vec<String>, new_lines: &Vec<String>)
    requires
        op_in_range(op, old_lines@.len() as int, new_lines@.len() as int),
        old_lines@.len() <= usize::MAX,
        new_lines@.len() <= usize::MAX,
    ensures
        final(out)@ == old(out)@ + render_op(op, strs_view(old_lines@), strs_view(new_lines@)),
{
    proof {
        lemma_strs_view(old_lines@);
        lemma_strs_view(new_lines@);
    }
    match op {
        LineOp::Equal { old_index, new_index, len } => {
            push_equal_run(out, old_lines, old_index, new_index, 0, len);
        },
        LineOp::Delete { old_index, old_len, new_index } => {
            push_del_run(out, old_lines, old_index, 0, old_len);
        },
        LineOp::Insert { old_index, new_index, new_len } => {
            push_ins_run(out, new_lines, new_index, 0, new_len);
        },
        LineOp::Replace { old_index, old_len, new_index, new_len } => {
            push_del_run(out, old_lines, old_index, 0, old_len);
            push_ins_run(out, new_lines, new_index, 0, new_len);
            proof {
                assert(out@ =~= old(out)@ + render_op(
                    op,
                    strs_view(old_lines@),
                    strs_view(new_lines@),
                ));
            }
        },
    }
}

fn push_group(
    out: &mut Vec<char>,
    g: &Vec<LineOp>,
    k: usize,
    old_lines: &Vec<String>,
    new_lines: &Vec<String>,
)
    requires
        k <= g@.len(),
        ops_in_range(g@, old_lines@.len() as int, new_lines@.len() as int),
        old_lines@.len() <= usize::MAX,
        new_lines@.len() <= usize::MAX,
    ensures
        final(out)@ == old(out)@ + render_group(
            g@,
            strs_view(old_lines@),
            strs_view(new_lines@),
            k as int,
        ),
    decreases g@.len() - k,
{
    if k == g.len() {
        proof {
            assert(out@ =~= old(out)@ + render_group(
                g@,
                strs_view(old_lines@),
                strs_view(new_lines@),
                k as int,
            ));
        }
        return;
    }
    proof {
        assert(op_in_range(g@[k as int], old_lines@.len() as int, new_lines@.len() as int));
    }
    push_op(out, g[k], old_lines, new_lines);
    push_group(out, g, k + 1, old_lines, new_lines);
    proof {
        assert(out@ =~= old(out)@ + render_group(
            g@,
            strs_view(old_lines@),
            strs_view(new_lines@),
            k as int,
        ));
    }
}

fn push_groups(
    out: &mut Vec<char>,
    gs: &Vec<Vec<LineOp>>,
    k: usize,
    old_lines: &Vec<String>,
    new_lines: &Vec<String>,
)
    requires
        k <= gs@.len(),
        groups_in_range(groups_view(gs@), old_lines@.len() as int, new_lines@.len() as int),
        old_lines@.len() <= usize::MAX,
        new_lines@.len() <= usize::MAX,
    ensures
        final(out)@ == old(out)@ + render_groups(
            groups_view(gs@),
            strs_view(old_lines@),
            strs_view(new_lines@),
            k as int,
        ),
    decreases gs@.len() - k,
{
    proof {
        lemma_groups_view(gs@);
    }
    if k == gs.len() {
        proof {
            assert(out@ =~= old(out)@ + render_groups(
                groups_view(gs@),
                strs_view(old_lines@),
                strs_view(new_lines@),
                k as int,
            ));
        }
        return;
    }
    if k > 0 {
        push_dashes(out, 80);
        out.push('\n');
    }
    proof {
        assert(ops_in_range(
            groups_view(gs@)[k as int],
            old_lines@.len() as int,
            new_lines@.len() as int,
        ));
    }
    push_group(out, &gs[k], 0, old_lines, new_lines);
    push_groups(out, gs, k + 1, old_lines, new_lines);
    proof {
        assert(out@ =~= old(out)@ + render_groups(
            groups_view(gs@),
            strs_view(old_lines@),
            strs_view(new_lines@),
            k as int,
        ));
    }
}


/// Trimming and grouping keep every operation in range.
proof fn lemma_group_loop_in_range(
    ops: Seq<LineOp>,
    n: int,
    pending: Seq<LineOp>,
    rv: Seq<Seq<LineOp>>,
    no: int,
    nn: int,
)
    requires
        0 <= n,
        ops_in_range(ops, no, nn),
        ops_in_range(pending, no, nn),
        groups_in_range(rv, no, nn),
    ensures
        groups_in_range(group_loop(ops, n, pending, rv), no, nn),
    decreases ops.len(),
{
    if ops.len() == 0 {
        if !pending_discarded(pending) {
            assert(forall|i: int|
                0 <= i < rv.len() ==> ops_in_range(#[trigger] rv.push(pending)[i], no, nn));
            assert(rv.push(pending)[rv.len() as int] == pending);
        }
    } else {
        assert(op_in_range(ops[0], no, nn));
        assert(forall|k: int|
            0 <= k < ops.drop_first().len() ==> ops.drop_first()[k] == ops[k + 1]);
        assert(ops_in_range(ops.drop_first(), no, nn));
        match ops[0] {
            LineOp::Equal { old_index, new_index, len } => {
                if len > 2 * n {
                    let off = len - n;
                    let p2 = pending.push(
                        LineOp::Equal { old_index, new_index, len: n as usize },
                    );
                    let np = seq![
                        LineOp::Equal {
                            old_index: (old_index + off) as usize,
                            new_index: (new_index + off) as usize,
                            len: (len - off) as usize,
                        },
                    ];
                    assert(forall|i: int|
                        0 <= i < pending.len() ==> p2[i] == pending[i]);
                    assert(p2[pending.len() as int] == LineOp::Equal {
                        old_index,
                        new_index,
                        len: n as usize,
                    });
                    assert(ops_in_range(p2, no, nn));
                    assert(op_in_range(np[0], no, nn));
                    assert(ops_in_range(np, no, nn));
                    let rv2 = rv.push(p2);
                    assert(forall|i: int|
                        0 <= i < rv.len() ==> rv2[i] == rv[i]);
                    assert(rv2[rv.len() as int] == p2);
                    assert(groups_in_range(rv2, no, nn));
                    lemma_group_loop_in_range(ops.drop_first(), n, np, rv2, no, nn);
                } else {
                    let p2 = pending.push(ops[0]);
                    assert(forall|i: int|
                        0 <= i < pending.len() ==> p2[i] == pending[i]);
                    assert(p2[pending.len() as int] == ops[0]);
                    assert(ops_in_range(p2, no, nn));
                    lemma_group_loop_in_range(ops.drop_first(), n, p2, rv, no, nn);
                }
            },
            _ => {
                let p2 = pending.push(ops[0]);
                assert(forall|i: int|
                    0 <= i < pending.len() ==> p2[i] == pending[i]);
                assert(p2[pending.len() as int] == ops[0]);
                assert(ops_in_range(p2, no, nn));
                lemma_group_loop_in_range(ops.drop_first(), n, p2, rv, no, nn);
            },
        }
    }
}

/// The hunks of in-range operations are in range.
proof fn lemma_group_ops_in_range(ops: Seq<LineOp>, n: int, no: int, nn: int)
    requires
        0 <= n,
        ops_in_range(ops, no, nn),
    ensures
        groups_in_range(spec_group_ops(ops, n), no, nn),
{
    if ops.len() != 0 {
        let t1 = trim_first(ops, n);
        assert(ops_in_range(t1, no, nn)) by {
            assert(forall|k: int| 0 <= k < ops.len() ==> op_in_range(#[trigger] ops[k], no, nn));
            assert(op_in_range(ops[0], no, nn));
            assert(forall|k: int|
                0 <= k < t1.len() && k != 0 ==> t1[k] == ops[k]);
            assert(op_in_range(t1[0], no, nn));
        }
        let t2 = trim_last(t1, n);
        assert(ops_in_range(t2, no, nn)) by {
            assert(op_in_range(t1[t1.len() - 1], no, nn));
            assert(forall|k: int|
                0 <= k < t2.len() && k != t2.len() - 1 ==> t2[k] == t1[k]);
            assert(op_in_range(t2[t2.len() - 1], no, nn));
        }
        assert(ops_in_range(Seq::<LineOp>::empty(), no, nn));
        assert(groups_in_range(Seq::<Seq<LineOp>>::empty(), no, nn));
        lemma_group_loop_in_range(t2, n, Seq::empty(), Seq::empty(), no, nn);
    }
}

/// The outcome of comparing two canonical texts: equal, or a rendered
/// diff.
#[derive(Debug, PartialEq, Eq)]
pub enum DiffResult {
    Equal,
    Diff(String),
}

/// Renders the diff of two texts under the given header lines: the
/// header, one blank line, then the hunks; see [`spec_rendered_diff`].
pub fn build_diff(header: &str, old_text: &str, new_text: &str) -> (r: String)
    ensures
        r@ == header@ + seq!['\n'] + spec_rendered_diff(old_text@, new_text@),
{
    let old_lines = split_lines(old_text);
    let new_lines = split_lines(new_text);
    let ops = diff_slices(&old_lines, &new_lines);
    let onum = old_lines.len();
    let nnum = new_lines.len();
    proof {
        assert(old_lines@.len() <= usize::MAX);
        assert(new_lines@.len() <= usize::MAX);
        lemma_strs_view(old_lines@);
        lemma_strs_view(new_lines@);
        lemma_edit_script_in_range(
            ops@,
            strs_view(old_lines@),
            strs_view(new_lines@),
            0,
            0,
        );
    }
    let groups = group_ops_exec(&ops, 3, Ghost(onum as int), Ghost(nnum as int));
    proof {
        lemma_group_ops_in_range(ops@, 3, old_lines@.len() as int, new_lines@.len() as int);
    }
    let mut out: Vec<char> = Vec::new();
    push_str_chars(&mut out, header);
    out.push('\n');
    push_groups(&mut out, &groups, 0, &old_lines, &new_lines);
    proof {
        assert(out@ =~= header@ + seq!['\n'] + spec_rendered_diff(old_text@, new_text@));
    }
    crate::chars::chars_string(&out)
}


/// True for a whitespace character, for word tokenization.
pub open spec fn is_space(c: char) -> bool {
    c == ' ' || c == '\t' || c == '\n' || c == '\r'
}

/// The first index at or after `i` whose character's class differs from
/// `ws`.
pub open spec fn scan_class(s: Seq<char>, i: int, ws: bool) -> int
    decreases s.len() - i when 0 <= i <= s.len()
{
    if i < s.len() && is_space(s[i]) == ws {
        scan_class(s, i + 1, ws)
    } else {
        i
    }
}

proof fn lemma_scan_class(s: Seq<char>, i: int, ws: bool)
    requires
        0 <= i <= s.len(),
    ensures
        i <= scan_class(s, i, ws) <= s.len(),
    decreases s.len() - i,
{
    if i < s.len() && is_space(s[i]) == ws {
        lemma_scan_class(s, i + 1, ws);
    }
}

/// A text split into words: maximal runs of whitespace and maximal runs
/// of anything else.
pub open spec fn spec_tokenize(s: Seq<char>) -> Seq<Seq<char>>
    decreases s.len(),
{
    if s.len() == 0 {
        Seq::empty()
    } else {
        let e = scan_class(s, 0, is_space(s[0]));
        if 1 <= e && e <= s.len() {
            seq![s.take(e)] + spec_tokenize(s.skip(e))
        } else {
            seq![s]
        }
    }
}

fn tokenize_from(v: &Vec<char>, from: usize, out: &mut Vec<String>)
    requires
        from <= v@.len(),
    ensures
        strs_view(final(out)@) == strs_view(old(out)@) + spec_tokenize(v@.skip(from as int)),
    decreases v@.len() - from,
{
    proof {
        lemma_strs_view(out@);
    }
    if from == v.len() {
        proof {
            assert(v@.skip(from as int) =~= Seq::<char>::empty());
            assert(strs_view(out@) =~= strs_view(out@) + spec_tokenize(v@.skip(from as int)));
        }
        return;
    }
    let ghost rest = v@.skip(from as int);
    let cls = v[from] == ' ' || v[from] == '\t' || v[from] == '\n' || v[from] == '\r';
    let mut e: usize = from;
    while e < v.len() && (v[e] == ' ' || v[e] == '\t' || v[e] == '\n' || v[e] == '\r') == cls
        invariant
            from <= e <= v@.len(),
            cls == is_space(v@[from as int]),
            scan_class(rest, 0, cls) == scan_class(rest, e - from, cls),
            rest == v@.skip(from as int),
            forall|j: int| from <= j < e ==> is_space(v@[j]) == cls,
        decreases v@.len() - e,
    {
        proof {
            assert(rest[e - from] == v@[e as int]);
        }
        e = e + 1;
    }
    proof {
        lemma_scan_class(rest, e - from, cls);
        if (e - from) < rest.len() {
            assert(rest[e - from] == v@[e as int]);
        }
        assert(scan_class(rest, e - from, cls) == e - from);
        assert(scan_class(rest, 0, cls) == e - from);
        assert(e > from);
    }
    let ghost pre = out@;
    let tok = crate::json::copy_range_pub(v, from, e);
    out.push(crate::chars::chars_string(&tok));
    proof {
        lemma_strs_view(out@);
        lemma_strs_view(pre);
        assert(tok@ =~= rest.take(e - from));
        assert(strs_view(out@) =~= strs_view(pre).push(rest.take(e - from)));
    }
    tokenize_from(v, e, out);
    proof {
        assert(v@.skip(e as int) =~= rest.skip(e - from));
        assert(spec_tokenize(rest) == seq![rest.take(e - from)] + spec_tokenize(
            rest.skip(e - from),
        ));
        assert(strs_view(out@) =~= strs_view(pre) + spec_tokenize(rest));
    }
}

/// Splits a text into word tokens.
pub fn tokenize(s: &str) -> (r: Vec<String>)
    ensures
        strs_view(r@) == spec_tokenize(s@),
{
    let v = str_chars(s);
    let mut out: Vec<String> = Vec::new();
    proof {
        assert(strs_view(out@) =~= Seq::<Seq<char>>::empty());
        assert(v@.skip(0) =~= v@);
    }
    tokenize_from(&v, 0, &mut out);
    proof {
        assert(strs_view(out@) =~= spec_tokenize(s@));
    }
    out
}

/// The concatenation of `len` tokens from index `i`.
pub open spec fn concat_toks(toks: Seq<Seq<char>>, i: int, len: int) -> Seq<char>
    decreases len,
{
    if len <= 0 {
        Seq::empty()
    } else {
        toks[i] + concat_toks(toks, i + 1, len - 1)
    }
}

/// The old-side spans of an inline diff: one span per operation touching
/// the old side, emphasized when the operation changes it.
pub open spec fn spec_old_spans(ops: Seq<LineOp>, toks: Seq<Seq<char>>) -> Seq<(bool, Seq<char>)>
    decreases ops.len(),
{
    if ops.len() == 0 {
        Seq::empty()
    } else {
        let rest = spec_old_spans(ops.drop_first(), toks);
        match ops[0] {
            LineOp::Equal { old_index, new_index, len } => seq![
                (false, concat_toks(toks, old_index as int, len as int)),
            ] + rest,
            LineOp::Delete { old_index, old_len, new_index } => seq![
                (true, concat_toks(toks, old_index as int, old_len as int)),
            ] + rest,
            LineOp::Insert { .. } => rest,
            LineOp::Replace { old_index, old_len, new_index, new_len } => seq![
                (true, concat_toks(toks, old_index as int, old_len as int)),
            ] + rest,
        }
    }
}

/// The new-side spans of an inline diff.
pub open spec fn spec_new_spans(ops: Seq<LineOp>, toks: Seq<Seq<char>>) -> Seq<(bool, Seq<char>)>
    decreases ops.len(),
{
    if ops.len() == 0 {
        Seq::empty()
    } else {
        let rest = spec_new_spans(ops.drop_first(), toks);
        match ops[0] {
            LineOp::Equal { old_index, new_index, len } => seq![
                (false, concat_toks(toks, new_index as int, len as int)),
            ] + rest,
            LineOp::Delete { .. } => rest,
            LineOp::Insert { old_index, new_index, new_len } => seq![
                (true, concat_toks(toks, new_index as int, new_len as int)),
            ] + rest,
            LineOp::Replace { old_index, old_len, new_index, new_len } => seq![
                (true, concat_toks(toks, new_index as int, new_len as int)),
            ] + rest,
        }
    }
}

/// The views of a span list.
pub open spec fn spans_view(s: Seq<(bool, String)>) -> Seq<(bool, Seq<char>)>
    decreases s,
{
    if s.len() == 0 {
        Seq::empty()
    } else {
        seq![(s[0].0, s[0].1@)] + spans_view(s.drop_first())
    }
}

proof fn lemma_spans_view(s: Seq<(bool, String)>)
    ensures
        spans_view(s).len() == s.len(),
        forall|i: int| 0 <= i < s.len() ==> spans_view(s)[i] == (s[i].0, s[i].1@),
    decreases s,
{
    if s.len() != 0 {
        lemma_spans_view(s.drop_first());
    }
}

/// Concatenates `len` tokens from index `i` into one string.
fn concat_toks_exec(toks: &Vec<String>, i: usize, len: usize) -> (r: String)
    requires
        i + len <= toks@.len(),
    ensures
        r@ == concat_toks(strs_view(toks@), i as int, len as int),
    decreases len,
{
    proof {
        lemma_strs_view(toks@);
    }
    let n_toks = toks.len();
    proof {
        assert(n_toks == toks@.len());
        assert(toks@.len() <= usize::MAX);
    }
    let mut out: Vec<char> = Vec::new();
    let mut k: usize = 0;
    while k < len
        invariant
            i + len <= toks@.len(),
            toks@.len() <= usize::MAX,
            k <= len,
            out@ == concat_prefix(strs_view(toks@), i as int, k as int),
        decreases len - k,
    {
        proof {
            lemma_strs_view(toks@);
        }
        push_str_chars(&mut out, toks[i + k].as_str());
        proof {
            lemma_concat_prefix_snoc(strs_view(toks@), i as int, k as int);
        }
        k = k + 1;
    }
    proof {
        lemma_concat_prefix_is_concat(strs_view(toks@), i as int, len as int);
    }
    crate::chars::chars_string(&out)
}

/// The concatenation of the first `k` tokens from `i`, built from the
/// left.
pub open spec fn concat_prefix(toks: Seq<Seq<char>>, i: int, k: int) -> Seq<char>
    decreases k,
{
    if k <= 0 {
        Seq::empty()
    } else {
        concat_prefix(toks, i, k - 1) + toks[i + k - 1]
    }
}

proof fn lemma_concat_prefix_snoc(toks: Seq<Seq<char>>, i: int, k: int)
    requires
        0 <= k,
    ensures
        concat_prefix(toks, i, k + 1) == concat_prefix(toks, i, k) + toks[i + k],
{
}

proof fn lemma_concat_prefix_is_concat(toks: Seq<Seq<char>>, i: int, len: int)
    ensures
        concat_prefix(toks, i, len) == concat_toks(toks, i, len),
    decreases len,
{
    if len > 0 {
        lemma_concat_prefix_is_concat(toks, i + 1, len - 1);
        lemma_concat_left(toks, i, len);
    }
}

/// Concatenation from the left equals head plus the rest.
proof fn lemma_concat_left(toks: Seq<Seq<char>>, i: int, len: int)
    requires
        len > 0,
    ensures
        concat_prefix(toks, i, len) == toks[i] + concat_prefix(toks, i + 1, len - 1),
    decreases len,
{
    if len == 1 {
        assert(concat_prefix(toks, i, 1) == concat_prefix(toks, i, 0) + toks[i]);
        assert(concat_prefix(toks, i, 0) + toks[i] =~= toks[i] + concat_prefix(toks, i + 1, 0));
    } else {
        lemma_concat_left(toks, i, len - 1);
        assert(concat_prefix(toks, i, len) == concat_prefix(toks, i, len - 1) + toks[i + len
            - 1]);
        assert((toks[i] + concat_prefix(toks, i + 1, len - 2)) + toks[i + len - 1] =~= toks[i] + (
        concat_prefix(toks, i + 1, len - 2) + toks[(i + 1) + (len - 1) - 1]));
        assert(concat_prefix(toks, i + 1, len - 1) == concat_prefix(toks, i + 1, len - 2)
            + toks[(i + 1) + (len - 1) - 1]);
    }
}

/// The word-level emphasis spans of a replaced run: the old text's and
/// the new text's spans, in order, each marked emphasized exactly when
/// the word diff changes it.  The concatenation of each side's spans is
/// that side's text.
pub fn inline_spans(old_run: &str, new_run: &str) -> (r: (
    Vec<(bool, String)>,
    Vec<(bool, String)>,
))
    ensures
        spans_view(r.0@) == spec_old_spans(
            myers_diff_of(spec_tokenize(old_run@), spec_tokenize(new_run@)),
            spec_tokenize(old_run@),
        ),
        spans_view(r.1@) == spec_new_spans(
            myers_diff_of(spec_tokenize(old_run@), spec_tokenize(new_run@)),
            spec_tokenize(new_run@),
        ),
        spans_text(spans_view(r.0@)) == old_run@,
        spans_text(spans_view(r.1@)) == new_run@,
{
    let old_toks = tokenize(old_run);
    let new_toks = tokenize(new_run);
    let ops = diff_slices(&old_toks, &new_toks);
    proof {
        lemma_edit_script_in_range(
            ops@,
            strs_view(old_toks@),
            strs_view(new_toks@),
            0,
            0,
        );
        lemma_strs_view(old_toks@);
        lemma_strs_view(new_toks@);
    }
    let mut olds: Vec<(bool, String)> = Vec::new();
    let mut news: Vec<(bool, String)> = Vec::new();
    build_spans(&ops, 0, &old_toks, &new_toks, &mut olds, &mut news);
    proof {
        assert(ops@.skip(0) =~= ops@);
        assert(spans_view(olds@) =~= spec_old_spans(ops@, strs_view(old_toks@)));
        assert(spans_view(news@) =~= spec_new_spans(ops@, strs_view(new_toks@)));
        lemma_old_spans_cover(ops@, strs_view(old_toks@), strs_view(new_toks@), 0, 0);
        lemma_new_spans_cover(ops@, strs_view(old_toks@), strs_view(new_toks@), 0, 0);
        lemma_concat_toks_all(strs_view(old_toks@), 0);
        lemma_concat_toks_all(strs_view(new_toks@), 0);
        assert(strs_view(old_toks@).skip(0) =~= strs_view(old_toks@));
        assert(strs_view(new_toks@).skip(0) =~= strs_view(new_toks@));
        lemma_tokenize_concat(old_run@);
        lemma_tokenize_concat(new_run@);
    }
    (olds, news)
}

fn build_spans(
    ops: &Vec<LineOp>,
    k: usize,
    old_toks: &Vec<String>,
    new_toks: &Vec<String>,
    olds: &mut Vec<(bool, String)>,
    news: &mut Vec<(bool, String)>,
)
    requires
        k <= ops@.len(),
        ops_in_range(ops@, old_toks@.len() as int, new_toks@.len() as int),
    ensures
        spans_view(final(olds)@) == spans_view(old(olds)@) + spec_old_spans(
            ops@.skip(k as int),
            strs_view(old_toks@),
        ),
        spans_view(final(news)@) == spans_view(old(news)@) + spec_new_spans(
            ops@.skip(k as int),
            strs_view(new_toks@),
        ),
    decreases ops@.len() - k,
{
    proof {
        lemma_spans_view(olds@);
        lemma_spans_view(news@);
    }
    if k == ops.len() {
        proof {
            assert(ops@.skip(k as int) =~= Seq::<LineOp>::empty());
            assert(spans_view(olds@) =~= spans_view(olds@) + spec_old_spans(
                ops@.skip(k as int),
                strs_view(old_toks@),
            ));
            assert(spans_view(news@) =~= spans_view(news@) + spec_new_spans(
                ops@.skip(k as int),
                strs_view(new_toks@),
            ));
        }
        return;
    }
    let ghost pre_o = olds@;
    let ghost pre_n = news@;
    proof {
        assert(op_in_range(ops@[k as int], old_toks@.len() as int, new_toks@.len() as int));
    }
    match ops[k] {
        LineOp::Equal { old_index, new_index, len } => {
            let t1 = concat_toks_exec(old_toks, old_index, len);
            olds.push((false, t1));
            let t2 = concat_toks_exec(new_toks, new_index, len);
            news.push((false, t2));
        },
        LineOp::Delete { old_index, old_len, new_index } => {
            let t1 = concat_toks_exec(old_toks, old_index, old_len);
            olds.push((true, t1));
        },
        LineOp::Insert { old_index, new_index, new_len } => {
            let t2 = concat_toks_exec(new_toks, new_index, new_len);
            news.push((true, t2));
        },
        LineOp::Replace { old_index, old_len, new_index, new_len } => {
            let t1 = concat_toks_exec(old_toks, old_index, old_len);
            olds.push((true, t1));
            let t2 = concat_toks_exec(new_toks, new_index, new_len);
            news.push((true, t2));
        },
    }
    proof {
        lemma_spans_view(olds@);
        lemma_spans_view(news@);
        lemma_spans_view(pre_o);
        lemma_spans_view(pre_n);
    }
    build_spans(ops, k + 1, old_toks, new_toks, olds, news);
    proof {
        assert(ops@.skip(k as int)[0] == ops@[k as int]);
        assert(ops@.skip(k as int).drop_first() =~= ops@.skip(k as int + 1));
        assert(spans_view(olds@) =~= spans_view(pre_o) + spec_old_spans(
            ops@.skip(k as int),
            strs_view(old_toks@),
        ));
        assert(spans_view(news@) =~= spans_view(pre_n) + spec_new_spans(
            ops@.skip(k as int),
            strs_view(new_toks@),
        ));
    }
}


/// The concatenation of a list of texts.
pub open spec fn concat_seqs(ts: Seq<Seq<char>>) -> Seq<char>
    decreases ts,
{
    if ts.len() == 0 {
        Seq::empty()
    } else {
        ts[0] + concat_seqs(ts.drop_first())
    }
}

/// The tokens of a text concatenate back to the text.
pub proof fn lemma_tokenize_concat(s: Seq<char>)
    ensures
        concat_seqs(spec_tokenize(s)) == s,
    decreases s.len(),
{
    if s.len() != 0 {
        let e = scan_class(s, 0, is_space(s[0]));
        lemma_scan_class(s, 0, is_space(s[0]));
        if 1 <= e && e <= s.len() {
            lemma_tokenize_concat(s.skip(e));
            let ts = seq![s.take(e)] + spec_tokenize(s.skip(e));
            assert(ts[0] == s.take(e));
            assert(ts.drop_first() =~= spec_tokenize(s.skip(e)));
            assert(s.take(e) + s.skip(e) =~= s);
        } else {
            let ts = seq![s];
            assert(ts[0] == s);
            assert(ts.drop_first() =~= Seq::<Seq<char>>::empty());
            assert(concat_seqs(ts.drop_first()) == Seq::<char>::empty());
            assert(concat_seqs(ts) == ts[0] + concat_seqs(ts.drop_first()));
            assert(concat_seqs(ts) =~= s);
        }
    }
}

/// The concatenated texts of a span list.
pub open spec fn spans_text(sp: Seq<(bool, Seq<char>)>) -> Seq<char>
    decreases sp,
{
    if sp.len() == 0 {
        Seq::empty()
    } else {
        sp[0].1 + spans_text(sp.drop_first())
    }
}

/// `concat_toks` over a whole token list is the whole concatenation.
proof fn lemma_concat_toks_all(ts: Seq<Seq<char>>, i: int)
    requires
        0 <= i <= ts.len(),
    ensures
        concat_toks(ts, i, ts.len() - i) == concat_seqs(ts.skip(i)),
    decreases ts.len() - i,
{
    if i < ts.len() {
        lemma_concat_toks_all(ts, i + 1);
        assert(ts.skip(i)[0] == ts[i]);
        assert(ts.skip(i).drop_first() =~= ts.skip(i + 1));
    } else {
        assert(ts.skip(i) =~= Seq::<Seq<char>>::empty());
    }
}

/// `concat_toks` splits at any point of its range.
proof fn lemma_concat_toks_split(ts: Seq<Seq<char>>, i: int, l1: int, l2: int)
    requires
        0 <= l1,
        0 <= l2,
    ensures
        concat_toks(ts, i, l1 + l2) == concat_toks(ts, i, l1) + concat_toks(ts, i + l1, l2),
    decreases l1,
{
    if l1 == 0 {
        assert(concat_toks(ts, i, 0) == Seq::<char>::empty());
        assert(concat_toks(ts, i, l1 + l2) =~= concat_toks(ts, i, l1) + concat_toks(
            ts,
            i + l1,
            l2,
        ));
    } else {
        lemma_concat_toks_split(ts, i + 1, l1 - 1, l2);
        assert(ts[i] + (concat_toks(ts, i + 1, l1 - 1) + concat_toks(ts, i + l1, l2)) =~= (
        ts[i] + concat_toks(ts, i + 1, l1 - 1)) + concat_toks(ts, i + l1, l2));
    }
}

/// The old-side spans of a valid edit script cover exactly the old
/// tokens from the current position on.
proof fn lemma_old_spans_cover(
    ops: Seq<LineOp>,
    old: Seq<Seq<char>>,
    new: Seq<Seq<char>>,
    i: int,
    j: int,
)
    requires
        ops_valid_from(ops, old, new, i, j),
        0 <= i,
    ensures
        spans_text(spec_old_spans(ops, old)) == concat_toks(old, i, old.len() - i),
    decreases ops.len(),
{
    if ops.len() == 0 {
        assert(concat_toks(old, i, 0) == Seq::<char>::empty());
    } else {
        match ops[0] {
            LineOp::Equal { old_index, new_index, len } => {
                lemma_old_spans_cover(ops.drop_first(), old, new, i + len, j + len);
                lemma_edit_script_pos(ops.drop_first(), old, new, i + len, j + len);
                lemma_concat_toks_split(old, i, len as int, old.len() - i - len);
                let sp = seq![(false, concat_toks(old, i, len as int))] + spec_old_spans(
                    ops.drop_first(),
                    old,
                );
                assert(sp[0] == (false, concat_toks(old, i, len as int)));
                assert(sp.drop_first() =~= spec_old_spans(ops.drop_first(), old));
            },
            LineOp::Delete { old_index, old_len, new_index } => {
                lemma_old_spans_cover(ops.drop_first(), old, new, i + old_len, j);
                lemma_edit_script_pos(ops.drop_first(), old, new, i + old_len, j);
                lemma_concat_toks_split(old, i, old_len as int, old.len() - i - old_len);
                let sp = seq![(true, concat_toks(old, i, old_len as int))] + spec_old_spans(
                    ops.drop_first(),
                    old,
                );
                assert(sp[0] == (true, concat_toks(old, i, old_len as int)));
                assert(sp.drop_first() =~= spec_old_spans(ops.drop_first(), old));
            },
            LineOp::Insert { old_index, new_index, new_len } => {
                lemma_old_spans_cover(ops.drop_first(), old, new, i, j + new_len);
            },
            LineOp::Replace { old_index, old_len, new_index, new_len } => {
                lemma_old_spans_cover(ops.drop_first(), old, new, i + old_len, j + new_len);
                lemma_edit_script_pos(ops.drop_first(), old, new, i + old_len, j + new_len);
                lemma_concat_toks_split(old, i, old_len as int, old.len() - i - old_len);
                let sp = seq![(true, concat_toks(old, i, old_len as int))] + spec_old_spans(
                    ops.drop_first(),
                    old,
                );
                assert(sp[0] == (true, concat_toks(old, i, old_len as int)));
                assert(sp.drop_first() =~= spec_old_spans(ops.drop_first(), old));
            },
        }
    }
}

/// The new-side spans of a valid edit script cover exactly the new
/// tokens from the current position on.
proof fn lemma_new_spans_cover(
    ops: Seq<LineOp>,
    old: Seq<Seq<char>>,
    new: Seq<Seq<char>>,
    i: int,
    j: int,
)
    requires
        ops_valid_from(ops, old, new, i, j),
        0 <= j,
    ensures
        spans_text(spec_new_spans(ops, new)) == concat_toks(new, j, new.len() - j),
    decreases ops.len(),
{
    if ops.len() == 0 {
        assert(concat_toks(new, j, 0) == Seq::<char>::empty());
    } else {
        match ops[0] {
            LineOp::Equal { old_index, new_index, len } => {
                lemma_new_spans_cover(ops.drop_first(), old, new, i + len, j + len);
                lemma_edit_script_pos(ops.drop_first(), old, new, i + len, j + len);
                lemma_concat_toks_split(new, j, len as int, new.len() - j - len);
                let sp = seq![(false, concat_toks(new, j, len as int))] + spec_new_spans(
                    ops.drop_first(),
                    new,
                );
                assert(sp[0] == (false, concat_toks(new, j, len as int)));
                assert(sp.drop_first() =~= spec_new_spans(ops.drop_first(), new));
            },
            LineOp::Delete { old_index, old_len, new_index } => {
                lemma_new_spans_cover(ops.drop_first(), old, new, i + old_len, j);
            },
            LineOp::Insert { old_index, new_index, new_len } => {
                lemma_new_spans_cover(ops.drop_first(), old, new, i, j + new_len);
                lemma_edit_script_pos(ops.drop_first(), old, new, i, j + new_len);
                lemma_concat_toks_split(new, j, new_len as int, new.len() - j - new_len);
                let sp = seq![(true, concat_toks(new, j, new_len as int))] + spec_new_spans(
                    ops.drop_first(),
                    new,
                );
                assert(sp[0] == (true, concat_toks(new, j, new_len as int)));
                assert(sp.drop_first() =~= spec_new_spans(ops.drop_first(), new));
            },
            LineOp::Replace { old_index, old_len, new_index, new_len } => {
                lemma_new_spans_cover(ops.drop_first(), old, new, i + old_len, j + new_len);
                lemma_edit_script_pos(ops.drop_first(), old, new, i + old_len, j + new_len);
                lemma_concat_toks_split(new, j, new_len as int, new.len() - j - new_len);
                let sp = seq![(true, concat_toks(new, j, new_len as int))] + spec_new_spans(
                    ops.drop_first(),
                    new,
                );
                assert(sp[0] == (true, concat_toks(new, j, new_len as int)));
                assert(sp.drop_first() =~= spec_new_spans(ops.drop_first(), new));
            },
        }
    }
}

} // verus!
