use vstd::prelude::*;

use crate::strutil::chars_equal;

verus! {

broadcast use vstd::std_specs::vec::group_vec_axioms;

// ---------------------------------------------------------------------------
// Splitting a text into lines. A line keeps its trailing newline, so the last
// line of a text that does not end in a newline is the only one without it.
// ---------------------------------------------------------------------------

/// The first position at or after `i` holding a newline, or the length.
pub open spec fn nl_from(s: Seq<char>, i: int) -> int
    decreases s.len() - i,
{
    if 0 <= i < s.len() && s[i] != '\n' {
        nl_from(s, i + 1)
    } else {
        i
    }
}

pub proof fn lemma_nl_from_bounds(s: Seq<char>, i: int)
    requires
        0 <= i <= s.len(),
    ensures
        i <= nl_from(s, i) <= s.len(),
        nl_from(s, i) < s.len() ==> s[nl_from(s, i)] == '\n',
    decreases s.len() - i,
{
    if i < s.len() && s[i] != '\n' {
        lemma_nl_from_bounds(s, i + 1);
    }
}

/// The lines of the text from position `i` on.
pub open spec fn lines_from(s: Seq<char>, i: int) -> Seq<Seq<char>>
    decreases s.len() - i,
{
    if i < 0 || i >= s.len() {
        Seq::empty()
    } else {
        let j = nl_from(s, i);
        if j < i {
            Seq::empty()
        } else if j >= s.len() {
            seq![s.subrange(i, s.len() as int)]
        } else {
            seq![s.subrange(i, j + 1)] + lines_from(s, j + 1)
        }
    }
}

/// The lines of a text.
pub open spec fn spec_lines(s: Seq<char>) -> Seq<Seq<char>> {
    lines_from(s, 0)
}

/// The views of a vector of lines.
pub open spec fn lines_view(v: Seq<Vec<char>>) -> Seq<Seq<char>>
    decreases v.len(),
{
    if v.len() == 0 {
        Seq::empty()
    } else {
        lines_view(v.drop_last()).push(v.last()@)
    }
}

pub proof fn lemma_lines_view(v: Seq<Vec<char>>)
    ensures
        lines_view(v).len() == v.len(),
        forall|i: int| 0 <= i < v.len() ==> lines_view(v)[i] == v[i]@,
    decreases v.len(),
{
    if v.len() > 0 {
        lemma_lines_view(v.drop_last());
        assert forall|i: int| 0 <= i < v.len() implies lines_view(v)[i] == v[i]@ by {
            if i < v.len() - 1 {
                assert(v.drop_last()[i] == v[i]);
            }
        }
    }
}

fn nl_from_exec(s: &Vec<char>, i: usize) -> (r: usize)
    requires
        i <= s@.len(),
    ensures
        r as int == nl_from(s@, i as int),
        i <= r <= s@.len(),
{
    let n = s.len();
    let mut j = i;
    while j < n && s[j] != '\n'
        invariant
            i <= j <= n,
            n == s@.len(),
            nl_from(s@, i as int) == nl_from(s@, j as int),
        decreases n - j,
    {
        j += 1;
    }
    j
}

/// Splits a text into its lines, each keeping its trailing newline; the last
/// line lacks one exactly when the text does.
pub fn split_lines(s: &Vec<char>) -> (r: Vec<Vec<char>>)
    ensures
        lines_view(r@) == spec_lines(s@),
{
    let n = s.len();
    let mut r: Vec<Vec<char>> = Vec::new();
    let mut pos: usize = 0;
    while pos < n
        invariant
            pos <= n,
            n == s@.len(),
            spec_lines(s@) == lines_view(r@) + lines_from(s@, pos as int),
        decreases n - pos,
    {
        let ghost r0 = r@;
        let j = nl_from_exec(s, pos);
        let end = if j < n {
            j + 1
        } else {
            n
        };
        let mut line: Vec<char> = Vec::new();
        let mut k = pos;
        while k < end
            invariant
                pos <= k <= end <= n,
                n == s@.len(),
                line@ =~= s@.subrange(pos as int, k as int),
            decreases end - k,
        {
            line.push(s[k]);
            proof {
                assert(line@ =~= s@.subrange(pos as int, k + 1 as int));
            }
            k += 1;
        }
        r.push(line);
        proof {
            assert(r@.drop_last() =~= r0);
            assert(lines_view(r@) == lines_view(r0).push(s@.subrange(pos as int, end as int)));
            if (j as int) < n {
                assert(lines_from(s@, pos as int) == seq![s@.subrange(pos as int, j + 1 as int)]
                    + lines_from(s@, j + 1 as int));
                assert(lines_view(r@) + lines_from(s@, end as int) =~= lines_view(r0) + (seq![
                    s@.subrange(pos as int, end as int),
                ] + lines_from(s@, end as int)));
            } else {
                assert(lines_from(s@, pos as int) == seq![s@.subrange(pos as int, n as int)]);
                assert(lines_from(s@, n as int) =~= Seq::<Seq<char>>::empty());
                assert(lines_view(r@) + lines_from(s@, end as int) =~= lines_view(r0) + seq![
                    s@.subrange(pos as int, n as int),
                ]);
            }
        }
        pos = end;
    }
    proof {
        assert(lines_from(s@, n as int) =~= Seq::<Seq<char>>::empty());
        assert(lines_view(r@) + Seq::<Seq<char>>::empty() =~= lines_view(r@));
    }
    r
}

// ---------------------------------------------------------------------------
// The longest common subsequence, and the minimal edit script.
// ---------------------------------------------------------------------------

pub open spec fn max_nat(a: nat, b: nat) -> nat {
    if a >= b {
        a
    } else {
        b
    }
}

/// The length of the longest common subsequence of two sequences.
pub open spec fn lcs_len(a: Seq<Seq<char>>, b: Seq<Seq<char>>) -> nat
    decreases a.len() + b.len(),
{
    if a.len() == 0 || b.len() == 0 {
        0
    } else if a.last() == b.last() {
        1 + lcs_len(a.drop_last(), b.drop_last())
    } else {
        max_nat(lcs_len(a.drop_last(), b), lcs_len(a, b.drop_last()))
    }
}

pub proof fn lemma_lcs_bound(a: Seq<Seq<char>>, b: Seq<Seq<char>>)
    ensures
        lcs_len(a, b) <= a.len() && lcs_len(a, b) <= b.len(),
    decreases a.len() + b.len(),
{
    if a.len() == 0 || b.len() == 0 {
    } else if a.last() == b.last() {
        lemma_lcs_bound(a.drop_last(), b.drop_last());
    } else {
        lemma_lcs_bound(a.drop_last(), b);
        lemma_lcs_bound(a, b.drop_last());
    }
}

/// A sequence shares a common subsequence of full length with itself.
pub proof fn lemma_lcs_refl(a: Seq<Seq<char>>)
    ensures
        lcs_len(a, a) == a.len(),
    decreases a.len(),
{
    if a.len() > 0 {
        lemma_lcs_refl(a.drop_last());
    }
}

/// One operation of an edit script, with the index of the line it speaks of
/// on each side.
pub enum DiffOp {
    Equal(usize, usize),
    Delete(usize),
    Insert(usize),
}

/// The model of an operation.
pub enum OpV {
    Equal(int, int),
    Delete(int),
    Insert(int),
}

impl View for DiffOp {
    type V = OpV;

    open spec fn view(&self) -> OpV {
        match self {
            DiffOp::Equal(x, y) => OpV::Equal(*x as int, *y as int),
            DiffOp::Delete(x) => OpV::Delete(*x as int),
            DiffOp::Insert(y) => OpV::Insert(*y as int),
        }
    }
}

/// The models of a script's operations.
pub open spec fn ops_view(v: Seq<DiffOp>) -> Seq<OpV>
    decreases v.len(),
{
    if v.len() == 0 {
        Seq::empty()
    } else {
        ops_view(v.drop_last()).push(v.last()@)
    }
}

pub proof fn lemma_ops_view(v: Seq<DiffOp>)
    ensures
        ops_view(v).len() == v.len(),
        forall|i: int| 0 <= i < v.len() ==> ops_view(v)[i] == v[i]@,
    decreases v.len(),
{
    if v.len() > 0 {
        lemma_ops_view(v.drop_last());
        assert forall|i: int| 0 <= i < v.len() implies ops_view(v)[i] == v[i]@ by {
            if i < v.len() - 1 {
                assert(v.drop_last()[i] == v[i]);
            }
        }
    }
}


/// Inserting an operation at the front of a script puts its model in front.
pub proof fn lemma_ops_view_insert0(v: Seq<DiffOp>, v2: Seq<DiffOp>, op: DiffOp)
    requires
        v2 == v.insert(0, op),
    ensures
        ops_view(v2) =~= seq![op@] + ops_view(v),
{
    lemma_ops_view(v);
    lemma_ops_view(v2);
    assert(v2[0] == op);
    assert(forall|k: int| 0 <= k < v.len() ==> v2[k + 1] == v[k]);
    assert forall|k: int| 0 <= k < ops_view(v2).len() implies ops_view(v2)[k] == (seq![op@]
        + ops_view(v))[k] by {
        if k > 0 {
            assert(v2[k] == v[k - 1]);
        }
    }
}

/// Whether a script walks both sequences completely and in order from the
/// positions `ai` and `bi` on: an `Equal` step consumes one equal line of
/// each side, a `Delete` one line of the old side, an `Insert` one line of
/// the new side, and nothing is left over.
pub open spec fn script_ok(
    ops: Seq<OpV>,
    ai: int,
    bi: int,
    a: Seq<Seq<char>>,
    b: Seq<Seq<char>>,
) -> bool
    decreases ops.len(),
{
    if ops.len() == 0 {
        ai == a.len() && bi == b.len()
    } else {
        match ops[0] {
            OpV::Equal(x, y) => x == ai && y == bi && 0 <= ai < a.len() && 0 <= bi < b.len()
                && a[ai] == b[bi] && script_ok(ops.drop_first(), ai + 1, bi + 1, a, b),
            OpV::Delete(x) => x == ai && 0 <= ai < a.len() && script_ok(
                ops.drop_first(),
                ai + 1,
                bi,
                a,
                b,
            ),
            OpV::Insert(y) => y == bi && 0 <= bi < b.len() && script_ok(
                ops.drop_first(),
                ai,
                bi + 1,
                a,
                b,
            ),
        }
    }
}

pub open spec fn count_equal(ops: Seq<OpV>) -> nat
    decreases ops.len(),
{
    if ops.len() == 0 {
        0
    } else {
        (if ops[0] is Equal {
            1nat
        } else {
            0nat
        }) + count_equal(ops.drop_first())
    }
}

pub open spec fn count_delete(ops: Seq<OpV>) -> nat
    decreases ops.len(),
{
    if ops.len() == 0 {
        0
    } else {
        (if ops[0] is Delete {
            1nat
        } else {
            0nat
        }) + count_delete(ops.drop_first())
    }
}

pub open spec fn count_insert(ops: Seq<OpV>) -> nat
    decreases ops.len(),
{
    if ops.len() == 0 {
        0
    } else {
        (if ops[0] is Insert {
            1nat
        } else {
            0nat
        }) + count_insert(ops.drop_first())
    }
}

/// A valid script's operations account for every line of both sides.
pub proof fn lemma_script_counts(
    ops: Seq<OpV>,
    ai: int,
    bi: int,
    a: Seq<Seq<char>>,
    b: Seq<Seq<char>>,
)
    requires
        script_ok(ops, ai, bi, a, b),
    ensures
        count_equal(ops) + count_delete(ops) == a.len() - ai,
        count_equal(ops) + count_insert(ops) == b.len() - bi,
    decreases ops.len(),
{
    if ops.len() > 0 {
        match ops[0] {
            OpV::Equal(_, _) => {
                lemma_script_counts(ops.drop_first(), ai + 1, bi + 1, a, b);
            },
            OpV::Delete(_) => {
                lemma_script_counts(ops.drop_first(), ai + 1, bi, a, b);
            },
            OpV::Insert(_) => {
                lemma_script_counts(ops.drop_first(), ai, bi + 1, a, b);
            },
        }
    }
}

/// A script with no deletions and no insertions is all `Equal` steps.
pub proof fn lemma_all_equal(ops: Seq<OpV>)
    requires
        count_delete(ops) == 0,
        count_insert(ops) == 0,
    ensures
        forall|i: int| 0 <= i < ops.len() ==> ops[i] is Equal,
    decreases ops.len(),
{
    if ops.len() > 0 {
        lemma_all_equal(ops.drop_first());
        assert forall|i: int| 0 <= i < ops.len() implies ops[i] is Equal by {
            if i > 0 {
                assert(ops.drop_first()[i - 1] == ops[i]);
            }
        }
    }
}

} // verus!

verus! {

/// How the longest common subsequence of two prefixes relates to the
/// subsequence lengths of the next shorter prefixes.
pub proof fn lemma_lcs_step(a: Seq<Seq<char>>, b: Seq<Seq<char>>, ii: int, jj: int)
    requires
        1 <= ii <= a.len(),
        1 <= jj <= b.len(),
    ensures
        lcs_len(a.take(ii), b.take(jj)) == if a[ii - 1] == b[jj - 1] {
            1 + lcs_len(a.take(ii - 1), b.take(jj - 1))
        } else {
            max_nat(lcs_len(a.take(ii - 1), b.take(jj)), lcs_len(a.take(ii), b.take(jj - 1)))
        },
{
    assert(a.take(ii).drop_last() =~= a.take(ii - 1));
    assert(b.take(jj).drop_last() =~= b.take(jj - 1));
    assert(a.take(ii).last() == a[ii - 1]);
    assert(b.take(jj).last() == b[jj - 1]);
}

pub proof fn lemma_lcs_empty(a: Seq<Seq<char>>, b: Seq<Seq<char>>, ii: int, jj: int)
    requires
        0 <= ii <= a.len(),
        0 <= jj <= b.len(),
        ii == 0 || jj == 0,
    ensures
        lcs_len(a.take(ii), b.take(jj)) == 0,
{
    if ii == 0 {
        assert(a.take(0) =~= Seq::<Seq<char>>::empty());
    } else {
        assert(b.take(0) =~= Seq::<Seq<char>>::empty());
    }
}

/// The dynamic-programming table of subsequence lengths for all pairs of
/// prefixes.
#[verifier::loop_isolation(false)]
pub fn lcs_table(a: &Vec<Vec<char>>, b: &Vec<Vec<char>>) -> (t: Vec<Vec<usize>>)
    ensures
        t@.len() == a@.len() + 1,
        forall|ii: int| 0 <= ii <= a@.len() ==> (#[trigger] t@[ii])@.len() == b@.len() + 1,
        forall|ii: int, jj: int|
            0 <= ii <= a@.len() && 0 <= jj <= b@.len() ==> (#[trigger] t@[ii]@[jj]) as nat
                == lcs_len(lines_view(a@).take(ii), lines_view(b@).take(jj)),
{
    let ghost la = lines_view(a@);
    let ghost lb = lines_view(b@);
    proof {
        lemma_lines_view(a@);
        lemma_lines_view(b@);
    }
    let n = a.len();
    let m = b.len();
    let mut t: Vec<Vec<usize>> = Vec::new();
    let mut ii: usize = 0;
    loop
        invariant
            ii <= n,
            n == a@.len(),
            m == b@.len(),
            la == lines_view(a@),
            lb == lines_view(b@),
            la.len() == n,
            lb.len() == m,
            forall|i: int| 0 <= i < la.len() ==> la[i] == a@[i]@,
            forall|i: int| 0 <= i < lb.len() ==> lb[i] == b@[i]@,
            forall|i: int| 0 <= i < ii ==> (#[trigger] t@[i])@.len() == m + 1,
            forall|i: int, j: int|
                0 <= i < ii && 0 <= j <= m ==> (#[trigger] t@[i]@[j]) as nat == lcs_len(
                    la.take(i),
                    lb.take(j),
                ),
            t@.len() == ii,
        decreases n - ii,
    {
        let mut row: Vec<usize> = Vec::new();
        let mut jj: usize = 0;
        loop
            invariant
                jj <= m,
                ii <= n,
                n == a@.len(),
                m == b@.len(),
                la == lines_view(a@),
                lb == lines_view(b@),
                la.len() == n,
                lb.len() == m,
                forall|i: int| 0 <= i < la.len() ==> la[i] == a@[i]@,
                forall|i: int| 0 <= i < lb.len() ==> lb[i] == b@[i]@,
                t@.len() == ii,
                forall|i: int| 0 <= i < ii ==> (#[trigger] t@[i])@.len() == m + 1,
                forall|i: int, j: int|
                    0 <= i < ii && 0 <= j <= m ==> (#[trigger] t@[i]@[j]) as nat == lcs_len(
                        la.take(i),
                        lb.take(j),
                    ),
                forall|j: int|
                    0 <= j < jj ==> (#[trigger] row@[j]) as nat == lcs_len(
                        la.take(ii as int),
                        lb.take(j),
                    ),
                row@.len() == jj,
            decreases m - jj,
        {
            let v: usize = if ii == 0 || jj == 0 {
                proof {
                    lemma_lcs_empty(la, lb, ii as int, jj as int);
                }
                0
            } else {
                proof {
                    lemma_lcs_step(la, lb, ii as int, jj as int);
                    lemma_lcs_bound(la.take(ii as int - 1), lb.take(jj as int - 1));
                }
                if chars_equal(&a[ii - 1], &b[jj - 1]) {
                    t[ii - 1][jj - 1] + 1
                } else {
                    let x = t[ii - 1][jj];
                    let y = row[jj - 1];
                    if x >= y {
                        x
                    } else {
                        y
                    }
                }
            };
            row.push(v);
            if jj == m {
                break;
            }
            jj += 1;
        }
        t.push(row);
        if ii == n {
            break;
        }
        ii += 1;
    }
    t
}

/// A minimal edit script between two line sequences: it walks both sides
/// completely, and its number of `Equal` steps is the longest common
/// subsequence length, so no correct script has fewer changes.
pub fn diff_lines(a: &Vec<Vec<char>>, b: &Vec<Vec<char>>) -> (ops: Vec<DiffOp>)
    ensures
        script_ok(ops_view(ops@), 0, 0, lines_view(a@), lines_view(b@)),
        count_equal(ops_view(ops@)) == lcs_len(lines_view(a@), lines_view(b@)),
{
    let ghost la = lines_view(a@);
    let ghost lb = lines_view(b@);
    proof {
        lemma_lines_view(a@);
        lemma_lines_view(b@);
        lemma_lcs_bound(la, lb);
    }
    let t = lcs_table(a, b);
    let n = a.len();
    let m = b.len();
    let mut out: Vec<DiffOp> = Vec::new();
    let mut ii = n;
    let mut jj = m;
    proof {
        assert(la.take(n as int) =~= la);
        assert(lb.take(m as int) =~= lb);
    }
    while ii > 0 || jj > 0
        invariant
            ii <= n,
            jj <= m,
            n == a@.len(),
            m == b@.len(),
            la == lines_view(a@),
            lb == lines_view(b@),
            la.len() == n,
            lb.len() == m,
            forall|i: int| 0 <= i < la.len() ==> la[i] == a@[i]@,
            forall|i: int| 0 <= i < lb.len() ==> lb[i] == b@[i]@,
            t@.len() == n + 1,
            forall|i: int| 0 <= i <= n ==> (#[trigger] t@[i])@.len() == m + 1,
            forall|i: int, j: int|
                0 <= i <= n && 0 <= j <= m ==> (#[trigger] t@[i]@[j]) as nat == lcs_len(
                    la.take(i),
                    lb.take(j),
                ),
            script_ok(ops_view(out@), ii as int, jj as int, la, lb),
            count_equal(ops_view(out@)) + lcs_len(la.take(ii as int), lb.take(jj as int))
                == lcs_len(la, lb),
        decreases ii + jj,
    {
        let ghost out0 = out@;
        let ghost ops0 = ops_view(out@);
        if ii > 0 && jj > 0 && chars_equal(&a[ii - 1], &b[jj - 1]) {
            let op = DiffOp::Equal(ii - 1, jj - 1);
            let ghost opv = op@;
            out.insert(0, op);
            ii -= 1;
            jj -= 1;
            proof {
                lemma_lcs_step(la, lb, ii + 1 as int, jj + 1 as int);
                lemma_ops_view_insert0(out0, out@, op);
                let ops1 = ops_view(out@);
                assert(ops1[0] == opv);
                assert(ops1.drop_first() =~= ops0);
                assert(script_ok(ops1, ii as int, jj as int, la, lb));
                assert(count_equal(ops1) == 1 + count_equal(ops0));
            }
        } else if jj > 0 && (ii == 0 || t[ii][jj - 1] >= t[ii - 1][jj]) {
            let op = DiffOp::Insert(jj - 1);
            let ghost opv = op@;
            out.insert(0, op);
            jj -= 1;
            proof {
                if ii == 0 {
                    lemma_lcs_empty(la, lb, 0, jj + 1 as int);
                    lemma_lcs_empty(la, lb, 0, jj as int);
                } else {
                    lemma_lcs_step(la, lb, ii as int, jj + 1 as int);
                }
                lemma_ops_view_insert0(out0, out@, op);
                let ops1 = ops_view(out@);
                assert(ops1[0] == opv);
                assert(ops1.drop_first() =~= ops0);
                assert(script_ok(ops1, ii as int, jj as int, la, lb));
                assert(count_equal(ops1) == count_equal(ops0));
            }
        } else {
            let op = DiffOp::Delete(ii - 1);
            let ghost opv = op@;
            out.insert(0, op);
            ii -= 1;
            proof {
                if jj == 0 {
                    lemma_lcs_empty(la, lb, ii + 1 as int, 0);
                    lemma_lcs_empty(la, lb, ii as int, 0);
                } else {
                    lemma_lcs_step(la, lb, ii + 1 as int, jj as int);
                }
                lemma_ops_view_insert0(out0, out@, op);
                let ops1 = ops_view(out@);
                assert(ops1[0] == opv);
                assert(ops1.drop_first() =~= ops0);
                assert(script_ok(ops1, ii as int, jj as int, la, lb));
                assert(count_equal(ops1) == count_equal(ops0));
            }
        }
    }
    proof {
        lemma_lcs_empty(la, lb, 0, 0);
    }
    out
}

} // verus!

verus! {

/// How many lines of unchanged context a hunk keeps around its changes.
pub open spec fn spec_context() -> int {
    3
}

/// Whether an operation is a change.
pub open spec fn is_change(op: OpV) -> bool {
    !(op is Equal)
}

/// Every change of the script is listed among the positions.
#[verifier::opaque]
pub open spec fn all_changes_listed(ops: Seq<DiffOp>, changes: Seq<usize>) -> bool {
    forall|j: int|
        0 <= j < ops.len() && is_change((ops[j])@) ==> exists|k: int|
            0 <= k < changes.len() && (#[trigger] changes[k]) == j
}

/// Every listed position lies inside some hunk.
#[verifier::opaque]
pub open spec fn positions_covered(changes: Seq<usize>, r: Seq<Hunk>) -> bool {
    forall|t: int|
        #![trigger changes[t]]
        0 <= t < changes.len() ==> exists|h: int|
            0 <= h < r.len() && (#[trigger] r[h]).start <= changes[t] <= r[h].end
}

/// Every change of the script lies inside some hunk.
#[verifier::opaque]
pub open spec fn changes_covered(ops: Seq<DiffOp>, r: Seq<Hunk>) -> bool {
    forall|i: int|
        #![trigger ops[i]]
        0 <= i < ops.len() && is_change((ops[i])@) ==> exists|h: int|
            0 <= h < r.len() && (#[trigger] r[h]).start <= i <= r[h].end
}

/// The positions of the changed operations, in order.
#[verifier::loop_isolation(false)]
fn change_positions(ops: &Vec<DiffOp>) -> (changes: Vec<usize>)
    ensures
        forall|k: int|
            0 <= k < changes@.len() ==> (#[trigger] changes@[k]) < ops@.len() && is_change(
                (ops@[changes@[k] as int])@,
            ),
        forall|k: int| 0 <= k < changes@.len() - 1 ==> #[trigger] changes@[k] < changes@[k + 1],
        all_changes_listed(ops@, changes@),
{
    let n = ops.len();
    let mut changes: Vec<usize> = Vec::new();
    let mut i: usize = 0;
    while i < n
        invariant
            i <= n,
            n == ops@.len(),
            forall|k: int|
                0 <= k < changes@.len() ==> (#[trigger] changes@[k]) < i && is_change(
                    (ops@[changes@[k] as int])@,
                ),
            forall|k: int| 0 <= k < changes@.len() - 1 ==> #[trigger] changes@[k] < changes@[k + 1],
            forall|j: int|
                0 <= j < i && is_change((ops@[j])@) ==> exists|k: int|
                    0 <= k < changes@.len() && (#[trigger] changes@[k]) == j,
        decreases n - i,
    {
        let ch = match &ops[i] {
            DiffOp::Equal(_, _) => false,
            DiffOp::Delete(_) => true,
            DiffOp::Insert(_) => true,
        };
        if ch {
            let ghost c0 = changes@;
            changes.push(i);
            proof {
                assert forall|k: int|
                    0 <= k < changes@.len() - 1 implies #[trigger] changes@[k] < changes@[k
                    + 1] by {
                    if k < c0.len() - 1 {
                        assert(changes@[k] == c0[k] && changes@[k + 1] == c0[k + 1]);
                    } else {
                        assert(changes@[k] == c0[k] && changes@[k + 1] == i);
                    }
                }
                assert forall|j: int|
                    0 <= j < i + 1 && is_change((ops@[j])@) implies exists|k: int|
                        0 <= k < changes@.len() && (#[trigger] changes@[k]) == j by {
                    if j < i {
                        let k = choose|k: int| 0 <= k < c0.len() && (#[trigger] c0[k]) == j;
                        assert(changes@[k] == j);
                    } else {
                        assert(changes@[changes@.len() - 1] == i);
                    }
                }
            }
        }
        i += 1;
    }
    proof {
        reveal(all_changes_listed);
    }
    changes
}

/// One hunk: the inclusive range `start..=end` of script operations it
/// shows, and the positions of its first and last change.
pub struct Hunk {
    pub start: usize,
    pub end: usize,
    pub first_change: usize,
    pub last_change: usize,
}

/// Well-formedness of one hunk against a script: the range lies inside the
/// script, the recorded first and last changes are changes inside the range,
/// and the context padding on each side is at most three lines.
pub open spec fn hunk_ok(h: Hunk, ops: Seq<DiffOp>) -> bool {
    &&& h.start <= h.first_change <= h.last_change <= h.end < ops.len()
    &&& is_change((ops[h.first_change as int])@)
    &&& is_change((ops[h.last_change as int])@)
    &&& h.first_change - h.start <= spec_context()
    &&& h.end - h.last_change <= spec_context()
}

/// Clusters sorted change positions: positions more than twice the context
/// apart start a new cluster; each cluster is padded by the context on both
/// sides, clipped to `[0, n)`.
#[verifier::loop_isolation(false)]
#[verifier::rlimit(100)]
#[verifier::spinoff_prover]
fn clusters(changes: &Vec<usize>, ops: &Vec<DiffOp>) -> (r: Vec<Hunk>)
    requires
        changes@.len() > 0,
        forall|k: int|
            0 <= k < changes@.len() ==> (#[trigger] changes@[k]) < ops@.len() && is_change(
                (ops@[changes@[k] as int])@,
            ),
        forall|k: int| 0 <= k < changes@.len() - 1 ==> #[trigger] changes@[k] < changes@[k + 1],
    ensures
        r@.len() > 0,
        forall|h: int| 0 <= h < r@.len() ==> hunk_ok(#[trigger] r@[h], ops@),
        forall|h: int| 0 <= h < r@.len() - 1 ==> (#[trigger] r@[h]).end < r@[h + 1].start,
        positions_covered(changes@, r@),
{
    let n = ops.len();
    let nc = changes.len();
    let mut r: Vec<Hunk> = Vec::new();
    let mut cs = changes[0];
    let mut ce = changes[0];
    let mut k: usize = 1;
    while k < nc
        invariant
            1 <= k <= nc,
            nc == changes@.len(),
            n == ops@.len(),
            forall|t: int|
                0 <= t < changes@.len() ==> (#[trigger] changes@[t]) < n && is_change(
                    (ops@[changes@[t] as int])@,
                ),
            forall|t: int| 0 <= t < changes@.len() - 1 ==> #[trigger] changes@[t] < changes@[t + 1],
            cs <= ce < n,
            is_change((ops@[cs as int])@),
            ce == changes@[k - 1],
            forall|t: int|
                #![trigger changes@[t]]
                0 <= t < k && changes@[t] < cs ==> exists|h: int|
                    0 <= h < r@.len() && (#[trigger] r@[h]).start <= changes@[t] <= r@[h].end,
            forall|h: int| 0 <= h < r@.len() ==> hunk_ok(#[trigger] r@[h], ops@),
            forall|h: int| 0 <= h < r@.len() - 1 ==> (#[trigger] r@[h]).end < r@[h + 1].start,
            r@.len() > 0 ==> r@[r@.len() - 1].end + spec_context() < cs,
        decreases nc - k,
    {
        let c = changes[k];
        proof {
            assert(changes@[k - 1] < changes@[k as int]);
        }
        if c - ce <= 7 {
            ce = c;
        } else {
            let start = if cs >= 3 {
                cs - 3
            } else {
                0
            };
            let end = if n - 1 - ce >= 3 {
                ce + 3
            } else {
                n - 1
            };
            let ghost r0 = r@;
            let ghost cs0 = cs;
            let ghost ce0 = ce;
            r.push(Hunk { start, end, first_change: cs, last_change: ce });
            proof {
                assert(r@.drop_last() =~= r0);
                assert(forall|h: int| 0 <= h < r0.len() ==> r@[h] == r0[h]);
                assert(hunk_ok(r@[r@.len() - 1], ops@));
                assert forall|t: int|
                    #![trigger changes@[t]]
                    0 <= t < k + 1 && changes@[t] < c implies exists|h: int|
                        0 <= h < r@.len() && (#[trigger] r@[h]).start <= changes@[t]
                            <= r@[h].end by {
                    if changes@[t] < cs0 {
                        let h = choose|h: int|
                            0 <= h < r0.len() && (#[trigger] r0[h]).start <= changes@[t]
                                <= r0[h].end;
                        assert(r@[h].start <= changes@[t] <= r@[h].end);
                    } else {
                        assert(changes@[t] <= ce0) by {
                            if t <= k - 1 {
                                lemma_sorted_after(changes@, t, k - 1);
                            } else {
                                lemma_sorted_after(changes@, k as int, t);
                            }
                        }
                        assert(r@[r@.len() - 1].start <= changes@[t] <= r@[r@.len() - 1].end);
                    }
                }
            }
            cs = c;
        }
        ce = c;
        k += 1;
    }
    let start = if cs >= 3 {
        cs - 3
    } else {
        0
    };
    let end = if n - 1 - ce >= 3 {
        ce + 3
    } else {
        n - 1
    };
    let ghost r0 = r@;
    r.push(Hunk { start, end, first_change: cs, last_change: ce });
    proof {
        assert(r@.drop_last() =~= r0);
        assert(forall|h: int| 0 <= h < r0.len() ==> r@[h] == r0[h]);
        assert(hunk_ok(r@[r@.len() - 1], ops@));
        assert forall|t: int|
            #![trigger changes@[t]]
            0 <= t < changes@.len() implies exists|h: int|
                0 <= h < r@.len() && (#[trigger] r@[h]).start <= changes@[t] <= r@[h].end by {
            if changes@[t] < cs {
                let h = choose|h: int|
                    0 <= h < r0.len() && (#[trigger] r0[h]).start <= changes@[t] <= r0[h].end;
                assert(r@[h].start <= changes@[t] <= r@[h].end);
            } else {
                assert(changes@[t] <= ce) by {
                    if t <= nc - 1 {
                        lemma_sorted_after(changes@, t, nc - 1);
                    }
                }
                assert(r@[r@.len() - 1].start <= changes@[t] <= r@[r@.len() - 1].end);
            }
        }
        reveal(positions_covered);
    }
    r
}

/// Groups the changed operations into hunks: each hunk covers a maximal
/// cluster of changes whose mutual distance keeps their context windows from
/// separating (at most twice the context apart), padded by up to three
/// context lines on each side; the hunks come in script order and are
/// pairwise disjoint, and there are none exactly when nothing changed.
/// Every change is covered by a hunk, carried over from the change list.
proof fn lemma_change_coverage(ops: Seq<DiffOp>, changes: Seq<usize>, r: Seq<Hunk>)
    requires
        all_changes_listed(ops, changes),
        positions_covered(changes, r),
    ensures
        changes_covered(ops, r),
{
    reveal(all_changes_listed);
    reveal(positions_covered);
    reveal(changes_covered);
    assert forall|i: int|
        #![trigger ops[i]]
        0 <= i < ops.len() && is_change((ops[i])@) implies exists|h: int|
            0 <= h < r.len() && (#[trigger] r[h]).start <= i <= r[h].end by {
        let t = choose|t: int| 0 <= t < changes.len() && (#[trigger] changes[t]) == i;
        let h = choose|h: int|
            0 <= h < r.len() && (#[trigger] r[h]).start <= changes[t] <= r[h].end;
        assert(r[h].start <= i <= r[h].end);
    }
}

/// With no change recorded, every operation is an `Equal`.
proof fn lemma_no_changes(ops: Seq<DiffOp>, changes: Seq<usize>)
    requires
        changes.len() == 0,
        all_changes_listed(ops, changes),
    ensures
        forall|i: int| 0 <= i < ops.len() ==> (#[trigger] ops[i])@ is Equal,
{
    reveal(all_changes_listed);
    assert forall|i: int| 0 <= i < ops.len() implies (#[trigger] ops[i])@ is Equal by {
        if is_change((ops[i])@) {
            let k = choose|k: int| 0 <= k < changes.len() && (#[trigger] changes[k]) == i;
            assert(false);
        }
    }
}

/// Groups the changed operations into hunks: each hunk covers a maximal
/// cluster of changes whose mutual distance keeps their context windows from
/// separating (at most twice the context apart), padded by up to three
/// context lines on each side; the hunks come in script order and are
/// pairwise disjoint, and there are none exactly when nothing changed.
#[verifier::spinoff_prover]
pub fn group_ops(ops: &Vec<DiffOp>) -> (r: Vec<Hunk>)
    ensures
        r@.len() == 0 ==> (forall|i: int| 0 <= i < ops@.len() ==> (#[trigger] ops@[i])@ is Equal),
        (forall|i: int| 0 <= i < ops@.len() ==> (#[trigger] ops@[i])@ is Equal) ==> r@.len() == 0,
        forall|h: int| 0 <= h < r@.len() ==> hunk_ok(#[trigger] r@[h], ops@),
        forall|h: int| 0 <= h < r@.len() - 1 ==> (#[trigger] r@[h]).end < r@[h + 1].start,
        changes_covered(ops@, r@),
{
    let changes = change_positions(ops);
    if changes.len() == 0 {
        let r: Vec<Hunk> = Vec::new();
        proof {
            lemma_no_changes(ops@, changes@);
            reveal(changes_covered);
        }
        return r;
    }
    proof {
        assert(changes@[0] < ops@.len());
    }
    let r = clusters(&changes, ops);
    proof {
        assert(hunk_ok(r@[0], ops@));
        assert(is_change((ops@[r@[0].first_change as int])@));
        assert(!((ops@[r@[0].first_change as int])@ is Equal));
        lemma_change_coverage(ops@, changes@, r@);
    }
    r
}

/// In a strictly increasing sequence, whatever comes at or after position `p`
/// is at least the element at `p`.
proof fn lemma_sorted_after(s: Seq<usize>, p: int, t: int)
    requires
        forall|u: int| 0 <= u < s.len() - 1 ==> #[trigger] s[u] < s[u + 1],
        0 <= p <= t < s.len(),
    ensures
        s[p] <= s[t],
    decreases t - p,
{
    if p < t {
        lemma_sorted_after(s, p + 1, t);
    }
}

} // verus!

verus! {

// ---------------------------------------------------------------------------
// Rendered structure: lines of hunks, with inline emphasis on changed lines.
// ---------------------------------------------------------------------------

/// A stretch of one rendered line, marked when it is the changed sub-span.
pub struct Segment {
    pub text: Vec<char>,
    pub emphasized: bool,
}

/// One rendered line: the line numbers it has on each side (absent on the
/// side it does not exist on), its sign, and its text in segments.
pub struct RenderedLine {
    pub old_index: Option<usize>,
    pub new_index: Option<usize>,
    pub sign: char,
    pub segments: Vec<Segment>,
}

/// One rendered hunk.
pub struct DiffHunk {
    pub lines: Vec<RenderedLine>,
}

/// A whole structured diff.
pub struct DiffOutput {
    pub hunks: Vec<DiffHunk>,
}

/// The text of a rendered line: its segments in order.
pub open spec fn seg_concat(segs: Seq<Segment>) -> Seq<char>
    decreases segs.len(),
{
    if segs.len() == 0 {
        Seq::empty()
    } else {
        seg_concat(segs.drop_last()) + segs.last().text@
    }
}

pub open spec fn no_emphasis(segs: Seq<Segment>) -> bool {
    forall|i: int| 0 <= i < segs.len() ==> !(#[trigger] segs[i]).emphasized
}

/// What a correct rendered line says against the two line sequences.
pub open spec fn line_ok(rl: RenderedLine, la: Seq<Seq<char>>, lb: Seq<Seq<char>>) -> bool {
    if rl.sign == ' ' {
        &&& rl.old_index matches Some(x) && x < la.len() && seg_concat(rl.segments@) == la[
            x as int
        ]
        &&& rl.new_index matches Some(y) && y < lb.len() && la[rl.old_index->Some_0 as int] == lb[
            y as int
        ]
        &&& no_emphasis(rl.segments@)
    } else if rl.sign == '-' {
        &&& rl.old_index matches Some(x) && x < la.len() && seg_concat(rl.segments@) == la[
            x as int
        ]
        &&& rl.new_index is None
    } else if rl.sign == '+' {
        &&& rl.new_index matches Some(y) && y < lb.len() && seg_concat(rl.segments@) == lb[
            y as int
        ]
        &&& rl.old_index is None
    } else {
        false
    }
}

/// A valid script only speaks of lines inside the two sequences, and its
/// `Equal` steps only of equal lines.
pub proof fn lemma_script_indexes(
    ops: Seq<OpV>,
    ai: int,
    bi: int,
    a: Seq<Seq<char>>,
    b: Seq<Seq<char>>,
)
    requires
        script_ok(ops, ai, bi, a, b),
    ensures
        forall|k: int|
            0 <= k < ops.len() ==> match #[trigger] ops[k] {
                OpV::Equal(x, y) => 0 <= x < a.len() && 0 <= y < b.len() && a[x] == b[y],
                OpV::Delete(x) => 0 <= x < a.len(),
                OpV::Insert(y) => 0 <= y < b.len(),
            },
    decreases ops.len(),
{
    if ops.len() > 0 {
        match ops[0] {
            OpV::Equal(_, _) => {
                lemma_script_indexes(ops.drop_first(), ai + 1, bi + 1, a, b);
            },
            OpV::Delete(_) => {
                lemma_script_indexes(ops.drop_first(), ai + 1, bi, a, b);
            },
            OpV::Insert(_) => {
                lemma_script_indexes(ops.drop_first(), ai, bi + 1, a, b);
            },
        }
        assert forall|k: int|
            0 <= k < ops.len() implies match #[trigger] ops[k] {
                OpV::Equal(x, y) => 0 <= x < a.len() && 0 <= y < b.len() && a[x] == b[y],
                OpV::Delete(x) => 0 <= x < a.len(),
                OpV::Insert(y) => 0 <= y < b.len(),
            } by {
            if k > 0 {
                assert(ops.drop_first()[k - 1] == ops[k]);
            }
        }
    }
}

/// Splits one line into segments according to per-character emphasis flags,
/// grouping equal flags into one segment.
#[verifier::loop_isolation(false)]
pub fn segments_from(line: &Vec<char>, flags: &Vec<bool>) -> (segs: Vec<Segment>)
    requires
        flags@.len() == line@.len(),
    ensures
        seg_concat(segs@) == line@,
        (forall|i: int| 0 <= i < flags@.len() ==> !(#[trigger] flags@[i])) ==> no_emphasis(segs@),
{
    let n = line.len();
    let mut segs: Vec<Segment> = Vec::new();
    let mut cur: Vec<char> = Vec::new();
    let mut cur_flag = false;
    let mut i: usize = 0;
    while i < n
        invariant
            i <= n,
            n == line@.len(),
            seg_concat(segs@) + cur@ =~= line@.take(i as int),
            cur@.len() > 0 ==> cur_flag == flags@[i - 1],
            (forall|j: int| 0 <= j < flags@.len() ==> !(#[trigger] flags@[j])) ==> (no_emphasis(
                segs@,
            ) && !cur_flag),
        decreases n - i,
    {
        let f = flags[i];
        if cur.len() > 0 && f != cur_flag {
            let ghost segs0 = segs@;
            let seg = Segment { text: cur, emphasized: cur_flag };
            segs.push(seg);
            proof {
                assert(segs@.drop_last() =~= segs0);
            }
            cur = Vec::new();
        }
        cur_flag = f;
        cur.push(line[i]);
        proof {
            assert(seg_concat(segs@) + cur@ =~= line@.take(i + 1 as int));
        }
        i += 1;
    }
    if cur.len() > 0 {
        let ghost segs0 = segs@;
        let seg = Segment { text: cur, emphasized: cur_flag };
        segs.push(seg);
        proof {
            assert(segs@.drop_last() =~= segs0);
        }
    }
    proof {
        assert(line@.take(n as int) =~= line@);
        assert(seg_concat(segs@) =~= line@);
    }
    segs
}

/// Wraps each character of a line as a one-character line, so the line diff
/// engine can compare two lines character by character.
fn wrap_chars(line: &Vec<char>) -> (r: Vec<Vec<char>>)
    ensures
        r@.len() == line@.len(),
        forall|i: int| 0 <= i < r@.len() ==> (#[trigger] r@[i])@ =~= seq![line@[i]],
{
    let n = line.len();
    let mut r: Vec<Vec<char>> = Vec::new();
    let mut i: usize = 0;
    while i < n
        invariant
            i <= n,
            n == line@.len(),
            r@.len() == i,
            forall|j: int| 0 <= j < i ==> (#[trigger] r@[j])@ =~= seq![line@[j]],
        decreases n - i,
    {
        let mut c: Vec<char> = Vec::new();
        c.push(line[i]);
        r.push(c);
        i += 1;
    }
    r
}

/// A text's characters, each as a one-character line, for the character-
/// level comparison.
pub open spec fn wrap_seq(s: Seq<char>) -> Seq<Seq<char>> {
    Seq::new(s.len(), |i: int| seq![s[i]])
}

/// The finer, character-level diff of one changed line pair: the sub-spans in
/// which the two lines differ are emphasized, when the lines are similar
/// enough (at least half their characters are shared); dissimilar lines stay
/// whole and unemphasized. The segments of each side always spell that side's
/// line exactly.
pub fn emphasize(old_line: &Vec<char>, new_line: &Vec<char>) -> (r: (Vec<Segment>, Vec<Segment>))
    ensures
        seg_concat(r.0@) == old_line@,
        seg_concat(r.1@) == new_line@,
        4 * lcs_len(wrap_seq(old_line@), wrap_seq(new_line@)) < old_line@.len() + new_line@.len()
            ==> (no_emphasis(r.0@) && no_emphasis(r.1@)),
{
    let wa = wrap_chars(old_line);
    let wb = wrap_chars(new_line);
    proof {
        lemma_lines_view(wa@);
        lemma_lines_view(wb@);
        assert(lines_view(wa@) =~~= wrap_seq(old_line@));
        assert(lines_view(wb@) =~~= wrap_seq(new_line@));
    }
    let ops = diff_lines(&wa, &wb);
    proof {
        lemma_ops_view(ops@);
    }
    // count the shared characters
    let ghost opv = ops_view(ops@);
    proof {
        assert(opv.skip(0) =~= opv);
    }
    let mut eq: usize = 0;
    let mut k: usize = 0;
    let no = ops.len();
    while k < no
        invariant
            k <= no,
            no == ops@.len(),
            opv == ops_view(ops@),
            opv.len() == no,
            forall|j: int| 0 <= j < no ==> opv[j] == (#[trigger] ops@[j])@,
            eq <= k,
            count_equal(opv) == eq + count_equal(opv.skip(k as int)),
        decreases no - k,
    {
        proof {
            assert(opv.skip(k as int)[0] == opv[k as int]);
            assert(opv.skip(k as int).drop_first() =~= opv.skip(k + 1 as int));
        }
        let is_eq = match &ops[k] {
            DiffOp::Equal(_, _) => true,
            _ => false,
        };
        if is_eq {
            eq += 1;
        }
        k += 1;
    }
    proof {
        assert(opv.skip(no as int) =~= Seq::<OpV>::empty());
        assert(eq == lcs_len(wrap_seq(old_line@), wrap_seq(new_line@)));
    }
    let similar = (4 as u128) * (eq as u128) >= (old_line.len() as u128) + (new_line.len() as u128);
    if !similar {
        let mut del: Vec<Segment> = Vec::new();
        del.push(Segment { text: crate::json::clone_chars(old_line), emphasized: false });
        let mut ins: Vec<Segment> = Vec::new();
        ins.push(Segment { text: crate::json::clone_chars(new_line), emphasized: false });
        proof {
            assert(del@.drop_last() =~= Seq::<Segment>::empty());
            assert(ins@.drop_last() =~= Seq::<Segment>::empty());
            assert(seg_concat(del@) == seg_concat(del@.drop_last()) + del@.last().text@);
            assert(seg_concat(del@.drop_last()) == Seq::<char>::empty());
            assert(del@.last().text@ == old_line@);
            assert(seg_concat(del@) =~= old_line@);
            assert(seg_concat(ins@) == seg_concat(ins@.drop_last()) + ins@.last().text@);
            assert(seg_concat(ins@.drop_last()) == Seq::<char>::empty());
            assert(ins@.last().text@ == new_line@);
            assert(seg_concat(ins@) =~= new_line@);
            assert(no_emphasis(del@));
            assert(no_emphasis(ins@));
        }
        return (del, ins);
    }
    // emphasis flags: everything is emphasized except the shared characters
    let mut fo: Vec<bool> = Vec::new();
    let mut i: usize = 0;
    while i < old_line.len()
        invariant
            fo@.len() == i,
            i <= old_line@.len(),
        decreases old_line@.len() - i,
    {
        fo.push(true);
        i += 1;
    }
    let mut fi: Vec<bool> = Vec::new();
    let mut j: usize = 0;
    while j < new_line.len()
        invariant
            fi@.len() == j,
            j <= new_line@.len(),
        decreases new_line@.len() - j,
    {
        fi.push(true);
        j += 1;
    }
    let mut k2: usize = 0;
    while k2 < no
        invariant
            k2 <= no,
            no == ops@.len(),
            fo@.len() == old_line@.len(),
            fi@.len() == new_line@.len(),
        decreases no - k2,
    {
        match &ops[k2] {
            DiffOp::Equal(x, y) => {
                let x = *x;
                let y = *y;
                if x < fo.len() {
                    fo.set(x, false);
                }
                if y < fi.len() {
                    fi.set(y, false);
                }
            },
            _ => {},
        }
        k2 += 1;
    }
    let del = segments_from(old_line, &fo);
    let ins = segments_from(new_line, &fi);
    (del, ins)
}

} // verus!

verus! {

/// An all-`Equal` script only relates equal sequences.
proof fn lemma_equal_script(ops: Seq<OpV>, ai: int, bi: int, a: Seq<Seq<char>>, b: Seq<Seq<char>>)
    requires
        script_ok(ops, ai, bi, a, b),
        forall|k: int| 0 <= k < ops.len() ==> (#[trigger] ops[k]) is Equal,
    ensures
        a.len() - ai == b.len() - bi,
        forall|d: int| 0 <= d < a.len() - ai ==> #[trigger] a[ai + d] == b[bi + d],
    decreases ops.len(),
{
    if ops.len() > 0 {
        assert(ops[0] is Equal);
        assert(forall|k: int|
            0 <= k < ops.drop_first().len() ==> (#[trigger] ops.drop_first()[k]) == ops[k + 1]);
        lemma_equal_script(ops.drop_first(), ai + 1, bi + 1, a, b);
        assert forall|d: int| 0 <= d < a.len() - ai implies #[trigger] a[ai + d] == b[bi + d] by {
            if d > 0 {
                assert(a[(ai + 1) + (d - 1)] == b[(bi + 1) + (d - 1)]);
            }
        }
    }
}

/// One unemphasized segment holding a whole line.
fn single_segment(line: &Vec<char>) -> (segs: Vec<Segment>)
    ensures
        seg_concat(segs@) == line@,
        no_emphasis(segs@),
{
    let mut segs: Vec<Segment> = Vec::new();
    segs.push(Segment { text: crate::json::clone_chars(line), emphasized: false });
    proof {
        assert(segs@.drop_last() =~= Seq::<Segment>::empty());
        assert(seg_concat(segs@) == seg_concat(segs@.drop_last()) + segs@.last().text@);
        assert(seg_concat(segs@.drop_last()) == Seq::<char>::empty());
        assert(seg_concat(segs@) =~= line@);
    }
    segs
}

/// What one rendered line must say for the script operation it renders: the
/// sign, both line-number columns and the text are fixed by the operation,
/// and an unchanged line carries no emphasis.
pub open spec fn line_matches_op(
    rl: RenderedLine,
    op: OpV,
    la: Seq<Seq<char>>,
    lb: Seq<Seq<char>>,
) -> bool {
    match op {
        OpV::Equal(x, y) => {
            &&& rl.sign == ' '
            &&& rl.old_index matches Some(u) && u as int == x
            &&& rl.new_index matches Some(v) && v as int == y
            &&& 0 <= x < la.len() && 0 <= y < lb.len() && la[x] == lb[y]
            &&& seg_concat(rl.segments@) == la[x]
            &&& no_emphasis(rl.segments@)
        },
        OpV::Delete(x) => {
            &&& rl.sign == '-'
            &&& rl.old_index matches Some(u) && u as int == x
            &&& rl.new_index is None
            &&& 0 <= x < la.len()
            &&& seg_concat(rl.segments@) == la[x]
        },
        OpV::Insert(y) => {
            &&& rl.sign == '+'
            &&& rl.new_index matches Some(v) && v as int == y
            &&& rl.old_index is None
            &&& 0 <= y < lb.len()
            &&& seg_concat(rl.segments@) == lb[y]
        },
    }
}

/// The structured diff `r` is the rendering of the edit script `ops` grouped
/// into the hunks `hunks`: the script is a valid walk of both line sequences
/// whose `Equal` count is the longest-common-subsequence length, so no
/// correct script has fewer changes; the hunks are well formed against the
/// script, in order, pairwise disjoint, and cover every change; and each
/// hunk renders exactly its range of operations, one line per operation, in
/// script order.
pub open spec fn rendered_from(
    r: DiffOutput,
    ops: Seq<DiffOp>,
    hunks: Seq<Hunk>,
    la: Seq<Seq<char>>,
    lb: Seq<Seq<char>>,
) -> bool {
    &&& script_ok(ops_view(ops), 0, 0, la, lb)
    &&& count_equal(ops_view(ops)) == lcs_len(la, lb)
    &&& hunks.len() == r.hunks@.len()
    &&& forall|h: int| 0 <= h < hunks.len() ==> hunk_ok(#[trigger] hunks[h], ops)
    &&& forall|h: int| 0 <= h < hunks.len() - 1 ==> (#[trigger] hunks[h]).end < hunks[h + 1].start
    &&& changes_covered(ops, hunks)
    &&& forall|h: int|
        0 <= h < hunks.len() ==> (#[trigger] r.hunks@[h]).lines@.len() == hunks[h].end + 1 - (
        hunks[h].start as int)
    &&& forall|h: int, k: int|
        0 <= h < hunks.len() && 0 <= k < (#[trigger] r.hunks@[h]).lines@.len()
            ==> line_matches_op(
            #[trigger] r.hunks@[h].lines@[k],
            (ops[hunks[h].start + k])@,
            la,
            lb,
        )
}

/// A correct structured diff of two line sequences: the rendering of some
/// valid minimal script, grouped into context hunks.
pub open spec fn diff_output_ok(r: DiffOutput, la: Seq<Seq<char>>, lb: Seq<Seq<char>>) -> bool {
    exists|ops: Seq<DiffOp>, hunks: Seq<Hunk>| rendered_from(r, ops, hunks, la, lb)
}

/// The whole structured diff of two texts: a minimal line edit script,
/// grouped into context hunks, with inline emphasis on similar changed line
/// pairs. There are no hunks exactly when the two texts split into the same
/// lines.
#[verifier::loop_isolation(false)]
#[verifier::rlimit(100)]
#[verifier::spinoff_prover]
pub fn compute_diff(t1: &Vec<char>, t2: &Vec<char>) -> (r: DiffOutput)
    ensures
        spec_lines(t1@) == spec_lines(t2@) ==> r.hunks@.len() == 0,
        r.hunks@.len() == 0 ==> spec_lines(t1@) == spec_lines(t2@),
        forall|h: int, k: int|
            0 <= h < r.hunks@.len() && 0 <= k < (#[trigger] r.hunks@[h]).lines@.len()
                ==> line_ok(#[trigger] r.hunks@[h].lines@[k], spec_lines(t1@), spec_lines(t2@)),
        diff_output_ok(r, spec_lines(t1@), spec_lines(t2@)),
{
    let lines1 = split_lines(t1);
    let lines2 = split_lines(t2);
    let ghost la = lines_view(lines1@);
    let ghost lb = lines_view(lines2@);
    proof {
        lemma_lines_view(lines1@);
        lemma_lines_view(lines2@);
    }
    let ops = diff_lines(&lines1, &lines2);
    proof {
        lemma_ops_view(ops@);
        lemma_script_indexes(ops_view(ops@), 0, 0, la, lb);
        if la == lb {
            lemma_lcs_refl(la);
            lemma_script_counts(ops_view(ops@), 0, 0, la, lb);
            assert(count_delete(ops_view(ops@)) == 0);
            assert(count_insert(ops_view(ops@)) == 0);
            lemma_all_equal(ops_view(ops@));
            assert forall|i: int| 0 <= i < ops@.len() implies (#[trigger] ops@[i])@ is Equal by {
                assert(ops_view(ops@)[i] == (ops@[i])@);
                assert(ops_view(ops@)[i] is Equal);
            }
        }
    }
    let hunks = group_ops(&ops);
    proof {
        if hunks@.len() == 0 {
            assert forall|k: int|
                0 <= k < ops_view(ops@).len() implies (#[trigger] ops_view(ops@)[k]) is Equal by {
                assert(ops_view(ops@)[k] == (ops@[k])@);
            }
            lemma_equal_script(ops_view(ops@), 0, 0, la, lb);
            assert forall|d: int| 0 <= d < la.len() implies la[d] == lb[d] by {
                assert(la[0 + d] == lb[0 + d]);
            }
            assert(la =~= lb);
        }
    }
    proof {
        assert forall|k: int|
            0 <= k < ops@.len() implies op_indexes_ok((#[trigger] ops@[k])@, la, lb) by {
            assert(ops_view(ops@)[k] == (ops@[k])@);
        }
    }
    let nh = hunks.len();
    let mut out_hunks: Vec<DiffHunk> = Vec::new();
    let mut h: usize = 0;
    while h < nh
        invariant
            h <= nh,
            out_hunks@.len() == h,
            forall|p: int, k: int|
                0 <= p < out_hunks@.len() && 0 <= k < (#[trigger] out_hunks@[p]).lines@.len()
                    ==> line_ok(#[trigger] out_hunks@[p].lines@[k], la, lb),
            forall|p: int|
                0 <= p < h ==> (#[trigger] out_hunks@[p]).lines@.len() == hunks@[p].end + 1 - (
                hunks@[p].start as int),
            forall|p: int, k: int|
                0 <= p < h && 0 <= k < (#[trigger] out_hunks@[p]).lines@.len() ==> line_matches_op(
                    #[trigger] out_hunks@[p].lines@[k],
                    (ops@[hunks@[p].start + k])@,
                    la,
                    lb,
                ),
        decreases nh - h,
    {
        let lines = render_hunk(&ops, &lines1, &lines2, &hunks[h]);
        out_hunks.push(DiffHunk { lines });
        h += 1;
    }
    let r = DiffOutput { hunks: out_hunks };
    proof {
        assert(rendered_from(r, ops@, hunks@, la, lb));
        assert(diff_output_ok(r, la, lb));
    }
    r
}

/// What a valid script guarantees of one operation's indices; established
/// once for the whole script and handed to the hunk renderer.
pub open spec fn op_indexes_ok(op: OpV, la: Seq<Seq<char>>, lb: Seq<Seq<char>>) -> bool {
    match op {
        OpV::Equal(x, y) => 0 <= x < la.len() && 0 <= y < lb.len() && la[x] == lb[y],
        OpV::Delete(x) => 0 <= x < la.len(),
        OpV::Insert(y) => 0 <= y < lb.len(),
    }
}

/// Renders one hunk: one line per operation of its range, in script order,
/// deletions of a change run before its insertions, paired line by line for
/// inline emphasis.
#[verifier::loop_isolation(false)]
#[verifier::rlimit(100)]
#[verifier::spinoff_prover]
fn render_hunk(
    ops: &Vec<DiffOp>,
    lines1: &Vec<Vec<char>>,
    lines2: &Vec<Vec<char>>,
    hk: &Hunk,
) -> (lines: Vec<RenderedLine>)
    requires
        hunk_ok(*hk, ops@),
        forall|k: int| 0 <= k < ops@.len() ==> op_indexes_ok((#[trigger] ops@[k])@, lines_view(
            lines1@,
        ), lines_view(lines2@)),
    ensures
        lines@.len() == hk.end + 1 - (hk.start as int),
        forall|k: int|
            0 <= k < lines@.len() ==> line_matches_op(
                #[trigger] lines@[k],
                (ops@[hk.start + k])@,
                lines_view(lines1@),
                lines_view(lines2@),
            ),
        forall|k: int|
            0 <= k < lines@.len() ==> line_ok(
                #[trigger] lines@[k],
                lines_view(lines1@),
                lines_view(lines2@),
            ),
{
    let ghost la = lines_view(lines1@);
    let ghost lb = lines_view(lines2@);
    let n_ops = ops.len();
    proof {
        lemma_lines_view(lines1@);
        lemma_lines_view(lines2@);
        assert(hk.end < n_ops);
    }
    let mut lines: Vec<RenderedLine> = Vec::new();
    let mut i = hk.start;
    while i <= hk.end
        invariant
            hunk_ok(*hk, ops@),
            hk.end < ops@.len(),
            hk.start <= i <= hk.end + 1,
            lines@.len() == i - hk.start,
            forall|k: int| 0 <= k < lines@.len() ==> line_ok(#[trigger] lines@[k], la, lb),
            forall|k: int|
                0 <= k < lines@.len() ==> line_matches_op(
                    #[trigger] lines@[k],
                    (ops@[hk.start + k])@,
                    la,
                    lb,
                ),
        decreases hk.end + 1 - i,
    {
        proof {
            assert(op_indexes_ok((ops@[i as int])@, la, lb));
        }
        match &ops[i] {
            DiffOp::Equal(x, y) => {
                let segs = single_segment(&lines1[*x]);
                lines.push(
                    RenderedLine {
                        old_index: Some(*x),
                        new_index: Some(*y),
                        sign: ' ',
                        segments: segs,
                    },
                );
                i += 1;
            },
            DiffOp::Insert(y) => {
                let segs = single_segment(&lines2[*y]);
                lines.push(
                    RenderedLine {
                        old_index: None,
                        new_index: Some(*y),
                        sign: '+',
                        segments: segs,
                    },
                );
                i += 1;
            },
            DiffOp::Delete(_) => {
                // a run of deletions, maybe followed by a run of insertions:
                // pair them up for inline emphasis
                let ds = i;
                let mut de = i;
                while de <= hk.end && matches!(&ops[de], DiffOp::Delete(_))
                    invariant
                        hk.end < ops@.len(),
                        ds <= de <= hk.end + 1,
                        forall|k: int| ds <= k < de ==> (#[trigger] ops@[k])@ is Delete,
                    decreases hk.end + 1 - de,
                {
                    de += 1;
                }
                let mut ie = de;
                while ie <= hk.end && matches!(&ops[ie], DiffOp::Insert(_))
                    invariant
                        hk.end < ops@.len(),
                        de <= ie <= hk.end + 1,
                        forall|k: int| de <= k < ie ==> (#[trigger] ops@[k])@ is Insert,
                    decreases hk.end + 1 - ie,
                {
                    ie += 1;
                }
                let mut d = ds;
                while d < de
                    invariant
                        hk.start <= ds <= d <= de <= ie <= hk.end + 1,
                        hk.end < ops@.len(),
                        lines@.len() == d - hk.start,
                        forall|k: int| ds <= k < de ==> (#[trigger] ops@[k])@ is Delete,
                        forall|k: int| de <= k < ie ==> (#[trigger] ops@[k])@ is Insert,
                        forall|k: int|
                            0 <= k < lines@.len() ==> line_ok(#[trigger] lines@[k], la, lb),
                        forall|k: int|
                            0 <= k < lines@.len() ==> line_matches_op(
                                #[trigger] lines@[k],
                                (ops@[hk.start + k])@,
                                la,
                                lb,
                            ),
                    decreases de - d,
                {
                    proof {
                        assert(op_indexes_ok((ops@[d as int])@, la, lb));
                    }
                    let x = match &ops[d] {
                        DiffOp::Delete(x) => *x,
                        _ => {
                            proof {
                                assert(false);
                            }
                            0
                        },
                    };
                    let paired = d - ds < ie - de;
                    let segs = if paired {
                        let yop = de + (d - ds);
                        let y = match &ops[yop] {
                            DiffOp::Insert(y) => *y,
                            _ => {
                                proof {
                                    assert(false);
                                }
                                0
                            },
                        };
                        proof {
                            assert(op_indexes_ok((ops@[yop as int])@, la, lb));
                        }
                        let (dsegs, _) = emphasize(&lines1[x], &lines2[y]);
                        dsegs
                    } else {
                        single_segment(&lines1[x])
                    };
                    lines.push(
                        RenderedLine {
                            old_index: Some(x),
                            new_index: None,
                            sign: '-',
                            segments: segs,
                        },
                    );
                    d += 1;
                }
                let mut e = de;
                while e < ie
                    invariant
                        hk.start <= ds <= de <= e <= ie <= hk.end + 1,
                        hk.end < ops@.len(),
                        lines@.len() == e - hk.start,
                        forall|k: int| ds <= k < de ==> (#[trigger] ops@[k])@ is Delete,
                        forall|k: int| de <= k < ie ==> (#[trigger] ops@[k])@ is Insert,
                        forall|k: int|
                            0 <= k < lines@.len() ==> line_ok(#[trigger] lines@[k], la, lb),
                        forall|k: int|
                            0 <= k < lines@.len() ==> line_matches_op(
                                #[trigger] lines@[k],
                                (ops@[hk.start + k])@,
                                la,
                                lb,
                            ),
                    decreases ie - e,
                {
                    proof {
                        assert(op_indexes_ok((ops@[e as int])@, la, lb));
                    }
                    let y = match &ops[e] {
                        DiffOp::Insert(y) => *y,
                        _ => {
                            proof {
                                assert(false);
                            }
                            0
                        },
                    };
                    let paired = e - de < de - ds;
                    let segs = if paired {
                        let xop = ds + (e - de);
                        let x = match &ops[xop] {
                            DiffOp::Delete(x) => *x,
                            _ => {
                                proof {
                                    assert(false);
                                }
                                0
                            },
                        };
                        proof {
                            assert(op_indexes_ok((ops@[xop as int])@, la, lb));
                        }
                        let (_, isegs) = emphasize(&lines1[x], &lines2[y]);
                        isegs
                    } else {
                        single_segment(&lines2[y])
                    };
                    lines.push(
                        RenderedLine {
                            old_index: None,
                            new_index: Some(y),
                            sign: '+',
                            segments: segs,
                        },
                    );
                    e += 1;
                }
                i = ie;
            },
        }
    }
    lines
}

} // verus!

verus! {

// ---------------------------------------------------------------------------
// Plain-text rendering of the structured diff. Colors are the caller's
// business; the text itself carries line numbers, signs and the line bodies.
// ---------------------------------------------------------------------------

pub open spec fn spaces_n(n: nat) -> Seq<char>
    decreases n,
{
    if n == 0 {
        Seq::empty()
    } else {
        spaces_n((n - 1) as nat).push(' ')
    }
}

pub open spec fn dashes_n(n: nat) -> Seq<char>
    decreases n,
{
    if n == 0 {
        Seq::empty()
    } else {
        dashes_n((n - 1) as nat).push('-')
    }
}

/// A line-number column: the one-based number, left-aligned to four
/// characters, or four spaces when the line has no number on that side.
pub open spec fn spec_pad4(n: Option<usize>) -> Seq<char> {
    match n {
        Option::None => spaces_n(4),
        Option::Some(x) => {
            let d = crate::strutil::spec_decimal((x + 1) as nat);
            if d.len() >= 4 {
                d
            } else {
                d + spaces_n((4 - d.len()) as nat)
            }
        },
    }
}

/// One rendered line of the textual diff: both number columns, a separator,
/// the sign, the line text, and a final newline if the text has none of its
/// own.
pub open spec fn spec_render_line(rl: RenderedLine) -> Seq<char> {
    let text = seg_concat(rl.segments@);
    let nl: Seq<char> = if text.len() == 0 || text.last() != '\n' {
        seq!['\n']
    } else {
        Seq::empty()
    };
    spec_pad4(rl.old_index) + spec_pad4(rl.new_index) + seq![' ', '|'] + seq![rl.sign] + text + nl
}

pub open spec fn spec_render_lines(lines: Seq<RenderedLine>) -> Seq<char>
    decreases lines.len(),
{
    if lines.len() == 0 {
        Seq::empty()
    } else {
        spec_render_lines(lines.drop_last()) + spec_render_line(lines.last())
    }
}

/// The divider between hunks: a full line of dashes.
pub open spec fn spec_divider() -> Seq<char> {
    dashes_n(80).push('\n')
}

pub open spec fn spec_render_hunks(hunks: Seq<DiffHunk>) -> Seq<char>
    decreases hunks.len(),
{
    if hunks.len() == 0 {
        Seq::empty()
    } else if hunks.len() == 1 {
        spec_render_lines(hunks.last().lines@)
    } else {
        spec_render_hunks(hunks.drop_last()) + spec_divider() + spec_render_lines(
            hunks.last().lines@,
        )
    }
}

/// Whether the line numbers of a structured diff are small enough to render.
pub open spec fn output_ok(o: DiffOutput) -> bool {
    forall|h: int, k: int|
        0 <= h < o.hunks@.len() && 0 <= k < (#[trigger] o.hunks@[h]).lines@.len() ==> {
            let rl = #[trigger] o.hunks@[h].lines@[k];
            &&& (rl.old_index matches Some(x) ==> x < usize::MAX)
            &&& (rl.new_index matches Some(y) ==> y < usize::MAX)
        }
}

fn pad4(n: Option<usize>, out: &mut Vec<char>)
    requires
        n matches Some(x) ==> x < usize::MAX,
    ensures
        final(out)@ == old(out)@ + spec_pad4(n),
{
    match n {
        Option::None => {
            out.push(' ');
            out.push(' ');
            out.push(' ');
            out.push(' ');
            proof {
                reveal_with_fuel(spaces_n, 5);
                assert(final(out)@ =~= old(out)@ + spec_pad4(Option::<usize>::None));
            }
        },
        Option::Some(x) => {
            let d = crate::strutil::usize_to_chars(x + 1);
            crate::strutil::push_all(out, &d);
            let mut p = d.len();
            while p < 4
                invariant
                    out@ == old(out)@ + d@ + spaces_n((p - d@.len()) as nat),
                    d@.len() <= p <= 4 || p == d@.len(),
                decreases 4 - p,
            {
                out.push(' ');
                p += 1;
            }
            proof {
                if d@.len() >= 4 {
                    assert(out@ =~= old(out)@ + d@ + spaces_n(0));
                    assert(final(out)@ =~= old(out)@ + spec_pad4(n));
                } else {
                    assert(final(out)@ =~= old(out)@ + spec_pad4(n));
                }
            }
        },
    }
}

#[verifier::rlimit(60)]
fn render_line(rl: &RenderedLine, out: &mut Vec<char>)
    requires
        rl.old_index matches Some(x) ==> x < usize::MAX,
        rl.new_index matches Some(y) ==> y < usize::MAX,
    ensures
        final(out)@ == old(out)@ + spec_render_line(*rl),
{
    pad4(rl.old_index, out);
    pad4(rl.new_index, out);
    out.push(' ');
    out.push('|');
    out.push(rl.sign);
    let mut txt: Vec<char> = Vec::new();
    let ns = rl.segments.len();
    let mut k: usize = 0;
    while k < ns
        invariant
            k <= ns,
            ns == rl.segments@.len(),
            txt@ == seg_concat(rl.segments@.take(k as int)),
        decreases ns - k,
    {
        crate::strutil::push_all(&mut txt, &rl.segments[k].text);
        proof {
            assert(rl.segments@.take(k + 1 as int).drop_last() =~= rl.segments@.take(k as int));
            assert(rl.segments@.take(k + 1 as int).last() == rl.segments@[k as int]);
        }
        k += 1;
    }
    proof {
        assert(rl.segments@.take(ns as int) =~= rl.segments@);
    }
    crate::strutil::push_all(out, &txt);
    if txt.len() == 0 || txt[txt.len() - 1] != '\n' {
        out.push('\n');
    }
    proof {
        assert(final(out)@ =~= old(out)@ + spec_render_line(*rl));
    }
}

/// Renders a structured diff as plain text: each hunk's lines in order, with
/// a dashed divider between hunks.
#[verifier::loop_isolation(false)]
pub fn render_diff(o: &DiffOutput) -> (r: String)
    requires
        output_ok(*o),
    ensures
        r@ == spec_render_hunks(o.hunks@),
{
    let mut out: Vec<char> = Vec::new();
    let nh = o.hunks.len();
    let mut h: usize = 0;
    while h < nh
        invariant
            h <= nh,
            out@ == spec_render_hunks(o.hunks@.take(h as int)),
        decreases nh - h,
    {
        if h > 0 {
            let mut p: usize = 0;
            let ghost out0 = out@;
            while p < 80
                invariant
                    p <= 80,
                    out@ == out0 + dashes_n(p as nat),
                decreases 80 - p,
            {
                out.push('-');
                p += 1;
            }
            out.push('\n');
            proof {
                assert(out@ =~= out0 + spec_divider());
            }
        }
        let lines = &o.hunks[h].lines;
        let nl = lines.len();
        let ghost out1 = out@;
        let mut k: usize = 0;
        while k < nl
            invariant
                k <= nl,
                nl == lines@.len(),
                lines == o.hunks@[h as int].lines,
                h < nh,
                out@ == out1 + spec_render_lines(lines@.take(k as int)),
            decreases nl - k,
        {
            proof {
                assert(o.hunks@[h as int].lines@[k as int] == lines@[k as int]);
            }
            render_line(&lines[k], &mut out);
            proof {
                assert(lines@.take(k + 1 as int).drop_last() =~= lines@.take(k as int));
                assert(lines@.take(k + 1 as int).last() == lines@[k as int]);
            }
            k += 1;
        }
        proof {
            assert(lines@.take(nl as int) =~= lines@);
            assert(o.hunks@.take(h + 1 as int).drop_last() =~= o.hunks@.take(h as int));
            assert(o.hunks@.take(h + 1 as int).last() == o.hunks@[h as int]);
            assert(out@ =~= spec_render_hunks(o.hunks@.take(h + 1 as int)));
        }
        h += 1;
    }
    proof {
        assert(o.hunks@.take(nh as int) =~= o.hunks@);
    }
    crate::strutil::chars_to_string(&out)
}

/// Every number column is at least four characters wide.
proof fn lemma_spaces_len(n: nat)
    ensures
        spaces_n(n).len() == n,
    decreases n,
{
    if n > 0 {
        lemma_spaces_len((n - 1) as nat);
    }
}

proof fn lemma_pad4_len(n: Option<usize>)
    ensures
        spec_pad4(n).len() >= 4,
{
    lemma_spaces_len(4);
    match n {
        Option::None => {},
        Option::Some(x) => {
            let d = crate::strutil::spec_decimal((x + 1) as nat);
            if d.len() < 4 {
                lemma_spaces_len((4 - d.len()) as nat);
            }
        },
    }
}

/// A rendered line is never empty, so a rendering with a hunk is never the
/// empty string.
proof fn lemma_render_hunks_nonempty(hunks: Seq<DiffHunk>)
    requires
        hunks.len() > 0,
        forall|h: int| 0 <= h < hunks.len() ==> (#[trigger] hunks[h]).lines@.len() > 0,
    ensures
        spec_render_hunks(hunks).len() > 0,
{
    if hunks.len() == 1 {
        let lastl = hunks.last().lines@;
        assert(lastl.len() > 0);
        lemma_pad4_len(lastl.last().old_index);
        assert(spec_render_line(lastl.last()).len() >= 4);
        assert(spec_render_lines(lastl) == spec_render_lines(lastl.drop_last())
            + spec_render_line(lastl.last()));
    } else {
        assert(spec_divider().len() >= 1);
    }
}

/// The textual diff of two texts: hunked, context-trimmed, line-numbered. Identical texts render as the empty
/// string. Rendering itself cannot fail; the `Result` is kept for callers
/// that treat rendering as fallible.
pub fn diff_text(text1: &str, text2: &str) -> (r: Result<String, crate::error::XdiffError>)
    ensures
        r is Ok,
        r matches Ok(s) ==> exists|o: DiffOutput|
            #[trigger] diff_output_ok(o, spec_lines(text1@), spec_lines(text2@)) && s@
                == spec_render_hunks(o.hunks@),
        r matches Ok(s) ==> ((s@.len() == 0) == (spec_lines(text1@) == spec_lines(text2@))),
        text1@ == text2@ ==> (r matches Ok(s) && s@ == Seq::<char>::empty()),
{
    let v1 = crate::strutil::str_to_chars(text1);
    let v2 = crate::strutil::str_to_chars(text2);
    let n1 = v1.len();
    let n2 = v2.len();
    let structured = compute_diff(&v1, &v2);
    proof {
        lemma_lines_len(v1@);
        lemma_lines_len(v2@);
        assert(spec_lines(v1@).len() <= n1);
        assert(spec_lines(v2@).len() <= n2);
        assert(output_ok(structured)) by {
            assert forall|h: int, k: int|
                0 <= h < structured.hunks@.len() && 0 <= k < (
                #[trigger] structured.hunks@[h]).lines@.len() implies {
                let rl = #[trigger] structured.hunks@[h].lines@[k];
                &&& (rl.old_index matches Some(x) ==> x < usize::MAX)
                &&& (rl.new_index matches Some(y) ==> y < usize::MAX)
            } by {
                assert(line_ok(structured.hunks@[h].lines@[k], spec_lines(v1@), spec_lines(v2@)));
                lemma_lines_len(v1@);
                lemma_lines_len(v2@);
            }
        }
    }
    let s = render_diff(&structured);
    proof {
        let la = spec_lines(v1@);
        let lb = spec_lines(v2@);
        assert(diff_output_ok(structured, la, lb) && s@ == spec_render_hunks(structured.hunks@));
        if la == lb {
            assert(structured.hunks@.len() == 0);
            assert(s@.len() == 0);
        } else {
            assert(structured.hunks@.len() > 0);
            let (ops, hunks) = choose|ops: Seq<DiffOp>, hunks: Seq<Hunk>|
                rendered_from(structured, ops, hunks, la, lb);
            assert forall|h: int|
                0 <= h < structured.hunks@.len() implies (
            #[trigger] structured.hunks@[h]).lines@.len() > 0 by {
                assert(hunk_ok(hunks[h], ops));
            }
            lemma_render_hunks_nonempty(structured.hunks@);
        }
    }
    Ok(s)
}

/// A text has at most as many lines as characters.
pub proof fn lemma_lines_len(s: Seq<char>)
    ensures
        spec_lines(s).len() <= s.len(),
{
    lemma_lines_from_len(s, 0);
}

proof fn lemma_lines_from_len(s: Seq<char>, i: int)
    requires
        0 <= i <= s.len(),
    ensures
        lines_from(s, i).len() <= s.len() - i,
    decreases s.len() - i,
{
    if i < s.len() {
        lemma_nl_from_bounds(s, i);
        let j = nl_from(s, i);
        if j < s.len() {
            lemma_lines_from_len(s, j + 1);
        }
    }
}

} // verus!
