//! The order in which init scripts run: by file name, byte by byte.
use vstd::prelude::*;

verus! {

broadcast use vstd::seq_lib::to_multiset_build, vstd::seq_lib::to_multiset_insert,
    vstd::multiset::group_multiset_axioms, vstd::seq_lib::group_to_multiset_ensures;

/// Lexicographic order on byte strings (a proper prefix comes first), the
/// order of file names on Unix.
pub open spec fn lex_le(a: Seq<u8>, b: Seq<u8>) -> bool
    decreases a.len(),
{
    if a.len() == 0 {
        true
    } else if b.len() == 0 {
        false
    } else if a[0] != b[0] {
        a[0] < b[0]
    } else {
        lex_le(a.drop_first(), b.drop_first())
    }
}

pub proof fn lemma_lex_total(a: Seq<u8>, b: Seq<u8>)
    ensures
        lex_le(a, b) || lex_le(b, a),
    decreases a.len(),
{
    if a.len() > 0 && b.len() > 0 && a[0] == b[0] {
        lemma_lex_total(a.drop_first(), b.drop_first());
    }
}

pub proof fn lemma_lex_trans(a: Seq<u8>, b: Seq<u8>, c: Seq<u8>)
    requires
        lex_le(a, b),
        lex_le(b, c),
    ensures
        lex_le(a, c),
    decreases a.len(),
{
    if a.len() > 0 && b.len() > 0 && c.len() > 0 && a[0] == b[0] && b[0] == c[0] {
        lemma_lex_trans(a.drop_first(), b.drop_first(), c.drop_first());
    }
}

/// Two names that each come no later than the other are the same name.
pub proof fn lemma_lex_antisymmetric(a: Seq<u8>, b: Seq<u8>)
    requires
        lex_le(a, b),
        lex_le(b, a),
    ensures
        a == b,
    decreases a.len(),
{
    if a.len() == 0 {
        assert(b.len() == 0);
        assert(a =~= b);
    } else {
        lemma_lex_antisymmetric(a.drop_first(), b.drop_first());
        assert(a =~= seq![a[0]] + a.drop_first());
        assert(b =~= seq![b[0]] + b.drop_first());
    }
}

/// `a` comes no later than `b` exactly when `a` is a prefix of `b`, or at
/// the first byte where they differ `a`'s byte is the smaller.
pub proof fn lemma_lex_le_meaning(a: Seq<u8>, b: Seq<u8>)
    ensures
        lex_le(a, b) <==> (
            (a.len() <= b.len() && b.subrange(0, a.len() as int) == a)
            || exists|k: int| 0 <= k < a.len() && k < b.len() && a.subrange(0, k) == b.subrange(0, k) && #[trigger] a[k] < b[k]
        ),
    decreases a.len(),
{
    if a.len() == 0 {
        assert(b.subrange(0, 0) =~= a);
    } else if b.len() == 0 {
    } else if a[0] != b[0] {
        if a.len() <= b.len() && b.subrange(0, a.len() as int) == a {
            assert(b.subrange(0, a.len() as int)[0] == b[0]);
        }
        if a[0] < b[0] {
            assert(a.subrange(0, 0) =~= b.subrange(0, 0));
        }
        if exists|k: int| 0 <= k < a.len() && k < b.len() && a.subrange(0, k) == b.subrange(0, k) && #[trigger] a[k] < b[k] {
            let k = choose|k: int| 0 <= k < a.len() && k < b.len() && a.subrange(0, k) == b.subrange(0, k) && #[trigger] a[k] < b[k];
            if k > 0 {
                assert(a.subrange(0, k)[0] == b.subrange(0, k)[0]);
            }
        }
    } else {
        let a1 = a.drop_first();
        let b1 = b.drop_first();
        lemma_lex_le_meaning(a1, b1);
        if a1.len() <= b1.len() && b1.subrange(0, a1.len() as int) == a1 {
            assert(b.subrange(0, a.len() as int) =~= a) by {
                assert forall|i: int| 0 <= i < a.len() implies b.subrange(0, a.len() as int)[i] == a[i] by {
                    if i > 0 {
                        assert(b1.subrange(0, a1.len() as int)[i - 1] == a1[i - 1]);
                    }
                }
            }
        }
        if a.len() <= b.len() && b.subrange(0, a.len() as int) == a {
            assert(b1.subrange(0, a1.len() as int) =~= a1) by {
                assert forall|i: int| 0 <= i < a1.len() implies b1.subrange(0, a1.len() as int)[i] == a1[i] by {
                    assert(b.subrange(0, a.len() as int)[i + 1] == a[i + 1]);
                }
            }
        }
        if exists|k: int| 0 <= k < a1.len() && k < b1.len() && a1.subrange(0, k) == b1.subrange(0, k) && #[trigger] a1[k] < b1[k] {
            let k = choose|k: int| 0 <= k < a1.len() && k < b1.len() && a1.subrange(0, k) == b1.subrange(0, k) && #[trigger] a1[k] < b1[k];
            assert(a.subrange(0, k + 1) =~= seq![a[0]] + a1.subrange(0, k));
            assert(b.subrange(0, k + 1) =~= seq![b[0]] + b1.subrange(0, k));
            assert(a[k + 1] < b[k + 1]);
        }
        if exists|k: int| 0 <= k < a.len() && k < b.len() && a.subrange(0, k) == b.subrange(0, k) && #[trigger] a[k] < b[k] {
            let k = choose|k: int| 0 <= k < a.len() && k < b.len() && a.subrange(0, k) == b.subrange(0, k) && #[trigger] a[k] < b[k];
            assert(k > 0);
            assert(a1.subrange(0, k - 1) =~= a.subrange(0, k).drop_first());
            assert(b1.subrange(0, k - 1) =~= b.subrange(0, k).drop_first());
            assert(a1[k - 1] < b1[k - 1]);
        }
    }
}

/// In a sorted list distinct names stand in strictly ascending order: a
/// later name never comes no later than an earlier, different one.
pub proof fn lemma_sorted_strict(s: Seq<Vec<u8>>, i: int, j: int)
    requires
        sorted_names(s),
        0 <= i < j < s.len(),
        s[i]@ != s[j]@,
    ensures
        lex_le(s[i]@, s[j]@),
        !lex_le(s[j]@, s[i]@),
{
    if lex_le(s[j]@, s[i]@) {
        lemma_lex_antisymmetric(s[i]@, s[j]@);
    }
}

/// Names in ascending order.
pub open spec fn sorted_names(s: Seq<Vec<u8>>) -> bool {
    forall|i: int, j: int| 0 <= i < j < s.len() ==> lex_le(#[trigger] s[i]@, #[trigger] s[j]@)
}

fn lex_le_exec(a: &[u8], b: &[u8]) -> (r: bool)
    ensures
        r == lex_le(a@, b@),
{
    let mut i: usize = 0;
    assert(a@.skip(0) =~= a@ && b@.skip(0) =~= b@);
    while i < a.len() && i < b.len() && a[i] == b[i]
        invariant
            i <= a@.len(),
            i <= b@.len(),
            lex_le(a@, b@) == lex_le(a@.skip(i as int), b@.skip(i as int)),
        decreases a@.len() - i,
    {
        assert(a@.skip(i as int).drop_first() =~= a@.skip(i + 1));
        assert(b@.skip(i as int).drop_first() =~= b@.skip(i + 1));
        i = i + 1;
    }
    if i == a.len() {
        true
    } else if i == b.len() {
        false
    } else {
        a[i] < b[i]
    }
}

/// The order in which the init scripts run: their file names sorted
/// ascending, each name kept exactly as often as it was given.
pub fn script_order(names: Vec<Vec<u8>>) -> (r: Vec<Vec<u8>>)
    ensures
        sorted_names(r@),
        r@.to_multiset() == names@.to_multiset(),
{
    let mut rest = names;
    let mut out: Vec<Vec<u8>> = Vec::new();
    proof {
        assert(out@.to_multiset() =~= vstd::multiset::Multiset::empty());
    }
    while rest.len() > 0
        invariant
            sorted_names(out@),
            out@.to_multiset().add(rest@.to_multiset()) == names@.to_multiset(),
        decreases rest@.len(),
    {
        let ghost before = rest@;
        let x = rest.pop().unwrap();
        proof {
            assert(before =~= rest@.push(x));
        }
        let mut p: usize = 0;
        while p < out.len() && lex_le_exec(out[p].as_slice(), x.as_slice())
            invariant
                p <= out@.len(),
                forall|j: int| 0 <= j < p ==> lex_le(#[trigger] out@[j]@, x@),
            decreases out@.len() - p,
        {
            p = p + 1;
        }
        let ghost old_out = out@;
        out.insert(p, x);
        proof {
            assert(out@ =~= old_out.insert(p as int, x));
            if p < old_out.len() {
                lemma_lex_total(old_out[p as int]@, x@);
            }
            assert forall|i: int, j: int| 0 <= i < j < out@.len() implies lex_le(#[trigger] out@[i]@, #[trigger] out@[j]@) by {
                if j == p {
                } else if i == p {
                    assert(out@[j] == old_out[j - 1]);
                    if j - 1 > p {
                        assert(lex_le(old_out[p as int]@, old_out[j - 1]@));
                        lemma_lex_trans(x@, old_out[p as int]@, old_out[j - 1]@);
                    }
                } else if i < p && j > p {
                    assert(out@[j] == old_out[j - 1]);
                } else if j < p {
                } else {
                    assert(out@[i] == old_out[i - 1]);
                    assert(out@[j] == old_out[j - 1]);
                }
            }
        }
    }
    proof {
        assert(rest@ =~= Seq::<Vec<u8>>::empty());
        assert(rest@.to_multiset() =~= vstd::multiset::Multiset::empty());
    }
    out
}

} // verus!
