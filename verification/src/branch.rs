//! Branch paths. A snapshot's place in the tree is the list of child numbers that lead to it
//! from the root; in a key it is spelled as a suffix, one `-` and a decimal number per step.

use vstd::prelude::*;

verus! {

/// The character for one decimal digit.
pub open spec fn digit_char(d: nat) -> char {
    if d == 0 {
        '0'
    } else if d == 1 {
        '1'
    } else if d == 2 {
        '2'
    } else if d == 3 {
        '3'
    } else if d == 4 {
        '4'
    } else if d == 5 {
        '5'
    } else if d == 6 {
        '6'
    } else if d == 7 {
        '7'
    } else if d == 8 {
        '8'
    } else {
        '9'
    }
}

/// The digit that a character stands for; 9 for any character past `'8'`.
pub open spec fn digit_value(c: char) -> nat {
    if c == '0' {
        0
    } else if c == '1' {
        1
    } else if c == '2' {
        2
    } else if c == '3' {
        3
    } else if c == '4' {
        4
    } else if c == '5' {
        5
    } else if c == '6' {
        6
    } else if c == '7' {
        7
    } else if c == '8' {
        8
    } else {
        9
    }
}

/// A number written in decimal, without sign or leading zeros.
pub open spec fn decimal(n: nat) -> Seq<char>
    decreases n,
{
    if n < 10 {
        seq![digit_char(n)]
    } else {
        decimal(n / 10).push(digit_char(n % 10))
    }
}

/// The number that a string of digits spells.
pub open spec fn decimal_value(digits: Seq<char>) -> nat
    decreases digits.len(),
{
    if digits.len() == 0 {
        0
    } else {
        decimal_value(digits.drop_last()) * 10 + digit_value(digits.last())
    }
}

/// The key suffix of a branch path: empty for the root, and for a child the parent's suffix,
/// a `-` and the child's number.
pub open spec fn branch_suffix(path: Seq<nat>) -> Seq<char>
    decreases path.len(),
{
    if path.len() == 0 {
        Seq::empty()
    } else {
        branch_suffix(path.drop_last()) + seq!['-'] + decimal(path.last())
    }
}

/// A decimal numeral has at least one character, none of them a `-`, and spells its number.
pub proof fn lemma_decimal(n: nat)
    ensures
        decimal(n).len() >= 1,
        forall|i: int| 0 <= i < decimal(n).len() ==> decimal(n)[i] != '-',
        decimal_value(decimal(n)) == n,
    decreases n,
{
    if n < 10 {
        assert(decimal(n).drop_last() =~= Seq::<char>::empty());
        assert(decimal_value(decimal(n).drop_last()) == 0);
    } else {
        lemma_decimal(n / 10);
        assert(decimal(n).drop_last() =~= decimal(n / 10));
    }
}

/// Different numbers have different numerals.
pub proof fn lemma_decimal_injective(a: nat, b: nat)
    requires
        decimal(a) == decimal(b),
    ensures
        a == b,
{
    lemma_decimal(a);
    lemma_decimal(b);
}

/// Different branch paths have different suffixes.
pub proof fn lemma_branch_suffix_injective(p: Seq<nat>, q: Seq<nat>)
    requires
        branch_suffix(p) == branch_suffix(q),
    ensures
        p == q,
    decreases p.len(),
{
    if p.len() == 0 || q.len() == 0 {
        if p.len() > 0 {
            lemma_decimal(p.last());
        }
        if q.len() > 0 {
            lemma_decimal(q.last());
        }
        assert(p =~= q);
    } else {
        let a = branch_suffix(p.drop_last());
        let b = branch_suffix(q.drop_last());
        let s = branch_suffix(p);
        lemma_decimal(p.last());
        lemma_decimal(q.last());
        assert(s == a + seq!['-'] + decimal(p.last()));
        assert(s == b + seq!['-'] + decimal(q.last()));
        assert(s[a.len() as int] == '-');
        assert(s[b.len() as int] == '-');
        if a.len() < b.len() {
            assert(s[b.len() as int] == decimal(p.last())[b.len() - a.len() - 1]);
        }
        if b.len() < a.len() {
            assert(s[a.len() as int] == decimal(q.last())[a.len() - b.len() - 1]);
        }
        assert(a.len() == b.len());
        assert(a =~= s.take(a.len() as int));
        assert(b =~= s.take(a.len() as int));
        assert(decimal(p.last()) =~= s.skip(a.len() as int + 1));
        assert(decimal(q.last()) =~= s.skip(a.len() as int + 1));
        lemma_decimal_injective(p.last(), q.last());
        lemma_branch_suffix_injective(p.drop_last(), q.drop_last());
        assert(p =~= p.drop_last().push(p.last()));
        assert(q =~= q.drop_last().push(q.last()));
    }
}

/// The character for the digit `d`.
fn digit(d: usize) -> (c: char)
    requires
        d < 10,
    ensures
        c == digit_char(d as nat),
{
    if d == 0 {
        '0'
    } else if d == 1 {
        '1'
    } else if d == 2 {
        '2'
    } else if d == 3 {
        '3'
    } else if d == 4 {
        '4'
    } else if d == 5 {
        '5'
    } else if d == 6 {
        '6'
    } else if d == 7 {
        '7'
    } else if d == 8 {
        '8'
    } else {
        '9'
    }
}

/// Appends the decimal numeral of `n` to `text`.
pub fn push_decimal(text: &mut String, n: usize)
    ensures
        final(text)@ == old(text)@ + decimal(n as nat),
    decreases n,
{
    if n >= 10 {
        push_decimal(text, n / 10);
    }
    text.push(digit(n % 10));
}

/// The suffix of the child numbered `index` of the branch whose suffix is `parent`.
pub fn child_suffix(parent: &str, index: usize) -> (suffix: String)
    ensures
        suffix@ == parent@ + seq!['-'] + decimal(index as nat),
{
    let mut suffix = String::from_str(parent);
    suffix.push('-');
    push_decimal(&mut suffix, index);
    suffix
}

/// A numbered key: a stem and a decimal number, as in `nic3`.
pub open spec fn numbered(stem: Seq<char>, n: nat) -> Seq<char> {
    stem + decimal(n)
}

/// Different numbers give different keys of the same stem.
pub proof fn lemma_numbered_injective(stem: Seq<char>, a: nat, b: nat)
    requires
        numbered(stem, a) == numbered(stem, b),
    ensures
        a == b,
{
    assert(decimal(a) =~= numbered(stem, a).skip(stem.len() as int));
    assert(decimal(b) =~= numbered(stem, b).skip(stem.len() as int));
    lemma_decimal_injective(a, b);
}

/// The key of the given stem and number.
pub fn numbered_key(stem: &str, n: usize) -> (key: String)
    ensures
        key@ == numbered(stem@, n as nat),
{
    let mut key = String::from_str(stem);
    push_decimal(&mut key, n);
    key
}

/// Whether `p` is an ancestor of `q`: `q` goes on where `p` ends.
pub open spec fn is_above(p: Seq<nat>, q: Seq<nat>) -> bool {
    p.len() < q.len() && p == q.take(p.len() as int)
}

/// Whether `p` and `q` part at step `d` with the larger child number on the side of `p`.
pub open spec fn branches_off(p: Seq<nat>, q: Seq<nat>, d: int) -> bool {
    &&& 0 <= d < p.len()
    &&& d < q.len()
    &&& p.take(d) == q.take(d)
    &&& p[d] > q[d]
}

/// Whether `p` and `q` part at some step with the larger child number on the side of `p`.
pub open spec fn parts_above(p: Seq<nat>, q: Seq<nat>) -> bool {
    exists|d: int| branches_off(p, q, d)
}

/// The order of the walk. A branch is visited before its descendants, and of two branches
/// that part at some step, the one with the larger child number there is visited first,
/// together with all its descendants.
pub open spec fn comes_before(p: Seq<nat>, q: Seq<nat>) -> bool {
    is_above(p, q) || parts_above(p, q)
}

/// Of two branches, at most one comes before the other.
pub proof fn lemma_order_asymmetric(p: Seq<nat>, q: Seq<nat>)
    requires
        comes_before(p, q),
    ensures
        !comes_before(q, p),
{
    if comes_before(q, p) {
        if is_above(p, q) {
            let d = choose|d: int| branches_off(q, p, d);
            assert(q.take(p.len() as int)[d] == p[d]);
        } else if is_above(q, p) {
            let d = choose|d: int| branches_off(p, q, d);
            assert(p.take(q.len() as int)[d] == q[d]);
        } else {
            let d1 = choose|d: int| branches_off(p, q, d);
            let d2 = choose|d: int| branches_off(q, p, d);
            if d1 < d2 {
                assert(q.take(d2)[d1] == p.take(d2)[d1]);
            } else if d2 < d1 {
                assert(p.take(d1)[d2] == q.take(d1)[d2]);
            }
        }
    }
}

/// The order of the walk is transitive.
pub proof fn lemma_order_transitive(p: Seq<nat>, q: Seq<nat>, r: Seq<nat>)
    requires
        comes_before(p, q),
        comes_before(q, r),
    ensures
        comes_before(p, r),
{
    if is_above(p, q) {
        if is_above(q, r) {
            assert(p =~= r.take(p.len() as int)) by {
                assert forall|k: int| 0 <= k < p.len() implies p[k] == r[k] by {
                    assert(q.take(p.len() as int)[k] == q[k]);
                    assert(r.take(q.len() as int)[k] == r[k]);
                }
            }
        } else {
            let d = choose|d: int| branches_off(q, r, d);
            if d < p.len() {
                let head_p = p.take(d);
                let head_r = r.take(d);
                assert forall|k: int| 0 <= k < d implies #[trigger] head_p[k] == head_r[k] by {
                    assert(q.take(p.len() as int)[k] == q[k]);
                    assert(q.take(d)[k] == r.take(d)[k]);
                }
                assert(head_p =~= head_r);
                assert(q.take(p.len() as int)[d] == q[d]);
                assert(branches_off(p, r, d));
            } else {
                assert(p =~= r.take(p.len() as int)) by {
                    assert forall|k: int| 0 <= k < p.len() implies p[k] == r[k] by {
                        assert(q.take(p.len() as int)[k] == q[k]);
                        assert(q.take(d)[k] == r.take(d)[k]);
                    }
                }
            }
        }
    } else {
        let d1 = choose|d: int| branches_off(p, q, d);
        if is_above(q, r) {
            lemma_branches_off_below(p, q, r, d1);
        } else {
            let d2 = choose|d: int| branches_off(q, r, d);
            let d = if d1 <= d2 {
                d1
            } else {
                d2
            };
            let head_p = p.take(d);
            let head_r = r.take(d);
            assert forall|k: int| 0 <= k < d implies #[trigger] head_p[k] == head_r[k] by {
                assert(p.take(d1)[k] == q.take(d1)[k]);
                assert(q.take(d2)[k] == r.take(d2)[k]);
            }
            assert(head_p =~= head_r);
            if d1 < d2 {
                assert(q.take(d2)[d1] == r.take(d2)[d1]);
            } else if d2 < d1 {
                assert(p.take(d1)[d2] == q.take(d1)[d2]);
            }
            assert(branches_off(p, r, d));
        }
    }
}

/// Two branches that agree on their first `i` steps and are not the same are ordered.
proof fn lemma_order_total_from(p: Seq<nat>, q: Seq<nat>, i: int)
    requires
        0 <= i <= p.len(),
        i <= q.len(),
        p.take(i) == q.take(i),
        p != q,
    ensures
        comes_before(p, q) || comes_before(q, p),
    decreases p.len() - i,
{
    if i == p.len() {
        assert(p.take(i) == p);
        if i == q.len() {
            assert(q.take(i) == q);
        }
        assert(is_above(p, q));
    } else if i == q.len() {
        assert(q.take(i) == q);
        assert(is_above(q, p));
    } else if p[i] > q[i] {
        assert(branches_off(p, q, i));
    } else if p[i] < q[i] {
        assert(branches_off(q, p, i));
    } else {
        let longer_p = p.take(i + 1);
        let longer_q = q.take(i + 1);
        assert forall|k: int| 0 <= k < i + 1 implies #[trigger] longer_p[k] == longer_q[k] by {
            if k < i {
                assert(p.take(i)[k] == q.take(i)[k]);
            }
        }
        assert(longer_p =~= longer_q);
        lemma_order_total_from(p, q, i + 1);
    }
}

/// Of two different branches, one comes before the other.
pub proof fn lemma_order_total(p: Seq<nat>, q: Seq<nat>)
    requires
        p != q,
    ensures
        comes_before(p, q) || comes_before(q, p),
{
    assert(p.take(0) =~= q.take(0));
    lemma_order_total_from(p, q, 0);
}

/// A branch that parts from `s` on the larger side parts in the same way from every
/// descendant of `s`.
pub proof fn lemma_branches_off_below(p: Seq<nat>, s: Seq<nat>, q: Seq<nat>, d: int)
    requires
        branches_off(p, s, d),
        s == q || is_above(s, q),
    ensures
        branches_off(p, q, d),
{
    if s != q {
        assert(q.take(s.len() as int)[d] == s[d]);
        let head_q = q.take(d);
        let head_p = p.take(d);
        assert forall|k: int| 0 <= k < d implies #[trigger] head_q[k] == head_p[k] by {
            assert(q.take(s.len() as int)[k] == s[k]);
            assert(s.take(d)[k] == p.take(d)[k]);
        }
        assert(head_q =~= head_p);
    }
}

/// Among finitely many branches, at least one, there is one that none of the others comes
/// before.
pub proof fn lemma_earliest(branches: Set<Seq<nat>>)
    requires
        branches.finite(),
        branches.len() > 0,
    ensures
        exists|p: Seq<nat>|
            #[trigger] branches.contains(p) && forall|q: Seq<nat>|
                branches.contains(q) ==> !#[trigger] comes_before(q, p),
    decreases branches.len(),
{
    let a = branches.choose();
    let rest = branches.remove(a);
    if rest.len() == 0 {
        assert forall|q: Seq<nat>| branches.contains(q) implies !#[trigger] comes_before(q, a) by {
            if q != a {
                assert(rest.contains(q));
            } else if comes_before(a, a) {
                lemma_order_asymmetric(a, a);
            }
        }
    } else {
        lemma_earliest(rest);
        let b = choose|p: Seq<nat>|
            #[trigger] rest.contains(p) && forall|q: Seq<nat>|
                rest.contains(q) ==> !#[trigger] comes_before(q, p);
        if comes_before(a, b) {
            assert forall|q: Seq<nat>| branches.contains(q) implies !#[trigger] comes_before(
                q,
                a,
            ) by {
                if comes_before(q, a) {
                    if q == a {
                        lemma_order_asymmetric(a, a);
                    } else {
                        assert(rest.contains(q));
                        lemma_order_transitive(q, a, b);
                    }
                }
            }
        } else {
            assert(branches.contains(b));
            assert forall|q: Seq<nat>| branches.contains(q) implies !#[trigger] comes_before(
                q,
                b,
            ) by {
                if q != a {
                    assert(rest.contains(q));
                }
            }
        }
    }
}

} // verus!
