//! The lexicographic order on strings and canonical sorted sequences of strings.
use vstd::prelude::*;

verus! {

/// Strict lexicographic order on character sequences, comparing characters by code
/// point. This is the order of `str`'s `Ord` impl, since UTF-8 preserves code point order.
pub open spec fn seq_lt(a: Seq<char>, b: Seq<char>) -> bool
    decreases a.len(),
{
    if a.len() == 0 {
        b.len() > 0
    } else if b.len() == 0 {
        false
    } else if a[0] == b[0] {
        seq_lt(a.drop_first(), b.drop_first())
    } else {
        (a[0] as u32) < (b[0] as u32)
    }
}

/// No string comes before itself.
pub proof fn lemma_lt_irreflexive(a: Seq<char>)
    ensures
        !seq_lt(a, a),
    decreases a.len(),
{
    if a.len() > 0 {
        lemma_lt_irreflexive(a.drop_first());
    }
}

/// Two strings are not each before the other.
pub proof fn lemma_lt_asymmetric(a: Seq<char>, b: Seq<char>)
    ensures
        !(seq_lt(a, b) && seq_lt(b, a)),
    decreases a.len(),
{
    if a.len() > 0 && b.len() > 0 && a[0] == b[0] {
        lemma_lt_asymmetric(a.drop_first(), b.drop_first());
    }
}

/// The lexicographic order is transitive.
pub proof fn lemma_lt_transitive(a: Seq<char>, b: Seq<char>, c: Seq<char>)
    requires
        seq_lt(a, b),
        seq_lt(b, c),
    ensures
        seq_lt(a, c),
    decreases a.len(),
{
    if a.len() > 0 && b.len() > 0 && c.len() > 0 && a[0] == b[0] && b[0] == c[0] {
        lemma_lt_transitive(a.drop_first(), b.drop_first(), c.drop_first());
    } else if a.len() > 0 && b.len() > 0 && c.len() > 0 {
        if (a[0] as u32) == (b[0] as u32) {
            lemma_char_cast_injective(a[0], b[0]);
        }
        if (b[0] as u32) == (c[0] as u32) {
            lemma_char_cast_injective(b[0], c[0]);
        }
        if (a[0] as u32) == (c[0] as u32) {
            lemma_char_cast_injective(a[0], c[0]);
        }
    }
}

/// Of two different strings, one comes before the other.
pub proof fn lemma_lt_total(a: Seq<char>, b: Seq<char>)
    ensures
        a == b || seq_lt(a, b) || seq_lt(b, a),
    decreases a.len(),
{
    if a.len() == 0 {
        if b.len() == 0 {
            assert(a =~= b);
        }
    } else if b.len() > 0 {
        if a[0] == b[0] {
            lemma_lt_total(a.drop_first(), b.drop_first());
            if a.drop_first() == b.drop_first() {
                assert(a =~= seq![a[0]] + a.drop_first());
                assert(b =~= seq![b[0]] + b.drop_first());
            }
        } else if (a[0] as u32) == (b[0] as u32) {
            lemma_char_cast_injective(a[0], b[0]);
        }
    }
}

proof fn lemma_char_cast_injective(c: char, d: char)
    requires
        (c as u32) == (d as u32),
    ensures
        c == d,
{
    vstd::utf8::char_u32_cast(c, c as u32);
    vstd::utf8::char_u32_cast(d, d as u32);
}

/// Every element is strictly below every later one.
pub open spec fn strictly_sorted(s: Seq<Seq<char>>) -> bool {
    forall|i: int, j: int| 0 <= i < j < s.len() ==> seq_lt(#[trigger] s[i], #[trigger] s[j])
}

/// The elements of the finite set `s` in increasing order.
pub open spec fn sorted_set(s: Set<Seq<char>>) -> Seq<Seq<char>> {
    choose|q: Seq<Seq<char>>| strictly_sorted(q) && q.to_set() == s
}

/// A strictly sorted sequence is determined by its set of elements.
pub proof fn lemma_sorted_unique(a: Seq<Seq<char>>, b: Seq<Seq<char>>)
    requires
        strictly_sorted(a),
        strictly_sorted(b),
        a.to_set() == b.to_set(),
    ensures
        a == b,
    decreases a.len(),
{
    if a.len() == 0 {
        if b.len() > 0 {
            assert(b.to_set().contains(b[0]));
        }
        assert(a =~= b);
    } else {
        assert(a.to_set().contains(a[0]));
        assert(b.len() > 0);
        assert(b.to_set().contains(b[0]));
        let j = choose|j: int| 0 <= j < a.len() && a[j] == b[0];
        let k = choose|k: int| 0 <= k < b.len() && b[k] == a[0];
        if a[0] != b[0] {
            assert(j > 0);
            assert(k > 0);
            assert(seq_lt(a[0], a[j]));
            assert(seq_lt(b[0], b[k]));
            lemma_lt_asymmetric(a[0], b[0]);
        }
        let a1 = a.drop_first();
        let b1 = b.drop_first();
        assert forall|x: Seq<char>| a1.to_set().contains(x) implies b1.to_set().contains(x) by {
            let i = choose|i: int| 0 <= i < a1.len() && a1[i] == x;
            assert(a[i + 1] == x);
            assert(seq_lt(a[0], x));
            assert(b.to_set().contains(x));
            let m = choose|m: int| 0 <= m < b.len() && b[m] == x;
            if m == 0 {
                lemma_lt_irreflexive(x);
            }
            assert(b1[m - 1] == x);
        }
        assert forall|x: Seq<char>| b1.to_set().contains(x) implies a1.to_set().contains(x) by {
            let i = choose|i: int| 0 <= i < b1.len() && b1[i] == x;
            assert(b[i + 1] == x);
            assert(seq_lt(b[0], x));
            assert(a.to_set().contains(x));
            let m = choose|m: int| 0 <= m < a.len() && a[m] == x;
            if m == 0 {
                lemma_lt_irreflexive(x);
            }
            assert(a1[m - 1] == x);
        }
        assert(a1.to_set() =~= b1.to_set());
        lemma_sorted_unique(a1, b1);
        assert(a =~= seq![a[0]] + a1);
        assert(b =~= seq![b[0]] + b1);
    }
}

/// A strictly sorted sequence is the canonical listing of its elements.
pub proof fn lemma_sorted_set_of(q: Seq<Seq<char>>)
    requires
        strictly_sorted(q),
    ensures
        sorted_set(q.to_set()) == q,
{
    let c = sorted_set(q.to_set());
    assert(strictly_sorted(c) && c.to_set() == q.to_set());
    lemma_sorted_unique(c, q);
}

/// A strictly sorted sequence holds no element twice.
pub proof fn lemma_sorted_no_duplicates(q: Seq<Seq<char>>)
    requires
        strictly_sorted(q),
    ensures
        q.no_duplicates(),
{
    assert forall|i: int, j: int| 0 <= i < q.len() && 0 <= j < q.len() && i != j implies q[i]
        != q[j] by {
        if i < j {
            assert(seq_lt(q[i], q[j]));
            if q[i] == q[j] {
                lemma_lt_irreflexive(q[i]);
            }
        } else {
            assert(seq_lt(q[j], q[i]));
            if q[i] == q[j] {
                lemma_lt_irreflexive(q[i]);
            }
        }
    }
}

/// Compares two strings in the lexicographic order.
pub fn str_lt(a: &str, b: &str) -> (res: bool)
    ensures
        res == seq_lt(a@, b@),
{
    let la = a.unicode_len();
    let lb = b.unicode_len();
    let mut i: usize = 0;
    assert(a@.skip(0) =~= a@);
    assert(b@.skip(0) =~= b@);
    while i < la && i < lb
        invariant
            la == a@.len(),
            lb == b@.len(),
            i <= la,
            i <= lb,
            a@.subrange(0, i as int) == b@.subrange(0, i as int),
            seq_lt(a@, b@) == seq_lt(a@.skip(i as int), b@.skip(i as int)),
        decreases la - i,
    {
        let ca = a.get_char(i);
        let cb = b.get_char(i);
        assert(a@.skip(i as int)[0] == ca);
        assert(b@.skip(i as int)[0] == cb);
        if ca != cb {
            assert((ca as u32) != (cb as u32));
            return (ca as u32) < (cb as u32);
        }
        assert(a@.skip(i as int).drop_first() =~= a@.skip(i + 1));
        assert(b@.skip(i as int).drop_first() =~= b@.skip(i + 1));
        assert(a@.subrange(0, i + 1) =~= a@.subrange(0, i as int).push(ca));
        assert(b@.subrange(0, i + 1) =~= b@.subrange(0, i as int).push(cb));
        i = i + 1;
    }
    i == la && i < lb
}

/// The position at which `x` fits in the strictly sorted `s`, which does not hold `x`.
pub proof fn sorted_position(s: Seq<Seq<char>>, x: Seq<char>) -> (i: int)
    requires
        strictly_sorted(s),
        !s.contains(x),
    ensures
        0 <= i <= s.len(),
        forall|k: int| 0 <= k < i ==> seq_lt(#[trigger] s[k], x),
        i < s.len() ==> seq_lt(x, s[i]),
    decreases s.len(),
{
    if s.len() == 0 {
        0
    } else {
        lemma_lt_total(x, s.last());
        if seq_lt(s.last(), x) {
            assert forall|k: int| 0 <= k < s.len() implies seq_lt(#[trigger] s[k], x) by {
                if k < s.len() - 1 {
                    lemma_lt_transitive(s[k], s.last(), x);
                }
            }
            s.len() as int
        } else {
            assert(!s.drop_last().contains(x)) by {
                if s.drop_last().contains(x) {
                    let j = choose|j: int| 0 <= j < s.drop_last().len() && s.drop_last()[j] == x;
                    assert(s[j] == x);
                }
            }
            let i = sorted_position(s.drop_last(), x);
            assert forall|k: int| 0 <= k < i implies seq_lt(#[trigger] s[k], x) by {
                assert(s.drop_last()[k] == s[k]);
            }
            if i < s.len() - 1 {
                assert(s.drop_last()[i] == s[i]);
            }
            i
        }
    }
}

/// Compares two strings for equality.
pub fn str_eq(a: &str, b: &str) -> (res: bool)
    ensures
        res == (a@ == b@),
{
    proof {
        lemma_lt_total(a@, b@);
        lemma_lt_irreflexive(a@);
    }
    !str_lt(a, b) && !str_lt(b, a)
}

/// Inserting `x` at a position where it fits keeps a sequence strictly sorted.
pub proof fn lemma_insert_keeps_sorted(s: Seq<Seq<char>>, i: int, x: Seq<char>)
    requires
        strictly_sorted(s),
        0 <= i <= s.len(),
        forall|k: int| 0 <= k < i ==> seq_lt(#[trigger] s[k], x),
        i < s.len() ==> seq_lt(x, s[i]),
    ensures
        strictly_sorted(s.insert(i, x)),
        s.insert(i, x).to_set() == s.to_set().insert(x),
{
    let t = s.insert(i, x);
    assert forall|p: int, q: int| 0 <= p < q < t.len() implies seq_lt(
        #[trigger] t[p],
        #[trigger] t[q],
    ) by {
        if p < i && q == i {
        } else if p < i && q > i {
            assert(seq_lt(s[p], x));
            if q - 1 > i {
                assert(seq_lt(s[i], s[q - 1]));
                lemma_lt_transitive(x, s[i], s[q - 1]);
            }
            lemma_lt_transitive(s[p], x, s[q - 1]);
        } else if p == i {
            if q - 1 > i {
                assert(seq_lt(s[i], s[q - 1]));
                lemma_lt_transitive(x, s[i], s[q - 1]);
            }
        } else if p < i && q < i {
        } else {
            assert(seq_lt(s[p - 1], s[q - 1]));
        }
    }
    assert forall|y: Seq<char>| t.to_set().contains(y) <==> s.to_set().insert(x).contains(y) by {
        if t.to_set().contains(y) {
            let k = choose|k: int| 0 <= k < t.len() && t[k] == y;
            if k < i {
                assert(s[k] == y);
            } else if k > i {
                assert(s[k - 1] == y);
            }
        }
        if s.to_set().contains(y) {
            let k = choose|k: int| 0 <= k < s.len() && s[k] == y;
            if k < i {
                assert(t[k] == y);
            } else {
                assert(t[k + 1] == y);
            }
        }
        if y == x {
            assert(t[i] == y);
        }
    }
    assert(t.to_set() =~= s.to_set().insert(x));
}

/// Inserts `x` into the strictly sorted vector `v`, unless it is already there.
pub fn insert_sorted<'a>(v: &mut Vec<&'a str>, x: &'a str)
    requires
        strictly_sorted(old(v)@.map_values(|s: &str| s@)),
    ensures
        strictly_sorted(final(v)@.map_values(|s: &str| s@)),
        final(v)@.map_values(|s: &str| s@).to_set() == old(v)@.map_values(|s: &str| s@).to_set().insert(x@),
{
    let ghost old_v = v@.map_values(|s: &str| s@);
    let mut i: usize = 0;
    while i < v.len()
        invariant
            old_v == v@.map_values(|s: &str| s@),
            strictly_sorted(old_v),
            i <= v.len(),
            forall|k: int| 0 <= k < i ==> seq_lt(#[trigger] old_v[k], x@),
        ensures
            i <= v.len(),
            forall|k: int| 0 <= k < i ==> seq_lt(#[trigger] old_v[k], x@),
            i < v.len() ==> !seq_lt(old_v[i as int], x@),
        decreases v.len() - i,
    {
        if !str_lt(v[i], x) {
            break;
        }
        i = i + 1;
    }
    if i < v.len() && !str_lt(x, v[i]) {
        proof {
            lemma_lt_total(x@, v[i as int]@);
        }
        assert(old_v[i as int] == x@);
        assert(old_v.to_set().insert(x@) =~= old_v.to_set());
        return;
    }
    proof {
        if i < v.len() {
            lemma_lt_total(x@, v[i as int]@);
        }
        lemma_insert_keeps_sorted(old_v, i as int, x@);
    }
    v.insert(i, x);
    assert(v@.map_values(|s: &str| s@) =~= old_v.insert(i as int, x@));
}

} // verus!
