//! Character-level helpers shared by the scanner and the indexes: the
//! lexicographic order on strings, strictly sorted string lists, and
//! conversions between `&str`, `String` and `Vec<char>`.
use vstd::prelude::*;
use vstd::std_specs::iter::IteratorSpec;

verus! {

broadcast use vstd::string::group_string_axioms;

/// Lexicographic order on character sequences, comparing code points; this is
/// the order `String` uses (byte order of UTF-8 agrees with code point order).
pub open spec fn seq_lt(a: Seq<char>, b: Seq<char>) -> bool
    decreases a.len(),
{
    if a.len() == 0 {
        b.len() > 0
    } else if b.len() == 0 {
        false
    } else if a[0] != b[0] {
        a[0] < b[0]
    } else {
        seq_lt(a.drop_first(), b.drop_first())
    }
}

/// Every element is strictly below every later one: sorted, without duplicates.
pub open spec fn strictly_sorted(s: Seq<Seq<char>>) -> bool {
    forall|i: int, j: int| 0 <= i < j < s.len() ==> seq_lt(#[trigger] s[i], #[trigger] s[j])
}

pub proof fn lemma_lt_irreflexive(a: Seq<char>)
    ensures
        !seq_lt(a, a),
    decreases a.len(),
{
    if a.len() > 0 {
        lemma_lt_irreflexive(a.drop_first());
    }
}

pub proof fn lemma_lt_asymmetric(a: Seq<char>, b: Seq<char>)
    ensures
        seq_lt(a, b) ==> !seq_lt(b, a),
    decreases a.len(),
{
    if a.len() > 0 && b.len() > 0 && a[0] == b[0] {
        lemma_lt_asymmetric(a.drop_first(), b.drop_first());
    }
}

pub proof fn lemma_lt_transitive(a: Seq<char>, b: Seq<char>, c: Seq<char>)
    requires
        seq_lt(a, b),
        seq_lt(b, c),
    ensures
        seq_lt(a, c),
    decreases a.len(),
{
    if a.len() > 0 && b.len() > 0 && c.len() > 0 && a[0] == b[0] && b[0] == c[0] {
        lemma_lt_transitive(a.drop_first(), b.drop_first(), c.drop_first());
    }
}

pub proof fn lemma_lt_total(a: Seq<char>, b: Seq<char>)
    ensures
        a != b ==> seq_lt(a, b) || seq_lt(b, a),
    decreases a.len(),
{
    if a.len() > 0 && b.len() > 0 && a[0] == b[0] {
        lemma_lt_total(a.drop_first(), b.drop_first());
        if a.drop_first() == b.drop_first() {
            assert(a =~= seq![a[0]] + a.drop_first());
            assert(b =~= seq![b[0]] + b.drop_first());
        }
    } else if a.len() == 0 && b.len() == 0 {
        assert(a =~= b);
    } else if a.len() > 0 && b.len() > 0 {
        assert(a[0] < b[0] || b[0] < a[0]);
    }
}

/// Two strictly sorted sequences with the same elements are the same sequence.
pub proof fn lemma_sorted_same_elements_equal(x: Seq<Seq<char>>, y: Seq<Seq<char>>)
    requires
        strictly_sorted(x),
        strictly_sorted(y),
        forall|t: Seq<char>| x.contains(t) <==> y.contains(t),
    ensures
        x == y,
    decreases x.len(),
{
    if x.len() == 0 {
        if y.len() > 0 {
            assert(y.contains(y[0]));
        }
        assert(x =~= y);
    } else if y.len() == 0 {
        assert(x.contains(x[0]));
    } else {
        assert(x.contains(x[0]));
        assert(y.contains(y[0]));
        let i = choose|i: int| 0 <= i < y.len() && y[i] == x[0];
        let j = choose|j: int| 0 <= j < x.len() && x[j] == y[0];
        if i > 0 {
            assert(seq_lt(y[0], y[i]));
            if j > 0 {
                assert(seq_lt(x[0], x[j]));
                lemma_lt_asymmetric(x[0], y[0]);
            } else {
                lemma_lt_irreflexive(x[0]);
            }
        }
        assert(x[0] == y[0]);
        let xs = x.drop_first();
        let ys = y.drop_first();
        assert forall|t: Seq<char>| xs.contains(t) <==> ys.contains(t) by {
            if xs.contains(t) {
                let k = choose|k: int| 0 <= k < xs.len() && xs[k] == t;
                assert(x[k + 1] == t);
                assert(seq_lt(x[0], t));
                lemma_lt_irreflexive(t);
                assert(y.contains(t));
                let m = choose|m: int| 0 <= m < y.len() && y[m] == t;
                assert(m != 0);
                assert(ys[m - 1] == t);
            }
            if ys.contains(t) {
                let k = choose|k: int| 0 <= k < ys.len() && ys[k] == t;
                assert(y[k + 1] == t);
                assert(seq_lt(y[0], t));
                lemma_lt_irreflexive(t);
                assert(x.contains(t));
                let m = choose|m: int| 0 <= m < x.len() && x[m] == t;
                assert(m != 0);
                assert(xs[m - 1] == t);
            }
        }
        lemma_sorted_same_elements_equal(xs, ys);
        assert(x =~= seq![x[0]] + xs);
        assert(y =~= seq![y[0]] + ys);
    }
}

/// What the first `i + 1` elements hold: what the first `i` hold, and `s[i]`.
pub proof fn lemma_take_one_more<A>(s: Seq<A>, i: int)
    requires
        0 <= i < s.len(),
    ensures
        forall|t: A| #[trigger]
            s.take(i + 1).contains(t) <==> (s.take(i).contains(t) || t == s[i]),
{
    assert forall|t: A| #[trigger]
        s.take(i + 1).contains(t) <==> (s.take(i).contains(t) || t == s[i]) by {
        if s.take(i + 1).contains(t) {
            let k = choose|k: int| 0 <= k < i + 1 && #[trigger] s.take(i + 1)[k] == t;
            if k < i {
                assert(s.take(i)[k] == t);
            }
        }
        if s.take(i).contains(t) {
            let k = choose|k: int| 0 <= k < i && #[trigger] s.take(i)[k] == t;
            assert(s.take(i + 1)[k] == t);
        }
        if t == s[i] {
            assert(s.take(i + 1)[i] == t);
        }
    }
}

/// Compares two strings in lexicographic order.
pub fn str_lt(a: &str, b: &str) -> (r: bool)
    ensures
        r == seq_lt(a@, b@),
{
    let mut ia = a.chars();
    let mut ib = b.chars();
    loop
        invariant
            seq_lt(ia.remaining(), ib.remaining()) == seq_lt(a@, b@),
            ia.decrease() is Some,
        decreases ia.decrease()->0,
    {
        let ra = ia.next();
        let rb = ib.next();
        match (ra, rb) {
            (None, None) => {
                return false;
            },
            (None, Some(_)) => {
                return true;
            },
            (Some(_), None) => {
                return false;
            },
            (Some(ca), Some(cb)) => {
                if ca != cb {
                    return ca < cb;
                }
            },
        }
    }
}

/// Collects the characters of a string in order.
pub fn chars_of(s: &str) -> (r: Vec<char>)
    ensures
        r@ == s@,
{
    let mut out: Vec<char> = Vec::new();
    let mut it = s.chars();
    assert(it.remaining() == s@);
    loop
        invariant
            out@ + it.remaining() == s@,
            it.decrease() is Some,
        ensures
            out@ == s@,
        decreases it.decrease()->0,
    {
        match it.next() {
            Some(c) => {
                out.push(c);
            },
            None => {
                assert(out@ + it.remaining() =~= out@);
                break;
            },
        }
    }
    out
}

/// Relies on `String::from_iter` over `char`s: the string holds exactly those
/// characters, in order.
#[verifier::external_body]
pub(crate) fn string_from_chars(cs: &[char]) -> (r: String)
    ensures
        r@ == cs@,
{
    String::from_iter(cs.iter())
}

/// The characters `cs[from..to]` as a string.
pub fn substring(cs: &Vec<char>, from: usize, to: usize) -> (r: String)
    requires
        from <= to <= cs@.len(),
    ensures
        r@ == cs@.subrange(from as int, to as int),
{
    let mut part: Vec<char> = Vec::new();
    let mut i: usize = from;
    while i < to
        invariant
            from <= i <= to <= cs@.len(),
            part@ == cs@.subrange(from as int, i as int),
        decreases to - i,
    {
        part.push(cs[i]);
        assert(part@ =~= cs@.subrange(from as int, i + 1));
        i = i + 1;
    }
    string_from_chars(part.as_slice())
}

/// Equality of two strings, character by character.
pub fn str_eq(a: &str, b: &str) -> (r: bool)
    ensures
        r == (a@ == b@),
{
    proof {
        lemma_lt_total(a@, b@);
        lemma_lt_irreflexive(a@);
    }
    !str_lt(a, b) && !str_lt(b, a)
}

} // verus!
