//! Lexicographic orders: on variable names, and on sequences in general.
//!
//! Canonical forms are kept sorted, so they need a strict total order on
//! names and one on factor lists. Both are instances of the lexicographic
//! order defined here.

use vstd::prelude::*;

verus! {

/// The lexicographic order on sequences that `lt` induces: a proper prefix
/// comes first, and otherwise the first differing position decides.
pub open spec fn lex_lt<T>(a: Seq<T>, b: Seq<T>, lt: spec_fn(T, T) -> bool) -> bool
    decreases a.len(),
{
    if b.len() == 0 {
        false
    } else if a.len() == 0 {
        true
    } else if a[0] == b[0] {
        lex_lt(a.drop_first(), b.drop_first(), lt)
    } else {
        lt(a[0], b[0])
    }
}

/// `lt` is a strict total order.
pub open spec fn strict_total_order<T>(lt: spec_fn(T, T) -> bool) -> bool {
    &&& forall|x: T| !#[trigger] lt(x, x)
    &&& forall|x: T, y: T, z: T| #[trigger] lt(x, y) && #[trigger] lt(y, z) ==> lt(x, z)
    &&& forall|x: T, y: T| x == y || #[trigger] lt(x, y) || lt(y, x)
}

/// No sequence comes before itself.
pub proof fn lemma_lex_irreflexive<T>(a: Seq<T>, lt: spec_fn(T, T) -> bool)
    ensures
        !lex_lt(a, a, lt),
    decreases a.len(),
{
    if a.len() > 0 {
        lemma_lex_irreflexive(a.drop_first(), lt);
    }
}

/// The lexicographic order of a strict total order is transitive.
pub proof fn lemma_lex_transitive<T>(a: Seq<T>, b: Seq<T>, c: Seq<T>, lt: spec_fn(T, T) -> bool)
    requires
        strict_total_order(lt),
        lex_lt(a, b, lt),
        lex_lt(b, c, lt),
    ensures
        lex_lt(a, c, lt),
    decreases a.len(),
{
    if a.len() > 0 {
        if a[0] == b[0] && b[0] == c[0] {
            lemma_lex_transitive(a.drop_first(), b.drop_first(), c.drop_first(), lt);
        } else if a[0] != b[0] && b[0] != c[0] {
            assert(lt(a[0], b[0]) && lt(b[0], c[0]));
            assert(lt(a[0], c[0]));
        }
    }
}

/// Two sequences are equal, or one comes before the other.
pub proof fn lemma_lex_total<T>(a: Seq<T>, b: Seq<T>, lt: spec_fn(T, T) -> bool)
    requires
        strict_total_order(lt),
    ensures
        a == b || lex_lt(a, b, lt) || lex_lt(b, a, lt),
    decreases a.len(),
{
    if a.len() == 0 || b.len() == 0 {
        if a.len() == 0 && b.len() == 0 {
            assert(a =~= b);
        }
    } else if a[0] == b[0] {
        lemma_lex_total(a.drop_first(), b.drop_first(), lt);
        if a.drop_first() == b.drop_first() {
            assert(a =~= seq![a[0]] + a.drop_first());
            assert(b =~= seq![b[0]] + b.drop_first());
        }
    } else {
        assert(lt(a[0], b[0]) || lt(b[0], a[0]));
    }
}

/// The order restricted to what follows a common prefix.
pub proof fn lemma_lex_skip<T>(a: Seq<T>, b: Seq<T>, lt: spec_fn(T, T) -> bool, i: int)
    requires
        0 <= i <= a.len(),
        i <= b.len(),
        forall|j: int| 0 <= j < i ==> a[j] == b[j],
    ensures
        lex_lt(a, b, lt) == lex_lt(a.skip(i), b.skip(i), lt),
    decreases i,
{
    if i > 0 {
        lemma_lex_skip(a.drop_first(), b.drop_first(), lt, i - 1);
        assert(a.drop_first().skip(i - 1) =~= a.skip(i));
        assert(b.drop_first().skip(i - 1) =~= b.skip(i));
    } else {
        assert(a.skip(0) =~= a);
        assert(b.skip(0) =~= b);
    }
}

/// A machine index as a mathematical integer.
pub open spec fn as_index(i: usize) -> int {
    i as int
}

/// Every earlier element of `s` is `lt` every later one.
pub open spec fn sorted_by<T>(s: Seq<T>, lt: spec_fn(T, T) -> bool) -> bool {
    forall|i: int, j: int| 0 <= i < j < s.len() ==> #[trigger] lt(s[i], s[j])
}

/// `lt` is irreflexive and transitive.
pub open spec fn strict_order<T>(lt: spec_fn(T, T) -> bool) -> bool {
    &&& forall|x: T| !#[trigger] lt(x, x)
    &&& forall|x: T, y: T, z: T| #[trigger] lt(x, y) && #[trigger] lt(y, z) ==> lt(x, z)
}

/// Two strictly sorted sequences with the same elements are the same sequence.
pub proof fn lemma_sorted_unique<T>(a: Seq<T>, b: Seq<T>, lt: spec_fn(T, T) -> bool)
    requires
        strict_order(lt),
        sorted_by(a, lt),
        sorted_by(b, lt),
        forall|x: T| a.contains(x) <==> b.contains(x),
    ensures
        a == b,
    decreases a.len(),
{
    if a.len() == 0 {
        if b.len() > 0 {
            assert(b.contains(b[0]));
        }
        assert(a =~= b);
    } else {
        let x = a.last();
        assert(a.contains(x));
        assert(b.contains(x));
        let y = b.last();
        assert(b.contains(y));
        assert(a.contains(y));
        let ix = choose|i: int| 0 <= i < b.len() && b[i] == x;
        let iy = choose|i: int| 0 <= i < a.len() && a[i] == y;
        if x != y {
            assert(lt(b[ix], b[b.len() - 1]));
            assert(lt(a[iy], a[a.len() - 1]));
            assert(lt(x, x));
        }
        let a0 = a.drop_last();
        let b0 = b.drop_last();
        assert forall|z: T| a0.contains(z) <==> b0.contains(z) by {
            if a0.contains(z) {
                let i = choose|i: int| 0 <= i < a0.len() && a0[i] == z;
                assert(lt(a[i], a[a.len() - 1]));
                assert(a.contains(z));
                let j = choose|j: int| 0 <= j < b.len() && b[j] == z;
                assert(j < b.len() - 1);
                assert(b0[j] == z);
            }
            if b0.contains(z) {
                let i = choose|i: int| 0 <= i < b0.len() && b0[i] == z;
                assert(lt(b[i], b[b.len() - 1]));
                assert(b.contains(z));
                let j = choose|j: int| 0 <= j < a.len() && a[j] == z;
                assert(j < a.len() - 1);
                assert(a0[j] == z);
            }
        }
        assert(sorted_by(a0, lt)) by {
            assert forall|i: int, j: int| 0 <= i < j < a0.len() implies #[trigger] lt(
                a0[i],
                a0[j],
            ) by {
                assert(lt(a[i], a[j]));
            }
        }
        assert(sorted_by(b0, lt)) by {
            assert forall|i: int, j: int| 0 <= i < j < b0.len() implies #[trigger] lt(
                b0[i],
                b0[j],
            ) by {
                assert(lt(b[i], b[j]));
            }
        }
        lemma_sorted_unique(a0, b0, lt);
        assert(a =~= a0.push(x));
        assert(b =~= b0.push(y));
    }
}

/// The order of characters by code point.
pub open spec fn char_lt(x: char, y: char) -> bool {
    (x as u32) < (y as u32)
}

/// [`char_lt`] as a function value.
pub open spec fn char_order() -> spec_fn(char, char) -> bool {
    |x: char, y: char| char_lt(x, y)
}

/// The order of variable names: lexicographic by code point.
pub open spec fn name_lt(a: Seq<char>, b: Seq<char>) -> bool {
    lex_lt(a, b, char_order())
}

/// [`name_lt`] as a function value.
pub open spec fn name_order() -> spec_fn(Seq<char>, Seq<char>) -> bool {
    |a: Seq<char>, b: Seq<char>| name_lt(a, b)
}

/// Code points order characters strictly and totally.
pub proof fn lemma_char_order()
    ensures
        strict_total_order(char_order()),
{
    assert forall|x: char, y: char| x == y || #[trigger] char_order()(x, y) || char_order()(
        y,
        x,
    ) by {
        lemma_char_total(x, y);
    }
}

/// Two characters are equal, or one has the smaller code point.
proof fn lemma_char_total(x: char, y: char)
    ensures
        x == y || char_lt(x, y) || char_lt(y, x),
{
    if (x as u32) == (y as u32) {
        vstd::utf8::char_u32_cast(x, x as u32);
        vstd::utf8::char_u32_cast(y, y as u32);
    }
}

/// Names are ordered strictly and totally.
pub proof fn lemma_name_order()
    ensures
        strict_total_order(name_order()),
{
    lemma_char_order();
    assert forall|x: Seq<char>| !#[trigger] name_order()(x, x) by {
        lemma_lex_irreflexive(x, char_order());
    }
    assert forall|x: Seq<char>, y: Seq<char>, z: Seq<char>| #[trigger]
        name_order()(x, y) && #[trigger] name_order()(y, z) implies name_order()(x, z) by {
        lemma_lex_transitive(x, y, z, char_order());
    }
    assert forall|x: Seq<char>, y: Seq<char>| x == y || #[trigger] name_order()(x, y)
        || name_order()(y, x) by {
        lemma_lex_total(x, y, char_order());
    }
}

/// Names are ordered strictly and totally, stated on [`name_lt`] itself.
pub proof fn lemma_name_lt_properties()
    ensures
        forall|x: Seq<char>| !#[trigger] name_lt(x, x),
        forall|x: Seq<char>, y: Seq<char>, z: Seq<char>| #[trigger]
            name_lt(x, y) && #[trigger] name_lt(y, z) ==> name_lt(x, z),
        forall|x: Seq<char>, y: Seq<char>| x == y || #[trigger] name_lt(x, y) || name_lt(y, x),
{
    lemma_name_order();
    assert forall|x: Seq<char>| !#[trigger] name_lt(x, x) by {
        assert(!name_order()(x, x));
    }
    assert forall|x: Seq<char>, y: Seq<char>, z: Seq<char>| #[trigger]
        name_lt(x, y) && #[trigger] name_lt(y, z) implies name_lt(x, z) by {
        assert(name_order()(x, y) && name_order()(y, z));
        assert(name_order()(x, z));
    }
    assert forall|x: Seq<char>, y: Seq<char>| x == y || #[trigger] name_lt(x, y) || name_lt(
        y,
        x,
    ) by {
        assert(x == y || name_order()(x, y) || name_order()(y, x));
    }
}

/// Compares two names with the order of `str`, which the standard library
/// documents as lexicographic by byte value, that is by code point.
#[verifier::external_body]
pub(crate) fn name_precedes(a: &str, b: &str) -> (r: bool)
    ensures
        r == name_lt(a@, b@),
{
    a < b
}

} // verus!
