//! The ordering interface that tree keys must provide, together with
//! implementations for integer keys and for `String` keys ordered
//! lexicographically by character.

use vstd::prelude::*;
use vstd::string::StrSliceExecFns;

verus! {

/// Outcome of a three-way key comparison.
pub enum KeyCmp {
    Less,
    Equal,
    Greater,
}

/// A total order on keys.
///
/// `le` is the specification-level order; the executable `cmp_key` must agree
/// with it. Two keys may be equivalent (each `le` the other) without being
/// equal values; the tree treats such keys as the same key.
pub trait TotalOrder: Sized {
    /// `self` comes no later than `other` in the order.
    spec fn le(self, other: Self) -> bool;

    /// Any two keys are comparable.
    proof fn lemma_total(a: Self, b: Self)
        ensures
            a.le(b) || b.le(a),
    ;

    /// The order is transitive.
    proof fn lemma_transitive(a: Self, b: Self, c: Self)
        requires
            a.le(b),
            b.le(c),
        ensures
            a.le(c),
    ;

    /// Three-way comparison, consistent with the specification-level order.
    fn cmp_key(&self, other: &Self) -> (c: KeyCmp)
        ensures
            (match c {
                KeyCmp::Less => self.le(*other) && !other.le(*self),
                KeyCmp::Equal => self.le(*other) && other.le(*self),
                KeyCmp::Greater => other.le(*self) && !self.le(*other),
            }),
    ;
}

/// `a` comes strictly before `b`.
pub open spec fn lt<K: TotalOrder>(a: K, b: K) -> bool {
    a.le(b) && !b.le(a)
}

/// `a` and `b` occupy the same position in the order.
pub open spec fn eqv<K: TotalOrder>(a: K, b: K) -> bool {
    a.le(b) && b.le(a)
}

/// The strict order is transitive.
pub proof fn lemma_lt_transitive<K: TotalOrder>(a: K, b: K, c: K)
    requires
        lt(a, b),
        lt(b, c),
    ensures
        lt(a, c),
{
    K::lemma_transitive(a, b, c);
    if c.le(a) {
        K::lemma_transitive(b, c, a);
    }
}

/// A key strictly below one of two equivalent keys is strictly below the other.
pub proof fn lemma_lt_eqv_right<K: TotalOrder>(a: K, b: K, c: K)
    requires
        lt(a, b),
        eqv(b, c),
    ensures
        lt(a, c),
{
    K::lemma_transitive(a, b, c);
    if c.le(a) {
        K::lemma_transitive(b, c, a);
    }
}

/// A key strictly above one of two equivalent keys is strictly above the other.
pub proof fn lemma_eqv_lt_left<K: TotalOrder>(a: K, b: K, c: K)
    requires
        eqv(a, b),
        lt(b, c),
    ensures
        lt(a, c),
{
    K::lemma_transitive(a, b, c);
    if c.le(a) {
        K::lemma_transitive(c, a, b);
    }
}

/// Lexicographic order on character sequences, comparing characters by
/// their scalar values. The empty sequence comes first; a proper prefix
/// comes before what it prefixes.
pub open spec fn lex_le(a: Seq<char>, b: Seq<char>) -> bool
    decreases a.len(),
{
    if a.len() == 0 {
        true
    } else if b.len() == 0 {
        false
    } else if (a[0] as u32) == (b[0] as u32) {
        lex_le(a.drop_first(), b.drop_first())
    } else {
        (a[0] as u32) < (b[0] as u32)
    }
}

/// Any two character sequences are lexicographically comparable.
pub proof fn lemma_lex_total(a: Seq<char>, b: Seq<char>)
    ensures
        lex_le(a, b) || lex_le(b, a),
    decreases a.len(),
{
    if a.len() > 0 && b.len() > 0 && (a[0] as u32) == (b[0] as u32) {
        lemma_lex_total(a.drop_first(), b.drop_first());
    }
}

/// Lexicographic order is transitive.
pub proof fn lemma_lex_transitive(a: Seq<char>, b: Seq<char>, c: Seq<char>)
    requires
        lex_le(a, b),
        lex_le(b, c),
    ensures
        lex_le(a, c),
    decreases a.len(),
{
    if a.len() > 0 && b.len() > 0 && c.len() > 0 {
        if (a[0] as u32) == (b[0] as u32) && (b[0] as u32) == (c[0] as u32) {
            lemma_lex_transitive(a.drop_first(), b.drop_first(), c.drop_first());
        }
    }
}

/// Dropping an equal prefix of two sequences does not change how they
/// compare.
proof fn lemma_lex_skip(a: Seq<char>, b: Seq<char>, i: int)
    requires
        0 <= i <= a.len(),
        i <= b.len(),
        forall|j: int| 0 <= j < i ==> (a[j] as u32) == (b[j] as u32),
    ensures
        lex_le(a, b) == lex_le(a.skip(i), b.skip(i)),
    decreases i,
{
    if i == 0 {
        assert(a.skip(0) =~= a);
        assert(b.skip(0) =~= b);
    } else {
        assert(a.len() > 0 && b.len() > 0);
        assert((a[0] as u32) == (b[0] as u32));
        assert(lex_le(a, b) == lex_le(a.drop_first(), b.drop_first()));
        assert(a.drop_first() =~= a.skip(1));
        assert(b.drop_first() =~= b.skip(1));
        lemma_lex_skip(a.skip(1), b.skip(1), i - 1);
        assert(a.skip(1).skip(i - 1) =~= a.skip(i));
        assert(b.skip(1).skip(i - 1) =~= b.skip(i));
    }
}

impl TotalOrder for String {
    open spec fn le(self, other: Self) -> bool {
        lex_le(self@, other@)
    }

    proof fn lemma_total(a: Self, b: Self) {
        lemma_lex_total(a@, b@);
    }

    proof fn lemma_transitive(a: Self, b: Self, c: Self) {
        lemma_lex_transitive(a@, b@, c@);
    }

    fn cmp_key(&self, other: &Self) -> (c: KeyCmp) {
        let a = self.as_str();
        let b = other.as_str();
        let n = a.unicode_len();
        let m = b.unicode_len();
        let mut i: usize = 0;
        while i < n && i < m
            invariant
                a@ == self@,
                b@ == other@,
                n == a@.len(),
                m == b@.len(),
                0 <= i <= n,
                i <= m,
                forall|j: int| 0 <= j < i ==> (a@[j] as u32) == (b@[j] as u32),
            decreases n - i,
        {
            let ca = a.get_char(i);
            let cb = b.get_char(i);
            let x = ca as u32;
            let y = cb as u32;
            if x < y {
                proof {
                    lemma_lex_skip(a@, b@, i as int);
                    lemma_lex_skip(b@, a@, i as int);
                    assert(a@.skip(i as int)[0] == a@[i as int]);
                    assert(b@.skip(i as int)[0] == b@[i as int]);
                }
                return KeyCmp::Less;
            }
            if x > y {
                proof {
                    lemma_lex_skip(a@, b@, i as int);
                    lemma_lex_skip(b@, a@, i as int);
                    assert(a@.skip(i as int)[0] == a@[i as int]);
                    assert(b@.skip(i as int)[0] == b@[i as int]);
                }
                return KeyCmp::Greater;
            }
            i = i + 1;
        }
        proof {
            lemma_lex_skip(a@, b@, i as int);
            lemma_lex_skip(b@, a@, i as int);
        }
        if n == m {
            KeyCmp::Equal
        } else if n < m {
            KeyCmp::Less
        } else {
            KeyCmp::Greater
        }
    }
}

impl TotalOrder for u64 {
    open spec fn le(self, other: Self) -> bool {
        self <= other
    }

    proof fn lemma_total(a: Self, b: Self) {
    }

    proof fn lemma_transitive(a: Self, b: Self, c: Self) {
    }

    fn cmp_key(&self, other: &Self) -> (c: KeyCmp) {
        if *self < *other {
            KeyCmp::Less
        } else if *self == *other {
            KeyCmp::Equal
        } else {
            KeyCmp::Greater
        }
    }
}

impl TotalOrder for i32 {
    open spec fn le(self, other: Self) -> bool {
        self <= other
    }

    proof fn lemma_total(a: Self, b: Self) {
    }

    proof fn lemma_transitive(a: Self, b: Self, c: Self) {
    }

    fn cmp_key(&self, other: &Self) -> (c: KeyCmp) {
        if *self < *other {
            KeyCmp::Less
        } else if *self == *other {
            KeyCmp::Equal
        } else {
            KeyCmp::Greater
        }
    }
}

} // verus!
