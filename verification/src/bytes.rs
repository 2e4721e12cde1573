//! Byte strings: comparison, order and search.

use vstd::prelude::*;

verus! {

/// The lexicographic order of byte strings: a proper prefix stands before the longer string.
pub open spec fn lex_less(a: Seq<u8>, b: Seq<u8>) -> bool
    decreases a.len(),
{
    if b.len() == 0 {
        false
    } else if a.len() == 0 {
        true
    } else if a[0] != b[0] {
        a[0] < b[0]
    } else {
        lex_less(a.skip(1), b.skip(1))
    }
}

/// Two byte strings stand to each other as they do at the first index at which they differ or one
/// of them ends.
pub proof fn law_first_difference_decides(a: Seq<u8>, b: Seq<u8>, k: int)
    requires
        0 <= k <= a.len(),
        k <= b.len(),
        forall|i: int| 0 <= i < k ==> a[i] == b[i],
        k == a.len() || k == b.len() || a[k] != b[k],
    ensures
        lex_less(a, b) <==> k < b.len() && (k == a.len() || a[k] < b[k]),
    decreases k,
{
    if k > 0 {
        assert forall|i: int| 0 <= i < k - 1 implies a.skip(1)[i] == b.skip(1)[i] by {
            assert(a[i + 1] == b[i + 1]);
        }
        assert(a[0] == b[0]);
        law_first_difference_decides(a.skip(1), b.skip(1), k - 1);
    }
}

/// Nothing stands before itself, and of two different byte strings one stands before the other.
pub proof fn lemma_lex_total(a: Seq<u8>, b: Seq<u8>)
    ensures
        lex_less(a, b) ==> a != b && !lex_less(b, a),
        a == b || lex_less(a, b) || lex_less(b, a),
    decreases a.len(),
{
    if a.len() > 0 && b.len() > 0 {
        lemma_lex_total(a.skip(1), b.skip(1));
        if a[0] == b[0] && a.skip(1) == b.skip(1) {
            assert(a =~= b) by {
                assert forall|i: int| 0 <= i < a.len() && a.len() == b.len() implies a[i]
                    == b[i] by {
                    if i > 0 {
                        assert(a.skip(1)[i - 1] == b.skip(1)[i - 1]);
                    }
                }
                assert(a.skip(1).len() == b.skip(1).len());
            }
        }
    } else if a.len() == 0 && b.len() == 0 {
        assert(a =~= b);
    }
}

pub proof fn lemma_lex_transitive(a: Seq<u8>, b: Seq<u8>, c: Seq<u8>)
    requires
        lex_less(a, b),
        lex_less(b, c),
    ensures
        lex_less(a, c),
    decreases a.len(),
{
    if a.len() > 0 {
        if a[0] == b[0] && b[0] == c[0] {
            lemma_lex_transitive(a.skip(1), b.skip(1), c.skip(1));
        }
    }
}

/// How one byte string stands to another.
#[derive(Debug, Clone, Copy, PartialEq, Eq)]
pub enum Standing {
    Before,
    Same,
    After,
}

/// Tells how `a` stands to `b` in lexicographic order.
pub fn compare(a: &[u8], b: &[u8]) -> (r: Standing)
    ensures
        r == if a@ == b@ {
            Standing::Same
        } else if lex_less(a@, b@) {
            Standing::Before
        } else {
            Standing::After
        },
{
    let mut i: usize = 0;
    assert(a@.skip(0) =~= a@);
    assert(b@.skip(0) =~= b@);
    while i < a.len() && i < b.len() && a[i] == b[i]
        invariant
            i <= a@.len(),
            i <= b@.len(),
            forall|j: int| 0 <= j < i ==> a@[j] == b@[j],
            lex_less(a@, b@) == lex_less(a@.skip(i as int), b@.skip(i as int)),
        decreases a@.len() - i,
    {
        assert(a@.skip(i as int).skip(1) =~= a@.skip(i + 1));
        assert(b@.skip(i as int).skip(1) =~= b@.skip(i + 1));
        i += 1;
    }
    if i == a.len() && i == b.len() {
        assert(a@ =~= b@);
        Standing::Same
    } else if i == a.len() {
        Standing::Before
    } else if i == b.len() {
        Standing::After
    } else if a[i] < b[i] {
        Standing::Before
    } else {
        Standing::After
    }
}

/// Tells whether two byte strings are equal.
pub fn same_bytes(a: &[u8], b: &[u8]) -> (r: bool)
    ensures
        r == (a@ == b@),
{
    if a.len() != b.len() {
        return false;
    }
    let mut i: usize = 0;
    while i < a.len()
        invariant
            i <= a@.len(),
            a@.len() == b@.len(),
            forall|j: int| 0 <= j < i ==> a@[j] == b@[j],
        decreases a@.len() - i,
    {
        if a[i] != b[i] {
            return false;
        }
        i += 1;
    }
    assert(a@ =~= b@);
    true
}

/// The index of the first `b` in `s` at `from` or after it, or the length of `s`.
pub open spec fn first_from(s: Seq<u8>, from: int, b: u8) -> int
    decreases s.len() - from,
{
    if from >= s.len() || s[from] == b {
        from
    } else {
        first_from(s, from + 1, b)
    }
}

/// What `first_from` finds: no earlier byte is `b`.
pub proof fn lemma_first_from(s: Seq<u8>, from: int, b: u8)
    requires
        0 <= from <= s.len(),
    ensures
        from <= first_from(s, from, b) <= s.len(),
        first_from(s, from, b) < s.len() ==> s[first_from(s, from, b)] == b,
        forall|i: int| from <= i < first_from(s, from, b) ==> s[i] != b,
    decreases s.len() - from,
{
    if from < s.len() && s[from] != b {
        lemma_first_from(s, from + 1, b);
    }
}

/// Only one index can be the first one.
pub proof fn lemma_first_from_is(s: Seq<u8>, from: int, b: u8, at: int)
    requires
        0 <= from <= at <= s.len(),
        at < s.len() ==> s[at] == b,
        forall|i: int| from <= i < at ==> s[i] != b,
    ensures
        first_from(s, from, b) == at,
    decreases at - from,
{
    if from < at {
        lemma_first_from_is(s, from + 1, b, at);
    }
}

/// Finds the first `b` in `s` at `from` or after it.
pub fn find_byte(s: &[u8], from: usize, b: u8) -> (r: usize)
    requires
        from <= s@.len(),
    ensures
        r == first_from(s@, from as int, b),
        from <= r <= s@.len(),
        r < s@.len() ==> s@[r as int] == b,
{
    let mut i = from;
    while i < s.len() && s[i] != b
        invariant
            from <= i <= s@.len(),
            first_from(s@, from as int, b) == first_from(s@, i as int, b),
        decreases s@.len() - i,
    {
        i += 1;
    }
    i
}

/// Appends `other` to `buf`.
pub fn push_bytes(buf: &mut Vec<u8>, other: &[u8])
    ensures
        final(buf)@ == old(buf)@ + other@,
{
    buf.extend_from_slice(other);
    assert(buf@ =~= old(buf)@ + other@);
}

} // verus!
