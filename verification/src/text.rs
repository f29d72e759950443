//! The order of texts.
//!
//! Texts are ordered as strings are: character by character, by the number
//! of the character, and a text comes before every text that it begins.

use vstd::prelude::*;

verus! {

/// Whether `a` and `b` agree before place `i` and part there with `a` the
/// lesser: `a` ends at `i` while `b` goes on, or `a` holds the lesser
/// character at `i`.
pub open spec fn parts_at(a: Seq<char>, b: Seq<char>, i: int) -> bool {
    &&& 0 <= i <= a.len()
    &&& i < b.len()
    &&& forall|j: int| 0 <= j < i ==> a[j] == b[j]
    &&& i < a.len() ==> (a[i] as int) < (b[i] as int)
}

/// Whether text `a` comes before text `b`.
pub open spec fn text_before(a: Seq<char>, b: Seq<char>) -> bool {
    exists|i: int| parts_at(a, b, i)
}

/// No text comes before itself.
pub proof fn lemma_not_before_itself(a: Seq<char>)
    ensures
        !text_before(a, a),
{
}

/// Where `a` comes before `b` and `b` before `c`, `a` comes before `c`.
pub proof fn lemma_before_chain(a: Seq<char>, b: Seq<char>, c: Seq<char>)
    requires
        text_before(a, b),
        text_before(b, c),
    ensures
        text_before(a, c),
{
    let i = choose|i: int| parts_at(a, b, i);
    let k = choose|k: int| parts_at(b, c, k);
    if i <= k {
        assert forall|j: int| 0 <= j < i implies a[j] == c[j] by {
            assert(a[j] == b[j] && b[j] == c[j]);
        }
        assert(parts_at(a, c, i));
    } else {
        assert forall|j: int| 0 <= j < k implies a[j] == c[j] by {
            assert(a[j] == b[j] && b[j] == c[j]);
        }
        assert(a[k] == b[k]);
        assert(parts_at(a, c, k));
    }
}

/// Two texts that agree before place `i` are the same text, or one of them
/// comes before the other.
proof fn lemma_part_somewhere(a: Seq<char>, b: Seq<char>, i: int)
    requires
        0 <= i <= a.len(),
        i <= b.len(),
        forall|j: int| 0 <= j < i ==> a[j] == b[j],
    ensures
        a == b || text_before(a, b) || text_before(b, a),
    decreases a.len() - i,
{
    if i == a.len() {
        if i == b.len() {
            assert(a =~= b);
        } else {
            assert(parts_at(a, b, i));
        }
    } else if i == b.len() {
        assert(parts_at(b, a, i));
    } else if (a[i] as int) < (b[i] as int) {
        assert(parts_at(a, b, i));
    } else if (b[i] as int) < (a[i] as int) {
        assert(parts_at(b, a, i));
    } else {
        assert(a[i] == b[i]);
        lemma_part_somewhere(a, b, i + 1);
    }
}

/// Of two different texts one comes before the other.
pub proof fn lemma_before_either(a: Seq<char>, b: Seq<char>)
    requires
        a != b,
    ensures
        text_before(a, b) || text_before(b, a),
{
    lemma_part_somewhere(a, b, 0);
}

/// Whether the text of `a` comes before the text of `b`.
pub fn text_less(a: &String, b: &String) -> (r: bool)
    ensures
        r == text_before(a@, b@),
{
    let x = a.as_str();
    let y = b.as_str();
    let n = x.unicode_len();
    let m = y.unicode_len();
    let mut i: usize = 0;
    while i < n && i < m
        invariant
            i <= n,
            i <= m,
            n == a@.len(),
            m == b@.len(),
            x@ == a@,
            y@ == b@,
            forall|j: int| 0 <= j < i ==> a@[j] == b@[j],
        decreases n - i,
    {
        let c = x.get_char(i);
        let d = y.get_char(i);
        if (c as u32) < (d as u32) {
            assert(parts_at(a@, b@, i as int));
            return true;
        }
        if (d as u32) < (c as u32) {
            assert forall|k: int| !parts_at(a@, b@, k) by {
                if parts_at(a@, b@, k) {
                    if k > i {
                        assert(a@[i as int] == b@[i as int]);
                    }
                }
            }
            return false;
        }
        assert(c == d);
        i = i + 1;
    }
    if i < m {
        assert(parts_at(a@, b@, i as int));
        true
    } else {
        assert forall|k: int| !parts_at(a@, b@, k) by {
        }
        false
    }
}

} // verus!
