//! The order of texts: character by character, a proper prefix first. It is
//! the order in which strings sort, and the order in which polls are listed
//! by hash.

use vstd::prelude::*;
use vstd::string::StrSliceExecFns;

verus! {

/// `a` sorts before `b`, given that they agree before position `from`.
pub open spec fn less_from(a: Seq<char>, b: Seq<char>, from: int) -> bool
    decreases a.len() - from,
{
    if from < 0 || from >= b.len() {
        false
    } else if from >= a.len() {
        true
    } else if a[from] != b[from] {
        (a[from] as u32) < (b[from] as u32)
    } else {
        less_from(a, b, from + 1)
    }
}

/// `a` sorts before `b`.
pub open spec fn text_less(a: Seq<char>, b: Seq<char>) -> bool {
    less_from(a, b, 0)
}

/// Sorting before is transitive.
pub proof fn lemma_less_transitive(a: Seq<char>, b: Seq<char>, c: Seq<char>, from: int)
    requires
        less_from(a, b, from),
        less_from(b, c, from),
    ensures
        less_from(a, c, from),
    decreases a.len() - from,
{
    if 0 <= from < a.len() && from < b.len() && from < c.len() && a[from] == b[from] && b[from]
        == c[from] {
        lemma_less_transitive(a, b, c, from + 1);
    }
}

/// Of two different texts one sorts before the other.
pub proof fn lemma_less_total(a: Seq<char>, b: Seq<char>, from: int)
    requires
        0 <= from <= a.len(),
        from <= b.len(),
        forall|k: int| 0 <= k < from ==> a[k] == b[k],
        a != b,
    ensures
        less_from(a, b, from) || less_from(b, a, from),
    decreases a.len() - from,
{
    if from >= a.len() && from >= b.len() {
        assert(a =~= b);
    } else if from < a.len() && from < b.len() {
        if a[from] == b[from] {
            lemma_less_total(a, b, from + 1);
        } else {
            vstd::utf8::char_u32_cast(a[from], a[from] as u32);
            vstd::utf8::char_u32_cast(b[from], b[from] as u32);
            assert((a[from] as u32) != (b[from] as u32));
        }
    } else if from >= a.len() {
        assert(less_from(a, b, from));
    } else {
        assert(less_from(b, a, from));
    }
}

/// Whether `a` sorts before `b`.
pub fn text_before(a: &String, b: &String) -> (less: bool)
    ensures
        less == text_less(a@, b@),
{
    let n = a.as_str().unicode_len();
    let m = b.as_str().unicode_len();
    let mut i: usize = 0;
    while i < n && i < m
        invariant
            n == a@.len(),
            m == b@.len(),
            i <= n,
            i <= m,
            text_less(a@, b@) == less_from(a@, b@, i as int),
        decreases n - i,
    {
        let x = a.as_str().get_char(i);
        let y = b.as_str().get_char(i);
        if x != y {
            return (x as u32) < (y as u32);
        }
        i += 1;
    }
    i < m
}

} // verus!
