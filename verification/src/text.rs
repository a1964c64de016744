//! Names of members and columns: how they are compared, ordered and joined.

use vstd::prelude::*;
use vstd::utf8::*;

verus! {

/// How one name stands to another.
#[derive(Clone, Copy, Debug, PartialEq, Eq, Structural)]
pub enum Order {
    Before,
    Same,
    After,
}

/// The bytes by which names are compared: their UTF-8 encoding.
pub open spec fn bytes_of(name: Seq<char>) -> Seq<u8> {
    encode_utf8(name)
}

/// The first `k` bytes of `a` and of `b` are the same.
pub open spec fn agree_up_to(a: Seq<u8>, b: Seq<u8>, k: int) -> bool {
    &&& 0 <= k <= a.len()
    &&& k <= b.len()
    &&& forall|j: int| 0 <= j < k ==> a[j] == b[j]
}

/// `a` and `b` agree on their first `k` bytes and `a` is the smaller after
/// them: it ends there while `b` goes on, or its next byte is the smaller.
pub open spec fn smaller_after(a: Seq<u8>, b: Seq<u8>, k: int) -> bool {
    &&& agree_up_to(a, b, k)
    &&& k < b.len()
    &&& k < a.len() ==> a[k] < b[k]
}

/// Lexicographic order on byte strings.
pub open spec fn precedes(a: Seq<u8>, b: Seq<u8>) -> bool {
    exists|k: int| smaller_after(a, b, k)
}

/// The order of two names: that of their bytes.
pub open spec fn order_of(a: Seq<char>, b: Seq<char>) -> Order {
    if a == b {
        Order::Same
    } else if precedes(bytes_of(a), bytes_of(b)) {
        Order::Before
    } else {
        Order::After
    }
}

/// Two names with the same bytes are the same name.
pub proof fn lemma_bytes_determine_name(a: Seq<char>, b: Seq<char>)
    requires
        bytes_of(a) == bytes_of(b),
    ensures
        a == b,
{
    encode_utf8_decode_utf8(a);
    encode_utf8_decode_utf8(b);
}

/// No byte string precedes itself, and no two precede each other.
pub proof fn lemma_precedes_asymmetric(a: Seq<u8>, b: Seq<u8>)
    requires
        precedes(a, b),
    ensures
        a != b,
        !precedes(b, a),
{
    let k = choose|k: int| smaller_after(a, b, k);
    if precedes(b, a) {
        let m = choose|m: int| smaller_after(b, a, m);
        if m < k {
            assert(a[m] == b[m]);
        } else if k < m {
            assert(b[k] == a[k]);
        }
    }
}

/// The order is transitive.
pub proof fn lemma_precedes_transitive(a: Seq<u8>, b: Seq<u8>, c: Seq<u8>)
    requires
        precedes(a, b),
        precedes(b, c),
    ensures
        precedes(a, c),
{
    let k = choose|k: int| smaller_after(a, b, k);
    let m = choose|m: int| smaller_after(b, c, m);
    let n = if k <= m { k } else { m };
    assert forall|j: int| 0 <= j < n implies a[j] == c[j] by {
        assert(a[j] == b[j]);
        assert(b[j] == c[j]);
    }
    if k < m {
        assert(b[k] == c[k]);
    } else if m < k {
        assert(a[m] == b[m]);
    }
    assert(smaller_after(a, c, n));
}

/// Of two different byte strings one precedes the other.
pub proof fn lemma_precedes_total(a: Seq<u8>, b: Seq<u8>)
    ensures
        a == b || precedes(a, b) || precedes(b, a),
    decreases a.len(),
{
    if a.len() == 0 {
        if b.len() > 0 {
            assert(smaller_after(a, b, 0));
        } else {
            assert(a =~= b);
        }
    } else if b.len() == 0 {
        assert(smaller_after(b, a, 0));
    } else if a[0] < b[0] {
        assert(smaller_after(a, b, 0));
    } else if b[0] < a[0] {
        assert(smaller_after(b, a, 0));
    } else {
        let x = a.drop_first();
        let y = b.drop_first();
        lemma_precedes_total(x, y);
        if x == y {
            assert(a.len() == x.len() + 1 && b.len() == y.len() + 1);
            assert forall|j: int| 0 <= j < a.len() implies a[j] == b[j] by {
                if j > 0 {
                    assert(a[j] == x[j - 1] && b[j] == y[j - 1]);
                }
            }
            assert(a =~= b);
        } else if precedes(x, y) {
            let k = choose|k: int| smaller_after(x, y, k);
            assert forall|j: int| 0 <= j < k + 1 implies a[j] == b[j] by {
                if j > 0 {
                    assert(x[j - 1] == y[j - 1]);
                }
            }
            assert(smaller_after(a, b, k + 1));
        } else {
            let k = choose|k: int| smaller_after(y, x, k);
            assert forall|j: int| 0 <= j < k + 1 implies b[j] == a[j] by {
                if j > 0 {
                    assert(y[j - 1] == x[j - 1]);
                }
            }
            assert(smaller_after(b, a, k + 1));
        }
    }
}

/// Compares two names byte by byte.
pub fn compare(a: &str, b: &str) -> (order: Order)
    ensures
        order == order_of(a@, b@),
{
    let x = a.as_bytes();
    let y = b.as_bytes();
    let mut i: usize = 0;
    while i < x.len() && i < y.len()
        invariant
            x@ == bytes_of(a@),
            y@ == bytes_of(b@),
            agree_up_to(x@, y@, i as int),
        decreases x.len() - i,
    {
        if x[i] < y[i] {
            proof {
                assert(smaller_after(x@, y@, i as int));
                lemma_precedes_asymmetric(x@, y@);
            }
            return Order::Before;
        }
        if y[i] < x[i] {
            proof {
                assert(smaller_after(y@, x@, i as int));
                lemma_precedes_asymmetric(y@, x@);
            }
            return Order::After;
        }
        i += 1;
    }
    if i < y.len() {
        proof {
            assert(smaller_after(x@, y@, i as int));
            lemma_precedes_asymmetric(x@, y@);
        }
        Order::Before
    } else if i < x.len() {
        proof {
            assert(smaller_after(y@, x@, i as int));
            lemma_precedes_asymmetric(y@, x@);
        }
        Order::After
    } else {
        proof {
            assert(x@ =~= y@);
            lemma_bytes_determine_name(a@, b@);
        }
        Order::Same
    }
}

/// Whether two names are the same.
pub fn same(a: &str, b: &str) -> (same: bool)
    ensures
        same == (a@ == b@),
{
    match compare(a, b) {
        Order::Same => true,
        _ => false,
    }
}

/// The separator between the parts of a composite column name.
pub open spec fn separator() -> Seq<char> {
    seq!['_']
}

/// A composite column name: `base`, the separator, `suffix`.
pub open spec fn joined(base: Seq<char>, suffix: Seq<char>) -> Seq<char> {
    base + separator() + suffix
}

/// Builds the composite column name of `base` and `suffix`.
pub fn join(base: &str, suffix: &str) -> (name: String)
    ensures
        name@ == joined(base@, suffix@),
{
    let mut name = base.to_owned();
    proof {
        reveal_strlit("_");
        assert("_"@ =~= separator());
    }
    name.append("_");
    name.append(suffix);
    name
}

} // verus!
