//! The status-ID ordering.
//!
//! Remote status IDs are numeric strings issued in increasing order, where a
//! longer string always denotes a later ID ("Snowflake-style"); only strings
//! of equal length compare lexicographically.  Plain lexicographic comparison
//! across lengths would be wrong: "99" must rank below "100".

use vstd::prelude::*;

verus! {

use vstd::string::StringSliceAdditionalSpecFns;

/// The bytes of a string view, for stating the ID order over `String` ids.
pub open spec fn id_bytes(s: Seq<char>) -> Seq<u8> {
    vstd::utf8::encode_utf8(s)
}

/// Strict lexicographic order on byte sequences.
pub open spec fn lex_lt(a: Seq<u8>, b: Seq<u8>) -> bool
    decreases a.len(),
{
    if b.len() == 0 {
        false
    } else if a.len() == 0 {
        true
    } else if a[0] < b[0] {
        true
    } else if a[0] > b[0] {
        false
    } else {
        lex_lt(a.drop_first(), b.drop_first())
    }
}

/// The status-ID order: first by length, then lexicographically.
pub open spec fn id_lt(a: Seq<u8>, b: Seq<u8>) -> bool {
    a.len() < b.len() || (a.len() == b.len() && lex_lt(a, b))
}

pub open spec fn id_le(a: Seq<u8>, b: Seq<u8>) -> bool {
    id_lt(a, b) || a == b
}

/// The ID order over string views, as `String` ids are compared.
pub open spec fn id_lt_str(a: Seq<char>, b: Seq<char>) -> bool {
    id_lt(id_bytes(a), id_bytes(b))
}

pub open spec fn id_le_str(a: Seq<char>, b: Seq<char>) -> bool {
    id_lt_str(a, b) || id_bytes(a) == id_bytes(b)
}

pub proof fn lemma_lex_irrefl(a: Seq<u8>)
    ensures
        !lex_lt(a, a),
    decreases a.len(),
{
    if a.len() > 0 {
        lemma_lex_irrefl(a.drop_first());
    }
}

proof fn lemma_lex_from_diff(a: Seq<u8>, b: Seq<u8>, i: int)
    requires
        a.len() == b.len(),
        0 <= i < a.len(),
        forall|k: int| 0 <= k < i ==> a[k] == b[k],
        a[i] < b[i],
    ensures
        lex_lt(a, b),
    decreases i,
{
    if i > 0 {
        lemma_lex_from_diff(a.drop_first(), b.drop_first(), i - 1);
    }
}

pub proof fn lemma_lex_asym(a: Seq<u8>, b: Seq<u8>)
    requires
        lex_lt(a, b),
    ensures
        !lex_lt(b, a),
    decreases a.len(),
{
    if a.len() > 0 && b.len() > 0 && a[0] == b[0] {
        lemma_lex_asym(a.drop_first(), b.drop_first());
    }
}

proof fn lemma_lex_trichotomy(a: Seq<u8>, b: Seq<u8>)
    requires
        a.len() == b.len(),
    ensures
        lex_lt(a, b) || lex_lt(b, a) || a == b,
    decreases a.len(),
{
    if a.len() == 0 {
        assert(a =~= b);
    } else if a[0] == b[0] {
        lemma_lex_trichotomy(a.drop_first(), b.drop_first());
        if !lex_lt(a, b) && !lex_lt(b, a) {
            assert(a.drop_first() == b.drop_first());
            assert forall|i: int| 0 <= i < a.len() implies a[i] == b[i] by {
                if i > 0 {
                    assert(a.drop_first()[i - 1] == b.drop_first()[i - 1]);
                }
            }
            assert(a =~= b);
        }
    }
}

proof fn lemma_lex_trans(a: Seq<u8>, b: Seq<u8>, c: Seq<u8>)
    requires
        a.len() == b.len(),
        b.len() == c.len(),
        lex_lt(a, b),
        lex_lt(b, c),
    ensures
        lex_lt(a, c),
    decreases a.len(),
{
    if a.len() > 0 {
        if a[0] == b[0] && b[0] == c[0] {
            lemma_lex_trans(a.drop_first(), b.drop_first(), c.drop_first());
        } else if a[0] < c[0] {
        } else {
            assert(a[0] == b[0] || a[0] < b[0]);
            assert(b[0] == c[0] || b[0] < c[0]);
        }
    }
}

/// Law: a longer ID ranks above any shorter one, regardless of its digits.
pub proof fn lemma_id_order_length_first(a: Seq<u8>, b: Seq<u8>)
    requires
        a.len() < b.len(),
    ensures
        id_lt(a, b),
        !id_lt(b, a),
{
}

/// Law: the ID order is a strict total order, so it ranks every pair of
/// distinct IDs one way and only one way, as the remote pagination does.
pub proof fn lemma_id_order_strict_total(a: Seq<u8>, b: Seq<u8>)
    ensures
        id_lt(a, b) || id_lt(b, a) || a == b,
        id_lt(a, b) ==> !id_lt(b, a),
        !id_lt(a, a),
{
    if a.len() == b.len() {
        lemma_lex_trichotomy(a, b);
        if lex_lt(a, b) {
            lemma_lex_asym(a, b);
        }
    }
    lemma_lex_irrefl(a);
}

/// Law: the ID order is transitive.
pub proof fn lemma_id_order_transitive(a: Seq<u8>, b: Seq<u8>, c: Seq<u8>)
    requires
        id_lt(a, b),
        id_lt(b, c),
    ensures
        id_lt(a, c),
{
    if a.len() == b.len() && b.len() == c.len() {
        lemma_lex_trans(a, b, c);
    }
}

/// A strictly smaller ID stays strictly smaller below any at-least-as-large one.
pub proof fn lemma_id_lt_le_transitive(a: Seq<u8>, b: Seq<u8>, c: Seq<u8>)
    requires
        id_lt(a, b),
        id_le(b, c),
    ensures
        id_lt(a, c),
        a != c,
{
    if id_lt(b, c) {
        lemma_id_order_transitive(a, b, c);
    }
    lemma_id_order_strict_total(a, c);
}

pub proof fn lemma_id_le_total(a: Seq<u8>, b: Seq<u8>)
    ensures
        id_le(a, b) || id_le(b, a),
{
    lemma_id_order_strict_total(a, b);
}

pub proof fn lemma_id_le_transitive(a: Seq<u8>, b: Seq<u8>, c: Seq<u8>)
    requires
        id_le(a, b),
        id_le(b, c),
    ensures
        id_le(a, c),
{
    if id_lt(a, b) && id_lt(b, c) {
        lemma_id_order_transitive(a, b, c);
    }
}

/// Law: plain lexicographic order is total.
pub proof fn lemma_lex_total(a: Seq<u8>, b: Seq<u8>)
    ensures
        lex_lt(a, b) || lex_lt(b, a) || a == b,
    decreases a.len(),
{
    if b.len() == 0 {
        if a.len() == 0 {
            assert(a =~= b);
        }
    } else if a.len() > 0 && a[0] == b[0] {
        lemma_lex_total(a.drop_first(), b.drop_first());
        if !lex_lt(a, b) && !lex_lt(b, a) {
            assert(a.drop_first() == b.drop_first());
            assert forall|i: int| 0 <= i < a.len() implies a[i] == b[i] by {
                if i > 0 {
                    assert(a.drop_first()[i - 1] == b.drop_first()[i - 1]);
                }
            }
            assert(a =~= b);
        }
    }
}

/// Law: plain lexicographic order is transitive.
pub proof fn lemma_lex_lt_trans(a: Seq<u8>, b: Seq<u8>, c: Seq<u8>)
    requires
        lex_lt(a, b),
        lex_lt(b, c),
    ensures
        lex_lt(a, c),
    decreases a.len(),
{
    if a.len() > 0 && b.len() > 0 && c.len() > 0 {
        if a[0] == b[0] && b[0] == c[0] {
            lemma_lex_lt_trans(a.drop_first(), b.drop_first(), c.drop_first());
        }
    }
}

/// A strict prefix, or a difference at the first unequal position, decides
/// the lexicographic order.
pub proof fn lemma_lex_from_diff_general(a: Seq<u8>, b: Seq<u8>, i: int)
    requires
        0 <= i <= a.len(),
        0 <= i <= b.len(),
        forall|k: int| 0 <= k < i ==> a[k] == b[k],
        i < a.len() && i < b.len() ==> a[i] < b[i],
        i == a.len() || i == b.len() ==> a.len() < b.len(),
    ensures
        lex_lt(a, b),
    decreases i,
{
    if i > 0 {
        lemma_lex_from_diff_general(a.drop_first(), b.drop_first(), i - 1);
    }
}

/// Decides the ID order on two IDs given as strings.
pub fn id_less(a: &str, b: &str) -> (r: bool)
    ensures
        r == id_lt(a.spec_bytes(), b.spec_bytes()),
{
    let ab = a.as_bytes();
    let bb = b.as_bytes();
    if ab.len() < bb.len() {
        return true;
    }
    if ab.len() > bb.len() {
        return false;
    }
    let mut i: usize = 0;
    loop
        invariant
            ab@ == a.spec_bytes(),
            bb@ == b.spec_bytes(),
            ab@.len() == bb@.len(),
            0 <= i <= ab@.len(),
            forall|k: int| 0 <= k < i ==> ab@[k] == bb@[k],
        decreases ab@.len() - i,
    {
        if i == ab.len() {
            proof {
                assert(ab@ =~= bb@);
                lemma_lex_irrefl(ab@);
            }
            return false;
        }
        let x = ab[i];
        let y = bb[i];
        if x < y {
            proof {
                lemma_lex_from_diff(ab@, bb@, i as int);
            }
            return true;
        }
        if x > y {
            proof {
                lemma_lex_from_diff(bb@, ab@, i as int);
                lemma_lex_asym(bb@, ab@);
            }
            return false;
        }
        i += 1;
    }
}

/// Decides the plain lexicographic order on two strings' bytes.
pub fn lex_less(a: &str, b: &str) -> (r: bool)
    ensures
        r == lex_lt(a.spec_bytes(), b.spec_bytes()),
{
    let ab = a.as_bytes();
    let bb = b.as_bytes();
    let mut i: usize = 0;
    loop
        invariant
            ab@ == a.spec_bytes(),
            bb@ == b.spec_bytes(),
            0 <= i <= ab@.len(),
            i <= bb@.len(),
            forall|k: int| 0 <= k < i ==> ab@[k] == bb@[k],
        decreases ab@.len() - i,
    {
        if i == bb.len() {
            proof {
                if ab@.len() == bb@.len() {
                    assert(ab@ =~= bb@);
                    lemma_lex_irrefl(ab@);
                } else {
                    lemma_lex_from_diff_general(bb@, ab@, i as int);
                    lemma_lex_asym(bb@, ab@);
                }
            }
            return false;
        }
        if i == ab.len() {
            proof {
                lemma_lex_from_diff_general(ab@, bb@, i as int);
            }
            return true;
        }
        let x = ab[i];
        let y = bb[i];
        if x < y {
            proof {
                lemma_lex_from_diff_general(ab@, bb@, i as int);
            }
            return true;
        }
        if x > y {
            proof {
                lemma_lex_from_diff_general(bb@, ab@, i as int);
                lemma_lex_asym(bb@, ab@);
            }
            return false;
        }
        i += 1;
    }
}

} // verus!
