//! The total order of index keys.

use vstd::prelude::*;
use vstd::utf8::{encode_utf8, encode_utf8_decode_utf8};
use crate::record::{IndexKey, IndexableValue};

verus! {

/// Lexicographic order on byte strings: a proper prefix comes first.
pub open spec fn bytes_lt(a: Seq<u8>, b: Seq<u8>) -> bool
    decreases a.len(),
{
    if a.len() == 0 {
        b.len() > 0
    } else if b.len() == 0 {
        false
    } else if a[0] != b[0] {
        a[0] < b[0]
    } else {
        bytes_lt(a.drop_first(), b.drop_first())
    }
}

/// The order of index keys: integers before strings, integers by value,
/// strings by their UTF-8 bytes.
pub open spec fn key_lt(a: IndexKey, b: IndexKey) -> bool {
    match (a, b) {
        (IndexKey::Int(x), IndexKey::Int(y)) => x < y,
        (IndexKey::Int(_), IndexKey::Str(_)) => true,
        (IndexKey::Str(_), IndexKey::Int(_)) => false,
        (IndexKey::Str(s), IndexKey::Str(t)) => bytes_lt(encode_utf8(s), encode_utf8(t)),
    }
}

pub proof fn lemma_bytes_lt_irreflexive(a: Seq<u8>)
    ensures
        !bytes_lt(a, a),
    decreases a.len(),
{
    if a.len() > 0 {
        lemma_bytes_lt_irreflexive(a.drop_first());
    }
}

pub proof fn lemma_bytes_lt_transitive(a: Seq<u8>, b: Seq<u8>, c: Seq<u8>)
    requires
        bytes_lt(a, b),
        bytes_lt(b, c),
    ensures
        bytes_lt(a, c),
    decreases a.len(),
{
    if a.len() > 0 && b.len() > 0 && c.len() > 0 && a[0] == b[0] && b[0] == c[0] {
        lemma_bytes_lt_transitive(a.drop_first(), b.drop_first(), c.drop_first());
    }
}

pub proof fn lemma_bytes_lt_total(a: Seq<u8>, b: Seq<u8>)
    ensures
        a == b || bytes_lt(a, b) || bytes_lt(b, a),
    decreases a.len(),
{
    if a.len() > 0 && b.len() > 0 && a[0] == b[0] {
        lemma_bytes_lt_total(a.drop_first(), b.drop_first());
        if a.drop_first() == b.drop_first() {
            assert(a =~= seq![a[0]] + a.drop_first());
            assert(b =~= seq![b[0]] + b.drop_first());
        }
    } else if a.len() == 0 && b.len() == 0 {
        assert(a =~= b);
    }
}

pub proof fn lemma_bytes_lt_skip(a: Seq<u8>, b: Seq<u8>, i: int)
    requires
        0 <= i <= a.len(),
        i <= b.len(),
        a.take(i) == b.take(i),
    ensures
        bytes_lt(a, b) == bytes_lt(a.skip(i), b.skip(i)),
    decreases i,
{
    if i > 0 {
        assert(a[0] == a.take(i)[0] && b[0] == b.take(i)[0]);
        assert(a.drop_first().take(i - 1) =~= a.take(i).drop_first());
        assert(b.drop_first().take(i - 1) =~= b.take(i).drop_first());
        lemma_bytes_lt_skip(a.drop_first(), b.drop_first(), i - 1);
        assert(a.drop_first().skip(i - 1) =~= a.skip(i));
        assert(b.drop_first().skip(i - 1) =~= b.skip(i));
    } else {
        assert(a.skip(0) =~= a);
        assert(b.skip(0) =~= b);
    }
}

pub proof fn lemma_key_lt_irreflexive(a: IndexKey)
    ensures
        !key_lt(a, a),
{
    if let IndexKey::Str(s) = a {
        lemma_bytes_lt_irreflexive(encode_utf8(s));
    }
}

pub proof fn lemma_key_lt_transitive(a: IndexKey, b: IndexKey, c: IndexKey)
    requires
        key_lt(a, b),
        key_lt(b, c),
    ensures
        key_lt(a, c),
{
    if let (IndexKey::Str(s), IndexKey::Str(t), IndexKey::Str(u)) = (a, b, c) {
        lemma_bytes_lt_transitive(encode_utf8(s), encode_utf8(t), encode_utf8(u));
    }
}

pub proof fn lemma_key_lt_total(a: IndexKey, b: IndexKey)
    ensures
        a == b || key_lt(a, b) || key_lt(b, a),
{
    if let (IndexKey::Str(s), IndexKey::Str(t)) = (a, b) {
        lemma_bytes_lt_total(encode_utf8(s), encode_utf8(t));
        encode_utf8_decode_utf8(s);
        encode_utf8_decode_utf8(t);
    }
}

/// Compares two index keys: negative, zero or positive as `a` comes before,
/// equals or comes after `b`.
pub fn compare_keys(a: &IndexableValue, b: &IndexableValue) -> (r: i8)
    ensures
        r < 0 <==> key_lt(a@, b@),
        r == 0 <==> a@ == b@,
        r > 0 <==> key_lt(b@, a@),
{
    proof {
        lemma_key_lt_irreflexive(a@);
        lemma_key_lt_total(a@, b@);
        if key_lt(a@, b@) && key_lt(b@, a@) {
            lemma_key_lt_transitive(a@, b@, a@);
        }
    }
    match (a, b) {
        (IndexableValue::Int(x), IndexableValue::Int(y)) => {
            if *x < *y {
                -1
            } else if *x == *y {
                0
            } else {
                1
            }
        },
        (IndexableValue::Int(_), IndexableValue::String(_)) => -1,
        (IndexableValue::String(_), IndexableValue::Int(_)) => 1,
        (IndexableValue::String(s), IndexableValue::String(t)) => {
            let x = s.as_str().as_bytes();
            let y = t.as_str().as_bytes();
            let ghost xs = encode_utf8(s@);
            let ghost ys = encode_utf8(t@);
            let mut i: usize = 0;
            while i < x.len() && i < y.len() && x[i] == y[i]
                invariant
                    x@ == xs,
                    y@ == ys,
                    i <= x@.len(),
                    i <= y@.len(),
                    xs.take(i as int) == ys.take(i as int),
                decreases x@.len() - i,
            {
                assert(xs.take(i + 1) =~= xs.take(i as int).push(xs[i as int]));
                assert(ys.take(i + 1) =~= ys.take(i as int).push(ys[i as int]));
                i = i + 1;
            }
            proof {
                lemma_bytes_lt_skip(xs, ys, i as int);
                lemma_bytes_lt_skip(ys, xs, i as int);
                if i == xs.len() && i == ys.len() {
                    assert(xs =~= xs.take(i as int));
                    assert(ys =~= ys.take(i as int));
                    encode_utf8_decode_utf8(s@);
                    encode_utf8_decode_utf8(t@);
                }
                assert(xs.skip(i as int).len() == 0 || ys.skip(i as int).len() == 0 || xs.skip(
                    i as int,
                )[0] != ys.skip(i as int)[0]);
            }
            if i < x.len() && i < y.len() {
                if x[i] < y[i] {
                    -1
                } else {
                    1
                }
            } else if i < y.len() {
                -1
            } else if i < x.len() {
                1
            } else {
                0
            }
        },
    }
}

} // verus!
