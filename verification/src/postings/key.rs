//! Index keys: the byte strings `name=value` under which posting lists are kept.
//!
//! A key ends in a NUL byte that occurs nowhere else in it, so no key is a proper prefix of
//! another, which the radix tree needs.
use crate::bytes::{bytes_copy, starts_with, utf8};
use vstd::prelude::*;

verus! {

/// The byte between a label's name and its value.
pub const SEPARATOR: u8 = 61;

/// The byte that ends every key.
pub const SENTINEL: u8 = 0;

/// The bytes hold no NUL.
pub open spec fn nul_free(s: Seq<u8>) -> bool {
    forall|i: int| 0 <= i < s.len() ==> s[i] != SENTINEL
}

/// The key of a label's value.
pub open spec fn term_key(name: Seq<u8>, value: Seq<u8>) -> Seq<u8> {
    (name.push(SEPARATOR) + value).push(SENTINEL)
}

/// What the keys of all values of a label begin with.
pub open spec fn term_prefix(name: Seq<u8>) -> Seq<u8> {
    name.push(SEPARATOR)
}

/// A byte string that ends in a NUL and holds no other.
pub open spec fn is_sealed(k: Seq<u8>) -> bool {
    k.len() > 0 && k.last() == SENTINEL && nul_free(k.drop_last())
}

/// Where the first separator stands, or the length where there is none.
pub open spec fn separator_at(k: Seq<u8>) -> int
    decreases k.len(),
{
    if k.len() == 0 {
        0
    } else if k[0] == SEPARATOR {
        0
    } else {
        1 + separator_at(k.drop_first())
    }
}

/// The label name in a key: what stands before the first separator.
pub open spec fn key_name(k: Seq<u8>) -> Seq<u8> {
    k.subrange(0, separator_at(k))
}

/// The label value in a key: what stands between the first separator and the final NUL.
pub open spec fn key_value(k: Seq<u8>) -> Seq<u8> {
    k.subrange(separator_at(k) + 1, k.len() - 1)
}

/// A sealed byte string with a separator: a name and a value can be read off.
pub open spec fn is_term_key(k: Seq<u8>) -> bool {
    is_sealed(k) && separator_at(k) < k.len()
}

/// Of two sealed byte strings, neither is a proper prefix of the other.
pub proof fn lemma_sealed_prefix_free(a: Seq<u8>, b: Seq<u8>)
    requires
        is_sealed(a),
        is_sealed(b),
        starts_with(a, b) || starts_with(b, a),
    ensures
        a == b,
{
    let (short, long) = if starts_with(a, b) {
        (b, a)
    } else {
        (a, b)
    };
    assert(long.subrange(0, short.len() as int) == short);
    if short.len() < long.len() {
        assert(long[short.len() - 1] == long.subrange(0, short.len() as int)[short.len() - 1]);
        assert(long.drop_last()[short.len() - 1] == SENTINEL);
    }
    assert(long.subrange(0, long.len() as int) =~= long);
}

/// The position of the first separator: within the string, at a separator, after none.
pub proof fn lemma_separator_at(k: Seq<u8>)
    ensures
        0 <= separator_at(k) <= k.len(),
        separator_at(k) < k.len() ==> k[separator_at(k)] == SEPARATOR,
        forall|i: int| 0 <= i < separator_at(k) ==> k[i] != SEPARATOR,
    decreases k.len(),
{
    if k.len() > 0 && k[0] != SEPARATOR {
        let rest = k.drop_first();
        lemma_separator_at(rest);
        assert forall|i: int| 0 <= i < separator_at(k) implies k[i] != SEPARATOR by {
            if i > 0 {
                assert(k[i] == rest[i - 1]);
            }
        }
    }
}

/// Where a separator stands after none, that is the first.
pub proof fn lemma_separator_is(k: Seq<u8>, n: int)
    requires
        0 <= n <= k.len(),
        n < k.len() ==> k[n] == SEPARATOR,
        forall|i: int| 0 <= i < n ==> k[i] != SEPARATOR,
    ensures
        separator_at(k) == n,
{
    lemma_separator_at(k);
    if separator_at(k) < n {
        assert(k[separator_at(k)] != SEPARATOR);
    } else if n < separator_at(k) {
        assert(k[n] != SEPARATOR);
    }
}

/// The key of a label without NUL bytes is a term key; where the name holds no separator, the
/// name and the value can be read back.
pub proof fn lemma_term_key(name: Seq<u8>, value: Seq<u8>)
    requires
        nul_free(name),
        nul_free(value),
    ensures
        is_term_key(term_key(name, value)),
        starts_with(term_key(name, value), term_prefix(name)),
        !name.contains(SEPARATOR) ==> {
            &&& key_name(term_key(name, value)) == name
            &&& key_value(term_key(name, value)) == value
        },
{
    let k = term_key(name, value);
    assert(k.drop_last() =~= name.push(SEPARATOR) + value);
    assert forall|i: int| 0 <= i < k.drop_last().len() implies k.drop_last()[i] != SENTINEL by {
        if i > name.len() {
            assert(k.drop_last()[i] == value[i - name.len() - 1]);
        }
    }
    assert(k[name.len() as int] == SEPARATOR);
    assert(k.subrange(0, term_prefix(name).len() as int) =~= term_prefix(name));
    lemma_separator_at(k);
    if separator_at(k) == k.len() {
        assert(k[name.len() as int] != SEPARATOR);
    }
    if !name.contains(SEPARATOR) {
        assert forall|i: int| 0 <= i < name.len() implies k[i] != SEPARATOR by {
            assert(k[i] == name[i]);
            if name[i] == SEPARATOR {
                assert(name.contains(SEPARATOR));
            }
        }
        lemma_separator_is(k, name.len() as int);
        assert(k.subrange(0, name.len() as int) =~= name);
        assert(k.subrange(name.len() as int + 1, k.len() - 1) =~= value);
    }
}

/// Two labels without NUL bytes and with separator-free names share a key only if they are equal.
pub proof fn law_key_tells_label(n1: Seq<u8>, v1: Seq<u8>, n2: Seq<u8>, v2: Seq<u8>)
    requires
        nul_free(n1),
        nul_free(v1),
        nul_free(n2),
        nul_free(v2),
        !n1.contains(SEPARATOR),
        !n2.contains(SEPARATOR),
        term_key(n1, v1) == term_key(n2, v2),
    ensures
        n1 == n2,
        v1 == v2,
{
    lemma_term_key(n1, v1);
    lemma_term_key(n2, v2);
}

/// A key of the term dictionary.
pub struct IndexKey {
    bytes: Vec<u8>,
}

impl View for IndexKey {
    type V = Seq<u8>;

    closed spec fn view(&self) -> Seq<u8> {
        self.bytes@
    }
}

/// A copy of a sequence of bytes, appended to a buffer.
fn push_bytes(out: &mut Vec<u8>, s: &[u8])
    ensures
        final(out)@ == old(out)@ + s@,
{
    let mut i: usize = 0;
    let ghost start = out@;
    while i < s.len()
        invariant
            i <= s.len(),
            out@ == start + s@.subrange(0, i as int),
        decreases s.len() - i,
    {
        out.push(s[i]);
        assert(s@.subrange(0, i + 1) =~= s@.subrange(0, i as int).push(s@[i as int]));
        i += 1;
    }
    assert(s@.subrange(0, i as int) =~= s@);
}

/// The bytes that the keys of all values of `name` begin with.
pub fn prefix_for(name: &str) -> (r: Vec<u8>)
    ensures
        r@ == term_prefix(utf8(name@)),
{
    let mut out: Vec<u8> = Vec::new();
    push_bytes(&mut out, name.as_bytes());
    out.push(SEPARATOR);
    out
}

/// The bytes that the keys of the values of `name` that start with `prefix` begin with.
pub fn value_prefix_for(name: &str, prefix: &str) -> (r: Vec<u8>)
    ensures
        r@ == term_prefix(utf8(name@)) + utf8(prefix@),
{
    let mut out: Vec<u8> = prefix_for(name);
    push_bytes(&mut out, prefix.as_bytes());
    out
}

impl IndexKey {
    /// The key of a label's value.
    pub fn for_label_value(name: &str, value: &str) -> (r: IndexKey)
        ensures
            r@ == term_key(utf8(name@), utf8(value@)),
    {
        let mut bytes: Vec<u8> = value_prefix_for(name, value);
        bytes.push(SENTINEL);
        IndexKey { bytes }
    }

    /// The key with exactly these bytes.
    pub fn from_bytes(s: &[u8]) -> (r: IndexKey)
        ensures
            r@ == s@,
    {
        IndexKey { bytes: bytes_copy(s) }
    }

    /// The key's bytes.
    pub fn as_bytes(&self) -> (r: &[u8])
        ensures
            r@ == self@,
    {
        self.bytes.as_slice()
    }

    /// The key's bytes, given up by the key.
    pub fn into_bytes(self) -> (r: Vec<u8>)
        ensures
            r@ == self@,
    {
        self.bytes
    }

    /// An equal key.
    pub fn copy(&self) -> (r: IndexKey)
        ensures
            r@ == self@,
    {
        IndexKey { bytes: bytes_copy(self.bytes.as_slice()) }
    }
}

/// The name and the value that a key holds, or nothing where it has no separator.
pub fn split_key(k: &[u8]) -> (r: Option<(&[u8], &[u8])>)
    requires
        is_sealed(k@),
    ensures
        match r {
            Some((name, value)) => {
                &&& is_term_key(k@)
                &&& name@ == key_name(k@)
                &&& value@ == key_value(k@)
            },
            None => !is_term_key(k@),
        },
{
    let mut i: usize = 0;
    while i < k.len()
        invariant
            i <= k.len(),
            is_sealed(k@),
            forall|j: int| 0 <= j < i ==> k@[j] != SEPARATOR,
        decreases k.len() - i,
    {
        if k[i] == SEPARATOR {
            proof {
                lemma_separator_is(k@, i as int);
                assert(k@.last() == SENTINEL);
            }
            return Some(
                (
                    vstd::slice::slice_subrange(k, 0, i),
                    vstd::slice::slice_subrange(k, i + 1, k.len() - 1),
                ),
            );
        }
        i += 1;
    }
    proof {
        lemma_separator_is(k@, i as int);
    }
    None
}

} // verus!
