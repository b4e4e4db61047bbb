//! How values and texts are ordered, how integers are written, and what an aggregator has seen.
use crate::aggregation::{fed, fed_any, Aggregation};
use crate::bytes::lex_less;
use crate::encoding::{leading_integer, uvarint_bytes};
use crate::sample::{is_nan, value_order, Sample};
use crate::text::{small, small_text};
use vstd::prelude::*;

verus! {

/// Of values without a sign the larger bits are the larger value. A sign turns a value round: the two
/// add up to nothing, and what is no number is none with a sign either.
pub proof fn law_value_order(a: u64, b: u64)
    requires
        a < 0x8000_0000_0000_0000,
        b < 0x8000_0000_0000_0000,
    ensures
        value_order(a) < value_order(b) <==> a < b,
        value_order(a) >= 0,
        value_order((a + 0x8000_0000_0000_0000) as u64) + value_order(a) == 0,
        is_nan(a) <==> a > 0x7FF0_0000_0000_0000,
        is_nan((a + 0x8000_0000_0000_0000) as u64) <==> is_nan(a),
{
}

/// Where two texts are the same up to a byte, the one with the smaller byte comes first; a text comes
/// before what goes on behind it, and not before itself.
pub proof fn law_text_order(front: Seq<u8>, x: u8, a: Seq<u8>, y: u8, b: Seq<u8>)
    ensures
        x != y ==> (lex_less(front + seq![x] + a, front + seq![y] + b) <==> x < y),
        lex_less(front, front + seq![y] + b),
        !lex_less(front + seq![x] + a, front),
        !lex_less(front, front),
    decreases front.len(),
{
    let one = front + seq![x] + a;
    let two = front + seq![y] + b;
    if front.len() == 0 {
        assert(one[0] == x && two[0] == y);
    } else {
        let rest = front.drop_first();
        law_text_order(rest, x, a, y, b);
        assert(one.drop_first() =~= rest + seq![x] + a);
        assert(two.drop_first() =~= rest + seq![y] + b);
        assert(one[0] == front[0] && two[0] == front[0]);
    }
}

/// An integer is written in groups of seven bits, the lowest first. Each byte but the last has its
/// high bit set, and no byte is left out or added.
pub proof fn law_uvarint(v: nat)
    ensures
        v < 128 ==> uvarint_bytes(v) == seq![v as u8],
        forall|low: nat, high: nat|
            low < 128 && high > 0 && v == high * 128 + low ==> uvarint_bytes(v) == seq![
                #[trigger] (low + 128) as u8,
            ] + #[trigger] uvarint_bytes(high),
        forall|rest: Seq<u8>|
            leading_integer(#[trigger] (uvarint_bytes(v) + rest)) == Some(
                (v, uvarint_bytes(v).len()),
            ),
    decreases v,
{
    if v >= 128 {
        law_uvarint(v / 128);
    }
    assert forall|low: nat, high: nat|
        low < 128 && high > 0 && v == high * 128 + low implies uvarint_bytes(v) == seq![
        #[trigger] (low + 128) as u8,
    ] + #[trigger] uvarint_bytes(high) by {
        assert(v / 128 == high && v % 128 == low);
    }
    assert forall|rest: Seq<u8>|
        leading_integer(#[trigger] (uvarint_bytes(v) + rest)) == Some(
            (v, uvarint_bytes(v).len()),
        ) by {
        let b = uvarint_bytes(v) + rest;
        if v < 128 {
            assert(b[0] == v as u8);
        } else {
            assert(b[0] == (v % 128 + 128) as u8);
            assert(b.drop_first() =~= uvarint_bytes(v / 128) + rest);
            assert(leading_integer(uvarint_bytes(v / 128) + rest) == Some(
                (v / 128, uvarint_bytes(v / 128).len()),
            ));
        }
    }
}

/// Making letters small changes Latin capitals only, to the letter that is as far from `a` as the
/// capital is from `A`; doing it twice is doing it once.
pub proof fn law_small(s: Seq<char>, i: int)
    requires
        0 <= i < s.len(),
    ensures
        small_text(s).len() == s.len(),
        !('A' <= s[i] <= 'Z') ==> small_text(s)[i] == s[i],
        'A' <= s[i] <= 'Z' ==> small_text(s)[i] as u32 - 'a' as u32 == s[i] as u32 - 'A' as u32,
        small_text(small_text(s)) == small_text(s),
{
    assert forall|c: char| #[trigger] small(small(c)) == small(c) by {}
    assert(small_text(small_text(s)) =~= small_text(s));
}

/// An aggregator that is fed one run and then another has been fed both; it has seen something that
/// counts where some sample counted when it came.
pub proof fn law_fed<A: Aggregation>(a: A, s: Seq<Sample>, t: Seq<Sample>, x: Sample)
    ensures
        fed(a, s + t) == fed(fed(a, s), t),
        fed(a, seq![x]) == a.after(x),
        fed(a, Seq::empty()) == a,
        fed_any(a, s) <==> exists|i: int|
            0 <= i < s.len() && fed(a, #[trigger] s.take(i)).takes(s[i]),
    decreases t.len(),
{
    assert(seq![x].drop_last() =~= Seq::<Sample>::empty());
    assert(fed(a, Seq::<Sample>::empty()) == a);
    if t.len() == 0 {
        assert(s + t =~= s);
    } else {
        law_fed(a, s, t.drop_last(), x);
        assert((s + t).drop_last() =~= s + t.drop_last());
        assert((s + t).last() == t.last());
    }
    lemma_fed_any(a, s);
}

proof fn lemma_fed_any<A: Aggregation>(a: A, s: Seq<Sample>)
    ensures
        fed_any(a, s) <==> exists|i: int|
            0 <= i < s.len() && fed(a, #[trigger] s.take(i)).takes(s[i]),
    decreases s.len(),
{
    if s.len() > 0 {
        let less = s.drop_last();
        let n = s.len() - 1;
        lemma_fed_any(a, less);
        assert(s.take(n) =~= less);
        assert forall|i: int| 0 <= i < n implies #[trigger] s.take(i) == less.take(i) by {
            assert(s.take(i) =~= less.take(i));
        }
        if fed_any(a, less) {
            let i = choose|i: int|
                0 <= i < less.len() && fed(a, #[trigger] less.take(i)).takes(less[i]);
            assert(fed(a, s.take(i)).takes(s[i]));
        }
        if exists|i: int| 0 <= i < s.len() && fed(a, #[trigger] s.take(i)).takes(s[i]) {
            let i = choose|i: int|
                0 <= i < s.len() && fed(a, #[trigger] s.take(i)).takes(s[i]);
            if i < n {
                assert(fed(a, less.take(i)).takes(less[i]));
            }
        }
    }
}

} // verus!
