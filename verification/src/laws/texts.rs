//! Texts: order, trimming, splitting, numbers in decimal.

use vstd::prelude::*;

#[allow(unused_imports)]
use crate::text::{decimal, pieces, text_lt, trim, trim_end, trim_start, whitespace};

verus! {

/// One text precedes another: where they first differ it has the smaller character, or it is the
/// beginning of the other.
pub open spec fn precedes(a: Seq<char>, b: Seq<char>) -> bool {
    exists|k: int| #[trigger] parts_at(a, b, k)
}

/// Two texts agree up to a place at which the first one ends or has the smaller character.
pub open spec fn parts_at(a: Seq<char>, b: Seq<char>, k: int) -> bool {
    &&& 0 <= k <= a.len()
    &&& k < b.len()
    &&& a.take(k) == b.take(k)
    &&& k == a.len() || a[k] < b[k]
}

/// Texts stand in code point order.
pub proof fn texts_stand_in_code_point_order(a: Seq<char>, b: Seq<char>)
    ensures
        text_lt(a, b) <==> precedes(a, b),
    decreases a.len(),
{
    if a.len() > 0 && b.len() > 0 {
        let (x, y) = (a.drop_first(), b.drop_first());
        texts_stand_in_code_point_order(x, y);
        if a[0] == b[0] {
            if precedes(x, y) {
                let k = choose|k: int| #[trigger] parts_at(x, y, k);
                assert(a.take(k + 1) =~= seq![a[0]] + x.take(k));
                assert(b.take(k + 1) =~= seq![b[0]] + y.take(k));
                assert(parts_at(a, b, k + 1));
            }
            if precedes(a, b) {
                let k = choose|k: int| #[trigger] parts_at(a, b, k);
                assert(x.take(k - 1) =~= a.take(k).drop_first());
                assert(y.take(k - 1) =~= b.take(k).drop_first());
                assert(parts_at(x, y, k - 1));
            }
        } else {
            if a[0] < b[0] {
                assert(a.take(0) =~= b.take(0));
                assert(parts_at(a, b, 0));
            }
            if precedes(a, b) {
                let k = choose|k: int| #[trigger] parts_at(a, b, k);
                if k > 0 {
                    assert(a.take(k)[0] == b.take(k)[0]);
                }
            }
        }
    } else if b.len() > 0 {
        assert(a.take(0) =~= b.take(0));
        assert(parts_at(a, b, 0));
    }
}

proof fn lemma_trim_start(s: Seq<char>) -> (i: int)
    ensures
        0 <= i <= s.len(),
        trim_start(s) == s.skip(i),
        forall|k: int| 0 <= k < i ==> whitespace(#[trigger] s[k]),
        i < s.len() ==> !whitespace(s[i]),
    decreases s.len(),
{
    if s.len() > 0 && whitespace(s[0]) {
        let j = lemma_trim_start(s.drop_first());
        assert(s.skip(j + 1) =~= s.drop_first().skip(j));
        assert forall|k: int| 0 <= k < j + 1 implies whitespace(#[trigger] s[k]) by {
            if k > 0 {
                assert(whitespace(s.drop_first()[k - 1]));
            }
        }
        j + 1
    } else {
        assert(s.skip(0) =~= s);
        0
    }
}

proof fn lemma_trim_end(s: Seq<char>) -> (j: int)
    ensures
        0 <= j <= s.len(),
        trim_end(s) == s.take(j),
        forall|k: int| j <= k < s.len() ==> whitespace(#[trigger] s[k]),
        j > 0 ==> !whitespace(s[j - 1]),
    decreases s.len(),
{
    if s.len() > 0 && whitespace(s.last()) {
        let d = s.drop_last();
        let j = lemma_trim_end(d);
        assert(s.take(j) =~= d.take(j));
        assert forall|k: int| j <= k < s.len() implies whitespace(#[trigger] s[k]) by {
            if k < d.len() {
                assert(whitespace(d[k]));
            }
        }
        j
    } else {
        assert(s.take(s.len() as int) =~= s);
        s.len() as int
    }
}

/// Trimming takes white space off both ends, all of it, and nothing else.
pub proof fn trimming_takes_white_space_alone(s: Seq<char>) -> (r: (int, int))
    ensures
        0 <= r.0 <= r.1 <= s.len(),
        trim(s) == s.subrange(r.0, r.1),
        forall|k: int| 0 <= k < r.0 ==> whitespace(#[trigger] s[k]),
        forall|k: int| r.1 <= k < s.len() ==> whitespace(#[trigger] s[k]),
        r.0 < r.1 ==> !whitespace(s[r.0]) && !whitespace(s[r.1 - 1]),
{
    let i = lemma_trim_start(s);
    let t = s.skip(i);
    let j = lemma_trim_end(t);
    assert(t.take(j) =~= s.subrange(i, i + j));
    assert forall|k: int| i + j <= k < s.len() implies whitespace(#[trigger] s[k]) by {
        assert(whitespace(t[k - i]));
    }
    if j > 0 {
        assert(t[j - 1] == s[i + j - 1]);
    }
    (i, i + j)
}

/// Splitting goes on behind a separator as at the start.
pub proof fn splitting_starts_anew_at_a_separator(a: Seq<char>, b: Seq<char>, sep: char)
    ensures
        pieces(a + seq![sep] + b, sep) == pieces(a, sep) + pieces(b, sep),
    decreases b.len(),
{
    let s = a + seq![sep] + b;
    if b.len() == 0 {
        assert(s.drop_last() =~= a);
        assert(s.last() == sep);
        assert(pieces(a, sep) + pieces(b, sep) =~= pieces(a, sep));
    } else {
        let d = b.drop_last();
        splitting_starts_anew_at_a_separator(a, d, sep);
        assert(s.drop_last() =~= a + seq![sep] + d);
        assert(s.last() == b.last());
        let before = pieces(a, sep) + pieces(d, sep);
        if b.last() != sep {
            if b.len() == 1 {
                assert(s[s.len() - 2] == sep);
                assert(pieces(d, sep) =~= Seq::empty());
                assert(before.push(seq![b.last()]) =~= pieces(a, sep) + pieces(d, sep).push(
                    seq![b.last()],
                ));
            } else {
                assert(s[s.len() - 2] == b[b.len() - 2]);
                if b[b.len() - 2] == sep {
                    assert(before.push(seq![b.last()]) =~= pieces(a, sep) + pieces(d, sep).push(
                        seq![b.last()],
                    ));
                } else {
                    crate::text::lemma_pieces_open(d, sep);
                    assert(before.drop_last() =~= pieces(a, sep) + pieces(d, sep).drop_last());
                    assert(before.last() == pieces(d, sep).last());
                    assert(pieces(s, sep) =~= pieces(a, sep) + pieces(b, sep));
                }
            }
        }
    }
}

/// A text that is not empty and holds no separator is one piece.
pub proof fn a_whole_text_is_one_piece(s: Seq<char>, sep: char)
    requires
        s.len() > 0,
        forall|i: int| 0 <= i < s.len() ==> #[trigger] s[i] != sep,
    ensures
        pieces(s, sep) == seq![s],
    decreases s.len(),
{
    assert(s.last() == s[s.len() - 1]);
    if s.len() == 1 {
        assert(pieces(s.drop_last(), sep) =~= Seq::empty());
        assert(seq![s.last()] =~= s);
        assert(pieces(s, sep) =~= seq![s]);
    } else {
        let d = s.drop_last();
        assert forall|i: int| 0 <= i < d.len() implies #[trigger] d[i] != sep by {
            assert(s[i] != sep);
        }
        a_whole_text_is_one_piece(d, sep);
        assert(s[s.len() - 2] != sep);
        assert(d.push(s.last()) =~= s);
        assert(pieces(s, sep) =~= seq![s]);
    }
}

/// What digits amount to.
pub open spec fn amount(s: Seq<char>) -> int
    decreases s.len(),
{
    if s.len() == 0 {
        0
    } else {
        amount(s.drop_last()) * 10 + (s.last() as u32 - '0' as u32)
    }
}

/// A number in decimal amounts to the number, in digits, without a leading zero.
pub proof fn decimals_amount_to_the_number(n: nat)
    ensures
        amount(decimal(n)) == n,
        decimal(n).len() > 0,
        forall|i: int| 0 <= i < decimal(n).len() ==> '0' <= #[trigger] decimal(n)[i] <= '9',
        n > 0 ==> decimal(n)[0] != '0',
    decreases n,
{
    let s = decimal(n);
    if n < 10 {
        assert(s.drop_last() =~= Seq::empty());
        assert(amount(s.drop_last()) == 0);
    } else {
        decimals_amount_to_the_number(n / 10);
        assert(s.drop_last() =~= decimal(n / 10));
        assert forall|i: int| 0 <= i < s.len() implies '0' <= #[trigger] s[i] <= '9' by {
            if i < decimal(n / 10).len() {
                assert(s[i] == decimal(n / 10)[i]);
            }
        }
        assert(s[0] == decimal(n / 10)[0]);
    }
}

} // verus!
