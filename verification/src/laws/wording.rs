//! How numbers and lists are written.
use crate::text::{decimal, digit, listed, listed_or_none};
use vstd::prelude::*;

verus! {

/// What a row of decimal digits stands for.
pub open spec fn numeral(s: Seq<char>) -> int
    decreases s.len(),
{
    if s.len() == 0 {
        0
    } else {
        10 * numeral(s.drop_last()) + (s.last() as int - '0' as int)
    }
}

/// A number is written in decimal digits that stand for it, without a nought in front.
pub proof fn lemma_numbers_read_back(n: int)
    requires
        0 <= n,
    ensures
        numeral(decimal(n)) == n,
        decimal(n).len() > 0,
        forall|i: int| 0 <= i < decimal(n).len() ==> '0' <= #[trigger] decimal(n)[i] <= '9',
        n > 0 ==> decimal(n)[0] != '0',
        n == 0 ==> decimal(n).len() == 1,
    decreases n,
{
    let s = decimal(n);
    lemma_digit(n % 10);
    if n < 10 {
        assert(n % 10 == n);
        assert(s.drop_last() =~= Seq::empty());
        assert(s.last() == digit(n));
        assert(numeral(s.drop_last()) == 0);
    } else {
        lemma_numbers_read_back(n / 10);
        let before = decimal(n / 10);
        assert(s.drop_last() =~= before);
        assert(s.last() == digit(n % 10));
        assert forall|i: int| 0 <= i < s.len() implies '0' <= #[trigger] s[i] <= '9' by {
            if i < before.len() {
                assert(s[i] == before[i]);
            }
        }
        assert(s[0] == before[0]);
    }
}

proof fn lemma_digit(n: int)
    requires
        0 <= n < 10,
    ensures
        digit(n) as int == '0' as int + n,
        '0' <= digit(n) <= '9',
        n > 0 ==> digit(n) != '0',
{
}

/// A list is written from its first text on: each text, and between two of them a comma and a
/// space; and one without texts says so.
pub proof fn lemma_lists_are_joined(parts: Seq<Seq<char>>)
    ensures
        parts.len() == 0 ==> listed_or_none(parts) == "(none)"@,
        parts.len() == 1 ==> listed_or_none(parts) == parts[0],
        parts.len() >= 2 ==> listed_or_none(parts) == parts[0] + ", "@ + listed_or_none(
            parts.skip(1),
        ),
{
    if parts.len() >= 2 {
        lemma_joined(parts, parts.len() as int);
    }
}

proof fn lemma_joined(parts: Seq<Seq<char>>, n: int)
    requires
        2 <= n <= parts.len(),
    ensures
        listed(parts, n) == parts[0] + ", "@ + listed(parts.skip(1), n - 1),
    decreases n,
{
    let rest = parts.skip(1);
    if n == 2 {
        assert(listed(parts, 1) == parts[0]);
        assert(listed(rest, 1) == parts[1]);
    } else {
        lemma_joined(parts, n - 1);
        assert(rest[n - 2] == parts[n - 1]);
        assert(listed(parts, n) =~= parts[0] + ", "@ + (listed(rest, n - 2) + ", "@ + rest[n - 2]));
    }
}

} // verus!
