//! Numbers in messages.

use crate::text;
use vstd::prelude::*;

verus! {

/// The value of a digit below sixteen.
pub open spec fn digit_value(digit: char) -> int {
    if '0' <= digit <= '9' {
        digit as int - '0' as int
    } else {
        digit as int - 'a' as int + 10
    }
}

/// The value of a number that is written out.
pub open spec fn value(text: Seq<char>, base: int) -> int
    decreases text.len(),
{
    if text.len() == 0 {
        0
    } else {
        value(text.drop_last(), base) * base + digit_value(text.last())
    }
}

/// Whether `text` is a number without leading zeros.
pub open spec fn is_number(text: Seq<char>) -> bool {
    &&& text.len() > 0
    &&& text[0] == '0' ==> text.len() == 1
}

/// A number in decimal has the digits that make it up again.
pub proof fn law_decimal_is_read_back(n: nat)
    ensures
        is_number(text::decimal(n)),
        value(text::decimal(n), 10) == n,
        forall|i: int|
            0 <= i < text::decimal(n).len() ==> '0' <= #[trigger] text::decimal(n)[i] <= '9',
    decreases n,
{
    let written = text::decimal(n);
    if n >= 10 {
        let before = text::decimal(n / 10);
        law_decimal_is_read_back(n / 10);
        assert(written.drop_last() =~= before);
        assert(value(before, 10) == n / 10);
        assert forall|i: int| 0 <= i < written.len() implies '0' <= #[trigger] written[i]
            <= '9' by {
            if i < before.len() {
                assert(written[i] == before[i]);
            }
        }
        assert(written[0] == before[0]);
        assert(before[0] == '0' ==> n / 10 == 0) by {
            if before[0] == '0' {
                assert(before.len() == 1);
                assert(before.drop_last() =~= Seq::empty());
                assert(value(before.drop_last(), 10) == 0);
            }
        }
    } else {
        assert(written.drop_last() =~= Seq::empty());
        assert(value(written.drop_last(), 10) == 0);
    }
}

/// A number in hexadecimal has the digits that make it up again.
pub proof fn law_hexadecimal_is_read_back(n: nat)
    ensures
        is_number(text::hexadecimal(n)),
        value(text::hexadecimal(n), 16) == n,
    decreases n,
{
    let written = text::hexadecimal(n);
    if n >= 16 {
        let before = text::hexadecimal(n / 16);
        law_hexadecimal_is_read_back(n / 16);
        assert(written.drop_last() =~= before);
        assert(value(before, 16) == n / 16);
        assert(written[0] == before[0]);
        assert(before[0] == '0' ==> n / 16 == 0) by {
            if before[0] == '0' {
                assert(before.len() == 1);
                assert(before.drop_last() =~= Seq::empty());
                assert(value(before.drop_last(), 16) == 0);
            }
        }
    } else {
        assert(written.drop_last() =~= Seq::empty());
        assert(value(written.drop_last(), 16) == 0);
    }
}

} // verus!
