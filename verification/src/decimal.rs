//! Decimal text: integers, numbers with a fixed count of decimals, and padding.
use vstd::prelude::*;

verus! {

/// The character of a decimal digit.
pub open spec fn digit(d: nat) -> char {
    ('0' as nat + d) as char
}

/// `n` in decimal, without leading zeros.
pub open spec fn decimal(n: nat) -> Seq<char>
    decreases n,
{
    if n < 10 {
        seq![digit(n)]
    } else {
        decimal(n / 10).push(digit(n % 10))
    }
}

/// The last `places` decimal digits of `n`, leading zeros included.
pub open spec fn last_digits(n: nat, places: nat) -> Seq<char>
    decreases places,
{
    if places == 0 {
        seq![]
    } else {
        last_digits(n / 10, (places - 1) as nat).push(digit(n % 10))
    }
}

/// Ten to the power of `places`.
pub open spec fn power_of_ten(places: nat) -> nat
    decreases places,
{
    if places == 0 {
        1
    } else {
        10 * power_of_ten((places - 1) as nat)
    }
}

/// The number `units / 10^places`, written with exactly `places` decimals, and
/// without a decimal point where there are none.
pub open spec fn fixed_point(units: nat, places: nat) -> Seq<char> {
    if places == 0 {
        decimal(units)
    } else {
        decimal(units / power_of_ten(places)) + seq!['.'] + last_digits(units, places)
    }
}

/// `text` moved to the right end of a field of `width` characters; a text that is
/// wider than the field stays as it is.
pub open spec fn right_aligned(text: Seq<char>, width: nat) -> Seq<char> {
    if text.len() < width {
        Seq::new((width - text.len()) as nat, |i: int| ' ') + text
    } else {
        text
    }
}

/// The number that a sequence of decimal digits stands for.
pub open spec fn number(text: Seq<char>) -> nat
    decreases text.len(),
{
    if text.len() == 0 {
        0
    } else {
        10 * number(text.drop_last()) + (text.last() as nat - '0' as nat) as nat
    }
}

/// Whether `text` is a number as people write it: digits alone, at least one, and no
/// zero in front unless it is the only digit.
pub open spec fn is_plain_number(text: Seq<char>) -> bool {
    &&& text.len() > 0
    &&& forall|i: int| 0 <= i < text.len() ==> '0' <= #[trigger] text[i] <= '9'
    &&& text.len() > 1 ==> text[0] != '0'
}

/// What digits stand for: nothing for none, and each further digit counts one while
/// those in front of it count ten times as much.
pub proof fn law_digits_count_tenfold(text: Seq<char>, c: char)
    requires
        '0' <= c <= '9',
    ensures
        number(Seq::<char>::empty()) == 0,
        number(text.push(c)) == 10 * number(text) + (c as int - '0' as int),
{
    assert(text.push(c).drop_last() =~= text);
}

/// The scale of a number of places is that power of ten.
pub proof fn law_scale_is_a_power_of_ten(places: nat)
    ensures
        power_of_ten(places) == vstd::arithmetic::power::pow(10, places),
    decreases places,
{
    if places == 0 {
        vstd::arithmetic::power::lemma_pow0(10);
    } else {
        law_scale_is_a_power_of_ten((places - 1) as nat);
        reveal(vstd::arithmetic::power::pow);
    }
}

/// The decimal text of a number is a plain number: no zeros in front, no other signs.
pub proof fn law_decimal_is_plain(n: nat)
    ensures
        is_plain_number(decimal(n)),
        n > 0 ==> decimal(n)[0] != '0',
    decreases n,
{
    if n >= 10 {
        law_decimal_is_plain(n / 10);
    }
}

/// There is no other plain number with the same value: the decimal text is the one
/// way to write `n`.
pub proof fn law_decimal_is_the_only_plain_text(n: nat, text: Seq<char>)
    requires
        is_plain_number(text),
        number(text) == n,
    ensures
        text == decimal(n),
    decreases text.len(),
{
    let front = text.drop_last();
    let c = text.last();
    assert('0' <= c <= '9');
    assert(number(text) == 10 * number(front) + (c as int - '0' as int));
    if text.len() == 1 {
        assert(number(front) == 0);
        assert(text =~= decimal(n));
    } else {
        assert forall|i: int| 0 <= i < front.len() implies '0' <= #[trigger] front[i] <= '9' by {
            assert(front[i] == text[i]);
        }
        assert(front[0] == text[0]);
        law_decimal_is_the_only_plain_text(n / 10, front);
        law_decimal_reads_back(n / 10);
        assert(n / 10 > 0) by {
            if n / 10 == 0 {
                assert(front =~= seq!['0']);
            }
        }
        assert(text =~= decimal(n));
    }
}

/// The last digits of a number are as many as asked for, and they stand for the
/// remainder by that power of ten.
pub proof fn law_last_digits_are_the_remainder(n: nat, places: nat)
    ensures
        last_digits(n, places).len() == places,
        forall|i: int| 0 <= i < places ==> '0' <= #[trigger] last_digits(n, places)[i] <= '9',
        number(last_digits(n, places)) == n % power_of_ten(places),
    decreases places,
{
    lemma_last_digits_read_back(n, places);
    if places > 0 {
        law_last_digits_are_the_remainder(n / 10, (places - 1) as nat);
    }
}

/// A number with decimals: a plain number, the point, and exactly `places` digits;
/// together the digits stand for `units`. Without decimals there is no point.
pub proof fn law_fixed_point_has_the_point_in_place(units: nat, places: nat)
    ensures
        places == 0 ==> {
            &&& is_plain_number(fixed_point(units, 0))
            &&& number(fixed_point(units, 0)) == units
        },
        places > 0 ==> {
            let text = fixed_point(units, places);
            let point = text.len() - places - 1;
            &&& point > 0
            &&& text[point] == '.'
            &&& is_plain_number(text.take(point))
            &&& forall|i: int| point < i < text.len() ==> '0' <= #[trigger] text[i] <= '9'
            &&& number(text.take(point)) * power_of_ten(places) + number(text.skip(point + 1))
                == units
        },
{
    let front = decimal(units / power_of_ten(places));
    let back = last_digits(units, places);
    law_decimal_is_plain(units / power_of_ten(places));
    law_decimal_is_plain(units);
    law_decimal_reads_back(units);
    law_last_digits_are_the_remainder(units, places);
    law_fixed_point_reads_back(units, places);
    if places > 0 {
        let text = fixed_point(units, places);
        let point = text.len() - places - 1;
        assert(text.take(point) =~= front);
        assert(text.skip(point + 1) =~= back);
        assert forall|i: int| point < i < text.len() implies '0' <= #[trigger] text[i] <= '9' by {
            assert(text[i] == back[i - point - 1]);
        }
    }
}

/// A text in a field keeps its characters at the right end, has nothing but spaces in
/// front of them, and fills the field: it is never cut, and never wider than needed.
pub proof fn law_alignment_adds_spaces_in_front(text: Seq<char>, width: nat)
    ensures
        ({
            let padded = right_aligned(text, width);
            let start = padded.len() - text.len();
            &&& start >= 0
            &&& padded.skip(start) == text
            &&& forall|i: int| 0 <= i < start ==> #[trigger] padded[i] == ' '
            &&& padded.len() >= width
            &&& start > 0 ==> padded.len() == width
        }),
{
    let padded = right_aligned(text, width);
    assert(padded.skip(padded.len() - text.len()) =~= text);
}

/// Reading a number back from its decimal text gives the number again, so two
/// different numbers are never printed alike.
pub proof fn law_decimal_reads_back(n: nat)
    ensures
        number(decimal(n)) == n,
    decreases n,
{
    if n < 10 {
        assert(decimal(n).drop_last() =~= seq![]);
        assert(number(seq![]) == 0);
    } else {
        law_decimal_reads_back(n / 10);
        assert(decimal(n).drop_last() =~= decimal(n / 10));
    }
}

proof fn lemma_last_digits_read_back(n: nat, places: nat)
    ensures
        number(last_digits(n, places)) == n % power_of_ten(places),
    decreases places,
{
    if places == 0 {
        assert(number(seq![]) == 0);
        assert(n % 1 == 0);
    } else {
        let rest = power_of_ten((places - 1) as nat);
        lemma_last_digits_read_back(n / 10, (places - 1) as nat);
        lemma_power_of_ten_positive((places - 1) as nat);
        assert(last_digits(n, places).drop_last() =~= last_digits(n / 10, (places - 1) as nat));
        vstd::arithmetic::div_mod::lemma_mod_breakdown(n as int, 10, rest as int);
    }
}

/// The digits before and behind the decimal point make up the number again, so two
/// different numbers are never printed alike.
pub proof fn law_fixed_point_reads_back(units: nat, places: nat)
    ensures
        number(decimal(units / power_of_ten(places))) * power_of_ten(places) + number(
            last_digits(units, places),
        ) == units,
{
    let scale = power_of_ten(places);
    lemma_power_of_ten_positive(places);
    law_decimal_reads_back(units / scale);
    lemma_last_digits_read_back(units, places);
    vstd::arithmetic::div_mod::lemma_fundamental_div_mod(units as int, scale as int);
    assert((units / scale) * scale == scale * (units / scale)) by (nonlinear_arith);
}

/// Appends one decimal digit to `out`.
fn push_digit(out: &mut String, d: u8)
    requires
        d < 10,
    ensures
        final(out)@ == old(out)@.push(digit(d as nat)),
{
    proof {
        reveal_strlit("0");
        reveal_strlit("1");
        reveal_strlit("2");
        reveal_strlit("3");
        reveal_strlit("4");
        reveal_strlit("5");
        reveal_strlit("6");
        reveal_strlit("7");
        reveal_strlit("8");
        reveal_strlit("9");
    }
    let text = match d {
        0 => "0",
        1 => "1",
        2 => "2",
        3 => "3",
        4 => "4",
        5 => "5",
        6 => "6",
        7 => "7",
        8 => "8",
        _ => "9",
    };
    assert(text@ =~= seq![digit(d as nat)]);
    out.append(text);
    assert(out@ =~= old(out)@.push(digit(d as nat)));
}

/// Appends `n` in decimal to `out`.
pub fn push_decimal(out: &mut String, n: u128)
    ensures
        final(out)@ == old(out)@ + decimal(n as nat),
    decreases n,
{
    if n >= 10 {
        push_decimal(out, n / 10);
    }
    push_digit(out, (n % 10) as u8);
    assert(out@ =~= old(out)@ + decimal(n as nat));
}

/// Appends the last `places` decimal digits of `n` to `out`.
fn push_last_digits(out: &mut String, n: u128, places: u32)
    ensures
        final(out)@ == old(out)@ + last_digits(n as nat, places as nat),
    decreases places,
{
    if places > 0 {
        push_last_digits(out, n / 10, places - 1);
        push_digit(out, (n % 10) as u8);
    }
    assert(out@ =~= old(out)@ + last_digits(n as nat, places as nat));
}

/// The integer part of `n / 10^places`.
fn integer_part(n: u128, places: u32) -> (r: u128)
    ensures
        r as nat == n as nat / power_of_ten(places as nat),
    decreases places,
{
    if places == 0 {
        assert(power_of_ten(0) == 1);
        n
    } else {
        let r = integer_part(n / 10, places - 1);
        proof {
            let rest = power_of_ten((places - 1) as nat);
            lemma_power_of_ten_positive((places - 1) as nat);
            assert(power_of_ten(places as nat) == 10 * rest);
            vstd::arithmetic::div_mod::lemma_div_denominator(
                n as int,
                10,
                rest as int,
            );
        }
        r
    }
}

proof fn lemma_power_of_ten_positive(places: nat)
    ensures
        power_of_ten(places) > 0,
    decreases places,
{
    if places > 0 {
        lemma_power_of_ten_positive((places - 1) as nat);
    }
}

/// More places, a larger power of ten.
pub proof fn lemma_power_of_ten_at_most(few: nat, many: nat)
    requires
        few <= many,
    ensures
        power_of_ten(few) <= power_of_ten(many),
    decreases many,
{
    if few < many {
        lemma_power_of_ten_at_most(few, (many - 1) as nat);
    }
}

/// Writes `units / 10^places` with exactly `places` decimals.
pub fn format_fixed(units: u128, places: u32) -> (text: String)
    ensures
        text@ == fixed_point(units as nat, places as nat),
{
    let mut out = String::new();
    push_decimal(&mut out, integer_part(units, places));
    if places > 0 {
        proof {
            reveal_strlit(".");
        }
        out.append(".");
        push_last_digits(&mut out, units, places);
    } else {
        assert(power_of_ten(0) == 1);
    }
    assert(out@ =~= fixed_point(units as nat, places as nat));
    out
}

/// Moves `text` to the right end of a field of `width` characters.
pub fn align_right(text: String, width: usize) -> (padded: String)
    ensures
        padded@ == right_aligned(text@, width as nat),
{
    let len = text.as_str().unicode_len();
    let mut padded = String::new();
    if len < width {
        let spaces = width - len;
        let mut i: usize = 0;
        while i < spaces
            invariant
                i <= spaces,
                padded@ == Seq::new(i as nat, |k: int| ' '),
            decreases spaces - i,
        {
            proof {
                reveal_strlit(" ");
            }
            padded.append(" ");
            i = i + 1;
            assert(padded@ =~= Seq::new(i as nat, |k: int| ' '));
        }
    }
    padded.append(text.as_str());
    assert(padded@ =~= right_aligned(text@, width as nat));
    padded
}

} // verus!
