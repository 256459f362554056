//! Numbers as text.

use vstd::prelude::*;

verus! {

/// `String::push`: appends a character to the end of a string.
pub assume_specification[ String::push ](s: &mut String, c: char)
    ensures
        final(s)@ == old(s)@.push(c),
;

/// The character of a digit.
pub open spec fn digit_char(d: nat) -> char {
    (48 + d) as char
}

/// The decimal digits of a number.
pub open spec fn decimal(n: nat) -> Seq<char>
    decreases n,
{
    if n < 10 {
        seq![digit_char(n)]
    } else {
        decimal(n / 10).push(digit_char(n % 10))
    }
}

/// The characters of `s` with a comma before every group of three, counted
/// from the right, but for the first group.
pub open spec fn grouped(s: Seq<char>) -> Seq<char>
    decreases s.len(),
{
    if s.len() <= 3 {
        s
    } else {
        grouped(s.take(s.len() - 3)) + seq![','] + s.skip(s.len() - 3)
    }
}

/// The number that decimal digits spell.
pub open spec fn number_of(s: Seq<char>) -> nat
    decreases s.len(),
{
    if s.len() == 0 {
        0
    } else {
        (number_of(s.drop_last()) * 10 + (s.last() as nat - 48)) as nat
    }
}

/// The characters of `s` that are not commas.
pub open spec fn without_commas(s: Seq<char>) -> Seq<char>
    decreases s.len(),
{
    if s.len() == 0 {
        Seq::empty()
    } else if s.last() == ',' {
        without_commas(s.drop_last())
    } else {
        without_commas(s.drop_last()).push(s.last())
    }
}

proof fn lemma_without_commas_add(a: Seq<char>, b: Seq<char>)
    ensures
        without_commas(a + b) == without_commas(a) + without_commas(b),
    decreases b.len(),
{
    if b.len() == 0 {
        assert(a + b =~= a);
        assert(without_commas(a) + without_commas(b) =~= without_commas(a));
    } else {
        assert((a + b).drop_last() =~= a + b.drop_last());
        lemma_without_commas_add(a, b.drop_last());
        assert(without_commas(a + b) =~= without_commas(a) + without_commas(b));
    }
}

proof fn lemma_no_commas(s: Seq<char>)
    requires
        forall|i: int| 0 <= i < s.len() ==> #[trigger] s[i] != ',',
    ensures
        without_commas(s) == s,
    decreases s.len(),
{
    if s.len() > 0 {
        assert forall|i: int| 0 <= i < s.drop_last().len() implies #[trigger] s.drop_last()[i]
            != ',' by {
            assert(s.drop_last()[i] == s[i]);
        }
        lemma_no_commas(s.drop_last());
        assert(s[s.len() - 1] != ',');
        assert(without_commas(s) =~= s);
    }
}

proof fn lemma_grouped_without_commas(s: Seq<char>)
    requires
        forall|i: int| 0 <= i < s.len() ==> #[trigger] s[i] != ',',
    ensures
        without_commas(grouped(s)) == s,
    decreases s.len(),
{
    if s.len() <= 3 {
        lemma_no_commas(s);
    } else {
        let (front, back) = (s.take(s.len() - 3), s.skip(s.len() - 3));
        lemma_grouped_without_commas(front);
        lemma_no_commas(back);
        lemma_without_commas_add(grouped(front), seq![',']);
        assert(without_commas(seq![',']) =~= Seq::empty()) by {
            reveal_with_fuel(without_commas, 2);
        }
        lemma_without_commas_add(grouped(front) + seq![','], back);
        assert(without_commas(grouped(s)) =~= s);
    }
}

proof fn lemma_decimal(n: nat)
    ensures
        number_of(decimal(n)) == n,
        decimal(n).len() > 0,
        forall|i: int| 0 <= i < decimal(n).len() ==> '0' <= #[trigger] decimal(n)[i] <= '9',
    decreases n,
{
    let s = decimal(n);
    if n < 10 {
        reveal_with_fuel(number_of, 2);
    } else {
        lemma_decimal(n / 10);
        assert(s.drop_last() =~= decimal(n / 10));
    }
}

/// The text of a number without its commas spells the number.
pub proof fn law_text_spells_the_number(n: nat)
    ensures
        without_commas(grouped(decimal(n))) == decimal(n),
        number_of(decimal(n)) == n,
{
    lemma_decimal(n);
    lemma_grouped_without_commas(decimal(n));
}

proof fn lemma_commas(s: Seq<char>)
    requires
        s.len() > 0,
        forall|i: int| 0 <= i < s.len() ==> '0' <= #[trigger] s[i] <= '9',
    ensures
        ({
            let t = grouped(s);
            &&& t.len() % 4 != 0
            &&& t[0] == s[0]
            &&& forall|i: int|
                0 <= i < t.len() ==> if (t.len() - 1 - i) % 4 == 3 {
                    #[trigger] t[i] == ','
                } else {
                    '0' <= t[i] <= '9'
                }
        }),
    decreases s.len(),
{
    let t = grouped(s);
    if s.len() > 3 {
        let front = s.take(s.len() - 3);
        let back = s.skip(s.len() - 3);
        let g = grouped(front);
        assert forall|i: int| 0 <= i < front.len() implies '0' <= #[trigger] front[i] <= '9' by {
            assert(front[i] == s[i]);
        }
        lemma_commas(front);
        assert forall|i: int| 0 <= i < t.len() implies if (t.len() - 1 - i) % 4 == 3 {
            #[trigger] t[i] == ','
        } else {
            '0' <= t[i] <= '9'
        } by {
            if i < g.len() {
                assert(t[i] == g[i]);
            } else if i > g.len() {
                let j = i - g.len() - 1;
                assert(t[i] == back[j]);
                assert(back[j] == s[s.len() - 3 + j]);
            }
        }
    }
}

proof fn lemma_no_leading_zero(n: nat)
    requires
        n > 0,
    ensures
        decimal(n).len() > 0,
        decimal(n)[0] != '0',
    decreases n,
{
    if n >= 10 {
        lemma_no_leading_zero(n / 10);
    }
}

/// The text of a number: counted from the right, every fourth character is a
/// comma and all others are digits; it starts with a digit, and with a zero only
/// for zero, which is one character.
pub proof fn law_numbers_are_grouped_by_three(n: nat)
    ensures
        ({
            let t = grouped(decimal(n));
            &&& t.len() > 0
            &&& t[0] != ','
            &&& t[0] == '0' <==> n == 0
            &&& n == 0 ==> t.len() == 1
            &&& forall|i: int|
                0 <= i < t.len() ==> if (t.len() - 1 - i) % 4 == 3 {
                    #[trigger] t[i] == ','
                } else {
                    '0' <= t[i] <= '9'
                }
        }),
{
    lemma_decimal(n);
    lemma_commas(decimal(n));
    if n > 0 {
        lemma_no_leading_zero(n);
    }
}

/// The characters of `s`, each followed by a comma where a multiple of three
/// of them, but not none, lie to its right; `k` more lie to the right of `s`.
spec fn spaced(s: Seq<char>, k: nat) -> Seq<char>
    decreases s.len(),
{
    if s.len() == 0 {
        Seq::empty()
    } else {
        let comma = if k > 0 && k % 3 == 0 {
            seq![',']
        } else {
            Seq::empty()
        };
        spaced(s.drop_last(), k + 1) + (seq![s.last()] + comma)
    }
}

proof fn lemma_spaced_is_grouped(s: Seq<char>, k: nat)
    requires
        s.len() > 0,
        k % 3 == 0,
    ensures
        spaced(s, k) == grouped(s) + (if k > 0 {
            seq![',']
        } else {
            Seq::empty()
        }),
    decreases s.len(),
{
    let comma = if k > 0 {
        seq![',']
    } else {
        Seq::empty()
    };
    let s1 = s.drop_last();
    let s2 = s1.drop_last();
    let s3 = s2.drop_last();
    if s.len() == 1 {
        assert(spaced(s1, k + 1) =~= Seq::empty());
        assert(spaced(s, k) =~= s + comma);
    } else if s.len() == 2 {
        assert(spaced(s2, k + 2) =~= Seq::empty());
        assert(spaced(s1, k + 1) =~= s1);
        assert(spaced(s, k) =~= s + comma);
    } else {
        assert(spaced(s1, k + 1) =~= spaced(s2, k + 2) + seq![s1.last()]);
        assert(spaced(s2, k + 2) =~= spaced(s3, k + 3) + seq![s2.last()]);
        if s.len() == 3 {
            assert(spaced(s3, k + 3) =~= Seq::empty());
            assert(spaced(s, k) =~= s + comma);
        } else {
            lemma_spaced_is_grouped(s3, k + 3);
            assert(s3 =~= s.take(s.len() - 3));
            assert(spaced(s, k) =~= grouped(s) + comma);
        }
    }
}

/// Writes a number with a comma between groups of three digits.
pub fn format_num(num: u64) -> (text: String)
    ensures
        text@ == grouped(decimal(num as nat)),
{
    let mut reversed: Vec<char> = Vec::new();
    let mut rest: u64 = num;
    let mut count: u64 = 0;
    let ghost whole = spaced(decimal(num as nat), 0);
    loop
        invariant_except_break
            whole == spaced(decimal(rest as nat), count as nat) + reversed@.reverse(),
            count + rest <= num,
        invariant
            whole == spaced(decimal(num as nat), 0),
        ensures
            whole == reversed@.reverse(),
        decreases rest,
    {
        let ghost before = reversed@;
        let ghost digits = decimal(rest as nat);
        let digit: u8 = (rest % 10) as u8;
        if count % 3 == 0 && count != 0 {
            reversed.push(',');
        }
        reversed.push((48 + digit) as char);
        proof {
            assert(digits.last() == digit_char((rest % 10) as nat));
            let comma = if count > 0 && count % 3 == 0 {
                seq![',']
            } else {
                Seq::empty()
            };
            assert(reversed@.reverse() =~= (seq![digits.last()] + comma) + before.reverse());
            assert(whole =~= spaced(digits.drop_last(), (count + 1) as nat) + reversed@.reverse());
            if rest < 10 {
                assert(digits.drop_last() =~= Seq::empty());
                assert(whole =~= reversed@.reverse());
            } else {
                assert(digits.drop_last() =~= decimal((rest / 10) as nat));
            }
        }
        if rest < 10 {
            break;
        }
        rest = rest / 10;
        count += 1;
    }
    proof {
        lemma_spaced_is_grouped(decimal(num as nat), 0);
        assert(whole =~= grouped(decimal(num as nat)));
    }
    let mut text = String::new();
    let mut i: usize = reversed.len();
    while i > 0
        invariant
            i <= reversed@.len(),
            text@ == reversed@.skip(i as int).reverse(),
        decreases i,
    {
        i -= 1;
        text.push(reversed[i]);
        assert(text@ =~= reversed@.skip(i as int).reverse());
    }
    assert(reversed@.skip(0) =~= reversed@);
    text
}

/// Writes the largest number of notes that sounded at once, or that it is not
/// known.
pub fn format_polyphony(max_polyphony: i32) -> (text: String)
    ensures
        text@ == (if max_polyphony > 0 {
            grouped(decimal(max_polyphony as nat))
        } else {
            "N/A (Stream Mode)"@
        }),
{
    if max_polyphony > 0 {
        format_num(max_polyphony as u64)
    } else {
        "N/A (Stream Mode)".to_owned()
    }
}

} // verus!
