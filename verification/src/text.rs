//! Reading numbers and fields out of short texts: the names of the variables
//! of the linear program, and the acknowledgements that the client sends.

use vstd::prelude::*;
use crate::wire::decimal;

verus! {

/// Every byte is an ASCII digit.
pub open spec fn all_digits(s: Seq<u8>) -> bool {
    forall|i: int| 0 <= i < s.len() ==> 48 <= #[trigger] s[i] <= 57
}

/// The number that the digits spell.
pub open spec fn digits_value(s: Seq<u8>) -> int
    decreases s.len(),
{
    if s.len() == 0 {
        0
    } else {
        digits_value(s.drop_last()) * 10 + (s.last() - 48)
    }
}

/// The number that the text spells, if it spells one of at most `max`: one
/// or more digits, after a plus sign or without.
pub open spec fn number_spec(s: Seq<u8>, max: int) -> Option<int> {
    let body = if s.len() > 0 && s[0] == 43 {
        s.drop_first()
    } else {
        s
    };
    if body.len() > 0 && all_digits(body) && digits_value(body) <= max {
        Some(digits_value(body))
    } else {
        None
    }
}

/// The digits of a text spell no less than the first of them do.
pub proof fn lemma_digits_value_grows(s: Seq<u8>, k: int)
    requires
        all_digits(s),
        0 <= k <= s.len(),
    ensures
        0 <= digits_value(s.take(k)) <= digits_value(s),
    decreases s.len() - k,
{
    if k == 0 {
        assert(s.take(0) =~= Seq::<u8>::empty());
    }
    if k < s.len() {
        assert(s.take(k + 1).drop_last() =~= s.take(k));
        lemma_digits_value_grows(s, k + 1);
        if k > 0 {
            lemma_digits_value_grows_base(s, k);
        }
    } else {
        assert(s.take(k) =~= s);
        lemma_digits_value_nonnegative(s);
    }
}

/// The digits spell no negative number.
pub proof fn lemma_digits_value_nonnegative(s: Seq<u8>)
    requires
        all_digits(s),
    ensures
        0 <= digits_value(s),
    decreases s.len(),
{
    if s.len() > 0 {
        assert(all_digits(s.drop_last())) by {
            assert forall|i: int| 0 <= i < s.drop_last().len() implies 48 <= #[trigger] s.drop_last()[i]
                <= 57 by {
                assert(48 <= s[i] <= 57);
            }
        }
        lemma_digits_value_nonnegative(s.drop_last());
    }
}

/// The first `k` digits spell no negative number.
proof fn lemma_digits_value_grows_base(s: Seq<u8>, k: int)
    requires
        all_digits(s),
        0 <= k <= s.len(),
    ensures
        0 <= digits_value(s.take(k)),
{
    assert(all_digits(s.take(k))) by {
        assert forall|i: int| 0 <= i < s.take(k).len() implies 48 <= #[trigger] s.take(k)[i]
            <= 57 by {
            assert(48 <= s[i] <= 57);
        }
    }
    lemma_digits_value_nonnegative(s.take(k));
}

/// The decimal digits of a number spell the number.
pub proof fn lemma_decimal_spells(n: nat)
    ensures
        decimal(n).len() > 0,
        all_digits(decimal(n)),
        digits_value(decimal(n)) == n,
    decreases n,
{
    if n < 10 {
        let one = seq![(48 + n) as u8];
        assert(decimal(n) =~= one);
        assert(one.drop_last() =~= Seq::<u8>::empty());
        assert(one.last() == 48 + n);
        assert(digits_value(one.drop_last()) == 0);
        assert(digits_value(one) == 0 * 10 + (one.last() - 48));
    } else {
        lemma_decimal_spells(n / 10);
        let front = decimal(n / 10);
        let all = front.push((48 + n % 10) as u8);
        assert(all.drop_last() =~= front);
        assert(all.last() == 48 + n % 10);
        assert(digits_value(all) == digits_value(front) * 10 + (all.last() - 48));
        assert(n == (n / 10) * 10 + n % 10) by (nonlinear_arith);
        assert forall|i: int| 0 <= i < all.len() implies 48 <= #[trigger] all[i] <= 57 by {
            if i < front.len() {
                assert(48 <= front[i] <= 57);
            }
        }
    }
}

/// Reading the decimal digits of a number gives the number back.
pub proof fn lemma_number_round_trip(n: nat, max: int)
    requires
        n <= max,
    ensures
        number_spec(decimal(n), max) == Some(n as int),
{
    lemma_decimal_spells(n);
    assert(decimal(n)[0] != 43);
}

/// The number that the text spells, if it spells one of at most `max`.
#[verifier::rlimit(50)]
pub fn parse_number(s: &Vec<u8>, max: u128) -> (r: Option<u128>)
    ensures
        match number_spec(s@, max as int) {
            Some(v) => 0 <= v <= max && r == Some(v as u128),
            None => r.is_none(),
        },
{
    let n: usize = s.len();
    let start: usize = if n > 0 && s[0] == 43 {
        1
    } else {
        0
    };
    let ghost body = if start == 1 {
        s@.drop_first()
    } else {
        s@
    };
    if start >= n {
        return None;
    }
    let mut acc: u128 = 0;
    let mut i: usize = start;
    proof {
        assert(body.take(0) =~= Seq::<u8>::empty());
    }
    while i < n
        invariant
            start <= i <= n,
            n == s@.len(),
            body == (if s@.len() > 0 && s@[0] == 43 {
                s@.drop_first()
            } else {
                s@
            }),
            body.len() == n - start,
            forall|k: int| 0 <= k < body.len() ==> body[k] == s@[k + start],
            all_digits(body.take(i - start)),
            acc == digits_value(body.take(i - start)),
            acc <= max,
        decreases n - i,
    {
        let c: u8 = s[i];
        if c < 48 || c > 57 {
            proof {
                assert(body[i - start] == c);
                if all_digits(body) {
                    assert(48 <= body[i - start] <= 57);
                }
            }
            return None;
        }
        let d: u128 = (c - 48) as u128;
        proof {
            assert(body.take(i - start + 1).drop_last() =~= body.take(i - start));
            assert(body.take(i - start + 1).last() == c);
            assert forall|k: int| 0 <= k < body.take(i - start + 1).len() implies 48
                <= #[trigger] body.take(i - start + 1)[k] <= 57 by {
                if k < i - start {
                    assert(48 <= body.take(i - start)[k] <= 57);
                }
            }
        }
        if d > max || acc > (max - d) / 10 {
            proof {
                // the digits so far spell more than `max`, and so does the text
                let next = body.take(i - start + 1);
                assert(digits_value(next) == acc * 10 + d);
                assert(acc * 10 + d > max) by (nonlinear_arith)
                    requires
                        d > max || acc > (max - d) / 10,
                        0 <= d,
                        0 <= acc,
                        0 <= max,
                ;
                if all_digits(body) {
                    lemma_digits_value_grows(body, i - start + 1);
                }
            }
            return None;
        }
        proof {
            assert(acc * 10 + d <= max) by (nonlinear_arith)
                requires
                    acc <= (max - d) / 10,
                    d <= max,
                    0 <= d,
            ;
        }
        acc = acc * 10 + d;
        i += 1;
    }
    proof {
        assert(body.take(n - start) =~= body);
    }
    Some(acc)
}

/// The fields of a text between separators: what comes before the first
/// separator, between two that follow each other, and after the last. A text
/// without separator is one field.
pub open spec fn fields(s: Seq<u8>, sep: u8) -> Seq<Seq<u8>>
    decreases s.len(),
{
    if s.len() == 0 {
        seq![Seq::<u8>::empty()]
    } else {
        let before = fields(s.drop_last(), sep);
        if s.last() == sep {
            before.push(Seq::<u8>::empty())
        } else {
            before.update(before.len() - 1, before.last().push(s.last()))
        }
    }
}

/// A text has at least one field.
pub proof fn lemma_fields_nonempty(s: Seq<u8>, sep: u8)
    ensures
        fields(s, sep).len() >= 1,
    decreases s.len(),
{
    if s.len() > 0 {
        lemma_fields_nonempty(s.drop_last(), sep);
    }
}

/// A text without separator is one field: itself.
pub proof fn lemma_fields_of_plain(s: Seq<u8>, sep: u8)
    requires
        forall|i: int| 0 <= i < s.len() ==> s[i] != sep,
    ensures
        fields(s, sep) == seq![s],
    decreases s.len(),
{
    if s.len() == 0 {
        assert(s =~= Seq::<u8>::empty());
    } else {
        let front = s.drop_last();
        assert forall|i: int| 0 <= i < front.len() implies front[i] != sep by {
            assert(s[i] != sep);
        }
        lemma_fields_of_plain(front, sep);
        assert(front.push(s.last()) =~= s);
        assert(seq![front].update(0, front.push(s.last())) =~= seq![s]);
    }
}

/// A separator and a text without separator add one field: the text.
pub proof fn lemma_fields_append(s: Seq<u8>, d: Seq<u8>, sep: u8)
    requires
        forall|i: int| 0 <= i < d.len() ==> d[i] != sep,
    ensures
        fields(s + seq![sep] + d, sep) == fields(s, sep).push(d),
    decreases d.len(),
{
    let all = s + seq![sep] + d;
    if d.len() == 0 {
        assert(all.drop_last() =~= s);
        assert(d =~= Seq::<u8>::empty());
    } else {
        let front = d.drop_last();
        assert forall|i: int| 0 <= i < front.len() implies front[i] != sep by {
            assert(d[i] != sep);
        }
        lemma_fields_append(s, front, sep);
        assert(all.drop_last() =~= s + seq![sep] + front);
        assert(all.last() == d.last());
        assert(d.last() == d[d.len() - 1]);
        lemma_fields_nonempty(s, sep);
        assert(front.push(d.last()) =~= d);
        let before = fields(s, sep).push(front);
        assert(before.update(before.len() - 1, before.last().push(d.last())) =~= fields(
            s,
            sep,
        ).push(d));
    }
}

/// The fields of a text between separators.
pub fn split_fields(s: &Vec<u8>, sep: u8) -> (r: Vec<Vec<u8>>)
    ensures
        r@.len() == fields(s@, sep).len(),
        forall|i: int| 0 <= i < r@.len() ==> (#[trigger] r@[i])@ == fields(s@, sep)[i],
{
    let mut done: Vec<Vec<u8>> = Vec::new();
    let mut current: Vec<u8> = Vec::new();
    let mut i: usize = 0;
    proof {
        assert(s@.take(0) =~= Seq::<u8>::empty());
    }
    while i < s.len()
        invariant
            i <= s@.len(),
            fields(s@.take(i as int), sep).len() == done@.len() + 1,
            forall|k: int|
                0 <= k < done@.len() ==> (#[trigger] done@[k])@ == fields(s@.take(i as int), sep)[k],
            current@ == fields(s@.take(i as int), sep).last(),
        decreases s@.len() - i,
    {
        let c: u8 = s[i];
        proof {
            assert(s@.take(i + 1).drop_last() =~= s@.take(i as int));
            assert(s@.take(i + 1).last() == c);
        }
        if c == sep {
            let mut finished: Vec<u8> = Vec::new();
            std::mem::swap(&mut finished, &mut current);
            done.push(finished);
        } else {
            current.push(c);
        }
        i += 1;
    }
    proof {
        assert(s@.take(s@.len() as int) =~= s@);
    }
    done.push(current);
    done
}

} // verus!
