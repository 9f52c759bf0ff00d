use vstd::prelude::*;
use vstd::string::StrSliceExecFns;
use vstd::string::StringExecFns;

use crate::models::Transaction;

verus! {

/// Why an amount could not be read.
#[derive(Clone, Copy, Debug, PartialEq, Eq, Structural)]
pub enum AmountError {
    /// Not `<digits>.<at most four digits>`, with at least one digit before the dot.
    Malformed,
    /// Well formed, but the scaled value does not fit in 128 bits.
    Overflow,
}

/// Why a record could not be turned into a transaction.
#[derive(Clone, Copy, Debug, PartialEq, Eq, Structural)]
pub enum RecordError {
    /// The type is none of `deposit`, `withdrawal`, `dispute`, `resolve`, `chargeback`.
    UnsupportedType,
    /// A deposit or a withdrawal without an amount.
    MissingAmount,
    /// A deposit or a withdrawal whose amount could not be read.
    BadAmount(AmountError),
}

/// One row of input, with its fields trimmed.
pub struct Record {
    pub kind: String,
    pub client: u16,
    pub tx: u32,
    pub amount: Option<String>,
}

pub open spec fn is_digit(c: char) -> bool {
    c == '0' || c == '1' || c == '2' || c == '3' || c == '4' || c == '5' || c == '6' || c == '7'
        || c == '8' || c == '9'
}

pub open spec fn digit_value(c: char) -> nat {
    if c == '1' {
        1
    } else if c == '2' {
        2
    } else if c == '3' {
        3
    } else if c == '4' {
        4
    } else if c == '5' {
        5
    } else if c == '6' {
        6
    } else if c == '7' {
        7
    } else if c == '8' {
        8
    } else if c == '9' {
        9
    } else {
        0
    }
}

/// The character of a decimal digit `d < 10`.
pub open spec fn digit_char(d: nat) -> char {
    if d == 1 {
        '1'
    } else if d == 2 {
        '2'
    } else if d == 3 {
        '3'
    } else if d == 4 {
        '4'
    } else if d == 5 {
        '5'
    } else if d == 6 {
        '6'
    } else if d == 7 {
        '7'
    } else if d == 8 {
        '8'
    } else if d == 9 {
        '9'
    } else {
        '0'
    }
}

pub open spec fn all_digits(s: Seq<char>) -> bool {
    forall|i: int| 0 <= i < s.len() ==> is_digit(#[trigger] s[i])
}

/// The number that a string of decimal digits writes.
pub open spec fn digits_value(s: Seq<char>) -> nat
    decreases s.len(),
{
    if s.len() == 0 {
        0
    } else {
        digits_value(s.drop_last()) * 10 + digit_value(s.last())
    }
}

pub open spec fn pow10(n: nat) -> nat
    decreases n,
{
    if n == 0 {
        1
    } else {
        10 * pow10((n - 1) as nat)
    }
}

/// The position of the last `.` in `s`, or -1.
pub open spec fn dot_pos(s: Seq<char>) -> int
    decreases s.len(),
{
    if s.len() == 0 {
        -1
    } else if s.last() == '.' {
        s.len() - 1
    } else {
        dot_pos(s.drop_last())
    }
}

pub open spec fn whole_part(s: Seq<char>) -> Seq<char> {
    s.take(dot_pos(s))
}

pub open spec fn fraction_part(s: Seq<char>) -> Seq<char> {
    s.skip(dot_pos(s) + 1)
}

/// `s` reads `<digits>.<digits>`, with at least one digit before the dot and
/// at most four after it.
pub open spec fn is_amount_text(s: Seq<char>) -> bool {
    &&& dot_pos(s) > 0
    &&& all_digits(whole_part(s))
    &&& all_digits(fraction_part(s))
    &&& fraction_part(s).len() <= 4
}

/// The amount, in ten-thousandths, that `s` writes: the fraction is padded
/// on the right with zeros to four digits.
pub open spec fn amount_value(s: Seq<char>) -> nat {
    digits_value(whole_part(s)) * 10000 + digits_value(fraction_part(s)) * pow10(
        (4 - fraction_part(s).len()) as nat,
    )
}

/// What reading `s` as an amount gives.
pub open spec fn parsed_amount(s: Seq<char>) -> Result<u128, AmountError> {
    if !is_amount_text(s) {
        Err(AmountError::Malformed)
    } else if amount_value(s) > u128::MAX {
        Err(AmountError::Overflow)
    } else {
        Ok(amount_value(s) as u128)
    }
}

/// The decimal digits of `n`, with no leading zero.
pub open spec fn nat_digits(n: nat) -> Seq<char>
    decreases n,
{
    if n < 10 {
        seq![digit_char(n)]
    } else {
        nat_digits(n / 10).push(digit_char(n % 10))
    }
}

/// The four digits of `f < 10000`, leading zeros kept.
pub open spec fn four_digits(f: nat) -> Seq<char> {
    seq![digit_char(f / 1000), digit_char(f / 100 % 10), digit_char(f / 10 % 10), digit_char(f % 10)]
}

/// How an amount in ten-thousandths is written: `<integer>.<four digits>`.
pub open spec fn amount_text(a: nat) -> Seq<char> {
    nat_digits(a / 10000) + seq!['.'] + four_digits(a % 10000)
}

/// The characters of a sequence of decimal digits.
pub open spec fn digit_chars(ds: Seq<u8>) -> Seq<char> {
    ds.map_values(|d: u8| digit_char(d as nat))
}

/// The one-character text of the digit `d`.
fn digit_text(d: u128) -> (r: &'static str)
    requires
        d < 10,
    ensures
        r@ == seq![digit_char(d as nat)],
{
    match d {
        0 => {
            proof {
                reveal_strlit("0");
            }
            "0"
        },
        1 => {
            proof {
                reveal_strlit("1");
            }
            "1"
        },
        2 => {
            proof {
                reveal_strlit("2");
            }
            "2"
        },
        3 => {
            proof {
                reveal_strlit("3");
            }
            "3"
        },
        4 => {
            proof {
                reveal_strlit("4");
            }
            "4"
        },
        5 => {
            proof {
                reveal_strlit("5");
            }
            "5"
        },
        6 => {
            proof {
                reveal_strlit("6");
            }
            "6"
        },
        7 => {
            proof {
                reveal_strlit("7");
            }
            "7"
        },
        8 => {
            proof {
                reveal_strlit("8");
            }
            "8"
        },
        _ => {
            proof {
                reveal_strlit("9");
            }
            "9"
        },
    }
}

/// Writes an amount in ten-thousandths as `<integer>.<four digits>`.
pub fn amount_to_string(amount: u128) -> (r: String)
    ensures
        r@ == amount_text(amount as nat),
{
    let whole = amount / 10000;
    let frac = amount % 10000;
    // the digits of `whole` below the leading one, least significant first
    let mut low: Vec<u8> = Vec::new();
    let mut m = whole;
    while m >= 10
        invariant
            nat_digits(whole as nat) == nat_digits(m as nat) + digit_chars(low@).reverse(),
            forall|k: int| 0 <= k < low.len() ==> #[trigger] low@[k] < 10,
        decreases m,
    {
        let ghost before = low@;
        low.push((m % 10) as u8);
        assert(digit_chars(low@).reverse() =~= seq![digit_char((m % 10) as nat)] + digit_chars(
            before,
        ).reverse());
        assert(nat_digits(m as nat) == nat_digits((m / 10) as nat).push(digit_char((m % 10) as nat)));
        assert(nat_digits(m as nat) + digit_chars(before).reverse() =~= nat_digits((m / 10) as nat)
            + digit_chars(low@).reverse());
        m = m / 10;
    }
    let mut r = String::new();
    r.append(digit_text(m));
    assert(nat_digits(m as nat) == seq![digit_char(m as nat)]);
    let mut j: usize = low.len();
    while j > 0
        invariant
            j <= low.len(),
            forall|k: int| 0 <= k < low.len() ==> #[trigger] low@[k] < 10,
            r@ == nat_digits(m as nat) + digit_chars(low@.skip(j as int)).reverse(),
        decreases j,
    {
        j = j - 1;
        let ghost before = r@;
        r.append(digit_text(low[j] as u128));
        assert(low@.skip(j as int) =~= seq![low@[j as int]] + low@.skip(j + 1));
        assert(digit_chars(low@.skip(j as int)).reverse() =~= digit_chars(low@.skip(j + 1)).reverse()
            + seq![digit_char(low@[j as int] as nat)]);
    }
    assert(low@.skip(0) =~= low@);
    proof {
        reveal_strlit(".");
    }
    r.append(".");
    r.append(digit_text(frac / 1000));
    r.append(digit_text(frac / 100 % 10));
    r.append(digit_text(frac / 10 % 10));
    r.append(digit_text(frac % 10));
    assert(r@ =~= amount_text(amount as nat));
    r
}

fn digit_of(c: char) -> (r: Option<u128>)
    ensures
        r is Some <==> is_digit(c),
        r is Some ==> r->0 == digit_value(c),
{
    match c {
        '0' => Some(0),
        '1' => Some(1),
        '2' => Some(2),
        '3' => Some(3),
        '4' => Some(4),
        '5' => Some(5),
        '6' => Some(6),
        '7' => Some(7),
        '8' => Some(8),
        '9' => Some(9),
        _ => None,
    }
}

proof fn lemma_range_step(s: Seq<char>, lo: int, hi: int)
    requires
        0 <= lo <= hi < s.len(),
    ensures
        s.subrange(lo, hi + 1).drop_last() == s.subrange(lo, hi),
        s.subrange(lo, hi + 1).last() == s[hi],
{
    assert(s.subrange(lo, hi + 1).drop_last() =~= s.subrange(lo, hi));
}

proof fn lemma_prefix_value_le(s: Seq<char>, i: int)
    requires
        0 <= i <= s.len(),
    ensures
        digits_value(s.take(i)) <= digits_value(s),
    decreases s.len(),
{
    if i < s.len() {
        lemma_prefix_value_le(s.drop_last(), i);
        assert(s.drop_last().take(i) =~= s.take(i));
    } else {
        assert(s.take(i) =~= s);
    }
}

proof fn lemma_value_below_pow(s: Seq<char>)
    ensures
        digits_value(s) < pow10(s.len()),
    decreases s.len(),
{
    if s.len() > 0 {
        let rest = s.drop_last();
        lemma_value_below_pow(rest);
        let v = digits_value(rest);
        let p = pow10(rest.len());
        let d = digit_value(s.last());
        assert(v * 10 + d < 10 * p) by (nonlinear_arith)
            requires
                v < p,
                d < 10,
        ;
    }
}

/// Reads `<digits>.<at most four digits>` as an amount in ten-thousandths,
/// the fraction padded on the right with zeros (`"1.2"` is 12000).
pub fn str_to_amount(amount_str: &str) -> (r: Result<u128, AmountError>)
    ensures
        r == parsed_amount(amount_str@),
{
    let ghost s = amount_str@;
    let n = amount_str.unicode_len();
    let mut found: Option<usize> = None;
    let mut i: usize = 0;
    while i < n
        invariant
            i <= n,
            n == s.len(),
            s == amount_str@,
            match found {
                Some(p) => p < i && dot_pos(s.take(i as int)) == p,
                None => dot_pos(s.take(i as int)) == -1,
            },
        decreases n - i,
    {
        proof {
            lemma_range_step(s, 0, i as int);
            assert(s.take(i + 1) == s.subrange(0, i + 1));
            assert(s.take(i as int) == s.subrange(0, i as int));
        }
        if amount_str.get_char(i) == '.' {
            found = Some(i);
        }
        i += 1;
    }
    assert(s.take(n as int) =~= s);
    let p = match found {
        Some(p) => p,
        None => {
            return Err(AmountError::Malformed);
        },
    };
    if p == 0 || n - p - 1 > 4 {
        return Err(AmountError::Malformed);
    }
    assert(fraction_part(s) =~= s.subrange(p + 1, n as int));
    assert(whole_part(s) =~= s.take(p as int));
    let mut k: usize = 0;
    while k < n
        invariant
            k <= n,
            n == s.len(),
            s == amount_str@,
            p < n,
            n - p - 1 <= 4,
            dot_pos(s) == p,
            whole_part(s) == s.take(p as int),
            fraction_part(s) == s.subrange(p + 1, n as int),
            forall|q: int| 0 <= q < k && q != p ==> is_digit(#[trigger] s[q]),
        decreases n - k,
    {
        if k != p {
            let c = amount_str.get_char(k);
            if digit_of(c).is_none() {
                if k < p {
                    assert(whole_part(s)[k as int] == s[k as int]);
                } else {
                    assert(fraction_part(s)[k - p - 1] == s[k as int]);
                }
                return Err(AmountError::Malformed);
            }
        }
        k += 1;
    }
    assert forall|q: int| 0 <= q < whole_part(s).len() implies is_digit(
        #[trigger] whole_part(s)[q],
    ) by {
        assert(whole_part(s)[q] == s[q]);
    }
    assert forall|q: int| 0 <= q < fraction_part(s).len() implies is_digit(
        #[trigger] fraction_part(s)[q],
    ) by {
        assert(fraction_part(s)[q] == s[q + p + 1]);
    }
    assert(is_amount_text(s));
    let mut w: u128 = 0;
    k = 0;
    while k < p
        invariant
            k <= p,
            p < n,
            n == s.len(),
            s == amount_str@,
            is_amount_text(s),
            forall|q: int| 0 <= q < n && q != p ==> is_digit(#[trigger] s[q]),
            whole_part(s) == s.take(p as int),
            w == digits_value(s.take(k as int)),
            amount_value(s) >= digits_value(whole_part(s)) * 10000,
        decreases p - k,
    {
        let d = match digit_of(amount_str.get_char(k)) {
            Some(d) => d,
            None => 0,
        };
        proof {
            lemma_range_step(s, 0, k as int);
            assert(s.take(k + 1) == s.subrange(0, k + 1));
            assert(s.take(k as int) == s.subrange(0, k as int));
            assert(whole_part(s).take(k + 1) =~= s.take(k + 1));
            lemma_prefix_value_le(whole_part(s), k + 1);
            assert(is_digit(s[k as int]));
            assert(digits_value(s.take(k + 1)) == w * 10 + d);
        }
        let tens = match w.checked_mul(10) {
            Some(t) => t,
            None => {
                return Err(AmountError::Overflow);
            },
        };
        w = match tens.checked_add(d) {
            Some(v) => v,
            None => {
                return Err(AmountError::Overflow);
            },
        };
        k += 1;
    }
    assert(w == digits_value(whole_part(s)));
    let whole_scaled = match w.checked_mul(10000) {
        Some(v) => v,
        None => {
            return Err(AmountError::Overflow);
        },
    };
    let mut f: u128 = 0;
    k = p + 1;
    proof {
        reveal_with_fuel(pow10, 5);
    }
    while k < n
        invariant
            p < k <= n,
            n - p - 1 <= 4,
            n == s.len(),
            s == amount_str@,
            forall|q: int| 0 <= q < n && q != p ==> is_digit(#[trigger] s[q]),
            is_amount_text(s),
            fraction_part(s) == s.subrange(p + 1, n as int),
            whole_scaled == digits_value(whole_part(s)) * 10000,
            f == digits_value(s.subrange(p + 1, k as int)),
            f < pow10((k - p - 1) as nat),
            pow10((k - p - 1) as nat) <= 1000 || k == n,
        decreases n - k,
    {
        let d = match digit_of(amount_str.get_char(k)) {
            Some(d) => d,
            None => 0,
        };
        proof {
            lemma_range_step(s, p + 1, k as int);
            reveal_with_fuel(pow10, 5);
        }
        assert(f * 10 + d < 10 * pow10((k - p - 1) as nat)) by (nonlinear_arith)
            requires
                f < pow10((k - p - 1) as nat),
                d < 10,
        ;
        f = f * 10 + d;
        k += 1;
    }
    assert(s.subrange(p + 1, n as int) =~= fraction_part(s));
    proof {
        reveal_with_fuel(pow10, 5);
    }
    let ghost scale = pow10((4 - fraction_part(s).len()) as nat);
    proof {
        reveal_with_fuel(pow10, 5);
        assert(f == digits_value(fraction_part(s)));
        assert(fraction_part(s).len() == n - p - 1);
    }
    let digits = n - p - 1;
    let padded = if digits == 0 {
        assert(scale == 10000);
        f * 10000
    } else if digits == 1 {
        assert(scale == 1000);
        f * 1000
    } else if digits == 2 {
        assert(scale == 100);
        f * 100
    } else if digits == 3 {
        assert(scale == 10);
        f * 10
    } else {
        assert(scale == 1);
        f
    };
    assert(padded == digits_value(fraction_part(s)) * pow10((4 - fraction_part(s).len()) as nat));
    match whole_scaled.checked_add(padded) {
        Some(v) => Ok(v),
        None => Err(AmountError::Overflow),
    }
}

impl Record {
    /// The text of the amount field, if there is one.
    pub open spec fn amount_view(&self) -> Option<Seq<char>> {
        match self.amount {
            Some(a) => Some(a@),
            None => None,
        }
    }
}

/// What the amount field of a deposit or a withdrawal gives.
pub open spec fn amount_result(amount: Option<Seq<char>>) -> Result<u128, RecordError> {
    match amount {
        None => Err(RecordError::MissingAmount),
        Some(s) => match parsed_amount(s) {
            Ok(v) => Ok(v),
            Err(e) => Err(RecordError::BadAmount(e)),
        },
    }
}

/// The transaction that a row with these fields stands for.
pub open spec fn record_transaction(
    kind: Seq<char>,
    client: u16,
    tx: u32,
    amount: Option<Seq<char>>,
) -> Result<Transaction, RecordError> {
    if kind == "deposit"@ {
        match amount_result(amount) {
            Ok(amount) => Ok(Transaction::Deposit { client, tx, amount }),
            Err(e) => Err(e),
        }
    } else if kind == "withdrawal"@ {
        match amount_result(amount) {
            Ok(amount) => Ok(Transaction::Withdrawal { client, tx, amount }),
            Err(e) => Err(e),
        }
    } else if kind == "dispute"@ {
        Ok(Transaction::Dispute { client, tx })
    } else if kind == "resolve"@ {
        Ok(Transaction::Resolve { client, tx })
    } else if kind == "chargeback"@ {
        Ok(Transaction::Chargeback { client, tx })
    } else {
        Err(RecordError::UnsupportedType)
    }
}

/// The form in which amounts are written: no leading zero before the dot
/// (but for a lone `0`) and exactly four digits after it.
pub open spec fn is_canonical_amount_text(s: Seq<char>) -> bool {
    &&& is_amount_text(s)
    &&& fraction_part(s).len() == 4
    &&& (whole_part(s).len() == 1 || whole_part(s)[0] != '0')
}

proof fn lemma_dot_pos_is_dot(s: Seq<char>)
    ensures
        -1 <= dot_pos(s) < s.len(),
        dot_pos(s) >= 0 ==> s[dot_pos(s)] == '.',
    decreases s.len(),
{
    if s.len() > 0 && s.last() != '.' {
        lemma_dot_pos_is_dot(s.drop_last());
    }
}

proof fn lemma_digits_of_value(w: Seq<char>)
    requires
        all_digits(w),
        w.len() >= 1,
        w.len() == 1 || w[0] != '0',
    ensures
        nat_digits(digits_value(w)) == w,
    decreases w.len(),
{
    let rest = w.drop_last();
    let d = digit_value(w.last());
    assert(is_digit(w[w.len() - 1]));
    if w.len() == 1 {
        assert(rest =~= Seq::<char>::empty());
        assert(digits_value(rest) == 0);
        assert(digits_value(w) == d);
        assert(digit_char(d) == w[0]);
        assert(nat_digits(digits_value(w)) =~= w);
    } else {
        assert forall|i: int| 0 <= i < rest.len() implies is_digit(#[trigger] rest[i]) by {
            assert(rest[i] == w[i]);
        }
        lemma_digits_of_value(rest);
        let v = digits_value(rest);
        assert(is_digit(w[0]));
        assert(rest.take(1).drop_last() =~= Seq::<char>::empty());
        assert(digits_value(rest.take(1).drop_last()) == 0);
        assert(rest.take(1).last() == rest[0]);
        assert(digits_value(rest.take(1)) == digit_value(rest[0]));
        lemma_prefix_value_le(rest, 1);
        assert(v >= 1);
        assert((v * 10 + d) / 10 == v && (v * 10 + d) % 10 == d) by (nonlinear_arith)
            requires
                d < 10,
        ;
        assert(nat_digits(v * 10 + d) == nat_digits(v).push(digit_char(d)));
        assert(w =~= rest.push(w.last()));
    }
}

proof fn lemma_four_digits_of_value(q: Seq<char>)
    requires
        all_digits(q),
        q.len() == 4,
    ensures
        four_digits(digits_value(q)) == q,
        digits_value(q) < 10000,
{
    let d0 = digit_value(q[0]);
    let d1 = digit_value(q[1]);
    let d2 = digit_value(q[2]);
    let d3 = digit_value(q[3]);
    assert(is_digit(q[0]) && is_digit(q[1]) && is_digit(q[2]) && is_digit(q[3]));
    let q3 = q.drop_last();
    let q2 = q3.drop_last();
    let q1 = q2.drop_last();
    let q0 = q1.drop_last();
    assert(q0 =~= Seq::<char>::empty());
    assert(q1.last() == q[0] && q2.last() == q[1] && q3.last() == q[2]);
    let f = digits_value(q);
    assert(digits_value(q0) == 0);
    assert(digits_value(q1) == d0);
    assert(digits_value(q2) == d0 * 10 + d1);
    assert(digits_value(q3) == (d0 * 10 + d1) * 10 + d2);
    assert(f == ((d0 * 10 + d1) * 10 + d2) * 10 + d3);
    assert(f / 1000 == d0 && f / 100 % 10 == d1 && f / 10 % 10 == d2 && f % 10 == d3 && f < 10000)
        by (nonlinear_arith)
        requires
            f == ((d0 * 10 + d1) * 10 + d2) * 10 + d3,
            d0 < 10,
            d1 < 10,
            d2 < 10,
            d3 < 10,
    ;
    assert(four_digits(f) =~= q);
}

/// Reading an amount written in its canonical form and writing it again
/// gives back the same text.
pub proof fn lemma_amount_round_trip(s: Seq<char>)
    requires
        is_canonical_amount_text(s),
        amount_value(s) <= u128::MAX,
    ensures
        parsed_amount(s) == Ok::<u128, AmountError>(amount_value(s) as u128),
        amount_text(amount_value(s)) == s,
{
    let p = dot_pos(s);
    lemma_dot_pos_is_dot(s);
    let w = whole_part(s);
    let q = fraction_part(s);
    lemma_digits_of_value(w);
    lemma_four_digits_of_value(q);
    let wv = digits_value(w);
    let fv = digits_value(q);
    assert(pow10(0) == 1);
    assert((4 - q.len()) as nat == 0);
    let one = pow10(0);
    assert(fv * one == fv) by (nonlinear_arith)
        requires
            one == 1,
    ;
    let v = amount_value(s);
    assert(v == wv * 10000 + fv);
    assert(v / 10000 == wv && v % 10000 == fv) by (nonlinear_arith)
        requires
            v == wv * 10000 + fv,
            fv < 10000,
    ;
    assert(s =~= w + seq!['.'] + q);
}

/// Whether `s` and `word` are the same text.
fn text_is(s: &str, word: &str) -> (r: bool)
    ensures
        r == (s@ == word@),
{
    let n = s.unicode_len();
    let m = word.unicode_len();
    if n != m {
        return false;
    }
    let mut i: usize = 0;
    while i < n
        invariant
            i <= n,
            n == s@.len(),
            n == word@.len(),
            forall|q: int| 0 <= q < i ==> s@[q] == word@[q],
        decreases n - i,
    {
        if s.get_char(i) != word.get_char(i) {
            return false;
        }
        i += 1;
    }
    assert(s@ =~= word@);
    true
}

/// The amount of a deposit or a withdrawal row.
pub fn get_amount(record: &Record) -> (r: Result<u128, RecordError>)
    ensures
        r == amount_result(record.amount_view()),
{
    match &record.amount {
        None => Err(RecordError::MissingAmount),
        Some(a) => match str_to_amount(a.as_str()) {
            Ok(v) => Ok(v),
            Err(e) => Err(RecordError::BadAmount(e)),
        },
    }
}

/// Turns a row into a transaction. The type is matched exactly, in lower
/// case; a deposit or a withdrawal needs a readable amount, and the amount of
/// any other row is not read.
pub fn record_to_txn_enum(record: &Record) -> (r: Result<Transaction, RecordError>)
    ensures
        r == record_transaction(record.kind@, record.client, record.tx, record.amount_view()),
{
    let kind = record.kind.as_str();
    if text_is(kind, "deposit") {
        let amount = get_amount(record)?;
        Ok(Transaction::Deposit { client: record.client, tx: record.tx, amount })
    } else if text_is(kind, "withdrawal") {
        let amount = get_amount(record)?;
        Ok(Transaction::Withdrawal { client: record.client, tx: record.tx, amount })
    } else if text_is(kind, "dispute") {
        Ok(Transaction::Dispute { client: record.client, tx: record.tx })
    } else if text_is(kind, "resolve") {
        Ok(Transaction::Resolve { client: record.client, tx: record.tx })
    } else if text_is(kind, "chargeback") {
        Ok(Transaction::Chargeback { client: record.client, tx: record.tx })
    } else {
        Err(RecordError::UnsupportedType)
    }
}

} // verus!
