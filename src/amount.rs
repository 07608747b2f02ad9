//! Non-negative arbitrary-precision decimal amounts.
//!
//! An [`Amount`] holds its decimal digits least significant first, with no
//! zero digit at the top; zero is the empty digit sequence.
use vstd::prelude::*;
use vstd::string::StrSliceExecFns;
use vstd::string::StringExecFns;

verus! {

/// Ten to the power `n`.
pub open spec fn pow10(n: nat) -> nat
    decreases n,
{
    if n == 0 {
        1
    } else {
        10 * pow10((n - 1) as nat)
    }
}

/// The digit at position `i`, reading positions past the end as zero.
pub open spec fn digit_at(d: Seq<u8>, i: int) -> nat {
    if 0 <= i < d.len() {
        d[i] as nat
    } else {
        0
    }
}

/// The value of the lowest `i` little-endian digits of `d`.
pub open spec fn low_value(d: Seq<u8>, i: nat) -> nat
    decreases i,
{
    if i == 0 {
        0
    } else {
        low_value(d, (i - 1) as nat) + digit_at(d, i - 1) * pow10((i - 1) as nat)
    }
}

/// The number that a little-endian digit sequence stands for.
pub open spec fn digits_value(d: Seq<u8>) -> nat {
    low_value(d, d.len())
}

/// Every digit is below ten.
pub open spec fn all_digits(d: Seq<u8>) -> bool {
    forall|i: int| 0 <= i < d.len() ==> d[i] < 10
}

/// Digits below ten and no zero at the most significant end.
pub open spec fn digits_canonical(d: Seq<u8>) -> bool {
    all_digits(d) && (d.len() == 0 || d.last() != 0)
}

/// The value of a decimal digit character; ten for any other character.
pub open spec fn char_digit(c: char) -> nat {
    if c == '0' {
        0
    } else if c == '1' {
        1
    } else if c == '2' {
        2
    } else if c == '3' {
        3
    } else if c == '4' {
        4
    } else if c == '5' {
        5
    } else if c == '6' {
        6
    } else if c == '7' {
        7
    } else if c == '8' {
        8
    } else if c == '9' {
        9
    } else {
        10
    }
}

/// The character that writes the digit `d`.
pub open spec fn digit_char(d: nat) -> char {
    if d == 0 {
        '0'
    } else if d == 1 {
        '1'
    } else if d == 2 {
        '2'
    } else if d == 3 {
        '3'
    } else if d == 4 {
        '4'
    } else if d == 5 {
        '5'
    } else if d == 6 {
        '6'
    } else if d == 7 {
        '7'
    } else if d == 8 {
        '8'
    } else {
        '9'
    }
}

pub open spec fn is_digit_char(c: char) -> bool {
    char_digit(c) < 10
}

/// A well-formed decimal text: one or more ASCII digits.
pub open spec fn is_decimal_text(s: Seq<char>) -> bool {
    s.len() > 0 && forall|i: int| 0 <= i < s.len() ==> is_digit_char(s[i])
}

/// The number written by a decimal text, most significant digit first.
pub open spec fn text_value(s: Seq<char>) -> nat
    decreases s.len(),
{
    if s.len() == 0 {
        0
    } else {
        char_digit(s[0]) * pow10((s.len() - 1) as nat) + text_value(s.drop_first())
    }
}

/// The canonical text of a number: decimal, with no leading zero except in "0".
pub open spec fn is_canonical_text(s: Seq<char>) -> bool {
    is_decimal_text(s) && (s.len() == 1 || s[0] != '0')
}

/// The canonical decimal text of `n`: its digits, most significant first,
/// with no leading zero except in "0".
pub open spec fn canonical_text(n: nat) -> Seq<char>
    decreases n,
{
    if n < 10 {
        seq![digit_char(n)]
    } else {
        canonical_text(n / 10).push(digit_char(n % 10))
    }
}

/// `subtract_clamped` on values.
pub open spec fn clamped_difference(a: nat, b: nat) -> nat {
    if a >= b {
        (a - b) as nat
    } else {
        0
    }
}

/// Digits and their characters correspond one to one.
pub proof fn lemma_digit_char(d: nat)
    requires
        d < 10,
    ensures
        char_digit(digit_char(d)) == d,
        (digit_char(d) == '0') == (d == 0),
{
    if d == 0 {
    } else if d == 1 {
    } else if d == 2 {
    } else if d == 3 {
    } else if d == 4 {
    } else if d == 5 {
    } else if d == 6 {
    } else if d == 7 {
    } else if d == 8 {
    } else {
    }
}

/// The canonical text of `n` is a canonical text, and it stands for `n`.
pub proof fn lemma_canonical_text(n: nat)
    ensures
        is_canonical_text(canonical_text(n)),
        text_value(canonical_text(n)) == n,
        n >= 1 ==> canonical_text(n)[0] != '0',
    decreases n,
{
    let t = canonical_text(n);
    if n < 10 {
        lemma_digit_char(n);
        assert(t.drop_first() =~= Seq::<char>::empty());
        assert(pow10(0) == 1);
        assert(text_value(t.drop_first()) == 0);
        assert(t[0] == digit_char(n));
        assert(text_value(t) == char_digit(t[0]) * pow10(0) + text_value(t.drop_first()));
    } else {
        let u = canonical_text(n / 10);
        lemma_canonical_text(n / 10);
        lemma_text_value_push(u, digit_char(n % 10));
        lemma_digit_char(n % 10);
        assert(t[0] == u[0]);
        assert forall|i: int| 0 <= i < t.len() implies is_digit_char(t[i]) by {
            if i < u.len() {
                assert(t[i] == u[i]);
            }
        }
    }
}

/// A text that starts with a digit other than zero stands for at least one.
proof fn lemma_text_value_positive(t: Seq<char>)
    requires
        is_decimal_text(t),
        t[0] != '0',
    ensures
        text_value(t) >= 1,
{
    let p = pow10((t.len() - 1) as nat);
    lemma_pow10_positive((t.len() - 1) as nat);
    let x = char_digit(t[0]);
    assert(x >= 1);
    assert(x * p >= 1) by (nonlinear_arith)
        requires
            x >= 1,
            p >= 1,
    ;
}

/// A number has one canonical text.
pub proof fn lemma_canonical_text_unique(t: Seq<char>)
    requires
        is_canonical_text(t),
    ensures
        t == canonical_text(text_value(t)),
    decreases t.len(),
{
    if t.len() == 1 {
        assert(t.drop_first() =~= Seq::<char>::empty());
        assert(pow10(0) == 1);
        assert(text_value(t.drop_first()) == 0);
        assert(text_value(t) == char_digit(t[0]) * pow10(0) + text_value(t.drop_first()));
        assert(text_value(t) == char_digit(t[0]));
        let c = t[0];
        assert(digit_char(char_digit(c)) == c) by {
            if c == '0' {
            } else if c == '1' {
            } else if c == '2' {
            } else if c == '3' {
            } else if c == '4' {
            } else if c == '5' {
            } else if c == '6' {
            } else if c == '7' {
            } else if c == '8' {
            } else {
            }
        }
        assert(t =~= seq![digit_char(char_digit(t[0]))]);
    } else {
        let u = t.drop_last();
        let c = t.last();
        assert(u.push(c) =~= t);
        assert(u[0] == t[0]);
        assert(is_canonical_text(u));
        lemma_canonical_text_unique(u);
        lemma_text_value_push(u, c);
        lemma_text_value_positive(u);
        let n = text_value(t);
        assert(n / 10 == text_value(u));
        assert(n % 10 == char_digit(c));
    }
}

pub proof fn lemma_pow10_positive(n: nat)
    ensures
        pow10(n) >= 1,
    decreases n,
{
    if n > 0 {
        lemma_pow10_positive((n - 1) as nat);
    }
}

/// Two digit sequences that agree below `i` have the same low value at `i`.
pub proof fn lemma_low_value_agree(a: Seq<u8>, b: Seq<u8>, i: nat)
    requires
        forall|j: int| 0 <= j < i ==> digit_at(a, j) == digit_at(b, j),
    ensures
        low_value(a, i) == low_value(b, i),
    decreases i,
{
    if i > 0 {
        lemma_low_value_agree(a, b, (i - 1) as nat);
    }
}

/// Positions past the end add nothing.
pub proof fn lemma_low_value_pad(d: Seq<u8>, i: nat)
    requires
        i >= d.len(),
    ensures
        low_value(d, i) == digits_value(d),
    decreases i,
{
    if i > d.len() {
        lemma_low_value_pad(d, (i - 1) as nat);
        assert(digit_at(d, i - 1) == 0);
        assert(0 * pow10((i - 1) as nat) == 0);
    }
}

/// `i` digits below ten stand for less than ten to the `i`.
pub proof fn lemma_low_value_bound(d: Seq<u8>, i: nat)
    requires
        all_digits(d),
    ensures
        low_value(d, i) < pow10(i),
    decreases i,
{
    if i > 0 {
        let k = (i - 1) as nat;
        lemma_low_value_bound(d, k);
        let x = digit_at(d, k - 0);
        let p = pow10(k);
        assert(x <= 9);
        assert(x * p <= 9 * p) by (nonlinear_arith)
            requires
                x <= 9,
        ;
    }
}

/// A canonical digit sequence stands for zero exactly when it is empty.
pub proof fn lemma_canonical_zero(d: Seq<u8>)
    requires
        digits_canonical(d),
    ensures
        (digits_value(d) == 0) == (d.len() == 0),
{
    if d.len() > 0 {
        let k = (d.len() - 1) as nat;
        lemma_pow10_positive(k);
        let x = digit_at(d, k as int);
        let p = pow10(k);
        assert(x >= 1);
        assert(x * p >= p) by (nonlinear_arith)
            requires
                x >= 1,
        ;
    }
}

/// Appending a digit character multiplies the value by ten and adds the digit.
pub proof fn lemma_text_value_push(s: Seq<char>, c: char)
    ensures
        text_value(s.push(c)) == 10 * text_value(s) + char_digit(c),
    decreases s.len(),
{
    let t = s.push(c);
    if s.len() == 0 {
        assert(t.drop_first() =~= Seq::<char>::empty());
        assert(pow10(0) == 1);
        assert(t[0] == c);
        assert(text_value(t.drop_first()) == 0);
        assert(text_value(t) == char_digit(c) * 1 + 0);
    } else {
        assert(pow10(s.len()) == 10 * pow10((s.len() - 1) as nat));
        assert(t.drop_first() =~= s.drop_first().push(c));
        lemma_text_value_push(s.drop_first(), c);
        let x = char_digit(s[0]);
        let p = pow10((s.len() - 1) as nat);
        assert(t[0] == s[0]);
        assert(text_value(t) == x * pow10(s.len()) + text_value(t.drop_first()));
        assert(text_value(s) == x * p + text_value(s.drop_first()));
        assert(x * (10 * p) == 10 * (x * p)) by (nonlinear_arith);
    }
}

/// Digit text written by `digit_str`, one character per digit.
fn digit_str(d: u8) -> (r: &'static str)
    requires
        d < 10,
    ensures
        r@ == seq![digit_char(d as nat)],
{
    if d == 0 {
        proof { reveal_strlit("0"); }
        "0"
    } else if d == 1 {
        proof { reveal_strlit("1"); }
        "1"
    } else if d == 2 {
        proof { reveal_strlit("2"); }
        "2"
    } else if d == 3 {
        proof { reveal_strlit("3"); }
        "3"
    } else if d == 4 {
        proof { reveal_strlit("4"); }
        "4"
    } else if d == 5 {
        proof { reveal_strlit("5"); }
        "5"
    } else if d == 6 {
        proof { reveal_strlit("6"); }
        "6"
    } else if d == 7 {
        proof { reveal_strlit("7"); }
        "7"
    } else if d == 8 {
        proof { reveal_strlit("8"); }
        "8"
    } else {
        proof { reveal_strlit("9"); }
        "9"
    }
}

/// The value of a digit character, or `None` for any other character.
fn char_to_digit(c: char) -> (r: Option<u8>)
    ensures
        r is Some == is_digit_char(c),
        r matches Some(d) ==> d as nat == char_digit(c) && d < 10,
{
    match c {
        '0' => Some(0),
        '1' => Some(1),
        '2' => Some(2),
        '3' => Some(3),
        '4' => Some(4),
        '5' => Some(5),
        '6' => Some(6),
        '7' => Some(7),
        '8' => Some(8),
        '9' => Some(9),
        _ => None,
    }
}

/// Removes zero digits from the most significant end.
fn strip_high_zeros(d: &mut Vec<u8>)
    requires
        all_digits(old(d)@),
    ensures
        digits_canonical(final(d)@),
        digits_value(final(d)@) == digits_value(old(d)@),
{
    let mut top_zero = d.len() > 0 && d[d.len() - 1] == 0;
    while top_zero
        invariant
            all_digits(d@),
            digits_value(d@) == digits_value(old(d)@),
            top_zero == (d@.len() > 0 && d@.last() == 0),
        decreases d.len(),
    {
        let ghost before = d@;
        d.pop();
        proof {
            let k = d@.len();
            lemma_low_value_agree(before, d@, k);
            assert(before.len() == k + 1);
            assert(digit_at(before, k as int) == 0);
            assert(0 * pow10(k) == 0);
            assert(low_value(before, (k + 1) as nat) == low_value(before, k) + digit_at(before, k as int)
                * pow10(k));
        }
        top_zero = d.len() > 0 && d[d.len() - 1] == 0;
    }
}

/// Subtracts `b` from `a` digit by digit; the flag tells whether a borrow was left.
fn sub_digits(a: &Vec<u8>, b: &Vec<u8>) -> (r: (Vec<u8>, bool))
    requires
        all_digits(a@),
        all_digits(b@),
    ensures
        r.1 == (digits_value(a@) < digits_value(b@)),
        !r.1 ==> digits_canonical(r.0@) && digits_value(r.0@) + digits_value(b@) == digits_value(a@),
{
    let la = a.len();
    let lb = b.len();
    let n: usize = if la > lb { la } else { lb };
    let mut out: Vec<u8> = Vec::new();
    let mut borrow: u8 = 0;
    let mut i: usize = 0;
    while i < n
        invariant
            i <= n,
            la == a@.len(),
            lb == b@.len(),
            n >= la && n >= lb,
            all_digits(a@),
            all_digits(b@),
            out@.len() == i,
            all_digits(out@),
            borrow <= 1,
            low_value(out@, i as nat) + low_value(b@, i as nat) == low_value(a@, i as nat)
                + borrow * pow10(i as nat),
        decreases n - i,
    {
        let x: u8 = if i < la { a[i] } else { 0 };
        let y: u8 = if i < lb { b[i] } else { 0 };
        let dgt: u8;
        let nb: u8;
        if x >= y + borrow {
            dgt = x - y - borrow;
            nb = 0;
        } else {
            dgt = x + 10 - y - borrow;
            nb = 1;
        }
        let ghost before = out@;
        out.push(dgt);
        proof {
            lemma_low_value_agree(before, out@, i as nat);
            let p = pow10(i as nat);
            assert(digit_at(a@, i as int) == x);
            assert(digit_at(b@, i as int) == y);
            assert(digit_at(out@, i as int) == dgt);
            assert(dgt * p + y * p + borrow * p == x * p + nb * (10 * p)) by (nonlinear_arith)
                requires
                    dgt + y + borrow == x + 10 * nb,
            ;
        }
        borrow = nb;
        i = i + 1;
    }
    proof {
        lemma_low_value_pad(a@, n as nat);
        lemma_low_value_pad(b@, n as nat);
        lemma_low_value_bound(out@, n as nat);
        assert(digits_value(out@) == low_value(out@, n as nat));
    }
    if borrow == 1 {
        (out, true)
    } else {
        strip_high_zeros(&mut out);
        (out, false)
    }
}

/// A non-negative decimal quantity of unbounded size.
pub struct Amount {
    digits: Vec<u8>,
}

impl View for Amount {
    type V = nat;

    closed spec fn view(&self) -> nat {
        digits_value(self.digits@)
    }
}

impl Amount {
    #[verifier::type_invariant]
    spec fn inv(&self) -> bool {
        digits_canonical(self.digits@)
    }

    /// The zero amount.
    pub fn zero() -> (r: Amount)
        ensures
            r@ == 0,
    {
        Amount { digits: Vec::new() }
    }

    pub fn is_zero(&self) -> (r: bool)
        ensures
            r == (self@ == 0),
    {
        proof {
            use_type_invariant(self);
            lemma_canonical_zero(self.digits@);
        }
        self.digits.len() == 0
    }

    /// Reads a decimal text: one or more ASCII digits, leading zeros allowed.
    pub fn parse(s: &str) -> (r: Result<Amount, AmountError>)
        ensures
            r is Ok == is_decimal_text(s@),
            r matches Ok(a) ==> a@ == text_value(s@),
            r matches Err(e) ==> e == AmountError::InvalidAmount,
    {
        let n = s.unicode_len();
        if n == 0 {
            return Err(AmountError::InvalidAmount);
        }
        let mut out: Vec<u8> = Vec::new();
        let mut i: usize = n;
        while i > 0
            invariant
                i <= n,
                n == s@.len(),
                out@.len() == n - i,
                all_digits(out@),
                forall|j: int| i <= j < n ==> is_digit_char(#[trigger] s@[j]),
                low_value(out@, (n - i) as nat) == text_value(s@.subrange(i as int, n as int)),
            decreases i,
        {
            let c = s.get_char(i - 1);
            match char_to_digit(c) {
                None => {
                    return Err(AmountError::InvalidAmount);
                },
                Some(d) => {
                    let ghost before = out@;
                    out.push(d);
                    proof {
                        let k = (n - i) as nat;
                        lemma_low_value_agree(before, out@, k);
                        let t = s@.subrange(i - 1, n as int);
                        assert(t.drop_first() =~= s@.subrange(i as int, n as int));
                        assert(digit_at(out@, k as int) == d);
                    }
                    i = i - 1;
                },
            }
        }
        proof {
            assert(s@.subrange(0, n as int) =~= s@);
        }
        strip_high_zeros(&mut out);
        Ok(Amount { digits: out })
    }

    /// The canonical decimal text of the amount.
    pub fn to_text(&self) -> (r: String)
        ensures
            r@ == canonical_text(self@),
    {
        proof {
            use_type_invariant(self);
        }
        let len = self.digits.len();
        if len == 0 {
            let r = String::from_str("0");
            proof {
                reveal_strlit("0");
                assert(r@ =~= canonical_text(0));
            }
            return r;
        }
        let mut r = String::new();
        let mut i: usize = len;
        while i > 0
            invariant
                i <= len,
                len == self.digits@.len(),
                len > 0,
                digits_canonical(self.digits@),
                r@.len() == len - i,
                forall|j: int| 0 <= j < r@.len() ==> is_digit_char(#[trigger] r@[j]),
                r@.len() > 0 ==> r@[0] != '0',
                text_value(r@) * pow10(i as nat) + low_value(self.digits@, i as nat)
                    == digits_value(self.digits@),
            decreases i,
        {
            let d = self.digits[i - 1];
            let ghost before = r@;
            r.append(digit_str(d));
            proof {
                let c = digit_char(d as nat);
                assert(r@ =~= before.push(c));
                lemma_text_value_push(before, c);
                let p = pow10((i - 1) as nat);
                let tv = text_value(before);
                assert(tv * (10 * p) == (10 * tv) * p) by (nonlinear_arith);
                assert((10 * tv + d) * p == (10 * tv) * p + d * p) by (nonlinear_arith);
            }
            i = i - 1;
        }
        assert(pow10(0) == 1);
        assert(low_value(self.digits@, 0) == 0);
        assert(text_value(r@) * 1 == text_value(r@));
        proof {
            lemma_canonical_text_unique(r@);
        }
        r
    }

    /// The exact sum.
    pub fn add(&self, other: &Amount) -> (r: Amount)
        ensures
            r@ == self@ + other@,
    {
        proof {
            use_type_invariant(self);
            use_type_invariant(other);
        }
        let a = &self.digits;
        let b = &other.digits;
        let la = a.len();
        let lb = b.len();
        let n: usize = if la > lb { la } else { lb };
        let mut out: Vec<u8> = Vec::new();
        let mut carry: u8 = 0;
        let mut i: usize = 0;
        while i < n
            invariant
                i <= n,
                la == a@.len(),
                lb == b@.len(),
                n >= la && n >= lb,
                all_digits(a@),
                all_digits(b@),
                out@.len() == i,
                all_digits(out@),
                carry <= 1,
                low_value(out@, i as nat) + carry * pow10(i as nat) == low_value(a@, i as nat)
                    + low_value(b@, i as nat),
            decreases n - i,
        {
            let x: u8 = if i < la { a[i] } else { 0 };
            let y: u8 = if i < lb { b[i] } else { 0 };
            let s: u8 = x + y + carry;
            let dgt: u8 = s % 10;
            let nc: u8 = s / 10;
            let ghost before = out@;
            out.push(dgt);
            proof {
                lemma_low_value_agree(before, out@, i as nat);
                let p = pow10(i as nat);
                assert(digit_at(a@, i as int) == x);
                assert(digit_at(b@, i as int) == y);
                assert(digit_at(out@, i as int) == dgt);
                assert(dgt * p + nc * (10 * p) == x * p + y * p + carry * p) by (nonlinear_arith)
                    requires
                        dgt + 10 * nc == x + y + carry,
                ;
            }
            carry = nc;
            i = i + 1;
        }
        if carry > 0 {
            let ghost before = out@;
            out.push(carry);
            proof {
                lemma_low_value_agree(before, out@, n as nat);
                assert(digit_at(out@, n as int) == 1);
            }
        }
        proof {
            lemma_low_value_pad(a@, n as nat);
            lemma_low_value_pad(b@, n as nat);
        }
        strip_high_zeros(&mut out);
        Amount { digits: out }
    }

    /// `self - other`, or zero where `other` is the larger.
    pub fn subtract_clamped(&self, other: &Amount) -> (r: Amount)
        ensures
            r@ == clamped_difference(self@, other@),
    {
        proof {
            use_type_invariant(self);
            use_type_invariant(other);
        }
        let (d, borrow) = sub_digits(&self.digits, &other.digits);
        if borrow {
            Amount::zero()
        } else {
            Amount { digits: d }
        }
    }

    /// Orders two amounts by value.
    pub fn compare(&self, other: &Amount) -> (r: core::cmp::Ordering)
        ensures
            (r == core::cmp::Ordering::Less) == (self@ < other@),
            (r == core::cmp::Ordering::Equal) == (self@ == other@),
            (r == core::cmp::Ordering::Greater) == (self@ > other@),
    {
        proof {
            use_type_invariant(self);
            use_type_invariant(other);
        }
        let (d, borrow) = sub_digits(&self.digits, &other.digits);
        if borrow {
            core::cmp::Ordering::Less
        } else {
            proof {
                lemma_canonical_zero(d@);
            }
            if d.len() == 0 {
                core::cmp::Ordering::Equal
            } else {
                core::cmp::Ordering::Greater
            }
        }
    }
}

impl Clone for Amount {
    fn clone(&self) -> (r: Amount)
        ensures
            r@ == self@,
    {
        proof {
            use_type_invariant(self);
        }
        Amount { digits: self.digits.clone() }
    }
}

/// Why a text is not an amount.
#[derive(Clone, Copy, Debug, PartialEq, Eq, Structural)]
pub enum AmountError {
    /// The text is not one or more decimal digits.
    InvalidAmount,
}

} // verus!
