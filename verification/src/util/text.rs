//! Decimal and algebraic text.

use vstd::prelude::*;

verus! {

/// `String::push` appends one character to the end of the string.
pub assume_specification[ String::push ](s: &mut String, c: char)
    ensures
        final(s)@ == old(s)@.push(c),
;

/// The decimal digits of `n`, most significant first.
pub open spec fn decimal(n: nat) -> Seq<char>
    decreases n,
{
    if n < 10 {
        seq![digit_char(n)]
    } else {
        decimal(n / 10).push(digit_char(n % 10))
    }
}

/// The character of a digit.
pub open spec fn digit_char(d: nat) -> char {
    ('0' as u8 + d) as u8 as char
}

/// Appends the decimal digits of `n`.
pub fn push_decimal(s: &mut String, n: u64)
    ensures
        final(s)@ == old(s)@ + decimal(n as nat),
    decreases n,
{
    if n >= 10 {
        push_decimal(s, n / 10);
    }
    let d: u8 = 48u8 + (n % 10) as u8;
    s.push(d as char);
    assert(s@ =~= old(s)@ + decimal(n as nat));
}

/// The decimal text of an integer, with a minus sign where it is negative.
pub open spec fn integer(n: int) -> Seq<char> {
    if n < 0 {
        seq!['-'] + decimal((-n) as nat)
    } else {
        decimal(n as nat)
    }
}

/// Appends the decimal text of `n`.
pub fn push_integer(s: &mut String, n: i32)
    ensures
        final(s)@ == old(s)@ + integer(n as int),
{
    if n < 0 {
        s.push('-');
        push_decimal(s, (-(n as i64)) as u64);
        assert(s@ =~= old(s)@ + integer(n as int));
    } else {
        push_decimal(s, n as u64);
    }
}

/// Appends a text.
pub fn push_text(s: &mut String, t: &str)
    ensures
        final(s)@ == old(s)@ + t@,
{
    s.append(t);
}

/// Whether two texts are the same.
pub fn same_text(a: &str, b: &str) -> (r: bool)
    ensures
        r == (a@ == b@),
{
    let n: usize = a.unicode_len();
    if n != b.unicode_len() {
        return false;
    }
    let mut i: usize = 0;
    while i < n
        invariant
            i <= n,
            n == a@.len(),
            n == b@.len(),
            forall|j: int| 0 <= j < i ==> #[trigger] a@[j] == b@[j],
        decreases n - i,
    {
        if a.get_char(i) != b.get_char(i) {
            return false;
        }
        i += 1;
    }
    assert(a@ =~= b@);
    true
}

/// Whether `a` begins with `b`.
pub fn begins_with(a: &str, b: &str) -> (r: bool)
    ensures
        r == b@.is_prefix_of(a@),
{
    let n: usize = b.unicode_len();
    if a.unicode_len() < n {
        return false;
    }
    let mut i: usize = 0;
    while i < n
        invariant
            i <= n <= a@.len(),
            n == b@.len(),
            forall|j: int| 0 <= j < i ==> #[trigger] a@[j] == b@[j],
        decreases n - i,
    {
        if a.get_char(i) != b.get_char(i) {
            return false;
        }
        i += 1;
    }
    assert(a@.subrange(0, n as int) =~= b@);
    true
}

/// `a` holds `b` at `at`.
pub open spec fn holds_at(a: Seq<char>, b: Seq<char>, at: int) -> bool {
    0 <= at && at + b.len() <= a.len() && a.subrange(at, at + b.len()) == b
}

/// Whether `b` occurs in `a`.
pub fn contains_text(a: &str, b: &str) -> (r: bool)
    ensures
        r == exists|at: int| #[trigger] holds_at(a@, b@, at),
{
    let n: usize = a.unicode_len();
    let k: usize = b.unicode_len();
    if n < k {
        return false;
    }
    let mut at: usize = 0;
    while at <= n - k
        invariant
            k <= n,
            at <= n - k + 1,
            n == a@.len(),
            k == b@.len(),
            forall|x: int| 0 <= x < at ==> !(#[trigger] holds_at(a@, b@, x)),
        decreases n - k + 1 - at,
    {
        let mut i: usize = 0;
        while i < k && a.get_char(at + i) == b.get_char(i)
            invariant
                i <= k,
                at + k <= n,
                n == a@.len(),
                k == b@.len(),
                forall|j: int| 0 <= j < i ==> a@[at + j] == #[trigger] b@[j],
            decreases k - i,
        {
            i += 1;
        }
        if i == k {
            assert(a@.subrange(at as int, at + k) =~= b@);
            assert(holds_at(a@, b@, at as int));
            return true;
        }
        assert(!holds_at(a@, b@, at as int)) by {
            if holds_at(a@, b@, at as int) {
                assert(a@.subrange(at as int, at + k)[i as int] == b@[i as int]);
            }
        }
        at += 1;
    }
    false
}

/// A decimal digit.
pub open spec fn is_digit(c: char) -> bool {
    '0' <= c <= '9'
}

/// Digits and nothing else, at least one.
pub open spec fn is_digits(s: Seq<char>) -> bool {
    s.len() > 0 && forall|i: int| 0 <= i < s.len() ==> is_digit(#[trigger] s[i])
}

/// The number that digits stand for.
pub open spec fn value_of(s: Seq<char>) -> nat
    decreases s.len(),
{
    if s.len() == 0 {
        0
    } else {
        value_of(s.drop_last()) * 10 + (s.last() as nat - '0' as nat) as nat
    }
}

/// The number that a text stands for: digits, with or without a plus sign, and
/// not above `max`.
pub open spec fn number(s: Seq<char>, max: int) -> Option<int> {
    let d = if s.len() > 0 && s[0] == '+' {
        s.skip(1)
    } else {
        s
    };
    if is_digits(d) && value_of(d) <= max {
        Some(value_of(d) as int)
    } else {
        None
    }
}

proof fn lemma_value_grows(s: Seq<char>, k: int)
    requires
        0 <= k <= s.len(),
        is_digits(s),
    ensures
        value_of(s.subrange(0, k)) <= value_of(s),
    decreases s.len() - k,
{
    if k == s.len() {
        assert(s.subrange(0, k) =~= s);
    } else {
        lemma_value_grows(s, k + 1);
        assert(s.subrange(0, k + 1).drop_last() =~= s.subrange(0, k));
        assert(is_digit(s[k]));
    }
}

/// The number that a text stands for, up to `max`.
pub fn parse_number(t: &str, max: u64) -> (r: Option<u64>)
    ensures
        (match r {
            Some(x) => Some(x as int),
            None => None,
        }) == number(t@, max as int),
{
    let n: usize = t.unicode_len();
    let mut i: usize = 0;
    if n > 0 && t.get_char(0) == '+' {
        i = 1;
    }
    let ghost d = if i == 1 {
        t@.skip(1)
    } else {
        t@
    };
    let ghost off = i as int;
    assert(d.len() == n - off);
    assert forall|j: int| 0 <= j < d.len() implies #[trigger] d[j] == t@[j + off] by {}
    if i == n {
        return None;
    }
    let mut acc: u64 = 0;
    assert(d.subrange(0, 0) =~= Seq::<char>::empty());
    while i < n
        invariant
            off <= i <= n,
            0 <= off <= 1,
            n == t@.len(),
            d.len() == n - off,
            d.len() > 0,
            d == (if t@.len() > 0 && t@[0] == '+' {
                t@.skip(1)
            } else {
                t@
            }),
            forall|j: int| 0 <= j < d.len() ==> #[trigger] d[j] == t@[j + off],
            forall|j: int| 0 <= j < i - off ==> is_digit(#[trigger] d[j]),
            acc == value_of(d.subrange(0, i - off)),
            acc <= max,
        decreases n - i,
    {
        let c: char = t.get_char(i);
        assert(c == d[i - off]);
        if c < '0' || c > '9' {
            assert(!is_digit(d[i - off]));
            return None;
        }
        let x: u128 = acc as u128 * 10 + (c as u32 - 48) as u128;
        proof {
            let more = d.subrange(0, i - off + 1);
            assert(more.drop_last() =~= d.subrange(0, i - off));
            assert(more.last() == c);
            assert(x == value_of(more));
        }
        if x > max as u128 {
            proof {
                if is_digits(d) {
                    lemma_value_grows(d, i - off + 1);
                }
            }
            return None;
        }
        acc = x as u64;
        i += 1;
    }
    assert(d.subrange(0, n - off) =~= d);
    Some(acc)
}

/// The number that a text stands for, signed: digits, with or without a sign,
/// that fit into 32 bits.
pub open spec fn signed_number(s: Seq<char>) -> Option<int> {
    if s.len() > 0 && s[0] == '-' {
        let d = s.skip(1);
        if is_digits(d) && value_of(d) <= 0x8000_0000 {
            Some(-value_of(d))
        } else {
            None
        }
    } else {
        number(s, 0x7FFF_FFFF)
    }
}

/// The digits from an index on, as a text of their own.
fn tail_text(t: &str) -> (r: String)
    requires
        t@.len() > 0,
    ensures
        r@ == t@.skip(1),
{
    let n: usize = t.unicode_len();
    let mut r: String = String::new();
    let mut i: usize = 1;
    assert(r@ =~= t@.subrange(1, 1));
    while i < n
        invariant
            1 <= i <= n,
            n == t@.len(),
            r@ == t@.subrange(1, i as int),
        decreases n - i,
    {
        r.push(t.get_char(i));
        i += 1;
        assert(r@ =~= t@.subrange(1, i as int));
    }
    assert(r@ =~= t@.skip(1));
    r
}

/// The signed number that a text stands for.
pub fn parse_signed(t: &str) -> (r: Option<i32>)
    ensures
        (match r {
            Some(x) => Some(x as int),
            None => None,
        }) == signed_number(t@),
{
    if t.unicode_len() > 0 && t.get_char(0) == '-' {
        let d: String = tail_text(t);
        let ghost e = d@;
        if d.as_str().unicode_len() == 0 {
            return None;
        }
        if d.as_str().get_char(0) == '+' {
            assert(!is_digit(e[0]));
            return None;
        }
        match parse_number(d.as_str(), 0x8000_0000) {
            None => None,
            Some(x) => {
                let y: i64 = -(x as i64);
                Some(y as i32)
            },
        }
    } else {
        match parse_number(t, 0x7FFF_FFFF) {
            None => None,
            Some(x) => Some(x as i32),
        }
    }
}

/// A number under a key.
pub open spec fn keyed(head: Seq<char>, n: int) -> Seq<char> {
    head + integer(n)
}

/// Appends a number under a key.
pub fn push_keyed(s: &mut String, head: &str, n: u64)
    ensures
        final(s)@ == old(s)@ + keyed(head@, n as int),
{
    push_text(s, head);
    push_decimal(s, n);
    assert(s@ =~= old(s)@ + keyed(head@, n as int));
}

/// Appends a number under a key.
pub fn push_keyed_signed(s: &mut String, head: &str, n: i32)
    ensures
        final(s)@ == old(s)@ + keyed(head@, n as int),
{
    push_text(s, head);
    push_integer(s, n);
    assert(s@ =~= old(s)@ + keyed(head@, n as int));
}

/// Appends the decimal digits of a wide number.
pub fn push_wide(s: &mut String, n: u128)
    ensures
        final(s)@ == old(s)@ + decimal(n as nat),
    decreases n,
{
    if n >= 10 {
        push_wide(s, n / 10);
    }
    let d: u8 = 48u8 + (n % 10) as u8;
    s.push(d as char);
    assert(s@ =~= old(s)@ + decimal(n as nat));
}

/// The word of a truth value.
pub open spec fn truth(b: bool) -> Seq<char> {
    if b {
        "true"@
    } else {
        "false"@
    }
}

/// Appends a truth value under a key.
pub fn push_keyed_truth(s: &mut String, head: &str, b: bool)
    ensures
        final(s)@ == old(s)@ + (head@ + truth(b)),
{
    push_text(s, head);
    if b {
        push_text(s, "true");
    } else {
        push_text(s, "false");
    }
    assert(s@ =~= old(s)@ + (head@ + truth(b)));
}

/// Appends a text under a key.
pub fn push_keyed_text(s: &mut String, head: &str, t: &str)
    ensures
        final(s)@ == old(s)@ + (head@ + t@),
{
    push_text(s, head);
    push_text(s, t);
    assert(s@ =~= old(s)@ + (head@ + t@));
}

/// A number written out reads back as itself.
pub proof fn lemma_number_reads_back(n: nat, max: int)
    requires
        n <= max,
    ensures
        number(decimal(n), max) == Some(n as int),
        is_digits(decimal(n)),
        value_of(decimal(n)) == n,
        decimal(n)[0] != '+' && decimal(n)[0] != '-',
{
    lemma_decimal_value(n);
}

proof fn lemma_decimal_value(n: nat)
    ensures
        decimal(n).len() > 0,
        is_digits(decimal(n)),
        value_of(decimal(n)) == n,
    decreases n,
{
    if n < 10 {
        let s = seq![digit_char(n)];
        assert(s.drop_last() =~= Seq::<char>::empty());
        assert(s.last() == digit_char(n));
        assert(digit_char(n) as nat == 48 + n);
        assert(value_of(s.drop_last()) == 0);
    } else {
        lemma_decimal_value(n / 10);
        let head = decimal(n / 10);
        let s = head.push(digit_char(n % 10));
        assert(s.drop_last() =~= head);
        assert(digit_char(n % 10) as nat == 48 + n % 10);
        assert forall|i: int| 0 <= i < s.len() implies is_digit(#[trigger] s[i]) by {
            if i < head.len() {
                assert(s[i] == head[i]);
            }
        }
    }
}

/// So does an integer, with its sign.
pub proof fn lemma_integer_reads_back(n: int)
    requires
        -0x8000_0000 <= n <= 0x7FFF_FFFF,
    ensures
        signed_number(integer(n)) == Some(n),
{
    if n < 0 {
        lemma_number_reads_back((-n) as nat, 0x8000_0000);
        let s = seq!['-'] + decimal((-n) as nat);
        assert(s.skip(1) =~= decimal((-n) as nat));
        assert(s[0] == '-');
    } else {
        lemma_number_reads_back(n as nat, 0x7FFF_FFFF);
    }
}

/// A text holds another somewhere exactly if it can be taken apart around it.
pub proof fn lemma_held_text(s: Seq<char>, part: Seq<char>)
    ensures
        (exists|at: int| #[trigger] holds_at(s, part, at)) <==> exists|a: Seq<char>, z: Seq<char>|
            s == #[trigger] ((a + part) + z),
{
    if exists|at: int| #[trigger] holds_at(s, part, at) {
        let at = choose|at: int| #[trigger] holds_at(s, part, at);
        let a = s.subrange(0, at);
        let z = s.subrange(at + part.len(), s.len() as int);
        assert(s =~= (a + part) + z);
    }
    if exists|a: Seq<char>, z: Seq<char>| s == #[trigger] ((a + part) + z) {
        let (a, z) = choose|a: Seq<char>, z: Seq<char>| s == #[trigger] ((a + part) + z);
        assert(s.subrange(a.len() as int, (a.len() + part.len()) as int) =~= part);
        assert(holds_at(s, part, a.len() as int));
    }
}

} // verus!
