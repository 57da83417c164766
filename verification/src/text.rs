//! Searching and slicing text, and writing numbers in decimal.

use vstd::prelude::*;

verus! {

/// The position of the first `x` in `s`, or the length of `s` when `s` holds
/// no `x`.
pub open spec fn first_index<A>(s: Seq<A>, x: A) -> int
    decreases s.len(),
{
    if s.len() == 0 {
        0
    } else if s[0] == x {
        0
    } else {
        1 + first_index(s.drop_first(), x)
    }
}

/// `first_index` lies within `s`, nothing before it is `x`, and it marks an
/// `x` unless it is the end of `s`.
pub proof fn lemma_first_index<A>(s: Seq<A>, x: A)
    ensures
        0 <= first_index(s, x) <= s.len(),
        forall|i: int| 0 <= i < first_index(s, x) ==> s[i] != x,
        first_index(s, x) < s.len() ==> s[first_index(s, x)] == x,
    decreases s.len(),
{
    if s.len() > 0 && s[0] != x {
        lemma_first_index(s.drop_first(), x);
        assert forall|i: int| 0 <= i < first_index(s, x) implies s[i] != x by {
            if i > 0 {
                assert(s[i] == s.drop_first()[i - 1]);
            }
        }
    }
}

/// `first_index` is the one position that the properties of
/// `lemma_first_index` describe.
pub proof fn lemma_first_index_unique<A>(s: Seq<A>, x: A, k: int)
    requires
        0 <= k <= s.len(),
        forall|i: int| 0 <= i < k ==> s[i] != x,
        k < s.len() ==> s[k] == x,
    ensures
        first_index(s, x) == k,
{
    lemma_first_index(s, x);
    let f = first_index(s, x);
    if f < k {
        assert(s[f] == x);
    }
    if k < f {
        assert(s[k] != x);
    }
}

/// The position of the first `x` in `bytes[from..to]`, counted from the
/// start of `bytes`; `to` when there is none.
pub fn find_byte(bytes: &[u8], from: usize, to: usize, x: u8) -> (k: usize)
    requires
        from <= to <= bytes@.len(),
    ensures
        from <= k <= to,
        k - from == first_index(bytes@.subrange(from as int, to as int), x),
{
    let ghost part = bytes@.subrange(from as int, to as int);
    let mut k = from;
    while k < to
        invariant
            from <= k <= to <= bytes@.len(),
            part == bytes@.subrange(from as int, to as int),
            forall|i: int| 0 <= i < k - from ==> part[i] != x,
        decreases to - k,
    {
        if bytes[k] == x {
            proof {
                lemma_first_index_unique(part, x, k - from);
            }
            return k;
        }
        k = k + 1;
    }
    proof {
        lemma_first_index_unique(part, x, k - from);
    }
    k
}

/// The position of the first `x` in `chars[from..to]`, counted from the
/// start of `chars`; `to` when there is none.
pub fn find_char(chars: &Vec<char>, from: usize, to: usize, x: char) -> (k: usize)
    requires
        from <= to <= chars@.len(),
    ensures
        from <= k <= to,
        k - from == first_index(chars@.subrange(from as int, to as int), x),
{
    let ghost part = chars@.subrange(from as int, to as int);
    let mut k = from;
    while k < to
        invariant
            from <= k <= to <= chars@.len(),
            part == chars@.subrange(from as int, to as int),
            forall|i: int| 0 <= i < k - from ==> part[i] != x,
        decreases to - k,
    {
        if chars[k] == x {
            proof {
                lemma_first_index_unique(part, x, k - from);
            }
            return k;
        }
        k = k + 1;
    }
    proof {
        lemma_first_index_unique(part, x, k - from);
    }
    k
}

/// Whether `s` is the text `literal`.
pub fn is_text(s: &String, literal: &str) -> (r: bool)
    ensures
        r == (s@ == literal@),
{
    *s == literal.to_owned()
}

/// `s` cut at every `sep`: the pieces between separators, in order (one
/// piece more than there are separators).
pub open spec fn split_on<A>(s: Seq<A>, sep: A) -> Seq<Seq<A>>
    decreases s.len(),
{
    let k = first_index(s, sep);
    if k < s.len() {
        proof {
            lemma_first_index(s, sep);
        }
        seq![s.subrange(0, k)] + split_on(s.subrange(k + 1, s.len() as int), sep)
    } else {
        seq![s]
    }
}

/// `parts` glued together with `sep` between neighbours.
pub open spec fn join_with<A>(parts: Seq<Seq<A>>, sep: A) -> Seq<A>
    decreases parts.len(),
{
    if parts.len() == 0 {
        Seq::empty()
    } else if parts.len() == 1 {
        parts[0]
    } else {
        parts[0] + seq![sep] + join_with(parts.drop_first(), sep)
    }
}

/// Cutting at every separator and gluing the pieces back together gives
/// the text back.
pub proof fn law_join_split<A>(s: Seq<A>, sep: A)
    ensures
        join_with(split_on(s, sep), sep) == s,
    decreases s.len(),
{
    lemma_first_index(s, sep);
    let k = first_index(s, sep);
    if k < s.len() {
        let rest = s.subrange(k + 1, s.len() as int);
        law_join_split(rest, sep);
        lemma_split_nonempty(rest, sep);
        let parts = split_on(s, sep);
        assert(parts.drop_first() =~= split_on(rest, sep));
        assert(s =~= s.subrange(0, k) + seq![sep] + rest);
    }
}

/// Cutting always gives at least one piece.
pub proof fn lemma_split_nonempty<A>(s: Seq<A>, sep: A)
    ensures
        split_on(s, sep).len() >= 1,
    decreases s.len(),
{
    lemma_first_index(s, sep);
    let k = first_index(s, sep);
    if k < s.len() {
        lemma_split_nonempty(s.subrange(k + 1, s.len() as int), sep);
    }
}

/// The decimal digit for `n` (0 to 9).
pub open spec fn decimal_digit(n: nat) -> char {
    seq!['0', '1', '2', '3', '4', '5', '6', '7', '8', '9'][n as int]
}

/// `n` written in decimal, without sign or leading zeros ("0" for zero).
pub open spec fn decimal(n: nat) -> Seq<char>
    decreases n,
{
    if n < 10 {
        seq![decimal_digit(n)]
    } else {
        decimal(n / 10).push(decimal_digit(n % 10))
    }
}

/// The value of a decimal digit character (`'0'` is 0).
pub open spec fn digit_value(c: char) -> int {
    (c as int) - ('0' as int)
}

/// The number that a string of decimal digits stands for, read most
/// significant digit first.
pub open spec fn decimal_value(digits: Seq<char>) -> int
    decreases digits.len(),
{
    if digits.len() == 0 {
        0
    } else {
        decimal_value(digits.drop_last()) * 10 + digit_value(digits.last())
    }
}

/// `n` in decimal is made of digits `0` to `9`, has no leading zero (unless
/// it is `0` itself), and reads back as `n`.
pub proof fn law_decimal_reads_back(n: nat)
    ensures
        decimal(n).len() >= 1,
        forall|i: int| 0 <= i < decimal(n).len() ==> '0' <= #[trigger] decimal(n)[i] <= '9',
        decimal(n)[0] == '0' ==> n == 0,
        decimal_value(decimal(n)) == n,
    decreases n,
{
    let digits = seq!['0', '1', '2', '3', '4', '5', '6', '7', '8', '9'];
    assert(forall|d: int| 0 <= d < 10 ==> '0' <= #[trigger] digits[d] <= '9' && digit_value(digits[d]) == d) by {
        assert(digits[0] == '0' && digits[1] == '1' && digits[2] == '2' && digits[3] == '3' && digits[4] == '4');
        assert(digits[5] == '5' && digits[6] == '6' && digits[7] == '7' && digits[8] == '8' && digits[9] == '9');
    }
    if n < 10 {
        assert(decimal(n) == seq![digits[n as int]]);
        assert(decimal(n).drop_last() =~= Seq::<char>::empty());
        assert(decimal_value(decimal(n)) == decimal_value(Seq::<char>::empty()) * 10 + digit_value(
            digits[n as int],
        ));
        if n != 0 {
            assert(digits[n as int] != '0');
        }
    } else {
        let high = n / 10;
        let low = n % 10;
        law_decimal_reads_back(high);
        let d = decimal(n);
        assert(d == decimal(high).push(digits[low as int]));
        assert(d.drop_last() =~= decimal(high));
        assert(d[0] == decimal(high)[0]);
        assert forall|i: int| 0 <= i < d.len() implies '0' <= #[trigger] d[i] <= '9' by {
            if i < decimal(high).len() {
                assert(d[i] == decimal(high)[i]);
            }
        }
        assert(decimal_value(d) == decimal_value(decimal(high)) * 10 + digit_value(digits[low as int]));
        assert(high * 10 + low == n);
    }
}

/// Appends one character to a string (`String::push`).
#[verifier::external_body]
pub(crate) fn push_char(s: &mut String, c: char)
    ensures
        final(s)@ == old(s)@.push(c),
{
    s.push(c)
}

/// The characters of `s`, in order.
pub fn chars_of(s: &str) -> (chars: Vec<char>)
    ensures
        chars@ == s@,
{
    broadcast use vstd::string::group_string_axioms;

    let mut chars: Vec<char> = Vec::new();
    for c in it: s.chars()
        invariant
            chars@ == it.seq().take(it.index() as int),
    {
        chars.push(c);
    }
    assert(chars@ =~= s@);
    chars
}

/// A string holding the characters `chars[from..to]`.
pub fn string_of(chars: &Vec<char>, from: usize, to: usize) -> (s: String)
    requires
        from <= to <= chars.len(),
    ensures
        s@ == chars@.subrange(from as int, to as int),
{
    let mut s = String::new();
    let mut i = from;
    while i < to
        invariant
            from <= i <= to <= chars.len(),
            s@ == chars@.subrange(from as int, i as int),
        decreases to - i,
    {
        push_char(&mut s, chars[i]);
        assert(s@ =~= chars@.subrange(from as int, i + 1));
        i = i + 1;
    }
    s
}

/// Appends `n` in decimal to `s`.
pub fn push_decimal(s: &mut String, n: u64)
    ensures
        final(s)@ == old(s)@ + decimal(n as nat),
    decreases n,
{
    if n >= 10 {
        push_decimal(s, n / 10);
    }
    let d = (n % 10) as u8;
    let c = if d == 0 { '0' } else if d == 1 { '1' } else if d == 2 { '2' } else if d == 3 { '3' }
        else if d == 4 { '4' } else if d == 5 { '5' } else if d == 6 { '6' } else if d == 7 { '7' }
        else if d == 8 { '8' } else { '9' };
    assert(c == decimal_digit((n % 10) as nat));
    push_char(s, c);
    assert(s@ =~= old(s)@ + decimal(n as nat)) by {
        if n >= 10 {
            assert(decimal(n as nat) == decimal((n / 10) as nat).push(decimal_digit((n % 10) as nat)));
        }
    }
}

} // verus!
