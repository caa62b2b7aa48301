//! Character-level helpers for the text that the kernel reports under
//! `/proc`: whitespace-separated fields and decimal integers.
use vstd::prelude::*;

verus! {

/// Copies the characters of a string into a vector.
pub fn chars_of(s: &str) -> (v: Vec<char>)
    ensures
        v@ == s@,
{
    let mut v: Vec<char> = Vec::new();
    for c in it: s.chars()
        invariant
            v@ == it.seq().take(it.index() as int),
    {
        v.push(c);
    }
    v
}

/// Unicode `White_Space`, the set that `char::is_whitespace` tests.
pub open spec fn is_space(c: char) -> bool {
    let u = c as u32;
    ||| 0x09 <= u <= 0x0d
    ||| u == 0x20
    ||| u == 0x85
    ||| u == 0xa0
    ||| u == 0x1680
    ||| 0x2000 <= u <= 0x200a
    ||| u == 0x2028
    ||| u == 0x2029
    ||| u == 0x202f
    ||| u == 0x205f
    ||| u == 0x3000
}

pub fn char_is_space(c: char) -> (b: bool)
    ensures
        b == is_space(c),
{
    let u = c as u32;
    (0x09 <= u && u <= 0x0d) || u == 0x20 || u == 0x85 || u == 0xa0 || u == 0x1680 || (0x2000
        <= u && u <= 0x200a) || u == 0x2028 || u == 0x2029 || u == 0x202f || u == 0x205f || u
        == 0x3000
}

/// Length of the run of non-space characters at the start of `s`.
pub open spec fn run_len(s: Seq<char>) -> nat
    decreases s.len(),
{
    if s.len() == 0 || is_space(s[0]) {
        0
    } else {
        1 + run_len(s.drop_first())
    }
}

/// The maximal runs of non-space characters of `s`, in order: what
/// `str::split_whitespace` yields.
pub open spec fn ws_fields(s: Seq<char>) -> Seq<Seq<char>>
    decreases s.len(),
{
    if s.len() == 0 {
        seq![]
    } else if is_space(s[0]) {
        ws_fields(s.drop_first())
    } else {
        let n = run_len(s);
        if 0 < n <= s.len() {
            seq![s.take(n as int)] + ws_fields(s.skip(n as int))
        } else {
            seq![]
        }
    }
}

/// `run_len` measured from position `i` equals the distance to the end of the
/// run at `j`, when `s[i..j]` holds no space.
proof fn lemma_run_len_step(s: Seq<char>, i: int)
    requires
        0 <= i < s.len(),
        !is_space(s[i]),
    ensures
        run_len(s.skip(i)) == 1 + run_len(s.skip(i + 1)),
{
    assert(s.skip(i).drop_first() =~= s.skip(i + 1));
}

/// The fields, one after the other.
pub open spec fn joined(fields: Seq<Seq<char>>) -> Seq<char>
    decreases fields.len(),
{
    if fields.len() == 0 {
        seq![]
    } else {
        fields[0] + joined(fields.drop_first())
    }
}

proof fn lemma_run_len_facts(s: Seq<char>)
    ensures
        run_len(s) <= s.len(),
        s.len() > 0 && !is_space(s[0]) ==> run_len(s) >= 1,
        forall|k: int| 0 <= k < run_len(s) ==> !is_space(#[trigger] s[k]),
    decreases s.len(),
{
    if s.len() > 0 && !is_space(s[0]) {
        lemma_run_len_facts(s.drop_first());
        assert forall|k: int| 0 <= k < run_len(s) implies !is_space(#[trigger] s[k]) by {
            if k > 0 {
                assert(s[k] == s.drop_first()[k - 1]);
            }
        }
    }
}

proof fn lemma_filter_keeps_all(s: Seq<char>)
    requires
        forall|k: int| 0 <= k < s.len() ==> !is_space(#[trigger] s[k]),
    ensures
        s.filter(|c: char| !is_space(c)) == s,
    decreases s.len(),
{
    reveal(Seq::filter);
    if s.len() > 0 {
        lemma_filter_keeps_all(s.drop_last());
        assert(s.drop_last().push(s.last()) =~= s);
    }
}

/// The fields of a text are nonempty, hold no whitespace, and together are
/// exactly its non-whitespace characters, in order: splitting drops only
/// whitespace and keeps every other character once.
pub proof fn lemma_fields_are_the_text_without_whitespace(s: Seq<char>)
    ensures
        forall|k: int| 0 <= k < ws_fields(s).len() ==> (#[trigger] ws_fields(s)[k]).len() > 0,
        forall|k: int, j: int|
            0 <= k < ws_fields(s).len() && 0 <= j < ws_fields(s)[k].len() ==> !is_space(
                #[trigger] ws_fields(s)[k][j],
            ),
        joined(ws_fields(s)) == s.filter(|c: char| !is_space(c)),
    decreases s.len(),
{
    let keep = |c: char| !is_space(c);
    if s.len() == 0 {
        reveal(Seq::filter);
        assert(s.filter(keep) =~= seq![]);
    } else if is_space(s[0]) {
        lemma_fields_are_the_text_without_whitespace(s.drop_first());
        assert(s =~= seq![s[0]] + s.drop_first());
        vstd::seq::Seq::filter_distributes_over_add(seq![s[0]], s.drop_first(), keep);
        reveal(Seq::filter);
        let one = seq![s[0]];
        assert(one.drop_last() =~= Seq::<char>::empty());
        assert(one.last() == s[0]);
        assert(!keep(one.last()));
        assert(Seq::<char>::empty().filter(keep) =~= seq![]);
        assert(one.filter(keep) == one.drop_last().filter(keep));
        assert(one.filter(keep) =~= seq![]);
        assert(seq![s[0]].filter(keep) + s.drop_first().filter(keep) =~= s.drop_first().filter(keep));
    } else {
        lemma_run_len_facts(s);
        let n = run_len(s);
        let head = s.take(n as int);
        let tail = s.skip(n as int);
        lemma_fields_are_the_text_without_whitespace(tail);
        let f = ws_fields(s);
        assert(f == seq![head] + ws_fields(tail));
        assert(f[0] == head);
        assert(f.drop_first() =~= ws_fields(tail));
        assert forall|k: int| 0 <= k < f.len() implies (#[trigger] f[k]).len() > 0 by {
            if k > 0 {
                assert(f[k] == ws_fields(tail)[k - 1]);
            }
        }
        assert forall|k: int, j: int| 0 <= k < f.len() && 0 <= j < f[k].len() implies !is_space(
            #[trigger] f[k][j],
        ) by {
            if k > 0 {
                assert(f[k] == ws_fields(tail)[k - 1]);
            } else {
                assert(f[0][j] == s[j]);
            }
        }
        assert forall|k: int| 0 <= k < head.len() implies !is_space(#[trigger] head[k]) by {
            assert(head[k] == s[k]);
        }
        lemma_filter_keeps_all(head);
        assert(s =~= head + tail);
        vstd::seq::Seq::filter_distributes_over_add(head, tail, keep);
    }
}

/// Splits `s` at whitespace; each field is given by its start and end.
pub fn split_fields(s: &Vec<char>) -> (fields: Vec<(usize, usize)>)
    ensures
        fields@.len() == ws_fields(s@).len(),
        forall|k: int|
            0 <= k < fields@.len() ==> {
                &&& (#[trigger] fields@[k]).0 < fields@[k].1 <= s@.len()
                &&& s@.subrange(fields@[k].0 as int, fields@[k].1 as int) == ws_fields(s@)[k]
            },
{
    let mut fields: Vec<(usize, usize)> = Vec::new();
    let mut i: usize = 0;
    let ghost done: Seq<Seq<char>> = seq![];
    assert(s@.skip(0) =~= s@);
    while i < s.len()
        invariant
            i <= s@.len(),
            ws_fields(s@) == done + ws_fields(s@.skip(i as int)),
            fields@.len() == done.len(),
            forall|k: int|
                0 <= k < fields@.len() ==> {
                    &&& (#[trigger] fields@[k]).0 < fields@[k].1 <= i
                    &&& s@.subrange(fields@[k].0 as int, fields@[k].1 as int) == done[k]
                },
        decreases s@.len() - i,
    {
        let c = s[i];
        if char_is_space(c) {
            assert(s@.skip(i as int).drop_first() =~= s@.skip(i + 1));
            i = i + 1;
        } else {
            let start = i;
            let mut j = i;
            while j < s.len() && !char_is_space(s[j])
                invariant
                    start <= j <= s@.len(),
                    start < s@.len(),
                    !is_space(s@[start as int]),
                    run_len(s@.skip(start as int)) == (j - start) + run_len(s@.skip(j as int)),
                    forall|k: int| start <= k < j ==> !is_space(#[trigger] s@[k]),
                decreases s@.len() - j,
            {
                proof {
                    lemma_run_len_step(s@, j as int);
                }
                j = j + 1;
            }
            proof {
                if j < s@.len() {
                    assert(s@.skip(j as int)[0] == s@[j as int]);
                } else {
                    assert(s@.skip(j as int).len() == 0);
                }
                assert(run_len(s@.skip(j as int)) == 0);
                let t = s@.skip(start as int);
                assert(t.len() > 0 && !is_space(t[0]));
                assert(run_len(t) == j - start);
                assert(t.take((j - start) as int) =~= s@.subrange(start as int, j as int));
                assert(t.skip((j - start) as int) =~= s@.skip(j as int));
                done = done.push(s@.subrange(start as int, j as int));
                assert(ws_fields(t) == seq![t.take((j - start) as int)] + ws_fields(
                    t.skip((j - start) as int),
                ));
                assert(ws_fields(s@) =~= done + ws_fields(s@.skip(j as int)));
            }
            fields.push((start, j));
            i = j;
        }
    }
    proof {
        assert(s@.skip(i as int).len() == 0);
        assert(done =~= ws_fields(s@));
    }
    fields
}


pub open spec fn is_digit(c: char) -> bool {
    0x30 <= (c as u32) <= 0x39
}

pub open spec fn digit_value(c: char) -> int {
    (c as u32) - 0x30
}

/// The number that a string of decimal digits denotes.
pub open spec fn decimal_value(s: Seq<char>) -> int
    decreases s.len(),
{
    if s.len() == 0 {
        0
    } else {
        decimal_value(s.drop_last()) * 10 + digit_value(s.last())
    }
}

pub open spec fn all_digits(s: Seq<char>) -> bool {
    forall|k: int| 0 <= k < s.len() ==> is_digit(#[trigger] s[k])
}

/// What `str::parse::<i32>` gives: an optional `+` or `-` sign, then one or
/// more decimal digits, with a value inside the range of `i32`.
pub open spec fn parse_i32_spec(s: Seq<char>) -> Option<i32> {
    let signed = s.len() > 0 && (s[0] == '+' || s[0] == '-');
    let digits = if signed {
        s.drop_first()
    } else {
        s
    };
    let magnitude = decimal_value(digits);
    let value = if s.len() > 0 && s[0] == '-' {
        -magnitude
    } else {
        magnitude
    };
    if digits.len() == 0 || !all_digits(digits) {
        None
    } else if i32::MIN <= value <= i32::MAX {
        Some(value as i32)
    } else {
        None
    }
}

proof fn lemma_decimal_value_prefix(s: Seq<char>, i: int)
    requires
        0 <= i <= s.len(),
        all_digits(s),
    ensures
        0 <= decimal_value(s.take(i)) <= decimal_value(s),
    decreases s.len(),
{
    if s.len() > 0 {
        assert(all_digits(s.drop_last())) by {
            assert forall|k: int| 0 <= k < s.drop_last().len() implies is_digit(
                #[trigger] s.drop_last()[k],
            ) by {
                assert(s.drop_last()[k] == s[k]);
            }
        }
        assert(is_digit(s[s.len() - 1]));
        if i == s.len() {
            assert(s.take(i) =~= s);
            lemma_decimal_value_prefix(s.drop_last(), 0);
        } else {
            lemma_decimal_value_prefix(s.drop_last(), i);
            assert(s.drop_last().take(i) =~= s.take(i));
        }
    } else {
        assert(s.take(i) =~= s);
    }
}

/// Parses `s[from..to]` as `str::parse::<i32>` does.
pub fn parse_i32(s: &Vec<char>, from: usize, to: usize) -> (r: Option<i32>)
    requires
        from <= to <= s@.len(),
    ensures
        r == parse_i32_spec(s@.subrange(from as int, to as int)),
{
    let ghost t = s@.subrange(from as int, to as int);
    if from == to {
        return None;
    }
    let first = s[from];
    let negative = first == '-';
    let start = if first == '+' || first == '-' {
        from + 1
    } else {
        from
    };
    let ghost digits = s@.subrange(start as int, to as int);
    assert(digits =~= (if t.len() > 0 && (t[0] == '+' || t[0] == '-') {
        t.drop_first()
    } else {
        t
    }));
    if start == to {
        return None;
    }
    let mut magnitude: i64 = 0;
    let mut i = start;
    while i < to
        invariant
            from <= start <= i <= to <= s@.len(),
            digits == s@.subrange(start as int, to as int),
            t == s@.subrange(from as int, to as int),
            t.len() > 0,
            negative == (t[0] == '-'),
            digits == (if t[0] == '+' || t[0] == '-' {
                t.drop_first()
            } else {
                t
            }),
            all_digits(digits.take(i - start)),
            magnitude == decimal_value(digits.take(i - start)),
            0 <= magnitude <= 0x8000_0000,
        decreases to - i,
    {
        let c = s[i];
        if !((c as u32) >= 0x30 && (c as u32) <= 0x39) {
            assert(!all_digits(digits)) by {
                assert(digits[i - start] == c);
            }
            return None;
        }
        let ghost before = digits.take(i - start);
        let d = ((c as u32) - 0x30) as i64;
        magnitude = magnitude * 10 + d;
        proof {
            let after = digits.take(i + 1 - start);
            assert(after.drop_last() =~= before);
            assert(after.last() == c);
            assert(all_digits(after)) by {
                assert forall|k: int| 0 <= k < after.len() implies is_digit(#[trigger] after[k]) by {
                    if k < before.len() {
                        assert(after[k] == before[k]);
                    }
                }
            }
        }
        if magnitude > 0x8000_0000 {
            proof {
                if all_digits(digits) {
                    lemma_decimal_value_prefix(digits, i + 1 - start);
                }
            }
            return None;
        }
        i = i + 1;
    }
    assert(digits.take(to - start) =~= digits);
    if negative {
        Some((-magnitude) as i32)
    } else if magnitude <= 0x7fff_ffff {
        Some(magnitude as i32)
    } else {
        None
    }
}


/// Parses a whole string as `str::parse::<i32>` does.
pub fn parse_i32_str(s: &str) -> (r: Option<i32>)
    ensures
        r == parse_i32_spec(s@),
{
    let chars = chars_of(s);
    assert(chars@.subrange(0, chars@.len() as int) =~= s@);
    parse_i32(&chars, 0, chars.len())
}

/// The decimal digits of `n`.
pub open spec fn decimal_digits(n: nat) -> Seq<char>
    decreases n,
{
    if n < 10 {
        seq![digit_char(n)]
    } else {
        decimal_digits(n / 10).push(digit_char(n % 10))
    }
}

pub open spec fn digit_char(d: nat) -> char {
    if d == 0 {
        '0'
    } else if d == 1 {
        '1'
    } else if d == 2 {
        '2'
    } else if d == 3 {
        '3'
    } else if d == 4 {
        '4'
    } else if d == 5 {
        '5'
    } else if d == 6 {
        '6'
    } else if d == 7 {
        '7'
    } else if d == 8 {
        '8'
    } else {
        '9'
    }
}

pub fn append_digit(s: &mut String, d: usize)
    requires
        d < 10,
    ensures
        final(s)@ == old(s)@.push(digit_char(d as nat)),
{
    proof {
        reveal_strlit("0");
        reveal_strlit("1");
        reveal_strlit("2");
        reveal_strlit("3");
        reveal_strlit("4");
        reveal_strlit("5");
        reveal_strlit("6");
        reveal_strlit("7");
        reveal_strlit("8");
        reveal_strlit("9");
    }
    if d == 0 {
        s.append("0");
    } else if d == 1 {
        s.append("1");
    } else if d == 2 {
        s.append("2");
    } else if d == 3 {
        s.append("3");
    } else if d == 4 {
        s.append("4");
    } else if d == 5 {
        s.append("5");
    } else if d == 6 {
        s.append("6");
    } else if d == 7 {
        s.append("7");
    } else if d == 8 {
        s.append("8");
    } else {
        s.append("9");
    }
    assert(final(s)@ =~= old(s)@.push(digit_char(d as nat)));
}

/// Appends the decimal form of `n` to `s`.
pub fn append_decimal(s: &mut String, n: usize)
    ensures
        final(s)@ == old(s)@ + decimal_digits(n as nat),
    decreases n,
{
    if n < 10 {
        append_digit(s, n);
        assert(final(s)@ =~= old(s)@ + decimal_digits(n as nat));
    } else {
        append_decimal(s, n / 10);
        append_digit(s, n % 10);
        assert(final(s)@ =~= old(s)@ + decimal_digits(n as nat));
    }
}

/// The decimal form of `v`, with a leading `-` when it is negative, as
/// `{}` formats an integer.
pub open spec fn signed_decimal(v: int) -> Seq<char> {
    if v < 0 {
        seq!['-'] + decimal_digits((-v) as nat)
    } else {
        decimal_digits(v as nat)
    }
}

/// Appends the decimal form of `v` to `s`.
pub fn append_i32(s: &mut String, v: i32)
    ensures
        final(s)@ == old(s)@ + signed_decimal(v as int),
{
    if v < 0 {
        s.append("-");
        proof {
            reveal_strlit("-");
        }
        let magnitude: u64 = (0i64 - (v as i64)) as u64;
        assert(magnitude <= 0x8000_0000);
        append_decimal(s, magnitude as usize);
        assert(final(s)@ =~= old(s)@ + signed_decimal(v as int));
    } else {
        append_decimal(s, v as usize);
        assert(final(s)@ =~= old(s)@ + signed_decimal(v as int));
    }
}


proof fn lemma_digit_char(d: nat)
    requires
        d < 10,
    ensures
        is_digit(digit_char(d)),
        digit_value(digit_char(d)) == d,
{
}

/// The decimal form of `n` is all digits and denotes `n`.
pub proof fn lemma_decimal_digits_value(n: nat)
    ensures
        decimal_digits(n).len() > 0,
        all_digits(decimal_digits(n)),
        decimal_value(decimal_digits(n)) == n,
    decreases n,
{
    if n < 10 {
        lemma_digit_char(n);
        let t = decimal_digits(n);
        assert(t.drop_last() =~= Seq::<char>::empty());
        assert(decimal_value(t.drop_last()) == 0);
        assert(t.last() == digit_char(n));
        assert(decimal_value(t) == decimal_value(t.drop_last()) * 10 + digit_value(t.last()));
    } else {
        lemma_decimal_digits_value(n / 10);
        lemma_digit_char(n % 10);
        let s = decimal_digits(n / 10);
        let t = decimal_digits(n);
        assert(t == s.push(digit_char(n % 10)));
        assert(t.drop_last() =~= s);
        assert forall|k: int| 0 <= k < t.len() implies is_digit(#[trigger] t[k]) by {
            if k < s.len() {
                assert(t[k] == s[k]);
            }
        }
        assert((n / 10) * 10 + n % 10 == n) by (nonlinear_arith);
        assert(t.last() == digit_char(n % 10));
        assert(decimal_value(t) == decimal_value(s) * 10 + digit_value(t.last()));
    }
}

/// Parsing reads back what formatting wrote: the decimal form of every
/// `i32`, with its `-` when negative, parses to that number, and so does
/// the form of every non-negative `i32` after a `+`.
pub proof fn lemma_parse_reads_back_decimal(v: i32)
    ensures
        parse_i32_spec(signed_decimal(v as int)) == Some(v),
        v >= 0 ==> parse_i32_spec(seq!['+'] + signed_decimal(v as int)) == Some(v),
{
    if v < 0 {
        let m = (-(v as int)) as nat;
        lemma_decimal_digits_value(m);
        let s = signed_decimal(v as int);
        assert(s[0] == '-');
        assert(s.drop_first() =~= decimal_digits(m));
    } else {
        let m = v as nat;
        lemma_decimal_digits_value(m);
        let d = decimal_digits(m);
        assert(is_digit(d[0]));
        let p = seq!['+'] + d;
        assert(p[0] == '+');
        assert(p.drop_first() =~= d);
    }
}

} // verus!
