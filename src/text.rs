use vstd::prelude::*;

verus! {

/// Relies on `String::push`: the character is appended at the end.
#[verifier::external_body]
pub(crate) fn push_char(s: &mut String, c: char)
    ensures
        final(s)@ == old(s)@.push(c),
{
    s.push(c);
}

/// The string whose characters are `cs`, in order.
pub fn string_of(cs: &Vec<char>) -> (r: String)
    ensures
        r@ == cs@,
{
    let mut r = String::new();
    let mut i: usize = 0;
    while i < cs.len()
        invariant
            i <= cs.len(),
            r@ == cs@.take(i as int),
        decreases cs.len() - i,
    {
        push_char(&mut r, cs[i]);
        i = i + 1;
        assert(r@ =~= cs@.take(i as int));
    }
    assert(cs@.take(cs.len() as int) =~= cs@);
    r
}

} // verus!

verus! {

/// White space that surrounds a field of a Newick string.
pub open spec fn is_space(c: char) -> bool {
    c == ' ' || c == '\t' || c == '\n' || c == '\r' || c == '\x0B' || c == '\x0C'
}

/// `s` without its leading white space.
pub open spec fn trim_start(s: Seq<char>) -> Seq<char>
    decreases s.len(),
{
    if s.len() > 0 && is_space(s[0]) {
        trim_start(s.drop_first())
    } else {
        s
    }
}

/// `s` without its trailing white space.
pub open spec fn trim_end(s: Seq<char>) -> Seq<char>
    decreases s.len(),
{
    if s.len() > 0 && is_space(s.last()) {
        trim_end(s.drop_last())
    } else {
        s
    }
}

/// `s` without its leading and trailing white space.
pub open spec fn trim(s: Seq<char>) -> Seq<char> {
    trim_end(trim_start(s))
}

fn space(c: char) -> (r: bool)
    ensures
        r == is_space(c),
{
    c == ' ' || c == '\t' || c == '\n' || c == '\r' || c == '\x0B' || c == '\x0C'
}

/// The characters of `s` without surrounding white space.
pub fn trimmed(s: &Vec<char>) -> (r: Vec<char>)
    ensures
        r@ == trim(s@),
{
    let mut i: usize = 0;
    assert(s@.skip(0) =~= s@);
    while i < s.len() && space(s[i])
        invariant
            i <= s.len(),
            trim_start(s@) == trim_start(s@.skip(i as int)),
        decreases s.len() - i,
    {
        assert(s@.skip(i as int).drop_first() =~= s@.skip(i as int + 1));
        i = i + 1;
    }
    let mut j: usize = s.len();
    let ghost t = s@.skip(i as int);
    assert(trim_start(s@) == t);
    assert(t.take(t.len() as int) =~= t);
    while j > i && space(s[j - 1])
        invariant
            i <= j <= s.len(),
            t == s@.skip(i as int),
            trim_end(t) == trim_end(t.take(j - i)),
        decreases j,
    {
        assert(t.take(j - i).drop_last() =~= t.take(j - i - 1));
        j = j - 1;
    }
    let mut r: Vec<char> = Vec::new();
    let mut k: usize = i;
    while k < j
        invariant
            i <= k <= j <= s.len(),
            r@ == s@.subrange(i as int, k as int),
        decreases j - k,
    {
        r.push(s[k]);
        k = k + 1;
        assert(r@ =~= s@.subrange(i as int, k as int));
    }
    assert(r@ =~= t.take(j - i));
    r
}

/// A decimal digit.
pub open spec fn is_digit(c: char) -> bool {
    '0' <= c && c <= '9'
}

/// One step of the recogniser of decimal numbers
/// `[+-]? (d+ | d+ '.' d* | '.' d+) ([eE] [+-]? d+)?`.
/// States: 0 start, 1 sign, 2 integer digits, 3 point after digits,
/// 4 point without digits, 5 fraction digits, 6 exponent mark,
/// 7 exponent sign, 8 exponent digits, 9 rejected.
pub open spec fn number_step(q: u8, c: char) -> u8 {
    if is_digit(c) {
        if q <= 2 {
            2
        } else if q <= 5 {
            5
        } else if q <= 8 {
            8
        } else {
            9
        }
    } else if c == '+' || c == '-' {
        if q == 0 {
            1
        } else if q == 6 {
            7
        } else {
            9
        }
    } else if c == '.' {
        if q == 0 || q == 1 {
            4
        } else if q == 2 {
            3
        } else {
            9
        }
    } else if c == 'e' || c == 'E' {
        if q == 2 || q == 3 || q == 5 {
            6
        } else {
            9
        }
    } else {
        9
    }
}

/// The recogniser's state after reading `s`.
pub open spec fn number_run(s: Seq<char>) -> u8
    decreases s.len(),
{
    if s.len() == 0 {
        0
    } else {
        number_step(number_run(s.drop_last()), s.last())
    }
}

/// `s` is the text of a decimal number.
pub open spec fn is_number(s: Seq<char>) -> bool {
    let q = number_run(s);
    q == 2 || q == 3 || q == 5 || q == 8
}

fn next_state(q: u8, c: char) -> (r: u8)
    ensures
        r == number_step(q, c),
{
    if '0' <= c && c <= '9' {
        if q <= 2 {
            2
        } else if q <= 5 {
            5
        } else if q <= 8 {
            8
        } else {
            9
        }
    } else if c == '+' || c == '-' {
        if q == 0 {
            1
        } else if q == 6 {
            7
        } else {
            9
        }
    } else if c == '.' {
        if q == 0 || q == 1 {
            4
        } else if q == 2 {
            3
        } else {
            9
        }
    } else if c == 'e' || c == 'E' {
        if q == 2 || q == 3 || q == 5 {
            6
        } else {
            9
        }
    } else {
        9
    }
}

/// Whether `s` is the text of a decimal number.
pub fn check_number(s: &Vec<char>) -> (r: bool)
    ensures
        r == is_number(s@),
{
    let mut q: u8 = 0;
    let mut i: usize = 0;
    assert(s@.take(0) =~= Seq::<char>::empty());
    while i < s.len()
        invariant
            i <= s.len(),
            q == number_run(s@.take(i as int)),
        decreases s.len() - i,
    {
        assert(s@.take(i as int + 1).drop_last() =~= s@.take(i as int));
        q = next_state(q, s[i]);
        i = i + 1;
    }
    assert(s@.take(i as int) =~= s@);
    q == 2 || q == 3 || q == 5 || q == 8
}

} // verus!

verus! {

/// The value of a string of decimal digits.
pub open spec fn digits_value(s: Seq<char>) -> nat
    decreases s.len(),
{
    if s.len() == 0 {
        0
    } else {
        digits_value(s.drop_last()) * 10 + (s.last() as nat - '0' as nat) as nat
    }
}

/// The digits of a partition length: the text after an optional leading `+`.
pub open spec fn unsigned_digits(s: Seq<char>) -> Seq<char> {
    if s.len() > 0 && s[0] == '+' {
        s.drop_first()
    } else {
        s
    }
}

/// A partition length: an optional `+` then one or more decimal digits,
/// whose value fits in a `usize`.
pub fn parse_partition(s: &Vec<char>) -> (r: Option<usize>)
    ensures
        match r {
            Some(n) => unsigned_digits(s@).len() > 0
                && (forall|i: int| 0 <= i < unsigned_digits(s@).len() ==> is_digit(#[trigger] unsigned_digits(s@)[i]))
                && n as nat == digits_value(unsigned_digits(s@)),
            None => unsigned_digits(s@).len() == 0
                || (exists|i: int| 0 <= i < unsigned_digits(s@).len() && !is_digit(#[trigger] unsigned_digits(s@)[i]))
                || digits_value(unsigned_digits(s@)) > usize::MAX,
        },
{
    let start: usize = if s.len() > 0 && s[0] == '+' { 1 } else { 0 };
    let ghost t = unsigned_digits(s@);
    assert(t =~= s@.skip(start as int));
    if s.len() - start == 0 {
        return None;
    }
    let mut v: usize = 0;
    let mut i: usize = start;
    assert(t.take(0) =~= Seq::<char>::empty());
    while i < s.len()
        invariant
            start <= i <= s.len(),
            t == s@.skip(start as int),
            t == unsigned_digits(s@),
            forall|k: int| 0 <= k < i - start ==> is_digit(#[trigger] t[k]),
            v as nat == digits_value(t.take(i - start)),
        decreases s.len() - i,
    {
        let c = s[i];
        assert(c == t[i - start]);
        if !('0' <= c && c <= '9') {
            assert(!is_digit(t[i - start]));
            return None;
        }
        assert(t.take(i - start + 1).drop_last() =~= t.take(i - start));
        let d = (c as u32 - '0' as u32) as usize;
        if v > (usize::MAX - d) / 10 {
            proof {
                assert(v * 10 + d > usize::MAX) by (nonlinear_arith)
                    requires
                        v > (usize::MAX - d) / 10,
                        d <= 9,
                ;
                if forall|j: int| 0 <= j < t.len() ==> is_digit(#[trigger] t[j]) {
                    lemma_digits_grow(t, i - start + 1);
                    assert(digits_value(t.take(i - start + 1)) == v * 10 + d);
                }
            }
            return None;
        }
        v = v * 10 + d;
        i = i + 1;
    }
    assert(t.take(i - start) =~= t);
    Some(v)
}

proof fn lemma_digits_grow(t: Seq<char>, k: int)
    requires
        0 <= k <= t.len(),
        forall|i: int| 0 <= i < t.len() ==> is_digit(#[trigger] t[i]),
    ensures
        digits_value(t) >= digits_value(t.take(k)),
    decreases t.len(),
{
    if k < t.len() {
        assert(t.drop_last().take(k) =~= t.take(k));
        lemma_digits_grow(t.drop_last(), k);
    } else {
        assert(t.take(k) =~= t);
    }
}

} // verus!
