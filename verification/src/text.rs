//! Text: decimal numbers, lists and trimming.
use vstd::prelude::*;
use vstd::string::{StrSliceExecFns, StringExecFns};

verus! {

/// The digit of a number below ten.
pub open spec fn digit(d: int) -> char {
    if d == 0 {
        '0'
    } else if d == 1 {
        '1'
    } else if d == 2 {
        '2'
    } else if d == 3 {
        '3'
    } else if d == 4 {
        '4'
    } else if d == 5 {
        '5'
    } else if d == 6 {
        '6'
    } else if d == 7 {
        '7'
    } else if d == 8 {
        '8'
    } else {
        '9'
    }
}

/// The value of a digit; ten for any other character.
pub open spec fn digit_value(c: char) -> int {
    if c >= '0' && c <= '9' {
        c as int - '0' as int
    } else {
        10
    }
}

/// The decimal digits of a number, without leading zeros.
pub open spec fn decimal(n: nat) -> Seq<char>
    decreases n,
{
    if n < 10 {
        seq![digit(n as int)]
    } else {
        decimal(n / 10).push(digit((n % 10) as int))
    }
}

/// The number that a sequence of decimal digits stands for.
pub open spec fn decimal_value(s: Seq<char>) -> nat
    decreases s.len(),
{
    if s.len() == 0 {
        0
    } else {
        10 * decimal_value(s.drop_last()) + digit_value(s.last()) as nat
    }
}

/// Every character is a decimal digit.
pub open spec fn all_digits(s: Seq<char>) -> bool {
    forall|i: int| 0 <= i < s.len() ==> digit_value(#[trigger] s[i]) < 10
}

/// Writing a number in decimal and reading it back gives the number.
pub proof fn decimal_round_trip(n: nat)
    ensures
        decimal(n).len() > 0,
        all_digits(decimal(n)),
        decimal_value(decimal(n)) == n,
    decreases n,
{
    reveal_with_fuel(decimal_value, 2);
    if n >= 10 {
        decimal_round_trip(n / 10);
        let s = decimal(n);
        assert(s.drop_last() =~= decimal(n / 10));
        assert forall|i: int| 0 <= i < s.len() implies digit_value(#[trigger] s[i]) < 10 by {
            if i < s.len() - 1 {
                assert(s[i] == decimal(n / 10)[i]);
            }
        }
    } else {
        assert(decimal(n).drop_last() =~= Seq::empty());
    }
}

fn push_digit(s: &mut String, d: u64)
    requires
        d < 10,
    ensures
        final(s)@ == old(s)@.push(digit(d as int)),
{
    proof {
        reveal_strlit("0");
        reveal_strlit("1");
        reveal_strlit("2");
        reveal_strlit("3");
        reveal_strlit("4");
        reveal_strlit("5");
        reveal_strlit("6");
        reveal_strlit("7");
        reveal_strlit("8");
        reveal_strlit("9");
    }
    let text: &str = match d {
        0 => "0",
        1 => "1",
        2 => "2",
        3 => "3",
        4 => "4",
        5 => "5",
        6 => "6",
        7 => "7",
        8 => "8",
        _ => "9",
    };
    s.append(text);
    assert(s@ =~= old(s)@.push(digit(d as int)));
}

/// Appends a number in decimal.
pub fn push_decimal(s: &mut String, n: u64)
    ensures
        final(s)@ == old(s)@ + decimal(n as nat),
    decreases n,
{
    if n >= 10 {
        push_decimal(s, n / 10);
    }
    push_digit(s, n % 10);
    assert(s@ =~= old(s)@ + decimal(n as nat));
}

/// The numbers from index `i` on, each after a comma and a space.
pub open spec fn list_tail(v: Seq<u64>, i: int) -> Seq<char>
    decreases v.len() - i,
{
    if i >= v.len() {
        Seq::empty()
    } else {
        seq![',', ' '] + decimal(v[i] as nat) + list_tail(v, i + 1)
    }
}

/// Numbers in brackets, separated by commas.
pub open spec fn list_text(v: Seq<u64>) -> Seq<char> {
    if v.len() == 0 {
        seq!['[', ']']
    } else {
        seq!['['] + decimal(v[0] as nat) + list_tail(v, 1) + seq![']']
    }
}

/// Appends numbers in brackets, separated by commas.
pub fn push_list(s: &mut String, v: &[u64])
    ensures
        final(s)@ == old(s)@ + list_text(v@),
{
    proof {
        reveal_strlit("[");
        reveal_strlit("]");
        reveal_strlit(", ");
    }
    s.append("[");
    if v.len() > 0 {
        push_decimal(s, v[0]);
        let mut i: usize = 1;
        assert(s@ + list_tail(v@, 1) =~= old(s)@ + (seq!['['] + decimal(v@[0] as nat) + list_tail(
            v@,
            1,
        )));
        while i < v.len()
            invariant
                1 <= i <= v@.len(),
                ", "@ =~= seq![',', ' '],
                s@ + list_tail(v@, i as int) == old(s)@ + (seq!['['] + decimal(v@[0] as nat)
                    + list_tail(v@, 1)),
            decreases v@.len() - i,
        {
            let ghost before = s@;
            s.append(", ");
            push_decimal(s, v[i]);
            assert(s@ + list_tail(v@, i + 1) =~= before + list_tail(v@, i as int));
            i += 1;
        }
        assert(s@ =~= s@ + list_tail(v@, i as int));
    }
    s.append("]");
    assert(s@ =~= old(s)@ + list_text(v@));
}

/// The character is white space, as Unicode defines it.
pub open spec fn white(c: char) -> bool {
    let u = c as u32;
    ||| 0x9 <= u <= 0xd
    ||| u == 0x20
    ||| u == 0x85
    ||| u == 0xa0
    ||| u == 0x1680
    ||| 0x2000 <= u <= 0x200a
    ||| u == 0x2028
    ||| u == 0x2029
    ||| u == 0x202f
    ||| u == 0x205f
    ||| u == 0x3000
}

/// The text without leading white space.
pub open spec fn trimmed_start(s: Seq<char>) -> Seq<char>
    decreases s.len(),
{
    if s.len() > 0 && white(s[0]) {
        trimmed_start(s.drop_first())
    } else {
        s
    }
}

/// The text without trailing white space.
pub open spec fn trimmed_end(s: Seq<char>) -> Seq<char>
    decreases s.len(),
{
    if s.len() > 0 && white(s.last()) {
        trimmed_end(s.drop_last())
    } else {
        s
    }
}

/// The text without white space at its ends.
pub open spec fn trimmed(s: Seq<char>) -> Seq<char> {
    trimmed_end(trimmed_start(s))
}

fn is_white(c: char) -> (r: bool)
    ensures
        r == white(c),
{
    let u: u32 = c as u32;
    (0x9 <= u && u <= 0xd) || u == 0x20 || u == 0x85 || u == 0xa0 || u == 0x1680 || (0x2000 <= u
        && u <= 0x200a) || u == 0x2028 || u == 0x2029 || u == 0x202f || u == 0x205f || u == 0x3000
}

/// The text without white space at its ends.
pub fn trim(s: &str) -> (r: &str)
    ensures
        r@ == trimmed(s@),
{
    let n: usize = s.unicode_len();
    let mut i: usize = 0;
    assert(s@.subrange(0, n as int) =~= s@);
    while i < n && is_white(s.get_char(i))
        invariant
            n == s@.len(),
            i <= n,
            trimmed_start(s@) == trimmed_start(s@.subrange(i as int, n as int)),
        decreases n - i,
    {
        assert(s@.subrange(i as int, n as int).drop_first() =~= s@.subrange(i + 1, n as int));
        i += 1;
    }
    let ghost start = s@.subrange(i as int, n as int);
    assert(trimmed_start(start) == start);
    let mut j: usize = n;
    while j > i && is_white(s.get_char(j - 1))
        invariant
            n == s@.len(),
            i <= j <= n,
            start == s@.subrange(i as int, n as int),
            trimmed_end(start) == trimmed_end(s@.subrange(i as int, j as int)),
        decreases j,
    {
        assert(s@.subrange(i as int, j as int).drop_last() =~= s@.subrange(i as int, j - 1));
        j -= 1;
    }
    s.substring_char(i, j)
}

/// The number that a text stands for: decimal digits, after a plus sign if there is one, of
/// a value that fits `usize`.
pub open spec fn parsed(s: Seq<char>) -> Option<usize> {
    let body = if s.len() > 0 && s[0] == '+' {
        s.drop_first()
    } else {
        s
    };
    if body.len() > 0 && all_digits(body) && decimal_value(body) <= usize::MAX {
        Some(decimal_value(body) as usize)
    } else {
        None
    }
}

proof fn lemma_value_grows(s: Seq<char>, n: int)
    requires
        0 <= n <= s.len(),
        all_digits(s),
    ensures
        decimal_value(s.subrange(0, n)) <= decimal_value(s),
    decreases s.len(),
{
    if n == s.len() {
        assert(s.subrange(0, n) =~= s);
    } else {
        assert forall|i: int| 0 <= i < s.len() - 1 implies digit_value(
            #[trigger] s.drop_last()[i],
        ) < 10 by {
            assert(s[i] == s.drop_last()[i]);
        }
        lemma_value_grows(s.drop_last(), n);
        assert(s.drop_last().subrange(0, n) =~= s.subrange(0, n));
        assert(digit_value(s.last()) >= 0);
    }
}

/// Reads a number.
pub fn parse_usize(s: &str) -> (r: Option<usize>)
    ensures
        r == parsed(s@),
{
    let n: usize = s.unicode_len();
    let from: usize = if n > 0 && s.get_char(0) == '+' {
        1
    } else {
        0
    };
    let ghost body = s@.subrange(from as int, n as int);
    proof {
        if from == 1 {
            assert(body =~= s@.drop_first());
        } else {
            assert(body =~= s@);
        }
    }
    if from == n {
        return None;
    }
    let mut value: usize = 0;
    let mut i: usize = from;
    assert(body.subrange(0, 0) =~= Seq::empty());
    while i < n
        invariant
            n == s@.len(),
            from <= i <= n,
            body == s@.subrange(from as int, n as int),
            body.len() > 0,
            parsed(s@) == (if all_digits(body) && decimal_value(body) <= usize::MAX {
                Some(decimal_value(body) as usize)
            } else {
                None
            }),
            value == decimal_value(body.subrange(0, i - from)),
            forall|j: int| 0 <= j < i - from ==> digit_value(#[trigger] body[j]) < 10,
        decreases n - i,
    {
        let c: u32 = s.get_char(i) as u32;
        assert(body[i - from] == s@[i as int]);
        if c < 48 || c > 57 {
            return None;
        }
        let d: usize = (c - 48) as usize;
        let ghost before = body.subrange(0, i - from);
        proof {
            let after = body.subrange(0, i - from + 1);
            assert(after.drop_last() =~= before);
            assert(decimal_value(after) == 10 * value + d);
            if all_digits(body) {
                lemma_value_grows(body, i - from + 1);
            }
        }
        match value.checked_mul(10) {
            None => {
                return None;
            },
            Some(tens) => match tens.checked_add(d) {
                None => {
                    return None;
                },
                Some(v) => {
                    value = v;
                },
            },
        }
        i += 1;
    }
    assert(body.subrange(0, n - from) =~= body);
    Some(value)
}

/// A number written in decimal is read back.
pub proof fn parse_reads_decimal(n: usize)
    ensures
        parsed(decimal(n as nat)) == Some(n),
{
    decimal_round_trip(n as nat);
    let s = decimal(n as nat);
    assert(digit_value(s[0]) < 10);
}

/// The words joined by single spaces.
pub open spec fn joined(words: Seq<String>) -> Seq<char>
    decreases words.len(),
{
    if words.len() == 0 {
        Seq::empty()
    } else if words.len() == 1 {
        words[0]@
    } else {
        joined(words.drop_last()) + seq![' '] + words.last()@
    }
}

/// The words joined by single spaces.
pub fn join(words: &[String]) -> (r: String)
    ensures
        r@ == joined(words@),
{
    let mut s: String = String::new();
    let mut i: usize = 0;
    proof {
        reveal_strlit(" ");
    }
    assert(words@.subrange(0, 0) =~= Seq::empty());
    while i < words.len()
        invariant
            i <= words@.len(),
            " "@ =~= seq![' '],
            s@ == joined(words@.subrange(0, i as int)),
        decreases words@.len() - i,
    {
        let ghost upto = words@.subrange(0, i + 1);
        assert(upto.drop_last() =~= words@.subrange(0, i as int));
        if i > 0 {
            s.append(" ");
        }
        s.append(words[i].as_str());
        assert(s@ =~= joined(upto));
        i += 1;
    }
    assert(words@.subrange(0, words@.len() as int) =~= words@);
    s
}

/// Trimming leaves nothing to trim.
pub proof fn trim_is_idempotent(s: Seq<char>)
    ensures
        trimmed(trimmed(s)) == trimmed(s),
{
    let a = trimmed_start(s);
    lemma_trimmed_start(s);
    lemma_trimmed_end(a);
    let b = trimmed_end(a);
    if b.len() > 0 {
        assert(b[0] == a[0]);
    }
}

proof fn lemma_trimmed_start(s: Seq<char>)
    ensures
        trimmed_start(s).len() == 0 || !white(trimmed_start(s)[0]),
    decreases s.len(),
{
    if s.len() > 0 && white(s[0]) {
        lemma_trimmed_start(s.drop_first());
    }
}

proof fn lemma_trimmed_end(s: Seq<char>)
    ensures
        trimmed_end(s).len() <= s.len(),
        trimmed_end(s) == s.subrange(0, trimmed_end(s).len() as int),
        trimmed_end(s).len() == 0 || !white(trimmed_end(s).last()),
    decreases s.len(),
{
    if s.len() > 0 && white(s.last()) {
        lemma_trimmed_end(s.drop_last());
        let e = trimmed_end(s);
        assert(s.drop_last().subrange(0, e.len() as int) =~= s.subrange(0, e.len() as int));
    } else {
        assert(s.subrange(0, s.len() as int) =~= s);
    }
}

/// The bytes of a text, one per character.
pub open spec fn ascii(text: Seq<char>) -> Seq<u8> {
    Seq::new(text.len(), |i: int| text[i] as u8)
}

/// Whether bytes spell a text, one per character.
pub fn spells(b: &[u8], text: &str) -> (r: bool)
    ensures
        r == (b@ == ascii(text@)),
{
    let n: usize = text.unicode_len();
    if b.len() != n {
        return false;
    }
    let mut i: usize = 0;
    while i < n
        invariant
            n == text@.len(),
            b@.len() == n,
            i <= n,
            forall|j: int| 0 <= j < i ==> b@[j] == ascii(text@)[j],
        decreases n - i,
    {
        let c: char = text.get_char(i);
        if b[i] != #[verifier::truncate] (c as u8) {
            assert(b@[i as int] != ascii(text@)[i as int]);
            return false;
        }
        i += 1;
    }
    assert(b@ =~= ascii(text@));
    true
}

/// Joining does not care where a list of words is cut: the two parts joined, with one space
/// between them, are the whole joined.
pub proof fn joining_cuts_anywhere(a: Seq<String>, b: Seq<String>)
    requires
        a.len() > 0,
        b.len() > 0,
    ensures
        joined(a + b) == joined(a) + seq![' '] + joined(b),
    decreases b.len(),
{
    assert((a + b).drop_last() =~= a + b.drop_last());
    assert((a + b).last() == b.last());
    if b.len() == 1 {
        assert(a + b.drop_last() =~= a);
    } else {
        joining_cuts_anywhere(a, b.drop_last());
        assert(joined(a + b) =~= joined(a) + seq![' '] + joined(b));
    }
}

/// One word is itself, and no words are nothing.
pub proof fn joining_few_words(word: String)
    ensures
        joined(Seq::empty()) == Seq::<char>::empty(),
        joined(seq![word]) == word@,
{
}

/// Trimming cuts white space off both ends and nothing else: what is left is the part from
/// `r.0` to `r.1`, all before and after it is white, and neither of its ends is.
pub proof fn trimming_cuts_white_ends(s: Seq<char>) -> (r: (int, int))
    ensures
        0 <= r.0 <= r.1 <= s.len(),
        trimmed(s) == s.subrange(r.0, r.1),
        forall|k: int| 0 <= k < r.0 ==> white(#[trigger] s[k]),
        forall|k: int| r.1 <= k < s.len() ==> white(#[trigger] s[k]),
        r.0 < r.1 ==> !white(s[r.0]) && !white(s[r.1 - 1]),
{
    let i = lemma_start_cut(s);
    let a = s.subrange(i, s.len() as int);
    let j = lemma_end_cut(a);
    assert(trimmed(s) =~= s.subrange(i, i + j));
    assert forall|k: int| i + j <= k < s.len() implies white(#[trigger] s[k]) by {
        assert(a[k - i] == s[k]);
    }
    if j > 0 {
        assert(a[0] == s[i] && a[j - 1] == s[i + j - 1]);
    }
    (i, i + j)
}

proof fn lemma_start_cut(s: Seq<char>) -> (i: int)
    ensures
        0 <= i <= s.len(),
        trimmed_start(s) == s.subrange(i, s.len() as int),
        forall|k: int| 0 <= k < i ==> white(#[trigger] s[k]),
        i < s.len() ==> !white(s[i]),
    decreases s.len(),
{
    if s.len() > 0 && white(s[0]) {
        let r = s.drop_first();
        let i = lemma_start_cut(r);
        assert(r.subrange(i, r.len() as int) =~= s.subrange(i + 1, s.len() as int));
        assert forall|k: int| 0 <= k < i + 1 implies white(#[trigger] s[k]) by {
            if k > 0 {
                assert(r[k - 1] == s[k]);
            }
        }
        i + 1
    } else {
        assert(s.subrange(0, s.len() as int) =~= s);
        0
    }
}

proof fn lemma_end_cut(s: Seq<char>) -> (j: int)
    ensures
        0 <= j <= s.len(),
        trimmed_end(s) == s.subrange(0, j),
        forall|k: int| j <= k < s.len() ==> white(#[trigger] s[k]),
        j > 0 ==> !white(s[j - 1]),
    decreases s.len(),
{
    if s.len() > 0 && white(s.last()) {
        let r = s.drop_last();
        let j = lemma_end_cut(r);
        assert(r.subrange(0, j) =~= s.subrange(0, j));
        assert forall|k: int| j <= k < s.len() implies white(#[trigger] s[k]) by {
            if k < s.len() - 1 {
                assert(r[k] == s[k]);
            }
        }
        j
    } else {
        assert(s.subrange(0, s.len() as int) =~= s);
        s.len() as int
    }
}

/// A plus sign in front of a number that has none changes nothing.
pub proof fn a_plus_sign_changes_nothing(s: Seq<char>)
    requires
        s.len() > 0 ==> s[0] != '+',
    ensures
        parsed(seq!['+'] + s) == parsed(s),
{
    assert((seq!['+'] + s).drop_first() =~= s);
}

/// The first digits of a number count ten times as much as they would without the last one.
pub proof fn digits_have_place_values(n: nat, d: nat)
    requires
        n > 0,
        d < 10,
    ensures
        decimal(10 * n + d) == decimal(n) + decimal(d),
{
    assert((10 * n + d) / 10 == n);
    assert((10 * n + d) % 10 == d);
    assert(decimal(10 * n + d) =~= decimal(n) + decimal(d));
}

} // verus!
