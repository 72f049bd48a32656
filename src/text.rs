use vstd::prelude::*;

verus! {

/// The decimal digit for `d < 10`.
pub open spec fn digit_char(d: nat) -> char {
    seq!['0', '1', '2', '3', '4', '5', '6', '7', '8', '9'][d as int]
}

/// The decimal representation of `n`, without leading zeros.
pub open spec fn decimal(n: nat) -> Seq<char>
    decreases n,
{
    if n < 10 {
        seq![digit_char(n)]
    } else {
        decimal(n / 10).push(digit_char(n % 10))
    }
}

/// What one character becomes in markup: the characters that are significant
/// in markup are written as entities.
pub open spec fn escape_char(c: char) -> Seq<char> {
    if c == '&' {
        "&amp;"@
    } else if c == '<' {
        "&lt;"@
    } else if c == '>' {
        "&gt;"@
    } else if c == '"' {
        "&quot;"@
    } else if c == '\'' {
        "&#39;"@
    } else {
        seq![c]
    }
}

/// A text made safe to stand inside markup.
pub open spec fn escaped(s: Seq<char>) -> Seq<char>
    decreases s.len(),
{
    if s.len() == 0 {
        Seq::empty()
    } else {
        escaped(s.drop_last()) + escape_char(s.last())
    }
}

/// `p` occurs in `s` at position `i`.
pub open spec fn occurs_at(s: Seq<char>, p: Seq<char>, i: int) -> bool {
    0 <= i && i + p.len() <= s.len() && s.subrange(i, i + p.len()) == p
}

/// `i` is the first position at which `p` occurs in `s`.
pub open spec fn first_at(s: Seq<char>, p: Seq<char>, i: int) -> bool {
    occurs_at(s, p, i) && forall|j: int| 0 <= j < i ==> !#[trigger] occurs_at(s, p, j)
}

/// `p` occurs somewhere in `s`.
pub open spec fn occurs(s: Seq<char>, p: Seq<char>) -> bool {
    exists|i: int| #[trigger] occurs_at(s, p, i)
}

/// The position of the first occurrence of `p` in `s`, where there is one.
pub open spec fn first_index(s: Seq<char>, p: Seq<char>) -> int
    recommends
        occurs(s, p),
{
    choose|i: int| first_at(s, p, i)
}

/// What stands in `s` before the first occurrence of `p`, and what after it.
pub open spec fn split_first(s: Seq<char>, p: Seq<char>) -> Option<(Seq<char>, Seq<char>)> {
    if occurs(s, p) {
        let i = first_index(s, p);
        Some((s.subrange(0, i), s.subrange(i + p.len(), s.len() as int)))
    } else {
        None
    }
}

/// The first occurrence of `p` in `s` replaced by `t`; `s` itself where `p`
/// does not occur.
pub open spec fn substitute_first(s: Seq<char>, p: Seq<char>, t: Seq<char>) -> Seq<char> {
    match split_first(s, p) {
        Some((a, b)) => a + t + b,
        None => s,
    }
}

/// Where `p` occurs in `s`, there is a first position of it.
pub proof fn lemma_first_exists(s: Seq<char>, p: Seq<char>, i: int)
    requires
        occurs_at(s, p, i),
    ensures
        exists|k: int| first_at(s, p, k),
    decreases i,
{
    if forall|j: int| 0 <= j < i ==> !#[trigger] occurs_at(s, p, j) {
        assert(first_at(s, p, i));
    } else {
        let j = choose|j: int| 0 <= j < i && #[trigger] occurs_at(s, p, j);
        lemma_first_exists(s, p, j);
    }
}

/// The first position of an occurrence is unique.
pub proof fn lemma_first_unique(s: Seq<char>, p: Seq<char>, i: int, j: int)
    requires
        first_at(s, p, i),
        first_at(s, p, j),
    ensures
        i == j,
{
    if i < j {
        assert(occurs_at(s, p, i));
    } else if j < i {
        assert(occurs_at(s, p, j));
    }
}

/// Relies on `str::split_once` with a string pattern: it splits at the first
/// occurrence of the pattern, and gives `None` where the pattern does not occur.
#[verifier::external_body]
fn split_once_str<'a>(s: &'a str, p: &str) -> (r: Option<(&'a str, &'a str)>)
    ensures
        match r {
            None => !occurs(s@, p@),
            Some((a, b)) => first_at(s@, p@, a@.len() as int) && s@ == a@ + p@ + b@,
        },
{
    s.split_once(p)
}

/// Splits `s` at the first occurrence of `p`.
pub fn split_first_exec<'a>(s: &'a str, p: &str) -> (r: Option<(&'a str, &'a str)>)
    ensures
        match r {
            None => split_first(s@, p@) is None,
            Some((a, b)) => split_first(s@, p@) == Some((a@, b@)),
        },
{
    let r = split_once_str(s, p);
    match r {
        None => {
            r
        },
        Some((a, b)) => {
            proof {
                let i = a@.len() as int;
                assert(occurs_at(s@, p@, i));
                assert(occurs(s@, p@));
                let k = first_index(s@, p@);
                lemma_first_exists(s@, p@, i);
                lemma_first_unique(s@, p@, i, k);
                assert(s@.subrange(0, i) =~= a@);
                assert(s@.subrange(i + p@.len(), s@.len() as int) =~= b@);
            }
            r
        },
    }
}

/// Relies on `String::push`: the character is appended.
#[verifier::external_body]
pub(crate) fn push_char(s: &mut String, c: char)
    ensures
        final(s)@ == old(s)@.push(c),
{
    s.push(c)
}

/// The decimal digit for `d`.
fn digit(d: usize) -> (c: char)
    requires
        d < 10,
    ensures
        c == digit_char(d as nat),
{
    if d == 0 {
        '0'
    } else if d == 1 {
        '1'
    } else if d == 2 {
        '2'
    } else if d == 3 {
        '3'
    } else if d == 4 {
        '4'
    } else if d == 5 {
        '5'
    } else if d == 6 {
        '6'
    } else if d == 7 {
        '7'
    } else if d == 8 {
        '8'
    } else {
        '9'
    }
}

/// Appends the decimal representation of `n`.
pub fn push_decimal(s: &mut String, n: usize)
    ensures
        final(s)@ == old(s)@ + decimal(n as nat),
    decreases n,
{
    if n >= 10 {
        push_decimal(s, n / 10);
    }
    push_char(s, digit(n % 10));
    proof {
        if n >= 10 {
            assert(final(s)@ =~= old(s)@ + decimal(n as nat));
        } else {
            assert(final(s)@ =~= old(s)@ + decimal(n as nat));
        }
    }
}

/// Appends `t` with the characters that are significant in markup written as
/// entities.
pub fn push_escaped(s: &mut String, t: &str)
    ensures
        final(s)@ == old(s)@ + escaped(t@),
{
    let n = t.unicode_len();
    let ghost cs = t@;
    let ghost start = s@;
    let mut i: usize = 0;
    while i < n
        invariant
            cs == t@,
            n == cs.len(),
            i <= cs.len(),
            s@ == start + escaped(cs.subrange(0, i as int)),
        decreases cs.len() - i,
    {
        let c = t.get_char(i);
        if c == '&' {
            s.append("&amp;");
        } else if c == '<' {
            s.append("&lt;");
        } else if c == '>' {
            s.append("&gt;");
        } else if c == '"' {
            s.append("&quot;");
        } else if c == '\'' {
            s.append("&#39;");
        } else {
            push_char(s, c);
        }
        proof {
            let next = cs.subrange(0, i + 1);
            assert(next.drop_last() =~= cs.subrange(0, i as int));
            assert(next.last() == c);
            assert(s@ =~= start + escaped(next));
        }
        i = i + 1;
    }
    assert(cs.subrange(0, cs.len() as int) =~= t@);
}

} // verus!
