use vstd::prelude::*;
use crate::model::{labels, nat_seq, Poll, PollQuestion, PollResponse, PollResult, ResponseView};
use crate::text::{decimal, push_char, push_decimal};

verus! {

/// The percent-decoded (name, value) pairs of a form submission, in order.
pub uninterp spec fn form_pairs(b: Seq<u8>) -> Seq<(Seq<char>, Seq<char>)>;

pub open spec fn pairs_view(p: Seq<(String, String)>) -> Seq<(Seq<char>, Seq<char>)> {
    p.map_values(|x: (String, String)| (x.0@, x.1@))
}

/// Relies on `form_urlencoded::parse` (reached through ammonia's `url`
/// re-export), with `into_owned`: the submission's (name, value) pairs in order.
#[verifier::external_body]
fn parse_form(b: &[u8]) -> (r: Vec<(String, String)>)
    ensures
        pairs_view(r@) == form_pairs(b@),
{
    ammonia::url::form_urlencoded::parse(b).into_owned().collect()
}

/// The value submitted under name `k`; where a name was sent more than once,
/// the last value counts.
pub open spec fn lookup(pairs: Seq<(Seq<char>, Seq<char>)>, k: Seq<char>) -> Option<Seq<char>>
    decreases pairs.len(),
{
    if pairs.len() == 0 {
        None
    } else if pairs.last().0 == k {
        Some(pairs.last().1)
    } else {
        lookup(pairs.drop_last(), k)
    }
}

/// The field name of question `i`: `q{i}`.
pub open spec fn qkey(i: nat) -> Seq<char> {
    seq!['q'] + decimal(i)
}

/// The field name of option `o` of multiple choice question `i`: `q{i}_{o}`.
pub open spec fn okey(i: nat, o: nat) -> Seq<char> {
    seq!['q'] + decimal(i) + seq!['_'] + decimal(o)
}

/// The first position at which `v` stands in `s`.
pub open spec fn first_match(s: Seq<Seq<char>>, v: Seq<char>) -> Option<nat>
    decreases s.len(),
{
    if s.len() == 0 {
        None
    } else {
        match first_match(s.drop_last(), v) {
            Some(k) => Some(k),
            None => if s.last() == v {
                Some((s.len() - 1) as nat)
            } else {
                None
            },
        }
    }
}

/// The option chosen for a single choice question: the first option with the
/// submitted label, and the first option where the value is missing or unknown.
pub open spec fn single_index(options: Seq<Seq<char>>, value: Option<Seq<char>>) -> nat {
    match value {
        Some(v) => match first_match(options, v) {
            Some(k) => k,
            None => 0,
        },
        None => 0,
    }
}

/// The options among the first `n` of question `i` whose field was submitted,
/// ascending.
pub open spec fn selected(i: nat, pairs: Seq<(Seq<char>, Seq<char>)>, n: nat) -> Seq<nat>
    decreases n,
{
    if n == 0 {
        Seq::empty()
    } else if lookup(pairs, okey(i, (n - 1) as nat)) is Some {
        selected(i, pairs, (n - 1) as nat).push((n - 1) as nat)
    } else {
        selected(i, pairs, (n - 1) as nat)
    }
}

/// The answer to question `q`, at position `i`, read from a submission.
pub open spec fn decode_entry(q: PollQuestion, i: nat, pairs: Seq<(Seq<char>, Seq<char>)>) -> ResponseView {
    match q {
        PollQuestion::Text { .. } => ResponseView::Text(
            match lookup(pairs, qkey(i)) {
                Some(t) => t,
                None => Seq::empty(),
            },
        ),
        PollQuestion::Choice { options, multiple, .. } => if multiple {
            ResponseView::MultipleChoice(selected(i, pairs, options@.len()))
        } else {
            ResponseView::SingleChoice(single_index(labels(options@), lookup(pairs, qkey(i))))
        },
    }
}

/// The answers to all questions, one per question, in order.
pub open spec fn decode_all(entries: Seq<PollQuestion>, pairs: Seq<(Seq<char>, Seq<char>)>) -> Seq<
    ResponseView,
> {
    Seq::new(entries.len(), |i: int| decode_entry(entries[i], i as nat, pairs))
}

/// The value submitted under `k`, the last one where there are several.
fn lookup_exec<'a>(pairs: &'a Vec<(String, String)>, k: &String) -> (r: Option<&'a String>)
    ensures
        match r {
            Some(v) => lookup(pairs_view(pairs@), k@) == Some(v@),
            None => lookup(pairs_view(pairs@), k@) is None,
        },
{
    let ghost pv = pairs_view(pairs@);
    let mut j: usize = pairs.len();
    assert(pv.subrange(0, j as int) =~= pv);
    while j > 0
        invariant
            j <= pairs@.len(),
            pv == pairs_view(pairs@),
            lookup(pv, k@) == lookup(pv.subrange(0, j as int), k@),
        decreases j,
    {
        let ghost sub = pv.subrange(0, j as int);
        assert(sub.drop_last() =~= pv.subrange(0, j - 1));
        assert(sub.last() == (pairs@[j - 1].0@, pairs@[j - 1].1@));
        if pairs[j - 1].0 == *k {
            return Some(&pairs[j - 1].1);
        }
        j = j - 1;
    }
    None
}

fn qkey_exec(i: usize) -> (r: String)
    ensures
        r@ == qkey(i as nat),
{
    let mut s = String::new();
    push_char(&mut s, 'q');
    push_decimal(&mut s, i);
    assert(s@ =~= qkey(i as nat));
    s
}

fn okey_exec(i: usize, o: usize) -> (r: String)
    ensures
        r@ == okey(i as nat, o as nat),
{
    let mut s = String::new();
    push_char(&mut s, 'q');
    push_decimal(&mut s, i);
    push_char(&mut s, '_');
    push_decimal(&mut s, o);
    assert(s@ =~= okey(i as nat, o as nat));
    s
}

/// The position of the first option labelled `v`, or the first option where
/// none is.
fn option_position(options: &Vec<String>, v: &String) -> (r: usize)
    ensures
        r == single_index(labels(options@), Some(v@)),
{
    let ghost ls = labels(options@);
    let mut k: usize = 0;
    while k < options.len()
        invariant
            k <= options@.len(),
            ls == labels(options@),
            first_match(ls.subrange(0, k as int), v@) is None,
        decreases options@.len() - k,
    {
        let ghost next = ls.subrange(0, k + 1);
        assert(next.drop_last() =~= ls.subrange(0, k as int));
        if options[k] == *v {
            proof {
                lemma_first_match_prefix(ls, v@, (k + 1) as nat);
            }
            return k;
        }
        k = k + 1;
    }
    assert(ls.subrange(0, options@.len() as int) =~= ls);
    0
}

/// A match found in a prefix is the first match of the whole sequence.
proof fn lemma_first_match_prefix(s: Seq<Seq<char>>, v: Seq<char>, n: nat)
    requires
        n <= s.len(),
        first_match(s.subrange(0, n as int), v) is Some,
    ensures
        first_match(s, v) == first_match(s.subrange(0, n as int), v),
    decreases s.len() - n,
{
    if n < s.len() {
        let next = s.subrange(0, (n + 1) as int);
        assert(next.drop_last() =~= s.subrange(0, n as int));
        lemma_first_match_prefix(s, v, n + 1);
    } else {
        assert(s.subrange(0, n as int) =~= s);
    }
}

/// The answer to question `q`, at position `i`, read from the pairs.
fn decode_entry_exec(q: &PollQuestion, i: usize, pairs: &Vec<(String, String)>) -> (r: PollResponse)
    ensures
        r@ == decode_entry(*q, i as nat, pairs_view(pairs@)),
{
    let ghost pv = pairs_view(pairs@);
    match q {
        PollQuestion::Text { .. } => {
            let key = qkey_exec(i);
            match lookup_exec(pairs, &key) {
                Some(value) => PollResponse::Text(value.clone()),
                None => PollResponse::Text(String::new()),
            }
        },
        PollQuestion::Choice { options, multiple, .. } => {
            if *multiple {
                let mut opt: Vec<usize> = Vec::new();
                let mut o: usize = 0;
                while o < options.len()
                    invariant
                        o <= options@.len(),
                        pv == pairs_view(pairs@),
                        nat_seq(opt@) == selected(i as nat, pv, o as nat),
                    decreases options@.len() - o,
                {
                    let key = okey_exec(i, o);
                    if lookup_exec(pairs, &key).is_some() {
                        opt.push(o);
                    }
                    assert(nat_seq(opt@) =~= selected(i as nat, pv, (o + 1) as nat));
                    o = o + 1;
                }
                PollResponse::MultipleChoice(opt)
            } else {
                let key = qkey_exec(i);
                match lookup_exec(pairs, &key) {
                    Some(value) => PollResponse::SingleChoice(option_position(options, value)),
                    None => PollResponse::SingleChoice(0),
                }
            }
        },
    }
}

/// Reads the answers to `poll` from the (name, value) pairs of a submission.
/// Text fields that are missing give empty answers; single choices that are
/// missing or unknown give the first option; multiple choices give the
/// options whose field is present, ascending.
pub fn decode_pairs(poll: &Poll, pairs: &Vec<(String, String)>) -> (r: PollResult)
    ensures
        r@ == decode_all(poll.entries@, pairs_view(pairs@)),
{
    let mut answers: Vec<PollResponse> = Vec::new();
    let mut i: usize = 0;
    while i < poll.entries.len()
        invariant
            i <= poll.entries@.len(),
            answers@.len() == i,
            forall|j: int|
                0 <= j < i ==> #[trigger] answers@[j]@ == decode_entry(
                    poll.entries@[j],
                    j as nat,
                    pairs_view(pairs@),
                ),
        decreases poll.entries@.len() - i,
    {
        let a = decode_entry_exec(&poll.entries[i], i, pairs);
        answers.push(a);
        i = i + 1;
    }
    let r = PollResult(answers);
    assert(r@ =~= decode_all(poll.entries@, pairs_view(pairs@)));
    r
}

/// The raw bytes of a submitted poll form (`application/x-www-form-urlencoded`).
pub struct PollFormQuery(pub Vec<u8>);

impl PollFormQuery {
    /// Reads the answers to `poll` from this submission. Gaps in individual
    /// fields fall back to defaults, so every submission decodes.
    pub fn parse(&self, poll: &Poll) -> (r: Result<PollResult, String>)
        ensures
            match r {
                Ok(res) => res@ == decode_all(poll.entries@, form_pairs(self.0@)),
                Err(_) => false,
            },
    {
        let pairs = parse_form(self.0.as_slice());
        Ok(decode_pairs(poll, &pairs))
    }
}

/// What `first_match` finds: a position holding `v` with no earlier one, or
/// nothing where `v` does not occur.
pub proof fn lemma_first_match(s: Seq<Seq<char>>, v: Seq<char>)
    ensures
        match first_match(s, v) {
            Some(k) => k < s.len() && s[k as int] == v && forall|j: int|
                0 <= j < k ==> s[j] != v,
            None => forall|j: int| 0 <= j < s.len() ==> s[j] != v,
        },
    decreases s.len(),
{
    if s.len() > 0 {
        let p = s.drop_last();
        lemma_first_match(p, v);
        assert forall|j: int| 0 <= j < p.len() implies p[j] == s[j] by {}
    }
}

/// A single choice question decodes the submitted label of option `k` to `k`,
/// where no earlier option has that label.
pub proof fn lemma_single_choice_label(
    question: String,
    options: Vec<String>,
    i: nat,
    pairs: Seq<(Seq<char>, Seq<char>)>,
    k: int,
)
    requires
        0 <= k < options@.len(),
        lookup(pairs, qkey(i)) == Some(options@[k]@),
        forall|j: int| 0 <= j < k ==> options@[j]@ != options@[k]@,
    ensures
        decode_entry(PollQuestion::Choice { question, options, multiple: false }, i, pairs)
            == ResponseView::SingleChoice(k as nat),
{
    let ls = labels(options@);
    lemma_first_match(ls, options@[k]@);
    match first_match(ls, options@[k]@) {
        Some(m) => {
            if m < k {
                assert(ls[m as int] == options@[m as int]@);
            } else if m > k {
                assert(ls[k] == options@[k]@);
            }
        },
        None => {
            assert(ls[k] == options@[k]@);
        },
    }
}

/// A single choice question decodes a missing value, or one that is no
/// option's label, to the first option.
pub proof fn lemma_single_choice_unknown(
    question: String,
    options: Vec<String>,
    i: nat,
    pairs: Seq<(Seq<char>, Seq<char>)>,
)
    requires
        forall|j: int| 0 <= j < options@.len() ==> Some(options@[j]@) != lookup(pairs, qkey(i)),
    ensures
        decode_entry(PollQuestion::Choice { question, options, multiple: false }, i, pairs)
            == ResponseView::SingleChoice(0),
{
    let ls = labels(options@);
    match lookup(pairs, qkey(i)) {
        Some(v) => {
            lemma_first_match(ls, v);
            match first_match(ls, v) {
                Some(m) => {
                    assert(ls[m as int] == options@[m as int]@);
                },
                None => {},
            }
        },
        None => {},
    }
}

/// The selected options of a multiple choice question are exactly those
/// below `n` whose field was submitted, in ascending order.
pub proof fn lemma_selected(i: nat, pairs: Seq<(Seq<char>, Seq<char>)>, n: nat)
    ensures
        forall|o: nat|
            selected(i, pairs, n).contains(o) <==> (o < n && lookup(pairs, okey(i, o)) is Some),
        forall|a: int, b: int|
            0 <= a < b < selected(i, pairs, n).len() ==> selected(i, pairs, n)[a] < selected(
                i,
                pairs,
                n,
            )[b],
        forall|a: int| 0 <= a < selected(i, pairs, n).len() ==> selected(i, pairs, n)[a] < n,
    decreases n,
{
    if n > 0 {
        let m = (n - 1) as nat;
        lemma_selected(i, pairs, m);
        let prev = selected(i, pairs, m);
        let cur = selected(i, pairs, n);
        assert forall|o: nat| cur.contains(o) <==> (o < n && lookup(pairs, okey(i, o)) is Some) by {
            if lookup(pairs, okey(i, m)) is Some {
                assert(cur == prev.push(m));
                if o == m {
                    assert(cur[prev.len() as int] == m);
                }
                if cur.contains(o) {
                    let x = choose|x: int| 0 <= x < cur.len() && cur[x] == o;
                    if x < prev.len() {
                        assert(prev[x] == o);
                    }
                }
                if prev.contains(o) {
                    let x = choose|x: int| 0 <= x < prev.len() && prev[x] == o;
                    assert(cur[x] == o);
                }
            }
        }
    }
}

/// A multiple choice question decodes to the options whose field `q{i}_{o}`
/// was submitted, whatever its value, in ascending order.
pub proof fn lemma_multiple_choice_decoding(
    question: String,
    options: Vec<String>,
    i: nat,
    pairs: Seq<(Seq<char>, Seq<char>)>,
)
    ensures
        ({
            let r = decode_entry(PollQuestion::Choice { question, options, multiple: true }, i, pairs);
            &&& r is MultipleChoice
            &&& forall|o: nat|
                r->MultipleChoice_0.contains(o) <==> (o < options@.len() && lookup(pairs, okey(i, o)) is Some)
            &&& forall|a: int, b: int|
                0 <= a < b < r->MultipleChoice_0.len() ==> r->MultipleChoice_0[a] < r->MultipleChoice_0[b]
        }),
{
    lemma_selected(i, pairs, options@.len());
}

} // verus!
