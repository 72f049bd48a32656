use vstd::prelude::*;
use crate::decode::{decode_all, decode_entry, first_match, lookup, okey, qkey, selected};
use crate::model::{labels, Poll, PollQuestion, ResponseView};
use crate::render::{multi_checked, single_checked, text_value};
use crate::text::{decimal, digit_char};

verus! {

/// The (name, value) pairs that the form of question `i` submits when the
/// reader changes nothing: an empty text, the first option of a single
/// choice, and no field of a multiple choice.
pub open spec fn default_pairs(q: PollQuestion, i: nat) -> Seq<(Seq<char>, Seq<char>)> {
    match q {
        PollQuestion::Text { .. } => seq![(qkey(i), text_value(None, i as int))],
        PollQuestion::Choice { options, multiple, .. } => if multiple {
            Seq::empty()
        } else {
            seq![(qkey(i), labels(options@)[0])]
        },
    }
}

/// The submission of the unchanged form of the first `n` questions.
pub open spec fn default_submission(entries: Seq<PollQuestion>, n: nat) -> Seq<
    (Seq<char>, Seq<char>),
>
    decreases n,
{
    if n == 0 {
        Seq::empty()
    } else {
        default_submission(entries, (n - 1) as nat) + default_pairs(entries[n - 1], (n - 1) as nat)
    }
}

/// The answers that an unchanged form stands for.
pub open spec fn default_record(entries: Seq<PollQuestion>) -> Seq<ResponseView> {
    Seq::new(
        entries.len(),
        |i: int|
            match entries[i] {
                PollQuestion::Text { .. } => ResponseView::Text(Seq::empty()),
                PollQuestion::Choice { multiple, .. } => if multiple {
                    ResponseView::MultipleChoice(Seq::empty())
                } else {
                    ResponseView::SingleChoice(0)
                },
            },
    )
}

proof fn lemma_digit_char(d: nat)
    requires
        d < 10,
    ensures
        digit_char(d) as u32 == 48 + d,
{
    let s = seq!['0', '1', '2', '3', '4', '5', '6', '7', '8', '9'];
    assert(s[0] == '0' && s[1] == '1' && s[2] == '2' && s[3] == '3' && s[4] == '4');
    assert(s[5] == '5' && s[6] == '6' && s[7] == '7' && s[8] == '8' && s[9] == '9');
}

proof fn lemma_decimal(n: nat)
    ensures
        decimal(n).len() >= 1,
        n >= 10 ==> decimal(n).len() >= 2,
        forall|k: int| 0 <= k < decimal(n).len() ==> 48 <= #[trigger] (decimal(n)[k] as u32) <= 57,
    decreases n,
{
    if n < 10 {
        lemma_digit_char(n);
    } else {
        lemma_decimal(n / 10);
        lemma_digit_char(n % 10);
        let d = decimal(n);
        let p = decimal(n / 10);
        assert forall|k: int| 0 <= k < d.len() implies 48 <= #[trigger] (d[k] as u32) <= 57 by {
            if k < p.len() {
                assert(d[k] == p[k]);
            }
        }
    }
}

proof fn lemma_decimal_injective(a: nat, b: nat)
    requires
        decimal(a) == decimal(b),
    ensures
        a == b,
    decreases a,
{
    lemma_decimal(a);
    lemma_decimal(b);
    if a < 10 && b < 10 {
        lemma_digit_char(a);
        lemma_digit_char(b);
    } else if a >= 10 && b >= 10 {
        let da = decimal(a);
        assert(decimal(a / 10) =~= da.drop_last());
        assert(decimal(b / 10) =~= decimal(b).drop_last());
        lemma_decimal_injective(a / 10, b / 10);
        lemma_digit_char(a % 10);
        lemma_digit_char(b % 10);
        assert(da.last() == digit_char(a % 10));
        assert(a == 10 * (a / 10) + a % 10);
        assert(b == 10 * (b / 10) + b % 10);
    }
}

proof fn lemma_qkey_injective(i: nat, j: nat)
    requires
        qkey(i) == qkey(j),
    ensures
        i == j,
{
    assert(decimal(i) =~= qkey(i).drop_first());
    assert(decimal(j) =~= qkey(j).drop_first());
    lemma_decimal_injective(i, j);
}

proof fn lemma_qkey_not_okey(i: nat, j: nat, o: nat)
    ensures
        qkey(i) != okey(j, o),
{
    lemma_decimal(i);
    if qkey(i) == okey(j, o) {
        let p: int = 1 + decimal(j).len() as int;
        assert(okey(j, o).len() == 2 + decimal(j).len() + decimal(o).len());
        assert(qkey(i).len() == 1 + decimal(i).len());
        assert(okey(j, o)[p] == '_');
        assert(qkey(i)[p] == decimal(i)[p - 1]);
        assert(('_' as u32) == 95);
    }
}

proof fn lemma_lookup_push(a: Seq<(Seq<char>, Seq<char>)>, x: (Seq<char>, Seq<char>), k: Seq<char>)
    ensures
        lookup(a + seq![x], k) == if x.0 == k {
            Some(x.1)
        } else {
            lookup(a, k)
        },
{
    let s = a + seq![x];
    assert(s.drop_last() =~= a);
    assert(s.last() == x);
}

/// No multiple choice field is in the submission of an unchanged form.
proof fn lemma_default_has_no_option_field(entries: Seq<PollQuestion>, n: nat, j: nat, o: nat)
    requires
        n <= entries.len(),
    ensures
        lookup(default_submission(entries, n), okey(j, o)) is None,
    decreases n,
{
    if n > 0 {
        let m = (n - 1) as nat;
        lemma_default_has_no_option_field(entries, m, j, o);
        let prev = default_submission(entries, m);
        let q = entries[m as int];
        lemma_qkey_not_okey(m, j, o);
        match q {
            PollQuestion::Text { .. } => {
                lemma_lookup_push(prev, (qkey(m), text_value(None, m as int)), okey(j, o));
            },
            PollQuestion::Choice { options, multiple, .. } => {
                if multiple {
                    assert(default_submission(entries, n) =~= prev);
                } else {
                    lemma_lookup_push(prev, (qkey(m), labels(options@)[0]), okey(j, o));
                }
            },
        }
    }
}

/// The field of question `i` holds, in the submission of an unchanged form,
/// the value that its input shows by default.
proof fn lemma_default_field(entries: Seq<PollQuestion>, n: nat, i: nat)
    requires
        i < n <= entries.len(),
    ensures
        default_pairs(entries[i as int], i).len() == 1 ==> lookup(default_submission(entries, n), qkey(i))
            == Some(default_pairs(entries[i as int], i)[0].1),
    decreases n,
{
    let m = (n - 1) as nat;
    let prev = default_submission(entries, m);
    let own = default_pairs(entries[m as int], m);
    if own.len() == 1 {
        assert(own =~= seq![own[0]]);
        lemma_lookup_push(prev, own[0], qkey(i));
        if m != i {
            if own[0].0 == qkey(i) {
                match entries[m as int] {
                    PollQuestion::Text { .. } => lemma_qkey_injective(m, i),
                    PollQuestion::Choice { .. } => lemma_qkey_injective(m, i),
                }
            }
            lemma_default_field(entries, m, i);
        }
    } else {
        match entries[m as int] {
            PollQuestion::Text { .. } => {},
            PollQuestion::Choice { .. } => {},
        }
        assert(default_submission(entries, n) =~= prev);
        if m != i {
            lemma_default_field(entries, m, i);
        }
    }
}

proof fn lemma_selected_none(i: nat, pairs: Seq<(Seq<char>, Seq<char>)>, n: nat)
    requires
        forall|o: nat| o < n ==> lookup(pairs, #[trigger] okey(i, o)) is None,
    ensures
        selected(i, pairs, n) == Seq::<nat>::empty(),
    decreases n,
{
    if n > 0 {
        lemma_selected_none(i, pairs, (n - 1) as nat);
    }
}

/// Decoding what the unchanged form of a poll submits gives the first option
/// of every single choice, no option of every multiple choice, and an empty
/// text for every text question; and the unchanged form shows exactly those
/// selections.
pub proof fn lemma_default_form_round_trip(p: Poll)
    requires
        forall|i: int| 0 <= i < p.entries@.len() ==> #[trigger] p.entries@[i].has_options(),
    ensures
        decode_all(p.entries@, default_submission(p.entries@, p.entries@.len())) == default_record(
            p.entries@,
        ),
        forall|i: int| #[trigger] text_value(None, i) == Seq::<char>::empty(),
        forall|i: int, o: int| #[trigger] single_checked(None, i, o) <==> o == 0,
        forall|i: int, o: int| !#[trigger] multi_checked(None, i, o),
{
    let es = p.entries@;
    let n = es.len();
    let subm = default_submission(es, n);
    assert forall|i: int| 0 <= i < n implies decode_entry(es[i], i as nat, subm) == #[trigger] default_record(
        es,
    )[i] by {
        assert(es[i].has_options());
        lemma_default_field(es, n, i as nat);
        match es[i] {
            PollQuestion::Text { .. } => {},
            PollQuestion::Choice { options, multiple, .. } => {
                if multiple {
                    assert forall|o: nat| o < options@.len() implies lookup(
                        subm,
                        #[trigger] okey(i as nat, o),
                    ) is None by {
                        lemma_default_has_no_option_field(es, n, i as nat, o);
                    }
                    lemma_selected_none(i as nat, subm, options@.len());
                } else {
                    let ls = labels(options@);
                    assert(ls.len() == options@.len());
                    crate::decode::lemma_first_match(ls, ls[0]);
                    match first_match(ls, ls[0]) {
                        Some(k) => {
                            if k > 0 {
                                assert(ls[0] != ls[0]);
                            }
                        },
                        None => {},
                    }
                }
            },
        }
    }
    assert(decode_all(es, subm) =~= default_record(es));
}

} // verus!
