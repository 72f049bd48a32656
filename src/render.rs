use vstd::prelude::*;
use crate::model::{Poll, PollQuestion, PollResponse, PollResult, ResponseView};
use crate::text::{decimal, escaped, push_decimal, push_escaped, split_first_exec, substitute_first};

verus! {

/// The token in rendered post content that the poll's form replaces.
pub const HTML_PLACEHOLDER: &'static str = "__poll_placeholder__";

/// The earlier answer to question `i`, where there is an earlier submission
/// that reaches that far.
pub open spec fn prior(voted: Option<Seq<ResponseView>>, i: int) -> Option<ResponseView> {
    match voted {
        Some(v) => if 0 <= i < v.len() {
            Some(v[i])
        } else {
            None
        },
        None => None,
    }
}

/// The text that a text input of question `i` is filled with.
pub open spec fn text_value(voted: Option<Seq<ResponseView>>, i: int) -> Seq<char> {
    match prior(voted, i) {
        Some(ResponseView::Text(t)) => t,
        _ => Seq::empty(),
    }
}

/// Whether option `o` of single choice question `i` is shown selected: the
/// earlier choice, and the first option where nothing was submitted before.
pub open spec fn single_checked(voted: Option<Seq<ResponseView>>, i: int, o: int) -> bool {
    match voted {
        None => o == 0,
        Some(_) => match prior(voted, i) {
            Some(ResponseView::SingleChoice(k)) => k == o,
            _ => false,
        },
    }
}

/// Whether option `o` of multiple choice question `i` is shown selected.
pub open spec fn multi_checked(voted: Option<Seq<ResponseView>>, i: int, o: int) -> bool {
    match prior(voted, i) {
        Some(ResponseView::MultipleChoice(v)) => v.contains(o as nat),
        _ => false,
    }
}

pub open spec fn checked_attr(b: bool) -> Seq<char> {
    if b {
        "checked"@
    } else {
        ""@
    }
}

/// The markup of option `o` of question `i`.
pub open spec fn option_html(
    i: int,
    o: int,
    label: Seq<char>,
    multiple: bool,
    voted: Option<Seq<ResponseView>>,
) -> Seq<char> {
    let qi = decimal(i as nat);
    let oi = decimal(o as nat);
    let input = if multiple {
        "<li><input type=\"checkbox\" id=q"@ + qi + "_"@ + oi + " name=q"@ + qi + "_"@ + oi + " "@
            + checked_attr(multi_checked(voted, i, o)) + ">"@
    } else {
        "<li><input type=\"radio\" id=q"@ + qi + " name=q"@ + qi + " value=\""@ + escaped(label)
            + "\" "@ + checked_attr(single_checked(voted, i, o)) + ">"@
    };
    input + "<label for=q"@ + qi + "_"@ + oi + ">&nbsp;"@ + escaped(label) + "</label></li>"@
}

/// The markup of the first `n` options of question `i`.
pub open spec fn options_html(
    i: int,
    options: Seq<String>,
    multiple: bool,
    voted: Option<Seq<ResponseView>>,
    n: nat,
) -> Seq<char>
    decreases n,
{
    if n == 0 {
        Seq::empty()
    } else {
        options_html(i, options, multiple, voted, (n - 1) as nat) + option_html(
            i,
            n - 1,
            options[n - 1]@,
            multiple,
            voted,
        )
    }
}

/// The markup of question `i`.
pub open spec fn entry_html(i: int, q: PollQuestion, voted: Option<Seq<ResponseView>>) -> Seq<
    char,
> {
    let qi = decimal(i as nat);
    match q {
        PollQuestion::Text { question } => "<p><b><label for=q"@ + qi + ">"@ + escaped(question@)
            + "</label></b></p>"@ + "<p><input type=\"text\" id=q"@ + qi + " name=q"@ + qi
            + " value=\""@ + escaped(text_value(voted, i)) + "\"></p>"@,
        PollQuestion::Choice { question, options, multiple } => "<b>"@ + escaped(question@)
            + "</b></p><ul>"@ + options_html(i, options@, multiple, voted, options@.len())
            + "</ul>"@,
    }
}

/// The markup of the first `n` questions.
pub open spec fn entries_html(
    entries: Seq<PollQuestion>,
    voted: Option<Seq<ResponseView>>,
    n: nat,
) -> Seq<char>
    decreases n,
{
    if n == 0 {
        Seq::empty()
    } else {
        entries_html(entries, voted, (n - 1) as nat) + entry_html(n - 1, entries[n - 1], voted)
    }
}

pub open spec fn form_tail() -> Seq<char> {
    "<input class=\"button is-link is-rounded\" type=\"submit\" value=\"Submit survey\"></form><br><br>"@
}

/// The form of poll `p` in post `pid` of inn `iid`, filled with an earlier
/// submission where there is one.
pub open spec fn poll_html(p: Poll, iid: nat, pid: nat, voted: Option<Seq<ResponseView>>) -> Seq<
    char,
> {
    "<h1>"@ + escaped(p.title@) + "</h1>"@ + "<form action=\"/post/"@ + decimal(iid) + "/"@
        + decimal(pid) + "/pollvote\" method=\"post\">"@ + entries_html(
        p.entries@,
        voted,
        p.entries@.len(),
    ) + form_tail()
}

pub open spec fn voted_view(voted: Option<PollResult>) -> Option<Seq<ResponseView>> {
    match voted {
        Some(v) => Some(v@),
        None => None,
    }
}

/// The earlier answer to question `i`.
fn prior_exec(voted: &Option<PollResult>, i: usize) -> (r: Option<&PollResponse>)
    ensures
        match r {
            Some(a) => prior(voted_view(*voted), i as int) == Some(a@),
            None => prior(voted_view(*voted), i as int) is None,
        },
{
    match voted {
        Some(v) => if i < v.0.len() {
            Some(&v.0[i])
        } else {
            None
        },
        None => None,
    }
}

fn push_checked(s: &mut String, b: bool)
    ensures
        final(s)@ == old(s)@ + checked_attr(b),
{
    if b {
        s.append("checked");
    } else {
        s.append("");
    }
}

/// Whether `o` is among `v`.
pub(crate) fn contains_index(v: &Vec<usize>, o: usize) -> (r: bool)
    ensures
        r == crate::model::nat_seq(v@).contains(o as nat),
{
    let mut found = false;
    let mut k: usize = 0;
    while k < v.len()
        invariant
            k <= v@.len(),
            found == exists|j: int| 0 <= j < k && v@[j] == o,
        decreases v@.len() - k,
    {
        if v[k] == o {
            found = true;
        }
        k = k + 1;
    }
    proof {
        let w = crate::model::nat_seq(v@);
        if found {
            let j = choose|j: int| 0 <= j < k && v@[j] == o;
            assert(w[j] == o as nat);
        } else {
            assert forall|j: int| 0 <= j < w.len() implies w[j] != o as nat by {
                assert(v@[j] != o);
            }
        }
    }
    found
}

fn push_checkbox(s: &mut String, i: usize, o: usize, checked: bool)
    ensures
        final(s)@ == old(s)@ + ("<li><input type=\"checkbox\" id=q"@ + decimal(i as nat) + "_"@
            + decimal(o as nat) + " name=q"@ + decimal(i as nat) + "_"@ + decimal(o as nat) + " "@
            + checked_attr(checked) + ">"@),
{
    let ghost start = s@;
    s.append("<li><input type=\"checkbox\" id=q");
    push_decimal(s, i);
    s.append("_");
    push_decimal(s, o);
    s.append(" name=q");
    push_decimal(s, i);
    s.append("_");
    push_decimal(s, o);
    s.append(" ");
    push_checked(s, checked);
    s.append(">");
    assert(s@ =~= start + ("<li><input type=\"checkbox\" id=q"@ + decimal(i as nat) + "_"@
        + decimal(o as nat) + " name=q"@ + decimal(i as nat) + "_"@ + decimal(o as nat) + " "@
        + checked_attr(checked) + ">"@));
}

fn push_radio(s: &mut String, i: usize, label: &str, checked: bool)
    ensures
        final(s)@ == old(s)@ + ("<li><input type=\"radio\" id=q"@ + decimal(i as nat) + " name=q"@
            + decimal(i as nat) + " value=\""@ + escaped(label@) + "\" "@ + checked_attr(checked)
            + ">"@),
{
    let ghost start = s@;
    s.append("<li><input type=\"radio\" id=q");
    push_decimal(s, i);
    s.append(" name=q");
    push_decimal(s, i);
    s.append(" value=\"");
    push_escaped(s, label);
    s.append("\" ");
    push_checked(s, checked);
    s.append(">");
    assert(s@ =~= start + ("<li><input type=\"radio\" id=q"@ + decimal(i as nat) + " name=q"@
        + decimal(i as nat) + " value=\""@ + escaped(label@) + "\" "@ + checked_attr(checked)
        + ">"@));
}

fn push_label(s: &mut String, i: usize, o: usize, label: &str)
    ensures
        final(s)@ == old(s)@ + ("<label for=q"@ + decimal(i as nat) + "_"@ + decimal(o as nat)
            + ">&nbsp;"@ + escaped(label@) + "</label></li>"@),
{
    let ghost start = s@;
    s.append("<label for=q");
    push_decimal(s, i);
    s.append("_");
    push_decimal(s, o);
    s.append(">&nbsp;");
    push_escaped(s, label);
    s.append("</label></li>");
    assert(s@ =~= start + ("<label for=q"@ + decimal(i as nat) + "_"@ + decimal(o as nat)
        + ">&nbsp;"@ + escaped(label@) + "</label></li>"@));
}

/// Appends the markup of option `o` of question `i`.
fn push_option(
    s: &mut String,
    i: usize,
    o: usize,
    label: &str,
    multiple: bool,
    voted: &Option<PollResult>,
)
    ensures
        final(s)@ == old(s)@ + option_html(i as int, o as int, label@, multiple, voted_view(*voted)),
{
    let ghost start = s@;
    let ghost vv = voted_view(*voted);
    let prior_answer = prior_exec(voted, i);
    if multiple {
        let checked = match prior_answer {
            Some(PollResponse::MultipleChoice(v)) => contains_index(v, o),
            _ => false,
        };
        assert(checked == multi_checked(vv, i as int, o as int));
        push_checkbox(s, i, o, checked);
    } else {
        let checked = match voted {
            None => o == 0,
            Some(_) => match prior_answer {
                Some(PollResponse::SingleChoice(k)) => *k == o,
                _ => false,
            },
        };
        assert(checked == single_checked(vv, i as int, o as int));
        push_radio(s, i, label, checked);
    }
    push_label(s, i, o, label);
    assert(s@ =~= start + option_html(i as int, o as int, label@, multiple, vv));
}

/// Appends the markup of question `i`.
fn push_entry(s: &mut String, i: usize, q: &PollQuestion, voted: &Option<PollResult>)
    ensures
        final(s)@ == old(s)@ + entry_html(i as int, *q, voted_view(*voted)),
{
    let ghost start = s@;
    let ghost vv = voted_view(*voted);
    match q {
        PollQuestion::Text { question } => {
            s.append("<p><b><label for=q");
            push_decimal(s, i);
            s.append(">");
            push_escaped(s, question.as_str());
            s.append("</label></b></p>");
            s.append("<p><input type=\"text\" id=q");
            push_decimal(s, i);
            s.append(" name=q");
            push_decimal(s, i);
            s.append(" value=\"");
            match prior_exec(voted, i) {
                Some(PollResponse::Text(t)) => push_escaped(s, t.as_str()),
                _ => push_escaped(s, ""),
            }
            s.append("\"></p>");
            proof {
                reveal_strlit("");
            }
            assert(s@ =~= start + entry_html(i as int, *q, vv));
        },
        PollQuestion::Choice { question, options, multiple } => {
            s.append("<b>");
            push_escaped(s, question.as_str());
            s.append("</b></p><ul>");
            let ghost mid = s@;
            let mut o: usize = 0;
            while o < options.len()
                invariant
                    o <= options@.len(),
                    s@ == mid + options_html(i as int, options@, *multiple, vv, o as nat),
                    vv == voted_view(*voted),
                decreases options@.len() - o,
            {
                push_option(s, i, o, options[o].as_str(), *multiple, voted);
                assert(options_html(i as int, options@, *multiple, vv, (o + 1) as nat)
                    == options_html(i as int, options@, *multiple, vv, o as nat) + option_html(
                    i as int,
                    o as int,
                    options@[o as int]@,
                    *multiple,
                    vv,
                ));
                assert(s@ =~= mid + options_html(i as int, options@, *multiple, vv, (o + 1) as nat));
                o = o + 1;
            }
            s.append("</ul>");
            assert(s@ =~= start + entry_html(i as int, *q, vv));
        },
    }
}

impl Poll {
    /// The form of this poll for post `pid` of inn `iid`: its title, one input
    /// per question, and a submit button. An earlier submission fills the
    /// inputs; without one, each single choice question has its first option
    /// selected.
    pub fn html(&self, iid: u32, pid: u32, voted: Option<PollResult>) -> (r: String)
        ensures
            r@ == poll_html(*self, iid as nat, pid as nat, voted_view(voted)),
    {
        let ghost vv = voted_view(voted);
        let mut html = String::new();
        html.append("<h1>");
        push_escaped(&mut html, self.title.as_str());
        html.append("</h1>");
        html.append("<form action=\"/post/");
        push_decimal(&mut html, iid as usize);
        html.append("/");
        push_decimal(&mut html, pid as usize);
        html.append("/pollvote\" method=\"post\">");
        let ghost head = html@;
        let mut i: usize = 0;
        while i < self.entries.len()
            invariant
                i <= self.entries@.len(),
                html@ == head + entries_html(self.entries@, vv, i as nat),
                vv == voted_view(voted),
            decreases self.entries@.len() - i,
        {
            push_entry(&mut html, i, &self.entries[i], &voted);
            assert(html@ =~= head + entries_html(self.entries@, vv, (i + 1) as nat));
            i = i + 1;
        }
        html.append(
            "<input class=\"button is-link is-rounded\" type=\"submit\" value=\"Submit survey\"></form><br><br>",
        );
        assert(html@ =~= poll_html(*self, iid as nat, pid as nat, vv));
        html
    }

    /// Post content with the placeholder token replaced by this poll's form.
    /// Only the first placeholder is replaced; content without one is kept.
    pub fn replace_content(&self, content: &str, iid: u32, pid: u32, voted: Option<PollResult>) -> (r:
        String)
        ensures
            r@ == substitute_first(
                content@,
                HTML_PLACEHOLDER@,
                poll_html(*self, iid as nat, pid as nat, voted_view(voted)),
            ),
    {
        let html = self.html(iid, pid, voted);
        match split_first_exec(content, HTML_PLACEHOLDER) {
            Some((before, after)) => {
                let mut out = before.to_owned();
                out.append(html.as_str());
                out.append(after);
                out
            },
            None => content.to_owned(),
        }
    }
}

} // verus!
