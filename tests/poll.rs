use freedit_poll::{
    decode_pairs, decode_record, encode_record, storage_key, survey_block_of, Poll, PollFormQuery,
    PollQuestion, PollResponse, PollResult, StoreError, VoteStore, HTML_PLACEHOLDER,
};
use freedit_poll::{tally, QuestionTally};

fn s(x: &str) -> String {
    x.to_string()
}

fn colors() -> Vec<String> {
    vec![s("Red"), s("Green"), s("Blue")]
}

fn name_and_color() -> Poll {
    Poll {
        title: s("T"),
        entries: vec![
            PollQuestion::Text { question: s("name?") },
            PollQuestion::Choice { question: s("color?"), options: colors(), multiple: false },
        ],
    }
}

fn survey() -> Poll {
    Poll {
        title: s("Test Survey"),
        entries: vec![
            PollQuestion::Text { question: s("What is your name?") },
            PollQuestion::Choice {
                question: s("What is your favorite color?"),
                options: colors(),
                multiple: false,
            },
            PollQuestion::Choice {
                question: s("What is your favorite color?"),
                options: colors(),
                multiple: true,
            },
        ],
    }
}

fn parse(poll: &Poll, body: &str) -> PollResult {
    PollFormQuery(body.as_bytes().to_vec()).parse(poll).unwrap()
}

#[test]
fn scenario_decode_store_and_scan() {
    let poll = name_and_color();
    let record = parse(&poll, "q0=Alice&q1=Green");
    let expected = PollResult(vec![PollResponse::Text(s("Alice")), PollResponse::SingleChoice(1)]);
    assert_eq!(record, expected);
    let mut store = VoteStore::new();
    store.record_vote(5, 9, &record).unwrap();
    let all = store.aggregate_results(5).unwrap();
    assert_eq!(all, vec![expected]);
    assert_eq!(store.aggregate_results(6).unwrap(), vec![]);
}

#[test]
fn second_vote_replaces_first() {
    let poll = name_and_color();
    let first = parse(&poll, "q0=Alice&q1=Red");
    let second = parse(&poll, "q0=Bob&q1=Blue");
    let mut store = VoteStore::new();
    store.record_vote(5, 9, &first).unwrap();
    store.record_vote(5, 9, &second).unwrap();
    assert_eq!(store.get(5, 9), Some(encode_record(&second).unwrap()));
    assert_eq!(store.scan(5).len(), 1);
    assert_eq!(store.aggregate_results(5).unwrap(), vec![second]);
}

#[test]
fn scan_walks_voters_in_key_order() {
    let mut store = VoteStore::new();
    store.insert(2, 30, vec![3]);
    store.insert(1, 7, vec![9]);
    store.insert(2, 10, vec![1]);
    store.insert(2, 20, vec![2]);
    store.insert(3, 1, vec![4]);
    assert_eq!(store.scan(2), vec![vec![1], vec![2], vec![3]]);
    assert_eq!(store.get(1, 7), Some(vec![9]));
    assert_eq!(store.get(1, 8), None);
}

#[test]
fn aggregation_of_no_records_is_empty() {
    let store = VoteStore::new();
    assert_eq!(store.aggregate_results(5), Ok(vec![]));
}

#[test]
fn corrupted_record_fails_aggregation() {
    let mut store = VoteStore::new();
    let good = PollResult(vec![PollResponse::SingleChoice(2)]);
    store.record_vote(5, 1, &good).unwrap();
    store.insert(5, 2, vec![1, 7]);
    assert_eq!(store.aggregate_results(5), Err(StoreError::Decode));
}

#[test]
fn single_choice_label_and_fallbacks() {
    let poll = name_and_color();
    assert_eq!(parse(&poll, "q1=Blue").0[1], PollResponse::SingleChoice(2));
    assert_eq!(parse(&poll, "q1=Purple").0[1], PollResponse::SingleChoice(0));
    assert_eq!(parse(&poll, "").0[1], PollResponse::SingleChoice(0));
    assert_eq!(parse(&poll, "q1=Red&q1=Green").0[1], PollResponse::SingleChoice(1));
}

#[test]
fn duplicate_labels_pick_first() {
    let poll = Poll {
        title: s("T"),
        entries: vec![PollQuestion::Choice {
            question: s("q"),
            options: vec![s("A"), s("B"), s("A")],
            multiple: false,
        }],
    };
    assert_eq!(parse(&poll, "q0=A").0, vec![PollResponse::SingleChoice(0)]);
}

#[test]
fn multiple_choice_present_keys() {
    let poll = survey();
    let r = parse(&poll, "q2_0=on&q2_2=on");
    assert_eq!(r.0[2], PollResponse::MultipleChoice(vec![0, 2]));
    let r = parse(&poll, "q2_2=&q2_1=x&q2_7=on");
    assert_eq!(r.0[2], PollResponse::MultipleChoice(vec![1, 2]));
}

#[test]
fn missing_text_is_empty_and_values_are_percent_decoded() {
    let poll = survey();
    let r = parse(&poll, "q0=A%20B+C");
    assert_eq!(r.0[0], PollResponse::Text(s("A B C")));
    let r = parse(&poll, "");
    assert_eq!(
        r,
        PollResult(vec![
            PollResponse::Text(s("")),
            PollResponse::SingleChoice(0),
            PollResponse::MultipleChoice(vec![]),
        ])
    );
}

#[test]
fn default_form_submission_decodes_to_defaults() {
    let poll = survey();
    let html = poll.html(1, 2, None);
    assert!(html.contains("<input type=\"radio\" id=q1 name=q1 value=\"Red\" checked>"));
    assert!(html.contains("<input type=\"checkbox\" id=q2_0 name=q2_0 >"));
    // What a browser sends for that form when nothing is changed.
    let r = parse(&poll, "q0=&q1=Red");
    assert_eq!(
        r,
        PollResult(vec![
            PollResponse::Text(s("")),
            PollResponse::SingleChoice(0),
            PollResponse::MultipleChoice(vec![]),
        ])
    );
}

#[test]
fn decode_pairs_reads_given_pairs() {
    let poll = name_and_color();
    let pairs = vec![(s("q1"), s("Blue")), (s("q0"), s("Zoe"))];
    assert_eq!(
        decode_pairs(&poll, &pairs),
        PollResult(vec![PollResponse::Text(s("Zoe")), PollResponse::SingleChoice(2)])
    );
}

#[test]
fn unclosed_block_is_no_poll() {
    assert_eq!(survey_block_of("intro\n```survey\ntitle = \"T\"\n"), None);
    assert_eq!(survey_block_of("no poll here"), None);
    assert_eq!(
        survey_block_of("a```survey\ntitle = \"T\"\n```b```"),
        Some(s("\ntitle = \"T\"\n"))
    );
}

#[test]
fn form_markup_exact() {
    let poll = name_and_color();
    let html = poll.html(3, 14, None);
    let expected = [
        "<h1>T</h1><form action=\"/post/3/14/pollvote\" method=\"post\">",
        "<p><b><label for=q0>name?</label></b></p>",
        "<p><input type=\"text\" id=q0 name=q0 value=\"\"></p>",
        "<b>color?</b></p><ul>",
        "<li><input type=\"radio\" id=q1 name=q1 value=\"Red\" checked><label for=q1_0>&nbsp;Red</label></li>",
        "<li><input type=\"radio\" id=q1 name=q1 value=\"Green\" ><label for=q1_1>&nbsp;Green</label></li>",
        "<li><input type=\"radio\" id=q1 name=q1 value=\"Blue\" ><label for=q1_2>&nbsp;Blue</label></li>",
        "</ul>",
        "<input class=\"button is-link is-rounded\" type=\"submit\" value=\"Submit survey\"></form><br><br>",
    ]
    .join("");
    assert_eq!(html, expected);
}

#[test]
fn form_prefilled_from_earlier_vote() {
    let poll = survey();
    let voted = PollResult(vec![
        PollResponse::Text(s("Al")),
        PollResponse::SingleChoice(2),
        PollResponse::MultipleChoice(vec![1]),
    ]);
    let html = poll.html(1, 2, Some(voted));
    assert!(html.contains("name=q0 value=\"Al\"></p>"));
    assert!(html.contains("value=\"Red\" >"));
    assert!(html.contains("value=\"Blue\" checked>"));
    assert!(html.contains("id=q2_1 name=q2_1 checked>"));
    assert!(html.contains("id=q2_0 name=q2_0 >"));
}

#[test]
fn short_earlier_vote_leaves_inputs_unselected() {
    let poll = name_and_color();
    let html = poll.html(1, 2, Some(PollResult(vec![])));
    assert!(!html.contains("checked"));
}

#[test]
fn markup_characters_are_escaped() {
    let poll = Poll {
        title: s("<b>&\"x'"),
        entries: vec![PollQuestion::Text { question: s("a<b") }],
    };
    let html = poll.html(0, 0, Some(PollResult(vec![PollResponse::Text(s("\"><script>"))])));
    assert!(html.starts_with("<h1>&lt;b&gt;&amp;&quot;x&#39;</h1>"));
    assert!(html.contains("a&lt;b"));
    assert!(html.contains("value=\"&quot;&gt;&lt;script&gt;\""));
    assert!(!html.contains("<script>"));
}

#[test]
fn replace_content_substitutes_first_placeholder() {
    let poll = name_and_color();
    let html = poll.html(1, 2, None);
    let content = format!("before {} middle {} after", HTML_PLACEHOLDER, HTML_PLACEHOLDER);
    let out = poll.replace_content(&content, 1, 2, None);
    assert_eq!(out, format!("before {} middle {} after", html, HTML_PLACEHOLDER));
    assert_eq!(poll.replace_content("plain", 1, 2, None), "plain");
}

#[test]
fn storage_key_is_big_endian_pair() {
    assert_eq!(storage_key(5, 9), vec![0, 0, 0, 5, 0, 0, 0, 9]);
    assert_eq!(storage_key(0x01020304, 0xA0B0C0D0), vec![1, 2, 3, 4, 0xA0, 0xB0, 0xC0, 0xD0]);
}

#[test]
fn record_bytes_exact_and_round_trip() {
    let r = PollResult(vec![PollResponse::Text(s("Al")), PollResponse::SingleChoice(1)]);
    let b = encode_record(&r).unwrap();
    assert_eq!(b, vec![2, 0, 2, b'A', b'l', 1, 1]);
    assert_eq!(decode_record(&b), Some(r));
    let m = PollResult(vec![PollResponse::MultipleChoice(vec![0, 2])]);
    let b = encode_record(&m).unwrap();
    assert_eq!(b, vec![1, 2, 2, 0, 2]);
    assert_eq!(decode_record(&b), Some(m));
    assert_eq!(decode_record(&[1, 9]), None);
    assert_eq!(decode_record(&[]), None);
}

#[test]
fn definition_is_fixed_once_voted() {
    let mut store = VoteStore::new();
    assert!(store.may_edit_definition(5, "a", "b"));
    store.insert(5, 1, vec![0]);
    assert!(!store.may_edit_definition(5, "a", "b"));
    assert!(store.may_edit_definition(5, "a", "a"));
    assert!(store.may_edit_definition(6, "a", "b"));
}

#[test]
fn tally_counts_options_and_lists_texts() {
    let poll = survey();
    let records = vec![
        parse(&poll, "q0=Ann&q1=Green&q2_0=on&q2_2=on"),
        parse(&poll, "q0=Bo&q1=Blue&q2_2=on"),
        PollResult(vec![PollResponse::SingleChoice(9)]),
    ];
    let t = tally(&poll, &records);
    assert_eq!(
        t,
        vec![
            QuestionTally::Texts(vec![s("Ann"), s("Bo")]),
            QuestionTally::Counts(vec![0, 1, 1]),
            QuestionTally::Counts(vec![1, 0, 2]),
        ]
    );
}

#[test]
fn tally_of_no_records_is_empty() {
    let poll = survey();
    assert_eq!(
        tally(&poll, &vec![]),
        vec![
            QuestionTally::Texts(vec![]),
            QuestionTally::Counts(vec![0, 0, 0]),
            QuestionTally::Counts(vec![0, 0, 0]),
        ]
    );
}

#[test]
fn oversized_length_claims_fail_aggregation() {
    let mut store = VoteStore::new();
    store.insert(5, 1, vec![1, 0, 253, 0, 0, 0, 0, 0, 0, 0, 0x80]);
    assert_eq!(store.aggregate_results(5), Err(StoreError::Decode));
    let mut store = VoteStore::new();
    store.insert(5, 1, vec![1, 2, 253, 0, 0, 0, 0, 0, 0, 0, 0x20]);
    assert_eq!(store.aggregate_results(5), Err(StoreError::Decode));
    assert_eq!(decode_record(&[1, 0, 3, b'a']), None);
}

#[test]
fn large_values_round_trip() {
    let r = PollResult(vec![
        PollResponse::SingleChoice(300),
        PollResponse::MultipleChoice(vec![70000, 5_000_000_000]),
        PollResponse::Text("é".repeat(200)),
    ]);
    let b = encode_record(&r).unwrap();
    assert_eq!(&b[..5], &[3, 1, 251, 44, 1]);
    assert_eq!(decode_record(&b), Some(r));
}

#[test]
fn decoding_follows_bincode_reading_rules() {
    // A length written in a longer form than needed is read as bincode reads it.
    assert_eq!(
        decode_record(&[1, 1, 251, 5, 0]),
        Some(PollResult(vec![PollResponse::SingleChoice(5)]))
    );
    // Bytes after the submission are ignored.
    assert_eq!(
        decode_record(&[1, 1, 2, 99, 98]),
        Some(PollResult(vec![PollResponse::SingleChoice(2)]))
    );
    // The variant position is a u32: the 8-byte form is refused.
    assert_eq!(decode_record(&[1, 253, 0, 0, 0, 0, 0, 0, 0, 0, 1, 2]), None);
    // Invalid UTF-8 in a text is refused.
    assert_eq!(decode_record(&[1, 0, 1, 0xFF]), None);
    // An unknown variant is refused.
    assert_eq!(decode_record(&[1, 3, 0]), None);
}
