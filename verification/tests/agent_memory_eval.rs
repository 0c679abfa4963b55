use mge_core::eval::{
    apply_limits, average_u64, generate_dataset_with_queries, is_safe_memory_text,
    safe_marker_value, scan_baseline, schema_example, selected_baselines, selected_indexes,
    selected_modes, tokenize, tokenize_vec, validate_dataset, BaselineKind, BaselineSelection,
    EvalDataset, EvalMemory, EvalQuery, GeneratedProfile, GeneratedQueryProfile, IndexSelection,
    IngestMode, ModeSelection,
};
use mge_core::locomo::convert_locomo;
use mge_core::longmemeval::{convert_longmemeval, split_key_facts};
use mge_core::models::JsonValue;
use mge_core::{IndexKind, MgeError, RecallMode};

fn memory(id: &str, scope: &str, text: &str) -> EvalMemory {
    EvalMemory {
        id: id.to_string(),
        scope: scope.to_string(),
        subject: None,
        text: text.to_string(),
        markers: Vec::new(),
        kind: "project_fact".to_string(),
        status: "active".to_string(),
        trust: "user_confirmed".to_string(),
        sensitivity: "private".to_string(),
    }
}

fn query(id: &str, text: &str, scope: Option<&str>, relevant: &[&str]) -> EvalQuery {
    EvalQuery {
        id: id.to_string(),
        query: text.to_string(),
        scope: scope.map(|s| s.to_string()),
        relevant_ids: relevant.iter().map(|r| r.to_string()).collect(),
        category: String::new(),
    }
}

fn dataset(memories: Vec<EvalMemory>, queries: Vec<EvalQuery>) -> EvalDataset {
    EvalDataset {
        name: "fixture".to_string(),
        source: String::new(),
        memories,
        queries,
    }
}

fn invalid_message(result: Result<(), MgeError>) -> String {
    match result {
        Err(MgeError::InvalidInput(message)) => message,
        other => panic!("expected an invalid input error, got {other:?}"),
    }
}

#[test]
fn generated_dataset_is_valid() {
    let dataset =
        generate_dataset_with_queries(GeneratedProfile::Tiny, GeneratedQueryProfile::Lexical);
    validate_dataset(&dataset).unwrap();
    assert!(!dataset.memories.is_empty());
    assert!(!dataset.queries.is_empty());
    for query in &dataset.queries {
        let row = query.relevant_ids[0].rsplit(':').next().unwrap();
        assert!(query.query.contains(&format!("note {row}")));
    }
}

#[test]
fn generated_query_profiles_cover_paraphrases_and_hard_negatives() {
    let paraphrase =
        generate_dataset_with_queries(GeneratedProfile::Tiny, GeneratedQueryProfile::Paraphrase);
    validate_dataset(&paraphrase).unwrap();
    assert!(paraphrase
        .queries
        .iter()
        .all(|query| query.category == "partial_paraphrase"));
    assert!(paraphrase
        .queries
        .iter()
        .all(|query| !query.relevant_ids.is_empty()));

    let negatives =
        generate_dataset_with_queries(GeneratedProfile::Tiny, GeneratedQueryProfile::HardNegative);
    validate_dataset(&negatives).unwrap();
    assert!(negatives
        .queries
        .iter()
        .all(|query| query.relevant_ids.is_empty()));

    let mixed = generate_dataset_with_queries(GeneratedProfile::Tiny, GeneratedQueryProfile::Mixed);
    validate_dataset(&mixed).unwrap();
    assert_eq!(mixed.queries.len(), paraphrase.queries.len() * 3);
}

#[test]
fn schema_example_is_valid() {
    validate_dataset(&schema_example()).unwrap();
}

#[test]
fn scan_baseline_finds_generated_relevant_memory() {
    let dataset =
        generate_dataset_with_queries(GeneratedProfile::Tiny, GeneratedQueryProfile::Lexical);
    let query = &dataset.queries[0];
    let returned = scan_baseline(&dataset, query, 5, RecallMode::Focused);
    assert!(returned.contains(&query.relevant_ids[0]));
}

#[test]
fn generated_fixture_has_expected_shape_and_text() {
    let dataset =
        generate_dataset_with_queries(GeneratedProfile::Tiny, GeneratedQueryProfile::Mixed);
    assert_eq!(dataset.name, "generated_tiny_mixed");
    assert_eq!(
        dataset.source,
        "generated safe agent-memory-style fixture (mixed)"
    );
    assert_eq!(dataset.memories.len(), 24);
    assert_eq!(dataset.queries.len(), 18);
    let first = &dataset.memories[0];
    assert_eq!(first.id, "project_0:storage:binary_runtime_storage:0");
    assert_eq!(first.subject.as_deref(), Some("storage decision 0"));
    assert_eq!(
        first.text,
        "In project_0, the storage component uses binary_runtime_storage. This memory records a project decision, expected behavior, and integration note 0."
    );
    assert_eq!(
        first.markers,
        vec![
            "component:storage",
            "decision:binary_runtime_storage",
            "project:project_0"
        ]
    );
    let second_project = &dataset.memories[13];
    assert_eq!(
        second_project.id,
        "project_1:security:payload_encryption:1"
    );
    assert_eq!(dataset.queries[0].id, "q:lexical:project_0:storage:0");
    assert_eq!(
        dataset.queries[0].query,
        "In project_0, what does integration note 0 record for storage binary_runtime_storage?"
    );
    assert_eq!(dataset.queries[1].id, "q:paraphrase:project_0:storage:0");
    assert_eq!(dataset.queries[2].category, "hard_negative");
    let hard = generate_dataset_with_queries(
        GeneratedProfile::Small,
        GeneratedQueryProfile::HardNegative,
    );
    assert_eq!(hard.name, "generated_small_hard-negative");
    assert_eq!(hard.memories.len(), 4 * 48);
    assert_eq!(hard.queries.len(), 4 * 6);
}

#[test]
fn validate_dataset_reports_each_problem_in_order() {
    assert_eq!(
        invalid_message(validate_dataset(&dataset(Vec::new(), vec![query("q", "x", None, &[])]))),
        "dataset contains no memories"
    );
    assert_eq!(
        invalid_message(validate_dataset(&dataset(vec![memory("m", "s", "t")], Vec::new()))),
        "dataset contains no queries"
    );
    assert_eq!(
        invalid_message(validate_dataset(&dataset(
            vec![memory("  ", "s", "text")],
            vec![query("q", "x", None, &[])]
        ))),
        "memory id must not be empty"
    );
    assert_eq!(
        invalid_message(validate_dataset(&dataset(
            vec![memory("m1", "s", "a"), memory("m1", "s", "b")],
            vec![query("q", "x", None, &[])]
        ))),
        "duplicate memory id m1"
    );
    assert_eq!(
        invalid_message(validate_dataset(&dataset(
            vec![memory("m1", "s", " \n")],
            vec![query("q", "x", None, &[])]
        ))),
        "memory m1 has empty text"
    );
    assert_eq!(
        invalid_message(validate_dataset(&dataset(
            vec![memory("m1", "s", "a")],
            vec![query("", "x", None, &[])]
        ))),
        "query id must not be empty"
    );
    assert_eq!(
        invalid_message(validate_dataset(&dataset(
            vec![memory("m1", "s", "a")],
            vec![query("q1", "\t", None, &[])]
        ))),
        "query q1 has empty text"
    );
    assert_eq!(
        invalid_message(validate_dataset(&dataset(
            vec![memory("m1", "s", "a")],
            vec![query("q1", "what", None, &["m1", "m9"])]
        ))),
        "query q1 references unknown relevant memory m9"
    );
    assert!(validate_dataset(&dataset(
        vec![memory("m1", "s", "a")],
        vec![query("q1", "what", None, &["m1"])]
    ))
    .is_ok());
}

#[test]
fn scan_baseline_ranks_by_overlap_then_length_then_id() {
    let data = dataset(
        vec![
            memory("b", "p", "alpha beta gamma"),
            memory("a", "p", "alpha beta"),
            memory("c", "p", "alpha beta"),
            memory("d", "p", "alpha"),
            memory("e", "other", "alpha beta gamma"),
            memory("f", "p", "unrelated words"),
        ],
        Vec::new(),
    );
    let q = query("q", "Alpha, BETA and gamma?", Some("p"), &[]);
    assert_eq!(
        scan_baseline(&data, &q, 10, RecallMode::Focused),
        vec!["b", "a", "c", "d"]
    );
    assert_eq!(scan_baseline(&data, &q, 2, RecallMode::Focused), vec!["b", "a"]);
    assert_eq!(
        scan_baseline(&data, &q, 2, RecallMode::Broad),
        vec!["b", "a", "c", "d", "f"]
    );
    let unscoped = query("q", "gamma gamma", None, &[]);
    assert_eq!(
        scan_baseline(&data, &unscoped, 5, RecallMode::Focused),
        vec!["b", "e"]
    );
}

#[test]
fn tokenizers_split_on_non_alphanumeric_runs() {
    assert_eq!(
        tokenize_vec("In project_0, what's Note 12? a B"),
        vec!["in", "project", "what", "note", "12"]
    );
    assert_eq!(tokenize("zeta alpha Zeta beta"), vec!["alpha", "beta", "zeta"]);
}

#[test]
fn apply_limits_cuts_memories_and_drops_queries_without_evidence() {
    let mut data = dataset(
        vec![memory("m1", "s", "a"), memory("m2", "s", "b"), memory("m3", "s", "c")],
        vec![
            query("q1", "x", None, &["m1"]),
            query("q2", "x", None, &["m3"]),
            query("q3", "x", None, &[]),
            query("q4", "x", None, &["m2", "m1"]),
        ],
    );
    apply_limits(&mut data, Some(2), None);
    assert_eq!(data.memories.len(), 2);
    let ids: Vec<&str> = data.queries.iter().map(|q| q.id.as_str()).collect();
    assert_eq!(ids, vec!["q1", "q4"]);
    apply_limits(&mut data, None, Some(1));
    assert_eq!(data.memories.len(), 2);
    assert_eq!(data.queries.len(), 1);
    assert_eq!(data.queries[0].id, "q1");
}

#[test]
fn marker_values_and_memory_text_checks() {
    assert_eq!(safe_marker_value("  Single-Session User!! "), "single_session_user");
    assert_eq!(safe_marker_value("***"), "unknown");
    assert_eq!(safe_marker_value("Ab--Cd"), "ab_cd");
    assert!(!is_safe_memory_text("   "));
    assert!(!is_safe_memory_text(" ... !!! "));
    assert!(is_safe_memory_text("ok."));
    assert!(is_safe_memory_text(&"-".repeat(65)));
}

#[test]
fn selections_and_averages() {
    assert_eq!(
        selected_indexes(IndexSelection::Both),
        vec![IndexKind::ExactMarkerPage, IndexKind::BinaryFusePage]
    );
    assert_eq!(
        selected_modes(ModeSelection::FocusedBroad),
        vec![RecallMode::Focused, RecallMode::Broad]
    );
    assert_eq!(
        selected_baselines(BaselineSelection::All),
        vec![
            BaselineKind::Keyword,
            BaselineKind::Bm25,
            BaselineKind::TextIndex,
            BaselineKind::PageToken
        ]
    );
    assert!(selected_baselines(BaselineSelection::Nothing).is_empty());
    assert_eq!(average_u64(&[]), 0);
    assert_eq!(average_u64(&[3, 4, 6]), 4);
    assert_eq!(IngestMode::SessionPlusTurn.as_str(), "session-plus-turn");
    assert_eq!(GeneratedQueryProfile::HardNegative.as_str(), "hard-negative");
}

fn text(s: &str) -> JsonValue {
    JsonValue::Text(s.to_string())
}

fn object(entries: Vec<(&str, JsonValue)>) -> JsonValue {
    let mut entries: Vec<(String, JsonValue)> =
        entries.into_iter().map(|(k, v)| (k.to_string(), v)).collect();
    entries.sort_by(|a, b| a.0.cmp(&b.0));
    JsonValue::Object(entries)
}

fn array(items: Vec<JsonValue>) -> JsonValue {
    JsonValue::Array(items)
}

fn turn(role: &str, content: &str, has_answer: Option<bool>) -> JsonValue {
    let mut entries = vec![("role", text(role)), ("content", text(content))];
    if let Some(flag) = has_answer {
        entries.push(("has_answer", JsonValue::Bool(flag)));
    }
    object(entries)
}

fn instance(
    question_id: &str,
    question: &str,
    session_ids: &[&str],
    answer_ids: &[&str],
    sessions: Vec<JsonValue>,
) -> JsonValue {
    object(vec![
        ("question_id", text(question_id)),
        ("question_type", text("single-session-user")),
        ("question", text(question)),
        (
            "haystack_session_ids",
            array(session_ids.iter().map(|s| text(s)).collect()),
        ),
        (
            "answer_session_ids",
            array(answer_ids.iter().map(|s| text(s)).collect()),
        ),
        ("haystack_sessions", array(sessions)),
    ])
}

#[test]
fn converts_longmemeval_turn_level_evidence() {
    let value = array(vec![instance(
        "q1",
        "What color is the notebook?",
        &["s1"],
        &["s1"],
        vec![array(vec![
            turn("user", "The notebook is blue.", Some(true)),
            turn("assistant", "Got it.", None),
        ])],
    )]);
    let dataset = convert_longmemeval(&value, "test".to_string(), None, None, IngestMode::RawTurn)
        .expect("convert");
    validate_dataset(&dataset).unwrap();
    assert_eq!(dataset.memories.len(), 2);
    assert_eq!(dataset.queries.len(), 1);
    assert_eq!(dataset.queries[0].relevant_ids.len(), 1);
}

#[test]
fn converts_longmemeval_session_level_evidence() {
    let value = array(vec![instance(
        "q1",
        "What color is the notebook?",
        &["s1", "s2"],
        &["s1"],
        vec![
            array(vec![
                turn("user", "The notebook is blue.", None),
                turn("assistant", "Got it.", None),
            ]),
            array(vec![turn("user", "The folder is red.", None)]),
        ],
    )]);
    let dataset =
        convert_longmemeval(&value, "test".to_string(), None, None, IngestMode::SessionDoc)
            .expect("convert");
    validate_dataset(&dataset).unwrap();
    assert_eq!(dataset.memories.len(), 2);
    assert_eq!(dataset.queries[0].relevant_ids.len(), 1);
    assert!(dataset.queries[0].relevant_ids[0].ends_with(":session"));
}

#[test]
fn converts_longmemeval_abstention_as_negative_even_with_answer_sessions() {
    let value = array(vec![instance(
        "q1_abs",
        "What event never happened?",
        &["s1"],
        &["s1"],
        vec![array(vec![turn("user", "The notebook is blue.", None)])],
    )]);
    let dataset =
        convert_longmemeval(&value, "test".to_string(), None, None, IngestMode::SessionChunk)
            .expect("convert");
    validate_dataset(&dataset).unwrap();
    assert_eq!(dataset.queries.len(), 1);
    assert!(dataset.queries[0].relevant_ids.is_empty());
    assert_eq!(dataset.queries[0].category, "abstention");
}

#[test]
fn converts_longmemeval_session_chunks_with_evidence() {
    let turns = (0..10)
        .map(|index| {
            turn(
                "user",
                &format!("Context statement number {index} with useful detail."),
                Some(index == 9),
            )
        })
        .collect::<Vec<_>>();
    let value = array(vec![instance(
        "q1",
        "Which statement has the answer?",
        &["s1"],
        &["s1"],
        vec![array(turns)],
    )]);
    let dataset =
        convert_longmemeval(&value, "test".to_string(), None, None, IngestMode::SessionChunk)
            .expect("convert");

    validate_dataset(&dataset).unwrap();
    assert_eq!(dataset.memories.len(), 2);
    assert_eq!(dataset.queries[0].relevant_ids.len(), 1);
    assert!(dataset.queries[0].relevant_ids[0].ends_with("chunk-1"));
}

#[test]
fn converts_longmemeval_key_fact_evidence() {
    let value = array(vec![instance(
        "q1",
        "What color is the notebook?",
        &["s1"],
        &["s1"],
        vec![array(vec![turn(
            "user",
            "The notebook is blue. The folder is red.",
            Some(true),
        )])],
    )]);
    let dataset = convert_longmemeval(&value, "test".to_string(), None, None, IngestMode::KeyFact)
        .expect("convert");
    validate_dataset(&dataset).unwrap();
    assert_eq!(dataset.memories.len(), 2);
    assert!(dataset.queries[0]
        .relevant_ids
        .iter()
        .all(|id| id.contains(":fact-")));
}

#[test]
fn longmemeval_conversion_names_ids_and_falls_back_to_answer_sessions() {
    let value = array(vec![
        instance(
            "q1",
            "Where is the notebook?",
            &["s1", "s2"],
            &["s2"],
            vec![
                array(vec![turn("user", "The notebook is on the desk.", None)]),
                array(vec![
                    turn("user", "The folder is in the drawer.", None),
                    turn("assistant", "Noted, the drawer.", None),
                ]),
            ],
        ),
        instance("q2", "Nothing matches?", &["s1"], &[], vec![array(vec![turn(
            "user",
            "Unrelated chatter about lunch.",
            None,
        )])]),
    ]);
    let dataset = convert_longmemeval(
        &value,
        "bench".to_string(),
        None,
        None,
        IngestMode::SessionPlusTurn,
    )
    .unwrap();
    assert_eq!(dataset.name, "longmemeval_session_plus_turn");
    assert_eq!(
        dataset.source,
        "bench; ingest_mode: session-plus-turn; skipped queries without evidence: 1"
    );
    assert_eq!(dataset.memories.len(), 2 + 3 + 2);
    assert_eq!(dataset.memories[0].id, "q1:s0:s1:session");
    assert_eq!(dataset.memories[0].text, "user: The notebook is on the desk.");
    assert_eq!(dataset.memories[1].id, "q1:s0:s1:turn-0");
    assert_eq!(dataset.memories[2].id, "q1:s1:s2:session");
    assert_eq!(
        dataset.memories[2].text,
        "user: The folder is in the drawer.\nassistant: Noted, the drawer."
    );
    assert_eq!(
        dataset.memories[2].markers,
        vec![
            "benchmark:longmemeval",
            "question_type:single_session_user",
            "memory_granularity:session",
            "session:s2"
        ]
    );
    assert_eq!(dataset.queries.len(), 1);
    assert_eq!(dataset.queries[0].scope.as_deref(), Some("longmemeval:q1"));
    assert_eq!(dataset.queries[0].relevant_ids, vec!["q1:s1:s2:session"]);

    let raw = convert_longmemeval(&value, "bench".to_string(), None, None, IngestMode::RawTurn)
        .unwrap();
    assert_eq!(raw.memories.len(), 1 + 2 + 1);
    assert_eq!(
        raw.queries[0].relevant_ids,
        vec!["q1:s1:s2:turn-0", "q1:s1:s2:turn-1"]
    );
    let limited =
        convert_longmemeval(&value, "bench".to_string(), Some(1), None, IngestMode::RawTurn)
            .unwrap();
    assert_eq!(limited.queries.len(), 1);
    assert_eq!(limited.memories.len(), 3);
}

#[test]
fn longmemeval_conversion_reports_malformed_input() {
    let not_array = object(vec![("question", text("x"))]);
    match convert_longmemeval(&not_array, String::new(), None, None, IngestMode::RawTurn) {
        Err(MgeError::InvalidInput(message)) => {
            assert_eq!(message, "LongMemEval input must be a JSON array")
        }
        _ => panic!("expected an error"),
    }
    let no_question = array(vec![object(vec![("question_id", text("q9"))])]);
    match convert_longmemeval(&no_question, String::new(), None, None, IngestMode::RawTurn) {
        Err(MgeError::InvalidInput(message)) => {
            assert_eq!(message, "LongMemEval instance q9 has no question")
        }
        _ => panic!("expected an error"),
    }
    let no_sessions = array(vec![object(vec![("question", text("why?"))])]);
    match convert_longmemeval(&no_sessions, String::new(), None, None, IngestMode::RawTurn) {
        Err(MgeError::InvalidInput(message)) => {
            assert_eq!(message, "LongMemEval instance longmemeval-0 has no haystack_sessions")
        }
        _ => panic!("expected an error"),
    }
    let blank_role = array(vec![instance(
        "q1",
        "Who?",
        &["s1"],
        &["s1"],
        vec![array(vec![turn("  ", "The notebook is blue.", Some(true))])],
    )]);
    match convert_longmemeval(&blank_role, String::new(), None, None, IngestMode::SessionChunk) {
        Err(MgeError::InvalidInput(message)) => {
            assert_eq!(message, "session turn 0 requires non-empty role and content")
        }
        _ => panic!("expected an error"),
    }
}

#[test]
fn key_facts_keep_three_distinct_sentences() {
    assert_eq!(
        split_key_facts("The notebook is blue. The folder is red! Short. The notebook is blue? A fourth long sentence here; and a fifth long sentence here"),
        vec!["The notebook is blue", "The folder is red", "A fourth long sentence here"]
    );
    assert_eq!(split_key_facts("  tiny note  "), vec!["tiny note"]);
    assert!(split_key_facts("...").is_empty());
    let long = "word ".repeat(100);
    let facts = split_key_facts(&long);
    assert_eq!(facts.len(), 1);
    assert!(facts[0].len() <= 361);
}

#[test]
fn converts_locomo_evidence_ids() {
    let value = array(vec![object(vec![
        ("conversation_id", text("c1")),
        (
            "session_1",
            array(vec![
                object(vec![
                    ("dialog_id", text("d1")),
                    ("speaker", text("Alice")),
                    ("text", text("Alice ordered tea.")),
                ]),
                object(vec![
                    ("dialog_id", text("d2")),
                    ("speaker", text("Bob")),
                    ("text", text("Bob ordered coffee.")),
                ]),
            ]),
        ),
        (
            "qa",
            array(vec![object(vec![
                ("question", text("What did Alice order?")),
                ("evidence", array(vec![text("d1")])),
                ("category", JsonValue::Number("1".to_string())),
            ])]),
        ),
    ])]);
    let dataset = convert_locomo(&value, "test".to_string(), None, None).expect("convert");
    validate_dataset(&dataset).unwrap();
    assert_eq!(dataset.memories.len(), 2);
    assert_eq!(dataset.queries.len(), 1);
    assert_eq!(dataset.queries[0].relevant_ids.len(), 1);
}

#[test]
fn locomo_conversion_follows_paths_text_evidence_and_skips() {
    let value = array(vec![
        object(vec![
            ("sample_id", text("s9")),
            (
                "conversation",
                object(vec![(
                    "session_1",
                    array(vec![
                        object(vec![("speaker", text("Ann")), ("text", text("Ann adopted a grey cat."))]),
                        object(vec![("text", text("***"))]),
                    ]),
                )]),
            ),
            (
                "qa",
                array(vec![
                    object(vec![
                        ("question", text("What pet?")),
                        ("evidence", array(vec![text("  adopted a grey cat  ")])),
                    ]),
                    object(vec![("question", text("Unanswerable?")), ("evidence", array(vec![]))]),
                    object(vec![("evidence", array(vec![text("x")]))]),
                ]),
            ),
        ]),
        object(vec![("id", text("empty")), ("notes", text("no dialog here"))]),
    ]);
    let dataset = convert_locomo(&value, "src".to_string(), None, None).unwrap();
    assert_eq!(dataset.name, "locomo_converted");
    assert_eq!(dataset.source, "src; skipped queries without evidence: 1");
    assert_eq!(dataset.memories.len(), 1);
    assert_eq!(
        dataset.memories[0].id,
        "s9:root.conversation.session_1.0"
    );
    assert_eq!(
        dataset.memories[0].subject.as_deref(),
        Some("locomo Ann root.conversation.session_1.0")
    );
    assert_eq!(dataset.queries.len(), 1);
    assert_eq!(dataset.queries[0].id, "s9:qa-0");
    assert_eq!(dataset.queries[0].category, "qa");
    assert_eq!(
        dataset.queries[0].relevant_ids,
        vec!["s9:root.conversation.session_1.0"]
    );
    match convert_locomo(&text("x"), String::new(), None, None) {
        Err(MgeError::InvalidInput(message)) => {
            assert_eq!(message, "LoCoMo input must be a JSON array")
        }
        _ => panic!("expected an error"),
    }
}
