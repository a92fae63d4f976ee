use rayclaw::skill_evolution::{
    archive_dir, candidate_skill_path, detect_patterns, extract_ngrams, extract_skill_name,
    find_skill_dir, generate_skill_content, hash_sequence, learning_entry_at, learning_line,
    learnings_path, promoted_content, retirement_meta, retirement_meta_at,
    rewrite_failing_skill, should_promote, skill_generation_request, skill_rewrite_request,
    validate_candidate_content, ResponseContentBlock, RetirementMetrics,
    SkillHealthRow, ToolCallSequence,
};

fn names(list: &[&str]) -> Vec<String> {
    list.iter().map(|s| s.to_string()).collect()
}

#[test]
fn test_extract_ngrams() {
    let tools: Vec<String> = vec!["a", "b", "c", "d"]
        .into_iter()
        .map(String::from)
        .collect();
    let ngrams = extract_ngrams(&tools, 3);
    assert_eq!(ngrams.len(), 3);
    assert_eq!(ngrams[0], names(&["a", "b", "c"]));
    assert_eq!(ngrams[1], names(&["b", "c", "d"]));
    assert_eq!(ngrams[2], names(&["a", "b", "c", "d"]));
}

#[test]
fn test_detect_patterns_basic() {
    let sequences = vec![
        ToolCallSequence {
            chat_id: 1,
            tool_names: names(&["web_search", "web_fetch", "todo_write"]),
        },
        ToolCallSequence {
            chat_id: 2,
            tool_names: names(&["web_search", "web_fetch", "todo_write"]),
        },
        ToolCallSequence {
            chat_id: 3,
            tool_names: names(&["web_search", "web_fetch", "todo_write"]),
        },
    ];

    let patterns = detect_patterns(&sequences, 3, 3);
    assert_eq!(patterns.len(), 1);
    assert_eq!(
        patterns[0].sequence,
        vec!["web_search", "web_fetch", "todo_write"]
    );
    assert_eq!(patterns[0].occurrences, 3);
}

#[test]
fn test_detect_patterns_below_threshold() {
    let sequences = vec![
        ToolCallSequence {
            chat_id: 1,
            tool_names: names(&["a", "b", "c"]),
        },
        ToolCallSequence {
            chat_id: 2,
            tool_names: names(&["a", "b", "c"]),
        },
    ];
    let patterns = detect_patterns(&sequences, 3, 3);
    assert!(patterns.is_empty());
}

#[test]
fn test_extract_skill_name() {
    let content = "---\nname: search-and-summarize\ndescription: test\n---\nbody";
    assert_eq!(
        extract_skill_name(content),
        Some("search-and-summarize".to_string())
    );
}

#[test]
fn test_extract_skill_name_missing() {
    assert_eq!(extract_skill_name("no frontmatter here"), None);
}

#[test]
fn test_validate_candidate_content_ok() {
    let content = "---\nname: test\ntrust_level: candidate\n---\nUse web_search to find info.";
    assert!(validate_candidate_content(content).is_ok());
}

#[test]
fn test_validate_candidate_content_forbidden_tool() {
    let content = "---\nname: test\n---\nUse bash to run commands.";
    assert!(validate_candidate_content(content).is_err());
}

#[test]
fn test_should_promote() {
    let health = SkillHealthRow {
        skill_name: "test".into(),
        total_activations: 5,
        successful_activations: 4,
        last_activated_at: "2026-04-22T00:00:00Z".into(),
        first_activated_at: "2026-04-20T00:00:00Z".into(),
    };
    assert!(should_promote(&health));

    let failing = SkillHealthRow {
        total_activations: 5,
        successful_activations: 1,
        ..health.clone()
    };
    assert!(!should_promote(&failing));

    let too_few = SkillHealthRow {
        total_activations: 2,
        successful_activations: 2,
        ..health
    };
    assert!(!should_promote(&too_few));
}

#[test]
fn test_hash_sequence() {
    let seq: Vec<String> = vec!["a", "b", "c"].into_iter().map(String::from).collect();
    assert_eq!(hash_sequence(&seq), "a|b|c");
}

fn health(total: i64, successful: i64) -> SkillHealthRow {
    SkillHealthRow {
        skill_name: "s".into(),
        total_activations: total,
        successful_activations: successful,
        last_activated_at: "l".into(),
        first_activated_at: "f".into(),
    }
}

#[test]
fn ngrams_have_eight_tools_at_most() {
    let tools: Vec<String> = (0..10).map(|i| i.to_string()).collect();
    let ngrams = extract_ngrams(&tools, 7);
    assert_eq!(ngrams.len(), 4 + 3);
    assert!(ngrams.iter().all(|n| n.len() <= 8));
    assert!(extract_ngrams(&tools[..2], 3).is_empty());
}

#[test]
fn patterns_count_sessions() {
    let seq = |chat_id, list: &[&str]| ToolCallSequence { chat_id, tool_names: names(list) };
    // A run that a session repeats counts once for it.
    let sequences = vec![
        seq(1, &["a", "b", "a", "b"]),
        seq(2, &["a", "b"]),
        seq(3, &["b", "a", "b"]),
        seq(4, &["x", "a", "b"]),
        seq(5, &["a", "b"]),
        seq(6, &["a", "b"]),
    ];
    let patterns = detect_patterns(&sequences, 2, 3);
    assert_eq!(patterns.len(), 1);
    assert_eq!(patterns[0].sequence, names(&["a", "b"]));
    assert_eq!(patterns[0].occurrences, 6);
    assert_eq!(patterns[0].hash, "a|b");
    assert_eq!(patterns[0].example_chat_ids, vec![1, 2, 3, 4, 5]);
    // A run that stands in a longer one is left out, however often it occurs.
    let patterns = detect_patterns(&sequences, 2, 2);
    assert_eq!(patterns.len(), 1);
    assert_eq!(patterns[0].sequence, names(&["b", "a", "b"]));
    assert_eq!(patterns[0].occurrences, 2);
    let sequences = vec![
        seq(1, &["a", "b", "c", "d"]),
        seq(2, &["a", "b", "c", "d"]),
        seq(3, &["a", "b", "c"]),
    ];
    let patterns = detect_patterns(&sequences, 3, 2);
    assert_eq!(patterns.len(), 1);
    assert_eq!(patterns[0].sequence, names(&["a", "b", "c", "d"]));
    assert_eq!(patterns[0].occurrences, 2);
    assert!(detect_patterns(&[], 0, 0).is_empty());
}

#[test]
fn models_are_asked() {
    let sequences = vec![ToolCallSequence { chat_id: -4, tool_names: names(&["a", "b"]) }];
    let pattern = &detect_patterns(&sequences, 2, 1)[0];
    let request = skill_generation_request(pattern);
    assert!(request.system.starts_with("You are a skill generator for RayClaw"));
    assert!(request.system.ends_with("Keep instructions concise (under 100 lines)"));
    assert_eq!(
        request.user,
        "Generate a skill for this repeated tool pattern:\n\nTool sequence (appeared 1 times across 1 sessions):\na -> b\n\nExample chat IDs: [-4]"
    );
    let request = skill_rewrite_request("body", &health(5, 1), "20", "312");
    assert!(request.system.starts_with("You are a skill improvement specialist"));
    assert_eq!(
        request.user,
        "This skill is failing. Please rewrite it.\n\nSuccess rate: 20% (1 / 5 activations)\nAverage tokens per use: 312\n\nCurrent SKILL.md:\n```\nbody\n```"
    );
}

#[test]
fn models_answer() {
    let blocks = || {
        vec![
            ResponseContentBlock::Text("a".into()),
            ResponseContentBlock::Other,
            ResponseContentBlock::Text("b".into()),
        ]
    };
    assert_eq!(generate_skill_content(Ok(blocks())), Ok("ab".to_string()));
    assert_eq!(rewrite_failing_skill(Ok(blocks())), Ok("ab".to_string()));
    let blank = || vec![ResponseContentBlock::Text(" \n".into())];
    assert_eq!(
        generate_skill_content(Ok(blank())),
        Err("LLM returned empty response".to_string())
    );
    assert_eq!(
        rewrite_failing_skill(Ok(blank())),
        Err("LLM returned empty rewrite".to_string())
    );
    assert_eq!(
        generate_skill_content(Err("e".into())),
        Err("LLM call failed: e".to_string())
    );
    assert_eq!(
        rewrite_failing_skill(Err("e".into())),
        Err("LLM rewrite call failed: e".to_string())
    );
}

#[test]
fn candidates_that_are_refused() {
    let missing = Err("Missing YAML frontmatter".to_string());
    let names_tool = |tool: &str| {
        Err(format!("Candidate skill references forbidden tool: {tool}"))
    };
    assert_eq!(validate_candidate_content("no mark"), missing);
    assert_eq!(validate_candidate_content("Use web_search --- then stop."), missing);
    assert_eq!(validate_candidate_content("---\nname: t\nUse web_search."), missing);
    assert_eq!(validate_candidate_content("---\n---\nUse web_search."), missing);
    assert_eq!(
        validate_candidate_content("---\nname: t\n---\nuse Edit_File and BASH"),
        names_tool("bash")
    );
    assert_eq!(
        validate_candidate_content("---\nname: t\n---\nuse WRITE_FILE"),
        names_tool("write_file")
    );
    assert_eq!(
        validate_candidate_content("---\nname: t\n---\nuse edit_file"),
        names_tool("edit_file")
    );
    // All that stands behind the closing mark counts, and nothing before it.
    assert_eq!(
        validate_candidate_content("---\nname: t\n---\nUse bash.\n---\nDone."),
        names_tool("bash")
    );
    assert_eq!(validate_candidate_content("---\nname: bash\n---\nfine"), Ok(()));
    let dots = "---\nname: x\ndescription: |\n  ...\n  use bash\n---\nBody";
    assert_eq!(validate_candidate_content(dots), Ok(()));
    // A frontmatter may stand in one line.
    let line = "--- name: bash description: d --- Use web_search.";
    assert_eq!(validate_candidate_content(line), Ok(()));
    assert_eq!(
        validate_candidate_content("--- name: t description: d --- Use Bash."),
        names_tool("bash")
    );
    assert_eq!(validate_candidate_content("---   --- Use web_search."), missing);
}

#[test]
fn names_are_without_quotes() {
    let name = |head: &str| extract_skill_name(&format!("---\n{head}\n---\nbody"));
    assert_eq!(name("  name: \"'a b'\"  "), Some("a b".to_string()));
    assert_eq!(name("name:\nname: x"), Some("x".to_string()));
    assert_eq!(name("rename: x"), None);
    assert_eq!(name("description: |\n  ...\nname: below"), Some("below".to_string()));
    assert_eq!(
        extract_skill_name("--- name: t description: d --- Body"),
        Some("t".to_string())
    );
    // A name stands in the frontmatter.
    assert_eq!(extract_skill_name("name: x"), None);
    assert_eq!(extract_skill_name("---\ndescription: d\n---\nname: body"), None);
}

#[test]
fn promotion_changes_the_frontmatter_only() {
    assert_eq!(
        promoted_content(
            "---\nname: x\ntrust_level: candidate\n---\nKeep trust_level: candidate here."
        ),
        "---\nname: x\ntrust_level: verified\n---\nKeep trust_level: candidate here."
    );
    assert_eq!(
        promoted_content("---\nd: |\n  ...\ntrust_level: candidate\n---\nBody"),
        "---\nd: |\n  ...\ntrust_level: verified\n---\nBody"
    );
    assert_eq!(
        promoted_content("--- name: x trust_level: candidate --- trust_level: candidate"),
        "--- name: x trust_level: verified --- trust_level: candidate"
    );
    assert_eq!(promoted_content("trust_level: candidate"), "trust_level: candidate");
}

#[test]
fn promotion_takes_more_than_seven_of_ten() {
    assert!(!should_promote(&health(10, 7)));
    assert!(should_promote(&health(10, 8)));
    assert!(should_promote(&health(3, 3)));
    assert!(!should_promote(&health(3, 2)));
}

#[test]
fn test_write_and_promote_candidate() {
    let content = "---\nname: test-skill\ndescription: test\ntrust_level: candidate\nsource: auto-generated\n---\nInstructions here.";
    assert_eq!(
        candidate_skill_path("/skills", "test-skill"),
        "/skills/auto-generated/test-skill/SKILL.md"
    );
    let updated = promoted_content(content);
    assert!(updated.contains("trust_level: verified"));
    assert!(!updated.contains("trust_level: candidate"));
}

#[test]
fn test_archive_skill() {
    assert_eq!(
        find_skill_dir("/skills", "old-skill", false, true),
        Ok("/skills/auto-generated/old-skill".to_string())
    );
    assert_eq!(
        find_skill_dir("/skills", "old-skill", true, true),
        Ok("/skills/old-skill".to_string())
    );
    assert_eq!(
        find_skill_dir("/skills", "old-skill", false, false),
        Err("Skill directory not found for 'old-skill' in /skills".to_string())
    );
    assert_eq!(archive_dir("/skills", "old-skill"), "/skills/.archive/old-skill");
    let metrics = RetirementMetrics {
        total_activations: 10,
        success_rate: "0.1".into(),
        avg_tokens: "500.0".into(),
        last_activated_at: "2026-03-01T00:00:00Z".into(),
    };
    let text = retirement_meta("stale: 30+ days unused", &Some(metrics));
    let meta: serde_json::Value = serde_json::from_str(&text).unwrap();
    assert_eq!(meta["reason"], "stale: 30+ days unused");
    assert_eq!(meta["metrics"]["total_activations"], 10);
    assert_eq!(meta["metrics"]["success_rate"], 0.1);
    assert_eq!(meta["metrics"]["avg_tokens"], 500.0);
    assert!(chrono::DateTime::parse_from_rfc3339(meta["archived_at"].as_str().unwrap()).is_ok());
    assert_eq!(
        retirement_meta_at("t", "r", &None).to_text(),
        "{\"archived_at\":\"t\",\"reason\":\"r\"}"
    );
}

#[test]
fn test_append_learning() {
    assert_eq!(learnings_path("/data"), "/data/learnings.jsonl");
    let line = learning_line(
        "skill_retire",
        "Retired old-skill",
        "unused for 30 days",
        "auto-generated skills need regular use to stay active",
    );
    assert!(line.ends_with("}\n"));
    let entry: serde_json::Value = serde_json::from_str(line.trim()).unwrap();
    assert_eq!(entry["source"], "skill_retire");
    assert_eq!(entry["title"], "Retired old-skill");
    assert_eq!(
        learning_entry_at("t", "s", "x", "c", "y").to_text(),
        "{\"confidence\":0.8,\"context\":\"c\",\"source\":\"s\",\"takeaway\":\"y\",\"timestamp\":\"t\",\"title\":\"x\"}"
    );
}
