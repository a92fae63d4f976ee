use rayclaw::skills::{
    command_candidates, command_exists, current_platform, missing_deps, normalize_platform,
    normalize_single_line_frontmatter, parse_skill_md, platform_allowed, read_skill_source, Host,
    SkillCompatibility, SkillEntry, SkillFrontmatter, SkillManager, SkillMetadata, TrustLevel,
};
use serde_yaml::Value;

fn texts(value: Option<&Value>) -> Vec<String> {
    match value {
        Some(Value::Sequence(items)) => items
            .iter()
            .filter_map(|v| v.as_str())
            .map(String::from)
            .collect(),
        _ => Vec::new(),
    }
}

fn text(value: Option<&Value>) -> Option<String> {
    value.and_then(|v| v.as_str()).map(String::from)
}

/// A description file, read as a program reads it.
fn parse(content: &str, dir: &str) -> Option<(SkillMetadata, String)> {
    let source = read_skill_source(content)?;
    let yaml: Value = serde_yaml::from_str(&source.yaml).ok()?;
    let compatibility = yaml.get("compatibility");
    let fm = SkillFrontmatter {
        name: text(yaml.get("name")),
        description: text(yaml.get("description")).unwrap_or_default(),
        platforms: texts(yaml.get("platforms")),
        deps: texts(yaml.get("deps")),
        compatibility: SkillCompatibility {
            os: texts(compatibility.and_then(|c| c.get("os"))),
            deps: texts(compatibility.and_then(|c| c.get("deps"))),
        },
        source: text(yaml.get("source")),
        version: text(yaml.get("version")),
        updated_at: text(yaml.get("updated_at")),
        trust_level: text(yaml.get("trust_level")),
    };
    parse_skill_md(&source, &fm, dir)
}

#[test]
fn test_parse_skill_md_valid() {
    let content = "---\nname: pdf\ndescription: Convert documents to PDF\nplatforms: [linux, darwin]\ndeps: [pandoc]\n---\nUse this skill to convert documents.\n";
    let result = parse(content, "/tmp/skills/pdf");
    assert!(result.is_some());
    let (meta, body) = result.unwrap();
    assert_eq!(meta.name, "pdf");
    assert_eq!(meta.description, "Convert documents to PDF");
    assert_eq!(meta.platforms, vec!["darwin", "linux"]);
    assert_eq!(meta.deps, vec!["pandoc"]);
    assert_eq!(meta.source, "local");
    assert_eq!(meta.trust_level, TrustLevel::Official);
    assert!(body.contains("Use this skill"));
}

#[test]
fn test_parse_skill_md_compatibility_os() {
    let content = "---\nname: apple-notes\ndescription: Apple Notes\ncompatibility:\n  os:\n    - darwin\n  deps:\n    - memo\n---\nInstructions.\n";
    let (meta, _) = parse(content, "/tmp/skills/apple-notes").unwrap();
    assert_eq!(meta.platforms, vec!["darwin"]);
    assert_eq!(meta.deps, vec!["memo"]);
}

#[test]
fn test_parse_skill_md_no_frontmatter() {
    let content = "Just some markdown without frontmatter.";
    assert!(parse(content, "/tmp/skills/test").is_none());
}

#[test]
fn test_parse_skill_md_single_line_frontmatter() {
    let content = "--- name: frontend-design description: Create distinctive UIs license: Complete terms in LICENSE.txt --- This skill guides creation of distinctive interfaces.";
    let result = parse(content, "/tmp/skills/frontend-design");
    assert!(result.is_some(), "single-line frontmatter should parse");
    let (meta, body) = result.unwrap();
    assert_eq!(meta.name, "frontend-design");
    assert!(meta.description.starts_with("Create distinctive"));
    assert!(body.contains("This skill guides"));
}

#[test]
fn test_normalize_single_line_frontmatter() {
    let content = "--- name: test description: A test skill --- Body here";
    let result = normalize_single_line_frontmatter(content);
    assert!(result.is_some());
    let norm = result.unwrap();
    assert!(norm.starts_with("---\n"));
    assert!(norm.contains("\nname: test"));
    assert!(norm.contains("\ndescription: A test skill"));
    assert!(norm.contains("---\nBody here"));
}

#[test]
fn test_platform_allowed_empty_means_all() {
    assert!(platform_allowed(&[], "linux"));
}

#[test]
fn test_parse_skill_md_trust_level_candidate() {
    let content = "---\nname: auto-search\ndescription: Auto search skill\ntrust_level: candidate\nsource: auto-generated\n---\nSearch instructions.\n";
    let (meta, _) = parse(content, "/tmp/skills/auto-search").unwrap();
    assert_eq!(meta.trust_level, TrustLevel::Candidate);
    assert_eq!(meta.source, "auto-generated");
}

#[test]
fn test_trust_level_from_str() {
    assert_eq!(TrustLevel::from_str_opt("candidate"), TrustLevel::Candidate);
    assert_eq!(TrustLevel::from_str_opt("verified"), TrustLevel::Verified);
    assert_eq!(TrustLevel::from_str_opt("official"), TrustLevel::Official);
    assert_eq!(TrustLevel::from_str_opt("archived"), TrustLevel::Archived);
    assert_eq!(TrustLevel::from_str_opt("unknown"), TrustLevel::Official);
}

fn host(platform: &str, commands: &[&str]) -> Host {
    Host {
        platform: platform.into(),
        commands: commands.iter().map(|c| c.to_string()).collect(),
    }
}

fn skill(name: &str, trust_level: TrustLevel) -> SkillMetadata {
    SkillMetadata {
        name: name.into(),
        description: format!("about {name}"),
        dir_path: format!("/skills/{name}"),
        platforms: Vec::new(),
        deps: Vec::new(),
        source: "local".into(),
        version: None,
        updated_at: None,
        trust_level,
    }
}

fn entry(dir_name: &str, skill: SkillMetadata) -> SkillEntry {
    SkillEntry { dir_name: Some(dir_name.into()), skill: Some(skill) }
}

#[test]
fn levels_of_trust() {
    for level in [
        TrustLevel::Archived,
        TrustLevel::Candidate,
        TrustLevel::Verified,
        TrustLevel::Official,
    ] {
        assert_eq!(TrustLevel::from_str_opt(&level.label()), level);
    }
    assert_eq!(TrustLevel::from_str_opt("  CANDIDATE\n"), TrustLevel::Candidate);
    assert_eq!(TrustLevel::default(), TrustLevel::Official);
    assert!(TrustLevel::Archived < TrustLevel::Candidate);
    assert!(TrustLevel::Verified < TrustLevel::Official);
}

#[test]
fn platforms() {
    assert_eq!(current_platform("macos"), "darwin");
    assert_eq!(current_platform("linux"), "linux");
    assert_eq!(current_platform("windows"), "windows");
    assert_eq!(current_platform("haiku"), "unknown");
    assert_eq!(normalize_platform(" OSX "), "darwin");
    assert_eq!(normalize_platform("Linux"), "linux");
    let list = |names: &[&str]| names.iter().map(|n| n.to_string()).collect::<Vec<_>>();
    assert!(platform_allowed(&list(&["macOS"]), "darwin"));
    assert!(platform_allowed(&list(&["x", "ALL"]), "linux"));
    assert!(platform_allowed(&list(&["*"]), "linux"));
    assert!(!platform_allowed(&list(&["darwin", "windows"]), "linux"));
}

#[test]
fn commands_of_skills() {
    let here = host("linux", &["pandoc"]);
    assert!(command_exists("pandoc", &here));
    assert!(command_exists(" ", &here));
    assert!(!command_exists("memo", &here));
    let deps = vec!["memo".to_string(), "pandoc".to_string(), "gh".to_string()];
    assert_eq!(missing_deps(&deps, &here), vec!["memo", "gh"]);
    assert_eq!(command_candidates("linux", "gh", ".EXE"), vec!["gh"]);
    assert_eq!(
        command_candidates("windows", "gh", ".EXE; .Cmd;;"),
        vec!["gh", "gh.exe", "gh.cmd"]
    );
    assert_eq!(command_candidates("windows", "GH.EXE", ".exe;.cmd"), vec!["GH.EXE"]);
}

#[test]
fn sources_of_skills() {
    let read = |content: &str| read_skill_source(content).map(|s| (s.yaml, s.body));
    let pair = |yaml: &str, body: &str| Some((yaml.to_string(), body.to_string()));
    assert_eq!(read("---\nname: a\n---\n\nBody\n"), pair("name: a\n", "Body"));
    assert_eq!(read("\u{feff}---\nname: a\n---\nBody"), pair("name: a\n", "Body"));
    assert_eq!(read("---\nname: a\n...\nBody"), pair("name: a\n", "Body"));
    assert_eq!(read("---\r\nname: a\r\n---\r\nBody"), pair("name: a\n", "Body"));
    assert_eq!(read("---\nname: a\n---\nBody\n---\nEnd"), pair("name: a\n", "Body\n---\nEnd"));
    assert_eq!(read("---\nname: a"), pair("name: a\n", ""));
    assert_eq!(read("---\n\n---\nBody"), None);
    assert_eq!(read("name: a"), None);
    assert_eq!(read("---  --- Body"), None);
    assert_eq!(
        normalize_single_line_frontmatter("--- name: a deps: b --- Body"),
        Some("---\nname: a\ndeps: b\n---\nBody".to_string())
    );
    assert_eq!(normalize_single_line_frontmatter("--- name: a"), None);
    assert_eq!(normalize_single_line_frontmatter("---   --- x"), None);
}

#[test]
fn descriptions_without_names() {
    assert!(parse("---\ndescription: x\n---\nBody", "/d").is_none());
    assert!(parse("---\nname: ' '\n---\nBody", "/d").is_none());
    let (meta, body) = parse(
        "---\nname: ' n '\nplatforms: [OSX, linux, macos, '']\ndeps: [' b ', a, b]\nsource: ' '\nversion: ' 1 '\nupdated_at: ''\n---\nBody",
        "/d",
    )
    .unwrap();
    assert_eq!(meta.name, "n");
    assert_eq!(meta.dir_path, "/d");
    assert_eq!(meta.platforms, vec!["darwin", "linux"]);
    assert_eq!(meta.deps, vec!["a", "b"]);
    assert_eq!(meta.source, "local");
    assert_eq!(meta.version.as_deref(), Some("1"));
    assert_eq!(meta.updated_at, None);
    assert_eq!(body, "Body");
}

fn entries() -> Vec<SkillEntry> {
    vec![
        entry("zeta", skill("zeta", TrustLevel::Official)),
        entry(
            "mac",
            SkillMetadata { platforms: vec!["darwin".into()], ..skill("mac", TrustLevel::Official) },
        ),
        entry(
            "needs",
            SkillMetadata {
                deps: vec!["memo".into(), "gh".into()],
                ..skill("needs", TrustLevel::Official)
            },
        ),
        entry(".hidden", skill("hidden", TrustLevel::Official)),
        entry("auto-generated", skill("auto", TrustLevel::Official)),
        entry("gone", skill("gone", TrustLevel::Archived)),
        entry("alpha", skill("alpha", TrustLevel::Candidate)),
        SkillEntry { dir_name: Some("empty".into()), skill: None },
        SkillEntry { dir_name: None, skill: Some(skill("odd", TrustLevel::Verified)) },
    ]
}

#[test]
fn skills_are_found() {
    let manager = SkillManager::from_skills_dir("/skills");
    assert_eq!(manager.skills_dir(), "/skills");
    assert_eq!(SkillManager::new("/data").skills_dir(), "/data/skills");
    assert_eq!(manager.discovery_dirs(false), vec!["/skills"]);
    assert_eq!(manager.discovery_dirs(true), vec!["/skills", "/skills/auto-generated"]);
    let here = host("linux", &[]);
    let names: Vec<String> =
        manager.discover_skills(&entries(), &here).iter().map(|s| s.name.clone()).collect();
    assert_eq!(names, vec!["alpha", "odd", "zeta"]);
    let all = manager.discover_all_skills(&entries(), &here);
    let states: Vec<(&str, bool)> =
        all.iter().map(|i| (i.metadata.name.as_str(), i.available)).collect();
    assert_eq!(
        states,
        vec![("alpha", true), ("mac", false), ("needs", false), ("odd", true), ("zeta", true)]
    );
    assert_eq!(
        all[1].unavailable_reason.as_deref(),
        Some("Skill 'mac' is not available on this platform (current: linux, supported: darwin).")
    );
    assert_eq!(
        all[2].unavailable_reason.as_deref(),
        Some("Skill 'needs' is missing required dependencies: memo, gh")
    );
    assert_eq!(all[0].unavailable_reason, None);
}

#[test]
fn skills_of_one_name_keep_their_order() {
    let first = SkillMetadata { dir_path: "/1".into(), ..skill("same", TrustLevel::Official) };
    let second = SkillMetadata { dir_path: "/2".into(), ..skill("same", TrustLevel::Official) };
    let list = vec![
        entry("b", skill("zz", TrustLevel::Official)),
        entry("a", first),
        entry("c", second),
    ];
    let found = SkillManager::new("/d").discover_skills(&list, &host("linux", &[]));
    let dirs: Vec<&str> = found.iter().map(|s| s.dir_path.as_str()).collect();
    assert_eq!(dirs, vec!["/1", "/2", "/skills/zz"]);
}

#[test]
fn skills_are_loaded() {
    let manager = SkillManager::new("/data");
    let here = host("linux", &[]);
    let reread = || Some((skill("zeta", TrustLevel::Official), "body".to_string()));
    assert_eq!(manager.skill_to_load("zeta", &entries(), &here).ok().unwrap().name, "zeta");
    let (meta, body) =
        manager.load_skill_checked("zeta", &entries(), &here, reread()).ok().unwrap();
    assert_eq!((meta.name.as_str(), body.as_str()), ("zeta", "body"));
    assert_eq!(
        manager.load_skill_checked("zeta", &entries(), &here, None).err(),
        Some("Skill 'zeta' exists but could not be loaded.".to_string())
    );
    assert_eq!(
        manager.load_skill_checked("needs", &entries(), &here, reread()).err(),
        Some("Skill 'needs' is missing required dependencies: memo, gh".to_string())
    );
    assert_eq!(
        manager.load_skill_checked("gone", &entries(), &here, reread()).err(),
        Some("Skill 'gone' not found. Available skills: alpha, odd, zeta".to_string())
    );
    assert_eq!(
        manager.load_skill_checked("x", &Vec::new(), &here, None).err(),
        Some("Skill 'x' not found. No skills are currently available.".to_string())
    );
    assert!(manager.load_skill("zeta", &entries(), &here, reread()).is_some());
    assert!(manager.load_skill("needs", &entries(), &here, reread()).is_none());
}

#[test]
fn test_build_skills_catalog_empty() {
    let sm = SkillManager::new("/tmp/rayclaw_skills_test");
    let catalog = sm.build_skills_catalog(&Vec::new(), &host("linux", &[]));
    assert!(catalog.is_empty());
}

#[test]
fn catalogs_and_lists() {
    let manager = SkillManager::new("/data");
    let here = host("linux", &[]);
    assert_eq!(
        manager.build_skills_catalog(&entries(), &here),
        "<available_skills>\n- alpha [candidate]: about alpha\n- odd [verified]: about odd\n- zeta: about zeta\n</available_skills>"
    );
    assert_eq!(
        manager.list_skills_formatted(&entries(), &here),
        "Available skills (3):\n\n• alpha — about alpha [local]\n• odd — about odd [local]\n• zeta — about zeta [local]\n"
    );
    assert_eq!(
        manager.list_skills_formatted(&Vec::new(), &here),
        "No skills available on this platform/runtime."
    );
}
