//! Skills: their description files, where they can run, and how they are found
//! and listed.

use crate::frontmatter;
use crate::paths;
use crate::text;
use vstd::prelude::*;

verus! {

broadcast use vstd::string::group_string_axioms;

// ---------------------------------------------------------------------------
// Trust
// ---------------------------------------------------------------------------

/// How far a skill is trusted.
#[derive(Debug, Clone, Copy, PartialEq, Eq, PartialOrd, Ord, Default, Structural)]
pub enum TrustLevel {
    /// Not loaded.
    Archived,
    /// Generated, not yet proved.
    Candidate,
    /// Generated, and proved in use.
    Verified,
    /// Written by hand.
    #[default]
    Official,
}

/// The level that a word stands for; any other word stands for the highest.
pub open spec fn level_of(s: Seq<char>) -> TrustLevel {
    let word = text::ascii_lower(text::trim(s));
    if word == "archived"@ {
        TrustLevel::Archived
    } else if word == "candidate"@ {
        TrustLevel::Candidate
    } else if word == "verified"@ {
        TrustLevel::Verified
    } else {
        TrustLevel::Official
    }
}

/// The word for a level.
pub open spec fn level_word(level: TrustLevel) -> Seq<char> {
    match level {
        TrustLevel::Archived => "archived"@,
        TrustLevel::Candidate => "candidate"@,
        TrustLevel::Verified => "verified"@,
        TrustLevel::Official => "official"@,
    }
}

impl TrustLevel {
    /// The level that a word stands for.
    pub fn from_str_opt(s: &str) -> (res: TrustLevel)
        ensures
            res == level_of(s@),
    {
        let word = text::ascii_lowered(text::trimmed(s).as_str());
        if text::same(word.as_str(), "archived") {
            TrustLevel::Archived
        } else if text::same(word.as_str(), "candidate") {
            TrustLevel::Candidate
        } else if text::same(word.as_str(), "verified") {
            TrustLevel::Verified
        } else {
            TrustLevel::Official
        }
    }

    /// The word for this level.
    pub fn label(&self) -> (res: String)
        ensures
            res@ == level_word(*self),
    {
        match self {
            TrustLevel::Archived => text::owned("archived"),
            TrustLevel::Candidate => text::owned("candidate"),
            TrustLevel::Verified => text::owned("verified"),
            TrustLevel::Official => text::owned("official"),
        }
    }
}

/// The word for a level stands for that level.
pub proof fn law_level_word_read_back(level: TrustLevel)
    ensures
        level_of(level_word(level)) == level,
{
    reveal_strlit("archived");
    reveal_strlit("candidate");
    reveal_strlit("verified");
    reveal_strlit("official");
    let word = level_word(level);
    assert(text::trim_start(word) == word);
    assert(text::trim_end(word) == word);
    assert(text::ascii_lower(word) =~= word);
    assert("official"@.len() == 8 && "archived"@.len() == 8);
    assert("official"@[0] != "archived"@[0]);
    assert("official"@[0] != "verified"@[0]);
    assert("candidate"@.len() == 9);
    assert("verified"@[0] != "archived"@[0]);
}

// ---------------------------------------------------------------------------
// Platforms and commands
// ---------------------------------------------------------------------------

/// The machine that skills run on: its platform, and the commands that it has.
pub struct Host {
    pub platform: String,
    pub commands: Vec<String>,
}

/// The platform of an operating system.
pub open spec fn platform_of(os: Seq<char>) -> Seq<char> {
    if os == "macos"@ {
        "darwin"@
    } else if os == "linux"@ || os == "windows"@ {
        os
    } else {
        "unknown"@
    }
}

/// The platform of an operating system.
pub fn current_platform(os: &str) -> (res: String)
    ensures
        res@ == platform_of(os@),
{
    if text::same(os, "macos") {
        text::owned("darwin")
    } else if text::same(os, "linux") || text::same(os, "windows") {
        os.to_owned()
    } else {
        text::owned("unknown")
    }
}

/// The usual name of a platform.
pub open spec fn platform_name(value: Seq<char>) -> Seq<char> {
    let v = text::ascii_lower(text::trim(value));
    if v == "macos"@ || v == "osx"@ {
        "darwin"@
    } else {
        v
    }
}

/// The usual name of a platform.
pub fn normalize_platform(value: &str) -> (res: String)
    ensures
        res@ == platform_name(value@),
{
    let v = text::ascii_lowered(text::trimmed(value).as_str());
    if text::same(v.as_str(), "macos") || text::same(v.as_str(), "osx") {
        text::owned("darwin")
    } else {
        v
    }
}

/// Whether a name stands for every platform or for the current one.
pub open spec fn names_platform(value: Seq<char>, current: Seq<char>) -> bool {
    let p = platform_name(value);
    p == "all"@ || p == "*"@ || p == current
}

/// Whether what is listed runs on the current platform; an empty list runs on
/// every one.
pub open spec fn runs_on(platforms: Seq<Seq<char>>, current: Seq<char>) -> bool {
    platforms.len() == 0 || exists|i: int|
        0 <= i < platforms.len() && names_platform(#[trigger] platforms[i], current)
}

/// Whether what is listed runs on the current platform.
pub fn platform_allowed(platforms: &[String], current: &str) -> (res: bool)
    ensures
        res == runs_on(text::strs(platforms@), current@),
{
    let ghost views = text::strs(platforms@);
    if platforms.len() == 0 {
        return true;
    }
    let mut i: usize = 0;
    while i < platforms.len()
        invariant
            i <= platforms@.len(),
            views == text::strs(platforms@),
            forall|j: int| 0 <= j < i ==> !names_platform(#[trigger] views[j], current@),
        decreases platforms@.len() - i,
    {
        assert(views[i as int] == platforms@[i as int]@);
        let p = normalize_platform(platforms[i].as_str());
        if text::same(p.as_str(), "all") || text::same(p.as_str(), "*") || text::same(
            p.as_str(),
            current,
        ) {
            return true;
        }
        i += 1;
    }
    false
}

/// Whether a command can be had: an empty one always, else one that the machine
/// has.
pub open spec fn command_available(command: Seq<char>, commands: Seq<Seq<char>>) -> bool {
    text::trim(command).len() == 0 || commands.contains(command)
}

/// Whether a command can be had.
pub fn command_exists(command: &str, host: &Host) -> (res: bool)
    ensures
        res == command_available(command@, text::strs(host.commands@)),
{
    if text::is_blank(command) {
        return true;
    }
    let ghost views = text::strs(host.commands@);
    let mut i: usize = 0;
    while i < host.commands.len()
        invariant
            i <= host.commands@.len(),
            views == text::strs(host.commands@),
            forall|j: int| 0 <= j < i ==> views[j] != command@,
        decreases host.commands@.len() - i,
    {
        if text::same(host.commands[i].as_str(), command) {
            assert(views[i as int] == command@);
            return true;
        }
        i += 1;
    }
    false
}

/// The file extensions in a list separated by semicolons, in lower case.
pub open spec fn extension_list(parts: Seq<Seq<char>>) -> Seq<Seq<char>>
    decreases parts.len(),
{
    if parts.len() == 0 {
        Seq::empty()
    } else {
        let ext = text::ascii_lower(text::trim(parts.last()));
        let front = extension_list(parts.drop_last());
        if ext.len() > 0 {
            front.push(ext)
        } else {
            front
        }
    }
}

/// The names under which a command may be found: its own, and on Windows, where
/// it has none of the extensions of programs, its name with each of them.
pub open spec fn candidate_names(
    platform: Seq<char>,
    command: Seq<char>,
    pathext: Seq<char>,
) -> Seq<Seq<char>> {
    let exts = extension_list(text::split(pathext, ';'));
    let has_ext = exists|i: int|
        0 <= i < exts.len() && text::ends(text::ascii_lower(command), #[trigger] exts[i]);
    if platform != "windows"@ || has_ext {
        seq![command]
    } else {
        seq![command] + Seq::new(exts.len(), |i: int| command + exts[i])
    }
}

/// The names under which a command may be found.
pub fn command_candidates(platform: &str, command: &str, pathext: &str) -> (res: Vec<String>)
    ensures
        text::strs(res@) == candidate_names(platform@, command@, pathext@),
{
    let mut out: Vec<String> = Vec::new();
    out.push(command.to_owned());
    assert(text::strs(out@) =~= seq![command@]);
    if !text::same(platform, "windows") {
        return out;
    }
    let parts = text::split_on(pathext, ';');
    let ghost part_views = text::strs(parts@);
    let mut exts: Vec<String> = Vec::new();
    let mut k: usize = 0;
    assert(text::strs(exts@) =~= extension_list(part_views.take(0)));
    while k < parts.len()
        invariant
            k <= parts@.len(),
            part_views == text::strs(parts@),
            text::strs(exts@) == extension_list(part_views.take(k as int)),
        decreases parts@.len() - k,
    {
        let ghost before = text::strs(exts@);
        assert(part_views.take(k + 1).drop_last() =~= part_views.take(k as int));
        assert(part_views.take(k + 1).last() == parts@[k as int]@);
        let ext = text::ascii_lowered(text::trimmed(parts[k].as_str()).as_str());
        if !ext.as_str().is_empty() {
            exts.push(ext);
            assert(text::strs(exts@) =~= before.push(ext@));
        }
        k += 1;
    }
    assert(part_views.take(parts@.len() as int) =~= part_views);
    let ghost ext_views = text::strs(exts@);
    let lower = text::ascii_lowered(command);
    let mut i: usize = 0;
    while i < exts.len()
        invariant
            i <= exts@.len(),
            ext_views == text::strs(exts@),
            lower@ == text::ascii_lower(command@),
            text::strs(out@) == seq![command@],
            ext_views == extension_list(text::split(pathext@, ';')),
            platform@ == "windows"@,
            forall|j: int| 0 <= j < i ==> !text::ends(lower@, #[trigger] ext_views[j]),
        decreases exts@.len() - i,
    {
        assert(ext_views[i as int] == exts@[i as int]@);
        if text::ends_with(lower.as_str(), exts[i].as_str()) {
            return out;
        }
        i += 1;
    }
    let ghost wanted = Seq::new(ext_views.len(), |i: int| command@ + ext_views[i]);
    let mut j: usize = 0;
    assert(text::strs(out@) =~= seq![command@] + wanted.take(0));
    while j < exts.len()
        invariant
            j <= exts@.len(),
            ext_views == text::strs(exts@),
            wanted == Seq::new(ext_views.len(), |i: int| command@ + ext_views[i]),
            text::strs(out@) == seq![command@] + wanted.take(j as int),
        decreases exts@.len() - j,
    {
        let ghost before = text::strs(out@);
        let name = text::cat(command, exts[j].as_str());
        out.push(name);
        assert(text::strs(out@) =~= before.push(name@));
        assert(text::strs(out@) =~= seq![command@] + wanted.take(j + 1));
        j += 1;
    }
    assert(wanted.take(exts@.len() as int) =~= wanted);
    out
}

/// Those of the commands that cannot be had, in their order.
pub open spec fn lacking(deps: Seq<Seq<char>>, commands: Seq<Seq<char>>) -> Seq<Seq<char>>
    decreases deps.len(),
{
    if deps.len() == 0 {
        Seq::empty()
    } else {
        let front = lacking(deps.drop_last(), commands);
        if command_available(deps.last(), commands) {
            front
        } else {
            front.push(deps.last())
        }
    }
}

/// Those of the commands that cannot be had, in their order.
pub fn missing_deps(deps: &[String], host: &Host) -> (res: Vec<String>)
    ensures
        text::strs(res@) == lacking(text::strs(deps@), text::strs(host.commands@)),
{
    let ghost all = text::strs(deps@);
    let ghost commands = text::strs(host.commands@);
    let mut out: Vec<String> = Vec::new();
    let mut i: usize = 0;
    assert(text::strs(out@) =~= lacking(all.take(0), commands));
    while i < deps.len()
        invariant
            i <= deps@.len(),
            all == text::strs(deps@),
            commands == text::strs(host.commands@),
            text::strs(out@) == lacking(all.take(i as int), commands),
        decreases deps@.len() - i,
    {
        let ghost before = text::strs(out@);
        assert(all.take(i + 1).drop_last() =~= all.take(i as int));
        assert(all.take(i + 1).last() == deps@[i as int]@);
        if !command_exists(deps[i].as_str(), host) {
            out.push(deps[i].clone());
            assert(text::strs(out@) =~= before.push(deps@[i as int]@));
        }
        i += 1;
    }
    assert(all.take(deps@.len() as int) =~= all);
    out
}

// ---------------------------------------------------------------------------
// Description files
// ---------------------------------------------------------------------------

/// What is known of a skill.
#[derive(Debug, Clone)]
pub struct SkillMetadata {
    pub name: String,
    pub description: String,
    pub dir_path: String,
    pub platforms: Vec<String>,
    pub deps: Vec<String>,
    pub source: String,
    pub version: Option<String>,
    pub updated_at: Option<String>,
    pub trust_level: TrustLevel,
}

/// The mathematical form of a `SkillMetadata`.
pub struct SkillV {
    pub name: Seq<char>,
    pub description: Seq<char>,
    pub dir_path: Seq<char>,
    pub platforms: Seq<Seq<char>>,
    pub deps: Seq<Seq<char>>,
    pub source: Seq<char>,
    pub version: Option<Seq<char>>,
    pub updated_at: Option<Seq<char>>,
    pub trust_level: TrustLevel,
}

impl SkillMetadata {
    pub open spec fn view(self) -> SkillV {
        SkillV {
            name: self.name@,
            description: self.description@,
            dir_path: self.dir_path@,
            platforms: text::strs(self.platforms@),
            deps: text::strs(self.deps@),
            source: self.source@,
            version: text::opt(self.version),
            updated_at: text::opt(self.updated_at),
            trust_level: self.trust_level,
        }
    }
}

/// The views of skills.
pub open spec fn skill_views(v: Seq<SkillMetadata>) -> Seq<SkillV> {
    Seq::new(v.len(), |i: int| v[i]@)
}

/// A copy of an optional text.
fn copy_opt(v: &Option<String>) -> (res: Option<String>)
    ensures
        text::opt(res) == text::opt(*v),
{
    match v {
        Some(t) => Some(t.clone()),
        None => None,
    }
}

impl SkillMetadata {
    /// The same description again.
    pub fn copy(&self) -> (res: SkillMetadata)
        ensures
            res@ == self@,
    {
        SkillMetadata {
            name: self.name.clone(),
            description: self.description.clone(),
            dir_path: self.dir_path.clone(),
            platforms: text::copies(&self.platforms),
            deps: text::copies(&self.deps),
            source: self.source.clone(),
            version: copy_opt(&self.version),
            updated_at: copy_opt(&self.updated_at),
            trust_level: self.trust_level,
        }
    }
}

/// A skill, and whether it can run here.
#[derive(Debug, Clone)]
pub struct SkillInfo {
    pub metadata: SkillMetadata,
    pub available: bool,
    /// Why it cannot.
    pub unavailable_reason: Option<String>,
}

/// The platforms and commands that a frontmatter lists apart.
#[derive(Debug, Default)]
pub struct SkillCompatibility {
    pub os: Vec<String>,
    pub deps: Vec<String>,
}

/// The frontmatter of a description file.
#[derive(Debug, Default)]
pub struct SkillFrontmatter {
    pub name: Option<String>,
    pub description: String,
    pub platforms: Vec<String>,
    pub deps: Vec<String>,
    pub compatibility: SkillCompatibility,
    pub source: Option<String>,
    pub version: Option<String>,
    pub updated_at: Option<String>,
    pub trust_level: Option<String>,
}

/// A key of a frontmatter at the beginning of a line of its own.
pub open spec fn key_on_line(yaml: Seq<char>, key: Seq<char>) -> Seq<char> {
    text::replace_first(yaml, " "@ + key, "\n"@ + key)
}

/// The keys of a frontmatter each at the beginning of a line of its own.
pub open spec fn keys_on_lines(yaml: Seq<char>) -> Seq<char> {
    let y1 = key_on_line(yaml, "name:"@);
    let y2 = key_on_line(y1, "description:"@);
    let y3 = key_on_line(y2, "license:"@);
    let y4 = key_on_line(y3, "platforms:"@);
    let y5 = key_on_line(y4, "deps:"@);
    let y6 = key_on_line(y5, "compatibility:"@);
    let y7 = key_on_line(y6, "source:"@);
    let y8 = key_on_line(y7, "version:"@);
    let y9 = key_on_line(y8, "updated_at:"@);
    key_on_line(y9, "trust_level:"@)
}

/// A file whose frontmatter stands in its first line, with the frontmatter in
/// lines of its own; none where it does not stand so.
pub open spec fn unfolded(content: Seq<char>) -> Option<Seq<char>> {
    if !text::starts(content, "--- "@) {
        None
    } else {
        let after = content.skip(4);
        match text::find(after, " ---"@) {
            None => None,
            Some(k) => {
                let yaml = text::trim(after.take(k));
                let body = text::trim_start(after.skip(k + 4));
                if yaml.len() == 0 {
                    None
                } else {
                    Some("---\n"@ + keys_on_lines(yaml) + "\n---\n"@ + body)
                }
            },
        }
    }
}

fn put_key_on_line(yaml: &str, key: &str) -> (res: String)
    ensures
        res@ == key_on_line(yaml@, key@),
{
    let pat = text::cat(" ", key);
    let to = text::cat("\n", key);
    text::replaced_first(yaml, pat.as_str(), to.as_str())
}

/// A frontmatter in one line, with each key on a line of its own.
pub(crate) fn put_keys_on_lines(yaml: &str) -> (res: String)
    ensures
        res@ == keys_on_lines(yaml@),
{
    let y1 = put_key_on_line(yaml, "name:");
    let y2 = put_key_on_line(y1.as_str(), "description:");
    let y3 = put_key_on_line(y2.as_str(), "license:");
    let y4 = put_key_on_line(y3.as_str(), "platforms:");
    let y5 = put_key_on_line(y4.as_str(), "deps:");
    let y6 = put_key_on_line(y5.as_str(), "compatibility:");
    let y7 = put_key_on_line(y6.as_str(), "source:");
    let y8 = put_key_on_line(y7.as_str(), "version:");
    let y9 = put_key_on_line(y8.as_str(), "updated_at:");
    put_key_on_line(y9.as_str(), "trust_level:")
}

/// A file whose frontmatter stands in its first line, with the frontmatter in
/// lines of its own.
pub fn normalize_single_line_frontmatter(content: &str) -> (res: Option<String>)
    ensures
        text::opt(res) == unfolded(content@),
{
    proof {
        reveal_strlit("--- ");
        reveal_strlit(" ---");
    }
    let after = match text::after_prefix(content, "--- ") {
        Some(rest) => rest,
        None => {
            return None;
        },
    };
    assert(after@ == content@.skip(4));
    let v = text::to_chars(after.as_str());
    let k: usize = match text::position(&v, " ---") {
        Some(k) => k,
        None => {
            return None;
        },
    };
    let head = text::from_range(&v, 0, k);
    assert(head@ =~= after@.take(k as int));
    let yaml = text::trimmed(head.as_str());
    if yaml.as_str().is_empty() {
        return None;
    }
    let tail = text::from_range(&v, k + 4, v.len());
    assert(tail@ =~= after@.skip(k + 4));
    let body = text::trimmed_start(tail.as_str());
    let lines = put_keys_on_lines(yaml.as_str());
    Some(text::cat4("---\n", lines.as_str(), "\n---\n", body.as_str()))
}

/// The two parts of a description file.
pub struct SkillSource {
    /// The frontmatter, as YAML.
    pub yaml: String,
    /// What stands below it.
    pub body: String,
}

/// The lines, each with a line feed behind it.
pub open spec fn ended(lines: Seq<Seq<char>>) -> Seq<char>
    decreases lines.len(),
{
    if lines.len() == 0 {
        Seq::empty()
    } else {
        ended(lines.drop_last()) + lines.last().push('\n')
    }
}

/// A file with its frontmatter in lines of its own, without the marks of byte
/// order in front.
pub open spec fn standard_form(content: Seq<char>) -> Option<Seq<char>> {
    let plain = text::strip_front(content, '\u{feff}');
    if frontmatter::opening(plain) is Some {
        Some(plain)
    } else {
        unfolded(plain)
    }
}

/// The frontmatter of a file and what stands below the line that ends it; without
/// such a line all is frontmatter.
pub open spec fn halves(input: Seq<char>) -> Option<(Seq<char>, Seq<char>)> {
    match frontmatter::opening(input) {
        None => None,
        Some(head) => match frontmatter::closing(input, head, true) {
            Some(close) => Some(
                (input.subrange(head, close), input.skip(frontmatter::after_line(input, close))),
            ),
            None => Some((input.skip(head), Seq::empty())),
        },
    }
}

/// The two parts of a description file; none where it has no frontmatter.
pub open spec fn source_of(content: Seq<char>) -> Option<(Seq<char>, Seq<char>)> {
    match standard_form(content) {
        None => None,
        Some(input) => match halves(input) {
            None => None,
            Some((head, body)) => {
                let yaml = ended(text::lines(head));
                if text::trim(yaml).len() == 0 {
                    None
                } else {
                    Some((yaml, text::trim(body)))
                }
            },
        },
    }
}

/// The lines, each with a line feed behind it.
fn end_lines(lines: &Vec<String>) -> (res: String)
    ensures
        res@ == ended(text::strs(lines@)),
{
    let ghost views = text::strs(lines@);
    let mut out = String::new();
    let mut i: usize = 0;
    assert(views.take(0) =~= Seq::empty());
    while i < lines.len()
        invariant
            i <= lines@.len(),
            views == text::strs(lines@),
            out@ == ended(views.take(i as int)),
        decreases lines@.len() - i,
    {
        let ghost before = out@;
        assert(views.take(i + 1).drop_last() =~= views.take(i as int));
        out.append(lines[i].as_str());
        out.push('\n');
        assert(out@ =~= before + views[i as int].push('\n'));
        i += 1;
    }
    assert(views.take(i as int) =~= views);
    out
}

/// The frontmatter of a file and what stands below the line that ends it.
fn halve(input: &str) -> (res: Option<(String, String)>)
    ensures
        match res {
            Some((head, body)) => halves(input@) == Some((head@, body@)),
            None => halves(input@) is None,
        },
{
    let v = text::to_chars(input);
    let head: usize = match frontmatter::find_opening(&v) {
        Some(head) => head,
        None => {
            return None;
        },
    };
    match frontmatter::find_closing(&v, head, true) {
        Some(close) => {
            let below: usize = frontmatter::find_after_line(&v, close);
            let first = text::from_range(&v, head, close);
            let second = text::from_range(&v, below, v.len());
            assert(second@ =~= input@.skip(below as int));
            Some((first, second))
        },
        None => {
            let first = text::from_range(&v, head, v.len());
            assert(first@ =~= input@.skip(head as int));
            Some((first, String::new()))
        },
    }
}

/// The two parts of a description file; none where it has no frontmatter.
pub fn read_skill_source(content: &str) -> (res: Option<SkillSource>)
    ensures
        match res {
            Some(s) => source_of(content@) == Some((s.yaml@, s.body@)),
            None => source_of(content@) is None,
        },
{
    let plain = text::stripped_front(content, '\u{feff}');
    let chars = text::to_chars(plain.as_str());
    let input = if frontmatter::find_opening(&chars).is_some() {
        plain
    } else {
        match normalize_single_line_frontmatter(plain.as_str()) {
            Some(unfolded) => unfolded,
            None => {
                return None;
            },
        }
    };
    match halve(input.as_str()) {
        None => None,
        Some((head, below)) => {
            let lines = text::lines_of(head.as_str());
            let yaml = end_lines(&lines);
            if text::is_blank(yaml.as_str()) {
                return None;
            }
            let body = text::trimmed(below.as_str());
            Some(SkillSource { yaml, body })
        },
    }
}

/// What is left of the texts when each is mapped by `f`, but for empty ones.
pub open spec fn kept(items: Seq<Seq<char>>, f: spec_fn(Seq<char>) -> Seq<char>) -> Seq<Seq<char>>
    decreases items.len(),
{
    if items.len() == 0 {
        Seq::empty()
    } else {
        let front = kept(items.drop_last(), f);
        let x = f(items.last());
        if x.len() > 0 {
            front.push(x)
        } else {
            front
        }
    }
}

/// The platforms that a frontmatter lists, by their usual names.
pub open spec fn listed_platforms(fm: SkillFrontmatter) -> Seq<Seq<char>> {
    kept(
        text::strs(fm.platforms@) + text::strs(fm.compatibility.os@),
        |p: Seq<char>| platform_name(p),
    )
}

/// The commands that a frontmatter lists.
pub open spec fn listed_deps(fm: SkillFrontmatter) -> Seq<Seq<char>> {
    kept(
        text::strs(fm.deps@) + text::strs(fm.compatibility.deps@),
        |d: Seq<char>| text::trim(d),
    )
}

/// A text that is there and not blank, trimmed.
pub open spec fn filled(t: Option<Seq<char>>) -> Option<Seq<char>> {
    match t {
        Some(s) => if text::trim(s).len() > 0 {
            Some(text::trim(s))
        } else {
            None
        },
        None => None,
    }
}

/// Whether `got` is the skill that a frontmatter describes, in this directory.
pub open spec fn described_by(fm: SkillFrontmatter, dir: Seq<char>, got: SkillV) -> bool {
    &&& Some(got.name) == filled(text::opt(fm.name))
    &&& got.description == fm.description@
    &&& got.dir_path == dir
    &&& text::is_sorted_set(got.platforms, listed_platforms(fm))
    &&& text::is_sorted_set(got.deps, listed_deps(fm))
    &&& got.source == match filled(text::opt(fm.source)) {
        Some(s) => s,
        None => "local"@,
    }
    &&& got.version == filled(text::opt(fm.version))
    &&& got.updated_at == filled(text::opt(fm.updated_at))
    &&& got.trust_level == match fm.trust_level {
        Some(s) => level_of(s@),
        None => TrustLevel::Official,
    }
}

/// A text that is there and not blank, trimmed.
fn filled_text(t: &Option<String>) -> (res: Option<String>)
    ensures
        text::opt(res) == filled(text::opt(*t)),
{
    match t {
        Some(s) => {
            let trimmed = text::trimmed(s.as_str());
            if trimmed.as_str().is_empty() {
                None
            } else {
                Some(trimmed)
            }
        },
        None => None,
    }
}

/// The texts of two lists, as platforms by their usual names, but for empty
/// ones.
fn keep_platforms(first: &Vec<String>, second: &Vec<String>) -> (res: Vec<String>)
    ensures
        text::strs(res@) == kept(
            text::strs(first@) + text::strs(second@),
            |p: Seq<char>| platform_name(p),
        ),
{
    let ghost f = |p: Seq<char>| platform_name(p);
    let ghost all = text::strs(first@) + text::strs(second@);
    let mut out: Vec<String> = Vec::new();
    let mut i: usize = 0;
    assert(text::strs(out@) =~= kept(all.take(0), f));
    while i < first.len()
        invariant
            i <= first@.len(),
            f == (|p: Seq<char>| platform_name(p)),
            all == text::strs(first@) + text::strs(second@),
            text::strs(out@) == kept(all.take(i as int), f),
        decreases first@.len() - i,
    {
        let ghost before = text::strs(out@);
        assert(all.take(i + 1).drop_last() =~= all.take(i as int));
        assert(all.take(i + 1).last() == first@[i as int]@);
        let name = normalize_platform(first[i].as_str());
        if !name.as_str().is_empty() {
            out.push(name);
            assert(text::strs(out@) =~= before.push(name@));
        }
        i += 1;
    }
    let mut j: usize = 0;
    while j < second.len()
        invariant
            j <= second@.len(),
            f == (|p: Seq<char>| platform_name(p)),
            all == text::strs(first@) + text::strs(second@),
            text::strs(out@) == kept(all.take(first@.len() + j), f),
        decreases second@.len() - j,
    {
        let ghost before = text::strs(out@);
        let ghost at = first@.len() + j;
        assert(all.take(at + 1).drop_last() =~= all.take(at));
        assert(all.take(at + 1).last() == second@[j as int]@);
        let name = normalize_platform(second[j].as_str());
        if !name.as_str().is_empty() {
            out.push(name);
            assert(text::strs(out@) =~= before.push(name@));
        }
        j += 1;
    }
    assert(all.take((first@.len() + second@.len()) as int) =~= all);
    out
}

/// The texts of two lists, trimmed, but for empty ones.
fn keep_trimmed(first: &Vec<String>, second: &Vec<String>) -> (res: Vec<String>)
    ensures
        text::strs(res@) == kept(
            text::strs(first@) + text::strs(second@),
            |d: Seq<char>| text::trim(d),
        ),
{
    let ghost f = |d: Seq<char>| text::trim(d);
    let ghost all = text::strs(first@) + text::strs(second@);
    let mut out: Vec<String> = Vec::new();
    let mut i: usize = 0;
    assert(text::strs(out@) =~= kept(all.take(0), f));
    while i < first.len()
        invariant
            i <= first@.len(),
            f == (|d: Seq<char>| text::trim(d)),
            all == text::strs(first@) + text::strs(second@),
            text::strs(out@) == kept(all.take(i as int), f),
        decreases first@.len() - i,
    {
        let ghost before = text::strs(out@);
        assert(all.take(i + 1).drop_last() =~= all.take(i as int));
        assert(all.take(i + 1).last() == first@[i as int]@);
        let name = text::trimmed(first[i].as_str());
        if !name.as_str().is_empty() {
            out.push(name);
            assert(text::strs(out@) =~= before.push(name@));
        }
        i += 1;
    }
    let mut j: usize = 0;
    while j < second.len()
        invariant
            j <= second@.len(),
            f == (|d: Seq<char>| text::trim(d)),
            all == text::strs(first@) + text::strs(second@),
            text::strs(out@) == kept(all.take(first@.len() + j), f),
        decreases second@.len() - j,
    {
        let ghost before = text::strs(out@);
        let ghost at = first@.len() + j;
        assert(all.take(at + 1).drop_last() =~= all.take(at));
        assert(all.take(at + 1).last() == second@[j as int]@);
        let name = text::trimmed(second[j].as_str());
        if !name.as_str().is_empty() {
            out.push(name);
            assert(text::strs(out@) =~= before.push(name@));
        }
        j += 1;
    }
    assert(all.take((first@.len() + second@.len()) as int) =~= all);
    out
}

/// The skill that a frontmatter describes, and its body; none where it has no
/// name.
pub fn parse_skill_md(source: &SkillSource, fm: &SkillFrontmatter, dir_path: &str) -> (res: Option<
    (SkillMetadata, String),
>)
    ensures
        match res {
            Some((meta, body)) => described_by(*fm, dir_path@, meta@) && body@ == source.body@,
            None => filled(text::opt(fm.name)) is None,
        },
{
    let name = match filled_text(&fm.name) {
        Some(name) => name,
        None => {
            return None;
        },
    };
    let platforms = text::sorted_set(&keep_platforms(&fm.platforms, &fm.compatibility.os));
    let deps = text::sorted_set(&keep_trimmed(&fm.deps, &fm.compatibility.deps));
    let source_name = match filled_text(&fm.source) {
        Some(s) => s,
        None => text::owned("local"),
    };
    let trust_level = match &fm.trust_level {
        Some(s) => TrustLevel::from_str_opt(s.as_str()),
        None => TrustLevel::Official,
    };
    let meta = SkillMetadata {
        name,
        description: fm.description.clone(),
        dir_path: dir_path.to_owned(),
        platforms,
        deps,
        source: source_name,
        version: filled_text(&fm.version),
        updated_at: filled_text(&fm.updated_at),
        trust_level,
    };
    Some((meta, source.body.clone()))
}

// ---------------------------------------------------------------------------
// Finding skills
// ---------------------------------------------------------------------------

/// A directory that may hold a skill: its name, where it has one in Unicode, and
/// the skill that its description file describes, where there is one.
pub struct SkillEntry {
    pub dir_name: Option<String>,
    pub skill: Option<SkillMetadata>,
}

/// Whether a directory of this name holds no skill of its own.
pub open spec fn passed_over(dir_name: Option<Seq<char>>) -> bool {
    match dir_name {
        Some(name) => text::starts(name, "."@) || name == "auto-generated"@,
        None => false,
    }
}

/// The skill of a directory, where it is to be listed.
pub open spec fn listed_skill(entry: SkillEntry) -> Option<SkillV> {
    match entry.skill {
        Some(skill) => if passed_over(text::opt(entry.dir_name)) || skill.trust_level
            == TrustLevel::Archived {
            None
        } else {
            Some(skill@)
        },
        None => None,
    }
}

/// The skills of directories, in their order.
pub open spec fn listed_skills(entries: Seq<SkillEntry>) -> Seq<SkillV>
    decreases entries.len(),
{
    if entries.len() == 0 {
        Seq::empty()
    } else {
        let front = listed_skills(entries.drop_last());
        match listed_skill(entries.last()) {
            Some(skill) => front.push(skill),
            None => front,
        }
    }
}

/// Skills in the order of their names with one more among them, behind those of
/// its own name.
pub open spec fn placed(skills: Seq<SkillV>, x: SkillV) -> Seq<SkillV>
    decreases skills.len(),
{
    if skills.len() == 0 || !text::before(x.name, skills.last().name) {
        skills.push(x)
    } else {
        placed(skills.drop_last(), x).push(skills.last())
    }
}

/// Skills in the order of their names; those of one name keep their order.
pub open spec fn by_name(skills: Seq<SkillV>) -> Seq<SkillV>
    decreases skills.len(),
{
    if skills.len() == 0 {
        skills
    } else {
        placed(by_name(skills.drop_last()), skills.last())
    }
}

/// Whether skills stand in the order of their names.
pub open spec fn in_order(skills: Seq<SkillV>) -> bool {
    forall|i: int, j: int|
        0 <= i < j < skills.len() ==> !text::before(
            (#[trigger] skills[j]).name,
            (#[trigger] skills[i]).name,
        )
}

proof fn lemma_placed(skills: Seq<SkillV>, x: SkillV)
    ensures
        placed(skills, x).len() == skills.len() + 1,
        placed(skills, x).to_multiset() == skills.to_multiset().insert(x),
        in_order(skills) ==> in_order(placed(skills, x)),
    decreases skills.len(),
{
    broadcast use vstd::seq_lib::group_to_multiset_ensures;

    if skills.len() == 0 || !text::before(x.name, skills.last().name) {
        if in_order(skills) {
            let all = skills.push(x);
            assert forall|i: int, j: int| 0 <= i < j < all.len() implies !text::before(
                (#[trigger] all[j]).name,
                (#[trigger] all[i]).name,
            ) by {
                if j == skills.len() && i < skills.len() - 1 && text::before(x.name, all[i].name) {
                    text::lemma_before_total(all[i].name, skills.last().name);
                    if all[i].name != skills.last().name {
                        assert(!text::before(skills.last().name, skills[i].name));
                        text::lemma_before_transitive(x.name, all[i].name, skills.last().name);
                    }
                }
            }
        }
    } else {
        let front = skills.drop_last();
        lemma_placed(front, x);
        assert(skills =~= front.push(skills.last()));
        assert(placed(skills, x).to_multiset() =~= skills.to_multiset().insert(x));
        if in_order(skills) {
            assert(in_order(front)) by {
                assert forall|i: int, j: int| 0 <= i < j < front.len() implies !text::before(
                    (#[trigger] front[j]).name,
                    (#[trigger] front[i]).name,
                ) by {
                    assert(front[i] == skills[i] && front[j] == skills[j]);
                }
            }
            let all = placed(skills, x);
            let head = placed(front, x);
            assert forall|i: int, j: int| 0 <= i < j < all.len() implies !text::before(
                (#[trigger] all[j]).name,
                (#[trigger] all[i]).name,
            ) by {
                if j < head.len() {
                    assert(all[i] == head[i] && all[j] == head[j]);
                } else {
                    assert(all[i] == head[i]);
                    assert(head.to_multiset().count(head[i]) > 0);
                    text::lemma_before_total(x.name, skills.last().name);
                    if head[i] != x {
                        assert(front.to_multiset().count(head[i]) > 0);
                        assert(front.contains(head[i]));
                        let k = choose|k: int| 0 <= k < front.len() && front[k] == head[i];
                        assert(skills[k] == head[i]);
                    }
                }
            }
        }
    }
}

/// What is put in the order of its names stands in that order, and is the same
/// skills, each as often.
pub proof fn law_by_name_sorts(skills: Seq<SkillV>)
    ensures
        in_order(by_name(skills)),
        by_name(skills).to_multiset() == skills.to_multiset(),
        by_name(skills).len() == skills.len(),
    decreases skills.len(),
{
    broadcast use vstd::seq_lib::group_to_multiset_ensures;

    if skills.len() > 0 {
        let front = skills.drop_last();
        law_by_name_sorts(front);
        lemma_placed(by_name(front), skills.last());
        assert(skills =~= front.push(skills.last()));
    }
}

/// Why a skill cannot run here, where it cannot.
pub open spec fn complaint(
    skill: SkillV,
    platform: Seq<char>,
    commands: Seq<Seq<char>>,
) -> Option<Seq<char>> {
    if !runs_on(skill.platforms, platform) {
        Some(
            "Skill '"@ + skill.name + "' is not available on this platform (current: "@ + platform
                + ", supported: "@ + text::join(skill.platforms, ", "@) + ")."@,
        )
    } else if lacking(skill.deps, commands).len() > 0 {
        Some(
            "Skill '"@ + skill.name + "' is missing required dependencies: "@ + text::join(
                lacking(skill.deps, commands),
                ", "@,
            ),
        )
    } else {
        None
    }
}

impl Host {
    /// Why a skill cannot run here, where it cannot.
    pub open spec fn objection(self, skill: SkillV) -> Option<Seq<char>> {
        complaint(skill, self.platform@, text::strs(self.commands@))
    }
}

/// Those of the skills that can run here, in their order.
pub open spec fn usable(skills: Seq<SkillV>, host: Host) -> Seq<SkillV>
    decreases skills.len(),
{
    if skills.len() == 0 {
        Seq::empty()
    } else {
        let front = usable(skills.drop_last(), host);
        if host.objection(skills.last()) is None {
            front.push(skills.last())
        } else {
            front
        }
    }
}

/// All skills of directories, in the order of their names.
pub open spec fn all_found(entries: Seq<SkillEntry>) -> Seq<SkillV> {
    by_name(listed_skills(entries))
}

/// The skills of directories that can run here, in the order of their names.
pub open spec fn usable_found(entries: Seq<SkillEntry>, host: Host) -> Seq<SkillV> {
    by_name(usable(listed_skills(entries), host))
}

/// The names of skills.
pub open spec fn skill_names(skills: Seq<SkillV>) -> Seq<Seq<char>> {
    Seq::new(skills.len(), |i: int| skills[i].name)
}

/// Whether `i` is the place of the first skill of a name.
pub open spec fn is_first_named(skills: Seq<SkillV>, name: Seq<char>, i: int) -> bool {
    &&& 0 <= i < skills.len()
    &&& skills[i].name == name
    &&& forall|j: int| 0 <= j < i ==> (#[trigger] skills[j]).name != name
}

/// Whether there is a skill of a name.
pub open spec fn is_named(skills: Seq<SkillV>, name: Seq<char>) -> bool {
    exists|i: int| is_first_named(skills, name, i)
}

/// What is said where no skill has a name.
pub open spec fn not_found(name: Seq<char>, available: Seq<SkillV>) -> Seq<char> {
    if available.len() == 0 {
        "Skill '"@ + name + "' not found. No skills are currently available."@
    } else {
        "Skill '"@ + name + "' not found. Available skills: "@ + text::join(
            skill_names(available),
            ", "@,
        )
    }
}

/// The skill of a name that can be loaded, or why none can.
pub open spec fn choice(entries: Seq<SkillEntry>, host: Host, name: Seq<char>) -> Result<
    SkillV,
    Seq<char>,
> {
    let all = all_found(entries);
    if is_named(all, name) {
        let skill = all[choose|i: int| is_first_named(all, name, i)];
        match host.objection(skill) {
            Some(why) => Err(why),
            None => Ok(skill),
        }
    } else {
        Err(not_found(name, usable_found(entries, host)))
    }
}

/// A line of the catalog.
pub open spec fn catalog_line(skill: SkillV) -> Seq<char> {
    if skill.trust_level == TrustLevel::Official {
        "- "@ + skill.name + ": "@ + skill.description + "\n"@
    } else {
        "- "@ + skill.name + " ["@ + level_word(skill.trust_level) + "]: "@ + skill.description
            + "\n"@
    }
}

/// The catalog of skills that a prompt holds.
pub open spec fn catalog(skills: Seq<SkillV>) -> Seq<char> {
    if skills.len() == 0 {
        Seq::empty()
    } else {
        "<available_skills>\n"@ + text::concat_all(
            Seq::new(skills.len(), |i: int| catalog_line(skills[i])),
        ) + "</available_skills>"@
    }
}

/// A line of the list for users.
pub open spec fn list_line(skill: SkillV) -> Seq<char> {
    "• "@ + skill.name + " — "@ + skill.description + " ["@ + skill.source + "]\n"@
}

/// The list of skills for users.
pub open spec fn listing(skills: Seq<SkillV>) -> Seq<char> {
    if skills.len() == 0 {
        "No skills available on this platform/runtime."@
    } else {
        "Available skills ("@ + text::digits(skills.len()) + "):\n\n"@ + text::concat_all(
            Seq::new(skills.len(), |i: int| list_line(skills[i])),
        )
    }
}

/// The catalog of the skills that were found and can run on a host.
pub open spec fn catalog_of(entries: Seq<SkillEntry>, host: Host) -> Seq<char> {
    catalog(usable_found(entries, host))
}

/// The list, for users, of the skills that were found and can run on a host.
pub open spec fn listing_of(entries: Seq<SkillEntry>, host: Host) -> Seq<char> {
    listing(usable_found(entries, host))
}

/// The directories to look through for skills.
pub open spec fn dirs_to_search(dir: Seq<char>, auto_is_dir: bool) -> Seq<Seq<char>> {
    if auto_is_dir {
        Seq::empty().push(dir).push(paths::joined(dir, "auto-generated"@))
    } else {
        Seq::empty().push(dir)
    }
}

/// The skills below a directory.
pub struct SkillManager {
    skills_dir: String,
}

impl SkillManager {
    /// The directory.
    pub closed spec fn dir(&self) -> Seq<char> {
        self.skills_dir@
    }

    /// The skills below `skills_dir`.
    pub fn from_skills_dir(skills_dir: &str) -> (res: SkillManager)
        ensures
            res.dir() == skills_dir@,
    {
        SkillManager { skills_dir: skills_dir.to_owned() }
    }

    /// The skills below the directory `skills` of `data_dir`.
    pub fn new(data_dir: &str) -> (res: SkillManager)
        ensures
            res.dir() == paths::joined(data_dir@, "skills"@),
    {
        SkillManager { skills_dir: paths::join(data_dir, "skills") }
    }

    /// The directory.
    pub fn skills_dir(&self) -> (res: &String)
        ensures
            res@ == self.dir(),
    {
        &self.skills_dir
    }

    /// The directories to look through: the main one, and the one for generated
    /// skills where it exists.
    pub fn discovery_dirs(&self, auto_is_dir: bool) -> (res: Vec<String>)
        ensures
            text::strs(res@) == dirs_to_search(self.dir(), auto_is_dir),
            text::strs(res@) == if auto_is_dir {
                Seq::empty().push(self.dir()).push(paths::joined(self.dir(), "auto-generated"@))
            } else {
                Seq::empty().push(self.dir())
            },
    {
        let mut dirs: Vec<String> = Vec::new();
        dirs.push(self.skills_dir.clone());
        if auto_is_dir {
            dirs.push(paths::join(self.skills_dir.as_str(), "auto-generated"));
        }
        assert(text::strs(dirs@) =~= if auto_is_dir {
            Seq::empty().push(self.dir()).push(paths::joined(self.dir(), "auto-generated"@))
        } else {
            Seq::empty().push(self.dir())
        });
        dirs
    }

    /// Why a skill cannot run here, where it cannot.
    pub fn skill_is_available(&self, skill: &SkillMetadata, host: &Host) -> (res: Result<
        (),
        String,
    >)
        ensures
            match res {
                Ok(_) => host.objection(skill@) is None,
                Err(why) => host.objection(skill@) == Some(why@),
            },
    {
        if !platform_allowed(&skill.platforms, host.platform.as_str()) {
            let listed = text::join_strings(&skill.platforms, ", ");
            let mut why = text::cat3(
                "Skill '",
                skill.name.as_str(),
                "' is not available on this platform (current: ",
            );
            why.append(host.platform.as_str());
            why.append(", supported: ");
            why.append(listed.as_str());
            why.append(").");
            return Err(why);
        }
        let missing = missing_deps(&skill.deps, host);
        assert(text::strs(missing@).len() == missing@.len());
        if missing.len() > 0 {
            let listed = text::join_strings(&missing, ", ");
            return Err(
                text::cat4(
                    "Skill '",
                    skill.name.as_str(),
                    "' is missing required dependencies: ",
                    listed.as_str(),
                ),
            );
        }
        Ok(())
    }

    /// The skills of directories, in the order of their names: all of them, or
    /// those that can run here.
    fn discover_skills_internal(
        &self,
        entries: &Vec<SkillEntry>,
        host: &Host,
        include_unavailable: bool,
    ) -> (res: Vec<SkillMetadata>)
        ensures
            skill_views(res@) == if include_unavailable {
                all_found(entries@)
            } else {
                usable_found(entries@, *host)
            },
    {
        let mut skills: Vec<SkillMetadata> = Vec::new();
        let ghost mut listed: Seq<SkillV> = Seq::empty();
        let mut i: usize = 0;
        assert(entries@.take(0) =~= Seq::empty());
        assert(skill_views(skills@) =~= Seq::empty());
        while i < entries.len()
            invariant
                i <= entries@.len(),
                listed == listed_skills(entries@.take(i as int)),
                skill_views(skills@) == if include_unavailable {
                    by_name(listed)
                } else {
                    by_name(usable(listed, *host))
                },
            decreases entries@.len() - i,
        {
            let ghost before = listed;
            assert(entries@.take(i + 1).drop_last() =~= entries@.take(i as int));
            assert(entries@.take(i + 1).last() == entries@[i as int]);
            let entry = &entries[i];
            let skip = match &entry.dir_name {
                Some(name) => text::starts_with(name.as_str(), ".") || text::same(
                    name.as_str(),
                    "auto-generated",
                ),
                None => false,
            };
            if !skip {
                if let Some(skill) = &entry.skill {
                    if !matches!(skill.trust_level, TrustLevel::Archived) {
                        proof {
                            listed = before.push(skill@);
                            assert(listed.drop_last() =~= before);
                        }
                        let keep = include_unavailable || self.skill_is_available(
                            skill,
                            host,
                        ).is_ok();
                        if keep {
                            proof {
                                let u = usable(before, *host);
                                assert(u.push(skill@).drop_last() =~= u);
                            }
                            place(&mut skills, skill.copy());
                        }
                    }
                }
            }
            i += 1;
        }
        assert(entries@.take(entries@.len() as int) =~= entries@);
        skills
    }

    /// The skills of directories that can run here.
    pub fn discover_skills(&self, entries: &Vec<SkillEntry>, host: &Host) -> (res: Vec<
        SkillMetadata,
    >)
        ensures
            skill_views(res@) == usable_found(entries@, *host),
    {
        self.discover_skills_internal(entries, host, false)
    }

    /// All skills of directories, each with whether it can run here and, if not,
    /// why.
    pub fn discover_all_skills(&self, entries: &Vec<SkillEntry>, host: &Host) -> (res: Vec<
        SkillInfo,
    >)
        ensures
            res@.len() == all_found(entries@).len(),
            forall|i: int|
                0 <= i < res@.len() ==> {
                    &&& (#[trigger] res@[i]).metadata@ == all_found(entries@)[i]
                    &&& text::opt(res@[i].unavailable_reason) == host.objection(
                        all_found(entries@)[i],
                    )
                    &&& res@[i].available == (host.objection(all_found(entries@)[i]) is None)
                },
    {
        let skills = self.discover_skills_internal(entries, host, true);
        let ghost found = all_found(entries@);
        assert(skill_views(skills@).len() == skills@.len());
        let mut out: Vec<SkillInfo> = Vec::new();
        let mut i: usize = 0;
        while i < skills.len()
            invariant
                i <= skills@.len(),
                skills@.len() == found.len(),
                found == skill_views(skills@),
                out@.len() == i,
                forall|j: int|
                    0 <= j < i ==> {
                        &&& (#[trigger] out@[j]).metadata@ == found[j]
                        &&& text::opt(out@[j].unavailable_reason) == host.objection(found[j])
                        &&& out@[j].available == (host.objection(found[j]) is None)
                    },
            decreases skills@.len() - i,
        {
            assert(found[i as int] == skills@[i as int]@);
            let info = match self.skill_is_available(&skills[i], host) {
                Ok(_) => SkillInfo {
                    metadata: skills[i].copy(),
                    available: true,
                    unavailable_reason: None,
                },
                Err(why) => SkillInfo {
                    metadata: skills[i].copy(),
                    available: false,
                    unavailable_reason: Some(why),
                },
            };
            out.push(info);
            i += 1;
        }
        out
    }

    /// The skill of a name that can be loaded, or why none can.
    pub fn skill_to_load(&self, name: &str, entries: &Vec<SkillEntry>, host: &Host) -> (res: Result<
        SkillMetadata,
        String,
    >)
        ensures
            match res {
                Ok(skill) => choice(entries@, *host, name@) == Ok::<SkillV, Seq<char>>(skill@),
                Err(why) => choice(entries@, *host, name@) == Err::<SkillV, Seq<char>>(why@),
            },
    {
        let skills = self.discover_skills_internal(entries, host, true);
        let ghost found = all_found(entries@);
        assert(skill_views(skills@).len() == skills@.len());
        let mut i: usize = 0;
        while i < skills.len()
            invariant
                i <= skills@.len(),
                found == all_found(entries@),
                found == skill_views(skills@),
                found.len() == skills@.len(),
                forall|j: int| 0 <= j < i ==> (#[trigger] found[j]).name != name@,
            decreases skills@.len() - i,
        {
            assert(found[i as int] == skills@[i as int]@);
            if text::same(skills[i].name.as_str(), name) {
                proof {
                    assert(is_first_named(found, name@, i as int));
                    let k = choose|k: int| is_first_named(found, name@, k);
                    assert(is_first_named(found, name@, k));
                    assert(k == i);
                }
                return match self.skill_is_available(&skills[i], host) {
                    Ok(_) => Ok(skills[i].copy()),
                    Err(why) => Err(why),
                };
            }
            i += 1;
        }
        assert(!is_named(found, name@));
        let available = self.discover_skills(entries, host);
        assert(skill_views(available@).len() == available@.len());
        if available.len() == 0 {
            return Err(
                text::cat3("Skill '", name, "' not found. No skills are currently available."),
            );
        }
        let mut names: Vec<String> = Vec::new();
        let ghost wanted = skill_names(skill_views(available@));
        let mut k: usize = 0;
        while k < available.len()
            invariant
                k <= available@.len(),
                wanted == skill_names(skill_views(available@)),
                text::strs(names@) == wanted.take(k as int),
            decreases available@.len() - k,
        {
            let ghost before = text::strs(names@);
            names.push(available[k].name.clone());
            assert(text::strs(names@) =~= before.push(available@[k as int].name@));
            assert(wanted.take(k + 1) =~= wanted.take(k as int).push(available@[k as int].name@));
            k += 1;
        }
        assert(wanted.take(available@.len() as int) =~= wanted);
        let listed = text::join_strings(&names, ", ");
        Err(text::cat4("Skill '", name, "' not found. Available skills: ", listed.as_str()))
    }

    /// The skill of a name and its body, or why it cannot be loaded. `reread` is
    /// what a second reading of the description file of the skill to load gave.
    pub fn load_skill_checked(
        &self,
        name: &str,
        entries: &Vec<SkillEntry>,
        host: &Host,
        reread: Option<(SkillMetadata, String)>,
    ) -> (res: Result<(SkillMetadata, String), String>)
        ensures
            match choice(entries@, *host, name@) {
                Err(why) => res is Err && res->Err_0@ == why,
                Ok(_) => match reread {
                    Some(skill) => res == Ok::<(SkillMetadata, String), String>(skill),
                    None => res is Err && res->Err_0@ == "Skill '"@ + name@
                        + "' exists but could not be loaded."@,
                },
            },
    {
        match self.skill_to_load(name, entries, host) {
            Err(why) => Err(why),
            Ok(_) => match reread {
                Some(skill) => Ok(skill),
                None => Err(text::cat3("Skill '", name, "' exists but could not be loaded.")),
            },
        }
    }

    /// The skill of a name and its body, where it can be loaded.
    pub fn load_skill(
        &self,
        name: &str,
        entries: &Vec<SkillEntry>,
        host: &Host,
        reread: Option<(SkillMetadata, String)>,
    ) -> (res: Option<(SkillMetadata, String)>)
        ensures
            res == if choice(entries@, *host, name@) is Ok {
                reread
            } else {
                None
            },
    {
        match self.load_skill_checked(name, entries, host, reread) {
            Ok(skill) => Some(skill),
            Err(_) => None,
        }
    }

    /// The catalog of the skills that can run here.
    pub fn build_skills_catalog(&self, entries: &Vec<SkillEntry>, host: &Host) -> (res: String)
        ensures
            res@ == catalog_of(entries@, *host),
            res@ == catalog(usable_found(entries@, *host)),
    {
        let skills = self.discover_skills(entries, host);
        let ghost found = skill_views(skills@);
        assert(found.len() == skills@.len());
        if skills.len() == 0 {
            return String::new();
        }
        let mut out = text::owned("<available_skills>\n");
        let ghost lines = Seq::new(found.len(), |i: int| catalog_line(found[i]));
        let mut i: usize = 0;
        assert(out@ =~= "<available_skills>\n"@ + text::concat_all(lines.take(0)));
        while i < skills.len()
            invariant
                i <= skills@.len(),
                found == skill_views(skills@),
                lines == Seq::new(found.len(), |i: int| catalog_line(found[i])),
                out@ == "<available_skills>\n"@ + text::concat_all(lines.take(i as int)),
            decreases skills@.len() - i,
        {
            let ghost before = out@;
            let skill = &skills[i];
            assert(found[i as int] == skill@);
            let line = if matches!(skill.trust_level, TrustLevel::Official) {
                text::cat5("- ", skill.name.as_str(), ": ", skill.description.as_str(), "\n")
            } else {
                let word = skill.trust_level.label();
                let mut line = text::cat4("- ", skill.name.as_str(), " [", word.as_str());
                line.append("]: ");
                line.append(skill.description.as_str());
                line.append("\n");
                line
            };
            out.append(line.as_str());
            assert(lines.take(i + 1).drop_last() =~= lines.take(i as int));
            assert(lines.take(i + 1).last() == line@);
            assert(out@ =~= "<available_skills>\n"@ + text::concat_all(lines.take(i + 1)));
            i += 1;
        }
        assert(lines.take(skills@.len() as int) =~= lines);
        out.append("</available_skills>");
        out
    }

    /// The list, for users, of the skills that can run here.
    pub fn list_skills_formatted(&self, entries: &Vec<SkillEntry>, host: &Host) -> (res: String)
        ensures
            res@ == listing_of(entries@, *host),
            res@ == listing(usable_found(entries@, *host)),
    {
        let skills = self.discover_skills(entries, host);
        let ghost found = skill_views(skills@);
        assert(found.len() == skills@.len());
        if skills.len() == 0 {
            return text::owned("No skills available on this platform/runtime.");
        }
        let count = text::decimal(skills.len() as u64);
        let mut out = text::cat3("Available skills (", count.as_str(), "):\n\n");
        let ghost head = out@;
        let ghost lines = Seq::new(found.len(), |i: int| list_line(found[i]));
        let mut i: usize = 0;
        assert(out@ =~= head + text::concat_all(lines.take(0)));
        while i < skills.len()
            invariant
                i <= skills@.len(),
                found == skill_views(skills@),
                lines == Seq::new(found.len(), |i: int| list_line(found[i])),
                out@ == head + text::concat_all(lines.take(i as int)),
            decreases skills@.len() - i,
        {
            let skill = &skills[i];
            assert(found[i as int] == skill@);
            let mut line = text::cat4(
                "• ",
                skill.name.as_str(),
                " — ",
                skill.description.as_str(),
            );
            line.append(" [");
            line.append(skill.source.as_str());
            line.append("]\n");
            out.append(line.as_str());
            assert(lines.take(i + 1).drop_last() =~= lines.take(i as int));
            assert(lines.take(i + 1).last() == line@);
            assert(out@ =~= head + text::concat_all(lines.take(i + 1)));
            i += 1;
        }
        assert(lines.take(skills@.len() as int) =~= lines);
        out
    }
}

/// One more skill among skills in the order of their names.
fn place(skills: &mut Vec<SkillMetadata>, x: SkillMetadata)
    ensures
        skill_views(final(skills)@) == placed(skill_views(old(skills)@), x@),
{
    let ghost all = skill_views(skills@);
    let mut at: usize = skills.len();
    assert(all.take(at as int) =~= all);
    assert(all.skip(at as int) =~= Seq::empty());
    assert(placed(all, x@) =~= placed(all.take(at as int), x@) + all.skip(at as int));
    while at > 0 && text::is_before(x.name.as_str(), skills[at - 1].name.as_str())
        invariant
            at <= skills@.len(),
            all == skill_views(skills@),
            placed(all, x@) == placed(all.take(at as int), x@) + all.skip(at as int),
        decreases at,
    {
        assert(all.take(at as int).drop_last() =~= all.take(at - 1));
        assert(all.take(at as int).last() == all[at - 1]);
        assert(placed(all.take(at - 1), x@).push(all[at - 1]) + all.skip(at as int) =~= placed(
            all.take(at - 1),
            x@,
        ) + all.skip(at - 1));
        at -= 1;
    }
    if at > 0 {
        assert(all.take(at as int).last() == skills@[at - 1]@);
    }
    assert(placed(all.take(at as int), x@) == all.take(at as int).push(x@));
    skills.insert(at, x);
    assert(skill_views(skills@) =~= all.take(at as int).push(x@) + all.skip(at as int));
}

/// Every skill that can run here is among all skills that were found.
pub proof fn law_usable_is_listed(skills: Seq<SkillV>, host: Host)
    ensures
        usable(skills, host).to_multiset().subset_of(skills.to_multiset()),
    decreases skills.len(),
{
    broadcast use vstd::seq_lib::group_to_multiset_ensures;

    if skills.len() > 0 {
        let front = skills.drop_last();
        law_usable_is_listed(front, host);
        assert(skills =~= front.push(skills.last()));
    }
}

/// No skill that is listed is archived.
pub proof fn law_archived_is_not_listed(entries: Seq<SkillEntry>)
    ensures
        forall|i: int|
            0 <= i < listed_skills(entries).len() ==> (#[trigger] listed_skills(
                entries,
            )[i]).trust_level != TrustLevel::Archived,
    decreases entries.len(),
{
    if entries.len() > 0 {
        law_archived_is_not_listed(entries.drop_last());
    }
}

proof fn lemma_usable_holds(skills: Seq<SkillV>, host: Host, x: SkillV)
    requires
        skills.contains(x),
        host.objection(x) is None,
    ensures
        usable(skills, host).contains(x),
    decreases skills.len(),
{
    let front = skills.drop_last();
    let k = choose|k: int| 0 <= k < skills.len() && skills[k] == x;
    let kept = usable(front, host);
    if k < front.len() {
        assert(front[k] == x);
        lemma_usable_holds(front, host, x);
        let j = choose|j: int| 0 <= j < kept.len() && kept[j] == x;
        assert(usable(skills, host)[j] == x);
    } else {
        assert(usable(skills, host) == kept.push(x));
        assert(kept.push(x)[kept.len() as int] == x);
    }
}

/// A skill that can be loaded is one of those that are listed as able to run
/// here.
pub proof fn law_loaded_is_usable(entries: Seq<SkillEntry>, host: Host, name: Seq<char>)
    ensures
        choice(entries, host, name) matches Ok(skill) ==> skill.name == name && usable_found(
            entries,
            host,
        ).contains(skill),
{
    broadcast use vstd::seq_lib::group_to_multiset_ensures;

    let listed = listed_skills(entries);
    let all = all_found(entries);
    if choice(entries, host, name) is Ok {
        let skill = choice(entries, host, name)->Ok_0;
        let i = choose|i: int| is_first_named(all, name, i);
        assert(is_first_named(all, name, i));
        assert(all[i] == skill);
        law_by_name_sorts(listed);
        assert(all.to_multiset().count(skill) > 0);
        assert(listed.contains(skill));
        lemma_usable_holds(listed, host, skill);
        law_by_name_sorts(usable(listed, host));
        assert(usable(listed, host).to_multiset().count(skill) > 0);
    }
}

// ---------------------------------------------------------------------------
// What holds of skills
// ---------------------------------------------------------------------------

/// Whether a word names a platform: the same without space around it and in small
/// letters, where Apple's system has two other names; or it names all of them.
pub open spec fn stands_for(word: Seq<char>, platform: Seq<char>) -> bool {
    let small = text::ascii_lower(text::trim(word));
    ||| small == "all"@
    ||| small == "*"@
    ||| small == "macos"@ && platform == "darwin"@
    ||| small == "osx"@ && platform == "darwin"@
    ||| small == platform && small != "macos"@ && small != "osx"@
}

/// A skill can run on a host if and only if it lists no platform or, at any place of its
/// list, one that stands for the host's, and the host has every command that it lists.
pub proof fn law_what_can_run(skill: SkillV, host: Host)
    ensures
        host.objection(skill) is None <==> {
            &&& skill.platforms.len() == 0 || exists|i: int|
                0 <= i < skill.platforms.len() && stands_for(
                    #[trigger] skill.platforms[i],
                    host.platform@,
                )
            &&& forall|i: int|
                0 <= i < skill.deps.len() ==> text::trim(#[trigger] skill.deps[i]).len() == 0
                    || exists|j: int|
                    0 <= j < host.commands@.len() && (#[trigger] host.commands@[j])@
                        == skill.deps[i]
        },
{
    let commands = text::strs(host.commands@);
    let current = host.platform@;
    reveal_strlit("all");
    reveal_strlit("*");
    reveal_strlit("macos");
    reveal_strlit("osx");
    reveal_strlit("darwin");
    assert("darwin"@.len() == 6 && "all"@.len() == 3 && "*"@.len() == 1);
    assert("macos"@.len() == 5 && "osx"@.len() == 3);
    assert("osx"@[0] != "all"@[0]);
    assert forall|i: int| 0 <= i < skill.platforms.len() implies names_platform(
        #[trigger] skill.platforms[i],
        current,
    ) == stands_for(skill.platforms[i], current) by {}
    law_lacking(skill.deps, commands);
    let lacks = |d: Seq<char>| !command_available(d, commands);
    let missing = lacking(skill.deps, commands);
    assert forall|d: Seq<char>| #[trigger] command_available(d, commands) <==> text::trim(d).len()
        == 0 || exists|j: int|
        0 <= j < host.commands@.len() && (#[trigger] host.commands@[j])@ == d by {
        if commands.contains(d) {
            let j = choose|j: int| 0 <= j < commands.len() && commands[j] == d;
            assert(host.commands@[j]@ == d);
        }
        if exists|j: int| 0 <= j < host.commands@.len() && (#[trigger] host.commands@[j])@ == d {
            let j = choose|j: int|
                0 <= j < host.commands@.len() && (#[trigger] host.commands@[j])@ == d;
            assert(commands[j] == d);
        }
    }
    if missing.len() > 0 {
        skill.deps.lemma_filter_pred(lacks, 0);
        skill.deps.lemma_filter_contains_rev(lacks, missing[0]);
        let i = choose|i: int| 0 <= i < skill.deps.len() && skill.deps[i] == missing[0];
        assert(!command_available(skill.deps[i], commands));
    } else {
        assert forall|i: int| 0 <= i < skill.deps.len() implies command_available(
            #[trigger] skill.deps[i],
            commands,
        ) by {
            if !command_available(skill.deps[i], commands) {
                skill.deps.lemma_filter_contains(lacks, i);
                assert(missing.contains(skill.deps[i]));
            }
        }
    }
}

/// The commands that are lacking are those of the list that the machine does not have,
/// all of them and in their order.
pub proof fn law_lacking(deps: Seq<Seq<char>>, commands: Seq<Seq<char>>)
    ensures
        lacking(deps, commands) == deps.filter(|d: Seq<char>| !command_available(d, commands)),
    decreases deps.len(),
{
    reveal(Seq::filter);
    if deps.len() > 0 {
        law_lacking(deps.drop_last(), commands);
    }
}

/// The skills that are listed are those of all directories that hold one which is not
/// archived, but for hidden ones and the one for generated skills; in their order.
pub proof fn law_listed(entries: Seq<SkillEntry>)
    ensures
        listed_skills(entries) == entries.filter(
            |e: SkillEntry|
                e.skill is Some && e.skill->0.trust_level != TrustLevel::Archived && !(
                e.dir_name matches Some(name) && (name@ == "auto-generated"@ || (name@.len() > 0
                    && name@[0] == '.'))),
        ).map_values(|e: SkillEntry| e.skill->0@),
    decreases entries.len(),
{
    reveal(Seq::filter);
    reveal_strlit(".");
    let keep = |e: SkillEntry|
        e.skill is Some && e.skill->0.trust_level != TrustLevel::Archived && !(
        e.dir_name matches Some(name) && (name@ == "auto-generated"@ || (name@.len() > 0
            && name@[0] == '.')));
    let f = |e: SkillEntry| e.skill->0@;
    if entries.len() > 0 {
        let front = entries.drop_last();
        law_listed(front);
        let e = entries.last();
        if e.dir_name is Some {
            let name = e.dir_name->0@;
            if name.len() > 0 {
                assert(name.subrange(0, 1)[0] == name[0]);
                if name[0] == '.' {
                    assert(name.subrange(0, 1) =~= "."@);
                }
            }
        }
        if keep(e) {
            assert(front.filter(keep).push(e).map_values(f) =~= front.filter(keep).map_values(
                f,
            ).push(e.skill->0@));
        }
    } else {
        assert(entries.filter(keep).map_values(f) =~= Seq::empty());
    }
}

/// The skills that can run are those of the list that can, all of them and in their
/// order.
pub proof fn law_usable(skills: Seq<SkillV>, host: Host)
    ensures
        usable(skills, host) == skills.filter(|k: SkillV| host.objection(k) is None),
    decreases skills.len(),
{
    reveal(Seq::filter);
    if skills.len() > 0 {
        law_usable(skills.drop_last(), host);
    }
}

/// A skill is discovered if and only if some directory that is looked at holds it, it is
/// not archived, and it can run here; and it is loaded by its name if it is the only one
/// of that name.
pub proof fn law_discovered(entries: Seq<SkillEntry>, host: Host, i: int)
    requires
        0 <= i < entries.len(),
        entries[i].skill is Some,
        entries[i].skill->0.trust_level != TrustLevel::Archived,
        entries[i].dir_name matches Some(name) ==> name@ != "auto-generated"@ && (name@.len() == 0
            || name@[0] != '.'),
    ensures
        all_found(entries).contains(entries[i].skill->0@),
        usable_found(entries, host).contains(entries[i].skill->0@) <==> host.objection(
            entries[i].skill->0@,
        ) is None,
        (forall|j: int|
            0 <= j < entries.len() && j != i && (#[trigger] entries[j]).skill is Some
                ==> entries[j].skill->0.name@ != entries[i].skill->0.name@) ==> choice(
            entries,
            host,
            entries[i].skill->0.name@,
        ) == match host.objection(entries[i].skill->0@) {
            Some(why) => Err::<SkillV, _>(why),
            None => Ok::<_, Seq<char>>(entries[i].skill->0@),
        },
{
    broadcast use vstd::seq_lib::group_to_multiset_ensures;

    let x = entries[i].skill->0@;
    let listed = listed_skills(entries);
    let keep = |e: SkillEntry|
        e.skill is Some && e.skill->0.trust_level != TrustLevel::Archived && !(
        e.dir_name matches Some(name) && (name@ == "auto-generated"@ || (name@.len() > 0
            && name@[0] == '.')));
    law_listed(entries);
    entries.lemma_filter_contains(keep, i);
    let k = choose|k: int|
        0 <= k < entries.filter(keep).len() && entries.filter(keep)[k] == entries[i];
    assert(listed[k] == x);
    law_by_name_sorts(listed);
    assert(listed.to_multiset().count(x) > 0);
    assert(all_found(entries).to_multiset().count(x) > 0);
    let able = usable(listed, host);
    law_usable(listed, host);
    law_by_name_sorts(able);
    if host.objection(x) is None {
        lemma_usable_holds(listed, host, x);
        assert(able.to_multiset().count(x) > 0);
    }
    if usable_found(entries, host).contains(x) {
        assert(usable_found(entries, host).to_multiset().count(x) > 0);
        assert(able.contains(x));
        let j = choose|j: int| 0 <= j < able.len() && able[j] == x;
        listed.lemma_filter_pred(|k: SkillV| host.objection(k) is None, j);
    }
    if forall|j: int|
        0 <= j < entries.len() && j != i && (#[trigger] entries[j]).skill is Some
            ==> entries[j].skill->0.name@ != entries[i].skill->0.name@ {
        let all = all_found(entries);
        assert forall|y: SkillV| #[trigger] all.contains(y) && y.name == x.name implies y == x by {
            assert(all.to_multiset().count(y) > 0);
            assert(listed.contains(y));
            let m = choose|m: int| 0 <= m < listed.len() && listed[m] == y;
            let e = entries.filter(keep)[m];
            entries.lemma_filter_pred(keep, m);
            entries.lemma_filter_contains_rev(keep, e);
            let j = choose|j: int| 0 <= j < entries.len() && entries[j] == e;
            assert(entries[j].skill->0@ == y);
        }
        let at = choose|at: int| 0 <= at < all.len() && all[at] == x;
        let first = lemma_first_named(all, x.name, at);
        let chosen = choose|n: int| is_first_named(all, x.name, n);
        assert(is_first_named(all, x.name, first));
        assert(all.contains(all[chosen]));
    }
}

/// Among skills of which one has a name there is a first.
proof fn lemma_first_named(skills: Seq<SkillV>, name: Seq<char>, at: int) -> (i: int)
    requires
        0 <= at < skills.len(),
        skills[at].name == name,
    ensures
        is_first_named(skills, name, i),
    decreases at,
{
    if exists|j: int| 0 <= j < at && (#[trigger] skills[j]).name == name {
        let j = choose|j: int| 0 <= j < at && (#[trigger] skills[j]).name == name;
        lemma_first_named(skills, name, j)
    } else {
        at
    }
}

/// Skills of one name keep the order in which they were found.
pub proof fn law_by_name_is_stable(skills: Seq<SkillV>, name: Seq<char>)
    ensures
        by_name(skills).filter(|k: SkillV| k.name == name) == skills.filter(
            |k: SkillV| k.name == name,
        ),
    decreases skills.len(),
{
    reveal(Seq::filter);
    if skills.len() > 0 {
        let front = skills.drop_last();
        law_by_name_is_stable(front, name);
        law_by_name_sorts(front);
        lemma_placed_is_stable(by_name(front), skills.last(), name);
    }
}

proof fn lemma_placed_is_stable(skills: Seq<SkillV>, x: SkillV, name: Seq<char>)
    ensures
        ({
            let same = |k: SkillV| k.name == name;
            placed(skills, x).filter(same) == if x.name == name {
                skills.filter(same).push(x)
            } else {
                skills.filter(same)
            }
        }),
    decreases skills.len(),
{
    reveal(Seq::filter);
    let same = |k: SkillV| k.name == name;
    if skills.len() == 0 || !text::before(x.name, skills.last().name) {
        assert(skills.push(x).drop_last() =~= skills);
    } else {
        let front = skills.drop_last();
        let last = skills.last();
        lemma_placed_is_stable(front, x, name);
        let head = placed(front, x);
        assert(head.push(last).drop_last() =~= head);
        if last.name == name && x.name == name {
            text::lemma_before_total(x.name, x.name);
            lemma_not_before_itself(x.name);
        }
    }
}

proof fn lemma_not_before_itself(a: Seq<char>)
    ensures
        !text::before(a, a),
    decreases a.len(),
{
    if a.len() > 0 {
        lemma_not_before_itself(a.drop_first());
    }
}

/// Each skill has its line in the catalog and in the list, with its name and its
/// description; all that is not official is marked with its level in the catalog.
pub proof fn law_all_are_shown(skills: Seq<SkillV>, i: int)
    requires
        0 <= i < skills.len(),
    ensures
        text::contains(
            catalog(skills),
            "- "@ + skills[i].name + (if skills[i].trust_level == TrustLevel::Official {
                Seq::empty()
            } else {
                " ["@ + level_word(skills[i].trust_level) + "]"@
            }) + ": "@ + skills[i].description + "\n"@,
        ),
        text::contains(
            listing(skills),
            skills[i].name + " \u{2014} "@ + skills[i].description + " ["@ + skills[i].source
                + "]\n"@,
        ),
        text::contains(listing(skills), text::digits(skills.len())),
{
    let skill = skills[i];
    let lines = Seq::new(skills.len(), |i: int| catalog_line(skills[i]));
    let wanted = "- "@ + skill.name + (if skill.trust_level == TrustLevel::Official {
        Seq::empty()
    } else {
        " ["@ + level_word(skill.trust_level) + "]"@
    }) + ": "@ + skill.description + "\n"@;
    reveal_strlit("]: ");
    reveal_strlit("]");
    reveal_strlit(": ");
    assert("]: "@ =~= "]"@ + ": "@);
    assert(lines[i] =~= wanted);
    text::lemma_middle_is_contained(Seq::empty(), wanted, Seq::empty());
    assert(Seq::<char>::empty() + wanted + Seq::empty() =~= wanted);
    lemma_piece_of_all(lines, i, wanted);
    text::lemma_part_is_contained(
        "<available_skills>\n"@,
        text::concat_all(lines),
        "</available_skills>"@,
        wanted,
    );
    let rows = Seq::new(skills.len(), |i: int| list_line(skills[i]));
    let row = skill.name + " \u{2014} "@ + skill.description + " ["@ + skill.source + "]\n"@;
    assert(rows[i] =~= "• "@ + row + Seq::empty());
    text::lemma_middle_is_contained("• "@, row, Seq::empty());
    lemma_piece_of_all(rows, i, row);
    let head = "Available skills ("@ + text::digits(skills.len()) + "):\n\n"@;
    text::lemma_part_is_contained(head, text::concat_all(rows), Seq::empty(), row);
    assert(head + text::concat_all(rows) + Seq::empty() =~= listing(skills));
    text::lemma_middle_is_contained(
        "Available skills ("@,
        text::digits(skills.len()),
        "):\n\n"@ + text::concat_all(rows),
    );
    assert("Available skills ("@ + text::digits(skills.len()) + ("):\n\n"@ + text::concat_all(
        rows,
    )) =~= listing(skills));
}

proof fn lemma_piece_of_all(pieces: Seq<Seq<char>>, i: int, pat: Seq<char>)
    requires
        0 <= i < pieces.len(),
        text::contains(pieces[i], pat),
    ensures
        text::contains(text::concat_all(pieces), pat),
    decreases pieces.len(),
{
    let front = text::concat_all(pieces.drop_last());
    if i == pieces.len() - 1 {
        text::lemma_part_is_contained(front, pieces.last(), Seq::empty(), pat);
        assert(front + pieces.last() + Seq::empty() =~= text::concat_all(pieces));
    } else {
        assert(pieces.drop_last()[i] == pieces[i]);
        lemma_piece_of_all(pieces.drop_last(), i, pat);
        text::lemma_part_is_contained(Seq::empty(), front, pieces.last(), pat);
        assert(Seq::<char>::empty() + front + pieces.last() =~= text::concat_all(pieces));
    }
}

/// What is kept of a list is what its entries are mapped to, but for empty texts.
proof fn lemma_kept(items: Seq<Seq<char>>, f: spec_fn(Seq<char>) -> Seq<char>, x: Seq<char>)
    ensures
        kept(items, f).contains(x) <==> x.len() > 0 && exists|i: int|
            0 <= i < items.len() && f(#[trigger] items[i]) == x,
    decreases items.len(),
{
    if items.len() > 0 {
        let front = items.drop_last();
        let before = kept(front, f);
        let all = kept(items, f);
        lemma_kept(front, f, x);
        if all.contains(x) {
            let k = choose|k: int| 0 <= k < all.len() && all[k] == x;
            if k < before.len() {
                assert(before[k] == x);
                let i = choose|i: int| 0 <= i < front.len() && f(#[trigger] front[i]) == x;
                assert(items[i] == front[i]);
            } else {
                assert(f(items[items.len() - 1]) == x);
            }
        }
        if x.len() > 0 && exists|i: int| 0 <= i < items.len() && f(#[trigger] items[i]) == x {
            let i = choose|i: int| 0 <= i < items.len() && f(#[trigger] items[i]) == x;
            if i < front.len() {
                assert(front[i] == items[i]);
                let k = choose|k: int| 0 <= k < before.len() && before[k] == x;
                assert(all[k] == x);
            } else {
                assert(all[before.len() as int] == x);
            }
        }
    }
}

/// A name of a platform in small letters without space around it, and one name for the
/// system that has three.
pub open spec fn spelled(word: Seq<char>) -> Seq<char> {
    let small = text::ascii_lower(text::trim(word));
    if small == "macos"@ || small == "osx"@ {
        "darwin"@
    } else {
        small
    }
}

/// A skill has the platforms of both lists of its frontmatter, in small letters and by
/// their usual names, and the commands of both, without space around them; each once,
/// and no empty ones.
pub proof fn law_lists_of_a_skill(fm: SkillFrontmatter, dir: Seq<char>, got: SkillV, x: Seq<char>)
    requires
        described_by(fm, dir, got),
    ensures
        got.platforms.contains(x) <==> x.len() > 0 && exists|i: int|
            0 <= i < fm.platforms@.len() + fm.compatibility.os@.len() && spelled(
                #[trigger] (text::strs(fm.platforms@) + text::strs(fm.compatibility.os@))[i],
            ) == x,
        got.deps.contains(x) <==> x.len() > 0 && exists|i: int|
            0 <= i < fm.deps@.len() + fm.compatibility.deps@.len() && text::trim(
                #[trigger] (text::strs(fm.deps@) + text::strs(fm.compatibility.deps@))[i],
            ) == x,
        got.platforms.no_duplicates(),
        got.deps.no_duplicates(),
{
    let all = text::strs(fm.platforms@) + text::strs(fm.compatibility.os@);
    let f = |p: Seq<char>| platform_name(p);
    lemma_kept(all, f, x);
    if exists|i: int| 0 <= i < all.len() && f(#[trigger] all[i]) == x {
        let i = choose|i: int| 0 <= i < all.len() && f(#[trigger] all[i]) == x;
        assert(spelled(all[i]) == x);
    }
    if exists|i: int| 0 <= i < all.len() && spelled(#[trigger] all[i]) == x {
        let i = choose|i: int| 0 <= i < all.len() && spelled(#[trigger] all[i]) == x;
        assert(f(all[i]) == x);
    }
    let more = text::strs(fm.deps@) + text::strs(fm.compatibility.deps@);
    let g = |d: Seq<char>| text::trim(d);
    lemma_kept(more, g, x);
    if exists|i: int| 0 <= i < more.len() && g(#[trigger] more[i]) == x {
        let i = choose|i: int| 0 <= i < more.len() && g(#[trigger] more[i]) == x;
        assert(text::trim(more[i]) == x);
    }
    if exists|i: int| 0 <= i < more.len() && text::trim(#[trigger] more[i]) == x {
        let i = choose|i: int| 0 <= i < more.len() && text::trim(#[trigger] more[i]) == x;
        assert(g(more[i]) == x);
    }
    lemma_sorted_once(got.platforms);
    lemma_sorted_once(got.deps);
}

proof fn lemma_sorted_once(set: Seq<Seq<char>>)
    requires
        forall|i: int, j: int|
            0 <= i < j < set.len() ==> text::before(#[trigger] set[i], #[trigger] set[j]),
    ensures
        set.no_duplicates(),
{
    assert forall|i: int, j: int| 0 <= i < set.len() && 0 <= j < set.len() && i != j implies set[i]
        != set[j] by {
        lemma_not_before_itself(set[i]);
        if i < j {
            assert(text::before(set[i], set[j]));
        } else {
            assert(text::before(set[j], set[i]));
        }
    }
}

proof fn lemma_ended_first(first: Seq<char>, rest: Seq<Seq<char>>)
    ensures
        ended(seq![first] + rest) == first.push('\n') + ended(rest),
    decreases rest.len(),
{
    let all = seq![first] + rest;
    if rest.len() == 0 {
        assert(all.drop_last() =~= Seq::empty());
        assert(all.last() == first);
        assert(ended(all.drop_last()) =~= Seq::empty());
        assert(ended(rest) =~= Seq::empty());
        assert(ended(all) =~= first.push('\n') + ended(rest));
    } else {
        assert(all.drop_last() =~= seq![first] + rest.drop_last());
        assert(all.last() == rest.last());
        lemma_ended_first(first, rest.drop_last());
        assert(ended(all) =~= first.push('\n') + ended(rest));
    }
}

proof fn lemma_ended_lines(s: Seq<char>, i: int)
    requires
        0 <= i <= s.len(),
        !s.contains('\r'),
        i < s.len() ==> s.last() == '\n',
    ensures
        ended(text::lines_from(s, i)) == s.skip(i),
    decreases s.len() - i,
{
    let k = text::next_char(s, '\n', i);
    text::lemma_next_char(s, '\n', i);
    if i < s.len() {
        assert(k < s.len()) by {
            if k == s.len() {
                assert(s[s.len() - 1] != '\n');
            }
        }
        let line = s.subrange(i, k);
        if line.len() > 0 {
            assert(s.contains(s[k - 1]));
            assert(line.last() == s[k - 1]);
        }
        lemma_ended_lines(s, k + 1);
        lemma_ended_first(line, text::lines_from(s, k + 1));
        assert(line.push('\n') + s.skip(k + 1) =~= s.skip(i));
    } else {
        assert(s.skip(i) =~= Seq::empty());
    }
}

/// A description file is read in its two parts: what stands between the two lines that
/// read `---`, and what stands below them without the space around it.
pub proof fn law_skill_file_is_read(head: Seq<char>, body: Seq<char>)
    requires
        text::trim(head).len() > 0,
        !head.contains('\r'),
        !text::contains(head, "---"@),
        !text::contains(head, "..."@),
    ensures
        source_of("---\n"@ + head + "\n---\n"@ + body) == Some(
            (head.push('\n'), text::trim(body)),
        ),
{
    reveal_strlit("---\n");
    reveal_strlit("\n---\n");
    reveal_strlit("---");
    reveal_strlit("...");
    let content = "---\n"@ + head + "\n---\n"@ + body;
    let c = head.len() as int + 5;
    assert(text::strip_front(content, '\u{feff}') == content);
    assert(content.subrange(0, 4) =~= "---\n"@);
    assert(frontmatter::opening(content) == Some(4int));
    frontmatter::lemma_line_is(content, c, c + 3);
    assert(content.subrange(c, c + 3) =~= "---"@);
    assert(text::trim("---"@) =~= "---"@);
    assert forall|j: int| 4 <= j < c && #[trigger] frontmatter::begins(
        content,
        4,
        j,
    ) implies !frontmatter::is_mark(frontmatter::line_at(content, j), true) by {
        let line = frontmatter::line_at(content, j);
        text::lemma_next_char(content, '\n', j);
        assert(content[c - 1] == '\n');
        if frontmatter::is_mark(line, true) {
            let i = text::lemma_trim_part(line);
            assert(head.subrange(j - 4 + i, j - 4 + i + 3) =~= line.subrange(i, i + 3));
            assert(text::occurs_at(head, text::trim(line), j - 4 + i));
        }
    }
    frontmatter::lemma_closing_is(content, 4, c, true);
    let whole = head.push('\n');
    assert(content.subrange(4, c) =~= whole);
    assert(content.skip(c + 4) =~= body);
    assert(!whole.contains('\r')) by {
        if whole.contains('\r') {
            let q = choose|q: int| 0 <= q < whole.len() && whole[q] == '\r';
            assert(head[q] == '\r');
        }
    }
    lemma_ended_lines(whole, 0);
    assert(whole.skip(0) =~= whole);
    let i = text::lemma_trim_part(head);
    assert(head[i] == text::trim(head)[0]);
    assert(whole[i] == head[i]);
    text::lemma_trim_keeps(whole, i);
}

/// Whether a text is another in which some spaces have become ends of lines.
pub open spec fn broken_at_spaces(a: Seq<char>, b: Seq<char>) -> bool {
    a.len() == b.len() && forall|i: int|
        0 <= i < a.len() ==> #[trigger] b[i] == a[i] || (a[i] == ' ' && b[i] == '\n')
}

proof fn lemma_key_on_line(yaml: Seq<char>, key: Seq<char>)
    requires
        key.len() > 0,
    ensures
        broken_at_spaces(yaml, key_on_line(yaml, key)),
        text::contains(yaml, " "@ + key) ==> text::contains(key_on_line(yaml, key), "\n"@ + key),
{
    reveal_strlit(" ");
    reveal_strlit("\n");
    let pat = " "@ + key;
    let to = "\n"@ + key;
    text::lemma_find_from(yaml, pat, 0);
    match text::find(yaml, pat) {
        Some(k) => {
            let new = key_on_line(yaml, key);
            let n = pat.len() as int;
            assert(yaml.subrange(k, k + n) == pat);
            assert forall|i: int| 0 <= i < yaml.len() implies #[trigger] new[i] == yaml[i] || (
            yaml[i] == ' ' && new[i] == '\n') by {
                if k <= i < k + n {
                    assert(yaml.subrange(k, k + n)[i - k] == yaml[i]);
                    assert(new[i] == to[i - k]);
                } else if i >= k + n {
                    assert(new[i] == yaml.skip(k + n)[i - k - n]);
                }
            }
            text::lemma_middle_is_contained(yaml.take(k), to, yaml.skip(k + n));
        },
        None => {
            if text::contains(yaml, pat) {
                let i = choose|i: int| text::occurs_at(yaml, pat, i);
                assert(!text::occurs_at(yaml, pat, i));
            }
        },
    }
}

proof fn lemma_broken_twice(a: Seq<char>, b: Seq<char>, c: Seq<char>)
    requires
        broken_at_spaces(a, b),
        broken_at_spaces(b, c),
    ensures
        broken_at_spaces(a, c),
{
    assert forall|i: int| 0 <= i < a.len() implies #[trigger] c[i] == a[i] || (a[i] == ' ' && c[i]
        == '\n') by {
        assert(b[i] == a[i] || (a[i] == ' ' && b[i] == '\n'));
    }
}

/// Whether a key that stood behind a space stands at the beginning of a line.
spec fn stands_on_line(a: Seq<char>, b: Seq<char>, key: Seq<char>) -> bool {
    text::contains(a, " "@ + key) ==> text::contains(b, "\n"@ + key)
}

/// A key on a line of its own stays there when further spaces are broken at, and one
/// behind a space is still behind it or on its own line.
proof fn lemma_key_stays(a: Seq<char>, b: Seq<char>, key: Seq<char>)
    requires
        broken_at_spaces(a, b),
        !key.contains(' '),
    ensures
        text::contains(a, "\n"@ + key) ==> text::contains(b, "\n"@ + key),
        text::contains(a, " "@ + key) ==> text::contains(b, " "@ + key) || text::contains(
            b,
            "\n"@ + key,
        ),
{
    reveal_strlit(" ");
    reveal_strlit("\n");
    let n = key.len() as int + 1;
    assert forall|i: int, first: char|
        #![trigger text::occurs_at(a, seq![first] + key, i)]
        (first == ' ' || first == '\n') && text::occurs_at(a, seq![first] + key, i) implies
        text::occurs_at(b, seq![b[i]] + key, i) && (b[i] == first || b[i] == '\n') by {
        let pat = seq![first] + key;
        assert(a.subrange(i, i + n) == pat);
        assert(a[i] == a.subrange(i, i + n)[0]);
        assert(b[i] == a[i] || (a[i] == ' ' && b[i] == '\n'));
        assert forall|q: int| 1 <= q < n implies b[i + q] == pat[q] by {
            assert(a[i + q] == a.subrange(i, i + n)[q]);
            assert(pat[q] == key[q - 1]);
            assert(key.contains(key[q - 1]));
            assert(b[i + q] == a[i + q] || (a[i + q] == ' ' && b[i + q] == '\n'));
        }
        assert forall|q: int| 0 <= q < n implies b.subrange(i, i + n)[q] == (seq![b[i]]
            + key)[q] by {
            if q > 0 {
                assert(b[i + q] == pat[q]);
            }
        }
        assert(b.subrange(i, i + n) =~= seq![b[i]] + key);
    }
    assert(" "@ + key =~= seq![' '] + key);
    assert("\n"@ + key =~= seq!['\n'] + key);
    if text::contains(a, "\n"@ + key) {
        let i = choose|i: int| text::occurs_at(a, "\n"@ + key, i);
        assert(text::occurs_at(a, seq!['\n'] + key, i));
        assert(text::occurs_at(b, "\n"@ + key, i));
    }
    if text::contains(a, " "@ + key) {
        let i = choose|i: int| text::occurs_at(a, " "@ + key, i);
        assert(text::occurs_at(a, seq![' '] + key, i));
        if b[i] == ' ' {
            assert(text::occurs_at(b, " "@ + key, i));
        } else {
            assert(text::occurs_at(b, "\n"@ + key, i));
        }
    }
}

/// One key is put on a line while another stays on its line, or waits for its turn.
proof fn lemma_next_key(
    yaml: Seq<char>,
    a: Seq<char>,
    key: Seq<char>,
    other: Seq<char>,
)
    requires
        broken_at_spaces(yaml, a),
        key.len() > 0,
        !key.contains(' '),
        !other.contains(' '),
    ensures
        broken_at_spaces(yaml, key_on_line(a, key)),
        stands_on_line(yaml, a, other) ==> stands_on_line(yaml, key_on_line(a, key), other),
        stands_on_line(yaml, key_on_line(a, key), key),
{
    let b = key_on_line(a, key);
    lemma_key_on_line(a, key);
    lemma_broken_twice(yaml, a, b);
    lemma_key_stays(a, b, other);
    lemma_key_stays(yaml, a, key);
    lemma_key_stays(a, b, key);
}

/// A frontmatter in one line keeps all its characters when its keys get lines of their
/// own, but for the spaces that become the ends of lines; and each of the keys that
/// stood behind a space stands at the beginning of a line.
pub proof fn law_keys_get_lines(yaml: Seq<char>, key: Seq<char>)
    requires
        key == "name:"@ || key == "description:"@ || key == "license:"@ || key == "platforms:"@
            || key == "deps:"@ || key == "compatibility:"@ || key == "source:"@ || key
            == "version:"@ || key == "updated_at:"@ || key == "trust_level:"@,
    ensures
        broken_at_spaces(yaml, keys_on_lines(yaml)),
        text::contains(yaml, " "@ + key) ==> text::contains(keys_on_lines(yaml), "\n"@ + key),
{
    reveal_strlit("name:");
    reveal_strlit("description:");
    reveal_strlit("license:");
    reveal_strlit("platforms:");
    reveal_strlit("deps:");
    reveal_strlit("compatibility:");
    reveal_strlit("source:");
    reveal_strlit("version:");
    reveal_strlit("updated_at:");
    reveal_strlit("trust_level:");
    assert(!key.contains(' '));
    let y1 = key_on_line(yaml, "name:"@);
    let y2 = key_on_line(y1, "description:"@);
    let y3 = key_on_line(y2, "license:"@);
    let y4 = key_on_line(y3, "platforms:"@);
    let y5 = key_on_line(y4, "deps:"@);
    let y6 = key_on_line(y5, "compatibility:"@);
    let y7 = key_on_line(y6, "source:"@);
    let y8 = key_on_line(y7, "version:"@);
    let y9 = key_on_line(y8, "updated_at:"@);
    lemma_next_key(yaml, yaml, "name:"@, key);
    lemma_next_key(yaml, y1, "description:"@, key);
    lemma_next_key(yaml, y2, "license:"@, key);
    lemma_next_key(yaml, y3, "platforms:"@, key);
    lemma_next_key(yaml, y4, "deps:"@, key);
    lemma_next_key(yaml, y5, "compatibility:"@, key);
    lemma_next_key(yaml, y6, "source:"@, key);
    lemma_next_key(yaml, y7, "version:"@, key);
    lemma_next_key(yaml, y8, "updated_at:"@, key);
    lemma_next_key(yaml, y9, "trust_level:"@, key);
}

/// Where a name is not found, all skills that can be had are named.
pub proof fn law_not_found_names_all(name: Seq<char>, available: Seq<SkillV>, i: int)
    requires
        0 <= i < available.len(),
    ensures
        text::contains(not_found(name, available), available[i].name),
        text::contains(not_found(name, available), name),
{
    let names = skill_names(available);
    let n = available[i].name;
    text::lemma_middle_is_contained(Seq::empty(), n, Seq::empty());
    assert(Seq::<char>::empty() + n + Seq::empty() =~= n);
    text::lemma_piece_is_contained(names, ", "@, i, n);
    let head = "Skill '"@ + name + "' not found. Available skills: "@;
    text::lemma_part_is_contained(head, text::join(names, ", "@), Seq::empty(), n);
    assert(head + text::join(names, ", "@) + Seq::empty() =~= not_found(name, available));
    text::lemma_middle_is_contained(
        "Skill '"@,
        name,
        "' not found. Available skills: "@ + text::join(names, ", "@),
    );
    assert("Skill '"@ + name + ("' not found. Available skills: "@ + text::join(names, ", "@))
        =~= not_found(name, available));
}

/// A line of three dots ends the first part as well as one of three dashes; where no such
/// line comes, all of the file is that part.
pub proof fn law_other_ends(head: Seq<char>, body: Seq<char>)
    requires
        text::trim(head).len() > 0,
        !head.contains('\r'),
        !text::contains(head, "---"@),
        !text::contains(head, "..."@),
    ensures
        source_of("---\n"@ + head + "\n...\n"@ + body) == Some(
            (head.push('\n'), text::trim(body)),
        ),
        source_of("---\n"@ + head + "\n"@) == Some((head.push('\n'), Seq::<char>::empty())),
{
    reveal_strlit("---\n");
    reveal_strlit("\n...\n");
    reveal_strlit("\n");
    reveal_strlit("---");
    reveal_strlit("...");
    let content = "---\n"@ + head + "\n...\n"@ + body;
    let c = head.len() as int + 5;
    assert(text::strip_front(content, '\u{feff}') == content);
    assert(content.subrange(0, 4) =~= "---\n"@);
    assert(frontmatter::opening(content) == Some(4int));
    frontmatter::lemma_line_is(content, c, c + 3);
    assert(content.subrange(c, c + 3) =~= "..."@);
    assert(text::trim("..."@) =~= "..."@);
    assert forall|j: int| 4 <= j < c && #[trigger] frontmatter::begins(
        content,
        4,
        j,
    ) implies !frontmatter::is_mark(frontmatter::line_at(content, j), true) by {
        assert(content[c - 1] == '\n');
        assert(content.subrange(4, head.len() as int + 4) =~= head);
        lemma_no_mark(content, head, j);
    }
    frontmatter::lemma_closing_is(content, 4, c, true);
    let whole = head.push('\n');
    assert(content.subrange(4, c) =~= whole);
    assert(content.skip(c + 4) =~= body);
    lemma_head_is_read(head);
    let open = "---\n"@ + head + "\n"@;
    assert(text::strip_front(open, '\u{feff}') == open);
    assert(open.subrange(0, 4) =~= "---\n"@);
    assert(frontmatter::opening(open) == Some(4int));
    assert(open.skip(4) =~= whole);
    frontmatter::lemma_closing_first(open, 4, true);
    frontmatter::lemma_closing(open, 4, true);
    match frontmatter::closing(open, 4, true) {
        Some(at) => {
            if at < c {
                assert(open[c - 1] == '\n');
                assert(open.subrange(4, head.len() as int + 4) =~= head);
                lemma_no_mark(open, head, at);
            }
        },
        None => {},
    }
    let none = Seq::<char>::empty();
    let at = text::law_trim(none);
    assert(text::trim(none) =~= none);
}

/// A line of the first part, where it holds no mark, is none.
proof fn lemma_no_mark(content: Seq<char>, head: Seq<char>, j: int)
    requires
        4 <= j < head.len() + 5 <= content.len(),
        content.subrange(4, head.len() as int + 4) == head,
        content[head.len() as int + 4] == '\n',
        !text::contains(head, "---"@),
        !text::contains(head, "..."@),
    ensures
        !frontmatter::is_mark(frontmatter::line_at(content, j), true),
{
    reveal_strlit("---");
    reveal_strlit("...");
    let line = frontmatter::line_at(content, j);
    text::lemma_next_char(content, '\n', j);
    assert(text::next_char(content, '\n', j) <= head.len() + 4);
    if frontmatter::is_mark(line, true) {
        let i = text::lemma_trim_part(line);
        assert forall|q: int| 0 <= q < head.len() implies head[q] == content[q + 4] by {
            assert(content.subrange(4, head.len() as int + 4)[q] == content[q + 4]);
        }
        assert(head.subrange(j - 4 + i, j - 4 + i + 3) =~= line.subrange(i, i + 3));
        assert(text::occurs_at(head, text::trim(line), j - 4 + i));
    }
}

/// The first part is read as its lines, and says something where it did.
proof fn lemma_head_is_read(head: Seq<char>)
    requires
        text::trim(head).len() > 0,
        !head.contains('\r'),
    ensures
        ended(text::lines(head.push('\n'))) == head.push('\n'),
        text::trim(head.push('\n')).len() > 0,
{
    let whole = head.push('\n');
    assert(!whole.contains('\r')) by {
        if whole.contains('\r') {
            let q = choose|q: int| 0 <= q < whole.len() && whole[q] == '\r';
            assert(head[q] == '\r');
        }
    }
    lemma_ended_lines(whole, 0);
    assert(whole.skip(0) =~= whole);
    let i = text::lemma_trim_part(head);
    assert(head[i] == text::trim(head)[0]);
    assert(whole[i] == head[i]);
    text::lemma_trim_keeps(whole, i);
}

/// A skill has the name, the description and the directory that its file says, without
/// the space around its name; its source, or that it is local; its version and its date
/// where they say something; and it is official unless it says how far it is trusted.
pub proof fn law_skill_is_as_described(fm: SkillFrontmatter, dir: Seq<char>, got: SkillV)
    requires
        described_by(fm, dir, got),
    ensures
        fm.name is Some && got.name == text::trim(fm.name->0@) && got.name.len() > 0,
        got.description == fm.description@,
        got.dir_path == dir,
        fm.source matches Some(s) ==> text::trim(s@).len() > 0 ==> got.source == text::trim(s@),
        fm.source is None ==> got.source == "local"@,
        fm.source matches Some(s) ==> text::trim(s@).len() == 0 ==> got.source == "local"@,
        fm.version matches Some(s) ==> text::trim(s@).len() > 0 ==> got.version == Some(
            text::trim(s@),
        ),
        fm.version is None ==> got.version is None,
        fm.updated_at matches Some(s) ==> text::trim(s@).len() > 0 ==> got.updated_at == Some(
            text::trim(s@),
        ),
        fm.updated_at is None ==> got.updated_at is None,
        fm.trust_level is None ==> got.trust_level == TrustLevel::Official,
        fm.trust_level matches Some(s) ==> got.trust_level == level_of(s@),
{
}

/// How far a skill is trusted is read without regard to case and to the space around;
/// what is no word for it means that it is official.
pub proof fn law_trust_words(s: Seq<char>)
    ensures
        level_of(s) == TrustLevel::Archived <==> text::ascii_lower(text::trim(s)) == "archived"@,
        level_of(s) == TrustLevel::Candidate <==> text::ascii_lower(text::trim(s)) == "candidate"@,
        level_of(s) == TrustLevel::Verified <==> text::ascii_lower(text::trim(s)) == "verified"@,
{

    reveal_strlit("archived");
    reveal_strlit("candidate");
    reveal_strlit("verified");
    assert("archived"@.len() == 8 && "archived"@[0] == 'a');
    assert("verified"@.len() == 8 && "verified"@[0] == 'v');
    assert("candidate"@.len() == 9);
}

/// The platform of a system is its own name but for the one that is named otherwise; a
/// system that is not known has none.
pub proof fn law_platform_of(os: Seq<char>)
    ensures
        platform_of("macos"@) == "darwin"@,
        platform_of("linux"@) == "linux"@,
        platform_of("windows"@) == "windows"@,
        os != "macos"@ && os != "linux"@ && os != "windows"@ ==> platform_of(os) == "unknown"@,
{
    reveal_strlit("macos");
    reveal_strlit("linux");
    reveal_strlit("windows");
    reveal_strlit("darwin");
    reveal_strlit("unknown");
    assert("macos"@.len() == 5 && "macos"@[0] == 'm');
    assert("linux"@.len() == 5 && "linux"@[0] == 'l');
    assert("darwin"@.len() == 6);
    assert("windows"@.len() == 7 && "windows"@[0] == 'w');
    assert("unknown"@.len() == 7 && "unknown"@[0] == 'u');
}

/// Why a skill cannot be used is told with its name and either each of the platforms that
/// it is for or each of the commands that it lacks.
pub proof fn law_complaint(skill: SkillV, platform: Seq<char>, commands: Seq<Seq<char>>, i: int)
    ensures
        complaint(skill, platform, commands) matches Some(why) ==> text::contains(why, skill.name),
        complaint(skill, platform, commands) matches Some(why) ==> !runs_on(
            skill.platforms,
            platform,
        ) && 0 <= i < skill.platforms.len() ==> text::contains(why, skill.platforms[i]),
        complaint(skill, platform, commands) matches Some(why) ==> !runs_on(
            skill.platforms,
            platform,
        ) ==> text::contains(why, platform),
        complaint(skill, platform, commands) matches Some(why) ==> runs_on(
            skill.platforms,
            platform,
        ) && 0 <= i < lacking(skill.deps, commands).len() ==> text::contains(
            why,
            lacking(skill.deps, commands)[i],
        ),
{
    let name = skill.name;
    let q = "Skill '"@;
    if !runs_on(skill.platforms, platform) {
        let a = "' is not available on this platform (current: "@;
        let b = ", supported: "@;
        let all = text::join(skill.platforms, ", "@);
        let end = ")."@;
        let why = q + name + a + platform + b + all + end;
        assert(why =~= q + name + (a + platform + b + all + end));
        text::lemma_middle_is_contained(q, name, a + platform + b + all + end);
        assert(why =~= (q + name + a) + platform + (b + all + end));
        text::lemma_middle_is_contained(q + name + a, platform, b + all + end);
        if 0 <= i < skill.platforms.len() {
            lemma_held(skill.platforms[i]);
            text::lemma_piece_is_contained(skill.platforms, ", "@, i, skill.platforms[i]);
            text::lemma_part_is_contained(q + name + a + platform + b, all, end, skill.platforms[i]);
        }
    } else if lacking(skill.deps, commands).len() > 0 {
        let a = "' is missing required dependencies: "@;
        let less = lacking(skill.deps, commands);
        let all = text::join(less, ", "@);
        let why = q + name + a + all;
        assert(why =~= q + name + (a + all));
        text::lemma_middle_is_contained(q, name, a + all);
        if 0 <= i < less.len() {
            lemma_held(less[i]);
            text::lemma_piece_is_contained(less, ", "@, i, less[i]);
            text::lemma_part_is_contained(q + name + a, all, Seq::empty(), less[i]);
            assert(why =~= q + name + a + all + Seq::<char>::empty());
        }
    }
}

proof fn lemma_held(t: Seq<char>)
    ensures
        text::contains(t, t),
{
    text::lemma_middle_is_contained(Seq::empty(), t, Seq::empty());
    assert(Seq::<char>::empty() + t + Seq::<char>::empty() =~= t);
}

/// A command is looked for under its own name first. On Windows, unless it ends with one
/// of the extensions of programs, it is also looked for with each of them, in their
/// order; on other systems under no other name.
pub proof fn law_candidate_names(
    platform: Seq<char>,
    command: Seq<char>,
    exts: Seq<Seq<char>>,
    i: int,
)
    requires
        exts.len() > 0,
        forall|k: int|
            0 <= k < exts.len() ==> (#[trigger] exts[k]).len() > 0 && !exts[k].contains(';')
                && !text::is_white(exts[k][0]) && !text::is_white(exts[k].last()),
    ensures
        ({
            let names = candidate_names(platform, command, text::join(exts, seq![';']));
            &&& names.len() > 0 && names[0] == command
            &&& platform != "windows"@ ==> names.len() == 1
            &&& platform == "windows"@ && (forall|k: int|
                0 <= k < exts.len() ==> !text::ascii_lower(#[trigger] exts[k]).is_suffix_of(
                    text::ascii_lower(command),
                )) ==> names.len() == exts.len() + 1 && (0 <= i < exts.len() ==> names[i + 1]
                == command + text::ascii_lower(exts[i]))
            &&& platform == "windows"@ && (exists|k: int|
                0 <= k < exts.len() && text::ascii_lower(#[trigger] exts[k]).is_suffix_of(
                    text::ascii_lower(command),
                )) ==> names.len() == 1
        }),
{
    text::law_join_then_split(exts, ';');
    lemma_extensions(exts);
    let small = extension_list(exts);
    let lower = text::ascii_lower(command);
    assert forall|k: int| 0 <= k < exts.len() implies text::ends(lower, small[k])
        == text::ascii_lower(#[trigger] exts[k]).is_suffix_of(lower) by {
        text::law_contains(lower, small[k]);
    }
    if exists|k: int|
        0 <= k < exts.len() && text::ascii_lower(#[trigger] exts[k]).is_suffix_of(lower) {
        let k = choose|k: int|
            0 <= k < exts.len() && text::ascii_lower(#[trigger] exts[k]).is_suffix_of(lower);
        assert(text::ends(lower, small[k]));
    }
}

proof fn lemma_extensions(exts: Seq<Seq<char>>)
    requires
        forall|k: int|
            0 <= k < exts.len() ==> (#[trigger] exts[k]).len() > 0 && !text::is_white(exts[k][0])
                && !text::is_white(exts[k].last()),
    ensures
        extension_list(exts).len() == exts.len(),
        forall|k: int|
            0 <= k < exts.len() ==> (#[trigger] extension_list(exts)[k]) == text::ascii_lower(
                exts[k],
            ),
    decreases exts.len(),
{
    if exts.len() > 0 {
        let front = exts.drop_last();
        assert forall|k: int| 0 <= k < front.len() implies (#[trigger] front[k]).len() > 0
            && !text::is_white(front[k][0]) && !text::is_white(front[k].last()) by {
            assert(front[k] == exts[k]);
        }
        lemma_extensions(front);
        let last = exts[exts.len() - 1];
        let at = text::law_trim(last);
        assert(at.0 == 0 && at.1 == last.len()) by {
            if at.0 > 0 {
                assert(text::is_white(last[0]));
            }
            if at.1 < last.len() {
                assert(text::is_white(last[last.len() - 1]));
            }
        }
        assert(text::trim(last) =~= last);
        text::law_ascii_lower(last);
        assert forall|k: int| 0 <= k < exts.len() implies (#[trigger] extension_list(exts)[k])
            == text::ascii_lower(exts[k]) by {
            if k < front.len() {
                assert(extension_list(exts)[k] == extension_list(front)[k]);
            }
        }
    }
}

/// A description whose first part stands in one line between its marks is read as if each
/// of its keys and its marks stood on lines of their own; where the second mark does not
/// come, or nothing stands between them, it is not read.
pub proof fn law_single_line(yaml: Seq<char>, body: Seq<char>)
    requires
        forall|i: int|
            0 <= i < yaml.len() ==> #[trigger] (yaml + " ---"@).subrange(i, i + 4) != " ---"@,
    ensures
        text::trim(yaml).len() > 0 ==> unfolded("--- "@ + yaml + " ---"@ + body) == Some(
            "---\n"@ + keys_on_lines(text::trim(yaml)) + "\n---\n"@ + text::trim_start(body),
        ),
        text::trim(yaml).len() == 0 ==> unfolded("--- "@ + yaml + " ---"@ + body) is None,
        unfolded("--- "@ + yaml) is None,
{
    reveal_strlit("--- ");
    reveal_strlit(" ---");
    let mark = " ---"@;
    let content = "--- "@ + yaml + mark + body;
    let after = yaml + mark + body;
    assert(content.subrange(0, 4) =~= "--- "@);
    assert(content.skip(4) =~= after);
    text::law_find(after, mark);
    let n = yaml.len() as int;
    assert(after.subrange(n, n + 4) =~= mark);
    assert forall|i: int| 0 <= i < n implies #[trigger] after.subrange(i, i + 4) != mark by {
        assert(after.subrange(i, i + 4) =~= (yaml + mark).subrange(i, i + 4));
    }
    match text::find(after, mark) {
        Some(k) => {
            if k < n {
                assert(after.subrange(k, k + 4) == mark);
            }
            if k > n {
                assert(after.subrange(n, n + 4) != mark);
            }
        },
        None => {
            assert(after.subrange(n, n + 4) != mark);
        },
    }
    assert(after.take(n) =~= yaml);
    assert(after.skip(n + 4) =~= body);
    let open = "--- "@ + yaml;
    assert(open.subrange(0, 4) =~= "--- "@);
    assert(open.skip(4) =~= yaml);
    text::law_find(yaml, mark);
    match text::find(yaml, mark) {
        Some(k) => {
            assert(yaml.subrange(k, k + 4) =~= (yaml + mark).subrange(k, k + 4));
        },
        None => {},
    }
}

/// The catalog and the list show every skill that was found and can run, each with its
/// name and its description, and where there is none the catalog is empty.
pub proof fn law_shown_are_usable(entries: Seq<SkillEntry>, host: Host, i: int)
    ensures
        0 <= i < entries.len() && entries[i].skill is Some && entries[i].skill->0.trust_level
            != TrustLevel::Archived && (entries[i].dir_name matches Some(name) ==> name@
            != "auto-generated"@ && (name@.len() == 0 || name@[0] != '.')) && host.objection(
            entries[i].skill->0@,
        ) is None ==> {
            let skill = entries[i].skill->0@;
            &&& text::contains(catalog_of(entries, host), skill.name)
            &&& text::contains(catalog_of(entries, host), skill.description)
            &&& text::contains(listing_of(entries, host), skill.name)
            &&& text::contains(listing_of(entries, host), skill.description)
        },
        (forall|k: int|
            0 <= k < entries.len() && (#[trigger] entries[k]).skill is Some ==> host.objection(
                entries[k].skill->0@,
            ) is Some) ==> catalog_of(entries, host).len() == 0,
{
    let shown = usable_found(entries, host);
    if 0 <= i < entries.len() && entries[i].skill is Some && entries[i].skill->0.trust_level
        != TrustLevel::Archived && (entries[i].dir_name matches Some(name) ==> name@
        != "auto-generated"@ && (name@.len() == 0 || name@[0] != '.')) && host.objection(
        entries[i].skill->0@,
    ) is None {
        let skill = entries[i].skill->0@;
        law_discovered(entries, host, i);
        let k = choose|k: int| 0 <= k < shown.len() && shown[k] == skill;
        lemma_line_is_shown(shown, k);
    }
    if forall|k: int|
        0 <= k < entries.len() && (#[trigger] entries[k]).skill is Some ==> host.objection(
            entries[k].skill->0@,
        ) is Some {
        lemma_none_usable(entries, host);
        law_by_name_sorts(usable(listed_skills(entries), host));
        assert(usable(listed_skills(entries), host) =~= Seq::empty());
    }
}

proof fn lemma_none_usable(entries: Seq<SkillEntry>, host: Host)
    requires
        forall|k: int|
            0 <= k < entries.len() && (#[trigger] entries[k]).skill is Some ==> host.objection(
                entries[k].skill->0@,
            ) is Some,
    ensures
        usable(listed_skills(entries), host).len() == 0,
    decreases entries.len(),
{
    if entries.len() > 0 {
        let front = entries.drop_last();
        assert forall|k: int| 0 <= k < front.len() && (
        #[trigger] front[k]).skill is Some implies host.objection(front[k].skill->0@) is Some by {
            assert(front[k] == entries[k]);
        }
        lemma_none_usable(front, host);
        let last = entries[entries.len() - 1];
        match listed_skill(last) {
            Some(skill) => {
                let all = listed_skills(entries);
                assert(all.drop_last() =~= listed_skills(front));
                assert(all.last() == skill);
            },
            None => {},
        }
    }
}

proof fn lemma_line_is_shown(shown: Seq<SkillV>, k: int)
    requires
        0 <= k < shown.len(),
    ensures
        text::contains(catalog(shown), shown[k].name),
        text::contains(catalog(shown), shown[k].description),
        text::contains(listing(shown), shown[k].name),
        text::contains(listing(shown), shown[k].description),
{
    law_all_are_shown(shown, k);
    let skill = shown[k];
    let level = if skill.trust_level == TrustLevel::Official {
        Seq::empty()
    } else {
        " ["@ + level_word(skill.trust_level) + "]"@
    };
    let line = "- "@ + skill.name + level + ": "@ + skill.description + "\n"@;
    text::lemma_middle_is_contained(
        "- "@,
        skill.name,
        level + ": "@ + skill.description + "\n"@,
    );
    assert(line =~= "- "@ + skill.name + (level + ": "@ + skill.description + "\n"@));
    text::lemma_middle_is_contained("- "@ + skill.name + level + ": "@, skill.description, "\n"@);
    lemma_contained_on(catalog(shown), line, skill.name);
    lemma_contained_on(catalog(shown), line, skill.description);
    let row = skill.name + " \u{2014} "@ + skill.description + " ["@ + skill.source + "]\n"@;
    let rest = " \u{2014} "@ + skill.description + " ["@ + skill.source + "]\n"@;
    text::lemma_middle_is_contained(Seq::empty(), skill.name, rest);
    assert(row =~= Seq::<char>::empty() + skill.name + rest);
    text::lemma_middle_is_contained(
        skill.name + " \u{2014} "@,
        skill.description,
        " ["@ + skill.source + "]\n"@,
    );
    assert(row =~= (skill.name + " \u{2014} "@) + skill.description + (" ["@ + skill.source
        + "]\n"@));
    lemma_contained_on(listing(shown), row, skill.name);
    lemma_contained_on(listing(shown), row, skill.description);
}

proof fn lemma_contained_on(whole: Seq<char>, part: Seq<char>, pat: Seq<char>)
    requires
        text::contains(whole, part),
        text::contains(part, pat),
    ensures
        text::contains(whole, pat),
{
    let i = choose|i: int| text::occurs_at(whole, part, i);
    text::lemma_part_is_contained(whole.take(i), part, whole.skip(i + part.len()), pat);
    assert(whole =~= whole.take(i) + part + whole.skip(i + part.len())) by {
        assert(whole.subrange(i, i + part.len()) == part);
    }
}

/// Skills are looked for in their directory and, where it is there, in the one below it
/// for those that were generated.
pub proof fn law_dirs_to_search(dir: Seq<char>)
    requires
        dir.len() > 0,
        dir.last() != '/',
    ensures
        dirs_to_search(dir, false) == seq![dir],
        dirs_to_search(dir, true) == seq![dir, dir + "/auto-generated"@],
{
    reveal_strlit("auto-generated");
    reveal_strlit("/auto-generated");
    assert("/auto-generated"@ =~= seq!['/'] + "auto-generated"@);
    assert(paths::joined(dir, "auto-generated"@) =~= dir + "/auto-generated"@);
    assert(dirs_to_search(dir, true) =~= seq![dir, dir + "/auto-generated"@]);
    assert(dirs_to_search(dir, false) =~= seq![dir]);
}

} // verus!
