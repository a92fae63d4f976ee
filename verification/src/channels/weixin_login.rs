//! Logging in to Weixin with a QR code: the code on the terminal, the polling
//! for its state, and the token in the configuration file.

use crate::channels::weixin;
use crate::codec;
use crate::paths;
use crate::stamps;
use crate::text;
use qrcode::{Color, QrCode};
use vstd::prelude::*;
use vstd::utf8::*;

verus! {

broadcast use vstd::string::group_string_axioms;

// ---------------------------------------------------------------------------
// Credentials
// ---------------------------------------------------------------------------

/// What a login brings.
#[derive(Debug)]
pub struct WeixinCredentials {
    pub bot_token: String,
    pub base_url: String,
    pub account_id: String,
    pub user_id: String,
    pub saved_at: String,
}

/// Where credentials are kept.
pub fn credentials_path(data_dir: &str) -> (res: String)
    ensures
        res@ == paths::joined(data_dir@, "weixin_credentials.json"@),
{
    paths::join(data_dir, "weixin_credentials.json")
}

/// How many bytes of a token are shown from its front: eight at most.
pub open spec fn shown_front(token: Seq<char>) -> nat {
    if text::byte_len(token) < 8 {
        text::byte_len(token)
    } else {
        8
    }
}

/// Whether the places at which a token is cut lie between its characters.
pub open spec fn can_be_masked(token: Seq<char>) -> bool {
    &&& text::behind_bytes(token, shown_front(token)) is Some
    &&& text::byte_len(token) > 12 ==> text::behind_bytes(
        token,
        (text::byte_len(token) - 4) as nat,
    ) is Some
}

/// A token as it is shown: its first eight bytes, dots, and its last four bytes
/// where it has more than twelve.
pub open spec fn masked(token: Seq<char>) -> Seq<char> {
    let rest = text::behind_bytes(token, shown_front(token))->Some_0;
    token.take(token.len() - rest.len()) + "..."@ + (if text::byte_len(token) > 12 {
        text::behind_bytes(token, (text::byte_len(token) - 4) as nat)->Some_0
    } else {
        Seq::empty()
    })
}

/// A token as it is shown.
pub fn masked_token(token: &str) -> (res: String)
    requires
        can_be_masked(token@),
    ensures
        res@ == masked(token@),
{
    let len: usize = text::len_bytes(token);
    let front: usize = if len < 8 {
        len
    } else {
        8
    };
    let v = text::to_chars(token);
    let rest = match text::suffix_behind(token, front) {
        Some(rest) => text::to_chars(rest.as_str()),
        None => Vec::new(),
    };
    proof {
        text::lemma_behind_is_shorter(token@, front as nat);
    }
    let head = text::from_range(&v, 0, v.len() - rest.len());
    assert(head@ =~= token@.take(token@.len() - rest@.len()));
    let tail = if len > 12 {
        match text::suffix_behind(token, len - 4) {
            Some(tail) => tail,
            None => String::new(),
        }
    } else {
        String::new()
    };
    assert(tail@ =~= if text::byte_len(token@) > 12 {
        text::behind_bytes(token@, (text::byte_len(token@) - 4) as nat)->Some_0
    } else {
        Seq::empty()
    });
    text::cat3(head.as_str(), "...", tail.as_str())
}

// ---------------------------------------------------------------------------
// The code on the terminal
// ---------------------------------------------------------------------------

/// The modules of the QR code of a text, row by row, dark ones true, and the
/// number of modules in a row; or why there is no code of the text.
pub uninterp spec fn qr_modules(data: Seq<char>) -> Result<(Seq<bool>, nat), Seq<char>>;

/// Makes the QR code of a text (`qrcode::QrCode::new`, `to_colors` and `width`).
/// A code is a square. Which modules are dark, and what is said of a text that has
/// no code, is named only.
#[verifier::external_body]
fn qr_code(data: &str) -> (res: Result<(Vec<bool>, usize), String>)
    ensures
        match res {
            Ok((dark, width)) => qr_modules(data@) == Ok::<_, Seq<char>>((dark@, width as nat))
                && dark@.len() == width * width,
            Err(e) => qr_modules(data@) == Err::<(Seq<bool>, nat), _>(e@),
        },
{
    match QrCode::new(data) {
        Ok(code) => {
            let dark = code.to_colors().into_iter().map(|color| color == Color::Dark).collect();
            Ok((dark, code.width()))
        },
        Err(e) => Err(e.to_string()),
    }
}

/// The character that shows two modules, one above the other.
pub open spec fn block_char(top: bool, bottom: bool) -> char {
    if top && bottom {
        ' '
    } else if top {
        '\u{2584}'
    } else if bottom {
        '\u{2580}'
    } else {
        '\u{2588}'
    }
}

/// Whether the module at row `y` and column `x` is dark; below the last row none
/// is.
pub open spec fn dark_at(dark: Seq<bool>, width: nat, y: int, x: int) -> bool {
    0 <= y < width && 0 <= x < width && dark[y * width + x]
}

/// The line above and below the code.
pub open spec fn border_line(width: nat) -> Seq<char> {
    seq![' ', ' '] + Seq::new(width + 2, |i: int| '\u{2588}')
}

/// The line that shows the rows `y` and `y + 1`.
pub open spec fn code_line(dark: Seq<bool>, width: nat, y: int) -> Seq<char> {
    seq![' ', ' ', '\u{2588}'] + Seq::new(
        width,
        |x: int| block_char(dark_at(dark, width, y, x), dark_at(dark, width, y + 1, x)),
    ) + seq!['\u{2588}']
}

/// The lines that show a code: two rows in each, within a border.
pub open spec fn code_lines(dark: Seq<bool>, width: nat) -> Seq<Seq<char>> {
    seq![border_line(width)] + Seq::new(
        (width + 1) / 2,
        |k: int| code_line(dark, width, 2 * k),
    ) + seq![border_line(width)]
}

/// A square of modules that fits in memory has a side that leaves room for a
/// border.
proof fn lemma_border_fits(width: usize, modules: nat)
    requires
        modules == width * width,
        modules <= usize::MAX,
    ensures
        width + 2 <= usize::MAX,
{
    if width >= 2 {
        assert(width + 2 <= width * width) by (nonlinear_arith)
            requires
                width >= 2,
        ;
    }
}

/// The line above and below the code.
fn border(width: usize) -> (res: String)
    requires
        width + 2 <= usize::MAX,
    ensures
        res@ == border_line(width as nat),
{
    let mut out = String::new();
    out.push(' ');
    out.push(' ');
    let mut i: usize = 0;
    while i < width + 2
        invariant
            i <= width + 2 <= usize::MAX,
            out@ == seq![' ', ' '] + Seq::new(i as nat, |i: int| '\u{2588}'),
        decreases width + 2 - i,
    {
        out.push('\u{2588}');
        i += 1;
        assert(out@ =~= seq![' ', ' '] + Seq::new(i as nat, |i: int| '\u{2588}'));
    }
    out
}

/// Whether the module at row `y` and column `x` is dark.
fn is_dark(dark: &Vec<bool>, width: usize, y: usize, x: usize) -> (res: bool)
    requires
        dark@.len() == width * width,
        x < width,
    ensures
        res == dark_at(dark@, width as nat, y as int, x as int),
{
    if y >= width {
        return false;
    }
    let count: usize = dark.len();
    assert(0 <= y * width && y * width + x < count) by (nonlinear_arith)
        requires
            y < width,
            x < width,
            count == width * width,
    ;
    dark[y * width + x]
}

/// The line that shows the rows `y` and `y + 1`.
fn line_at(dark: &Vec<bool>, width: usize, y: usize) -> (res: String)
    requires
        dark@.len() == width * width,
        y < width,
    ensures
        res@ == code_line(dark@, width as nat, y as int),
{
    let ghost row = Seq::new(
        width as nat,
        |x: int|
            block_char(
                dark_at(dark@, width as nat, y as int, x),
                dark_at(dark@, width as nat, y + 1, x),
            ),
    );
    let ghost head = seq![' ', ' ', '\u{2588}'];
    let mut out = String::new();
    out.push(' ');
    out.push(' ');
    out.push('\u{2588}');
    let mut x: usize = 0;
    assert(out@ =~= head + row.take(0));
    while x < width
        invariant
            x <= width,
            y < width,
            dark@.len() == width * width,
            row == Seq::new(
                width as nat,
                |x: int|
                    block_char(
                        dark_at(dark@, width as nat, y as int, x),
                        dark_at(dark@, width as nat, y + 1, x),
                    ),
            ),
            out@ == head + row.take(x as int),
        decreases width - x,
    {
        let top = is_dark(dark, width, y, x);
        let bottom = is_dark(dark, width, y + 1, x);
        let c = if top && bottom {
            ' '
        } else if top {
            '\u{2584}'
        } else if bottom {
            '\u{2580}'
        } else {
            '\u{2588}'
        };
        out.push(c);
        assert(out@ =~= head + row.take(x + 1));
        x += 1;
    }
    out.push('\u{2588}');
    assert(out@ =~= code_line(dark@, width as nat, y as int));
    out
}

/// The lines that show a code of these modules.
pub fn render_code(dark: &Vec<bool>, width: usize) -> (res: Vec<String>)
    requires
        dark@.len() == width * width,
    ensures
        text::strs(res@) == code_lines(dark@, width as nat),
{
    let count: usize = dark.len();
    proof {
        lemma_border_fits(width, count as nat);
    }
    let ghost middle = Seq::new(
        ((width + 1) / 2) as nat,
        |k: int| code_line(dark@, width as nat, 2 * k),
    );
    let ghost head = seq![border_line(width as nat)];
    let mut out: Vec<String> = Vec::new();
    out.push(border(width));
    assert(text::strs(out@) =~= head + middle.take(0));
    let mut y: usize = 0;
    while y < width
        invariant
            y <= width + 1,
            y % 2 == 0,
            width + 2 <= usize::MAX,
            dark@.len() == width * width,
            middle == Seq::new(
                ((width + 1) / 2) as nat,
                |k: int| code_line(dark@, width as nat, 2 * k),
            ),
            text::strs(out@) == head + middle.take((y / 2) as int),
        decreases width + 2 - y,
    {
        let ghost before = text::strs(out@);
        let line = line_at(dark, width, y);
        out.push(line);
        assert(text::strs(out@) =~= before.push(line@));
        assert(middle[(y / 2) as int] == line@);
        assert(text::strs(out@) =~= head + middle.take((y / 2) as int + 1));
        y += 2;
    }
    assert(middle.take((y / 2) as int) =~= middle);
    let ghost before = text::strs(out@);
    out.push(border(width));
    assert(text::strs(out@) =~= before.push(border_line(width as nat)));
    assert(text::strs(out@) =~= code_lines(dark@, width as nat));
    out
}

/// The lines that show the QR code of a text, or why it has none.
pub fn qr_lines(data: &str) -> (res: Result<Vec<String>, String>)
    ensures
        match res {
            Ok(lines) => qr_modules(data@) matches Ok((dark, width)) && text::strs(lines@)
                == code_lines(dark, width),
            Err(e) => qr_modules(data@) == Err::<(Seq<bool>, nat), _>(e@),
        },
{
    match qr_code(data) {
        Ok((dark, width)) => Ok(render_code(&dark, width)),
        Err(e) => Err(e),
    }
}

// ---------------------------------------------------------------------------
// The token in the configuration
// ---------------------------------------------------------------------------

/// The white space in front of a line.
pub open spec fn indent(line: Seq<char>) -> Seq<char> {
    line.take(line.len() - text::trim_start(line).len())
}

/// Whether a line says something: it is neither blank nor a comment.
pub open spec fn says_something(line: Seq<char>) -> bool {
    text::trim(line).len() > 0 && !text::starts(text::trim(line), "#"@)
}

/// The last line from `j` up that says something and is indented less than the
/// line at `i`.
pub open spec fn section_upward(lines: Seq<Seq<char>>, i: int, j: int) -> Option<int>
    decreases j + 1,
{
    if j < 0 || j >= lines.len() {
        None
    } else if says_something(lines[j]) && indent(lines[j]).len() < indent(lines[i]).len() {
        Some(j)
    } else {
        section_upward(lines, i, j - 1)
    }
}

/// The line that begins the section which the line at `i` stands in.
pub open spec fn section_of(lines: Seq<Seq<char>>, i: int) -> Option<int> {
    section_upward(lines, i, i - 1)
}

/// Whether the line at `i` begins the section of Weixin among the channels.
pub open spec fn begins_weixin(lines: Seq<Seq<char>>, i: int) -> bool {
    &&& text::starts(text::trim(lines[i]), "weixin:"@)
    &&& match section_of(lines, i) {
        Some(k) => text::starts(text::trim(lines[k]), "channels:"@) && section_of(lines, k) is None,
        None => false,
    }
}

/// The first line from `i` on that begins the section of Weixin.
pub open spec fn weixin_line(lines: Seq<Seq<char>>, i: int) -> Option<int>
    decreases lines.len() - i,
{
    if i < 0 || i >= lines.len() {
        None
    } else if begins_weixin(lines, i) {
        Some(i)
    } else {
        weixin_line(lines, i + 1)
    }
}

/// Whether the line at `i` holds the token of the section that begins at `k`.
pub open spec fn holds_token(lines: Seq<Seq<char>>, k: int, i: int) -> bool {
    text::starts(text::trim(lines[i]), "bot_token:"@) && section_of(lines, i) == Some(k)
}

/// The first line from `i` on that holds the token of the section that begins at `k`.
pub open spec fn token_place(lines: Seq<Seq<char>>, k: int, i: int) -> Option<int>
    decreases lines.len() - i,
{
    if i < 0 || i >= lines.len() {
        None
    } else if holds_token(lines, k, i) {
        Some(i)
    } else {
        token_place(lines, k, i + 1)
    }
}

/// Whether a line begins a section with this key and says nothing more, but for a
/// comment.
pub open spec fn is_bare(line: Seq<char>, key: Seq<char>) -> bool {
    let rest = text::trim_start(text::trim(line).skip(key.len() as int));
    text::starts(text::trim(line), key) && (rest.len() == 0 || text::starts(rest, "#"@))
}

/// The first line from `i` on that says something.
pub open spec fn said_line(lines: Seq<Seq<char>>, i: int) -> Option<int>
    decreases lines.len() - i,
{
    if i < 0 || i >= lines.len() {
        None
    } else if says_something(lines[i]) {
        Some(i)
    } else {
        said_line(lines, i + 1)
    }
}

/// The indent of the lines in the section that begins at `k`: that of the first of
/// them, or two spaces more than the section's where there are none.
pub open spec fn inner_indent(lines: Seq<Seq<char>>, k: int) -> Seq<char> {
    match said_line(lines, k + 1) {
        Some(i) => if indent(lines[i]).len() > indent(lines[k]).len() {
            indent(lines[i])
        } else {
            indent(lines[k]) + "  "@
        },
        None => indent(lines[k]) + "  "@,
    }
}

/// The line with the token, as it stands in the section.
pub open spec fn token_line(spaces: Seq<char>, token: Seq<char>) -> Seq<char> {
    spaces + "bot_token: \""@ + token + "\""@
}

/// The lines with others put in before the one at `at`.
pub open spec fn spliced(lines: Seq<Seq<char>>, at: int, new: Seq<Seq<char>>) -> Seq<Seq<char>> {
    lines.take(at) + new + lines.skip(at)
}

/// The lines with the token in the section of Weixin that begins at `k`: in place of
/// the old one, or as the first line where there is none. A section that is written
/// in one line with its key stays as it is.
pub open spec fn with_token(lines: Seq<Seq<char>>, k: int, token: Seq<char>) -> Seq<Seq<char>> {
    match token_place(lines, k, k + 1) {
        Some(i) => lines.update(i, token_line(indent(lines[i]), token)),
        None => if is_bare(lines[k], "weixin:"@) {
            spliced(lines, k + 1, seq![token_line(inner_indent(lines, k), token)])
        } else {
            lines
        },
    }
}

/// The first line from `i` on that begins the channels, in no other section.
pub open spec fn channels_line(lines: Seq<Seq<char>>, i: int) -> Option<int>
    decreases lines.len() - i,
{
    if i < 0 || i >= lines.len() {
        None
    } else if text::starts(text::trim(lines[i]), "channels:"@) && section_of(lines, i) is None {
        Some(i)
    } else {
        channels_line(lines, i + 1)
    }
}

/// Whether a line belongs to the section above it: empty, indented, or a comment.
pub open spec fn continues_section(line: Seq<char>) -> bool {
    ||| text::trim(line).len() == 0
    ||| text::starts(line, " "@)
    ||| text::starts(line, "\t"@)
    ||| text::starts(text::trim(line), "#"@)
}

/// Where the section ends whose lines begin at `i`.
pub open spec fn section_end(lines: Seq<Seq<char>>, i: int) -> int
    decreases lines.len() - i,
{
    if i < 0 || i >= lines.len() || !continues_section(lines[i]) {
        i
    } else {
        section_end(lines, i + 1)
    }
}

/// The lines of a new section of Weixin; the address only where it is not the
/// usual one.
pub open spec fn section_lines(token: Seq<char>, base_url: Seq<char>) -> Seq<Seq<char>> {
    let two = Seq::empty().push("  weixin:"@).push("    bot_token: \""@ + token + "\""@);
    if base_url == "https://ilinkai.weixin.qq.com"@ {
        two
    } else {
        two.push("    base_url: \""@ + base_url + "\""@)
    }
}

/// The lines with a new section of Weixin at the end of the channels that begin at
/// `k`. Channels that are written in one line with their key stay as they are.
pub open spec fn with_section(
    lines: Seq<Seq<char>>,
    k: int,
    token: Seq<char>,
    base_url: Seq<char>,
) -> Seq<Seq<char>> {
    if is_bare(lines[k], "channels:"@) {
        spliced(lines, section_end(lines, k + 1), section_lines(token, base_url))
    } else {
        lines
    }
}

/// What is added to a configuration without channels.
pub open spec fn new_channels(token: Seq<char>, base_url: Seq<char>) -> Seq<char> {
    let head = "\nchannels:\n  weixin:\n    bot_token: \""@ + token + "\""@;
    if base_url == "https://ilinkai.weixin.qq.com"@ {
        head + "\n"@
    } else {
        head + "\n    base_url: \""@ + base_url + "\""@ + "\n"@
    }
}

/// A configuration with the token in the section of Weixin: in the section that
/// there is, or in a new one, or among new channels.
pub open spec fn config_with_token(
    content: Seq<char>,
    token: Seq<char>,
    base_url: Seq<char>,
) -> Seq<char> {
    let lines = text::lines(content);
    match weixin_line(lines, 0) {
        Some(k) => text::join(with_token(lines, k, token), "\n"@) + "\n"@,
        None => match channels_line(lines, 0) {
            Some(k) => text::join(with_section(lines, k, token, base_url), "\n"@) + "\n"@,
            None => content + new_channels(token, base_url),
        },
    }
}

/// The section of a line begins above it, indented less, and every line between
/// them that says something is indented at least as far as the line.
proof fn lemma_section_upward(lines: Seq<Seq<char>>, i: int, j: int)
    requires
        j < i < lines.len(),
    ensures
        match section_upward(lines, i, j) {
            Some(k) => 0 <= k <= j && says_something(lines[k]) && indent(lines[k]).len() < indent(
                lines[i],
            ).len() && forall|m: int|
                k < m <= j && says_something(#[trigger] lines[m]) ==> indent(lines[m]).len()
                    >= indent(lines[i]).len(),
            None => true,
        },
    decreases j + 1,
{
    if j >= 0 && !(says_something(lines[j]) && indent(lines[j]).len() < indent(lines[i]).len()) {
        lemma_section_upward(lines, i, j - 1);
    }
}

/// Whether the line at `i` stands in the section that the line at `k` begins: it
/// is below it, and up to it every line that says something is indented further.
pub open spec fn in_section(lines: Seq<Seq<char>>, k: int, i: int) -> bool {
    &&& k < i
    &&& forall|m: int|
        k < m <= i && says_something(#[trigger] lines[m]) ==> indent(lines[m]).len() > indent(
            lines[k],
        ).len()
}

/// The first section of Weixin is one.
proof fn lemma_weixin_line(lines: Seq<Seq<char>>, i: int)
    requires
        0 <= i,
    ensures
        weixin_line(lines, i) matches Some(k) ==> i <= k < lines.len() && begins_weixin(lines, k),
    decreases lines.len() - i,
{
    if i < lines.len() {
        lemma_weixin_line(lines, i + 1);
    }
}

/// The first line with the token of a section is one, and no line before it is.
proof fn lemma_token_place(lines: Seq<Seq<char>>, k: int, i: int)
    requires
        0 <= i,
    ensures
        match token_place(lines, k, i) {
            Some(at) => i <= at < lines.len() && holds_token(lines, k, at) && forall|j: int|
                i <= j < at ==> !#[trigger] holds_token(lines, k, j),
            None => forall|j: int|
                i <= j < lines.len() ==> !#[trigger] holds_token(lines, k, j),
        },
    decreases lines.len() - i,
{
    if i < lines.len() && !holds_token(lines, k, i) {
        lemma_token_place(lines, k, i + 1);
    }
}

/// Nothing but the token changes where there is a section of Weixin: either one line
/// of that section, the first that holds the token, is another, under the indent that
/// it had; or one line is new, right below the line that begins the section; or all
/// is as it was, the section being written in one line.
pub proof fn law_rewrite_touches_token_only(lines: Seq<Seq<char>>, k: int, token: Seq<char>)
    requires
        weixin_line(lines, 0) == Some(k),
    ensures
        0 <= k < lines.len(),
        begins_weixin(lines, k),
        ({
            let new = with_token(lines, k, token);
            match token_place(lines, k, k + 1) {
                Some(i) => {
                    &&& k < i < lines.len()
                    &&& in_section(lines, k, i)
                    &&& text::starts(text::trim(lines[i]), "bot_token:"@)
                    &&& new == lines.update(i, token_line(indent(lines[i]), token))
                },
                None => if is_bare(lines[k], "weixin:"@) {
                    &&& new.len() == lines.len() + 1
                    &&& new.take(k + 1) == lines.take(k + 1)
                    &&& new[k + 1] == token_line(inner_indent(lines, k), token)
                    &&& new.skip(k + 2) == lines.skip(k + 1)
                } else {
                    new == lines
                },
            }
        }),
{
    lemma_weixin_line(lines, 0);
    lemma_token_place(lines, k, k + 1);
    match token_place(lines, k, k + 1) {
        Some(i) => {
            lemma_section_upward(lines, i, i - 1);
        },
        None => {
            let new = with_token(lines, k, token);
            if is_bare(lines[k], "weixin:"@) {
                assert(new.take(k + 1) =~= lines.take(k + 1));
                assert(new.skip(k + 2) =~= lines.skip(k + 1));
            }
        },
    }
}

/// Without leading space a text is the end of what it was, behind space alone.
proof fn lemma_indent(line: Seq<char>)
    ensures
        text::trim_start(line).len() <= line.len(),
        indent(line) + text::trim_start(line) == line,
        forall|q: int| 0 <= q < indent(line).len() ==> text::is_white(#[trigger] indent(line)[q]),
    decreases line.len(),
{
    if line.len() > 0 && text::is_white(line[0]) {
        let rest = line.drop_first();
        lemma_indent(rest);
        assert(indent(line) =~= seq![line[0]] + indent(rest));
        assert(indent(line) + text::trim_start(line) =~= seq![line[0]] + (indent(rest)
            + text::trim_start(rest)));
        assert(line =~= seq![line[0]] + rest);
    } else {
        assert(indent(line) =~= Seq::empty());
        assert(indent(line) + line =~= line);
    }
}

/// Behind space a text that does not begin with it is what is left.
proof fn lemma_behind_space(spaces: Seq<char>, rest: Seq<char>)
    requires
        forall|q: int| 0 <= q < spaces.len() ==> text::is_white(#[trigger] spaces[q]),
        rest.len() > 0,
        !text::is_white(rest[0]),
    ensures
        text::trim_start(spaces + rest) == rest,
    decreases spaces.len(),
{
    let line = spaces + rest;
    if spaces.len() > 0 {
        assert(line[0] == spaces[0]);
        assert(line.drop_first() =~= spaces.drop_first() + rest);
        lemma_behind_space(spaces.drop_first(), rest);
    } else {
        assert(line =~= rest);
    }
}

/// A line with the token is indented as it was asked for, and holds the token.
proof fn lemma_token_line(spaces: Seq<char>, token: Seq<char>)
    requires
        forall|q: int| 0 <= q < spaces.len() ==> text::is_white(#[trigger] spaces[q]),
    ensures
        indent(token_line(spaces, token)) == spaces,
        text::starts(text::trim(token_line(spaces, token)), "bot_token:"@),
{
    reveal_strlit("bot_token: \"");
    reveal_strlit("bot_token:");
    reveal_strlit("\"");
    let rest = "bot_token: \""@ + token + "\""@;
    assert(token_line(spaces, token) =~= spaces + rest);
    lemma_behind_space(spaces, rest);
    assert(rest.last() == '"');
    assert(text::trim(token_line(spaces, token)) == rest);
    assert(rest.subrange(0, 10) =~= "bot_token:"@);
    assert(indent(token_line(spaces, token)) =~= spaces);
}

/// The section of a line rests on the lines above it and on its indent.
proof fn lemma_section_same(lines: Seq<Seq<char>>, new: Seq<Seq<char>>, i: int, j: int)
    requires
        0 <= j + 1 <= i < lines.len(),
        i < new.len(),
        forall|m: int| 0 <= m <= j ==> lines[m] == #[trigger] new[m],
        indent(lines[i]).len() == indent(new[i]).len(),
    ensures
        section_upward(new, i, j) == section_upward(lines, i, j),
    decreases j + 1,
{
    if j >= 0 {
        assert(lines[j] == new[j]);
        lemma_section_same(lines, new, i, j - 1);
    }
}

/// Lines that are the same as far as `n` begin the section of Weixin at the same
/// places.
proof fn lemma_weixin_same(lines: Seq<Seq<char>>, new: Seq<Seq<char>>, n: int, i: int)
    requires
        0 <= i < n <= lines.len(),
        n <= new.len(),
        forall|m: int| 0 <= m < n ==> lines[m] == #[trigger] new[m],
        weixin_line(lines, i) == Some(n - 1),
    ensures
        weixin_line(new, i) == Some(n - 1),
    decreases n - i,
{
    assert(lines[i] == new[i]);
    lemma_section_same(lines, new, i, i - 1);
    lemma_section_upward(lines, i, i - 1);
    match section_of(lines, i) {
        Some(c) => {
            assert(lines[c] == new[c]);
            lemma_section_same(lines, new, c, c - 1);
        },
        None => {},
    }
    lemma_weixin_line(lines, i + 1);
    if i < n - 1 {
        lemma_weixin_same(lines, new, n, i + 1);
    }
}

/// The first line with the token of a section is the one that is found.
proof fn lemma_token_place_is(lines: Seq<Seq<char>>, k: int, i: int, at: int)
    requires
        0 <= i <= at < lines.len(),
        holds_token(lines, k, at),
        forall|j: int| i <= j < at ==> !#[trigger] holds_token(lines, k, j),
    ensures
        token_place(lines, k, i) == Some(at),
    decreases at - i,
{
    if i < at {
        assert(!holds_token(lines, k, i));
        lemma_token_place_is(lines, k, i + 1, at);
    }
}

/// The token that was written in a section is the token that the section then has.
pub proof fn law_token_is_found_again(lines: Seq<Seq<char>>, k: int, token: Seq<char>)
    requires
        weixin_line(lines, 0) == Some(k),
        token_place(lines, k, k + 1) is Some || is_bare(lines[k], "weixin:"@),
    ensures
        ({
            let new = with_token(lines, k, token);
            &&& weixin_line(new, 0) == Some(k)
            &&& token_place(new, k, k + 1) matches Some(i) && new[i] == token_line(
                indent(new[i]),
                token,
            )
        }),
{
    let new = with_token(lines, k, token);
    lemma_weixin_line(lines, 0);
    lemma_token_place(lines, k, k + 1);
    assert(forall|m: int| 0 <= m < k + 1 ==> lines[m] == #[trigger] new[m]);
    lemma_weixin_same(lines, new, k + 1, 0);
    match token_place(lines, k, k + 1) {
        Some(i) => {
            lemma_indent(lines[i]);
            lemma_token_line(indent(lines[i]), token);
            lemma_section_same(lines, new, i, i - 1);
            assert forall|j: int| k + 1 <= j < i implies !#[trigger] holds_token(new, k, j) by {
                assert(!holds_token(lines, k, j));
                lemma_section_same(lines, new, j, j - 1);
            }
            lemma_token_place_is(new, k, k + 1, i);
        },
        None => {
            let spaces = inner_indent(lines, k);
            reveal_strlit("  ");
            reveal_strlit("weixin:");
            reveal_strlit("#");
            lemma_indent(lines[k]);
            lemma_said_line(lines, k + 1);
            match said_line(lines, k + 1) {
                Some(i) => {
                    lemma_indent(lines[i]);
                },
                None => {},
            }
            lemma_token_line(spaces, token);
            assert(new[k + 1] == token_line(spaces, token));
            assert(new[k] == lines[k]);
            let t = text::trim(lines[k]);
            assert(t.subrange(0, 7)[0] == 'w');
            assert(t.subrange(0, 1)[0] == t[0]);
            assert(says_something(new[k]));
            assert(section_of(new, k + 1) == Some(k));
            lemma_token_place_is(new, k, k + 1, k + 1);
        },
    }
}

/// The first line that says something is among the lines.
proof fn lemma_said_line(lines: Seq<Seq<char>>, i: int)
    requires
        0 <= i,
    ensures
        said_line(lines, i) matches Some(j) ==> i <= j < lines.len(),
    decreases lines.len() - i,
{
    if i < lines.len() {
        lemma_said_line(lines, i + 1);
    }
}

/// A new section is put in between the old lines, none of which is lost.
pub proof fn law_section_keeps_lines(
    lines: Seq<Seq<char>>,
    k: int,
    token: Seq<char>,
    base_url: Seq<char>,
)
    requires
        channels_line(lines, 0) == Some(k),
        is_bare(lines[k], "channels:"@),
    ensures
        ({
            let at = section_end(lines, k + 1);
            let new = with_section(lines, k, token, base_url);
            let n = section_lines(token, base_url).len() as int;
            &&& 0 <= k < at <= lines.len()
            &&& new.len() == lines.len() + n
            &&& new.take(at) == lines.take(at)
            &&& new.subrange(at, at + n) == section_lines(token, base_url)
            &&& new.skip(at + n) == lines.skip(at)
        }),
{
    lemma_channels_line(lines, 0);
    lemma_section_end(lines, k + 1);
    let at = section_end(lines, k + 1);
    let new = with_section(lines, k, token, base_url);
    let n = section_lines(token, base_url).len() as int;
    assert(new.take(at) =~= lines.take(at));
    assert(new.subrange(at, at + n) =~= section_lines(token, base_url));
    assert(new.skip(at + n) =~= lines.skip(at));
}

/// Whether a configuration has a place for the token: its section of Weixin, or, where
/// there is none, its channels, are not written in one line with their key. Where
/// there are no channels either there is a place.
pub open spec fn has_place(content: Seq<char>) -> bool {
    let lines = text::lines(content);
    match weixin_line(lines, 0) {
        Some(k) => token_place(lines, k, k + 1) is Some || is_bare(lines[k], "weixin:"@),
        None => match channels_line(lines, 0) {
            Some(k) => is_bare(lines[k], "channels:"@),
            None => true,
        },
    }
}

/// A text that one of the lines holds between two others stands in the text of the
/// lines.
proof fn lemma_line_is_written(
    lines: Seq<Seq<char>>,
    i: int,
    before: Seq<char>,
    pat: Seq<char>,
)
    requires
        0 <= i < lines.len(),
        lines[i] == before + pat,
    ensures
        text::contains(text::join(lines, "\n"@) + "\n"@, pat),
{
    assert(lines[i] =~= before + pat + Seq::empty());
    text::lemma_middle_is_contained(before, pat, Seq::empty());
    text::lemma_piece_is_contained(lines, "\n"@, i, pat);
    let joined = text::join(lines, "\n"@);
    text::lemma_part_is_contained(Seq::empty(), joined, "\n"@, pat);
    assert(Seq::<char>::empty() + joined + "\n"@ =~= joined + "\n"@);
}

/// Where a configuration has a place for the token, the token is written.
pub proof fn law_token_is_written(content: Seq<char>, token: Seq<char>, base_url: Seq<char>)
    requires
        has_place(content),
    ensures
        text::contains(
            config_with_token(content, token, base_url),
            "bot_token: \""@ + token + "\""@,
        ),
{
    let lines = text::lines(content);
    let pat = "bot_token: \""@ + token + "\""@;
    match weixin_line(lines, 0) {
        Some(k) => {
            law_rewrite_touches_token_only(lines, k, token);
            let new = with_token(lines, k, token);
            match token_place(lines, k, k + 1) {
                Some(i) => {
                    assert(new[i] =~= indent(lines[i]) + pat);
                    lemma_line_is_written(new, i, indent(lines[i]), pat);
                },
                None => {
                    assert(new[k + 1] =~= inner_indent(lines, k) + pat);
                    lemma_line_is_written(new, k + 1, inner_indent(lines, k), pat);
                },
            }
        },
        None => match channels_line(lines, 0) {
            Some(k) => {
                law_section_keeps_lines(lines, k, token, base_url);
                let at = section_end(lines, k + 1);
                let new = with_section(lines, k, token, base_url);
                let section = section_lines(token, base_url);
                assert(section[1] == "    bot_token: \""@ + token + "\""@);
                assert(new.subrange(at, at + section.len())[1] == new[at + 1]);
                reveal_strlit("    bot_token: \"");
                reveal_strlit("bot_token: \"");
                let spaces = "    bot_token: \""@.take(4);
                assert("    bot_token: \""@ =~= spaces + "bot_token: \""@);
                assert(new[at + 1] =~= spaces + pat);
                lemma_line_is_written(new, at + 1, spaces, pat);
            },
            None => {
                reveal_strlit("\nchannels:\n  weixin:\n    bot_token: \"");
                reveal_strlit("bot_token: \"");
                let whole = "\nchannels:\n  weixin:\n    bot_token: \""@;
                let head = whole.take(whole.len() - "bot_token: \""@.len());
                assert(whole =~= head + "bot_token: \""@);
                let tail = if base_url == "https://ilinkai.weixin.qq.com"@ {
                    "\n"@
                } else {
                    "\n    base_url: \""@ + base_url + "\""@ + "\n"@
                };
                let new = config_with_token(content, token, base_url);
                assert(new =~= (content + head) + pat + tail);
                text::lemma_middle_is_contained(content + head, pat, tail);
            },
        },
    }
}

proof fn lemma_channels_line(lines: Seq<Seq<char>>, i: int)
    requires
        0 <= i,
    ensures
        channels_line(lines, i) matches Some(k) ==> i <= k < lines.len(),
    decreases lines.len() - i,
{
    if i < lines.len() {
        lemma_channels_line(lines, i + 1);
    }
}

proof fn lemma_section_end(lines: Seq<Seq<char>>, i: int)
    requires
        0 <= i <= lines.len(),
    ensures
        i <= section_end(lines, i) <= lines.len(),
    decreases lines.len() - i,
{
    if i < lines.len() {
        lemma_section_end(lines, i + 1);
    }
}

/// A text is not shorter than what is left of it without leading white space.
proof fn lemma_trim_start_len(s: Seq<char>)
    ensures
        text::trim_start(s).len() <= s.len(),
    decreases s.len(),
{
    if s.len() > 0 && text::is_white(s[0]) {
        lemma_trim_start_len(s.drop_first());
    }
}

/// The white space in front of a line.
fn indent_of(line: &str) -> (res: String)
    ensures
        res@ == indent(line@),
{
    let v = text::to_chars(line);
    let rest = text::to_chars(text::trimmed_start(line).as_str());
    proof {
        lemma_trim_start_len(line@);
    }
    let n: usize = v.len() - rest.len();
    let res = text::from_range(&v, 0, n);
    assert(res@ =~= line@.take(n as int));
    res
}

/// Whether a line says something.
fn is_said(line: &str) -> (res: bool)
    ensures
        res == says_something(line@),
{
    let t = text::trimmed(line);
    !t.as_str().is_empty() && !text::starts_with(t.as_str(), "#")
}

/// How far a line is indented.
fn depth_of(line: &str) -> (res: usize)
    ensures
        res == indent(line@).len(),
{
    text::to_chars(indent_of(line).as_str()).len()
}

/// The line that begins the section which the line at `i` stands in.
fn find_section(lines: &Vec<String>, i: usize) -> (res: Option<usize>)
    requires
        i < lines@.len(),
    ensures
        match res {
            Some(k) => section_of(text::strs(lines@), i as int) == Some(k as int) && k < i,
            None => section_of(text::strs(lines@), i as int) is None,
        },
{
    let ghost all = text::strs(lines@);
    let depth: usize = depth_of(lines[i].as_str());
    assert(all[i as int] == lines@[i as int]@);
    let mut j: usize = i;
    while j > 0
        invariant
            j <= i < lines@.len(),
            all == text::strs(lines@),
            depth == indent(all[i as int]).len(),
            section_of(all, i as int) == section_upward(all, i as int, j - 1),
        decreases j,
    {
        j -= 1;
        assert(all[j as int] == lines@[j as int]@);
        if is_said(lines[j].as_str()) && depth_of(lines[j].as_str()) < depth {
            return Some(j);
        }
    }
    None
}

/// Whether the line at `k` begins the section of Weixin among the channels.
fn is_weixin_line(lines: &Vec<String>, k: usize) -> (res: bool)
    requires
        k < lines@.len(),
    ensures
        res == begins_weixin(text::strs(lines@), k as int),
{
    let ghost all = text::strs(lines@);
    assert(all[k as int] == lines@[k as int]@);
    let t = text::trimmed(lines[k].as_str());
    if !text::starts_with(t.as_str(), "weixin:") {
        return false;
    }
    let c: usize = match find_section(lines, k) {
        Some(c) => c,
        None => {
            return false;
        },
    };
    assert(all[c as int] == lines@[c as int]@);
    let t = text::trimmed(lines[c].as_str());
    text::starts_with(t.as_str(), "channels:") && find_section(lines, c).is_none()
}

/// The first line that begins the section of Weixin.
fn find_weixin(lines: &Vec<String>) -> (res: Option<usize>)
    ensures
        match res {
            Some(k) => weixin_line(text::strs(lines@), 0) == Some(k as int) && k < lines@.len(),
            None => weixin_line(text::strs(lines@), 0) is None,
        },
{
    let mut k: usize = 0;
    while k < lines.len()
        invariant
            k <= lines@.len(),
            weixin_line(text::strs(lines@), 0) == weixin_line(text::strs(lines@), k as int),
        decreases lines@.len() - k,
    {
        if is_weixin_line(lines, k) {
            return Some(k);
        }
        k += 1;
    }
    None
}

/// The first line that holds the token of the section that begins at `k`.
fn find_token(lines: &Vec<String>, k: usize) -> (res: Option<usize>)
    requires
        k < lines@.len(),
    ensures
        match res {
            Some(i) => token_place(text::strs(lines@), k as int, k + 1) == Some(i as int) && i
                < lines@.len(),
            None => token_place(text::strs(lines@), k as int, k + 1) is None,
        },
{
    let ghost all = text::strs(lines@);
    assert(k < lines.len());
    let mut i: usize = k + 1;
    while i < lines.len()
        invariant
            k < i <= lines@.len(),
            all == text::strs(lines@),
            token_place(all, k as int, k + 1) == token_place(all, k as int, i as int),
        decreases lines@.len() - i,
    {
        assert(all[i as int] == lines@[i as int]@);
        let t = text::trimmed(lines[i].as_str());
        if text::starts_with(t.as_str(), "bot_token:") {
            match find_section(lines, i) {
                Some(c) => {
                    if c == k {
                        return Some(i);
                    }
                },
                None => {},
            }
        }
        i += 1;
    }
    None
}

/// Whether a line begins a section with this key and says nothing more.
fn is_bare_line(line: &str, key: &str) -> (res: bool)
    ensures
        res == is_bare(line@, key@),
{
    let t = text::trimmed(line);
    match text::after_prefix(t.as_str(), key) {
        Some(after) => {
            let rest = text::trimmed_start(after.as_str());
            rest.as_str().is_empty() || text::starts_with(rest.as_str(), "#")
        },
        None => false,
    }
}

/// The indent of the lines in the section that begins at `k`.
fn find_inner_indent(lines: &Vec<String>, k: usize) -> (res: String)
    requires
        k < lines@.len(),
    ensures
        res@ == inner_indent(text::strs(lines@), k as int),
{
    let ghost all = text::strs(lines@);
    assert(k < lines.len());
    let mut i: usize = k + 1;
    while i < lines.len() && !is_said(lines[i].as_str())
        invariant
            k < i <= lines@.len(),
            all == text::strs(lines@),
            said_line(all, k + 1) == said_line(all, i as int),
        decreases lines@.len() - i,
    {
        assert(all[i as int] == lines@[i as int]@);
        i += 1;
    }
    assert(all[k as int] == lines@[k as int]@);
    if i < lines.len() {
        assert(all[i as int] == lines@[i as int]@);
        if depth_of(lines[i].as_str()) > depth_of(lines[k].as_str()) {
            return indent_of(lines[i].as_str());
        }
    }
    let spaces = indent_of(lines[k].as_str());
    text::cat(spaces.as_str(), "  ")
}

/// Puts the lines from `from` up to `to` behind others.
fn copy_lines(lines: &Vec<String>, from: usize, to: usize, out: &mut Vec<String>)
    requires
        from <= to <= lines@.len(),
    ensures
        text::strs(final(out)@) == text::strs(old(out)@) + text::strs(lines@).subrange(
            from as int,
            to as int,
        ),
{
    let ghost all = text::strs(lines@);
    let ghost head = text::strs(out@);
    let mut i: usize = from;
    assert(head + all.subrange(from as int, from as int) =~= head);
    while i < to
        invariant
            from <= i <= to <= lines@.len(),
            all == text::strs(lines@),
            text::strs(out@) == head + all.subrange(from as int, i as int),
        decreases to - i,
    {
        let ghost before = text::strs(out@);
        out.push(lines[i].clone());
        assert(text::strs(out@) =~= before.push(all[i as int]));
        assert(text::strs(out@) =~= head + all.subrange(from as int, i + 1));
        i += 1;
    }
}

/// The lines with others put in before the one at `at`.
fn splice(lines: &Vec<String>, at: usize, new: &Vec<String>) -> (res: Vec<String>)
    requires
        at <= lines@.len(),
    ensures
        text::strs(res@) == spliced(text::strs(lines@), at as int, text::strs(new@)),
{
    let mut out: Vec<String> = Vec::new();
    copy_lines(lines, 0, at, &mut out);
    copy_lines(new, 0, new.len(), &mut out);
    copy_lines(lines, at, lines.len(), &mut out);
    assert(text::strs(out@) =~= spliced(text::strs(lines@), at as int, text::strs(new@)));
    out
}

/// The lines with the token in the section of Weixin that begins at `k`.
fn put_token(lines: Vec<String>, k: usize, token: &str) -> (res: Vec<String>)
    requires
        k < lines@.len(),
    ensures
        text::strs(res@) == with_token(text::strs(lines@), k as int, token@),
{
    let ghost all = text::strs(lines@);
    assert(all[k as int] == lines@[k as int]@);
    assert(k < lines.len());
    match find_token(&lines, k) {
        Some(i) => {
            assert(all[i as int] == lines@[i as int]@);
            let spaces = indent_of(lines[i].as_str());
            let line = text::cat4(spaces.as_str(), "bot_token: \"", token, "\"");
            let ghost wanted = line@;
            let mut out = lines;
            out.set(i, line);
            assert(text::strs(out@) =~= all.update(i as int, wanted));
            out
        },
        None => {
            if is_bare_line(lines[k].as_str(), "weixin:") {
                let spaces = find_inner_indent(&lines, k);
                let mut new: Vec<String> = Vec::new();
                new.push(text::cat4(spaces.as_str(), "bot_token: \"", token, "\""));
                assert(text::strs(new@) =~= seq![token_line(inner_indent(all, k as int), token@)]);
                splice(&lines, k + 1, &new)
            } else {
                lines
            }
        },
    }
}

/// Whether a line belongs to the section above it.
fn stays_in_section(line: &str) -> (res: bool)
    ensures
        res == continues_section(line@),
{
    let t = text::trimmed(line);
    t.as_str().is_empty() || text::starts_with(line, " ") || text::starts_with(line, "\t")
        || text::starts_with(t.as_str(), "#")
}

/// The first line that begins the channels.
fn find_channels(lines: &Vec<String>) -> (res: Option<usize>)
    ensures
        match res {
            Some(k) => channels_line(text::strs(lines@), 0) == Some(k as int) && k < lines@.len(),
            None => channels_line(text::strs(lines@), 0) is None,
        },
{
    let ghost all = text::strs(lines@);
    let mut k: usize = 0;
    while k < lines.len()
        invariant
            k <= lines@.len(),
            all == text::strs(lines@),
            channels_line(all, 0) == channels_line(all, k as int),
        decreases lines@.len() - k,
    {
        assert(all[k as int] == lines@[k as int]@);
        let t = text::trimmed(lines[k].as_str());
        if text::starts_with(t.as_str(), "channels:") && find_section(lines, k).is_none() {
            return Some(k);
        }
        k += 1;
    }
    None
}

/// The lines with a new section of Weixin at the end of the channels that begin at
/// `k`.
fn insert_section(lines: Vec<String>, k: usize, token: &str, base_url: &str) -> (res: Vec<String>)
    requires
        k < lines@.len(),
    ensures
        text::strs(res@) == with_section(text::strs(lines@), k as int, token@, base_url@),
{
    let ghost all = text::strs(lines@);
    assert(all[k as int] == lines@[k as int]@);
    if !is_bare_line(lines[k].as_str(), "channels:") {
        return lines;
    }
    assert(k < lines.len());
    let mut at: usize = k + 1;
    while at < lines.len() && stays_in_section(lines[at].as_str())
        invariant
            k < at <= lines@.len(),
            all == text::strs(lines@),
            section_end(all, k + 1) == section_end(all, at as int),
        decreases lines@.len() - at,
    {
        assert(all[at as int] == lines@[at as int]@);
        at += 1;
    }
    assert(section_end(all, k + 1) == at) by {
        if at < lines@.len() {
            assert(all[at as int] == lines@[at as int]@);
        }
    }
    let mut new: Vec<String> = Vec::new();
    new.push(text::owned("  weixin:"));
    new.push(text::cat3("    bot_token: \"", token, "\""));
    if !text::same(base_url, "https://ilinkai.weixin.qq.com") {
        new.push(text::cat3("    base_url: \"", base_url, "\""));
    }
    assert(text::strs(new@) =~= section_lines(token@, base_url@));
    splice(&lines, at, &new)
}

/// The text of lines, each with a line feed behind it.
fn write_lines(lines: &Vec<String>) -> (res: String)
    ensures
        res@ == text::join(text::strs(lines@), "\n"@) + "\n"@,
{
    let joined = text::join_strings(lines, "\n");
    text::cat(joined.as_str(), "\n")
}

/// A configuration with the token in the section of Weixin.
pub fn write_token_to_config(content: &str, creds: &WeixinCredentials) -> (res: String)
    ensures
        res@ == config_with_token(content@, creds.bot_token@, creds.base_url@),
{
    let token = creds.bot_token.as_str();
    let base_url = creds.base_url.as_str();
    let lines = text::lines_of(content);
    match find_weixin(&lines) {
        Some(k) => {
            let new = put_token(lines, k, token);
            return write_lines(&new);
        },
        None => {},
    }
    match find_channels(&lines) {
        Some(k) => {
            let new = insert_section(lines, k, token, base_url);
            return write_lines(&new);
        },
        None => {},
    }
    let mut addition = text::cat3("\nchannels:\n  weixin:\n    bot_token: \"", token, "\"");
    if !text::same(base_url, "https://ilinkai.weixin.qq.com") {
        addition.append("\n    base_url: \"");
        addition.append(base_url);
        addition.append("\"");
    }
    addition.append("\n");
    text::cat(content, addition.as_str())
}

// ---------------------------------------------------------------------------
// Logging in
// ---------------------------------------------------------------------------

/// How many codes are shown before the login is given up.
pub const QR_MAX_REFRESH: u32 = 3;

/// How long a login may take, in seconds.
pub const QR_LOGIN_SECS: u64 = 480;

/// A code to scan, and the address that it holds where that is another text.
#[derive(Debug)]
pub struct QrCodeResponse {
    pub qrcode: Option<String>,
    pub qrcode_img_content: Option<String>,
}

/// The state of a code.
#[derive(Debug)]
pub struct QrStatusResponse {
    pub status: Option<String>,
    pub bot_token: Option<String>,
    pub ilink_bot_id: Option<String>,
    pub baseurl: Option<String>,
    pub ilink_user_id: Option<String>,
}

/// The reply that stands for a poll that ran out of time: still waiting.
pub fn waiting_status() -> (res: QrStatusResponse)
    ensures
        text::opt(res.status) == Some("wait"@),
        res.bot_token is None,
        res.ilink_bot_id is None,
        res.baseurl is None,
        res.ilink_user_id is None,
{
    QrStatusResponse {
        status: Some(text::owned("wait")),
        bot_token: None,
        ilink_bot_id: None,
        baseurl: None,
        ilink_user_id: None,
    }
}

/// Where a code is asked for.
pub fn qr_code_url(base_url: &str) -> (res: String)
    ensures
        res@ == weixin::with_slash(base_url@) + "ilink/bot/get_bot_qrcode?bot_type=3"@,
{
    weixin::api_url(base_url, "ilink/bot/get_bot_qrcode?bot_type=3")
}

/// Where the state of a code is asked for.
pub fn qr_status_url(base_url: &str, qrcode: &str) -> (res: String)
    ensures
        res@ == weixin::with_slash(base_url@) + "ilink/bot/get_qrcode_status?qrcode="@
            + codec::percent(encode_utf8(qrcode@)),
{
    let url = weixin::api_url(base_url, "ilink/bot/get_qrcode_status?qrcode=");
    let code = codec::url_encode(qrcode);
    text::cat(url.as_str(), code.as_str())
}

/// Whether a login that began at `begun` may go on at `now`, both in milliseconds.
pub open spec fn in_time(begun: int, now: int) -> bool {
    now - begun < 1000 * QR_LOGIN_SECS
}

/// Whether a login that began at `begun` may go on at `now`, both in milliseconds: it
/// has not lasted as long as a login may.
pub fn check_deadline(begun: u64, now: u64) -> (res: Result<(), String>)
    ensures
        res is Ok <==> in_time(begun as int, now as int),
        match res {
            Ok(()) => now - begun < 1000 * QR_LOGIN_SECS,
            Err(e) => now - begun >= 1000 * QR_LOGIN_SECS && e@
                == "Login timed out. Please try again."@,
        },
{
    if now < begun || now - begun < 1000 * QR_LOGIN_SECS {
        Ok(())
    } else {
        Err(text::owned("Login timed out. Please try again."))
    }
}

/// A login under way: the code on show, how many were, and whether it was seen.
pub struct QrLogin {
    pub base_url: String,
    pub qrcode: String,
    pub shown: u32,
    pub scanned: bool,
}

/// What to do about the state of a code.
pub enum QrStep {
    /// Nothing has happened yet.
    Wait,
    /// The code was scanned: say so.
    Scanned,
    /// The code was scanned before.
    StillScanned,
    /// The code ran out: ask for another, the one of this number.
    Refresh(u32),
    Confirmed(WeixinCredentials),
    Fail(String),
    /// A state that is not known.
    Unknown(String),
}

/// The text behind the code, and the text that the code shows; `missing` where
/// there is none.
pub open spec fn shown_code(qr: QrCodeResponse, missing: Seq<char>) -> Result<
    (Seq<char>, Seq<char>),
    Seq<char>,
> {
    match qr.qrcode {
        Some(code) => Ok(
            (
                code@,
                match qr.qrcode_img_content {
                    Some(url) => url@,
                    None => code@,
                },
            ),
        ),
        None => Err(missing),
    }
}

fn read_code(qr: QrCodeResponse, missing: &str) -> (res: Result<(String, String), String>)
    ensures
        match res {
            Ok((code, url)) => shown_code(qr, missing@) == Ok::<_, Seq<char>>((code@, url@)),
            Err(e) => shown_code(qr, missing@) == Err::<(Seq<char>, Seq<char>), _>(e@),
        },
{
    match qr.qrcode {
        Some(code) => {
            let url = match qr.qrcode_img_content {
                Some(url) => url,
                None => code.clone(),
            };
            Ok((code, url))
        },
        None => Err(missing.to_owned()),
    }
}

/// What a login asks for in this state.
pub open spec fn qr_step_is(
    login: QrLogin,
    status: QrStatusResponse,
    saved_at: Seq<char>,
    step: QrStep,
) -> bool {
    let name = match status.status {
        Some(s) => s@,
        None => "wait"@,
    };
    if name == "wait"@ {
        step is Wait
    } else if name == "scaned"@ {
        if login.scanned {
            step is StillScanned
        } else {
            step is Scanned
        }
    } else if name == "expired"@ {
        if login.shown + 1 > QR_MAX_REFRESH {
            step matches QrStep::Fail(e) && e@
                == "QR code expired too many times. Please try again."@
        } else {
            step matches QrStep::Refresh(n) && n == login.shown + 1
        }
    } else if name == "confirmed"@ {
        match (status.bot_token, status.ilink_bot_id) {
            (None, _) => step matches QrStep::Fail(e) && e@
                == "Login confirmed but bot_token missing"@,
            (_, None) => step matches QrStep::Fail(e) && e@
                == "Login confirmed but ilink_bot_id missing"@,
            (Some(token), Some(id)) => {
                &&& step matches QrStep::Confirmed(c)
                &&& c.bot_token@ == token@
                &&& c.account_id@ == id@
                &&& c.base_url@ == match status.baseurl {
                    Some(u) => u@,
                    None => login.base_url@,
                }
                &&& c.user_id@ == match status.ilink_user_id {
                    Some(u) => u@,
                    None => Seq::empty(),
                }
                &&& c.saved_at@ == saved_at
            },
        }
    } else {
        step matches QrStep::Unknown(s) && s@ == name
    }
}

impl QrLogin {
    /// Whether the codes shown are within their number.
    pub open spec fn wf(self) -> bool {
        1 <= self.shown <= QR_MAX_REFRESH
    }

    /// A login with its first code, and the text to show.
    pub fn begin(base_url: Option<&str>, qr: QrCodeResponse) -> (res: Result<
        (QrLogin, String),
        String,
    >)
        ensures
            match shown_code(qr, "Server returned empty qrcode field"@) {
                Ok((code, url)) => {
                    &&& res matches Ok((login, shown))
                    &&& shown@ == url
                    &&& login.qrcode@ == code
                    &&& login.base_url@ == match crate::json::opt_str(base_url) {
                        Some(u) => u,
                        None => "https://ilinkai.weixin.qq.com"@,
                    }
                    &&& login.shown == 1
                    &&& !login.scanned
                    &&& login.wf()
                },
                Err(missing) => res matches Err(e) && e@ == missing,
            },
    {
        match read_code(qr, "Server returned empty qrcode field") {
            Ok((qrcode, url)) => {
                let base_url = match base_url {
                    Some(u) => u.to_owned(),
                    None => text::owned("https://ilinkai.weixin.qq.com"),
                };
                Ok((QrLogin { base_url, qrcode, shown: 1, scanned: false }, url))
            },
            Err(e) => Err(e),
        }
    }

    /// What to do about the state of the code, at this time.
    pub fn on_status_at(&mut self, status: QrStatusResponse, saved_at: String) -> (res: QrStep)
        requires
            old(self).wf(),
        ensures
            qr_step_is(*old(self), status, saved_at@, res),
            final(self).base_url@ == old(self).base_url@,
            final(self).qrcode@ == old(self).qrcode@,
            final(self).scanned == (old(self).scanned || res is Scanned),
            final(self).shown == match res {
                QrStep::Refresh(n) => n,
                _ => old(self).shown,
            },
            final(self).wf(),
    {
        let name = match status.status {
            Some(s) => s,
            None => text::owned("wait"),
        };
        if text::same(name.as_str(), "wait") {
            QrStep::Wait
        } else if text::same(name.as_str(), "scaned") {
            if self.scanned {
                QrStep::StillScanned
            } else {
                self.scanned = true;
                QrStep::Scanned
            }
        } else if text::same(name.as_str(), "expired") {
            if self.shown + 1 > QR_MAX_REFRESH {
                QrStep::Fail(text::owned("QR code expired too many times. Please try again."))
            } else {
                self.shown = self.shown + 1;
                QrStep::Refresh(self.shown)
            }
        } else if text::same(name.as_str(), "confirmed") {
            let bot_token = match status.bot_token {
                Some(t) => t,
                None => {
                    return QrStep::Fail(text::owned("Login confirmed but bot_token missing"));
                },
            };
            let account_id = match status.ilink_bot_id {
                Some(t) => t,
                None => {
                    return QrStep::Fail(text::owned("Login confirmed but ilink_bot_id missing"));
                },
            };
            let base_url = match status.baseurl {
                Some(u) => u,
                None => self.base_url.clone(),
            };
            let user_id = match status.ilink_user_id {
                Some(u) => u,
                None => String::new(),
            };
            QrStep::Confirmed(
                WeixinCredentials { bot_token, base_url, account_id, user_id, saved_at },
            )
        } else {
            QrStep::Unknown(name)
        }
    }

    /// What to do about the state of the code.
    pub fn on_status(&mut self, status: QrStatusResponse) -> (res: QrStep)
        requires
            old(self).wf(),
        ensures
            exists|saved_at: Seq<char>| #[trigger] qr_step_is(*old(self), status, saved_at, res),
            final(self).base_url@ == old(self).base_url@,
            final(self).qrcode@ == old(self).qrcode@,
            final(self).scanned == (old(self).scanned || res is Scanned),
            final(self).shown == match res {
                QrStep::Refresh(n) => n,
                _ => old(self).shown,
            },
            final(self).wf(),
    {
        let now = stamps::now_rfc3339();
        self.on_status_at(status, now)
    }

    /// Takes the next code into use; gives the text to show.
    pub fn on_refreshed(&mut self, qr: QrCodeResponse) -> (res: Result<String, String>)
        requires
            old(self).wf(),
        ensures
            final(self).wf(),
            final(self).shown == old(self).shown,
            final(self).base_url@ == old(self).base_url@,
            match shown_code(qr, "Server returned empty qrcode on refresh"@) {
                Ok((code, url)) => {
                    &&& res matches Ok(shown) && shown@ == url
                    &&& final(self).qrcode@ == code
                    &&& !final(self).scanned
                },
                Err(missing) => {
                    &&& res matches Err(e) && e@ == missing
                    &&& final(self).qrcode@ == old(self).qrcode@
                    &&& final(self).scanned == old(self).scanned
                },
            },
    {
        match read_code(qr, "Server returned empty qrcode on refresh") {
            Ok((code, url)) => {
                self.qrcode = code;
                self.scanned = false;
                Ok(url)
            },
            Err(e) => Err(e),
        }
    }
}

// ---------------------------------------------------------------------------
// What holds of logging in
// ---------------------------------------------------------------------------

/// Of a token its first eight bytes are shown and, where it is longer than twelve, its
/// last four; all between is hidden.
pub proof fn law_masked(token: Seq<char>) -> (shown: (Seq<char>, Seq<char>))
    requires
        can_be_masked(token),
    ensures
        masked(token) == shown.0 + seq!['.', '.', '.'] + shown.1,
        shown.0.is_prefix_of(token),
        shown.1.is_suffix_of(token),
        encode_utf8(shown.0).len() == if encode_utf8(token).len() < 8 {
            encode_utf8(token).len()
        } else {
            8
        },
        encode_utf8(shown.1).len() == if encode_utf8(token).len() > 12 {
            4nat
        } else {
            0
        },
{
    reveal_strlit("...");
    assert("..."@ =~= seq!['.', '.', '.']);
    let n = text::byte_len(token);
    text::lemma_byte_len_utf8(token);
    let rest = text::behind_bytes(token, shown_front(token))->Some_0;
    text::law_behind_bytes(Seq::empty(), token, shown_front(token));
    let front = token.take(token.len() - rest.len());
    text::lemma_byte_len_add(front, rest);
    assert(front + rest =~= token);
    text::lemma_byte_len_utf8(front);
    assert(token.subrange(0, front.len() as int) =~= front);
    let back = if n > 12 {
        text::behind_bytes(token, (n - 4) as nat)->Some_0
    } else {
        Seq::empty()
    };
    if n > 12 {
        text::law_behind_bytes(Seq::empty(), token, (n - 4) as nat);
    } else {
        assert(token.subrange(token.len() as int, token.len() as int) =~= back);
    }
    text::lemma_byte_len_utf8(back);
    (front, back)
}

/// Whether a character of the shown code stands for a dark square, above or below.
pub open spec fn shows_dark(c: char, below: bool) -> bool {
    c == ' ' || (c == '\u{2584}' && !below) || (c == '\u{2580}' && below)
}

/// Every square of the code is shown, in its row and its column, dark where it is dark
/// and light where it is light, and there is a light border on every side.
pub proof fn law_code_is_shown(dark: Seq<bool>, width: nat, y: int, x: int)
    requires
        dark.len() == width * width,
    ensures
        code_lines(dark, width).len() == (width + 1) / 2 + 2,
        0 <= y < width && 0 <= x < width ==> code_lines(dark, width)[1 + y / 2].len() == width + 4
            && shows_dark(code_lines(dark, width)[1 + y / 2][3 + x], y % 2 == 1) == dark[y * width
            + x],
        0 <= y < width ==> code_lines(dark, width)[1 + y / 2][2] == '\u{2588}' && code_lines(
            dark,
            width,
        )[1 + y / 2].last() == '\u{2588}',
        code_lines(dark, width)[0] == border_line(width),
        code_lines(dark, width).last() == border_line(width),
        border_line(width).len() == width + 4,
        2 <= x < width + 4 ==> border_line(width)[x] == '\u{2588}',
{
    let all = code_lines(dark, width);
    if 0 <= y < width {
        let row = y / 2;
        assert(all[1 + row] == code_line(dark, width, 2 * row));
    }
}

/// The section that a line stands in begins at the nearest line above it that says
/// something and is less indented; where there is no such line it stands in none.
pub proof fn law_section_of(lines: Seq<Seq<char>>, i: int)
    requires
        0 <= i < lines.len(),
    ensures
        match section_of(lines, i) {
            Some(k) => 0 <= k < i && says_something(lines[k]) && indent(lines[k]).len() < indent(
                lines[i],
            ).len() && forall|j: int|
                k < j < i && says_something(#[trigger] lines[j]) ==> indent(lines[j]).len()
                    >= indent(lines[i]).len(),
            None => forall|j: int|
                0 <= j < i && says_something(#[trigger] lines[j]) ==> indent(lines[j]).len()
                    >= indent(lines[i]).len(),
        },
{
    lemma_nearest(lines, i, i - 1);
}

proof fn lemma_nearest(lines: Seq<Seq<char>>, i: int, j: int)
    requires
        -1 <= j < i < lines.len(),
    ensures
        match section_upward(lines, i, j) {
            Some(k) => 0 <= k <= j && says_something(lines[k]) && indent(lines[k]).len() < indent(
                lines[i],
            ).len() && forall|q: int|
                k < q <= j && says_something(#[trigger] lines[q]) ==> indent(lines[q]).len()
                    >= indent(lines[i]).len(),
            None => forall|q: int|
                0 <= q <= j && says_something(#[trigger] lines[q]) ==> indent(lines[q]).len()
                    >= indent(lines[i]).len(),
        },
    decreases j + 1,
{
    if j >= 0 && !(says_something(lines[j]) && indent(lines[j]).len() < indent(lines[i]).len()) {
        lemma_nearest(lines, i, j - 1);
    }
}

/// What a line says begins behind its white space in front; a line of white space, or
/// whose first other character is the mark of a comment, says nothing.
pub proof fn law_says_something(line: Seq<char>)
    ensures
        text::is_white(' '),
        indent(line).is_prefix_of(line),
        forall|i: int| 0 <= i < indent(line).len() ==> text::is_white(#[trigger] indent(line)[i]),
        indent(line).len() < line.len() ==> !text::is_white(line[indent(line).len() as int]),
        says_something(line) <==> indent(line).len() < line.len() && line[indent(line).len() as int]
            != '#',
{
    reveal_strlit("#");
    let n = text::lemma_trimmed_start(line);
    let at = text::law_trim(line);
    let first = indent(line);
    assert(first =~= line.take(n));
    assert(line.subrange(0, first.len() as int) =~= first);
    assert forall|i: int| 0 <= i < first.len() implies text::is_white(#[trigger] first[i]) by {
        assert(first[i] == line[i]);
    }
    let trimmed = text::trim(line);
    if at.0 < at.1 {
        assert(at.0 == n) by {
            if at.0 < n {
                assert(text::is_white(line[at.0]));
            }
            if at.0 > n {
                assert(text::is_white(line[n]));
            }
        }
        assert(trimmed[0] == line[n]);
        text::law_contains(trimmed, "#"@);
        assert(trimmed.subrange(0, 1) =~= seq![line[n]]);
        assert("#"@ =~= seq!['#']);
        if line[n] != '#' && text::starts(trimmed, "#"@) {
            assert(trimmed.subrange(0, 1)[0] == '#');
        }
    } else if n < line.len() {
        assert(text::is_white(line[n]));
    }
}

/// The section of Weixin begins at the first line that says so under the channels; the
/// token stands at the first line of it, and of none below it, that says so; and the
/// channels begin at the first line that says so and stands in no section.
pub proof fn law_first_lines(lines: Seq<Seq<char>>, k: int)
    requires
        0 <= k,
    ensures
        match weixin_line(lines, 0) {
            Some(i) => 0 <= i < lines.len() && begins_weixin(lines, i) && forall|j: int|
                0 <= j < i ==> !#[trigger] begins_weixin(lines, j),
            None => forall|j: int| 0 <= j < lines.len() ==> !#[trigger] begins_weixin(lines, j),
        },
        match token_place(lines, k, k + 1) {
            Some(i) => k < i < lines.len() && holds_token(lines, k, i) && forall|j: int|
                k < j < i ==> !#[trigger] holds_token(lines, k, j),
            None => forall|j: int| k < j < lines.len() ==> !#[trigger] holds_token(lines, k, j),
        },
        match channels_line(lines, 0) {
            Some(i) => 0 <= i < lines.len() && "channels:"@.is_prefix_of(text::trim(lines[i]))
                && section_of(lines, i) is None && forall|j: int|
                0 <= j < i && "channels:"@.is_prefix_of(text::trim(#[trigger] lines[j]))
                    ==> section_of(lines, j) is Some,
            None => forall|j: int|
                0 <= j < lines.len() && "channels:"@.is_prefix_of(text::trim(#[trigger] lines[j]))
                    ==> section_of(lines, j) is Some,
        },
{
    lemma_first_weixin(lines, 0);
    lemma_first_token(lines, k, k + 1);
    lemma_first_channels(lines, 0);
}

proof fn lemma_first_weixin(lines: Seq<Seq<char>>, i: int)
    requires
        0 <= i,
    ensures
        match weixin_line(lines, i) {
            Some(n) => i <= n < lines.len() && begins_weixin(lines, n) && forall|j: int|
                i <= j < n ==> !#[trigger] begins_weixin(lines, j),
            None => forall|j: int| i <= j < lines.len() ==> !#[trigger] begins_weixin(lines, j),
        },
    decreases lines.len() - i,
{
    if i < lines.len() && !begins_weixin(lines, i) {
        lemma_first_weixin(lines, i + 1);
    }
}

proof fn lemma_first_token(lines: Seq<Seq<char>>, k: int, i: int)
    requires
        0 <= i,
    ensures
        match token_place(lines, k, i) {
            Some(n) => i <= n < lines.len() && holds_token(lines, k, n) && forall|j: int|
                i <= j < n ==> !#[trigger] holds_token(lines, k, j),
            None => forall|j: int| i <= j < lines.len() ==> !#[trigger] holds_token(lines, k, j),
        },
    decreases lines.len() - i,
{
    if i < lines.len() && !holds_token(lines, k, i) {
        lemma_first_token(lines, k, i + 1);
    }
}

proof fn lemma_first_channels(lines: Seq<Seq<char>>, i: int)
    requires
        0 <= i,
    ensures
        match channels_line(lines, i) {
            Some(n) => i <= n < lines.len() && "channels:"@.is_prefix_of(text::trim(lines[n]))
                && section_of(lines, n) is None && forall|j: int|
                i <= j < n && "channels:"@.is_prefix_of(text::trim(#[trigger] lines[j]))
                    ==> section_of(lines, j) is Some,
            None => forall|j: int|
                i <= j < lines.len() && "channels:"@.is_prefix_of(text::trim(#[trigger] lines[j]))
                    ==> section_of(lines, j) is Some,
        },
    decreases lines.len() - i,
{
    if i < lines.len() {
        text::law_contains(text::trim(lines[i]), "channels:"@);
        if !(text::starts(text::trim(lines[i]), "channels:"@) && section_of(lines, i) is None) {
            lemma_first_channels(lines, i + 1);
        }
    }
}

/// A line begins the section of Weixin if and only if it says so and stands right under
/// the channels, which stand in no section. A line holds the token if and only if it
/// says so and stands right in that section.
pub proof fn law_sections(lines: Seq<Seq<char>>, k: int, i: int)
    ensures
        begins_weixin(lines, i) <==> "weixin:"@.is_prefix_of(text::trim(lines[i])) && section_of(
            lines,
            i,
        ) is Some && "channels:"@.is_prefix_of(text::trim(lines[section_of(lines, i)->0]))
            && section_of(lines, section_of(lines, i)->0) is None,
        holds_token(lines, k, i) <==> "bot_token:"@.is_prefix_of(text::trim(lines[i]))
            && section_of(lines, i) == Some(k),
{
    text::law_contains(text::trim(lines[i]), "weixin:"@);
    text::law_contains(text::trim(lines[i]), "bot_token:"@);
    if section_of(lines, i) is Some {
        text::law_contains(text::trim(lines[section_of(lines, i)->0]), "channels:"@);
    }
}

/// A new section is written with the token, and with the address only where it is not
/// the usual one; behind all that stands in the channels.
pub proof fn law_new_section(
    lines: Seq<Seq<char>>,
    i: int,
    token: Seq<char>,
    base_url: Seq<char>,
)
    requires
        0 <= i <= lines.len(),
    ensures
        section_lines(token, base_url)[0] == "  weixin:"@,
        section_lines(token, base_url)[1] == "    bot_token: \""@ + token + seq!['"'],
        base_url == "https://ilinkai.weixin.qq.com"@ ==> section_lines(token, base_url).len() == 2,
        base_url != "https://ilinkai.weixin.qq.com"@ ==> section_lines(token, base_url).len() == 3
            && section_lines(token, base_url)[2] == "    base_url: \""@ + base_url + seq!['"'],
        i <= section_end(lines, i) <= lines.len(),
        forall|j: int|
            i <= j < section_end(lines, i) ==> text::trim(#[trigger] lines[j]).len() == 0
                || lines[j][0] == ' ' || lines[j][0] == '\t' || text::trim(lines[j])[0] == '#',
        section_end(lines, i) < lines.len() ==> {
            let line = lines[section_end(lines, i)];
            text::trim(line).len() > 0 && line[0] != ' ' && line[0] != '\t' && text::trim(line)[0]
                != '#'
        },
{
    reveal_strlit("\"");
    assert("\""@ =~= seq!['"']);
    lemma_section_goes_on(lines, i);
}

proof fn lemma_section_goes_on(lines: Seq<Seq<char>>, i: int)
    requires
        0 <= i <= lines.len(),
    ensures
        i <= section_end(lines, i) <= lines.len(),
        forall|j: int|
            i <= j < section_end(lines, i) ==> text::trim(#[trigger] lines[j]).len() == 0
                || lines[j][0] == ' ' || lines[j][0] == '\t' || text::trim(lines[j])[0] == '#',
        section_end(lines, i) < lines.len() ==> {
            let line = lines[section_end(lines, i)];
            text::trim(line).len() > 0 && line[0] != ' ' && line[0] != '\t' && text::trim(line)[0]
                != '#'
        },
    decreases lines.len() - i,
{
    if i < lines.len() {
        let line = lines[i];
        let said = text::trim(line);
        reveal_strlit(" ");
        reveal_strlit("\t");
        reveal_strlit("#");
        text::law_trim(line);
        if text::starts(line, " "@) {
            assert(line.subrange(0, 1)[0] == ' ');
        }
        if text::starts(line, "\t"@) {
            assert(line.subrange(0, 1)[0] == '\t');
        }
        if text::starts(said, "#"@) {
            assert(said.subrange(0, 1)[0] == '#');
        }
        if said.len() > 0 {
            assert(line.len() > 0);
            assert(line.subrange(0, 1) =~= seq![line[0]]);
            assert(said.subrange(0, 1) =~= seq![said[0]]);
            assert(" "@ =~= seq![' '] && "\t"@ =~= seq!['\t'] && "#"@ =~= seq!['#']);
        }
        if continues_section(line) {
            lemma_section_goes_on(lines, i + 1);
        }
    }
}

/// A code is shown again when it has run out, three times in all; a login that is
/// confirmed brings the token and the account that the reply names, the address where it
/// names one and the user where it names one; a state that is not known is told.
pub proof fn law_login_step(
    login: QrLogin,
    status: QrStatusResponse,
    saved_at: Seq<char>,
    step: QrStep,
)
    requires
        qr_step_is(login, status, saved_at, step),
    ensures
        step is Confirmed <==> status.status is Some && status.status->0@ == "confirmed"@
            && status.bot_token is Some && status.ilink_bot_id is Some,
        step matches QrStep::Confirmed(c) ==> c.bot_token@ == status.bot_token->0@ && c.account_id@
            == status.ilink_bot_id->0@ && c.saved_at@ == saved_at,
        step matches QrStep::Confirmed(c) ==> status.baseurl matches Some(u) ==> c.base_url@ == u@,
        step matches QrStep::Confirmed(c) ==> status.baseurl is None ==> c.base_url@
            == login.base_url@,
        step matches QrStep::Confirmed(c) ==> status.ilink_user_id matches Some(u) ==> c.user_id@
            == u@,
        step is Wait <==> status.status is None || status.status->0@ == "wait"@,
        step is Scanned <==> status.status is Some && status.status->0@ == "scaned"@
            && !login.scanned,
        step is StillScanned <==> status.status is Some && status.status->0@ == "scaned"@
            && login.scanned,
        step is Refresh <==> status.status is Some && status.status->0@ == "expired"@ && login.shown
            < 3,
        step matches QrStep::Refresh(n) ==> n == login.shown + 1,
        step is Fail <==> status.status is Some && (status.status->0@ == "expired"@ && login.shown
            >= 3 || status.status->0@ == "confirmed"@ && (status.bot_token is None
            || status.ilink_bot_id is None)),
        step matches QrStep::Unknown(s) ==> status.status is Some && s@ == status.status->0@,
{
    reveal_strlit("wait");
    reveal_strlit("scaned");
    reveal_strlit("expired");
    reveal_strlit("confirmed");
    assert("wait"@.len() == 4);
    assert("scaned"@.len() == 6);
    assert("expired"@.len() == 7);
    assert("confirmed"@.len() == 9);
}

/// What is shown of a code is its address, or the code itself where it has none.
pub proof fn law_shown_code(qr: QrCodeResponse, missing: Seq<char>)
    ensures
        shown_code(qr, missing) is Ok <==> qr.qrcode is Some,
        shown_code(qr, missing) matches Err(e) ==> e == missing,
        shown_code(qr, missing) matches Ok((code, shown)) ==> code == qr.qrcode->0@,
        shown_code(qr, missing) matches Ok((code, shown)) ==> qr.qrcode_img_content matches Some(
            url,
        ) ==> shown == url@,
        shown_code(qr, missing) matches Ok((code, shown)) ==> qr.qrcode_img_content is None
            ==> shown == code,
{
}

/// A login may last for just under eight minutes.
pub proof fn law_login_time(begun: int, now: int)
    ensures
        in_time(begun, now) <==> now < begun + 8 * 60 * 1000,
{
}

/// A configuration without channels is kept whole, with the channels behind it; the
/// address is written only where it is not the usual one.
pub proof fn law_new_channels(content: Seq<char>, token: Seq<char>, base_url: Seq<char>)
    requires
        weixin_line(text::lines(content), 0) is None,
        channels_line(text::lines(content), 0) is None,
    ensures
        content.is_prefix_of(config_with_token(content, token, base_url)),
        config_with_token(content, token, base_url) == content
            + "\nchannels:\n  weixin:\n    bot_token: \""@ + token + seq!['"'] + (if base_url
            == "https://ilinkai.weixin.qq.com"@ {
            seq!['\n']
        } else {
            "\n    base_url: \""@ + base_url + seq!['"', '\n']
        }),
{
    reveal_strlit("\"");
    reveal_strlit("\n");
    let new = config_with_token(content, token, base_url);
    assert(new.subrange(0, content.len() as int) =~= content);
    assert("\""@ =~= seq!['"'] && "\n"@ =~= seq!['\n']);
    assert(new =~= content + "\nchannels:\n  weixin:\n    bot_token: \""@ + token + seq!['"'] + (
    if base_url == "https://ilinkai.weixin.qq.com"@ {
        seq!['\n']
    } else {
        "\n    base_url: \""@ + base_url + seq!['"', '\n']
    }));
}

/// A section is open for further lines if and only if its line holds nothing behind its
/// key but space or a comment. A line that is put into a section is indented more than
/// the line that begins it.
pub proof fn law_bare(lines: Seq<Seq<char>>, k: int, key: Seq<char>)
    requires
        0 <= k < lines.len(),
    ensures
        is_bare(lines[k], key) <==> key.is_prefix_of(text::trim(lines[k])) && forall|q: int|
            key.len() <= q < text::trim(lines[k]).len() && !text::is_white(
                #[trigger] text::trim(lines[k])[q],
            ) && (forall|p: int|
                key.len() <= p < q ==> text::is_white(#[trigger] text::trim(lines[k])[p]))
                ==> text::trim(lines[k])[q] == '#',
        inner_indent(lines, k).len() > indent(lines[k]).len(),
        forall|q: int|
            0 <= q < inner_indent(lines, k).len() ==> text::is_white(
                #[trigger] inner_indent(lines, k)[q],
            ),
{
    let t = text::trim(lines[k]);
    reveal_strlit("#");
    reveal_strlit("  ");
    text::law_contains(t, key);
    if text::starts(t, key) {
        let rest = t.skip(key.len() as int);
        let n = text::lemma_trimmed_start(rest);
        let body = text::trim_start(rest);
        assert(body =~= rest.skip(n));
        text::law_contains(body, "#"@);
        if n < rest.len() {
            assert(body[0] == rest[n]);
            assert(t[key.len() + n] == rest[n]);
            assert(body.subrange(0, 1) =~= seq![body[0]]);
            assert("#"@ =~= seq!['#']);
            if text::starts(body, "#"@) {
                assert(body.subrange(0, 1)[0] == '#');
            }
            assert forall|p: int| key.len() <= p < key.len() + n implies text::is_white(
                #[trigger] t[p],
            ) by {
                assert(t[p] == rest[p - key.len()]);
            }
        } else {
            assert forall|q: int| key.len() <= q < t.len() implies text::is_white(
                #[trigger] t[q],
            ) by {
                assert(t[q] == rest[q - key.len()]);
            }
        }
    }
    law_says_something(lines[k]);
    match said_line(lines, k + 1) {
        Some(i) => {
            lemma_first_said(lines, k + 1);
            law_says_something(lines[i]);
        },
        None => {},
    }
    let inner = inner_indent(lines, k);
    assert forall|q: int| 0 <= q < inner.len() implies text::is_white(#[trigger] inner[q]) by {
        assert(text::is_white(' '));
    }
}

proof fn lemma_first_said(lines: Seq<Seq<char>>, i: int)
    requires
        0 <= i,
    ensures
        match said_line(lines, i) {
            Some(k) => i <= k < lines.len() && says_something(lines[k]) && forall|j: int|
                i <= j < k ==> !says_something(#[trigger] lines[j]),
            None => forall|j: int| i <= j < lines.len() ==> !says_something(#[trigger] lines[j]),
        },
    decreases lines.len() - i,
{
    if i < lines.len() && !says_something(lines[i]) {
        lemma_first_said(lines, i + 1);
    }
}

/// A line that is put into the section of Weixin is indented as the first line that says
/// something behind its beginning, where that one stands in the section.
pub proof fn law_inner_indent(lines: Seq<Seq<char>>, k: int, i: int)
    requires
        0 <= k < i < lines.len(),
        says_something(lines[i]),
        forall|j: int| k < j < i ==> !says_something(#[trigger] lines[j]),
        indent(lines[i]).len() > indent(lines[k]).len(),
    ensures
        inner_indent(lines, k) == indent(lines[i]),
{
    lemma_first_said(lines, k + 1);
}

} // verus!
