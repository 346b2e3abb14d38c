//! Terminal rendering: the cards that describe processes, the final message next to
//! the flame, and the confirmation prompt. Colors come from `anstyle`.

use anstyle::{Ansi256Color, AnsiColor, Color, Effects, Style};
use vstd::prelude::*;

use crate::error::{error_message, WrathError};
use crate::inspect::{
    join_strings, joined, lowercase, opt_view, runtime_label, to_lowercase, views, EntryPoint, ProcessInfo,
};
use crate::process::{headline_text, outcome_text, KillPlan, KillResult};
use crate::text::{
    chars_are, chars_eq, chars_of, decimal, push_char, push_decimal, push_range, push_str, string_of,
    trim, trim_range,
};

verus! {

/// A color a text can be painted with.
#[derive(Debug, Clone, Copy, PartialEq, Eq, Structural)]
pub enum Paint {
    Red,
    Cyan,
    Yellow,
    /// A color of the 256-color palette.
    Palette(u8),
}

/// How a text looks on the terminal.
#[derive(Debug, Clone, Copy, PartialEq, Eq, Structural)]
pub struct Look {
    pub fg: Option<Paint>,
    pub bg: Option<Paint>,
    pub bold: bool,
    pub dimmed: bool,
}

/// The looks used by the interface.
#[derive(Debug, Clone, Copy, PartialEq, Eq, Structural)]
pub enum Tone {
    Accent,
    Title,
    Runtime,
    Label,
    Warn,
    Orange,
    FlameRed,
    Core,
}

/// How each tone looks.
pub open spec fn look_of(t: Tone) -> Look {
    match t {
        Tone::Accent => Look { fg: Some(Paint::Red), bg: None, bold: true, dimmed: false },
        Tone::Title => Look { fg: None, bg: None, bold: true, dimmed: false },
        Tone::Runtime => Look { fg: Some(Paint::Cyan), bg: None, bold: true, dimmed: false },
        Tone::Label => Look { fg: None, bg: None, bold: false, dimmed: true },
        Tone::Warn => Look { fg: Some(Paint::Yellow), bg: None, bold: true, dimmed: false },
        Tone::Orange => Look { fg: Some(Paint::Palette(208)), bg: None, bold: true, dimmed: false },
        Tone::FlameRed => Look { fg: Some(Paint::Palette(196)), bg: None, bold: true, dimmed: false },
        Tone::Core => Look {
            fg: Some(Paint::Palette(220)),
            bg: Some(Paint::Palette(208)),
            bold: false,
            dimmed: false,
        },
    }
}

impl Tone {
    /// How this tone looks.
    pub fn look(self) -> (l: Look)
        ensures
            l == look_of(self),
    {
        match self {
            Tone::Accent => Look { fg: Some(Paint::Red), bg: None, bold: true, dimmed: false },
            Tone::Title => Look { fg: None, bg: None, bold: true, dimmed: false },
            Tone::Runtime => Look { fg: Some(Paint::Cyan), bg: None, bold: true, dimmed: false },
            Tone::Label => Look { fg: None, bg: None, bold: false, dimmed: true },
            Tone::Warn => Look { fg: Some(Paint::Yellow), bg: None, bold: true, dimmed: false },
            Tone::Orange => Look { fg: Some(Paint::Palette(208)), bg: None, bold: true, dimmed: false },
            Tone::FlameRed => Look {
                fg: Some(Paint::Palette(196)),
                bg: None,
                bold: true,
                dimmed: false,
            },
            Tone::Core => Look {
                fg: Some(Paint::Palette(220)),
                bg: Some(Paint::Palette(208)),
                bold: false,
                dimmed: false,
            },
        }
    }
}

/// The code that sets the foreground to `p`.
pub open spec fn fg_code(p: Paint) -> Seq<char> {
    match p {
        Paint::Red => "\u{1b}[31m"@,
        Paint::Cyan => "\u{1b}[36m"@,
        Paint::Yellow => "\u{1b}[33m"@,
        Paint::Palette(n) => "\u{1b}[38;5;"@ + decimal(n as nat) + "m"@,
    }
}

/// The code that sets the background to `p`.
pub open spec fn bg_code(p: Paint) -> Seq<char> {
    match p {
        Paint::Red => "\u{1b}[41m"@,
        Paint::Cyan => "\u{1b}[46m"@,
        Paint::Yellow => "\u{1b}[43m"@,
        Paint::Palette(n) => "\u{1b}[48;5;"@ + decimal(n as nat) + "m"@,
    }
}

/// The escape codes that switch `look` on: its effects (bold, then dimmed), then its
/// foreground, then its background.
pub open spec fn style_on_code(look: Look) -> Seq<char> {
    (if look.bold {
        "\u{1b}[1m"@
    } else {
        seq![]
    }) + (if look.dimmed {
        "\u{1b}[2m"@
    } else {
        seq![]
    }) + match look.fg {
        Some(p) => fg_code(p),
        None => seq![],
    } + match look.bg {
        Some(p) => bg_code(p),
        None => seq![],
    }
}

/// The code that switches `look` off again: the reset code, or nothing for a look
/// with no color and no effect.
pub open spec fn style_off_code(look: Look) -> Seq<char> {
    if look.fg is None && look.bg is None && !look.bold && !look.dimmed {
        seq![]
    } else {
        "\u{1b}[0m"@
    }
}

/// `anstyle::Style::render`, for the `anstyle::Style` built from the same colors and
/// effects: claimed to print the codes of each effect set (bold, then dimmed), then
/// the foreground code, then the background code, as anstyle's source writes them.
#[verifier::external_body]
fn style_on(look: Look) -> (s: String)
    ensures
        s@ == style_on_code(look),
{
    let color = |p: Paint| match p {
        Paint::Red => Color::Ansi(AnsiColor::Red),
        Paint::Cyan => Color::Ansi(AnsiColor::Cyan),
        Paint::Yellow => Color::Ansi(AnsiColor::Yellow),
        Paint::Palette(n) => Color::Ansi256(Ansi256Color(n)),
    };
    let effects = Effects::new().set(Effects::BOLD, look.bold).set(Effects::DIMMED, look.dimmed);
    let style = Style::new().fg_color(look.fg.map(color)).bg_color(look.bg.map(color)).effects(effects);
    format!("{}", style.render())
}

/// `anstyle::Style::render_reset`, for the `anstyle::Style` built from the same colors
/// and effects: claimed to print the reset code, or nothing when the style is the
/// plain `Style::new()`, as anstyle's source writes it.
#[verifier::external_body]
fn style_off(look: Look) -> (s: String)
    ensures
        s@ == style_off_code(look),
{
    let color = |p: Paint| match p {
        Paint::Red => Color::Ansi(AnsiColor::Red),
        Paint::Cyan => Color::Ansi(AnsiColor::Cyan),
        Paint::Yellow => Color::Ansi(AnsiColor::Yellow),
        Paint::Palette(n) => Color::Ansi256(Ansi256Color(n)),
    };
    let effects = Effects::new().set(Effects::BOLD, look.bold).set(Effects::DIMMED, look.dimmed);
    let style = Style::new().fg_color(look.fg.map(color)).bg_color(look.bg.map(color)).effects(effects);
    format!("{}", style.render_reset())
}

/// `text` painted with `tone`: its codes, the text, then the reset.
pub open spec fn painted(tone: Tone, text: Seq<char>) -> Seq<char> {
    style_on_code(look_of(tone)) + text + style_off_code(look_of(tone))
}

/// Appends `text` painted with `tone`.
fn push_painted(s: &mut String, tone: Tone, text: &str)
    ensures
        final(s)@ == old(s)@ + painted(tone, text@),
{
    let look = tone.look();
    let on = style_on(look);
    let off = style_off(look);
    push_str(s, on.as_str());
    push_str(s, text);
    push_str(s, off.as_str());
    assert(s@ =~= old(s)@ + painted(tone, text@));
}

/// "1 process", or the count and "processes".
pub open spec fn processes_text(count: nat) -> Seq<char> {
    if count == 1 {
        "1 process"@
    } else {
        decimal(count) + " processes"@
    }
}

/// Pluralize "process" for the given count.
pub fn processes(count: usize) -> (s: String)
    ensures
        s@ == processes_text(count as nat),
{
    let mut s = String::new();
    if count == 1 {
        push_str(&mut s, "1 process");
    } else {
        push_decimal(&mut s, count as u64);
        push_str(&mut s, " processes");
    }
    assert(s@ =~= processes_text(count as nat));
    s
}

/// A duration in seconds with its two most significant units.
pub open spec fn duration_text(secs: nat) -> Seq<char> {
    let days = secs / 86400;
    let hours = secs % 86400 / 3600;
    let minutes = secs % 3600 / 60;
    let seconds = secs % 60;
    if days == 0 && hours == 0 && minutes == 0 {
        decimal(seconds) + "s"@
    } else if days == 0 && hours == 0 {
        decimal(minutes) + "m "@ + decimal(seconds) + "s"@
    } else if days == 0 {
        decimal(hours) + "h "@ + decimal(minutes) + "m"@
    } else {
        decimal(days) + "d "@ + decimal(hours) + "h"@
    }
}

/// Format a duration in seconds, keeping the two most significant units.
pub fn format_duration(secs: u64) -> (s: String)
    ensures
        s@ == duration_text(secs as nat),
{
    let days = secs / 86_400;
    let hours = secs % 86_400 / 3600;
    let minutes = secs % 3600 / 60;
    let seconds = secs % 60;
    let mut s = String::new();
    if days == 0 && hours == 0 && minutes == 0 {
        push_decimal(&mut s, seconds);
        push_str(&mut s, "s");
    } else if days == 0 && hours == 0 {
        push_decimal(&mut s, minutes);
        push_str(&mut s, "m ");
        push_decimal(&mut s, seconds);
        push_str(&mut s, "s");
    } else if days == 0 {
        push_decimal(&mut s, hours);
        push_str(&mut s, "h ");
        push_decimal(&mut s, minutes);
        push_str(&mut s, "m");
    } else {
        push_decimal(&mut s, days);
        push_str(&mut s, "d ");
        push_decimal(&mut s, hours);
        push_str(&mut s, "h");
    }
    assert(s@ =~= duration_text(secs as nat));
    s
}

/// `text` shortened to `max` characters, its last kept one replaced by an ellipsis,
/// when it is longer than `max`.
pub open spec fn truncated(text: Seq<char>, max: nat) -> Seq<char> {
    if text.len() <= max {
        text
    } else {
        text.subrange(0, if max == 0 { 0 } else { max - 1 }).push('\u{2026}')
    }
}

/// Shorten `text` to `max` characters, ending with an ellipsis if cut.
pub fn truncate(text: &str, max: usize) -> (s: String)
    ensures
        s@ == truncated(text@, max as nat),
{
    let v = chars_of(text);
    if v.len() <= max {
        return text.to_owned();
    }
    let keep: usize = if max == 0 {
        0
    } else {
        max - 1
    };
    let mut s = String::new();
    push_range(&mut s, &v, 0, keep);
    push_char(&mut s, '\u{2026}');
    assert(s@ =~= truncated(text@, max as nat));
    s
}

/// `label` padded with spaces to `width` characters.
pub open spec fn padded(label: Seq<char>, width: nat) -> Seq<char> {
    if label.len() >= width {
        label
    } else {
        label + Seq::new((width - label.len()) as nat, |i: int| ' ')
    }
}

/// One "label  value" line of a card.
pub open spec fn row_text(label: Seq<char>, value: Seq<char>) -> Seq<char> {
    "    "@ + painted(Tone::Label, padded(label, 10)) + " "@ + value + "\n"@
}

/// Append a "label  value" line to a card.
fn push_row(out: &mut String, label: &str, value: &str)
    ensures
        final(out)@ == old(out)@ + row_text(label@, value@),
{
    let n = label.unicode_len();
    let mut cell = String::new();
    push_str(&mut cell, label);
    let mut k: usize = n;
    while k < 10
        invariant
            n == label@.len(),
            n <= k <= 10 || (n > 10 && k == n),
            cell@ == label@ + Seq::new((k - n) as nat, |i: int| ' '),
        decreases 10 - k,
    {
        push_char(&mut cell, ' ');
        k = k + 1;
        assert(cell@ =~= label@ + Seq::new((k - n) as nat, |i: int| ' '));
    }
    assert(cell@ =~= padded(label@, 10));
    push_str(out, "    ");
    push_painted(out, Tone::Label, cell.as_str());
    push_str(out, " ");
    push_str(out, value);
    push_str(out, "\n");
    assert(out@ =~= old(out)@ + row_text(label@, value@));
}

/// The path to show, if there is one and it is not empty.
pub open spec fn shown_path(path: Option<String>) -> Option<Seq<char>> {
    match path {
        Some(p) => if p@.len() > 0 {
            Some(p@)
        } else {
            None
        },
        None => None,
    }
}

/// The path to show: none when it is missing or empty.
pub fn display_path(path: &Option<String>) -> (r: Option<String>)
    ensures
        match r {
            Some(p) => shown_path(*path) == Some(p@),
            None => shown_path(*path) is None,
        },
{
    match path {
        Some(p) => {
            if p.as_str().unicode_len() > 0 {
                Some(p.clone())
            } else {
                None
            }
        },
        None => None,
    }
}


/// Longest command line displayed before truncation.
pub const MAX_COMMAND_LEN: usize = 110;

/// Number of distinct child names listed before summarizing.
pub const MAX_CHILD_GROUPS: usize = 4;

/// The distinct names of `s`, in the order they first appear.
pub open spec fn first_seen(s: Seq<Seq<char>>) -> Seq<Seq<char>>
    decreases s.len(),
{
    if s.len() == 0 {
        seq![]
    } else {
        let d = first_seen(s.drop_last());
        if d.contains(s.last()) {
            d
        } else {
            d.push(s.last())
        }
    }
}

/// How many times `name` occurs in `s`.
pub open spec fn occurrences(s: Seq<Seq<char>>, name: Seq<char>) -> nat
    decreases s.len(),
{
    if s.len() == 0 {
        0
    } else {
        occurrences(s.drop_last(), name) + if s.last() == name {
            1nat
        } else {
            0nat
        }
    }
}

/// A group of equal names: the name, then "×" and the count when there are several.
pub open spec fn group_text(name: Seq<char>, count: nat) -> Seq<char> {
    if count == 1 {
        name
    } else {
        name + " \u{d7}"@ + decimal(count)
    }
}

/// The groups shown for `s`: the first four distinct names with their counts, then
/// how many more groups there are, if any.
pub open spec fn listed_groups(s: Seq<Seq<char>>) -> Seq<Seq<char>> {
    let g = first_seen(s);
    let shown = g.take(if g.len() < 4 { g.len() as int } else { 4 }).map_values(
        |n: Seq<char>| group_text(n, occurrences(s, n)),
    );
    if g.len() > 4 {
        shown.push("+"@ + decimal((g.len() - 4) as nat) + " more"@)
    } else {
        shown
    }
}

/// The summary of the names `s`: their number, then the groups, such as
/// "3 (node ×2, esbuild)".
pub open spec fn children_summary(s: Seq<Seq<char>>) -> Seq<char> {
    decimal(s.len()) + " ("@ + joined(listed_groups(s), ", "@) + ")"@
}

proof fn lemma_first_seen(s: Seq<Seq<char>>)
    ensures
        first_seen(s).no_duplicates(),
        forall|y: Seq<char>| first_seen(s).contains(y) <==> s.contains(y),
    decreases s.len(),
{
    if s.len() > 0 {
        let t = s.drop_last();
        lemma_first_seen(t);
        let d = first_seen(t);
        assert forall|y: Seq<char>| first_seen(s).contains(y) <==> (d.contains(y) || y == s.last()) by {
            if !d.contains(s.last()) {
                let e = d.push(s.last());
                if e.contains(y) {
                    let j = choose|j: int| 0 <= j < e.len() && e[j] == y;
                    if j < d.len() {
                        assert(d[j] == y);
                    }
                }
                if d.contains(y) {
                    let j = choose|j: int| 0 <= j < d.len() && d[j] == y;
                    assert(e[j] == y);
                }
                if y == s.last() {
                    assert(e[d.len() as int] == y);
                }
            }
        }
        assert forall|y: Seq<char>| s.contains(y) <==> (t.contains(y) || y == s.last()) by {
            if s.contains(y) {
                let j = choose|j: int| 0 <= j < s.len() && s[j] == y;
                if j < s.len() - 1 {
                    assert(t[j] == y);
                }
            }
            if t.contains(y) {
                let j = choose|j: int| 0 <= j < t.len() && t[j] == y;
                assert(s[j] == y);
            }
            if y == s.last() {
                assert(s[s.len() - 1] == y);
            }
        }
    }
}

proof fn lemma_occurrences_absent(s: Seq<Seq<char>>, y: Seq<char>)
    requires
        !s.contains(y),
    ensures
        occurrences(s, y) == 0,
    decreases s.len(),
{
    if s.len() > 0 {
        let t = s.drop_last();
        assert(!t.contains(y)) by {
            if t.contains(y) {
                let j = choose|j: int| 0 <= j < t.len() && t[j] == y;
                assert(s[j] == y);
            }
        }
        assert(s[s.len() - 1] != y);
        lemma_occurrences_absent(t, y);
    }
}

proof fn lemma_views_push(a: Seq<String>, x: String)
    ensures
        views(a.push(x)) == views(a).push(x@),
{
    assert(views(a.push(x)) =~= views(a).push(x@));
}

/// The text of one group of names.
fn group_label(name: &str, count: usize) -> (s: String)
    ensures
        s@ == group_text(name@, count as nat),
{
    let mut s = String::new();
    push_str(&mut s, name);
    if count != 1 {
        push_str(&mut s, " \u{d7}");
        push_decimal(&mut s, count as u64);
    }
    assert(s@ =~= group_text(name@, count as nat));
    s
}

/// The group, among `firsts`, whose name is `x`.
fn find_group(children: &[String], firsts: &Vec<usize>, x: &Vec<char>) -> (r: Option<usize>)
    requires
        forall|k: int| 0 <= k < firsts@.len() ==> firsts@[k] < children@.len(),
    ensures
        match r {
            Some(k) => k < firsts@.len() && children@[firsts@[k as int] as int]@ == x@,
            None => forall|k: int| 0 <= k < firsts@.len() ==> children@[firsts@[k] as int]@ != x@,
        },
{
    let mut k: usize = 0;
    while k < firsts.len()
        invariant
            k <= firsts@.len(),
            forall|j: int| 0 <= j < firsts@.len() ==> firsts@[j] < children@.len(),
            forall|j: int| 0 <= j < k ==> children@[firsts@[j] as int]@ != x@,
        decreases firsts@.len() - k,
    {
        let name = chars_of(children[firsts[k]].as_str());
        if chars_eq(&name, x) {
            return Some(k);
        }
        k = k + 1;
    }
    None
}

/// Summarize child names: "3 (node ×2, esbuild)".
pub fn summarize_children(children: &[String]) -> (s: String)
    ensures
        s@ == children_summary(views(children@)),
{
    let ghost all = views(children@);
    let n = children.len();
    let mut firsts: Vec<usize> = Vec::new();
    let mut counts: Vec<usize> = Vec::new();
    let mut i: usize = 0;
    while i < n
        invariant
            n == children@.len(),
            all == views(children@),
            i <= n,
            firsts@.len() == counts@.len(),
            firsts@.len() == first_seen(all.take(i as int)).len(),
            forall|k: int| #![trigger firsts@[k]]
                0 <= k < firsts@.len() ==> firsts@[k] < i && all[firsts@[k] as int]
                    == first_seen(all.take(i as int))[k],
            forall|k: int| #![trigger counts@[k]]
                0 <= k < counts@.len() ==> counts@[k] == occurrences(
                    all.take(i as int),
                    all[firsts@[k] as int],
                ) && counts@[k] <= i,
        decreases n - i,
    {
        let x = chars_of(children[i].as_str());
        let ghost s = all.take(i as int);
        let ghost t = all.take(i + 1);
        let ghost g = first_seen(s);
        proof {
            assert(t.drop_last() =~= s);
            assert(t.last() == x@);
            lemma_first_seen(s);
        }
        match find_group(children, &firsts, &x) {
            Some(k) => {
                assert(g[k as int] == x@);
                assert(first_seen(t) == g);
                let c = counts[k];
                counts.set(k, c + 1);
                proof {
                    assert forall|j: int| 0 <= j < counts@.len() implies #[trigger] counts@[j]
                        == occurrences(t, all[firsts@[j] as int]) && counts@[j] <= i + 1 by {
                        if j != k {
                            assert(g[j] != g[k as int]);
                        }
                    }
                }
            },
            None => {
                assert(!g.contains(x@)) by {
                    if g.contains(x@) {
                        let j = choose|j: int| 0 <= j < g.len() && g[j] == x@;
                        assert(children@[firsts@[j] as int]@ == x@);
                    }
                }
                assert(first_seen(t) == g.push(x@));
                proof {
                    lemma_occurrences_absent(s, x@);
                }
                firsts.push(i);
                counts.push(1);
                proof {
                    assert forall|j: int| 0 <= j < counts@.len() implies #[trigger] counts@[j]
                        == occurrences(t, all[firsts@[j] as int]) && counts@[j] <= i + 1 by {
                        if j < counts@.len() - 1 {
                            assert(g[j] != x@) by {
                                assert(g.contains(g[j]));
                            }
                        }
                    }
                }
            },
        }
        i = i + 1;
    }
    let ghost g = first_seen(all);
    assert(all.take(n as int) =~= all);
    let groups = firsts.len();
    let shown: usize = if groups < MAX_CHILD_GROUPS {
        groups
    } else {
        MAX_CHILD_GROUPS
    };
    let ghost texts = g.take(shown as int).map_values(
        |nm: Seq<char>| group_text(nm, occurrences(all, nm)),
    );
    let mut listed: Vec<String> = Vec::new();
    let mut k: usize = 0;
    while k < shown
        invariant
            shown <= groups == firsts@.len() == counts@.len() == g.len(),
            k <= shown,
            forall|j: int| #![trigger firsts@[j]]
                0 <= j < firsts@.len() ==> firsts@[j] < n && all[firsts@[j] as int] == g[j],
            forall|j: int| #![trigger counts@[j]]
                0 <= j < counts@.len() ==> counts@[j] == occurrences(all, all[firsts@[j] as int]),
            n == children@.len(),
            all == views(children@),
            texts == g.take(shown as int).map_values(
                |nm: Seq<char>| group_text(nm, occurrences(all, nm)),
            ),
            views(listed@) == texts.take(k as int),
        decreases shown - k,
    {
        let label = group_label(children[firsts[k]].as_str(), counts[k]);
        proof {
            assert(all[firsts@[k as int] as int] == children@[firsts@[k as int] as int]@);
            assert(all[firsts@[k as int] as int] == g[k as int]);
            assert(texts[k as int] == group_text(g[k as int], occurrences(all, g[k as int])));
            assert(label@ == texts[k as int]);
        }
        let ghost before = listed@;
        listed.push(label);
        proof {
            lemma_views_push(before, label);
            assert(texts.take(k as int).push(texts[k as int]) =~= texts.take(k + 1));
        }
        k = k + 1;
    }
    assert(views(listed@) =~= texts);
    if groups > MAX_CHILD_GROUPS {
        let mut more = String::new();
        push_str(&mut more, "+");
        push_decimal(&mut more, (groups - MAX_CHILD_GROUPS) as u64);
        push_str(&mut more, " more");
        let ghost before = listed@;
        listed.push(more);
        proof {
            lemma_views_push(before, more);
        }
    }
    assert(views(listed@) =~= listed_groups(all));
    let joined_groups = join_strings(listed.as_slice(), ", ");
    let mut s = String::new();
    push_decimal(&mut s, n as u64);
    push_str(&mut s, " (");
    push_str(&mut s, joined_groups.as_str());
    push_str(&mut s, ")");
    assert(s@ =~= children_summary(all));
    s
}

/// The "label  value" row of an entry point: its value, then the package it comes
/// from, if any.
pub open spec fn entry_value(e: EntryPoint) -> Seq<char> {
    match e.package {
        Some(p) => e.value@ + " "@ + painted(Tone::Label, "("@ + p@ + ")"@),
        None => e.value@,
    }
}

/// The first line of a card: name, runtime and PID.
pub open spec fn card_title(info: ProcessInfo) -> Seq<char> {
    "  "@ + painted(Tone::Accent, "\u{25cf}"@) + " "@ + painted(Tone::Title, info.name@) + "  "@
        + painted(Tone::Runtime, runtime_label(info.runtime)) + "  "@ + painted(
        Tone::Label,
        "PID "@ + decimal(info.pid as nat),
    ) + "\n"@
}

/// The row of an optional value, or nothing.
pub open spec fn optional_row(label: Seq<char>, value: Option<Seq<char>>) -> Seq<char> {
    match value {
        Some(v) => row_text(label, v),
        None => seq![],
    }
}

/// The detailed card of a process whose memory use reads `memory`.
pub open spec fn card_text(info: ProcessInfo, memory: Seq<char>) -> Seq<char> {
    card_title(info) + match info.entry {
        Some(e) => row_text(e.kind@, entry_value(e)),
        None => seq![],
    } + (if info.command@.len() > 0 {
        row_text("Command"@, truncated(info.command@, MAX_COMMAND_LEN as nat))
    } else {
        seq![]
    }) + optional_row("Path"@, shown_path(info.exe)) + optional_row(
        "Directory"@,
        shown_path(info.cwd),
    ) + optional_row("User"@, opt_view(info.user)) + row_text(
        "Memory"@,
        memory + "   "@ + painted(Tone::Label, "Uptime"@) + " "@ + duration_text(
            info.uptime_secs as nat,
        ),
    ) + (if info.children@.len() > 0 {
        row_text("Children"@, children_summary(views(info.children@)))
    } else {
        seq![]
    })
}

fn push_optional_row(out: &mut String, label: &str, value: &Option<String>)
    ensures
        final(out)@ == old(out)@ + optional_row(label@, opt_view(*value)),
{
    match value {
        Some(v) => push_row(out, label, v.as_str()),
        None => {
            assert(out@ =~= old(out)@ + optional_row(label@, opt_view(*value)));
        },
    }
}

/// Render the detailed card of a process; `memory` is its memory use, already
/// written in human readable units.
pub fn render_card(info: &ProcessInfo, memory: &str) -> (s: String)
    ensures
        s@ == card_text(*info, memory@),
{
    let mut out = String::new();
    push_str(&mut out, "  ");
    push_painted(&mut out, Tone::Accent, "\u{25cf}");
    push_str(&mut out, " ");
    push_painted(&mut out, Tone::Title, info.name.as_str());
    push_str(&mut out, "  ");
    let runtime = info.runtime.to_string();
    push_painted(&mut out, Tone::Runtime, runtime.as_str());
    push_str(&mut out, "  ");
    let mut pid = String::new();
    push_str(&mut pid, "PID ");
    push_decimal(&mut pid, info.pid as u64);
    push_painted(&mut out, Tone::Label, pid.as_str());
    push_str(&mut out, "\n");
    assert(out@ =~= card_title(*info));
    let ghost after_title = out@;

    match &info.entry {
        Some(entry) => {
            let mut value = String::new();
            push_str(&mut value, entry.value.as_str());
            match &entry.package {
                Some(package) => {
                    let mut inner = String::new();
                    push_str(&mut inner, "(");
                    push_str(&mut inner, package.as_str());
                    push_str(&mut inner, ")");
                    push_str(&mut value, " ");
                    push_painted(&mut value, Tone::Label, inner.as_str());
                },
                None => {},
            }
            assert(value@ =~= entry_value(*entry));
            push_row(&mut out, entry.kind, value.as_str());
        },
        None => {},
    }
    let ghost after_entry = out@;
    if info.command.as_str().unicode_len() > 0 {
        let command = truncate(info.command.as_str(), MAX_COMMAND_LEN);
        push_row(&mut out, "Command", command.as_str());
    }
    let ghost after_command = out@;
    let exe = display_path(&info.exe);
    push_optional_row(&mut out, "Path", &exe);
    let cwd = display_path(&info.cwd);
    push_optional_row(&mut out, "Directory", &cwd);
    push_optional_row(&mut out, "User", &info.user);
    let ghost after_user = out@;

    let mut memory_value = String::new();
    push_str(&mut memory_value, memory);
    push_str(&mut memory_value, "   ");
    push_painted(&mut memory_value, Tone::Label, "Uptime");
    push_str(&mut memory_value, " ");
    let uptime = format_duration(info.uptime_secs);
    push_str(&mut memory_value, uptime.as_str());
    push_row(&mut out, "Memory", memory_value.as_str());
    let ghost after_memory = out@;

    if info.children.len() > 0 {
        let summary = summarize_children(info.children.as_slice());
        push_row(&mut out, "Children", summary.as_str());
    }
    proof {
        assert(opt_view(exe) == shown_path(info.exe));
        assert(opt_view(cwd) == shown_path(info.cwd));
        assert(views(info.children@).len() == info.children@.len());
    }
    assert(out@ =~= card_text(*info, memory@));
    out
}

/// The header line of a plan.
pub open spec fn plan_header(plan: KillPlan) -> Seq<char> {
    painted(Tone::Accent, "[>]"@) + " "@ + match plan.port {
        Some(port) => "Port "@ + painted(Tone::Title, decimal(port as nat)) + " is held by:"@,
        None => "Found "@ + processes_text(plan.roots@.len()) + " matching "@ + painted(
            Tone::Title,
            "'"@ + plan.process_name@ + "'"@,
        ) + ":"@,
    } + "\n"@
}

/// The cards of `cards`, each after an empty line; each card comes with its memory
/// use, already written in human readable units.
pub open spec fn cards_text(cards: Seq<(ProcessInfo, String)>) -> Seq<char>
    decreases cards.len(),
{
    if cards.len() == 0 {
        seq![]
    } else {
        cards_text(cards.drop_last()) + "\n"@ + card_text(cards.last().0, cards.last().1@)
    }
}

/// Render the header and the card of every targeted process; each card comes with
/// the memory use of its process, already written in human readable units.
pub fn render_plan(plan: &KillPlan, cards: &[(ProcessInfo, String)]) -> (s: String)
    ensures
        s@ == plan_header(*plan) + cards_text(cards@),
{
    let mut out = String::new();
    push_painted(&mut out, Tone::Accent, "[>]");
    push_str(&mut out, " ");
    match plan.port {
        Some(port) => {
            push_str(&mut out, "Port ");
            let mut number = String::new();
            push_decimal(&mut number, port as u64);
            push_painted(&mut out, Tone::Title, number.as_str());
            push_str(&mut out, " is held by:");
        },
        None => {
            push_str(&mut out, "Found ");
            let count = processes(plan.roots.len());
            push_str(&mut out, count.as_str());
            push_str(&mut out, " matching ");
            let mut quoted = String::new();
            push_str(&mut quoted, "'");
            push_str(&mut quoted, plan.process_name.as_str());
            push_str(&mut quoted, "'");
            push_painted(&mut out, Tone::Title, quoted.as_str());
            push_str(&mut out, ":");
        },
    }
    push_str(&mut out, "\n");
    assert(out@ =~= plan_header(*plan));
    let ghost header = out@;
    let mut i: usize = 0;
    while i < cards.len()
        invariant
            i <= cards@.len(),
            header == plan_header(*plan),
            out@ == header + cards_text(cards@.subrange(0, i as int)),
        decreases cards@.len() - i,
    {
        let card = render_card(&cards[i].0, cards[i].1.as_str());
        push_str(&mut out, "\n");
        push_str(&mut out, card.as_str());
        proof {
            let now = cards@.subrange(0, i + 1);
            assert(now.drop_last() =~= cards@.subrange(0, i as int));
            assert(now.last() == cards@[i as int]);
            assert(out@ =~= header + cards_text(now));
        }
        i = i + 1;
    }
    assert(cards@.subrange(0, cards@.len() as int) =~= cards@);
    out
}

/// Number of rows of the flame drawn next to the final message.
pub const FLAME_ROWS: usize = 5;

/// Row of the flame the headline of the final message is printed next to.
pub const HEADLINE_ROW: usize = 3;

/// Row of the flame the outcome of the final message is printed next to.
pub const OUTCOME_ROW: usize = 4;

/// Row `row` of the fire drawn next to the final message.
pub open spec fn flame_text(row: int) -> Seq<char> {
    if row == 0 {
        "    \u{2599}"@
    } else if row == 1 {
        "  \u{259f}\u{2596}\u{259f}\u{2588}\u{2596}"@
    } else if row == 2 {
        " \u{259f}\u{2588}\u{2588}\u{2588}\u{2588}\u{2588}"@
    } else if row == 3 {
        "\u{2590}\u{2588}\u{2588}\u{2597}\u{2596}\u{2588}\u{2588}\u{258c}"@
    } else {
        " \u{2580}\u{2588}\u{2588}\u{2588}\u{259b}\u{2598}"@
    }
}

/// Color of each cell of row `row` of the flame, same shape: R = red, O = orange,
/// Y = yellow core.
pub open spec fn flame_colors_text(row: int) -> Seq<char> {
    if row == 0 {
        "    R"@
    } else if row == 1 {
        "  RRRRR"@
    } else if row == 2 {
        " RROORR"@
    } else if row == 3 {
        "RROYYORR"@
    } else {
        " RRRRRR"@
    }
}

/// Row `row` of the fire drawn next to the final message.
pub fn flame_row(row: usize) -> (r: &'static str)
    requires
        row < FLAME_ROWS,
    ensures
        r@ == flame_text(row as int),
{
    if row == 0 {
        "    \u{2599}"
    } else if row == 1 {
        "  \u{259f}\u{2596}\u{259f}\u{2588}\u{2596}"
    } else if row == 2 {
        " \u{259f}\u{2588}\u{2588}\u{2588}\u{2588}\u{2588}"
    } else if row == 3 {
        "\u{2590}\u{2588}\u{2588}\u{2597}\u{2596}\u{2588}\u{2588}\u{258c}"
    } else {
        " \u{2580}\u{2588}\u{2588}\u{2588}\u{259b}\u{2598}"
    }
}

/// Colors of row `row` of the flame: R = red, O = orange, Y = yellow core.
pub fn flame_colors_row(row: usize) -> (r: &'static str)
    requires
        row < FLAME_ROWS,
    ensures
        r@ == flame_colors_text(row as int),
{
    if row == 0 {
        "    R"
    } else if row == 1 {
        "  RRRRR"
    } else if row == 2 {
        " RROORR"
    } else if row == 3 {
        "RROYYORR"
    } else {
        " RRRRRR"
    }
}

/// The tone of a letter of the flame's colors, if it is one.
pub open spec fn letter_tone(letter: char) -> Option<Tone> {
    if letter == 'R' {
        Some(Tone::FlameRed)
    } else if letter == 'O' {
        Some(Tone::Orange)
    } else if letter == 'Y' {
        Some(Tone::Core)
    } else {
        None
    }
}

/// Style matching a letter of the flame's colors, if any.
pub fn flame_style(letter: char) -> (t: Option<Tone>)
    ensures
        t == letter_tone(letter),
{
    if letter == 'R' {
        Some(Tone::FlameRed)
    } else if letter == 'O' {
        Some(Tone::Orange)
    } else if letter == 'Y' {
        Some(Tone::Core)
    } else {
        None
    }
}

/// Each color of the flame sits on a drawn cell and each drawn cell has a color:
/// every row of colors is as wide as its row of the drawing, and a cell is empty
/// exactly where its color is a space, otherwise its color is R, O or Y.
pub proof fn flame_colors_match_shape()
    ensures
        forall|row: int|
            0 <= row < FLAME_ROWS ==> #[trigger] flame_colors_text(row).len() == flame_text(
                row,
            ).len(),
        forall|row: int, col: int|
            0 <= row < FLAME_ROWS && 0 <= col < flame_text(row).len() ==> {
                &&& (#[trigger] flame_text(row)[col] == ' ') == (flame_colors_text(row)[col]
                    == ' ')
                &&& flame_text(row)[col] != ' ' ==> letter_tone(flame_colors_text(row)[col]) is Some
            },
{
    reveal_strlit("    \u{2599}");
    reveal_strlit("  \u{259f}\u{2596}\u{259f}\u{2588}\u{2596}");
    reveal_strlit(" \u{259f}\u{2588}\u{2588}\u{2588}\u{2588}\u{2588}");
    reveal_strlit("\u{2590}\u{2588}\u{2588}\u{2597}\u{2596}\u{2588}\u{2588}\u{258c}");
    reveal_strlit(" \u{2580}\u{2588}\u{2588}\u{2588}\u{259b}\u{2598}");
    reveal_strlit("    R");
    reveal_strlit("  RRRRR");
    reveal_strlit(" RROORR");
    reveal_strlit("RROYYORR");
    reveal_strlit(" RRRRRR");
}

/// A cell of the flame: the character, painted when its color is known.
pub open spec fn cell_text(ch: char, tone: Option<Tone>) -> Seq<char> {
    match tone {
        Some(t) => painted(t, seq![ch]),
        None => seq![ch],
    }
}

/// The cells of `drawing`, each painted with the tone of the letter at the same
/// place in `colors` (left plain where `colors` is shorter or has no tone there).
pub open spec fn painted_cells(drawing: Seq<char>, colors: Seq<char>) -> Seq<char>
    decreases drawing.len(),
{
    if drawing.len() == 0 {
        seq![]
    } else {
        let j = drawing.len() - 1;
        painted_cells(drawing.drop_last(), colors) + cell_text(
            drawing.last(),
            if j < colors.len() {
                letter_tone(colors[j])
            } else {
                None
            },
        )
    }
}

/// Render one row of the flame, coloring each cell from its colors.
pub fn render_flame_row(row: usize) -> (s: String)
    requires
        row < FLAME_ROWS,
    ensures
        s@ == painted_cells(flame_text(row as int), flame_colors_text(row as int)),
{
    let drawing = chars_of(flame_row(row));
    let colors = chars_of(flame_colors_row(row));
    let mut out = String::new();
    let mut j: usize = 0;
    while j < drawing.len()
        invariant
            j <= drawing@.len(),
            drawing@ == flame_text(row as int),
            colors@ == flame_colors_text(row as int),
            out@ == painted_cells(drawing@.subrange(0, j as int), colors@),
        decreases drawing@.len() - j,
    {
        let ch = drawing[j];
        let tone = if j < colors.len() {
            flame_style(colors[j])
        } else {
            None
        };
        match tone {
            Some(t) => {
                let mut cell = String::new();
                push_char(&mut cell, ch);
                push_painted(&mut out, t, cell.as_str());
            },
            None => push_char(&mut out, ch),
        }
        proof {
            let now = drawing@.subrange(0, j + 1);
            assert(now.drop_last() =~= drawing@.subrange(0, j as int));
            assert(now.last() == ch);
            assert(out@ =~= painted_cells(now, colors@));
        }
        j = j + 1;
    }
    assert(drawing@.subrange(0, drawing@.len() as int) =~= drawing@);
    out
}

/// The widest of the first `n` rows of the flame.
pub open spec fn flame_width(n: int) -> nat
    decreases n,
{
    if n <= 0 {
        0
    } else {
        let w = flame_width(n - 1);
        let l = flame_text(n - 1).len();
        if l > w {
            l
        } else {
            w
        }
    }
}

proof fn lemma_flame_width(n: int, k: int)
    requires
        0 <= k < n,
    ensures
        flame_width(n) >= flame_text(k).len(),
    decreases n,
{
    if k < n - 1 {
        lemma_flame_width(n - 1, k);
    }
}

/// `n` spaces.
pub open spec fn spaces(n: nat) -> Seq<char> {
    Seq::new(n, |i: int| ' ')
}

/// Row `row` of the final message: the flame, then, on the two rows that carry
/// text, padding to the widest row, a gap and the text.
pub open spec fn result_row(row: int, r: KillResult) -> Seq<char> {
    let flame = painted_cells(flame_text(row), flame_colors_text(row));
    let pad = spaces((flame_width(FLAME_ROWS as int) - flame_text(row).len()) as nat);
    if row == HEADLINE_ROW {
        flame + pad + "   "@ + painted(Tone::Title, headline_text(r))
    } else if row == OUTCOME_ROW {
        flame + pad + "   "@ + outcome_text(r)
    } else {
        flame
    }
}

/// The final success message next to the flame, one line per row of the flame.
pub open spec fn result_text(r: KillResult) -> Seq<char> {
    joined(Seq::new(FLAME_ROWS as nat, |row: int| result_row(row, r)), "\n"@)
}

fn push_spaces(s: &mut String, n: usize)
    ensures
        final(s)@ == old(s)@ + spaces(n as nat),
{
    let mut k: usize = 0;
    while k < n
        invariant
            k <= n,
            s@ == old(s)@ + spaces(k as nat),
        decreases n - k,
    {
        push_char(s, ' ');
        k = k + 1;
        assert(s@ =~= old(s)@ + spaces(k as nat));
    }
}

/// Render the final success message, next to the flame.
pub fn render_result(result: &KillResult) -> (s: String)
    ensures
        s@ == result_text(*result),
{
    let mut width: usize = 0;
    let mut row: usize = 0;
    while row < FLAME_ROWS
        invariant
            row <= FLAME_ROWS,
            width == flame_width(row as int),
        decreases FLAME_ROWS - row,
    {
        let l = flame_row(row).unicode_len();
        if l > width {
            width = l;
        }
        row = row + 1;
    }
    proof {
        lemma_flame_width(FLAME_ROWS as int, 0);
        lemma_flame_width(FLAME_ROWS as int, 1);
        lemma_flame_width(FLAME_ROWS as int, 2);
        lemma_flame_width(FLAME_ROWS as int, 3);
        lemma_flame_width(FLAME_ROWS as int, 4);
    }
    let ghost lines = Seq::new(FLAME_ROWS as nat, |i: int| result_row(i, *result));
    let mut rows: Vec<String> = Vec::new();
    let mut i: usize = 0;
    while i < FLAME_ROWS
        invariant
            i <= FLAME_ROWS,
            width == flame_width(FLAME_ROWS as int),
            width >= flame_text(0).len() && width >= flame_text(1).len() && width >= flame_text(
                2,
            ).len() && width >= flame_text(3).len() && width >= flame_text(4).len(),
            lines == Seq::new(FLAME_ROWS as nat, |i: int| result_row(i, *result)),
            views(rows@) == lines.take(i as int),
        decreases FLAME_ROWS - i,
    {
        let mut line = render_flame_row(i);
        if i == HEADLINE_ROW || i == OUTCOME_ROW {
            let pad = width - flame_row(i).unicode_len();
            push_spaces(&mut line, pad);
            push_str(&mut line, "   ");
            if i == HEADLINE_ROW {
                let headline = result.headline();
                push_painted(&mut line, Tone::Title, headline.as_str());
            } else {
                let outcome = result.outcome();
                push_str(&mut line, outcome.as_str());
            }
        }
        assert(line@ =~= result_row(i as int, *result));
        let ghost before = rows@;
        rows.push(line);
        proof {
            lemma_views_push(before, line);
            assert(lines.take(i as int).push(lines[i as int]) =~= lines.take(i + 1));
        }
        i = i + 1;
    }
    assert(lines.take(FLAME_ROWS as int) =~= lines);
    join_strings(rows.as_slice(), "\n")
}

/// The note telling the user the confirmation was bypassed.
pub open spec fn skipped_text(total: nat) -> Seq<char> {
    painted(Tone::Warn, "[!]"@) + " Confirmation skipped (--yes), obliterating "@ + processes_text(
        total,
    ) + "."@
}

/// Render a note telling the user the confirmation was bypassed.
pub fn render_skipped(total: usize) -> (s: String)
    ensures
        s@ == skipped_text(total as nat),
{
    let mut s = String::new();
    push_painted(&mut s, Tone::Warn, "[!]");
    push_str(&mut s, " Confirmation skipped (--yes), obliterating ");
    let count = processes(total);
    push_str(&mut s, count.as_str());
    push_str(&mut s, ".");
    assert(s@ =~= skipped_text(total as nat));
    s
}

/// An error as shown to the user: a softer note when the user aborted.
pub open spec fn error_text(e: WrathError) -> Seq<char> {
    match e {
        WrathError::Aborted => painted(Tone::Warn, "[-]"@) + " "@ + error_message(e) + "."@,
        _ => painted(Tone::Accent, "[x]"@) + " "@ + error_message(e),
    }
}

/// Render an error, or a softer note when the user aborted.
pub fn render_error(error: &WrathError) -> (s: String)
    ensures
        s@ == error_text(*error),
{
    let message = error.to_string();
    let mut s = String::new();
    match error {
        WrathError::Aborted => {
            push_painted(&mut s, Tone::Warn, "[-]");
            push_str(&mut s, " ");
            push_str(&mut s, message.as_str());
            push_str(&mut s, ".");
        },
        _ => {
            push_painted(&mut s, Tone::Accent, "[x]");
            push_str(&mut s, " ");
            push_str(&mut s, message.as_str());
        },
    }
    assert(s@ =~= error_text(*error));
    s
}

/// The yes/no question asked before killing `total` processes.
pub open spec fn prompt_text(total: nat) -> Seq<char> {
    "\n"@ + painted(Tone::Warn, "[?]"@) + " Obliterate "@ + processes_text(total) + "? "@ + painted(
        Tone::Label,
        "[y/N]"@,
    ) + " "@
}

/// The yes/no question asked before killing `total` processes.
pub fn confirm_prompt(total: usize) -> (s: String)
    ensures
        s@ == prompt_text(total as nat),
{
    let mut s = String::new();
    push_str(&mut s, "\n");
    push_painted(&mut s, Tone::Warn, "[?]");
    push_str(&mut s, " Obliterate ");
    let count = processes(total);
    push_str(&mut s, count.as_str());
    push_str(&mut s, "? ");
    push_painted(&mut s, Tone::Label, "[y/N]");
    push_str(&mut s, " ");
    assert(s@ =~= prompt_text(total as nat));
    s
}

/// Whether an answer to the question confirms: "y" or "yes", whatever the case and
/// the surrounding whitespace; anything else, an empty answer included, means "no".
pub open spec fn confirms(answer: Seq<char>) -> bool {
    lowercase(trim(answer)) == "y"@ || lowercase(trim(answer)) == "yes"@
}

/// Read the answer typed at the yes/no question, defaulting to "no".
pub fn confirm(answer: &str) -> (r: bool)
    ensures
        r == confirms(answer@),
{
    let v = chars_of(answer);
    let (lo, hi) = trim_range(&v, 0, v.len());
    assert(v@.subrange(0, v@.len() as int) =~= answer@);
    let trimmed = string_of(&v, lo, hi);
    let lowered = chars_of(to_lowercase(trimmed.as_str()).as_str());
    chars_are(&lowered, "y") || chars_are(&lowered, "yes")
}

/// How a kill gets confirmed.
#[derive(Debug, Clone, Copy, PartialEq, Eq, Structural)]
pub enum Confirmation {
    /// `--yes` was given: the question is skipped, and a note says so.
    Skipped,
    /// The question is asked on the terminal.
    Ask,
}

/// How to confirm a kill, given the `--yes` flag and whether standard input is an
/// interactive terminal: without `--yes`, a kill is refused when nobody can answer.
pub fn confirmation(yes: bool, interactive: bool) -> (r: Result<Confirmation, WrathError>)
    ensures
        yes ==> r == Ok::<Confirmation, WrathError>(Confirmation::Skipped),
        !yes && interactive ==> r == Ok::<Confirmation, WrathError>(Confirmation::Ask),
        !yes && !interactive ==> r == Err::<Confirmation, WrathError>(
            WrathError::ConfirmationRequired,
        ),
{
    if yes {
        Ok(Confirmation::Skipped)
    } else if !interactive {
        Err(WrathError::ConfirmationRequired)
    } else {
        Ok(Confirmation::Ask)
    }
}

/// What the answer to the question decides: go on when it confirms; abort when it
/// does not, or when the question could not be asked or the answer read (`None`).
pub fn answer_outcome(answer: Option<&str>) -> (r: Result<(), WrathError>)
    ensures
        match answer {
            Some(a) => if confirms(a@) {
                r == Ok::<(), WrathError>(())
            } else {
                r == Err::<(), WrathError>(WrathError::Aborted)
            },
            None => r == Err::<(), WrathError>(WrathError::Aborted),
        },
{
    match answer {
        Some(a) => {
            if confirm(a) {
                Ok(())
            } else {
                Err(WrathError::Aborted)
            }
        },
        None => Err(WrathError::Aborted),
    }
}

} // verus!
