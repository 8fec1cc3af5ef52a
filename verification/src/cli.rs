//! Text that the command line prints and reads: durations, projects, tags,
//! report starts and tag shortcuts.

use vstd::prelude::*;
use crate::error::TrackerError;
use crate::text::{chars_of, decimal, has_prefix, owned, push_char, push_decimal, push_str, same_text, starts_with_text};
use crate::time::{max_delta_secs, parse_time, span_fits, utc_parse, Timestamp};
use crate::model::{elapsed_spec, TimeEntry};
use crate::records::strictly_sorted;
use crate::text::{bytes_less, bytes_lt, lemma_bytes_lt_total, lemma_bytes_lt_transitive};
use vstd::utf8::{encode_utf8, encode_utf8_decode_utf8};

verus! {

/// Rust's `/` on integers: the quotient rounded toward zero.
pub open spec fn trunc_div(x: int, d: int) -> int {
    if x >= 0 {
        x / d
    } else {
        -((-x) / d)
    }
}

/// Rust's `%` on integers: the remainder with the sign of the dividend.
pub open spec fn trunc_rem(x: int, d: int) -> int {
    x - trunc_div(x, d) * d
}

/// An integer as `format!("{:02}", n)` writes it: at least two characters,
/// zero-padded after the sign.
pub open spec fn two_digits(n: int) -> Seq<char> {
    if n < 0 {
        seq!['-'] + decimal((-n) as nat)
    } else if n < 10 {
        seq!['0'] + decimal(n as nat)
    } else {
        decimal(n as nat)
    }
}

/// A number of seconds as `HH:MM:SS`: hours, the remaining minutes and
/// seconds, each at least two digits.
pub open spec fn duration_text(seconds: int) -> Seq<char> {
    let hours = trunc_div(seconds, 3600);
    let minutes = trunc_div(trunc_rem(seconds, 3600), 60);
    let secs = trunc_rem(seconds, 60);
    two_digits(hours) + seq![':'] + two_digits(minutes) + seq![':'] + two_digits(secs)
}

fn push_two_digits(s: &mut String, negative: bool, magnitude: u64)
    requires
        magnitude <= i64::MAX + 1,
    ensures
        final(s)@ == old(s)@ + two_digits(if negative { -(magnitude as int) } else { magnitude as int }),
{
    if negative && magnitude > 0 {
        push_char(s, '-');
    } else if magnitude < 10 {
        push_char(s, '0');
    }
    push_decimal(s, magnitude);
    assert(s@ =~= old(s)@ + two_digits(if negative { -(magnitude as int) } else { magnitude as int }));
}

/// A number of seconds as `HH:MM:SS`.
pub fn display_duration(seconds: i64) -> (res: String)
    ensures
        res@ == duration_text(seconds as int),
{
    let negative = seconds < 0;
    let magnitude: u64 = if negative {
        if seconds == i64::MIN {
            9_223_372_036_854_775_808u64
        } else {
            (-seconds) as u64
        }
    } else {
        seconds as u64
    };
    let hours = magnitude / 3600;
    let minutes = (magnitude % 3600) / 60;
    let secs = magnitude % 60;
    let mut text = String::new();
    push_two_digits(&mut text, negative, hours);
    push_char(&mut text, ':');
    push_two_digits(&mut text, negative, minutes);
    push_char(&mut text, ':');
    push_two_digits(&mut text, negative, secs);
    proof {
        let x = seconds as int;
        let m = magnitude as int;
        assert(x == if negative { -m } else { m });
        assert(trunc_div(x, 3600) == if negative { -((m / 3600) as int) } else { (m / 3600) as int });
        assert(trunc_rem(x, 3600) == if negative { -((m % 3600) as int) } else { (m % 3600) as int });
        assert(trunc_div(trunc_rem(x, 3600), 60) == if negative { -(((m % 3600) / 60) as int) } else { ((m % 3600) / 60) as int });
        assert(trunc_rem(x, 60) == if negative { -((m % 60) as int) } else { (m % 60) as int });
    }
    assert(text@ =~= duration_text(seconds as int));
    text
}

/// The text of a duration reads back as that duration: its three fields are
/// whole hours, minutes below an hour and seconds below a minute that add up
/// to it (all of the duration's sign).
pub proof fn lemma_duration_text_reads_back(seconds: int)
    ensures
        exists|h: int, m: int, s: int| {
            &&& duration_text(seconds) == two_digits(h) + seq![':'] + two_digits(m) + seq![':'] + two_digits(s)
            &&& h * 3600 + m * 60 + s == seconds
            &&& seconds >= 0 ==> h >= 0 && 0 <= m < 60 && 0 <= s < 60
            &&& seconds < 0 ==> h <= 0 && -60 < m <= 0 && -60 < s <= 0
        },
{
    let h = trunc_div(seconds, 3600);
    let m = trunc_div(trunc_rem(seconds, 3600), 60);
    let s = trunc_rem(seconds, 60);
    if seconds >= 0 {
        assert(h * 3600 + m * 60 + s == seconds && h >= 0 && 0 <= m < 60 && 0 <= s < 60) by (nonlinear_arith)
            requires
                seconds >= 0,
                h == seconds / 3600,
                m == (seconds - h * 3600) / 60,
                s == seconds - (seconds / 60) * 60,
        ;
    } else {
        let x = -seconds;
        assert(h * 3600 + m * 60 + s == seconds && h <= 0 && -60 < m <= 0 && -60 < s <= 0) by (nonlinear_arith)
            requires
                x > 0,
                seconds == -x,
                h == -(x / 3600),
                m == -((x - (x / 3600) * 3600) / 60),
                s == -(x - (x / 60) * 60),
        ;
    }
    assert(duration_text(seconds) == two_digits(h) + seq![':'] + two_digits(m) + seq![':'] + two_digits(s));
}

/// ` Project: <project>.` for a project, and nothing without one.
pub open spec fn project_text(project: Option<Seq<char>>) -> Seq<char> {
    match project {
        Some(p) => " Project: "@ + p + seq!['.'],
        None => Seq::empty(),
    }
}

/// ` Project: <project>.` for a project, and nothing without one.
pub fn display_project(project: Option<&str>) -> (res: String)
    ensures
        res@ == project_text(crate::records::opt_view(project)),
{
    match project {
        Some(p) => {
            let mut text = owned(" Project: ");
            push_str(&mut text, p);
            push_char(&mut text, '.');
            text
        },
        None => String::new(),
    }
}

/// Each tag preceded by ` #`, in order.
pub open spec fn tags_text(tags: Seq<Seq<char>>) -> Seq<char>
    decreases tags.len(),
{
    if tags.len() == 0 {
        Seq::empty()
    } else {
        tags_text(tags.drop_last()) + " #"@ + tags.last()
    }
}

/// The tags as ` #a #b`, and nothing without tags.
pub fn display_tags(tags: &[String]) -> (res: String)
    ensures
        res@ == tags_text(tags.deep_view()),
{
    let mut text = String::new();
    let mut i: usize = 0;
    while i < tags.len()
        invariant
            i <= tags.len(),
            text@ == tags_text(tags.deep_view().take(i as int)),
        decreases tags.len() - i,
    {
        push_str(&mut text, " #");
        push_str(&mut text, tags[i].as_str());
        assert(tags.deep_view().take(i + 1).drop_last() =~= tags.deep_view().take(i as int));
        i = i + 1;
    }
    assert(tags.deep_view().take(tags.len() as int) =~= tags.deep_view());
    text
}


/// ASCII lowercase of a character; other characters unchanged.
pub open spec fn ascii_lower(c: char) -> char {
    if 'A' <= c <= 'Z' {
        ((c as u32) + 32) as char
    } else {
        c
    }
}

/// Whether two texts are equal ignoring ASCII case, as
/// `str::eq_ignore_ascii_case`.
pub open spec fn eq_ignore_ascii_case(a: Seq<char>, b: Seq<char>) -> bool {
    a.len() == b.len() && forall|i: int| 0 <= i < a.len() ==> ascii_lower(#[trigger] a[i]) == ascii_lower(b[i])
}

fn lower_char(c: char) -> (res: char)
    ensures
        res == ascii_lower(c),
{
    if 'A' <= c && c <= 'Z' {
        ((c as u32) + 32) as u8 as char
    } else {
        c
    }
}

fn texts_equal_ignoring_ascii_case(a: &str, b: &str) -> (res: bool)
    ensures
        res == eq_ignore_ascii_case(a@, b@),
{
    let x = chars_of(a);
    let y = chars_of(b);
    if x.len() != y.len() {
        return false;
    }
    let mut i: usize = 0;
    while i < x.len()
        invariant
            x@ == a@,
            y@ == b@,
            x.len() == y.len(),
            i <= x.len(),
            forall|k: int| 0 <= k < i ==> ascii_lower(#[trigger] a@[k]) == ascii_lower(b@[k]),
        decreases x.len() - i,
    {
        if lower_char(x[i]) != lower_char(y[i]) {
            return false;
        }
        i = i + 1;
    }
    true
}

/// Whether a character is an ASCII digit.
pub open spec fn is_digit(c: char) -> bool {
    '0' <= c <= '9'
}

/// The value of a string of decimal digits.
pub open spec fn digits_value(s: Seq<char>) -> int
    decreases s.len(),
{
    if s.len() == 0 {
        0
    } else {
        digits_value(s.drop_last()) * 10 + (s.last() as int - 48)
    }
}

/// The text after an optional leading `+`.
pub open spec fn unsigned_digits(s: Seq<char>) -> Seq<char> {
    if s.len() > 0 && s[0] == '+' {
        s.drop_first()
    } else {
        s
    }
}

/// Whether every character is an ASCII digit.
pub open spec fn all_digits(s: Seq<char>) -> bool {
    forall|i: int| 0 <= i < s.len() ==> is_digit(#[trigger] s[i])
}

/// What `str::parse::<u64>` reads: an optional `+` and then one or more ASCII
/// digits whose value fits a `u64`.
pub open spec fn parse_u64_spec(s: Seq<char>) -> Option<u64> {
    let digits = unsigned_digits(s);
    if digits.len() > 0 && all_digits(digits) && digits_value(digits) <= u64::MAX {
        Some(digits_value(digits) as u64)
    } else {
        None
    }
}

proof fn lemma_digits_value_nonneg(s: Seq<char>)
    requires
        forall|i: int| 0 <= i < s.len() ==> is_digit(#[trigger] s[i]),
    ensures
        digits_value(s) >= 0,
    decreases s.len(),
{
    if s.len() > 0 {
        lemma_digits_value_nonneg(s.drop_last());
    }
}

proof fn lemma_digits_value_grows(s: Seq<char>, j: int)
    requires
        0 <= j <= s.len(),
        forall|i: int| 0 <= i < s.len() ==> is_digit(#[trigger] s[i]),
    ensures
        digits_value(s.take(j)) <= digits_value(s),
    decreases s.len() - j,
{
    if j < s.len() {
        assert(s.drop_last().take(j) =~= s.take(j));
        lemma_digits_value_grows(s.drop_last(), j);
        lemma_digits_value_nonneg(s.drop_last());
    } else {
        assert(s.take(j) =~= s);
    }
}

/// Reads an unsigned decimal number as `str::parse::<u64>` does.
pub fn parse_u64(text: &str) -> (res: Option<u64>)
    ensures
        res == parse_u64_spec(text@),
{
    let cs = chars_of(text);
    let start: usize = if cs.len() > 0 && cs[0] == '+' { 1 } else { 0 };
    let ghost digits = unsigned_digits(text@);
    assert(digits =~= text@.skip(start as int));
    if start >= cs.len() {
        return None;
    }
    let mut value: u64 = 0;
    let mut i: usize = start;
    while i < cs.len()
        invariant
            cs@ == text@,
            start <= i <= cs.len(),
            digits == text@.skip(start as int),
            digits == unsigned_digits(text@),
            forall|k: int| 0 <= k < i - start ==> is_digit(#[trigger] digits[k]),
            value == digits_value(digits.take(i - start)),
        decreases cs.len() - i,
    {
        let c = cs[i];
        let ghost prefix = digits.take(i - start);
        assert(digits.take(i - start + 1).drop_last() =~= prefix);
        assert(digits[i - start] == c);
        if !('0' <= c && c <= '9') {
            assert(!is_digit(digits[i - start]));
            return None;
        }
        let d = (c as u32 - 48) as u64;
        if value > (u64::MAX - d) / 10 {
            proof {
                let next = digits.take(i - start + 1);
                assert(next.last() == c);
                assert(digits_value(next) == value * 10 + d);
                assert(value * 10 + d > u64::MAX) by (nonlinear_arith)
                    requires
                        value > (u64::MAX - d) / 10,
                        d <= 9,
                ;
                if all_digits(digits) {
                    lemma_digits_value_grows(digits, i - start + 1);
                }
            }
            return None;
        }
        value = value * 10 + d;
        i = i + 1;
    }
    assert(digits.take(i - start) =~= digits);
    Some(value)
}

/// Where a report begins, as the command line names it.
pub enum Since {
    /// Local midnight today.
    Today,
    /// This many seconds before now.
    SecondsAgo(u64),
    /// This instant.
    At(Timestamp),
}

/// The number of seconds in `days` days, saturating at `u64::MAX`.
pub open spec fn day_span(days: u64) -> int {
    if days * 86_400 <= u64::MAX {
        days * 86_400
    } else {
        u64::MAX as int
    }
}

/// Reads where a report begins: `today` in any ASCII case; `<N>d` for N days
/// before now (N a `u64`, and the span one that chrono can hold); otherwise an
/// RFC 3339 instant.
pub fn interpret_since(value: &str) -> (res: Result<Since, TrackerError>)
    ensures
        eq_ignore_ascii_case(value@, "today"@) ==> res matches Ok(Since::Today),
        !eq_ignore_ascii_case(value@, "today"@) && value@.len() > 0 && value@.last() == 'd' ==> match parse_u64_spec(value@.drop_last()) {
            None => res matches Err(TrackerError::DayCountInvalid),
            Some(days) => if day_span(days) <= max_delta_secs() {
                res matches Ok(Since::SecondsAgo(secs)) && secs == day_span(days)
            } else {
                res matches Err(TrackerError::DayCountTooLarge)
            },
        },
        !eq_ignore_ascii_case(value@, "today"@) && !(value@.len() > 0 && value@.last() == 'd') ==> match utc_parse(value@) {
            None => res matches Err(TrackerError::SinceUnparsable),
            Some(parts) => res matches Ok(Since::At(t)) && t.unix_secs() == parts.0 && t.subsec_nanos() == parts.1,
        },
{
    if texts_equal_ignoring_ascii_case(value, "today") {
        return Ok(Since::Today);
    }
    let n = value.unicode_len();
    if n > 0 && value.get_char(n - 1) == 'd' {
        let days_text = value.substring_char(0, n - 1);
        assert(days_text@ =~= value@.drop_last());
        let days = match parse_u64(days_text) {
            Some(days) => days,
            None => return Err(TrackerError::DayCountInvalid),
        };
        let secs: u64 = if days <= u64::MAX / 86_400 { days * 86_400 } else { u64::MAX };
        if !span_fits(secs) {
            return Err(TrackerError::DayCountTooLarge);
        }
        return Ok(Since::SecondsAgo(secs));
    }
    match parse_time(value) {
        Some(t) => Ok(Since::At(t)),
        None => Err(TrackerError::SinceUnparsable),
    }
}


/// One argument after tag shortcuts are expanded.
pub enum ShortcutArg {
    /// The argument at this position of the input, unchanged.
    Original(usize),
    /// A new argument with this text.
    Text(String),
}

/// The view of an expanded argument.
pub enum ShortcutArgView {
    Original(usize),
    Text(Seq<char>),
}

impl View for ShortcutArg {
    type V = ShortcutArgView;

    open spec fn view(&self) -> ShortcutArgView {
        match self {
            ShortcutArg::Original(i) => ShortcutArgView::Original(*i),
            ShortcutArg::Text(t) => ShortcutArgView::Text(t@),
        }
    }
}

/// Where the expansion stands after some arguments.
#[derive(Clone, Copy)]
pub struct ShortcutState {
    /// The program name (the first argument) has been passed.
    pub seen_program: bool,
    /// The subcommand has been seen.
    pub command_chosen: bool,
    /// The subcommand is `start`.
    pub in_start_command: bool,
    /// A `--` has been seen after it: the rest is literal.
    pub literal_arguments: bool,
    /// The previous argument was an option that takes the next one as its value.
    pub option_takes_value: bool,
}

/// The state before any argument.
pub open spec fn initial_shortcut_state() -> ShortcutState {
    ShortcutState {
        seen_program: false,
        command_chosen: false,
        in_start_command: false,
        literal_arguments: false,
        option_takes_value: false,
    }
}

/// The options of `start` (and the global `--database`) that take a value.
pub open spec fn takes_value_option(t: Seq<char>) -> bool {
    t == "--project"@ || t == "-p"@ || t == "--tag"@ || t == "-t"@ || t == "--database"@
}

/// The help flags.
pub open spec fn help_flag(t: Seq<char>) -> bool {
    t == "--help"@ || t == "-h"@
}

/// An option written with its value after `=`.
pub open spec fn inline_value_option(t: Seq<char>) -> bool {
    has_prefix(t, "--project="@) || has_prefix(t, "--tag="@) || has_prefix(t, "--database="@)
}

/// A long flag with a name, `--<name>`.
pub open spec fn long_flag(t: Seq<char>) -> bool {
    has_prefix(t, "--"@) && t.len() > 2
}

/// What one argument (its text, or `None` when it is not Unicode) at position
/// `i` becomes, and the state after it.
pub open spec fn shortcut_step(state: ShortcutState, arg: Option<Seq<char>>, i: usize) -> (ShortcutState, Seq<ShortcutArgView>) {
    let keep = seq![ShortcutArgView::Original(i)];
    if state.option_takes_value {
        (ShortcutState { option_takes_value: false, ..state }, keep)
    } else {
        match arg {
            None => if !state.seen_program {
                (ShortcutState { seen_program: true, ..state }, keep)
            } else if !state.command_chosen {
                (ShortcutState { command_chosen: true, ..state }, keep)
            } else {
                (state, keep)
            },
            Some(t) => if !state.seen_program {
                (ShortcutState { seen_program: true, ..state }, keep)
            } else if !state.command_chosen {
                if t == "--database"@ {
                    (ShortcutState { option_takes_value: true, ..state }, keep)
                } else if has_prefix(t, "-"@) {
                    (state, keep)
                } else {
                    (ShortcutState { command_chosen: true, in_start_command: t == "start"@, ..state }, keep)
                }
            } else if !state.in_start_command {
                (state, keep)
            } else if state.literal_arguments {
                (state, keep)
            } else if t == "--"@ {
                (ShortcutState { literal_arguments: true, ..state }, keep)
            } else if takes_value_option(t) {
                (ShortcutState { option_takes_value: true, ..state }, keep)
            } else if help_flag(t) || inline_value_option(t) {
                (state, keep)
            } else if long_flag(t) {
                (state, seq![ShortcutArgView::Text("--tag"@), ShortcutArgView::Text(t.skip(2))])
            } else {
                (state, keep)
            },
        }
    }
}

/// The expansion of a whole argument list, and the state after it.
pub open spec fn shortcut_run(args: Seq<Option<Seq<char>>>) -> (ShortcutState, Seq<ShortcutArgView>)
    decreases args.len(),
{
    if args.len() == 0 {
        (initial_shortcut_state(), Seq::empty())
    } else {
        let before = shortcut_run(args.drop_last());
        let after = shortcut_step(before.0, args.last(), (args.len() - 1) as usize);
        (after.0, before.1 + after.1)
    }
}

/// The texts of the arguments (`None` where one is not Unicode).
pub open spec fn arg_texts(args: Seq<Option<String>>) -> Seq<Option<Seq<char>>> {
    args.map_values(|a: Option<String>| crate::records::opt_string_view(a))
}

/// The views of expanded arguments.
pub open spec fn shortcut_views(out: Seq<ShortcutArg>) -> Seq<ShortcutArgView> {
    out.map_values(|a: ShortcutArg| a@)
}

/// Expands tag shortcuts of the `start` command: when the subcommand (the
/// first argument after the program name and its global options) is `start`,
/// a later long flag that is not one of its options and comes before a `--`,
/// `--<name>`, becomes `--tag <name>`. Options that take a value keep it; every other argument,
/// and every argument that is not Unicode (`None`), is kept as it is.
pub fn normalize_start_tag_shortcuts(args: &Vec<Option<String>>) -> (res: Vec<ShortcutArg>)
    ensures
        shortcut_views(res@) == shortcut_run(arg_texts(args@)).1,
{
    let ghost texts = arg_texts(args@);
    let mut state = ShortcutState {
        seen_program: false,
        command_chosen: false,
        in_start_command: false,
        literal_arguments: false,
        option_takes_value: false,
    };
    let mut out: Vec<ShortcutArg> = Vec::new();
    let mut i: usize = 0;
    while i < args.len()
        invariant
            i <= args.len(),
            texts == arg_texts(args@),
            (state, shortcut_views(out@)) == shortcut_run(texts.take(i as int)),
        decreases args.len() - i,
    {
        let ghost prev = shortcut_views(out@);
        let ghost prev_state = state;
        assert(texts.take(i + 1).drop_last() =~= texts.take(i as int));
        assert(texts.take(i + 1).last() == texts[i as int]);
        assert(texts[i as int] == crate::records::opt_string_view(args@[i as int]));
        let mut expanded = false;
        if state.option_takes_value {
            state.option_takes_value = false;
        } else {
            match &args[i] {
                None => {
                    if !state.seen_program {
                        state.seen_program = true;
                    } else if !state.command_chosen {
                        state.command_chosen = true;
                    }
                },
                Some(arg) => {
                    let t = arg.as_str();
                    if !state.seen_program {
                        state.seen_program = true;
                    } else if !state.command_chosen {
                        if same_text(t, "--database") {
                            state.option_takes_value = true;
                        } else if starts_with_text(t, "-") {
                        } else {
                            state.command_chosen = true;
                            state.in_start_command = same_text(t, "start");
                        }
                    } else if !state.in_start_command {
                    } else if state.literal_arguments {
                    } else if same_text(t, "--") {
                        state.literal_arguments = true;
                    } else if same_text(t, "--project") || same_text(t, "-p") || same_text(t, "--tag")
                        || same_text(t, "-t") || same_text(t, "--database") {
                        state.option_takes_value = true;
                    } else if same_text(t, "--help") || same_text(t, "-h") {
                    } else if starts_with_text(t, "--project=") || starts_with_text(t, "--tag=")
                        || starts_with_text(t, "--database=") {
                    } else if starts_with_text(t, "--") && t.unicode_len() > 2 {
                        let name = t.substring_char(2, t.unicode_len());
                        assert(name@ =~= t@.skip(2));
                        out.push(ShortcutArg::Text(owned("--tag")));
                        out.push(ShortcutArg::Text(owned(name)));
                        expanded = true;
                    }
                },
            }
        }
        if !expanded {
            out.push(ShortcutArg::Original(i));
        }
        proof {
            let step = shortcut_step(prev_state, texts[i as int], i);
            assert(state == step.0);
            assert(shortcut_views(out@) =~= prev + step.1);
        }
        i = i + 1;
    }
    assert(texts.take(args.len() as int) =~= texts);
    out
}

/// Without a `start` command among the arguments, the expansion changes
/// nothing: every argument is kept, in order.
pub proof fn lemma_no_start_keeps_arguments(args: Seq<Option<Seq<char>>>)
    requires
        forall|i: int| 0 <= i < args.len() ==> args[i] != Some("start"@),
    ensures
        !shortcut_run(args).0.in_start_command,
        shortcut_run(args).1 == Seq::new(args.len(), |i: int| ShortcutArgView::Original(i as usize)),
    decreases args.len(),
{
    if args.len() > 0 {
        let rest = args.drop_last();
        assert forall|i: int| 0 <= i < rest.len() implies rest[i] != Some("start"@) by {
            assert(rest[i] == args[i]);
        }
        lemma_no_start_keeps_arguments(rest);
        assert(shortcut_run(args).1 =~= Seq::new(args.len(), |i: int| ShortcutArgView::Original(i as usize)));
    }
}

/// An option of `start` written with its value after `=` (`--project=..`,
/// `--tag=..`, `--database=..`) is never rewritten: wherever it stands, the
/// expansion keeps it as it is.
pub proof fn lemma_inline_values_kept(args: Seq<Option<Seq<char>>>, i: int)
    requires
        args.len() <= usize::MAX,
        0 <= i < args.len(),
        args[i] matches Some(t) && (has_prefix(t, "--project="@) || has_prefix(t, "--tag="@)
            || has_prefix(t, "--database="@)),
    ensures
        shortcut_run(args).1.contains(ShortcutArgView::Original(i as usize)),
    decreases args.len(),
{
    let rest = args.drop_last();
    let before = shortcut_run(rest);
    let n = args.len() - 1;
    let step = shortcut_step(before.0, args.last(), n as usize);
    assert(shortcut_run(args).1 == before.1 + step.1);
    if i == n {
        assert(args.last() == args[i]);
        assert(step.1 == seq![ShortcutArgView::Original(n as usize)]);
        assert((before.1 + step.1)[before.1.len() as int] == ShortcutArgView::Original(i as usize));
    } else {
        assert(rest[i] == args[i]);
        lemma_inline_values_kept(rest, i);
        let k = choose|k: int| 0 <= k < before.1.len() && before.1[k] == ShortcutArgView::Original(i as usize);
        assert((before.1 + step.1)[k] == ShortcutArgView::Original(i as usize));
    }
}

/// The argument list that an expansion `out` of `args` stands for: each kept
/// argument is taken from `args`, each new one is its text.
pub open spec fn expanded_texts(args: Seq<Option<Seq<char>>>, out: Seq<ShortcutArgView>) -> Seq<Option<Seq<char>>> {
    out.map_values(|a: ShortcutArgView| match a {
        ShortcutArgView::Original(i) => args[i as int],
        ShortcutArgView::Text(t) => Some(t),
    })
}

/// Every argument that an expansion keeps is one of the input's.
proof fn lemma_kept_in_range(args: Seq<Option<Seq<char>>>)
    requires
        args.len() <= usize::MAX,
    ensures
        forall|k: int| 0 <= k < shortcut_run(args).1.len() ==>
            (#[trigger] shortcut_run(args).1[k] matches ShortcutArgView::Original(i) ==> i < args.len()),
    decreases args.len(),
{
    if args.len() > 0 {
        lemma_kept_in_range(args.drop_last());
    }
}

/// Expanding an argument list that is already expanded changes nothing: it
/// keeps every argument, in order, and ends in the same state.
pub proof fn lemma_expansion_idempotent(args: Seq<Option<Seq<char>>>)
    requires
        2 * args.len() <= usize::MAX,
    ensures
        ({
            let once = expanded_texts(args, shortcut_run(args).1);
            &&& shortcut_run(once).0 == shortcut_run(args).0
            &&& shortcut_run(once).1 == Seq::new(once.len(), |j: int| ShortcutArgView::Original(j as usize))
            &&& expanded_texts(once, shortcut_run(once).1) == once
            &&& once.len() <= 2 * args.len()
        }),
    decreases args.len(),
{
    let once = expanded_texts(args, shortcut_run(args).1);
    if args.len() > 0 {
        let rest = args.drop_last();
        let x = args.last();
        let before = shortcut_run(rest);
        let step = shortcut_step(before.0, x, (args.len() - 1) as usize);
        lemma_expansion_idempotent(rest);
        lemma_kept_in_range(rest);
        let e0 = expanded_texts(rest, before.1);
        assert(expanded_texts(args, before.1) =~= e0) by {
            assert forall|k: int| 0 <= k < before.1.len() implies
                expanded_texts(args, before.1)[k] == e0[k] by {
                match before.1[k] {
                    ShortcutArgView::Original(i) => {
                        assert(args[i as int] == rest[i as int]);
                    },
                    ShortcutArgView::Text(_) => {},
                }
            }
        }
        let e1 = expanded_texts(args, step.1);
        assert(once =~= e0 + e1);
        let n0 = e0.len();
        if step.1 == seq![ShortcutArgView::Original((args.len() - 1) as usize)] {
            assert(e1 =~= seq![x]);
            assert((e0 + e1).drop_last() =~= e0);
            let again = shortcut_step(before.0, x, n0 as usize);
            assert(again.0 == step.0);
            assert(again.1 == seq![ShortcutArgView::Original(n0 as usize)]);
            assert(once.drop_last() =~= e0);
            assert(once.last() == x);
            assert(shortcut_run(once) == (again.0, shortcut_run(e0).1 + again.1));
        } else {
            let t = x->0;
            reveal_strlit("--tag");
            reveal_strlit("--");
            assert(e1 =~= seq![Some("--tag"@), Some(t.skip(2))]);
            let mid = e0.push(Some("--tag"@));
            assert((e0 + e1).drop_last() =~= mid);
            assert(mid.drop_last() =~= e0);
            assert("--tag"@ != "--"@);
            assert(!before.0.option_takes_value);
            assert(x is Some);
            assert(step.0 == before.0);
            let s1 = shortcut_step(before.0, Some("--tag"@), n0 as usize);
            assert(s1.0 == ShortcutState { option_takes_value: true, ..before.0 });
            assert(s1.1 == seq![ShortcutArgView::Original(n0 as usize)]);
            assert(shortcut_run(mid) == (s1.0, shortcut_run(e0).1 + s1.1));
            let s2 = shortcut_step(s1.0, Some(t.skip(2)), (n0 + 1) as usize);
            assert(s2.0 == before.0);
            assert(s2.1 == seq![ShortcutArgView::Original((n0 + 1) as usize)]);
            assert(once.drop_last() =~= mid);
            assert(once.last() == Some(t.skip(2)));
            assert(shortcut_run(once) == (s2.0, shortcut_run(mid).1 + s2.1));
        }
        assert(shortcut_run(once).1 =~= Seq::new(once.len(), |j: int| ShortcutArgView::Original(j as usize)));
    }
    assert(expanded_texts(once, shortcut_run(once).1) =~= once);
}


/// The project under which an entry is totalled: its project, or
/// `(no project)`.
pub open spec fn project_label(entry: TimeEntry) -> Seq<char> {
    match entry.project {
        Some(p) => p@,
        None => "(no project)"@,
    }
}

/// The seconds of all entries at `now`.
pub open spec fn elapsed_sum(entries: Seq<TimeEntry>, now: Timestamp) -> int
    decreases entries.len(),
{
    if entries.len() == 0 {
        0
    } else {
        elapsed_sum(entries.drop_last(), now) + elapsed_spec(entries.last(), now)
    }
}

/// The seconds at `now` of the entries totalled under `label`.
pub open spec fn project_sum(entries: Seq<TimeEntry>, label: Seq<char>, now: Timestamp) -> int
    decreases entries.len(),
{
    if entries.len() == 0 {
        0
    } else {
        project_sum(entries.drop_last(), label, now) + if project_label(entries.last()) == label {
            elapsed_spec(entries.last(), now)
        } else {
            0
        }
    }
}

proof fn lemma_sums_bounded(entries: Seq<TimeEntry>, label: Seq<char>, now: Timestamp)
    ensures
        0 <= project_sum(entries, label, now) <= elapsed_sum(entries, now),
    decreases entries.len(),
{
    if entries.len() > 0 {
        lemma_sums_bounded(entries.drop_last(), label, now);
    }
}

proof fn lemma_sum_prefix(entries: Seq<TimeEntry>, j: int, now: Timestamp)
    requires
        0 <= j <= entries.len(),
    ensures
        elapsed_sum(entries.take(j), now) <= elapsed_sum(entries, now),
    decreases entries.len() - j,
{
    if j < entries.len() {
        assert(entries.drop_last().take(j) =~= entries.take(j));
        lemma_sum_prefix(entries.drop_last(), j, now);
    } else {
        assert(entries.take(j) =~= entries);
    }
}

/// The total of one project in a report.
pub struct ProjectTotal {
    pub project: String,
    pub seconds: i64,
}

/// The totals that close a report: per project, listed by project name, and
/// over all entries.
pub struct ReportTotals {
    pub projects: Vec<ProjectTotal>,
    pub total: i64,
}

/// The sum of the seconds of a list of project totals.
pub open spec fn totals_sum(projects: Seq<ProjectTotal>) -> int
    decreases projects.len(),
{
    if projects.len() == 0 {
        0
    } else {
        totals_sum(projects.drop_last()) + projects.last().seconds
    }
}

proof fn lemma_totals_sum_insert(s: Seq<ProjectTotal>, p: int, x: ProjectTotal)
    requires
        0 <= p <= s.len(),
    ensures
        totals_sum(s.insert(p, x)) == totals_sum(s) + x.seconds,
    decreases s.len(),
{
    if p == s.len() {
        assert(s.insert(p, x).drop_last() =~= s);
    } else {
        assert(s.insert(p, x).drop_last() =~= s.drop_last().insert(p, x));
        lemma_totals_sum_insert(s.drop_last(), p, x);
    }
}

proof fn lemma_totals_sum_update(s: Seq<ProjectTotal>, p: int, x: ProjectTotal)
    requires
        0 <= p < s.len(),
    ensures
        totals_sum(s.update(p, x)) == totals_sum(s) - s[p].seconds + x.seconds,
    decreases s.len(),
{
    if p == s.len() - 1 {
        assert(s.update(p, x).drop_last() =~= s.drop_last());
    } else {
        assert(s.update(p, x).drop_last() =~= s.drop_last().update(p, x));
        lemma_totals_sum_update(s.drop_last(), p, x);
    }
}

/// The labels of a list of project totals.
pub open spec fn total_labels(projects: Seq<ProjectTotal>) -> Seq<Seq<char>> {
    projects.map_values(|t: ProjectTotal| t.project@)
}

/// Totals the entries' seconds at `now` per project (entries without one under
/// `(no project)`) and overall; projects are listed in byte order of their
/// names, each once.
#[verifier::spinoff_prover]
#[verifier::rlimit(40)]
pub fn report_totals(entries: &[TimeEntry], now: Timestamp) -> (res: ReportTotals)
    requires
        elapsed_sum(entries@, now) <= i64::MAX,
    ensures
        strictly_sorted(total_labels(res.projects@)),
        forall|k: int| 0 <= k < res.projects.len() ==> {
            &&& exists|i: int| 0 <= i < entries.len() && project_label(#[trigger] entries@[i]) == res.projects@[k].project@
            &&& (#[trigger] res.projects@[k]).seconds == project_sum(entries@, res.projects@[k].project@, now)
        },
        forall|i: int| 0 <= i < entries.len() ==> total_labels(res.projects@).contains(project_label(#[trigger] entries@[i])),
        res.total == elapsed_sum(entries@, now),
        res.total == totals_sum(res.projects@),
{
    let ghost all = entries@;
    let mut projects: Vec<ProjectTotal> = Vec::new();
    let mut total: i64 = 0;
    let mut i: usize = 0;
    while i < entries.len()
        invariant
            i <= entries.len(),
            all == entries@,
            elapsed_sum(all, now) <= i64::MAX,
            total == elapsed_sum(all.take(i as int), now),
            total == totals_sum(projects@),
            strictly_sorted(total_labels(projects@)),
            forall|k: int| 0 <= k < projects.len() ==> {
                &&& exists|j: int| 0 <= j < i && project_label(#[trigger] all[j]) == projects@[k].project@
                &&& (#[trigger] projects@[k]).seconds == project_sum(all.take(i as int), projects@[k].project@, now)
            },
            forall|j: int| 0 <= j < i ==> total_labels(projects@).contains(project_label(#[trigger] all[j])),
            forall|l: Seq<char>| !total_labels(projects@).contains(l) ==> project_sum(all.take(i as int), l, now) == 0,
        decreases entries.len() - i,
    {
        let entry = &entries[i];
        let elapsed = entry.elapsed_seconds_at(now);
        let label = match &entry.project {
            Some(p) => p.clone(),
            None => owned("(no project)"),
        };
        let ghost prefix = all.take(i as int);
        let ghost next = all.take(i + 1);
        proof {
            assert(next.drop_last() =~= prefix);
            assert(next.last() == all[i as int]);
            lemma_sum_prefix(all, i + 1, now);
            assert(elapsed_sum(next, now) == total + elapsed);
            assert forall|l: Seq<char>| project_sum(next, l, now) <= elapsed_sum(next, now) by {
                lemma_sums_bounded(next, l, now);
            }
        }
        total = total + elapsed;
        let ghost before = projects@;
        let mut p: usize = 0;
        while p < projects.len() && bytes_less(projects[p].project.as_str().as_bytes(), label.as_str().as_bytes())
            invariant
                p <= projects.len(),
                before == projects@,
                forall|k: int| 0 <= k < p ==> bytes_lt(encode_utf8((#[trigger] before[k]).project@), encode_utf8(label@)),
            decreases projects.len() - p,
        {
            p = p + 1;
        }
        if p < projects.len() && same_text(projects[p].project.as_str(), label.as_str()) {
            let old_seconds = projects[p].seconds;
            proof {
                lemma_sums_bounded(next, label@, now);
            }
            let updated = ProjectTotal { project: label, seconds: old_seconds + elapsed };
            projects.set(p, updated);
            proof {
                let after = projects@;
                lemma_totals_sum_update(before, p as int, after[p as int]);
                assert(after =~= before.update(p as int, after[p as int]));
                assert(total_labels(after) =~= total_labels(before));
                assert forall|k: int| 0 <= k < after.len() implies {
                    &&& exists|j: int| 0 <= j < i + 1 && project_label(#[trigger] all[j]) == after[k].project@
                    &&& (#[trigger] after[k]).seconds == project_sum(next, after[k].project@, now)
                } by {
                    if k == p {
                        assert(project_label(all[i as int]) == after[k].project@);
                    } else {
                        assert(after[k] == before[k]);
                        let lk = before[k].project@;
                        let j = choose|j: int| 0 <= j < i && project_label(#[trigger] all[j]) == lk;
                        assert(0 <= j < i + 1 && project_label(all[j]) == lk);
                        assert(total_labels(before)[k] == lk);
                        assert(total_labels(before)[p as int] == label@);
                        if lk == label@ {
                            if k < p {
                                crate::text::lemma_bytes_lt_irreflexive(encode_utf8(lk));
                            } else {
                                crate::text::lemma_bytes_lt_irreflexive(encode_utf8(lk));
                            }
                        }
                    }
                }
                assert forall|j: int| 0 <= j < i + 1 implies total_labels(after).contains(project_label(#[trigger] all[j])) by {
                    if j == i {
                        assert(total_labels(after)[p as int] == label@);
                    }
                }
                assert forall|l: Seq<char>| !total_labels(after).contains(l) implies project_sum(next, l, now) == 0 by {
                    if l == label@ {
                        assert(total_labels(after)[p as int] == label@);
                    }
                }
            }
        } else {
            proof {
                if p < projects.len() {
                    if encode_utf8(before[p as int].project@) == encode_utf8(label@) {
                        encode_utf8_decode_utf8(before[p as int].project@);
                        encode_utf8_decode_utf8(label@);
                    }
                    lemma_bytes_lt_total(encode_utf8(before[p as int].project@), encode_utf8(label@));
                }
                assert(!total_labels(before).contains(label@)) by {
                    if total_labels(before).contains(label@) {
                        let w = choose|w: int| 0 <= w < total_labels(before).len() && total_labels(before)[w] == label@;
                        if w < p {
                            crate::text::lemma_bytes_lt_irreflexive(encode_utf8(label@));
                        } else if w > p {
                            assert(total_labels(before)[p as int] == before[p as int].project@);
                            crate::text::lemma_bytes_lt_asymmetric(encode_utf8(label@), encode_utf8(before[p as int].project@));
                            lemma_bytes_lt_transitive(encode_utf8(label@), encode_utf8(before[p as int].project@), encode_utf8(label@));
                            crate::text::lemma_bytes_lt_irreflexive(encode_utf8(label@));
                        }
                    }
                }
                assert(project_sum(prefix, label@, now) == 0);
            }
            projects.insert(p, ProjectTotal { project: label, seconds: elapsed });
            proof {
                let after = projects@;
                assert(after =~= before.insert(p as int, after[p as int]));
                lemma_totals_sum_insert(before, p as int, after[p as int]);
                assert(total_labels(after) =~= total_labels(before).insert(p as int, label@));
                let la = total_labels(after);
                let lb = total_labels(before);
                assert forall|a: int, b: int| 0 <= a < b < la.len() implies bytes_lt(encode_utf8(#[trigger] la[a]), encode_utf8(#[trigger] la[b])) by {
                    if b < p {
                        assert(la[a] == lb[a] && la[b] == lb[b]);
                    } else if a < p && b == p {
                        assert(la[a] == lb[a]);
                        assert(lb[a] == before[a].project@);
                    } else if a < p && b > p {
                        assert(la[a] == lb[a] && la[b] == lb[b - 1]);
                        assert(lb[a] == before[a].project@);
                        assert(lb[p as int] == before[p as int].project@);
                        lemma_bytes_lt_transitive(encode_utf8(lb[a]), encode_utf8(label@), encode_utf8(lb[p as int]));
                        if b - 1 > p {
                            lemma_bytes_lt_transitive(encode_utf8(lb[a]), encode_utf8(lb[p as int]), encode_utf8(lb[b - 1]));
                        }
                    } else if a == p {
                        assert(la[b] == lb[b - 1]);
                        assert(lb[p as int] == before[p as int].project@);
                        if b - 1 > p {
                            lemma_bytes_lt_transitive(encode_utf8(label@), encode_utf8(lb[p as int]), encode_utf8(lb[b - 1]));
                        }
                    } else {
                        assert(la[a] == lb[a - 1] && la[b] == lb[b - 1]);
                    }
                }
                assert forall|k: int| 0 <= k < after.len() implies {
                    &&& exists|j: int| 0 <= j < i + 1 && project_label(#[trigger] all[j]) == after[k].project@
                    &&& (#[trigger] after[k]).seconds == project_sum(next, after[k].project@, now)
                } by {
                    if k == p {
                        assert(project_label(all[i as int]) == after[k].project@);
                    } else {
                        let q = if k < p { k } else { k - 1 };
                        assert(after[k] == before[q]);
                        let lk = before[q].project@;
                        let j = choose|j: int| 0 <= j < i && project_label(#[trigger] all[j]) == lk;
                        assert(0 <= j < i + 1 && project_label(all[j]) == lk);
                        assert(lb[q] == lk);
                        assert(lk != label@);
                    }
                }
                assert forall|j: int| 0 <= j < i + 1 implies la.contains(project_label(#[trigger] all[j])) by {
                    if j == i {
                        assert(la[p as int] == label@);
                    } else {
                        let w = choose|w: int| 0 <= w < lb.len() && lb[w] == project_label(all[j]);
                        if w < p {
                            assert(la[w] == lb[w]);
                        } else {
                            assert(la[w + 1] == lb[w]);
                        }
                    }
                }
                assert forall|l: Seq<char>| !la.contains(l) implies project_sum(next, l, now) == 0 by {
                    if l == label@ {
                        assert(la[p as int] == label@);
                    } else if lb.contains(l) {
                        let w = choose|w: int| 0 <= w < lb.len() && lb[w] == l;
                        if w < p {
                            assert(la[w] == lb[w]);
                        } else {
                            assert(la[w + 1] == lb[w]);
                        }
                    }
                }
            }
        }
        i = i + 1;
    }
    assert(all.take(entries.len() as int) =~= all);
    ReportTotals { projects, total }
}

} // verus!
