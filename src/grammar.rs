//! Findings of the remote grammar checker: the normalised record of one
//! finding, the mapping from the service's response, and their presentation.
use vstd::prelude::*;
use owo_colors::colors::{BrightBlue, BrightCyan, White};
use owo_colors::OwoColorize;

verus! {

/// Endpoint used when no other is configured.
pub const DEFAULT_CHECK_URL: &'static str = "https://api.languagetoolplus.com/v2/check";

/// Most replacement suggestions kept for one finding.
pub const MAX_REPLACEMENTS: usize = 5;

/// One finding of the remote service, scoped to one segment. The offsets
/// locate the offending span inside `text` (the context window), not inside
/// the document.
pub struct CheckResult {
    pub context_length: u32,
    pub context_offset: u32,
    pub message: String,
    pub sentence: String,
    pub short_message: String,
    pub text: String,
    pub replacements: Vec<String>,
    pub rule_description: String,
}

/// One entry of the service's `matches` list, as plain values.
pub struct ResponseMatch {
    pub message: String,
    pub short_message: String,
    pub replacements: Vec<String>,
    pub offset: u32,
    pub length: u32,
    pub context_text: String,
    pub context_offset: u32,
    pub context_length: u32,
    pub sentence: String,
    pub rule_id: String,
    pub rule_description: String,
    pub rule_issue_type: String,
    pub rule_category_id: String,
    pub rule_category_name: String,
    pub rule_is_premium: bool,
    pub match_type_name: String,
}

/// How many suggestions are kept out of `n`.
pub open spec fn kept_replacements(n: int) -> int {
    if n < MAX_REPLACEMENTS {
        n
    } else {
        MAX_REPLACEMENTS as int
    }
}

/// `r` is the normalised form of the service's finding `m`: the context window
/// and span, the messages, the sentence and the rule description are carried
/// over, and the suggestions are cut to their first `MAX_REPLACEMENTS`, in order.
pub open spec fn normalises(m: ResponseMatch, r: CheckResult) -> bool {
    &&& r.context_length == m.context_length
    &&& r.context_offset == m.context_offset
    &&& r.message@ == m.message@
    &&& r.sentence@ == m.sentence@
    &&& r.short_message@ == m.short_message@
    &&& r.text@ == m.context_text@
    &&& r.rule_description@ == m.rule_description@
    &&& r.replacements@ == m.replacements@.take(kept_replacements(m.replacements@.len() as int))
}

/// ANSI foreground codes used by the presentation.
pub open spec fn bright_blue_code() -> Seq<char> {
    seq!['9', '4']
}

pub open spec fn bright_cyan_code() -> Seq<char> {
    seq!['9', '6']
}

pub open spec fn white_code() -> Seq<char> {
    seq!['3', '7']
}

/// `s` shown in the foreground colour with ANSI code `code`, then the default
/// foreground restored.
pub open spec fn painted(code: Seq<char>, s: Seq<char>) -> Seq<char> {
    seq!['\u{1b}', '['] + code + seq!['m'] + s + seq!['\u{1b}', '[', '3', '9', 'm']
}

/// Relies on owo_colors' `fg::<BrightBlue>()`, whose display writes
/// `ESC[94m`, the text, then `ESC[39m`.
#[verifier::external_body]
fn paint_bright_blue(s: &str) -> (r: String)
    ensures
        r@ == painted(bright_blue_code(), s@),
{
    s.fg::<BrightBlue>().to_string()
}

/// Relies on owo_colors' `fg::<BrightCyan>()`, whose display writes
/// `ESC[96m`, the text, then `ESC[39m`.
#[verifier::external_body]
fn paint_bright_cyan(s: &str) -> (r: String)
    ensures
        r@ == painted(bright_cyan_code(), s@),
{
    s.fg::<BrightCyan>().to_string()
}

/// Relies on owo_colors' `fg::<White>()`, whose display writes `ESC[37m`,
/// the text, then `ESC[39m`.
#[verifier::external_body]
fn paint_white(s: &str) -> (r: String)
    ensures
        r@ == painted(white_code(), s@),
{
    s.fg::<White>().to_string()
}

/// The context window with the offending span highlighted.
pub open spec fn highlighted_context(r: CheckResult) -> Seq<char> {
    let t = r.text@;
    let start = r.context_offset as int;
    let end = start + r.context_length as int;
    t.subrange(0, start) + painted(bright_blue_code(), t.subrange(start, end)) + t.subrange(
        end,
        t.len() as int,
    )
}

/// One listed suggestion.
pub open spec fn replacement_line(value: Seq<char>) -> Seq<char> {
    "        "@ + painted(white_code(), "-"@) + " "@ + painted(bright_cyan_code(), value) + "\n"@
}

/// The listed suggestions, one line each, in order.
pub open spec fn replacement_lines(values: Seq<String>) -> Seq<char>
    decreases values.len(),
{
    if values.len() == 0 {
        Seq::empty()
    } else {
        replacement_lines(values.drop_last()) + replacement_line(values.last()@)
    }
}

impl CheckResult {
    /// The span lies inside the context window.
    pub open spec fn span_in_bounds(&self) -> bool {
        self.context_offset as int + self.context_length as int <= self.text@.len()
    }

    /// Whether the span lies inside the context window.
    pub fn has_valid_span(&self) -> (r: bool)
        ensures
            r == self.span_in_bounds(),
    {
        (self.context_offset as u64) + (self.context_length as u64) <= self.text.as_str().unicode_len() as u64
    }

    /// The context window, with the offending span shown in bright blue.
    pub fn context(&self) -> (r: String)
        requires
            self.span_in_bounds(),
        ensures
            r@ == highlighted_context(*self),
    {
        let t = self.text.as_str();
        let n = t.unicode_len();
        let start = self.context_offset as usize;
        let end = start + self.context_length as usize;
        let mut out = String::from_str(t.substring_char(0, start));
        let marked = paint_bright_blue(t.substring_char(start, end));
        out.append(marked.as_str());
        out.append(t.substring_char(end, n));
        proof {
            assert(out@ =~= highlighted_context(*self));
        }
        out
    }

    pub fn message(&self) -> (r: &str)
        ensures
            r@ == self.message@,
    {
        self.message.as_str()
    }

    /// The suggestions as an indented list, or `None` when there are none.
    pub fn replacements_string(&self) -> (r: Option<String>)
        ensures
            self.replacements@.len() == 0 <==> r is None,
            r matches Some(s) ==> s@ == replacement_lines(self.replacements@),
    {
        if self.replacements.len() == 0 {
            return None;
        }
        let mut out = String::new();
        let mut i: usize = 0;
        while i < self.replacements.len()
            invariant
                i <= self.replacements@.len(),
                out@ == replacement_lines(self.replacements@.take(i as int)),
            decreases self.replacements@.len() - i,
        {
            let dash = paint_white("-");
            let value = paint_bright_cyan(self.replacements[i].as_str());
            let ghost before = out@;
            out.append("        ");
            out.append(dash.as_str());
            out.append(" ");
            out.append(value.as_str());
            out.append("\n");
            proof {
                let next = self.replacements@.take(i + 1);
                assert(next.drop_last() =~= self.replacements@.take(i as int));
                assert(out@ =~= before + replacement_line(self.replacements@[i as int]@));
            }
            i = i + 1;
        }
        proof {
            assert(self.replacements@.take(i as int) =~= self.replacements@);
        }
        Some(out)
    }

    pub fn sentence(&self) -> (r: &str)
        ensures
            r@ == self.sentence@,
    {
        self.sentence.as_str()
    }

    pub fn short_message(&self) -> (r: &str)
        ensures
            r@ == self.short_message@,
    {
        self.short_message.as_str()
    }

    pub fn rule_description(&self) -> (r: &str)
        ensures
            r@ == self.rule_description@,
    {
        self.rule_description.as_str()
    }
}

fn clone_strings(values: &Vec<String>, count: usize) -> (r: Vec<String>)
    requires
        count <= values.len(),
    ensures
        r@ == values@.take(count as int),
{
    let mut out: Vec<String> = Vec::new();
    let mut i: usize = 0;
    while i < count
        invariant
            i <= count,
            count <= values.len(),
            out@ == values@.take(i as int),
        decreases count - i,
    {
        out.push(values[i].clone());
        proof {
            assert(out@ =~= values@.take(i + 1));
        }
        i = i + 1;
    }
    out
}

/// Normalises one finding of the service.
pub fn check_result_from(m: &ResponseMatch) -> (r: CheckResult)
    ensures
        normalises(*m, r),
{
    let count = if m.replacements.len() < MAX_REPLACEMENTS {
        m.replacements.len()
    } else {
        MAX_REPLACEMENTS
    };
    CheckResult {
        context_length: m.context_length,
        context_offset: m.context_offset,
        message: m.message.clone(),
        sentence: m.sentence.clone(),
        short_message: m.short_message.clone(),
        text: m.context_text.clone(),
        replacements: clone_strings(&m.replacements, count),
        rule_description: m.rule_description.clone(),
    }
}

/// Appends to `results` the normalised form of each finding of a response, in
/// the response's order.
pub fn process_language_tools_results(matches: &Vec<ResponseMatch>, results: &mut Vec<CheckResult>)
    ensures
        final(results)@.len() == old(results)@.len() + matches@.len(),
        final(results)@.take(old(results)@.len() as int) == old(results)@,
        forall|i: int|
            0 <= i < matches@.len() ==> normalises(
                #[trigger] matches@[i],
                final(results)@[old(results)@.len() + i],
            ),
{
    let ghost start = results@;
    let mut i: usize = 0;
    while i < matches.len()
        invariant
            i <= matches@.len(),
            results@.len() == start.len() + i,
            results@.take(start.len() as int) == start,
            forall|j: int|
                0 <= j < i ==> normalises(#[trigger] matches@[j], results@[start.len() + j]),
        decreases matches@.len() - i,
    {
        let r = check_result_from(&matches[i]);
        let ghost before = results@;
        results.push(r);
        proof {
            assert(results@.take(start.len() as int) =~= before.take(start.len() as int));
            assert forall|j: int| 0 <= j < i + 1 implies normalises(
                #[trigger] matches@[j],
                results@[start.len() + j],
            ) by {
                if j < i {
                    assert(results@[start.len() + j] == before[start.len() + j]);
                }
            }
        }
        i = i + 1;
    }
}

/// Client settings for the remote grammar service.
pub struct Checker<'a> {
    url: &'a str,
}

impl<'a> View for Checker<'a> {
    /// The endpoint.
    type V = Seq<char>;

    closed spec fn view(&self) -> Seq<char> {
        self.url@
    }
}

impl<'a> Checker<'a> {
    /// A checker for the given endpoint, or for `DEFAULT_CHECK_URL`.
    pub fn new(url: Option<&'a str>) -> (r: Checker<'a>)
        ensures
            r@ == match url {
                Some(value) => value@,
                None => DEFAULT_CHECK_URL@,
            },
    {
        let actual_url: &'a str = match url {
            Some(value) => value,
            None => DEFAULT_CHECK_URL,
        };
        Checker { url: actual_url }
    }

    /// The endpoint requests are posted to.
    pub fn url(&self) -> (r: &'a str)
        ensures
            r@ == self@,
    {
        self.url
    }

    /// The form fields posted to check one segment: the text, the target
    /// language and the strictness level.
    pub fn form_fields<'b>(text: &'b str) -> (r: Vec<(&'b str, &'b str)>)
        ensures
            r@.len() == 3,
            r@[0].0@ == "text"@ && r@[0].1@ == text@,
            r@[1].0@ == "language"@ && r@[1].1@ == "en-GB"@,
            r@[2].0@ == "level"@ && r@[2].1@ == "picky"@,
    {
        let mut fields: Vec<(&'b str, &'b str)> = Vec::new();
        fields.push(("text", text));
        fields.push(("language", "en-GB"));
        fields.push(("level", "picky"));
        fields
    }
}

/// Header of the report on one finding: where it is and its short message.
pub open spec fn entry_header(r: CheckResult, path: Seq<char>) -> Seq<char> {
    "\n\n  * "@ + path + " / line "@ + painted(white_code(), "("@) + painted(
        bright_cyan_code(),
        r.short_message@,
    ) + painted(white_code(), ")"@) + ":\n"@
}

/// The rule and the highlighted context of one finding.
pub open spec fn entry_context(r: CheckResult) -> Seq<char> {
    "    "@ + r.rule_description@ + "\n"@ + "\n    "@ + highlighted_context(r) + "\n\n"@
}

/// The suggestions of one finding, if it has any.
pub open spec fn entry_suggestions(r: CheckResult) -> Seq<char> {
    if r.replacements@.len() == 0 {
        Seq::empty()
    } else {
        "    replacements:\n\n"@ + replacement_lines(r.replacements@) + "\n"@
    }
}

/// The sentence and the message of one finding.
pub open spec fn entry_sentence(r: CheckResult) -> Seq<char> {
    "    "@ + painted(white_code(), r.sentence@) + "\n"@ + "\n    "@ + painted(
        bright_blue_code(),
        r.message@,
    ) + "\n\n\n"@
}

/// The report on one finding in the document at `path`.
pub open spec fn report_entry(r: CheckResult, path: Seq<char>) -> Seq<char> {
    entry_header(r, path) + entry_context(r) + entry_suggestions(r) + entry_sentence(r)
}

/// The report on all findings, in order.
pub open spec fn report(results: Seq<CheckResult>, path: Seq<char>) -> Seq<char>
    decreases results.len(),
{
    if results.len() == 0 {
        Seq::empty()
    } else {
        report(results.drop_last(), path) + report_entry(results.last(), path)
    }
}

fn render_header(r: &CheckResult, path: &str, out: &mut String)
    ensures
        final(out)@ == old(out)@ + entry_header(*r, path@),
{
    let ghost start = out@;
    out.append("\n\n  * ");
    out.append(path);
    out.append(" / line ");
    let open = paint_white("(");
    out.append(open.as_str());
    let short = paint_bright_cyan(r.short_message.as_str());
    out.append(short.as_str());
    let close = paint_white(")");
    out.append(close.as_str());
    out.append(":\n");
    proof {
        assert(out@ =~= start + entry_header(*r, path@));
    }
}

fn render_context(r: &CheckResult, out: &mut String)
    requires
        r.span_in_bounds(),
    ensures
        final(out)@ == old(out)@ + entry_context(*r),
{
    let ghost start = out@;
    out.append("    ");
    out.append(r.rule_description.as_str());
    out.append("\n");
    out.append("\n    ");
    let context = r.context();
    out.append(context.as_str());
    out.append("\n\n");
    proof {
        assert(out@ =~= start + entry_context(*r));
    }
}

fn render_suggestions(r: &CheckResult, out: &mut String)
    ensures
        final(out)@ == old(out)@ + entry_suggestions(*r),
{
    let ghost start = out@;
    match r.replacements_string() {
        Some(value) => {
            out.append("    replacements:\n\n");
            out.append(value.as_str());
            out.append("\n");
        },
        None => {},
    }
    proof {
        assert(out@ =~= start + entry_suggestions(*r));
    }
}

fn render_sentence(r: &CheckResult, out: &mut String)
    ensures
        final(out)@ == old(out)@ + entry_sentence(*r),
{
    let ghost start = out@;
    out.append("    ");
    let sentence = paint_white(r.sentence.as_str());
    out.append(sentence.as_str());
    out.append("\n");
    out.append("\n    ");
    let message = paint_bright_blue(r.message.as_str());
    out.append(message.as_str());
    out.append("\n\n\n");
    proof {
        assert(out@ =~= start + entry_sentence(*r));
    }
}

fn render_entry(r: &CheckResult, path: &str, out: &mut String)
    requires
        r.span_in_bounds(),
    ensures
        final(out)@ == old(out)@ + report_entry(*r, path@),
{
    let ghost start = out@;
    render_header(r, path, out);
    render_context(r, out);
    render_suggestions(r, out);
    render_sentence(r, out);
    proof {
        assert(out@ =~= start + report_entry(*r, path@));
    }
}

/// The report on all findings of a document, each with its rule, its context
/// with the span highlighted, its suggestions, its sentence and its message.
pub fn display_grammar_check_results(results: &Vec<CheckResult>, path: &str) -> (r: String)
    requires
        forall|i: int| 0 <= i < results@.len() ==> (#[trigger] results@[i]).span_in_bounds(),
    ensures
        r@ == report(results@, path@),
{
    let mut out = String::new();
    let mut i: usize = 0;
    while i < results.len()
        invariant
            i <= results@.len(),
            forall|j: int| 0 <= j < results@.len() ==> (#[trigger] results@[j]).span_in_bounds(),
            out@ == report(results@.take(i as int), path@),
        decreases results@.len() - i,
    {
        render_entry(&results[i], path, &mut out);
        proof {
            assert(results@.take(i + 1).drop_last() =~= results@.take(i as int));
        }
        i = i + 1;
    }
    proof {
        assert(results@.take(i as int) =~= results@);
    }
    out
}

} // verus!
