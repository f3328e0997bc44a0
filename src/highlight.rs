use crate::color::{ansi_of, decimal, push_decimal, reset, reset_seq};
use crate::rules::{rules_view, Rule, RuleView};
use regex::{Regex, RegexBuilder};
use vstd::prelude::*;

verus! {

#[verifier::external_type_specification]
#[verifier::external_body]
pub struct ExRegex(Regex);

#[verifier::external_type_specification]
#[verifier::external_body]
pub struct ExRegexError(regex::Error);

/// What `regex::escape` makes of a text: the text with every meta character
/// preceded by a backslash.
pub uninterp spec fn escape_of(s: Seq<char>) -> Seq<char>;

/// Whether a pattern compiles under the engine's flags (multi-line anchors, a
/// dot that stops at line ends, and the given case insensitivity).
pub uninterp spec fn pattern_compiles(pattern: Seq<char>, ignore_case: bool) -> bool;

/// The successive non-overlapping leftmost-first matches of a compiled pattern
/// on a line: for each, the text since the previous match, the matched text and,
/// for each group name, whether that group took part; then the text after the
/// last match.
pub uninterp spec fn scan_of(
    pattern: Seq<char>,
    ignore_case: bool,
    names: Seq<Seq<char>>,
    line: Seq<char>,
) -> (Seq<(Seq<char>, Seq<char>, Seq<bool>)>, Seq<char>);

/// Relies on `regex::escape`: the text with the regex meta characters escaped.
#[verifier::external_body]
fn escape_text(s: &str) -> (r: String)
    ensures
        r@ == escape_of(s@),
        s@.len() == 0 ==> r@.len() == 0,
{
    regex::escape(s)
}

/// Relies on `RegexBuilder::build`: compiles the pattern with the engine's flags,
/// failing exactly on the patterns that do not compile.
#[verifier::external_body]
fn build_regex(pattern: &str, ignore_case: bool) -> (r: Result<Regex, regex::Error>)
    ensures
        r is Ok <==> pattern_compiles(pattern@, ignore_case),
{
    RegexBuilder::new(pattern).case_insensitive(ignore_case).multi_line(true).dot_matches_new_line(
        false,
    ).build()
}

/// Relies on the `Display` of `regex::Error`: a message for the failure.
#[verifier::external_body]
fn error_message(e: &regex::Error) -> (r: String) {
    e.to_string()
}

/// A line cut at the matches that a scan found.
pub type ScanView = (Seq<(Seq<char>, Seq<char>, Seq<bool>)>, Seq<char>);

/// One match of a scan: the unmatched text before it, the matched text, and for
/// each rule whether that rule's alternative took part.
#[derive(Debug)]
pub struct LineMatch {
    pub gap: String,
    pub text: String,
    pub hits: Vec<bool>,
}

impl View for LineMatch {
    type V = (Seq<char>, Seq<char>, Seq<bool>);

    open spec fn view(&self) -> (Seq<char>, Seq<char>, Seq<bool>) {
        (self.gap@, self.text@, self.hits@)
    }
}

/// The views of a list of matches.
pub open spec fn matches_view(ms: Seq<LineMatch>) -> Seq<(Seq<char>, Seq<char>, Seq<bool>)> {
    ms.map_values(|m: LineMatch| m@)
}

/// The views of a list of strings.
pub open spec fn strings_view(v: Seq<String>) -> Seq<Seq<char>> {
    v.map_values(|s: String| s@)
}

/// The text that the first `k` matches cover, gaps included.
pub open spec fn covered(ms: Seq<(Seq<char>, Seq<char>, Seq<bool>)>, k: int) -> Seq<char>
    decreases k,
{
    if k <= 0 {
        Seq::empty()
    } else {
        covered(ms, k - 1) + ms[k - 1].0 + ms[k - 1].1
    }
}

/// A scan cuts `line` into gaps, matches and a tail, in order, with nothing
/// left out and nothing repeated.
pub open spec fn cuts(s: ScanView, line: Seq<char>) -> bool {
    covered(s.0, s.0.len() as int) + s.1 == line
}

/// The index of the first `true` at `j` or after, if any.
pub open spec fn first_hit_from(hits: Seq<bool>, j: int) -> Option<nat>
    decreases hits.len() - j,
{
    if j < 0 || j >= hits.len() {
        None
    } else if hits[j] {
        Some(j as nat)
    } else {
        first_hit_from(hits, j + 1)
    }
}

/// The index of the first `true`, if any.
pub open spec fn first_hit(hits: Seq<bool>) -> Option<nat> {
    first_hit_from(hits, 0)
}

/// How one match is shown: its gap as it is, then the matched text between the
/// winning rule's color and one reset. A match that names no rule is shown as
/// it is.
pub open spec fn render_match(m: (Seq<char>, Seq<char>, Seq<bool>), colors: Seq<Seq<char>>) -> Seq<
    char,
> {
    m.0 + match first_hit(m.2) {
        Some(i) => if i < colors.len() {
            colors[i as int] + m.1 + reset_seq()
        } else {
            m.1
        },
        None => m.1,
    }
}

/// How the first `k` matches are shown.
pub open spec fn render_prefix(
    ms: Seq<(Seq<char>, Seq<char>, Seq<bool>)>,
    colors: Seq<Seq<char>>,
    k: int,
) -> Seq<char>
    decreases k,
{
    if k <= 0 {
        Seq::empty()
    } else {
        render_prefix(ms, colors, k - 1) + render_match(ms[k - 1], colors)
    }
}

/// How a scanned line is shown: each match in turn, then the tail as it is.
pub open spec fn rendered(s: ScanView, colors: Seq<Seq<char>>) -> Seq<char> {
    render_prefix(s.0, colors, s.0.len() as int) + s.1
}

/// The name of the group that holds rule `i`'s alternative.
pub open spec fn group_name(i: nat) -> Seq<char> {
    seq!['r'] + decimal(i)
}

/// The names of the groups of `n` rules, in rule order.
pub open spec fn group_names(n: nat) -> Seq<Seq<char>> {
    Seq::new(n, |i: int| group_name(i as nat))
}

/// The text that rule `r` contributes to the composite pattern: a keyword is
/// escaped to match verbatim, a regex goes in as written.
pub open spec fn rule_pattern(r: RuleView) -> Seq<char> {
    if r.is_regex {
        r.keyword
    } else {
        escape_of(r.keyword)
    }
}

/// The alternative of rule `i`: its pattern in a group named after the rule.
pub open spec fn alternative(r: RuleView, i: nat) -> Seq<char> {
    seq!['(', '?', 'P', '<'] + group_name(i) + seq!['>'] + rule_pattern(r) + seq![')']
}

/// The composite pattern of the first `k` rules: their alternatives, in rule
/// order, joined by `|`.
pub open spec fn composite_prefix(rs: Seq<RuleView>, k: int) -> Seq<char>
    decreases k,
{
    if k <= 0 {
        Seq::empty()
    } else if k == 1 {
        alternative(rs[0], 0)
    } else {
        composite_prefix(rs, k - 1) + seq!['|'] + alternative(rs[k - 1], (k - 1) as nat)
    }
}

/// The composite pattern of a rule list.
pub open spec fn composite_pattern(rs: Seq<RuleView>) -> Seq<char> {
    composite_prefix(rs, rs.len() as int)
}

/// The color sequences of a rule list, index-aligned with the rules.
pub open spec fn rule_colors(rs: Seq<RuleView>) -> Seq<Seq<char>> {
    Seq::new(rs.len(), |i: int| ansi_of(rs[i].color))
}

/// A rule list that did not compile into one pattern.
#[derive(Debug)]
pub struct CompileError {
    pub message: String,
}

/// What an engine was compiled from.
pub struct EngineView {
    pub pattern: Seq<char>,
    pub ignore_case: bool,
    pub names: Seq<Seq<char>>,
    pub colors: Seq<Seq<char>>,
}

/// The compiled rules: one regex made of every rule's alternative, and the
/// color of each rule, index-aligned with the alternatives.
///
/// The fields are private and `new` is the only constructor, so `regex` is
/// always the compilation of `pattern` under `ignore_case`.
pub struct HighlightingEngine {
    regex: Regex,
    pattern: String,
    ignore_case: bool,
    names: Vec<String>,
    ansi_colors: Vec<String>,
}

impl View for HighlightingEngine {
    type V = EngineView;

    closed spec fn view(&self) -> EngineView {
        EngineView {
            pattern: self.pattern@,
            ignore_case: self.ignore_case,
            names: strings_view(self.names@),
            colors: strings_view(self.ansi_colors@),
        }
    }
}

/// A line on which a scan found no match is shown exactly as it is.
pub proof fn lemma_no_match_unchanged(s: ScanView, colors: Seq<Seq<char>>, line: Seq<char>)
    requires
        s.0.len() == 0,
        cuts(s, line),
    ensures
        rendered(s, colors) == line,
{
    assert(covered(s.0, 0) + s.1 =~= s.1);
    assert(render_prefix(s.0, colors, 0) + s.1 =~= s.1);
}

/// The index of the first `true`, if any.
fn first_true(hits: &Vec<bool>) -> (r: Option<usize>)
    ensures
        match r {
            Some(i) => first_hit(hits@) == Some(i as nat),
            None => first_hit(hits@) is None,
        },
{
    let mut j: usize = 0;
    while j < hits.len()
        invariant
            j <= hits@.len(),
            first_hit(hits@) == first_hit_from(hits@, j as int),
        decreases hits@.len() - j,
    {
        if hits[j] {
            return Some(j);
        }
        j = j + 1;
    }
    None
}

/// Renders a line from the matches found on it and the text after the last one:
/// each gap as it is, each matched text between its rule's color and a reset,
/// then the tail. `output` is cleared first.
pub fn render_scan(matches: &Vec<LineMatch>, tail: &str, colors: &Vec<String>, output: &mut String)
    ensures
        final(output)@ == rendered((matches_view(matches@), tail@), strings_view(colors@)),
{
    let ghost mv = matches_view(matches@);
    let ghost cv = strings_view(colors@);
    *output = String::new();
    let rst = reset();
    let mut k: usize = 0;
    while k < matches.len()
        invariant
            k <= matches@.len(),
            mv == matches_view(matches@),
            cv == strings_view(colors@),
            rst@ == reset_seq(),
            output@ == render_prefix(mv, cv, k as int),
        decreases matches@.len() - k,
    {
        let m = &matches[k];
        let ghost before = output@;
        output.append(m.gap.as_str());
        match first_true(&m.hits) {
            Some(i) => {
                if i < colors.len() {
                    output.append(colors[i].as_str());
                    output.append(m.text.as_str());
                    output.append(rst.as_str());
                } else {
                    output.append(m.text.as_str());
                }
            },
            None => {
                output.append(m.text.as_str());
            },
        }
        assert(mv[k as int] == m@);
        assert(output@ =~= before + render_match(mv[k as int], cv));
        k = k + 1;
    }
    output.append(tail);
}

impl HighlightingEngine {
    /// Relies on `Regex::captures_iter`, `Captures::get` and `Captures::name`:
    /// the successive non-overlapping matches of the engine's regex on `line`,
    /// each with the text before it and, per group name, whether it took part.
    #[verifier::external_body]
    fn scan(&self, line: &str) -> (r: (Vec<LineMatch>, String))
        ensures
            (matches_view(r.0@), r.1@) == scan_of(
                self@.pattern,
                self@.ignore_case,
                self@.names,
                line@,
            ),
            cuts((matches_view(r.0@), r.1@), line@),
            forall|k: int| 0 <= k < r.0@.len() ==> r.0@[k].hits@.len() == self@.names.len(),
    {
        let mut found = Vec::new();
        let mut last: usize = 0;
        for caps in self.regex.captures_iter(line) {
            let m = caps.get(0).unwrap();
            let hits = self.names.iter().map(|n| caps.name(n).is_some()).collect();
            let gap = line[last..m.start()].to_string();
            found.push(LineMatch { gap, text: m.as_str().to_string(), hits });
            last = m.end();
        }
        (found, line[last..].to_string())
    }

    /// Compiles the rules into one pattern, in rule order, so that at a given
    /// position the earliest rule that matches wins; fails when the pattern does
    /// not compile.
    pub fn new(rules: &[Rule], ignore_case: bool) -> (r: Result<HighlightingEngine, CompileError>)
        ensures
            r is Ok <==> pattern_compiles(composite_pattern(rules_view(rules@)), ignore_case),
            r matches Ok(e) ==> e@ == (EngineView {
                pattern: composite_pattern(rules_view(rules@)),
                ignore_case,
                names: group_names(rules@.len()),
                colors: rule_colors(rules_view(rules@)),
            }),
    {
        let ghost rv = rules_view(rules@);
        let mut pattern = String::new();
        let mut names: Vec<String> = Vec::new();
        let mut colors: Vec<String> = Vec::new();
        let mut i: usize = 0;
        while i < rules.len()
            invariant
                i <= rules@.len(),
                rv == rules_view(rules@),
                pattern@ == composite_prefix(rv, i as int),
                strings_view(names@) =~= group_names(i as nat),
                strings_view(colors@) =~= rule_colors(rv.subrange(0, i as int)),
            decreases rules@.len() - i,
        {
            let rule = &rules[i];
            proof {
                reveal_strlit("|");
                reveal_strlit("r");
                reveal_strlit("(?P<");
                reveal_strlit(">");
                reveal_strlit(")");
            }
            if i > 0 {
                pattern.append("|");
            }
            let mut name = String::from_str("r");
            push_decimal(&mut name, i);
            assert(name@ =~= group_name(i as nat));
            pattern.append("(?P<");
            pattern.append(name.as_str());
            pattern.append(">");
            if rule.is_regex {
                pattern.append(rule.keyword.as_str());
            } else {
                let e = escape_text(rule.keyword.as_str());
                pattern.append(e.as_str());
            }
            pattern.append(")");
            assert(rv[i as int] == rule@);
            if i == 0 {
                assert(pattern@ =~= composite_prefix(rv, 1));
            } else {
                assert(pattern@ =~= composite_prefix(rv, i + 1));
            }
            let ghost names0 = names@;
            let ghost colors0 = colors@;
            let c = rule.color.to_ansi();
            names.push(name);
            colors.push(c);
            assert(strings_view(names@) =~= strings_view(names0).push(group_name(i as nat)));
            assert(strings_view(colors@) =~= strings_view(colors0).push(ansi_of(rv[i as int].color)));
            assert(group_names((i + 1) as nat) =~= group_names(i as nat).push(group_name(i as nat)));
            assert(rule_colors(rv.subrange(0, i + 1)) =~= rule_colors(rv.subrange(0, i as int)).push(
                ansi_of(rv[i as int].color),
            ));
            i = i + 1;
        }
        assert(rv.subrange(0, i as int) =~= rv);
        match build_regex(pattern.as_str(), ignore_case) {
            Ok(regex) => Ok(HighlightingEngine { regex, pattern, ignore_case, names, ansi_colors: colors }),
            Err(e) => Err(CompileError { message: error_message(&e) }),
        }
    }

    /// Renders one line into `output`, which is cleared first: the line's
    /// matches, found left to right without overlap, each colored by the
    /// earliest rule that matches there, and every other character as it is.
    pub fn render_line(&self, input: &str, output: &mut String)
        ensures
            final(output)@ == rendered(
                scan_of(self@.pattern, self@.ignore_case, self@.names, input@),
                self@.colors,
            ),
    {
        let (matches, tail) = self.scan(input);
        render_scan(&matches, tail.as_str(), &self.ansi_colors, output);
    }
}

} // verus!
