//! Diagnostics: a message at each costly line.

use crate::analysis::ProfileData;
use crate::binary64::percent;
use crate::binary64::percent_reaches;
use crate::binary64::Binary64;
use crate::config::Config;
use crate::config::DiagnosticsSeverity;
use crate::config::DisplayConfig;
use crate::costs::in_order;
use crate::costs::ordered_lines;
use crate::costs::LineCost;
use crate::format::format_percent;
use crate::format::format_value;
use crate::format::percent_text;
use crate::format::value_text;
use crate::format::ValueUnit;
use crate::lsp::at_line;
use crate::lsp::line_start;
use crate::lsp::narrow;
use crate::lsp::narrow_line;
use crate::lsp::Diagnostic;
use crate::lsp::DiagnosticSeverity;
use vstd::prelude::*;

verus! {

/// The cumulative cost reaches the least percentage of the total.
pub open spec fn reaches(cost: LineCost, total: i64, min_percent: Binary64) -> bool {
    total != 0 && min_percent.is_at_most(percent(cost.cumulative as int, total as int))
}

/// Some line of the file reaches the least percentage.
pub open spec fn has_reaching_line(data: ProfileData, config: Config, file_key: Seq<char>) -> bool {
    data.line_costs@.contains_key(file_key) && exists|line: u64| #[trigger]
        data.line_costs@[file_key].contains_key(line) && reaches(
            data.line_costs@[file_key][line],
            data.total_value,
            config.diagnostics.min_percent,
        )
}

/// A value and its share of the total.
pub open spec fn share_text(value: int, total: int, unit: ValueUnit) -> Seq<char> {
    value_text(value, unit) + " "@ + percent_text(value, total)
}

/// The message of a diagnostic; a flat cost of zero is not shown.
pub open spec fn message_text(
    cost: LineCost,
    total: int,
    unit: ValueUnit,
    display: DisplayConfig,
) -> Seq<char> {
    let flat = "flat: "@ + share_text(cost.flat as int, total, unit);
    let cumulative = "cum: "@ + share_text(cost.cumulative as int, total, unit);
    let show_flat = display.show_flat && cost.flat != 0;
    "[profile] "@ + if show_flat && display.show_cumulative {
        flat + " | "@ + cumulative
    } else if show_flat {
        flat
    } else if display.show_cumulative {
        cumulative
    } else {
        ""@
    }
}

/// The severity of a diagnostic, where there are any.
pub open spec fn severity_of(severity: DiagnosticsSeverity) -> Option<DiagnosticSeverity> {
    match severity {
        DiagnosticsSeverity::Warning => Some(DiagnosticSeverity::Warning),
        DiagnosticsSeverity::Info => Some(DiagnosticSeverity::Information),
        DiagnosticsSeverity::Off => None,
    }
}

/// The diagnostic is that of the line.
pub open spec fn is_diagnostic(
    diagnostic: Diagnostic,
    line: u64,
    cost: LineCost,
    data: ProfileData,
    config: Config,
) -> bool {
    &&& diagnostic.range == line_start(
        narrow(
            if line > 0 {
                (line - 1) as u64
            } else {
                0
            },
        ),
    )
    &&& diagnostic.severity is Some
    &&& diagnostic.severity == severity_of(config.diagnostics.severity)
    &&& diagnostic.source matches Some(source) && source@ == "go-profile"@
    &&& diagnostic.message@ == message_text(
        cost,
        data.total_value as int,
        data.value_unit,
        config.display,
    )
}

/// The lines are those that get a diagnostic, in rising order.
pub open spec fn noted_lines(
    lines: Seq<u64>,
    data: ProfileData,
    config: Config,
    file_key: Seq<char>,
) -> bool {
    &&& forall|i: int, j: int| 0 <= i < j < lines.len() ==> #[trigger] lines[i] < #[trigger] lines[j]
    &&& forall|line: u64| #[trigger]
        lines.contains(line) <==> config.diagnostics.severity != DiagnosticsSeverity::Off
            && data.line_costs@.contains_key(file_key) && data.line_costs@[file_key].contains_key(
            line,
        ) && reaches(
            data.line_costs@[file_key][line],
            data.total_value,
            config.diagnostics.min_percent,
        )
}

/// The diagnostics are those of the lines that reach the least percentage.
pub open spec fn shows_lines(
    diagnostics: Seq<Diagnostic>,
    data: ProfileData,
    config: Config,
    file_key: Seq<char>,
) -> bool {
    exists|lines: Seq<u64>| #[trigger]
        noted_lines(lines, data, config, file_key) && lines.len() == diagnostics.len()
            && forall|i: int|
            0 <= i < lines.len() ==> is_diagnostic(
                #[trigger] diagnostics[i],
                lines[i],
                data.line_costs@[file_key][lines[i]],
                data,
                config,
            )
}

fn cost_reaches(cost: LineCost, total: i64, min_percent: Binary64) -> (r: bool)
    ensures
        r == reaches(cost, total, min_percent),
{
    total != 0 && percent_reaches(cost.cumulative, total, min_percent)
}

/// Appends a value and its share of the total.
fn push_share(out: &mut String, value: i64, total: i64, unit: ValueUnit)
    ensures
        final(out)@ == old(out)@ + share_text(value as int, total as int, unit),
{
    out.push_str(format_value(value, unit).as_str());
    out.push_str(" ");
    out.push_str(format_percent(value, total).as_str());
    assert(out@ =~= old(out)@ + share_text(value as int, total as int, unit));
}

fn format_message(cost: LineCost, data: &ProfileData, display: DisplayConfig) -> (r: String)
    ensures
        r@ == message_text(cost, data.total_value as int, data.value_unit, display),
{
    let show_flat: bool = display.show_flat && cost.flat != 0;
    let mut r: String = String::new();
    r.push_str("[profile] ");
    if show_flat {
        r.push_str("flat: ");
        push_share(&mut r, cost.flat, data.total_value, data.value_unit);
    }
    if show_flat && display.show_cumulative {
        r.push_str(" | ");
    }
    if display.show_cumulative {
        r.push_str("cum: ");
        push_share(&mut r, cost.cumulative, data.total_value, data.value_unit);
    }
    if !show_flat && !display.show_cumulative {
        r.push_str("");
    }
    assert(r@ =~= message_text(cost, data.total_value as int, data.value_unit, display));
    r
}

/// Generate diagnostics for a single file's profiled lines.
///
/// Only lines whose cumulative cost reaches the diagnostics' `min_percent` of the
/// total profile value are included. Returns an empty vec when the file has
/// no qualifying lines.
pub fn generate_diagnostics(data: &ProfileData, config: &Config, file_key: &str) -> (r: Vec<
    Diagnostic,
>)
    ensures
        shows_lines(r@, *data, *config, file_key@),
{
    let mut r: Vec<Diagnostic> = Vec::new();
    let ghost mut noted: Seq<u64> = seq![];
    let severity: Option<DiagnosticSeverity> = match config.diagnostics.severity {
        DiagnosticsSeverity::Warning => Some(DiagnosticSeverity::Warning),
        DiagnosticsSeverity::Info => Some(DiagnosticSeverity::Information),
        DiagnosticsSeverity::Off => None,
    };
    let lines: Vec<(u64, LineCost)> = match data.line_costs.get(file_key) {
        Some(lines) if severity.is_some() => ordered_lines(lines),
        _ => {
            assert(noted_lines(noted, *data, *config, file_key@));
            return r;
        },
    };
    let ghost known = data.line_costs@[file_key@];
    let min_percent: Binary64 = config.diagnostics.min_percent;
    let mut n: usize = 0;
    while n < lines.len()
        invariant
            n <= lines@.len(),
            severity is Some,
            severity == severity_of(config.diagnostics.severity),
            min_percent == config.diagnostics.min_percent,
            data.line_costs@.contains_key(file_key@),
            known == data.line_costs@[file_key@],
            in_order(lines@, known),
            forall|i: int, j: int|
                0 <= i < j < noted.len() ==> #[trigger] noted[i] < #[trigger] noted[j],
            forall|i: int|
                0 <= i < noted.len() ==> known.contains_key(#[trigger] noted[i]) && reaches(
                    known[noted[i]],
                    data.total_value,
                    min_percent,
                ),
            forall|i: int|
                0 <= i < noted.len() ==> exists|m: int|
                    0 <= m < n && (#[trigger] lines@[m]).0 == #[trigger] noted[i],
            forall|m: int|
                0 <= m < n && reaches((#[trigger] lines@[m]).1, data.total_value, min_percent)
                    ==> noted.contains(lines@[m].0),
            noted.len() == r@.len(),
            forall|i: int|
                0 <= i < noted.len() ==> is_diagnostic(
                    #[trigger] r@[i],
                    noted[i],
                    known[noted[i]],
                    *data,
                    *config,
                ),
        decreases lines.len() - n,
    {
        let line: u64 = lines[n].0;
        let cost: LineCost = lines[n].1;
        let ghost before = noted;
        assert(known[lines@[n as int].0] == cost);
        if cost_reaches(cost, data.total_value, min_percent) {
            r.push(
                Diagnostic {
                    range: at_line(
                        narrow_line(
                            if line > 0 {
                                line - 1
                            } else {
                                0
                            },
                        ),
                    ),
                    severity,
                    source: Some("go-profile".to_string()),
                    message: format_message(cost, data, config.display),
                },
            );
            proof {
                noted = noted.push(line);
                assert(noted[before.len() as int] == line);
                assert forall|m: int|
                    0 <= m < n && reaches(
                        (#[trigger] lines@[m]).1,
                        data.total_value,
                        min_percent,
                    ) implies noted.contains(lines@[m].0) by {
                    assert(before.contains(lines@[m].0));
                    let i = choose|i: int| 0 <= i < before.len() && before[i] == lines@[m].0;
                    assert(noted[i] == lines@[m].0);
                }
            }
        }
        n += 1;
    }
    proof {
        assert forall|l: u64| known.contains_key(l) && reaches(
            known[l],
            data.total_value,
            min_percent,
        ) implies noted.contains(l) by {
            let m = choose|m: int| 0 <= m < lines@.len() && (#[trigger] lines@[m]).0 == l;
            assert(lines@[m].1 == known[l]);
        }
        assert(noted_lines(noted, *data, *config, file_key@));
    }
    r
}

/// Return all file keys from the profile that have at least one line above the
/// diagnostic threshold. Used to know which files to publish diagnostics for.
pub fn files_with_diagnostics(data: &ProfileData, config: &Config) -> (r: Vec<String>)
    ensures
        r.deep_view().no_duplicates(),
        forall|file_key: Seq<char>| #[trigger]
            r.deep_view().contains(file_key) <==> has_reaching_line(*data, *config, file_key),
{
    let mut r: Vec<String> = Vec::new();
    let min_percent: Binary64 = config.diagnostics.min_percent;
    let count: usize = data.line_costs.len();
    let ghost names = data.line_costs.names();
    let mut n: usize = 0;
    while n < count
        invariant
            n <= count,
            count == names.len(),
            names == data.line_costs.names(),
            names.no_duplicates(),
            min_percent == config.diagnostics.min_percent,
            forall|name: Seq<char>| data.line_costs@.contains_key(name) <==> names.contains(name),
            r.deep_view().no_duplicates(),
            forall|name: Seq<char>| #[trigger]
                r.deep_view().contains(name) <==> has_reaching_line(*data, *config, name)
                    && names.take(n as int).contains(name),
        decreases count - n,
    {
        let (name, costs) = data.line_costs.entry(n);
        let lines: Vec<(u64, LineCost)> = ordered_lines(costs);
        let ghost known = data.line_costs@[name@];
        let mut found: bool = false;
        let mut m: usize = 0;
        while m < lines.len() && !found
            invariant
                m <= lines@.len(),
                in_order(lines@, known),
                min_percent == config.diagnostics.min_percent,
                found ==> exists|i: int|
                    0 <= i < lines@.len() && reaches(
                        (#[trigger] lines@[i]).1,
                        data.total_value,
                        min_percent,
                    ),
                !found ==> forall|i: int|
                    0 <= i < m ==> !reaches(
                        (#[trigger] lines@[i]).1,
                        data.total_value,
                        min_percent,
                    ),
            decreases lines.len() - m,
        {
            found = cost_reaches(lines[m].1, data.total_value, min_percent);
            m += 1;
        }
        let ghost before = r.deep_view();
        let ghost had = names.take(n as int);
        let ghost has = names.take(n + 1);
        proof {
            assert(has =~= had.push(name@));
            assert(found == has_reaching_line(*data, *config, name@)) by {
                if found {
                    let i = choose|i: int|
                        0 <= i < lines@.len() && reaches(
                            (#[trigger] lines@[i]).1,
                            data.total_value,
                            min_percent,
                        );
                    assert(known.contains_key(lines@[i].0));
                }
                if has_reaching_line(*data, *config, name@) {
                    let line = choose|line: u64| #[trigger]
                        known.contains_key(line) && reaches(
                            known[line],
                            data.total_value,
                            min_percent,
                        );
                    let i = choose|i: int| 0 <= i < lines@.len() && (#[trigger] lines@[i]).0 == line;
                    assert(lines@[i].1 == known[line]);
                }
            }
            assert(!had.contains(name@));
            assert forall|other: Seq<char>|
                has.contains(other) <==> had.contains(other) || other == name@ by {
                assert(has[n as int] == name@);
                if had.contains(other) {
                    let k = choose|k: int| 0 <= k < had.len() && had[k] == other;
                    assert(has[k] == other);
                }
            }
        }
        if found {
            r.push(name.to_string());
            proof {
                let after = r.deep_view();
                assert(after =~= before.push(name@));
                assert(!before.contains(name@));
                assert(after[before.len() as int] == name@);
                assert forall|other: Seq<char>|
                    #[trigger] after.contains(other) <==> before.contains(other) || other == name@ by {
                    if before.contains(other) {
                        let k = choose|k: int| 0 <= k < before.len() && before[k] == other;
                        assert(after[k] == other);
                    }
                }
            }
        }
        n += 1;
    }
    proof {
        assert(names.take(n as int) =~= names);
    }
    r
}

/// Unless they are off, a file has diagnostics exactly where one of its lines reaches
/// the least percentage.
pub proof fn lemma_diagnostics_present(
    diagnostics: Seq<Diagnostic>,
    data: ProfileData,
    config: Config,
    file_key: Seq<char>,
)
    requires
        shows_lines(diagnostics, data, config, file_key),
        config.diagnostics.severity != DiagnosticsSeverity::Off,
    ensures
        diagnostics.len() > 0 <==> has_reaching_line(data, config, file_key),
{
    let lines = choose|lines: Seq<u64>| #[trigger]
        noted_lines(lines, data, config, file_key) && lines.len() == diagnostics.len()
            && forall|i: int|
            0 <= i < lines.len() ==> is_diagnostic(
                #[trigger] diagnostics[i],
                lines[i],
                data.line_costs@[file_key][lines[i]],
                data,
                config,
            );
    if lines.len() > 0 {
        assert(lines.contains(lines[0]));
        assert(data.line_costs@[file_key].contains_key(lines[0]));
    }
    if has_reaching_line(data, config, file_key) {
        let line = choose|line: u64| #[trigger]
            data.line_costs@[file_key].contains_key(line) && reaches(
                data.line_costs@[file_key][line],
                data.total_value,
                config.diagnostics.min_percent,
            );
        assert(lines.contains(line));
    }
}

/// Without a total, or with diagnostics off, no file has diagnostics.
pub proof fn lemma_diagnostics_absent(
    diagnostics: Seq<Diagnostic>,
    data: ProfileData,
    config: Config,
    file_key: Seq<char>,
)
    requires
        shows_lines(diagnostics, data, config, file_key),
        data.total_value == 0 || config.diagnostics.severity == DiagnosticsSeverity::Off,
    ensures
        diagnostics.len() == 0,
{
    let lines = choose|lines: Seq<u64>| #[trigger]
        noted_lines(lines, data, config, file_key) && lines.len() == diagnostics.len()
            && forall|i: int|
            0 <= i < lines.len() ==> is_diagnostic(
                #[trigger] diagnostics[i],
                lines[i],
                data.line_costs@[file_key][lines[i]],
                data,
                config,
            );
    if lines.len() > 0 {
        assert(lines.contains(lines[0]));
    }
}

/// The cumulative cost alone decides whether a line is costly: costs that differ only in
/// their flat part are alike.
pub proof fn lemma_flat_decides_nothing(
    a: LineCost,
    b: LineCost,
    total: i64,
    min_percent: Binary64,
)
    requires
        a.cumulative == b.cumulative,
    ensures
        reaches(a, total, min_percent) == reaches(b, total, min_percent),
        reaches(a, total, min_percent) <==> total != 0 && min_percent.is_at_most(
            percent(a.cumulative as int, total as int),
        ),
{
}

/// Unless they are off, there is one diagnostic, in rising order of the lines, for each
/// line of the file whose cumulative share of the total reaches the least percentage,
/// whatever its flat cost; and no other.
pub proof fn lemma_diagnostics_of_lines(
    diagnostics: Seq<Diagnostic>,
    data: ProfileData,
    config: Config,
    file_key: Seq<char>,
)
    requires
        shows_lines(diagnostics, data, config, file_key),
    ensures
        exists|lines: Seq<u64>|
            #![trigger lines.len()]
            {
                &&& lines.len() == diagnostics.len()
                &&& forall|i: int, j: int|
                    0 <= i < j < lines.len() ==> #[trigger] lines[i] < #[trigger] lines[j]
                &&& forall|line: u64| #[trigger]
                    lines.contains(line) <==> {
                        &&& config.diagnostics.severity != DiagnosticsSeverity::Off
                        &&& data.line_costs@.contains_key(file_key)
                        &&& data.line_costs@[file_key].contains_key(line)
                        &&& data.total_value != 0
                        &&& config.diagnostics.min_percent.is_at_most(
                            percent(
                                data.line_costs@[file_key][line].cumulative as int,
                                data.total_value as int,
                            ),
                        )
                    }
                &&& forall|i: int|
                    0 <= i < lines.len() ==> {
                        let diagnostic = #[trigger] diagnostics[i];
                        let cost = data.line_costs@[file_key][lines[i]];
                        let total = data.total_value as int;
                        let flat = "flat: "@ + (value_text(cost.flat as int, data.value_unit)
                            + " "@ + percent_text(cost.flat as int, total));
                        let cumulative = "cum: "@ + (value_text(
                            cost.cumulative as int,
                            data.value_unit,
                        ) + " "@ + percent_text(cost.cumulative as int, total));
                        let shows_flat = config.display.show_flat && cost.flat != 0;
                        &&& 1 <= lines[i] <= 0x1_0000_0000 ==> diagnostic.range.start.line
                            == lines[i] - 1
                        &&& lines[i] == 0 ==> diagnostic.range.start.line == 0
                        &&& diagnostic.range.start.character == 0
                        &&& diagnostic.range.end == diagnostic.range.start
                        &&& config.diagnostics.severity == DiagnosticsSeverity::Warning
                            <==> diagnostic.severity == Some(DiagnosticSeverity::Warning)
                        &&& config.diagnostics.severity == DiagnosticsSeverity::Info
                            <==> diagnostic.severity == Some(DiagnosticSeverity::Information)
                        &&& diagnostic.source is Some
                        &&& diagnostic.source.unwrap()@ == "go-profile"@
                        &&& shows_flat && config.display.show_cumulative ==> diagnostic.message@
                            == "[profile] "@ + (flat + " | "@ + cumulative)
                        &&& shows_flat && !config.display.show_cumulative ==> diagnostic.message@
                            == "[profile] "@ + flat
                        &&& !shows_flat && config.display.show_cumulative ==> diagnostic.message@
                            == "[profile] "@ + cumulative
                        &&& !shows_flat && !config.display.show_cumulative ==> diagnostic.message@
                            == "[profile] "@ + ""@
                    }
            },
{
    let lines = choose|lines: Seq<u64>| #[trigger]
        noted_lines(lines, data, config, file_key) && lines.len() == diagnostics.len()
            && forall|i: int|
            0 <= i < lines.len() ==> is_diagnostic(
                #[trigger] diagnostics[i],
                lines[i],
                data.line_costs@[file_key][lines[i]],
                data,
                config,
            );
    assert(lines.len() == diagnostics.len());
    assert forall|i: int| 0 <= i < lines.len() implies is_diagnostic(
        #[trigger] diagnostics[i],
        lines[i],
        data.line_costs@[file_key][lines[i]],
        data,
        config,
    ) && config.diagnostics.severity != DiagnosticsSeverity::Off by {
        assert(lines.contains(lines[i]));
    }
}

/// A file is to get diagnostics exactly where one of its lines has a cumulative share of
/// the total that reaches the least percentage.
pub proof fn lemma_files_noted(data: ProfileData, config: Config, file_key: Seq<char>)
    ensures
        has_reaching_line(data, config, file_key) <==> {
            &&& data.line_costs@.contains_key(file_key)
            &&& data.total_value != 0
            &&& exists|line: u64| #[trigger]
                data.line_costs@[file_key].contains_key(line)
                    && config.diagnostics.min_percent.is_at_most(
                    percent(
                        data.line_costs@[file_key][line].cumulative as int,
                        data.total_value as int,
                    ),
                )
        },
{
}

} // verus!
