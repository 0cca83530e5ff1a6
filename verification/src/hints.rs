//! Inlay hints: the cost of a line at its end.

use crate::analysis::ProfileData;
use crate::binary64::lemma_whole_bits;
use crate::binary64::percent;
use crate::binary64::percent_from;
use crate::binary64::percent_reaches;
use crate::binary64::Binary64;
use crate::binary64::FIFTEEN_BITS;
use crate::binary64::FIVE_BITS;
use crate::binary64::THIRTY_BITS;
use crate::config::Config;
use crate::config::DisplayConfig;
use crate::config::HintStyle;
use crate::config::ThresholdConfig;
use crate::costs::in_order;
use crate::costs::ordered_lines;
use crate::costs::LineCost;
use crate::format::format_percent;
use crate::format::format_value;
use crate::format::percent_text;
use crate::format::value_text;
use crate::format::ValueUnit;
use crate::lsp::InlayHint;
use crate::lsp::Position;
use crate::lsp::Range;
use vstd::prelude::*;

verus! {

/// A cost is shown where its cumulative part reaches the least percentage of the total,
/// or else its flat part the least flat value; never where there is no total.
pub open spec fn passes(flat: int, cumulative: int, total: int, threshold: ThresholdConfig) -> bool {
    total != 0 && (threshold.min_percent.is_at_most(percent(cumulative, total)) || (
    threshold.min_flat matches Some(least) && flat >= least))
}

/// The parts of a label.
pub open spec fn flat_part(flat: int, unit: ValueUnit) -> Seq<char> {
    "flat: "@ + value_text(flat, unit)
}

pub open spec fn cumulative_part(cumulative: int, total: int, unit: ValueUnit) -> Seq<char> {
    "cum: "@ + value_text(cumulative, unit) + if total == 0 {
        ""@
    } else {
        " "@ + percent_text(cumulative, total)
    }
}

/// The parts that are shown, with a bar between them.
pub open spec fn parts_text(
    flat: int,
    cumulative: int,
    total: int,
    unit: ValueUnit,
    show_flat: bool,
    show_cumulative: bool,
) -> Seq<char> {
    if show_flat && show_cumulative {
        flat_part(flat, unit) + " | "@ + cumulative_part(cumulative, total, unit)
    } else if show_flat {
        flat_part(flat, unit)
    } else if show_cumulative {
        cumulative_part(cumulative, total, unit)
    } else {
        ""@
    }
}

/// The label of a line: its parts behind two spaces; nothing where no part is shown.
pub open spec fn label_text(
    flat: int,
    cumulative: int,
    total: int,
    unit: ValueUnit,
    show_flat: bool,
    show_cumulative: bool,
) -> Seq<char> {
    if show_flat || show_cumulative {
        "  "@ + parts_text(flat, cumulative, total, unit, show_flat, show_cumulative)
    } else {
        ""@
    }
}

/// What shows the severity of a line, by its cumulative share of the total: below 5
/// percent, below 15, below 30, and from 30 on.
pub open spec fn indicator(style: HintStyle, cumulative: int, total: int) -> Seq<char> {
    if total != 0 && percent_from(cumulative, total, 30) {
        match style {
            HintStyle::Emoji => "🔴"@,
            HintStyle::Ascii => "█"@,
        }
    } else if total != 0 && percent_from(cumulative, total, 15) {
        match style {
            HintStyle::Emoji => "🟠"@,
            HintStyle::Ascii => "▓"@,
        }
    } else if total != 0 && percent_from(cumulative, total, 5) {
        match style {
            HintStyle::Emoji => "🟡"@,
            HintStyle::Ascii => "▒"@,
        }
    } else {
        match style {
            HintStyle::Emoji => "🟢"@,
            HintStyle::Ascii => "░"@,
        }
    }
}

/// The label of a hint: behind two spaces the indicator, and after it the parts.
pub open spec fn hint_text(
    style: HintStyle,
    flat: int,
    cumulative: int,
    total: int,
    unit: ValueUnit,
    show_flat: bool,
    show_cumulative: bool,
) -> Seq<char> {
    "  "@ + indicator(style, cumulative, total) + " "@ + parts_text(
        flat,
        cumulative,
        total,
        unit,
        show_flat,
        show_cumulative,
    )
}

/// The tooltip of a hint.
pub open spec fn tooltip_text(
    flat: int,
    cumulative: int,
    total: int,
    unit: ValueUnit,
    sample_type_label: Seq<char>,
) -> Seq<char> {
    "Profile type: "@ + sample_type_label + "\nFlat: "@ + value_text(flat, unit) + " "@
        + percent_text(flat, total) + "\nCumulative: "@ + value_text(cumulative, unit) + " "@
        + percent_text(cumulative, total)
}

/// Check if a line cost passes the configured threshold.
pub fn passes_threshold(flat: i64, cumulative: i64, total: i64, config: &Config) -> (r: bool)
    ensures
        r == passes(flat as int, cumulative as int, total as int, config.threshold),
{
    if total == 0 {
        return false;
    }
    if percent_reaches(cumulative, total, config.threshold.min_percent) {
        return true;
    }
    match config.threshold.min_flat {
        Some(min_flat) => flat >= min_flat,
        None => false,
    }
}

/// Appends the parts that are shown.
fn push_parts(
    out: &mut String,
    flat: i64,
    cumulative: i64,
    total: i64,
    unit: ValueUnit,
    show_flat: bool,
    show_cumulative: bool,
)
    ensures
        final(out)@ == old(out)@ + parts_text(
            flat as int,
            cumulative as int,
            total as int,
            unit,
            show_flat,
            show_cumulative,
        ),
{
    let ghost start = out@;
    if show_flat {
        out.push_str("flat: ");
        out.push_str(format_value(flat, unit).as_str());
        assert(out@ =~= start + flat_part(flat as int, unit));
    }
    if show_flat && show_cumulative {
        out.push_str(" | ");
        assert(out@ =~= start + (flat_part(flat as int, unit) + " | "@));
    }
    if show_cumulative {
        let ghost before = out@;
        out.push_str("cum: ");
        out.push_str(format_value(cumulative, unit).as_str());
        if total == 0 {
            out.push_str("");
        } else {
            out.push_str(" ");
            out.push_str(format_percent(cumulative, total).as_str());
        }
        assert(out@ =~= before + cumulative_part(cumulative as int, total as int, unit));
        if show_flat {
            assert(out@ =~= start + (flat_part(flat as int, unit) + " | "@ + cumulative_part(
                cumulative as int,
                total as int,
                unit,
            )));
        }
    }
    if !show_flat && !show_cumulative {
        out.push_str("");
    }
}

/// Format the inlay hint label text.
/// Example: "  flat: 15ms | cum: 340ms (55.1%)"
pub fn format_hint_label(
    flat: i64,
    cumulative: i64,
    total: i64,
    unit: ValueUnit,
    show_flat: bool,
    show_cumulative: bool,
) -> (r: String)
    ensures
        r@ == label_text(
            flat as int,
            cumulative as int,
            total as int,
            unit,
            show_flat,
            show_cumulative,
        ),
{
    let mut r: String = String::new();
    if show_flat || show_cumulative {
        r.push_str("  ");
        push_parts(&mut r, flat, cumulative, total, unit, show_flat, show_cumulative);
    } else {
        r.push_str("");
    }
    assert(r@ =~= label_text(
        flat as int,
        cumulative as int,
        total as int,
        unit,
        show_flat,
        show_cumulative,
    ));
    r
}

/// What shows the severity of a line.
pub fn severity_indicator(style: HintStyle, cumulative: i64, total: i64) -> (r: &'static str)
    ensures
        r@ == indicator(style, cumulative as int, total as int),
{
    proof {
        lemma_whole_bits();
    }
    let ascii: bool = match style {
        HintStyle::Emoji => false,
        HintStyle::Ascii => true,
    };
    if total != 0 && percent_reaches(cumulative, total, Binary64::from_bits(THIRTY_BITS)) {
        if ascii {
            "█"
        } else {
            "🔴"
        }
    } else if total != 0 && percent_reaches(cumulative, total, Binary64::from_bits(FIFTEEN_BITS)) {
        if ascii {
            "▓"
        } else {
            "🟠"
        }
    } else if total != 0 && percent_reaches(cumulative, total, Binary64::from_bits(FIVE_BITS)) {
        if ascii {
            "▒"
        } else {
            "🟡"
        }
    } else if ascii {
        "░"
    } else {
        "🟢"
    }
}

/// The label of a hint.
/// Example: "  🔴 flat: 15ms | cum: 340ms (55.1%)"
fn format_shown_label(cost: LineCost, total: i64, unit: ValueUnit, display: DisplayConfig) -> (r:
    String)
    ensures
        r@ == hint_text(
            display.hint_style,
            cost.flat as int,
            cost.cumulative as int,
            total as int,
            unit,
            display.show_flat,
            display.show_cumulative,
        ),
{
    let mut r: String = String::new();
    r.push_str("  ");
    r.push_str(severity_indicator(display.hint_style, cost.cumulative, total));
    r.push_str(" ");
    push_parts(
        &mut r,
        cost.flat,
        cost.cumulative,
        total,
        unit,
        display.show_flat,
        display.show_cumulative,
    );
    assert(r@ =~= hint_text(
        display.hint_style,
        cost.flat as int,
        cost.cumulative as int,
        total as int,
        unit,
        display.show_flat,
        display.show_cumulative,
    ));
    r
}

/// Format a detailed tooltip string.
pub fn format_hint_tooltip(
    flat: i64,
    cumulative: i64,
    total: i64,
    unit: ValueUnit,
    sample_type_label: &str,
) -> (r: String)
    ensures
        r@ == tooltip_text(
            flat as int,
            cumulative as int,
            total as int,
            unit,
            sample_type_label@,
        ),
{
    let mut r: String = String::new();
    r.push_str("Profile type: ");
    r.push_str(sample_type_label);
    r.push_str("\nFlat: ");
    r.push_str(format_value(flat, unit).as_str());
    r.push_str(" ");
    r.push_str(format_percent(flat, total).as_str());
    r.push_str("\nCumulative: ");
    r.push_str(format_value(cumulative, unit).as_str());
    r.push_str(" ");
    r.push_str(format_percent(cumulative, total).as_str());
    assert(r@ =~= tooltip_text(
        flat as int,
        cumulative as int,
        total as int,
        unit,
        sample_type_label@,
    ));
    r
}

/// The line, counted from zero, gets a hint.
pub open spec fn is_hinted(
    data: ProfileData,
    config: Config,
    file_key: Seq<char>,
    range: Range,
    line: int,
) -> bool {
    &&& range.start.line <= line <= range.end.line
    &&& config.display.show_flat || config.display.show_cumulative
    &&& data.line_costs@.contains_key(file_key)
    &&& data.line_costs@[file_key].contains_key((line + 1) as u64)
    &&& ({
        let cost = data.line_costs@[file_key][(line + 1) as u64];
        passes(
            cost.flat as int,
            cost.cumulative as int,
            data.total_value as int,
            config.threshold,
        )
    })
}

/// The hint shows the cost of its line.
pub open spec fn shows_cost(
    hint: InlayHint,
    data: ProfileData,
    config: Config,
    file_key: Seq<char>,
) -> bool {
    let cost = data.line_costs@[file_key][(hint.position.line + 1) as u64];
    &&& hint.position.character == u32::MAX
    &&& hint.label@ == hint_text(
        config.display.hint_style,
        cost.flat as int,
        cost.cumulative as int,
        data.total_value as int,
        data.value_unit,
        config.display.show_flat,
        config.display.show_cumulative,
    )
    &&& hint.tooltip matches Some(tooltip) && tooltip@ == tooltip_text(
        cost.flat as int,
        cost.cumulative as int,
        data.total_value as int,
        data.value_unit,
        data.sample_type_label@,
    )
    &&& hint.padding_left == Some(true)
    &&& hint.padding_right is None
}

/// The hints are those of the hinted lines, in rising order.
pub open spec fn shows_hints(
    hints: Seq<InlayHint>,
    data: ProfileData,
    config: Config,
    file_key: Seq<char>,
    range: Range,
) -> bool {
    &&& forall|i: int, j: int|
        0 <= i < j < hints.len() ==> (#[trigger] hints[i]).position.line < (
        #[trigger] hints[j]).position.line
    &&& forall|i: int|
        0 <= i < hints.len() ==> is_hinted(
            data,
            config,
            file_key,
            range,
            (#[trigger] hints[i]).position.line as int,
        ) && shows_cost(hints[i], data, config, file_key)
    &&& forall|line: int| #[trigger]
        is_hinted(data, config, file_key, range, line) ==> exists|i: int|
            0 <= i < hints.len() && (#[trigger] hints[i]).position.line == line
}

/// Generate inlay hints for a specific file within the given line range.
///
/// `file_key` is the workspace-relative path as stored in `ProfileData.line_costs`.
/// `range` is the visible range requested by the editor (0-indexed lines).
pub fn generate_inlay_hints(
    data: &ProfileData,
    config: &Config,
    file_key: &str,
    range: &Range,
) -> (r: Vec<InlayHint>)
    requires
        data.line_costs@.contains_key(file_key@) ==> range.start.line <= range.end.line,
    ensures
        shows_hints(r@, *data, *config, file_key@, *range),
{
    let mut r: Vec<InlayHint> = Vec::new();
    let lines: Vec<(u64, LineCost)> = match data.line_costs.get(file_key) {
        Some(lines) => ordered_lines(lines),
        None => {
            return r;
        },
    };
    let ghost known = data.line_costs@[file_key@];
    let first: u64 = range.start.line as u64 + 1;
    let last: u64 = range.end.line as u64 + 1;
    let mut n: usize = 0;
    while n < lines.len()
        invariant
            n <= lines@.len(),
            data.line_costs@.contains_key(file_key@),
            known == data.line_costs@[file_key@],
            in_order(lines@, known),
            first == range.start.line + 1,
            last == range.end.line + 1,
            forall|i: int, j: int|
                0 <= i < j < r@.len() ==> (#[trigger] r@[i]).position.line < (
                #[trigger] r@[j]).position.line,
            forall|i: int|
                0 <= i < r@.len() ==> is_hinted(
                    *data,
                    *config,
                    file_key@,
                    *range,
                    (#[trigger] r@[i]).position.line as int,
                ) && shows_cost(r@[i], *data, *config, file_key@),
            forall|i: int|
                0 <= i < r@.len() ==> exists|m: int|
                    0 <= m < n && (#[trigger] lines@[m]).0 == (#[trigger] r@[i]).position.line + 1,
            forall|m: int|
                0 <= m < n && is_hinted(
                    *data,
                    *config,
                    file_key@,
                    *range,
                    (#[trigger] lines@[m]).0 - 1,
                ) ==> exists|i: int|
                    0 <= i < r@.len() && (#[trigger] r@[i]).position.line + 1 == lines@[m].0,
        decreases lines.len() - n,
    {
        let line: u64 = lines[n].0;
        let cost: LineCost = lines[n].1;
        let ghost before = r@;
        if first <= line && line <= last && passes_threshold(
            cost.flat,
            cost.cumulative,
            data.total_value,
            config,
        ) && (config.display.show_flat || config.display.show_cumulative) {
            r.push(
                InlayHint {
                    position: Position { line: (line - 1) as u32, character: u32::MAX },
                    label: format_shown_label(
                        cost,
                        data.total_value,
                        data.value_unit,
                        config.display,
                    ),
                    tooltip: Some(
                        format_hint_tooltip(
                            cost.flat,
                            cost.cumulative,
                            data.total_value,
                            data.value_unit,
                            data.sample_type_label.as_str(),
                        ),
                    ),
                    padding_left: Some(true),
                    padding_right: None,
                },
            );
            assert(r@[before.len() as int].position.line + 1 == line);
        }
        proof {
            assert(known[lines@[n as int].0] == cost);
            assert forall|m: int|
                0 <= m < n + 1 && is_hinted(
                    *data,
                    *config,
                    file_key@,
                    *range,
                    (#[trigger] lines@[m]).0 - 1,
                ) implies exists|i: int|
                0 <= i < r@.len() && (#[trigger] r@[i]).position.line + 1 == lines@[m].0 by {
                if m < n {
                    let i = choose|i: int|
                        0 <= i < before.len() && (#[trigger] before[i]).position.line + 1
                            == lines@[m].0;
                    assert(r@[i] == before[i]);
                } else {
                    assert((lines@[m].0 - 1 + 1) as u64 == line);
                }
            }
        }
        n += 1;
    }
    r
}

/// A line whose share of the total reaches the least percentage is shown, whatever its
/// flat cost and the least flat value; so is one whose flat cost reaches the least flat
/// value, whatever its share. No other is, and none without a total.
pub proof fn lemma_either_threshold(
    flat: int,
    cumulative: int,
    total: int,
    threshold: ThresholdConfig,
)
    ensures
        total == 0 ==> !passes(flat, cumulative, total, threshold),
        total != 0 && threshold.min_percent.is_at_most(percent(cumulative, total)) ==> passes(
            flat,
            cumulative,
            total,
            threshold,
        ),
        total != 0 && threshold.min_flat is Some && flat >= threshold.min_flat.unwrap() ==> passes(
            flat,
            cumulative,
            total,
            threshold,
        ),
        passes(flat, cumulative, total, threshold) ==> threshold.min_percent.is_at_most(
            percent(cumulative, total),
        ) || (threshold.min_flat is Some && flat >= threshold.min_flat.unwrap()),
{
}

/// To set a least flat value, or to lower it, takes no hint away.
pub proof fn lemma_min_flat_adds(
    flat: int,
    cumulative: int,
    total: int,
    threshold: ThresholdConfig,
    least: i64,
)
    requires
        passes(flat, cumulative, total, threshold),
        threshold.min_flat matches Some(before) ==> least <= before,
    ensures
        passes(flat, cumulative, total, ThresholdConfig { min_flat: Some(least), ..threshold }),
{
}

/// Without a least flat value, the flat cost decides nothing.
pub proof fn lemma_flat_is_free(
    flat: int,
    other: int,
    cumulative: int,
    total: int,
    threshold: ThresholdConfig,
)
    requires
        threshold.min_flat is None,
    ensures
        passes(flat, cumulative, total, threshold) == passes(other, cumulative, total, threshold),
{
}

/// The hints of a file: in rising order, at most one for a line, and one for each line of
/// the range with costs that reach a threshold, as long as anything is shown at all. Each
/// stands at the end of its line.
pub proof fn lemma_hints_of_lines(
    hints: Seq<InlayHint>,
    data: ProfileData,
    config: Config,
    file_key: Seq<char>,
    range: Range,
)
    requires
        shows_hints(hints, data, config, file_key, range),
    ensures
        forall|i: int, j: int|
            0 <= i < j < hints.len() ==> (#[trigger] hints[i]).position.line < (
            #[trigger] hints[j]).position.line,
        forall|i: int|
            0 <= i < hints.len() ==> (#[trigger] hints[i]).position.character == 0xffff_ffff
                && hints[i].padding_left == Some(true) && hints[i].padding_right is None,
        forall|n: u64|
            (exists|i: int| 0 <= i < hints.len() && (#[trigger] hints[i]).position.line + 1 == n)
                <==> {
                &&& range.start.line < n <= range.end.line + 1
                &&& config.display.show_flat || config.display.show_cumulative
                &&& data.line_costs@.contains_key(file_key)
                &&& #[trigger] data.line_costs@[file_key].contains_key(n)
                &&& data.total_value != 0
                &&& config.threshold.min_percent.is_at_most(
                    percent(
                        data.line_costs@[file_key][n].cumulative as int,
                        data.total_value as int,
                    ),
                ) || (config.threshold.min_flat is Some && data.line_costs@[file_key][n].flat
                    >= config.threshold.min_flat.unwrap())
            },
{
    assert forall|n: u64|
        (exists|i: int| 0 <= i < hints.len() && (#[trigger] hints[i]).position.line + 1 == n)
            <==> {
            &&& range.start.line < n <= range.end.line + 1
            &&& config.display.show_flat || config.display.show_cumulative
            &&& data.line_costs@.contains_key(file_key)
            &&& #[trigger] data.line_costs@[file_key].contains_key(n)
            &&& data.total_value != 0
            &&& config.threshold.min_percent.is_at_most(
                percent(data.line_costs@[file_key][n].cumulative as int, data.total_value as int),
            ) || (config.threshold.min_flat is Some && data.line_costs@[file_key][n].flat
                >= config.threshold.min_flat.unwrap())
        } by {
        if exists|i: int| 0 <= i < hints.len() && (#[trigger] hints[i]).position.line + 1 == n {
            let i = choose|i: int|
                0 <= i < hints.len() && (#[trigger] hints[i]).position.line + 1 == n;
            assert(is_hinted(data, config, file_key, range, hints[i].position.line as int));
            assert((hints[i].position.line + 1) as u64 == n);
        }
        if is_hinted(data, config, file_key, range, n - 1) {
            let i = choose|i: int| 0 <= i < hints.len() && (#[trigger] hints[i]).position.line == n - 1;
            assert(hints[i].position.line + 1 == n);
        }
        assert((n - 1 + 1) as u64 == n);
    }
}

/// What a hint says: behind the indicator the flat cost, the cumulative cost and its share,
/// as far as they are shown; in the tooltip both with their shares.
pub proof fn lemma_hint_says(
    hints: Seq<InlayHint>,
    data: ProfileData,
    config: Config,
    file_key: Seq<char>,
    range: Range,
    i: int,
)
    requires
        shows_hints(hints, data, config, file_key, range),
        0 <= i < hints.len(),
    ensures
        ({
            let cost = data.line_costs@[file_key][(hints[i].position.line + 1) as u64];
            let total = data.total_value as int;
            let flat = "flat: "@ + value_text(cost.flat as int, data.value_unit);
            let cumulative = "cum: "@ + value_text(cost.cumulative as int, data.value_unit) + " "@
                + percent_text(cost.cumulative as int, total);
            let mark = "  "@ + indicator(
                config.display.hint_style,
                cost.cumulative as int,
                total,
            ) + " "@;
            &&& config.display.show_flat && config.display.show_cumulative ==> hints[i].label@
                == mark + (flat + " | "@ + cumulative)
            &&& config.display.show_flat && !config.display.show_cumulative ==> hints[i].label@
                == mark + flat
            &&& !config.display.show_flat ==> hints[i].label@ == mark + cumulative
            &&& hints[i].tooltip is Some
            &&& hints[i].tooltip.unwrap()@ == "Profile type: "@ + data.sample_type_label@
                + "\nFlat: "@ + value_text(cost.flat as int, data.value_unit) + " "@ + percent_text(
                cost.flat as int,
                total,
            ) + "\nCumulative: "@ + value_text(cost.cumulative as int, data.value_unit) + " "@
                + percent_text(cost.cumulative as int, total)
        }),
{
    assert(is_hinted(data, config, file_key, range, hints[i].position.line as int));
    let cost = data.line_costs@[file_key][(hints[i].position.line + 1) as u64];
    assert(shows_cost(hints[i], data, config, file_key));
    let cumulative = "cum: "@ + value_text(cost.cumulative as int, data.value_unit) + (" "@
        + percent_text(cost.cumulative as int, data.total_value as int));
    assert(cumulative =~= "cum: "@ + value_text(cost.cumulative as int, data.value_unit) + " "@
        + percent_text(cost.cumulative as int, data.total_value as int));
}

/// The indicator tells four levels apart by the share of the total: from 30 percent on,
/// from 15 on, from 5 on, and below; without a total it is the lowest.
pub proof fn lemma_indicator_levels(cumulative: int, total: int)
    ensures
        ({
            let share = percent(cumulative, total);
            let one = vstd::arithmetic::power2::pow2(1074) as int;
            let mark = indicator(HintStyle::Emoji, cumulative, total);
            let shade = indicator(HintStyle::Ascii, cumulative, total);
            &&& total != 0 && share >= 30 * one ==> mark == "🔴"@ && shade == "█"@
            &&& total != 0 && 15 * one <= share < 30 * one ==> mark == "🟠"@ && shade == "▓"@
            &&& total != 0 && 5 * one <= share < 15 * one ==> mark == "🟡"@ && shade == "▒"@
            &&& total == 0 || share < 5 * one ==> mark == "🟢"@ && shade == "░"@
        }),
{
}

/// A label shows the parts that are asked for, in this order, behind two spaces; nothing
/// where none is.
pub proof fn lemma_label_parts(flat: int, cumulative: int, total: int, unit: ValueUnit)
    ensures
        label_text(flat, cumulative, total, unit, false, false) == ""@,
        label_text(flat, cumulative, total, unit, true, false) == "  "@ + ("flat: "@ + value_text(
            flat,
            unit,
        )),
        total == 0 ==> label_text(flat, cumulative, total, unit, false, true) == "  "@ + ("cum: "@
            + value_text(cumulative, unit) + ""@),
        total != 0 ==> label_text(flat, cumulative, total, unit, false, true) == "  "@ + ("cum: "@
            + value_text(cumulative, unit) + (" "@ + percent_text(cumulative, total))),
        label_text(flat, cumulative, total, unit, true, true) == label_text(
            flat,
            cumulative,
            total,
            unit,
            true,
            false,
        ) + " | "@ + label_text(flat, cumulative, total, unit, false, true).skip(2),
{
    reveal_strlit("  ");
    let both = label_text(flat, cumulative, total, unit, true, true);
    let last = label_text(flat, cumulative, total, unit, false, true);
    assert(last.skip(2) =~= cumulative_part(cumulative, total, unit));
    assert(both =~= label_text(flat, cumulative, total, unit, true, false) + " | "@ + last.skip(2));
}

} // verus!
