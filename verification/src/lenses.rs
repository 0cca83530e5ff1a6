//! Code lenses: the rank of a hotspot above its function.

use crate::analysis::HotspotFunction;
use crate::analysis::ProfileData;
use crate::config::Config;
use crate::costs::ordered_lines;
use crate::costs::LineCost;
use crate::format::format_percent;
use crate::format::format_value;
use crate::format::percent_text;
use crate::format::value_text;
use crate::lsp::at_line;
use crate::lsp::line_start;
use crate::lsp::narrow;
use crate::lsp::narrow_line;
use crate::lsp::CodeLens;
use crate::lsp::Command;
use crate::text::decimal;
use crate::text::push_decimal;
use crate::text::same_text;
use vstd::prelude::*;

verus! {

/// The title of a lens.
pub open spec fn title_text(hotspot: HotspotFunction, data: ProfileData) -> Seq<char> {
    "# #"@ + decimal(hotspot.rank as nat) + " hotspot — flat: "@ + value_text(
        hotspot.flat as int,
        data.value_unit,
    ) + " "@ + percent_text(hotspot.flat as int, data.total_value as int) + " | cum: "@
        + value_text(hotspot.cumulative as int, data.value_unit) + " "@ + percent_text(
        hotspot.cumulative as int,
        data.total_value as int,
    )
}

/// No line comes before this one.
pub open spec fn is_least(lines: Map<u64, LineCost>, line: u64) -> bool {
    &&& lines.contains_key(line)
    &&& forall|other: u64| #[trigger] lines.contains_key(other) ==> line <= other
}

/// The first line with costs, counted from zero.
pub open spec fn first_profiled(data: ProfileData, file_key: Seq<char>) -> Option<u64> {
    if data.line_costs@.contains_key(file_key) && exists|line: u64|
        is_least(data.line_costs@[file_key], line) {
        let line = choose|line: u64| is_least(data.line_costs@[file_key], line);
        Some(
            if line > 0 {
                (line - 1) as u64
            } else {
                0
            },
        )
    } else {
        None
    }
}

/// The line of a lens, counted from zero: where the function starts, or else the first
/// line of the file with costs.
pub open spec fn lens_line(hotspot: HotspotFunction, data: ProfileData, file_key: Seq<char>) -> u32 {
    narrow(
        if hotspot.start_line > 0 {
            (hotspot.start_line - 1) as u64
        } else {
            match first_profiled(data, file_key) {
                Some(line) => line,
                None => 0,
            }
        },
    )
}

/// The first hotspots of a file, at most `limit` of them.
pub open spec fn chosen(hotspots: Seq<HotspotFunction>, file_key: Seq<char>, limit: nat) -> Seq<
    HotspotFunction,
> {
    let all = hotspots.filter(|h: HotspotFunction| h.filename@ == file_key);
    if all.len() <= limit {
        all
    } else {
        all.take(limit as int)
    }
}

/// The order puts smaller lines first and keeps equal ones as they were.
pub open spec fn stable_order(order: Seq<int>, lines: Seq<u32>) -> bool {
    &&& order.len() == lines.len()
    &&& forall|i: int| 0 <= i < order.len() ==> 0 <= (#[trigger] order[i]) < lines.len()
    &&& forall|i: int, j: int|
        0 <= i < j < order.len() ==> lines[#[trigger] order[i]] < lines[#[trigger] order[j]] || (
        lines[order[i]] == lines[order[j]] && order[i] < order[j])
}

/// The lens is that of the hotspot.
pub open spec fn is_lens(
    lens: CodeLens,
    hotspot: HotspotFunction,
    data: ProfileData,
    file_key: Seq<char>,
) -> bool {
    &&& lens.range == line_start(lens_line(hotspot, data, file_key))
    &&& lens.command matches Some(command) && command.title@ == title_text(hotspot, data)
        && command.command@.len() == 0
}

/// The lenses are those of the hotspots, in the order of their lines.
pub open spec fn shows_hotspots(
    lenses: Seq<CodeLens>,
    hotspots: Seq<HotspotFunction>,
    data: ProfileData,
    file_key: Seq<char>,
) -> bool {
    let lines = hotspots.map_values(|h: HotspotFunction| lens_line(h, data, file_key));
    exists|order: Seq<int>| #[trigger]
        stable_order(order, lines) && lenses.len() == order.len() && forall|i: int|
            0 <= i < lenses.len() ==> is_lens(
                #[trigger] lenses[i],
                hotspots[order[i]],
                data,
                file_key,
            )
}

/// Format the code lens title.
/// Example: "# #1 hotspot — flat: 2.1s (34%) | cum: 4.3s (70%)"
pub fn format_lens_title(hotspot: &HotspotFunction, data: &ProfileData) -> (r: String)
    ensures
        r@ == title_text(*hotspot, *data),
{
    let mut r: String = String::new();
    r.push_str("# #");
    push_decimal(&mut r, hotspot.rank as u128);
    r.push_str(" hotspot — flat: ");
    r.push_str(format_value(hotspot.flat, data.value_unit).as_str());
    r.push_str(" ");
    r.push_str(format_percent(hotspot.flat, data.total_value).as_str());
    r.push_str(" | cum: ");
    r.push_str(format_value(hotspot.cumulative, data.value_unit).as_str());
    r.push_str(" ");
    r.push_str(format_percent(hotspot.cumulative, data.total_value).as_str());
    assert(r@ =~= title_text(*hotspot, *data));
    r
}

/// Find the first (lowest) profiled line number for a file.
/// Returns 0-indexed line number, or None if no costs exist.
pub fn find_first_profiled_line(data: &ProfileData, file_key: &str) -> (r: Option<u64>)
    ensures
        r == first_profiled(*data, file_key@),
{
    match data.line_costs.get(file_key) {
        Some(costs) => {
            let lines: Vec<(u64, LineCost)> = ordered_lines(costs);
            let ghost known = data.line_costs@[file_key@];
            if lines.len() == 0 {
                assert forall|line: u64| !is_least(known, line) by {
                    if known.contains_key(line) {
                        let i = choose|i: int| 0 <= i < lines@.len() && (#[trigger] lines@[i]).0 == line;
                        assert(lines@[i].0 == line);
                    }
                }
                return None;
            }
            let line: u64 = lines[0].0;
            proof {
                assert forall|other: u64| #[trigger] known.contains_key(other) implies line
                    <= other by {
                    let i = choose|i: int| 0 <= i < lines@.len() && (#[trigger] lines@[i]).0 == other;
                    if i > 0 {
                        assert(lines@[0].0 < lines@[i].0);
                    }
                }
                assert(is_least(known, line));
                let least = choose|l: u64| is_least(known, l);
                assert(is_least(known, least));
                assert(known.contains_key(least) && known.contains_key(line));
                assert(least == line);
            }
            if line > 0 {
                Some(line - 1)
            } else {
                Some(0)
            }
        },
        None => None,
    }
}

/// The lens of a hotspot.
fn make_lens(hotspot: &HotspotFunction, data: &ProfileData, file_key: &str) -> (r: CodeLens)
    ensures
        is_lens(r, *hotspot, *data, file_key@),
{
    let line: u64 = if hotspot.start_line > 0 {
        hotspot.start_line - 1
    } else {
        match find_first_profiled_line(data, file_key) {
            Some(line) => line,
            None => 0,
        }
    };
    CodeLens {
        range: at_line(narrow_line(line)),
        command: Some(
            Command { title: format_lens_title(hotspot, data), command: String::new() },
        ),
    }
}

/// Puts a lens behind those whose lines are not greater.
fn place_lens(lenses: &mut Vec<CodeLens>, lens: CodeLens, Ghost(order): Ghost<Seq<int>>, Ghost(
    lines,
): Ghost<Seq<u32>>) -> (pos: usize)
    requires
        stable_order(order, lines),
        old(lenses)@.len() == order.len(),
        forall|i: int|
            0 <= i < order.len() ==> (#[trigger] old(lenses)@[i]).range.start.line
                == lines[order[i]],
    ensures
        pos <= order.len(),
        final(lenses)@ == old(lenses)@.insert(pos as int, lens),
        stable_order(
            order.insert(pos as int, order.len() as int),
            lines.push(lens.range.start.line),
        ),
{
    let mut pos: usize = lenses.len();
    while pos > 0 && lenses[pos - 1].range.start.line > lens.range.start.line
        invariant
            pos <= lenses@.len(),
            lenses@ == old(lenses)@,
            lenses@.len() == order.len(),
            stable_order(order, lines),
            forall|i: int|
                0 <= i < order.len() ==> (#[trigger] lenses@[i]).range.start.line
                    == lines[order[i]],
            forall|i: int|
                pos <= i < order.len() ==> lines[#[trigger] order[i]] > lens.range.start.line,
        decreases pos,
    {
        assert(lenses@[pos - 1].range.start.line == lines[order[pos - 1]]);
        pos -= 1;
    }
    proof {
        let n = order.len() as int;
        let line = lens.range.start.line;
        let next = order.insert(pos as int, n);
        let longer = lines.push(line);
        assert forall|i: int| 0 <= i < next.len() implies (#[trigger] next[i]) == if i < pos {
            order[i]
        } else if i == pos {
            n
        } else {
            order[i - 1]
        } by {}
        assert forall|i: int| 0 <= i < pos implies lines[#[trigger] order[i]] <= line by {
            assert(lenses@[pos - 1].range.start.line == lines[order[pos - 1]]);
            if i < pos - 1 {
                assert(lines[order[i]] <= lines[order[pos - 1]]);
            }
        }
        assert forall|i: int, j: int| 0 <= i < j < next.len() implies longer[#[trigger] next[i]]
            < longer[#[trigger] next[j]] || (longer[next[i]] == longer[next[j]] && next[i]
            < next[j]) by {
            let a = if i < pos {
                i
            } else {
                i - 1
            };
            let b = if j < pos {
                j
            } else {
                j - 1
            };
            if i != pos {
                assert(next[i] == order[a]);
                assert(longer[order[a]] == lines[order[a]]);
            }
            if j != pos {
                assert(next[j] == order[b]);
                assert(longer[order[b]] == lines[order[b]]);
            }
        }
    }
    lenses.insert(pos, lens);
    pos
}

/// Generate code lenses for a specific file.
///
/// `file_key` is the workspace-relative path as stored in `ProfileData`.
/// Returns code lenses for hotspot functions that appear in this file.
pub fn generate_code_lenses(data: &ProfileData, config: &Config, file_key: &str) -> (r: Vec<
    CodeLens,
>)
    ensures
        shows_hotspots(
            r@,
            chosen(data.hotspots@, file_key@, config.display.max_code_lenses as nat),
            *data,
            file_key@,
        ),
{
    let limit: usize = config.display.max_code_lenses;
    let ghost mine = |h: HotspotFunction| h.filename@ == file_key@;
    let ghost to_line = |h: HotspotFunction| lens_line(h, *data, file_key@);
    let mut lenses: Vec<CodeLens> = Vec::new();
    let ghost mut order: Seq<int> = seq![];
    let ghost mut kept: Seq<HotspotFunction> = seq![];
    let mut n: usize = 0;
    proof {
        assert(data.hotspots@.take(0) =~= seq![]);
        assert(seq![].filter(mine) =~= seq![]) by {
            reveal(Seq::filter);
        }
        assert(chosen(data.hotspots@.take(0), file_key@, limit as nat) =~= kept);
    }
    while n < data.hotspots.len()
        invariant
            n <= data.hotspots@.len(),
            limit == config.display.max_code_lenses,
            mine == (|h: HotspotFunction| h.filename@ == file_key@),
            to_line == (|h: HotspotFunction| lens_line(h, *data, file_key@)),
            kept == chosen(data.hotspots@.take(n as int), file_key@, limit as nat),
            stable_order(order, kept.map_values(to_line)),
            lenses@.len() == order.len(),
            forall|i: int|
                0 <= i < lenses@.len() ==> is_lens(
                    #[trigger] lenses@[i],
                    kept[order[i]],
                    *data,
                    file_key@,
                ),
        decreases data.hotspots.len() - n,
    {
        let hotspot: &HotspotFunction = &data.hotspots[n];
        let ghost before = lenses@;
        let ghost earlier = data.hotspots@.take(n as int);
        let ghost later = data.hotspots@.take(n + 1);
        proof {
            assert(later.drop_last() =~= earlier);
            assert(later.last() == *hotspot);
            reveal(Seq::filter);
            if mine(*hotspot) {
                assert(later.filter(mine) == earlier.filter(mine).push(*hotspot));
            } else {
                assert(later.filter(mine) == earlier.filter(mine));
            }
        }
        if lenses.len() < limit && same_text(hotspot.filename.as_str(), file_key) {
            let lens: CodeLens = make_lens(hotspot, data, file_key);
            let ghost lines = kept.map_values(to_line);
            proof {
                assert(kept == earlier.filter(mine));
                assert(chosen(later, file_key@, limit as nat) =~= kept.push(*hotspot));
                assert(lines.push(lens.range.start.line) =~= kept.push(*hotspot).map_values(to_line));
                assert forall|i: int| 0 <= i < order.len() implies (
                #[trigger] lenses@[i]).range.start.line == lines[order[i]] by {
                    assert(is_lens(lenses@[i], kept[order[i]], *data, file_key@));
                }
            }
            let pos: usize = place_lens(&mut lenses, lens, Ghost(order), Ghost(lines));
            proof {
                let next = order.insert(pos as int, order.len() as int);
                let more = kept.push(*hotspot);
                assert forall|i: int| 0 <= i < lenses@.len() implies is_lens(
                    #[trigger] lenses@[i],
                    more[next[i]],
                    *data,
                    file_key@,
                ) by {
                    if i < pos {
                        assert(lenses@[i] == before[i]);
                        assert(next[i] == order[i]);
                        assert(more[order[i]] == kept[order[i]]);
                    } else if i > pos {
                        assert(lenses@[i] == before[i - 1]);
                        assert(next[i] == order[i - 1]);
                        assert(more[order[i - 1]] == kept[order[i - 1]]);
                    }
                }
                order = next;
                kept = more;
            }
        } else {
            assert(chosen(later, file_key@, limit as nat) =~= kept);
        }
        n += 1;
    }
    proof {
        assert(data.hotspots@.take(n as int) =~= data.hotspots@);
        let lines = kept.map_values(|h: HotspotFunction| lens_line(h, *data, file_key@));
        assert(stable_order(order, lines));
    }
    lenses
}

/// There are at most as many lenses as the limit allows, and their lines do not fall.
pub proof fn lemma_lenses_bounded(
    lenses: Seq<CodeLens>,
    data: ProfileData,
    file_key: Seq<char>,
    limit: nat,
)
    requires
        shows_hotspots(lenses, chosen(data.hotspots@, file_key, limit), data, file_key),
    ensures
        lenses.len() <= limit,
        forall|i: int, j: int|
            0 <= i <= j < lenses.len() ==> (#[trigger] lenses[i]).range.start.line <= (
            #[trigger] lenses[j]).range.start.line,
{
    let hotspots = chosen(data.hotspots@, file_key, limit);
    let lines = hotspots.map_values(|h: HotspotFunction| lens_line(h, data, file_key));
    let order = choose|order: Seq<int>| #[trigger]
        stable_order(order, lines) && lenses.len() == order.len() && forall|i: int|
            0 <= i < lenses.len() ==> is_lens(
                #[trigger] lenses[i],
                hotspots[order[i]],
                data,
                file_key,
            );
    assert forall|i: int, j: int| 0 <= i <= j < lenses.len() implies (
    #[trigger] lenses[i]).range.start.line <= (#[trigger] lenses[j]).range.start.line by {
        assert(is_lens(lenses[i], hotspots[order[i]], data, file_key));
        assert(is_lens(lenses[j], hotspots[order[j]], data, file_key));
        assert(lines[order[i]] == lens_line(hotspots[order[i]], data, file_key));
        assert(lines[order[j]] == lens_line(hotspots[order[j]], data, file_key));
    }
}

/// How many of the hotspots are of the file.
pub open spec fn count_of_file(hotspots: Seq<HotspotFunction>, file_key: Seq<char>) -> nat {
    hotspots.filter(|h: HotspotFunction| h.filename@ == file_key).len()
}

/// One more hotspot of the file is one more, and any other is none.
pub proof fn lemma_count_of_file(
    hotspots: Seq<HotspotFunction>,
    hotspot: HotspotFunction,
    file_key: Seq<char>,
)
    ensures
        count_of_file(seq![], file_key) == 0,
        hotspot.filename@ == file_key ==> count_of_file(hotspots.push(hotspot), file_key)
            == count_of_file(hotspots, file_key) + 1,
        hotspot.filename@ != file_key ==> count_of_file(hotspots.push(hotspot), file_key)
            == count_of_file(hotspots, file_key),
{
    reveal(Seq::filter);
    assert(hotspots.push(hotspot).drop_last() =~= hotspots);
}

proof fn lemma_count_filter(hotspots: Seq<HotspotFunction>, file_key: Seq<char>)
    ensures
        count_of_file(hotspots, file_key) == hotspots.filter(of_file(file_key)).len(),
        forall|limit: nat|
            #![trigger chosen(hotspots, file_key, limit)]
            chosen(hotspots, file_key, limit) == if hotspots.filter(of_file(file_key)).len()
                <= limit {
                hotspots.filter(of_file(file_key))
            } else {
                hotspots.filter(of_file(file_key)).take(limit as int)
            },
{
    let mine = |h: HotspotFunction| h.filename@ == file_key;
    assert(of_file(file_key) =~= mine);
}

spec fn of_file(file_key: Seq<char>) -> spec_fn(HotspotFunction) -> bool {
    |h: HotspotFunction| h.filename@ == file_key
}

/// Where the hotspots of a file stand in the list.
proof fn lemma_file_places(hotspots: Seq<HotspotFunction>, n: int, file_key: Seq<char>) -> (places:
    Seq<int>)
    requires
        0 <= n <= hotspots.len(),
    ensures
        ({
            let mine = hotspots.take(n).filter(of_file(file_key));
            &&& places.len() == mine.len()
            &&& forall|a: int, b: int|
                0 <= a < b < places.len() ==> #[trigger] places[a] < #[trigger] places[b]
            &&& forall|a: int|
                0 <= a < places.len() ==> 0 <= #[trigger] places[a] < n && hotspots[places[a]]
                    == mine[a] && hotspots[places[a]].filename@ == file_key && count_of_file(
                    hotspots.take(places[a]),
                    file_key,
                ) == a
            &&& forall|k: int|
                0 <= k < n && (#[trigger] hotspots[k]).filename@ == file_key ==> places.contains(k)
        }),
    decreases n,
{
    let mine = of_file(file_key);
    reveal(Seq::filter);
    if n == 0 {
        assert(hotspots.take(0) =~= seq![]);
        seq![]
    } else {
        let before = lemma_file_places(hotspots, n - 1, file_key);
        let t = hotspots.take(n);
        lemma_count_filter(hotspots.take(n - 1), file_key);
        assert(t.drop_last() =~= hotspots.take(n - 1));
        assert(t.last() == hotspots[n - 1]);
        if hotspots[n - 1].filename@ == file_key {
            let places = before.push(n - 1);
            let all = t.filter(mine);
            assert(all == hotspots.take(n - 1).filter(mine).push(hotspots[n - 1]));
            assert forall|a: int| 0 <= a < places.len() implies 0 <= #[trigger] places[a] < n
                && hotspots[places[a]] == all[a] && hotspots[places[a]].filename@ == file_key
                && count_of_file(hotspots.take(places[a]), file_key) == a by {
                if a < before.len() {
                    assert(places[a] == before[a]);
                }
            }
            assert forall|k: int|
                0 <= k < n && (#[trigger] hotspots[k]).filename@ == file_key implies places.contains(
                k,
            ) by {
                if k < n - 1 {
                    assert(before.contains(k));
                    let a = choose|a: int| 0 <= a < before.len() && before[a] == k;
                    assert(places[a] == k);
                } else {
                    assert(places[before.len() as int] == k);
                }
            }
            places
        } else {
            assert(t.filter(mine) == hotspots.take(n - 1).filter(mine));
            before
        }
    }
}

/// The lenses of a file are those of its hotspots, wherever they stand in the list of all:
/// of all of them where they are at most as many as the limit, else of the first ones of
/// this file. They come in the order of their lines, equal ones in the order of the list.
pub proof fn lemma_lenses_of_file(
    lenses: Seq<CodeLens>,
    data: ProfileData,
    file_key: Seq<char>,
    limit: nat,
)
    requires
        shows_hotspots(lenses, chosen(data.hotspots@, file_key, limit), data, file_key),
    ensures
        lenses.len() == if count_of_file(data.hotspots@, file_key) <= limit {
            count_of_file(data.hotspots@, file_key)
        } else {
            limit
        },
        exists|places: Seq<int>|
            #![trigger places.len()]
            {
                &&& places.len() == lenses.len()
                &&& places.no_duplicates()
                &&& forall|i: int|
                    0 <= i < places.len() ==> 0 <= #[trigger] places[i] < data.hotspots@.len()
                        && data.hotspots@[places[i]].filename@ == file_key
                &&& forall|k: int|
                    0 <= k < data.hotspots@.len() && (#[trigger] data.hotspots@[k]).filename@
                        == file_key ==> (places.contains(k) <==> count_of_file(
                        data.hotspots@.take(k),
                        file_key,
                    ) < limit)
                &&& forall|i: int, j: int|
                    0 <= i < j < lenses.len() ==> (#[trigger] lenses[i]).range.start.line < (
                    #[trigger] lenses[j]).range.start.line || (lenses[i].range.start.line
                        == lenses[j].range.start.line && places[i] < places[j])
                &&& forall|i: int|
                    0 <= i < lenses.len() ==> is_lens(
                        #[trigger] lenses[i],
                        data.hotspots@[places[i]],
                        data,
                        file_key,
                    )
            },
{
    let hotspots = data.hotspots@;
    let n = hotspots.len() as int;
    let kept = chosen(hotspots, file_key, limit);
    let lines = kept.map_values(|h: HotspotFunction| lens_line(h, data, file_key));
    let order = choose|order: Seq<int>| #[trigger]
        stable_order(order, lines) && lenses.len() == order.len() && forall|i: int|
            0 <= i < lenses.len() ==> is_lens(
                #[trigger] lenses[i],
                kept[order[i]],
                data,
                file_key,
            );
    let all = lemma_file_places(hotspots, n, file_key);
    assert(hotspots.take(n) =~= hotspots);
    lemma_count_filter(hotspots, file_key);
    let mine = hotspots.filter(of_file(file_key));
    assert(forall|a: int| 0 <= a < kept.len() ==> #[trigger] kept[a] == mine[a]);
    let places = Seq::new(order.len(), |i: int| all[order[i]]);
    assert forall|i: int| 0 <= i < places.len() implies 0 <= #[trigger] places[i] < n
        && hotspots[places[i]] == kept[order[i]] && hotspots[places[i]].filename@ == file_key by {
        assert(0 <= order[i] < lines.len());
        assert(places[i] == all[order[i]]);
        assert(kept[order[i]] == mine[order[i]]);
    }
    assert forall|i: int, j: int| 0 <= i < j < order.len() implies order[i] != order[j] by {
        assert(lines[order[i]] < lines[order[j]] || (lines[order[i]] == lines[order[j]] && order[i]
            < order[j]));
    }
    assert forall|i: int, j: int|
        0 <= i < places.len() && 0 <= j < places.len() && i != j implies places[i] != places[j] by {
        assert(order[i] != order[j]);
        assert(0 <= order[i] < lines.len() && 0 <= order[j] < lines.len());
        if order[i] < order[j] {
            assert(all[order[i]] < all[order[j]]);
        } else {
            assert(all[order[j]] < all[order[i]]);
        }
    }
    lemma_order_covers(order, lines.len() as int);
    assert forall|k: int|
        0 <= k < n && (#[trigger] hotspots[k]).filename@ == file_key implies (places.contains(k)
        <==> count_of_file(hotspots.take(k), file_key) < limit) by {
        assert(all.contains(k));
        let a = choose|a: int| 0 <= a < all.len() && all[a] == k;
        assert(count_of_file(hotspots.take(all[a]), file_key) == a);
        if places.contains(k) {
            let i = choose|i: int| 0 <= i < places.len() && places[i] == k;
            assert(0 <= order[i] < lines.len());
            if order[i] < a {
                assert(all[order[i]] < all[a]);
            } else if a < order[i] {
                assert(all[a] < all[order[i]]);
            }
        }
        if a < limit {
            assert(0 <= a < lines.len());
            assert(order.contains(a));
            let i = choose|i: int| 0 <= i < order.len() && order[i] == a;
            assert(places[i] == k);
        }
    }
    assert forall|i: int, j: int| 0 <= i < j < lenses.len() implies (
    #[trigger] lenses[i]).range.start.line < (#[trigger] lenses[j]).range.start.line || (
    lenses[i].range.start.line == lenses[j].range.start.line && places[i] < places[j]) by {
        assert(is_lens(lenses[i], kept[order[i]], data, file_key));
        assert(is_lens(lenses[j], kept[order[j]], data, file_key));
        assert(0 <= order[i] < lines.len() && 0 <= order[j] < lines.len());
        assert(lines[order[i]] == lens_line(kept[order[i]], data, file_key));
        assert(lines[order[j]] == lens_line(kept[order[j]], data, file_key));
        assert(lines[order[i]] < lines[order[j]] || (lines[order[i]] == lines[order[j]] && order[i]
            < order[j]));
        if order[i] < order[j] {
            assert(all[order[i]] < all[order[j]]);
        }
    }
    assert forall|i: int| 0 <= i < lenses.len() implies is_lens(
        #[trigger] lenses[i],
        hotspots[places[i]],
        data,
        file_key,
    ) by {
        assert(hotspots[places[i]] == kept[order[i]]);
    }
    assert(places.len() == lenses.len());
}

/// A lens stands at the start of the line where its function starts, or else where the
/// first costs of the file are, and tells the hotspot's rank and costs.
pub proof fn lemma_lens_says(
    lens: CodeLens,
    hotspot: HotspotFunction,
    data: ProfileData,
    file_key: Seq<char>,
)
    requires
        is_lens(lens, hotspot, data, file_key),
    ensures
        1 <= hotspot.start_line <= 0x1_0000_0000 ==> lens.range.start.line == hotspot.start_line
            - 1,
        lens.range.start.character == 0,
        lens.range.end == lens.range.start,
        lens.command is Some,
        lens.command.unwrap().command@.len() == 0,
        lens.command.unwrap().title@ == "# #"@ + decimal(hotspot.rank as nat)
            + " hotspot — flat: "@ + value_text(hotspot.flat as int, data.value_unit) + " "@
            + percent_text(hotspot.flat as int, data.total_value as int) + " | cum: "@ + value_text(
            hotspot.cumulative as int,
            data.value_unit,
        ) + " "@ + percent_text(hotspot.cumulative as int, data.total_value as int),
{
}

/// A function without a starting line has its lens at the least line of the file that has
/// costs, or at the start of a file without any.
pub proof fn lemma_lens_at_first_line(
    lens: CodeLens,
    hotspot: HotspotFunction,
    data: ProfileData,
    file_key: Seq<char>,
    line: u64,
)
    requires
        is_lens(lens, hotspot, data, file_key),
        hotspot.start_line == 0,
    ensures
        !data.line_costs@.contains_key(file_key) ==> lens.range.start.line == 0,
        data.line_costs@.contains_key(file_key) && data.line_costs@[file_key].contains_key(line)
            && (forall|other: u64| #[trigger]
            data.line_costs@[file_key].contains_key(other) ==> line <= other) && 1 <= line
            <= 0x1_0000_0000 ==> lens.range.start.line == line - 1,
{
    if data.line_costs@.contains_key(file_key) {
        let lines = data.line_costs@[file_key];
        if lines.contains_key(line) && (forall|other: u64| #[trigger]
            lines.contains_key(other) ==> line <= other) {
            assert(is_least(lines, line));
            let least = choose|l: u64| is_least(lines, l);
            assert(is_least(lines, least));
            assert(lines.contains_key(least) && lines.contains_key(line));
        }
    }
}

/// As many different places as there are fill them all.
proof fn lemma_order_covers(order: Seq<int>, n: int)
    requires
        order.len() == n,
        forall|i: int| 0 <= i < order.len() ==> 0 <= #[trigger] order[i] < n,
        forall|i: int, j: int| 0 <= i < j < order.len() ==> order[i] != order[j],
    ensures
        forall|a: int| 0 <= a < n ==> order.contains(a),
{
    assert(order.no_duplicates());
    order.unique_seq_to_set();
    let full = vstd::set_lib::set_int_range(0, n);
    vstd::set_lib::lemma_int_range(0, n);
    assert(order.to_set().subset_of(full)) by {
        assert forall|a: int| order.to_set().contains(a) implies full.contains(a) by {
            let i = choose|i: int| 0 <= i < order.len() && order[i] == a;
        }
    }
    vstd::set_lib::lemma_subset_equality(order.to_set(), full);
    assert forall|a: int| 0 <= a < n implies order.contains(a) by {
        assert(full.contains(a));
        assert(order.to_set().contains(a));
    }
}

/// The first line with costs is the least, counted from zero; there is none where the file
/// has no costs.
pub proof fn lemma_first_profiled(data: ProfileData, file_key: Seq<char>, line: u64)
    ensures
        !data.line_costs@.contains_key(file_key) ==> first_profiled(data, file_key) is None,
        data.line_costs@.contains_key(file_key) && (forall|other: u64|
            !(#[trigger] data.line_costs@[file_key].contains_key(other))) ==> first_profiled(
            data,
            file_key,
        ) is None,
        data.line_costs@.contains_key(file_key) && data.line_costs@[file_key].contains_key(line)
            && (forall|other: u64| #[trigger]
            data.line_costs@[file_key].contains_key(other) ==> line <= other) ==> first_profiled(
            data,
            file_key,
        ) == Some(
            if line == 0 {
                0u64
            } else {
                (line - 1) as u64
            },
        ),
{
    if data.line_costs@.contains_key(file_key) {
        let lines = data.line_costs@[file_key];
        if lines.contains_key(line) && (forall|other: u64| #[trigger]
            lines.contains_key(other) ==> line <= other) {
            assert(is_least(lines, line));
            let least = choose|l: u64| is_least(lines, l);
            assert(is_least(lines, least));
            assert(lines.contains_key(least) && lines.contains_key(line));
        }
    }
}

} // verus!
