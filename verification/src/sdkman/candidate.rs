//! The versions that SDKMAN lists for a candidate.

use crate::text::{
    chars_of, is_space, lemma_words_are_solid, lines_of, split_lines, split_words, words_of,
};
use vstd::prelude::*;
use vstd::string::StringExecFns;

verus! {

/// A rule line: one or more times `mark` and nothing else.
pub open spec fn is_rule_line(line: Seq<char>, mark: char) -> bool {
    line.len() > 0 && forall|i: int| 0 <= i < line.len() ==> line[i] == mark
}

/// The lines that structure a listing and never hold versions.
pub open spec fn is_delimiter(line: Seq<char>) -> bool {
    is_rule_line(line, '=') || is_rule_line(line, '-')
}

/// The test for rule lines of `mark`.
pub open spec fn rule_of(mark: char) -> spec_fn(Seq<char>) -> bool {
    |line: Seq<char>| is_rule_line(line, mark)
}

/// How many of `lines` are rule lines of `mark`.
pub open spec fn rule_count(lines: Seq<Seq<char>>, mark: char) -> nat {
    lines.filter(rule_of(mark)).len()
}

/// The two words with which SDKMAN marks an installed version and the one in use.
pub open spec fn is_marker(word: Seq<char>) -> bool {
    word == seq!['*'] || word == seq!['>']
}

/// The test for words that are no markers.
pub open spec fn no_marker() -> spec_fn(Seq<char>) -> bool {
    |word: Seq<char>| !is_marker(word)
}

/// The columns of a body line: its words without the markers.
pub open spec fn columns_of(line: Seq<char>) -> Seq<Seq<char>> {
    words_of(line).filter(no_marker())
}

/// The two layouts in which SDKMAN lists versions.
#[derive(Clone, Copy, Debug)]
pub enum Layout {
    /// Lanes of versions side by side, each lane read downwards.
    Grid,
    /// One version per row, its identifier in the last column.
    Table,
}

/// Whether `line` belongs to the body of a listing, given the lines `before` it.
/// The body lies between the second and the third `=` rule; in a table it also
/// lies between the first and the second `-` rule. Delimiters never belong.
pub open spec fn in_body(layout: Layout, before: Seq<Seq<char>>, line: Seq<char>) -> bool {
    &&& !is_delimiter(line)
    &&& rule_count(before, '=') == 2
    &&& layout is Table ==> rule_count(before, '-') == 1
}

/// The body lines among `lines`, in order.
pub open spec fn body_of(layout: Layout, lines: Seq<Seq<char>>) -> Seq<Seq<char>>
    decreases lines.len(),
{
    if lines.len() == 0 {
        Seq::empty()
    } else if in_body(layout, lines.drop_last(), lines.last()) {
        body_of(layout, lines.drop_last()).push(lines.last())
    } else {
        body_of(layout, lines.drop_last())
    }
}

/// From a line to its columns.
pub open spec fn to_columns() -> spec_fn(Seq<char>) -> Seq<Seq<char>> {
    |line: Seq<char>| columns_of(line)
}

/// The rows of a listing: the columns of each body line.
pub open spec fn rows_of(layout: Layout, text: Seq<char>) -> Seq<Seq<Seq<char>>> {
    body_of(layout, lines_of(text)).map_values(to_columns())
}

/// The number of lanes of a grid: the number of columns of its longest row.
pub open spec fn width_of(rows: Seq<Seq<Seq<char>>>) -> nat
    decreases rows.len(),
{
    if rows.len() == 0 {
        0
    } else if rows.last().len() > width_of(rows.drop_last()) {
        rows.last().len()
    } else {
        width_of(rows.drop_last())
    }
}

/// The test for rows that have a column in lane `lane`.
pub open spec fn reaches(lane: int) -> spec_fn(Seq<Seq<char>>) -> bool {
    |row: Seq<Seq<char>>| lane < row.len()
}

/// From a row to its column in lane `lane`.
pub open spec fn column(lane: int) -> spec_fn(Seq<Seq<char>>) -> Seq<char> {
    |row: Seq<Seq<char>>| row[lane]
}

/// Lane number `lane` of a grid: column `lane` of every row that has one, from
/// the first row down.
pub open spec fn lane_of(rows: Seq<Seq<Seq<char>>>, lane: int) -> Seq<Seq<char>> {
    rows.filter(reaches(lane)).map_values(column(lane))
}

/// The lanes of a grid, from left to right.
pub open spec fn lanes_of(rows: Seq<Seq<Seq<char>>>) -> Seq<Seq<Seq<char>>> {
    Seq::new(width_of(rows), |lane: int| lane_of(rows, lane))
}

/// The versions of a grid listing: lane after lane, each from top to bottom.
pub open spec fn grid_versions_of(text: Seq<char>) -> Seq<Seq<char>> {
    lanes_of(rows_of(Layout::Grid, text)).flatten()
}

/// The test for rows that have a column at all.
pub open spec fn has_column() -> spec_fn(Seq<Seq<char>>) -> bool {
    |row: Seq<Seq<char>>| row.len() > 0
}

/// From a row to its last column.
pub open spec fn last_column() -> spec_fn(Seq<Seq<char>>) -> Seq<char> {
    |row: Seq<Seq<char>>| row.last()
}

/// The versions of a table listing: the last column of each row that has a
/// column, from top to bottom.
pub open spec fn table_versions_of(text: Seq<char>) -> Seq<Seq<char>> {
    rows_of(Layout::Table, text).filter(has_column()).map_values(last_column())
}

/// The layout in which SDKMAN lists the candidate `name`: a table for `java`,
/// a grid for every other candidate.
pub open spec fn layout_of(name: Seq<char>) -> Layout {
    if name == "java"@ {
        Layout::Table
    } else {
        Layout::Grid
    }
}

/// The versions that the listing `text` of the candidate `name` offers, in the
/// order of the listing.
pub open spec fn versions_of(name: Seq<char>, text: Seq<char>) -> Seq<Seq<char>> {
    match layout_of(name) {
        Layout::Table => table_versions_of(text),
        Layout::Grid => grid_versions_of(text),
    }
}

/// What can be a version identifier: a text that is not empty, holds no white
/// space and is no marker.
pub open spec fn is_identifier(version: Seq<char>) -> bool {
    &&& version.len() > 0
    &&& forall|j: int| 0 <= j < version.len() ==> !is_space(#[trigger] version[j])
    &&& !is_marker(version)
}

/// Tells whether `line` is a rule line of `mark`.
pub fn is_rule(line: &str, mark: char) -> (b: bool)
    ensures
        b == is_rule_line(line@, mark),
{
    let chars = chars_of(line);
    if chars.len() == 0 {
        return false;
    }
    let mut i: usize = 0;
    while i < chars.len()
        invariant
            chars@ == line@,
            i <= chars.len(),
            forall|j: int| 0 <= j < i ==> chars@[j] == mark,
        decreases chars.len() - i,
    {
        if chars[i] != mark {
            return false;
        }
        i += 1;
    }
    true
}

/// Tells whether `word` is one of the two markers.
pub fn marks(word: &str) -> (b: bool)
    ensures
        b == is_marker(word@),
{
    let chars = chars_of(word);
    let b = chars.len() == 1 && (chars[0] == '*' || chars[0] == '>');
    proof {
        if b {
            assert(word@ =~= seq![chars@[0]]);
        } else if is_marker(word@) {
            assert(word@.len() == 1);
            assert(word@[0] == '*' || word@[0] == '>');
        }
    }
    b
}

/// The columns of `line`.
pub fn columns(line: &str) -> (cols: Vec<String>)
    ensures
        cols.deep_view() == columns_of(line@),
{
    let words = split_words(line);
    let mut cols: Vec<String> = Vec::new();
    let mut i: usize = 0;
    proof {
        reveal(Seq::filter);
        assert(words.deep_view().take(0).filter(no_marker()) == Seq::<Seq<char>>::empty());
        assert(cols.deep_view() == Seq::<Seq<char>>::empty());
    }
    while i < words.len()
        invariant
            i <= words.len(),
            words.deep_view() == words_of(line@),
            cols.deep_view() == words.deep_view().take(i as int).filter(no_marker()),
        decreases words.len() - i,
    {
        let ghost seen = words.deep_view().take(i as int);
        let ghost before = cols.deep_view();
        proof {
            seen.lemma_filter_push(words@[i as int]@, no_marker());
            assert(words.deep_view().take(i + 1) == seen.push(words@[i as int]@));
        }
        if !marks(words[i].as_str()) {
            let word = words[i].clone();
            cols.push(word);
            assert(cols.deep_view() == before.push(word@));
        }
        i += 1;
    }
    proof {
        assert(words.deep_view().take(words.len() as int) == words.deep_view());
    }
    cols
}

/// Counting rule lines one line further.
pub proof fn lemma_rule_count_push(lines: Seq<Seq<char>>, line: Seq<char>, mark: char)
    ensures
        rule_count(lines.push(line), mark) == rule_count(lines, mark) + if is_rule_line(
            line,
            mark,
        ) {
            1nat
        } else {
            0nat
        },
        rule_count(lines, mark) <= lines.len(),
{
    lines.lemma_filter_push(line, rule_of(mark));
    lines.lemma_filter_len(rule_of(mark));
}

/// The rows of the listing `text`, read in `layout`.
pub fn body_rows(layout: Layout, text: &str) -> (rows: Vec<Vec<String>>)
    ensures
        rows.deep_view() == rows_of(layout, text@),
{
    let lines = split_lines(text);
    let table = match layout {
        Layout::Table => true,
        Layout::Grid => false,
    };
    let mut rows: Vec<Vec<String>> = Vec::new();
    let mut equals: usize = 0;
    let mut dashes: usize = 0;
    let mut i: usize = 0;
    proof {
        reveal(Seq::filter);
        assert(lines.deep_view().take(0) == Seq::<Seq<char>>::empty());
        assert(rows.deep_view() == Seq::<Seq<Seq<char>>>::empty());
        assert(body_of(layout, lines.deep_view().take(0)).map_values(to_columns())
            == Seq::<Seq<Seq<char>>>::empty());
    }
    while i < lines.len()
        invariant
            i <= lines.len(),
            lines.deep_view() == lines_of(text@),
            table == (layout is Table),
            equals <= i,
            dashes <= i,
            equals == rule_count(lines.deep_view().take(i as int), '='),
            dashes == rule_count(lines.deep_view().take(i as int), '-'),
            rows.deep_view() == body_of(layout, lines.deep_view().take(i as int)).map_values(
                to_columns(),
            ),
        decreases lines.len() - i,
    {
        let line = lines[i].as_str();
        let ghost seen = lines.deep_view().take(i as int);
        let ghost next = lines.deep_view().take(i + 1);
        let ghost before = rows.deep_view();
        proof {
            assert(next == seen.push(line@));
            assert(next.drop_last() == seen);
            lemma_rule_count_push(seen, line@, '=');
            lemma_rule_count_push(seen, line@, '-');
            body_of(layout, seen).lemma_push_map_commute(to_columns(), line@);
        }
        let is_equals = is_rule(line, '=');
        let is_dashes = is_rule(line, '-');
        if !is_equals && !is_dashes && equals == 2 && (!table || dashes == 1) {
            let row = columns(line);
            rows.push(row);
            assert(rows.deep_view() == before.push(row.deep_view()));
        }
        if is_equals {
            equals += 1;
        }
        if is_dashes {
            dashes += 1;
        }
        i += 1;
    }
    proof {
        assert(lines.deep_view().take(lines.len() as int) == lines.deep_view());
    }
    rows
}

/// A lane one row further.
pub proof fn lemma_lane_push(rows: Seq<Seq<Seq<char>>>, row: Seq<Seq<char>>, lane: int)
    ensures
        lane_of(rows.push(row), lane) == if lane < row.len() {
            lane_of(rows, lane).push(row[lane])
        } else {
            lane_of(rows, lane)
        },
{
    rows.lemma_filter_push(row, reaches(lane));
    rows.filter(reaches(lane)).lemma_push_map_commute(column(lane), row);
}

/// The number of lanes in `rows`.
pub fn width(rows: &Vec<Vec<String>>) -> (w: usize)
    ensures
        w == width_of(rows.deep_view()),
{
    let mut w: usize = 0;
    let mut i: usize = 0;
    proof {
        assert(rows.deep_view().take(0) == Seq::<Seq<Seq<char>>>::empty());
    }
    while i < rows.len()
        invariant
            i <= rows.len(),
            w == width_of(rows.deep_view().take(i as int)),
        decreases rows.len() - i,
    {
        proof {
            let next = rows.deep_view().take(i + 1);
            assert(next.drop_last() == rows.deep_view().take(i as int));
            assert(next.last().len() == rows@[i as int]@.len());
        }
        if rows[i].len() > w {
            w = rows[i].len();
        }
        i += 1;
    }
    proof {
        assert(rows.deep_view().take(rows.len() as int) == rows.deep_view());
    }
    w
}

/// The versions of a grid, given its rows: lane after lane.
pub fn grid_versions(rows: &Vec<Vec<String>>) -> (versions: Vec<String>)
    ensures
        versions.deep_view() == lanes_of(rows.deep_view()).flatten(),
{
    let lanes = width(rows);
    let mut versions: Vec<String> = Vec::new();
    let mut lane: usize = 0;
    proof {
        assert(lanes_of(rows.deep_view()).take(0) == Seq::<Seq<Seq<char>>>::empty());
        assert(versions.deep_view() == Seq::<Seq<char>>::empty());
    }
    while lane < lanes
        invariant
            lane <= lanes,
            lanes == width_of(rows.deep_view()),
            versions.deep_view() == lanes_of(rows.deep_view()).take(lane as int).flatten(),
        decreases lanes - lane,
    {
        let ghost done = versions.deep_view();
        let mut r: usize = 0;
        proof {
            reveal(Seq::filter);
            assert(rows.deep_view().take(0) == Seq::<Seq<Seq<char>>>::empty());
            assert(lane_of(rows.deep_view().take(0), lane as int) == Seq::<Seq<char>>::empty());
        }
        while r < rows.len()
            invariant
                r <= rows.len(),
                versions.deep_view() == done + lane_of(rows.deep_view().take(r as int), lane as int),
            decreases rows.len() - r,
        {
            let ghost before = versions.deep_view();
            proof {
                let seen = rows.deep_view().take(r as int);
                let row = rows@[r as int].deep_view();
                assert(rows.deep_view().take(r + 1) == seen.push(row));
                lemma_lane_push(seen, row, lane as int);
            }
            if lane < rows[r].len() {
                let version = rows[r][lane].clone();
                versions.push(version);
                assert(versions.deep_view() == before.push(version@));
            }
            r += 1;
        }
        proof {
            let all = lanes_of(rows.deep_view());
            assert(rows.deep_view().take(rows.len() as int) == rows.deep_view());
            assert(all.take(lane + 1) == all.take(lane as int).push(
                lane_of(rows.deep_view(), lane as int),
            ));
            all.take(lane as int).lemma_flatten_push(lane_of(rows.deep_view(), lane as int));
        }
        lane += 1;
    }
    proof {
        let all = lanes_of(rows.deep_view());
        assert(all.take(lanes as int) == all);
    }
    versions
}

/// The versions of a table, given its rows: the last column of each.
pub fn table_versions(rows: &Vec<Vec<String>>) -> (versions: Vec<String>)
    ensures
        versions.deep_view() == rows.deep_view().filter(has_column()).map_values(last_column()),
{
    let mut versions: Vec<String> = Vec::new();
    let mut r: usize = 0;
    proof {
        reveal(Seq::filter);
        assert(rows.deep_view().take(0) == Seq::<Seq<Seq<char>>>::empty());
        assert(rows.deep_view().take(0).filter(has_column()).map_values(last_column())
            == Seq::<Seq<char>>::empty());
        assert(versions.deep_view() == Seq::<Seq<char>>::empty());
    }
    while r < rows.len()
        invariant
            r <= rows.len(),
            versions.deep_view() == rows.deep_view().take(r as int).filter(
                has_column(),
            ).map_values(last_column()),
        decreases rows.len() - r,
    {
        let ghost before = versions.deep_view();
        proof {
            let seen = rows.deep_view().take(r as int);
            let row = rows@[r as int].deep_view();
            assert(rows.deep_view().take(r + 1) == seen.push(row));
            seen.lemma_filter_push(row, has_column());
            seen.filter(has_column()).lemma_push_map_commute(last_column(), row);
        }
        let n = rows[r].len();
        if n > 0 {
            let version = rows[r][n - 1].clone();
            versions.push(version);
            assert(versions.deep_view() == before.push(version@));
        }
        r += 1;
    }
    proof {
        assert(rows.deep_view().take(rows.len() as int) == rows.deep_view());
    }
    versions
}

/// Something that lists the versions on offer.
pub trait Candidate {
    /// The versions on offer, first to last.
    spec fn listed(&self) -> Seq<Seq<char>>;

    fn available_versions(&self) -> (versions: Vec<String>)
        ensures
            versions.deep_view() == self.listed(),
    ;
}

/// A candidate together with what `sdk list` printed for it.
#[derive(Debug)]
pub struct SdkManCandidate {
    pub name: String,
    pub output: String,
}

/// Reading a listing in each of the two layouts.
pub trait VersionParser {
    /// The text to read.
    spec fn listing(&self) -> Seq<char>;

    /// Reads the listing as a grid.
    fn non_java_versions(&self) -> (versions: Vec<String>)
        ensures
            versions.deep_view() == grid_versions_of(self.listing()),
    ;

    /// Reads the listing as a table.
    fn java_versions(&self) -> (versions: Vec<String>)
        ensures
            versions.deep_view() == table_versions_of(self.listing()),
    ;
}

impl VersionParser for SdkManCandidate {
    open spec fn listing(&self) -> Seq<char> {
        self.output@
    }

    fn non_java_versions(&self) -> (versions: Vec<String>) {
        let rows = body_rows(Layout::Grid, self.output.as_str());
        grid_versions(&rows)
    }

    fn java_versions(&self) -> (versions: Vec<String>) {
        let rows = body_rows(Layout::Table, self.output.as_str());
        table_versions(&rows)
    }
}

impl Candidate for SdkManCandidate {
    open spec fn listed(&self) -> Seq<Seq<char>> {
        versions_of(self.name@, self.output@)
    }

    fn available_versions(&self) -> (versions: Vec<String>) {
        let java = String::from_str("java");
        if self.name == java {
            self.java_versions()
        } else {
            self.non_java_versions()
        }
    }
}

/// Every column of a line can be a version identifier.
pub proof fn lemma_columns_are_identifiers(line: Seq<char>, column: Seq<char>)
    requires
        columns_of(line).contains(column),
    ensures
        is_identifier(column),
{
    let words = words_of(line);
    let i = choose|i: int| 0 <= i < columns_of(line).len() && columns_of(line)[i] == column;
    words.lemma_filter_pred(no_marker(), i);
    words.lemma_filter_contains_rev(no_marker(), column);
    let k = choose|k: int| 0 <= k < words.len() && words[k] == column;
    lemma_words_are_solid(line, k);
}

/// Every body line is a line of the listing that belongs to the body where it
/// stands.
pub proof fn lemma_body_lines(layout: Layout, lines: Seq<Seq<char>>, line: Seq<char>)
    requires
        body_of(layout, lines).contains(line),
    ensures
        exists|k: int|
            0 <= k < lines.len() && #[trigger] lines[k] == line && in_body(
                layout,
                lines.take(k),
                line,
            ),
    decreases lines.len(),
{
    if lines.len() > 0 {
        let before = lines.drop_last();
        let body = body_of(layout, lines);
        let i = choose|i: int| 0 <= i < body.len() && body[i] == line;
        if in_body(layout, before, lines.last()) && i == body.len() - 1 {
            assert(lines.take(lines.len() - 1) == before);
            assert(lines[lines.len() - 1] == line);
        } else {
            assert(body_of(layout, before)[i] == line);
            assert(body_of(layout, before).contains(line));
            lemma_body_lines(layout, before, line);
            let k = choose|k: int|
                0 <= k < before.len() && #[trigger] before[k] == line && in_body(
                    layout,
                    before.take(k),
                    line,
                );
            assert(lines.take(k) == before.take(k));
            assert(lines[k] == line);
        }
    }
}

/// Whatever a flattened sequence holds, one of its parts holds.
pub proof fn lemma_flatten_member(parts: Seq<Seq<Seq<char>>>, item: Seq<char>)
    requires
        parts.flatten().contains(item),
    ensures
        exists|k: int| 0 <= k < parts.len() && (#[trigger] parts[k]).contains(item),
    decreases parts.len(),
{
    if parts.len() > 0 {
        let flat = parts.flatten();
        let i = choose|i: int| 0 <= i < flat.len() && flat[i] == item;
        if i < parts.first().len() {
            assert(parts[0][i] == item);
            assert(parts[0].contains(item));
        } else {
            let rest = parts.drop_first();
            assert(rest.flatten()[i - parts.first().len()] == item);
            assert(rest.flatten().contains(item));
            lemma_flatten_member(rest, item);
            let k = choose|k: int| 0 <= k < rest.len() && (#[trigger] rest[k]).contains(item);
            assert(parts[k + 1] == rest[k]);
        }
    }
}

/// Where the versions of a listing come from: each is a column of a body line,
/// and so of a line that is no delimiter, and each can be a version
/// identifier.
pub proof fn lemma_versions_are_columns(name: Seq<char>, text: Seq<char>, version: Seq<char>)
    requires
        versions_of(name, text).contains(version),
    ensures
        is_identifier(version),
        exists|k: int|
            0 <= k < lines_of(text).len() && in_body(
                layout_of(name),
                lines_of(text).take(k),
                #[trigger] lines_of(text)[k],
            ) && columns_of(lines_of(text)[k]).contains(version),
{
    let layout = layout_of(name);
    let lines = lines_of(text);
    let body = body_of(layout, lines);
    let rows = rows_of(layout, text);
    let r = match layout {
        Layout::Grid => {
            let lanes = lanes_of(rows);
            lemma_flatten_member(lanes, version);
            let lane = choose|k: int| 0 <= k < lanes.len() && (#[trigger] lanes[k]).contains(version);
            let reached = rows.filter(reaches(lane));
            let i = choose|i: int|
                0 <= i < lane_of(rows, lane).len() && lane_of(rows, lane)[i] == version;
            rows.lemma_filter_pred(reaches(lane), i);
            assert(reached.contains(reached[i]));
            rows.lemma_filter_contains_rev(reaches(lane), reached[i]);
            let r = choose|r: int| 0 <= r < rows.len() && rows[r] == reached[i];
            assert(rows[r][lane] == version);
            r
        },
        Layout::Table => {
            let filled = rows.filter(has_column());
            let i = choose|i: int|
                0 <= i < versions_of(name, text).len() && versions_of(name, text)[i] == version;
            rows.lemma_filter_pred(has_column(), i);
            assert(filled.contains(filled[i]));
            rows.lemma_filter_contains_rev(has_column(), filled[i]);
            let r = choose|r: int| 0 <= r < rows.len() && rows[r] == filled[i];
            assert(rows[r][rows[r].len() - 1] == version);
            r
        },
    };
    assert(rows[r].contains(version));
    assert(rows[r] == columns_of(body[r]));
    assert(body.contains(body[r]));
    lemma_body_lines(layout, lines, body[r]);
    lemma_columns_are_identifiers(body[r], version);
}

} // verus!
