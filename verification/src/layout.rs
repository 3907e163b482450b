//! The two input layouts, as lines of characters.
//!
//! A single-column input holds one value per nonblank line. A long-format
//! input holds `value<TAB>group` lines; its groups are numbered in order of
//! first appearance. Turning a value's text into a number is left to the
//! caller, which also reads the lines: the functions here say which text is a
//! value, on which 1-based line it stands, and which refusal, if any, the
//! layout itself calls for.
use vstd::prelude::*;
use crate::error::FlignerError;
use crate::text::{
    copy_range, has_tab, has_visible, is_white_space, lemma_line_breaks_stripped_prefix,
    lemma_split_one_tab, lemma_split_white_space_two, lemma_trim_nonempty,
    line_breaks_stripped_len, same_chars, split_on_tab, split_tabs, split_white_space,
    split_white_space_chars, texts, trim, trim_chars, trim_end_line_breaks,
};

verus! {

/// The text of one value and the 1-based line it stands on.
pub struct Token {
    pub line: usize,
    pub text: Vec<char>,
}

/// One long-format row: its line, the text of its value, and the 0-based
/// number of its group.
pub struct LongRow {
    pub line: usize,
    pub value: Vec<char>,
    pub group: usize,
}

/// What a long-format input holds: its rows up to the first malformed line,
/// its group labels in order of first appearance, and the refusal it calls
/// for, if any.
pub struct LongLayout {
    pub rows: Vec<LongRow>,
    pub labels: Vec<Vec<char>>,
    pub stop: Option<FlignerError>,
}

pub open spec fn token_views(t: Seq<Token>) -> Seq<(int, Seq<char>)> {
    t.map_values(|x: Token| (x.line as int, x.text@))
}

pub open spec fn row_views(r: Seq<LongRow>) -> Seq<(int, Seq<char>, int)> {
    r.map_values(|x: LongRow| (x.line as int, x.value@, x.group as int))
}

/// The values of a single-column input: each nonblank line, trimmed, with
/// its 1-based line number.
pub open spec fn column_tokens(lines: Seq<Seq<char>>) -> Seq<(int, Seq<char>)>
    decreases lines.len(),
{
    if lines.len() == 0 {
        Seq::empty()
    } else {
        let prev = column_tokens(lines.drop_last());
        let t = trim(lines.last());
        if t.len() == 0 {
            prev
        } else {
            prev.push((lines.len() as int, t))
        }
    }
}

/// A long-format line holds nothing but whitespace.
pub open spec fn long_blank(line: Seq<char>) -> bool {
    trim(trim_end_line_breaks(line)).len() == 0
}

/// The fields of a long-format line: split at tabs, each trimmed, if it holds
/// a tab; split at whitespace otherwise.
pub open spec fn long_fields(line: Seq<char>) -> Seq<Seq<char>> {
    let t = trim_end_line_breaks(line);
    if t.contains('\t') {
        split_on_tab(t).map_values(|f: Seq<char>| trim(f))
    } else {
        split_white_space(t)
    }
}

/// The position of the first occurrence of `label` in `labels`, or
/// `labels.len()` when it does not occur.
pub open spec fn label_position(labels: Seq<Seq<char>>, label: Seq<char>) -> int
    decreases labels.len(),
{
    if labels.len() == 0 {
        0
    } else {
        let p = label_position(labels.drop_last(), label);
        if p < labels.len() - 1 {
            p
        } else if labels.last() == label {
            labels.len() - 1
        } else {
            labels.len() as int
        }
    }
}

/// Reading a long-format input line by line: the rows, the labels in order
/// of first appearance, and the 1-based line of the first malformed line.
/// Reading stops at a malformed line.
pub open spec fn long_scan(lines: Seq<Seq<char>>) -> (
    Seq<(int, Seq<char>, int)>,
    Seq<Seq<char>>,
    Option<int>,
)
    decreases lines.len(),
{
    if lines.len() == 0 {
        (Seq::empty(), Seq::empty(), None)
    } else {
        let (rows, labels, failed) = long_scan(lines.drop_last());
        let line = lines.last();
        let n = lines.len() as int;
        if failed is Some || long_blank(line) {
            (rows, labels, failed)
        } else {
            let f = long_fields(line);
            if f.len() != 2 {
                (rows, labels, Some(n))
            } else {
                let g = label_position(labels, f[1]);
                let labels2 = if g == labels.len() {
                    labels.push(f[1])
                } else {
                    labels
                };
                (rows.push((n, f[0], g)), labels2, None)
            }
        }
    }
}

/// The refusal a long-format input calls for: its first malformed line, or,
/// once the whole input has been read, fewer than two groups.
pub open spec fn long_stop(lines: Seq<Seq<char>>, at_end: bool) -> Option<FlignerError> {
    let (rows, labels, failed) = long_scan(lines);
    match failed {
        Some(l) => Some(FlignerError::ExpectedValueAndGroup { line: l as usize }),
        None => if at_end && labels.len() < 2 {
            Some(FlignerError::TooFewLongGroups)
        } else {
            None
        },
    }
}

/// The refusal, if any, that the number of input files and the layout call
/// for: `--long` reads exactly one file, the single-column layout at least two.
pub open spec fn input_files_refusal(files: int, long: bool) -> Option<FlignerError> {
    if long {
        if files != 1 {
            Some(FlignerError::LongNeedsOneFile)
        } else {
            None
        }
    } else if files < 2 {
        Some(FlignerError::TooFewGroupFiles)
    } else {
        None
    }
}

/// Checks the number of input files against the layout.
pub fn check_input_files(files: usize, long: bool) -> (r: Result<(), FlignerError>)
    ensures
        match input_files_refusal(files as int, long) {
            Some(e) => r == Err::<(), FlignerError>(e),
            None => r is Ok,
        },
{
    if long {
        if files != 1 {
            return Err(FlignerError::LongNeedsOneFile);
        }
        Ok(())
    } else if files < 2 {
        Err(FlignerError::TooFewGroupFiles)
    } else {
        Ok(())
    }
}

/// The values of a single-column input, given its lines; `at_end` tells
/// whether the lines are the whole input. An input read to its end without
/// a single value is refused.
pub fn parse_column(lines: &[Vec<char>], at_end: bool) -> (r: Result<Vec<Token>, FlignerError>)
    ensures
        (r is Err) <==> (at_end && column_tokens(texts(lines@)).len() == 0),
        r is Err ==> r == Err::<Vec<Token>, FlignerError>(FlignerError::NoData),
        r matches Ok(t) ==> token_views(t@) == column_tokens(texts(lines@)),
{
    let ghost ls = texts(lines@);
    let mut tokens: Vec<Token> = Vec::new();
    let mut i: usize = 0;
    proof {
        assert(ls.subrange(0, 0) =~= Seq::<Seq<char>>::empty());
        assert(token_views(tokens@) =~= Seq::<(int, Seq<char>)>::empty());
    }
    while i < lines.len()
        invariant
            ls == texts(lines@),
            i <= lines.len(),
            token_views(tokens@) == column_tokens(ls.subrange(0, i as int)),
        decreases lines.len() - i,
    {
        let t = trim_chars(lines[i].as_slice());
        let ghost prev = token_views(tokens@);
        proof {
            let sub = ls.subrange(0, i + 1);
            assert(sub.drop_last() =~= ls.subrange(0, i as int));
            assert(sub.last() == lines@[i as int]@);
        }
        if t.len() > 0 {
            tokens.push(Token { line: i + 1, text: t });
            proof {
                assert(token_views(tokens@) =~= prev.push(((i + 1) as int, t@)));
            }
        }
        i = i + 1;
    }
    proof {
        assert(ls.subrange(0, lines.len() as int) =~= ls);
    }
    if at_end && tokens.len() == 0 {
        return Err(FlignerError::NoData);
    }
    Ok(tokens)
}

/// A copy of all of `s`.
fn copy_all(s: &[char]) -> (r: Vec<char>)
    ensures
        r@ == s@,
{
    let r = copy_range(s, 0, s.len());
    proof {
        assert(s@.subrange(0, s.len() as int) =~= s@);
    }
    r
}

/// Each piece trimmed.
fn trim_each(parts: &Vec<Vec<char>>) -> (r: Vec<Vec<char>>)
    ensures
        texts(r@) == texts(parts@).map_values(|f: Seq<char>| trim(f)),
{
    let mut r: Vec<Vec<char>> = Vec::new();
    let mut k: usize = 0;
    while k < parts.len()
        invariant
            k <= parts.len(),
            texts(r@) == texts(parts@).subrange(0, k as int).map_values(|f: Seq<char>| trim(f)),
        decreases parts.len() - k,
    {
        let t = trim_chars(parts[k].as_slice());
        let ghost prev = texts(r@);
        let ghost tv = t@;
        r.push(t);
        proof {
            assert(texts(r@) =~= prev.push(tv));
            assert(tv == trim(texts(parts@)[k as int]));
            assert(texts(r@) =~= texts(parts@).subrange(0, k + 1).map_values(
                |f: Seq<char>| trim(f),
            ));
        }
        k = k + 1;
    }
    proof {
        assert(texts(parts@).subrange(0, parts.len() as int) =~= texts(parts@));
    }
    r
}

/// The fields of one long-format line; `None` when the line is blank.
fn line_fields(line: &[char]) -> (r: Option<Vec<Vec<char>>>)
    ensures
        r is None <==> long_blank(line@),
        r matches Some(f) ==> texts(f@) == long_fields(line@),
{
    let b = line_breaks_stripped_len(line);
    let t = copy_range(line, 0, b);
    let tt = trim_chars(t.as_slice());
    if tt.len() == 0 {
        return None;
    }
    if has_tab(t.as_slice()) {
        let parts = split_tabs(t.as_slice());
        Some(trim_each(&parts))
    } else {
        Some(split_white_space_chars(t.as_slice()))
    }
}

/// Extending a prefix in which `label` already occurs keeps its position.
proof fn lemma_label_position_prefix(labels: Seq<Seq<char>>, label: Seq<char>, k: int)
    requires
        0 <= k <= labels.len(),
        label_position(labels.subrange(0, k), label) < k,
    ensures
        label_position(labels, label) == label_position(labels.subrange(0, k), label),
    decreases labels.len(),
{
    if labels.len() == k {
        assert(labels.subrange(0, k) =~= labels);
    } else {
        let d = labels.drop_last();
        assert(d.subrange(0, k) =~= labels.subrange(0, k));
        lemma_label_position_prefix(d, label, k);
    }
}

/// The position of `label` among `labels`, or `labels.len()` if absent.
fn find_label(labels: &Vec<Vec<char>>, label: &[char]) -> (k: usize)
    ensures
        k == label_position(texts(labels@), label@),
{
    let ghost ls = texts(labels@);
    let mut k: usize = 0;
    proof {
        assert(ls.subrange(0, 0) =~= Seq::<Seq<char>>::empty());
    }
    while k < labels.len()
        invariant
            ls == texts(labels@),
            k <= labels.len(),
            label_position(ls.subrange(0, k as int), label@) == k,
        decreases labels.len() - k,
    {
        let same = same_chars(labels[k].as_slice(), label);
        proof {
            let sub = ls.subrange(0, k + 1);
            assert(sub.drop_last() =~= ls.subrange(0, k as int));
            assert(sub.last() == labels@[k as int]@);
        }
        if same {
            proof {
                lemma_label_position_prefix(ls, label@, k + 1);
            }
            return k;
        }
        k = k + 1;
    }
    proof {
        assert(ls.subrange(0, labels.len() as int) =~= ls);
    }
    k
}

/// Reads a long-format input, given its lines; `at_end` tells whether the
/// lines are the whole input.
pub fn parse_long(lines: &[Vec<char>], at_end: bool) -> (r: LongLayout)
    ensures
        row_views(r.rows@) == long_scan(texts(lines@)).0,
        texts(r.labels@) == long_scan(texts(lines@)).1,
        r.stop == long_stop(texts(lines@), at_end),
{
    let ghost ls = texts(lines@);
    let mut rows: Vec<LongRow> = Vec::new();
    let mut labels: Vec<Vec<char>> = Vec::new();
    let mut failed: Option<usize> = None;
    let mut i: usize = 0;
    proof {
        assert(ls.subrange(0, 0) =~= Seq::<Seq<char>>::empty());
        assert(row_views(rows@) =~= Seq::<(int, Seq<char>, int)>::empty());
        assert(texts(labels@) =~= Seq::<Seq<char>>::empty());
    }
    while i < lines.len()
        invariant
            ls == texts(lines@),
            i <= lines.len(),
            (row_views(rows@), texts(labels@), match failed {
                Some(l) => Some(l as int),
                None => None,
            }) == long_scan(ls.subrange(0, i as int)),
        decreases lines.len() - i,
    {
        proof {
            let sub = ls.subrange(0, i + 1);
            assert(sub.drop_last() =~= ls.subrange(0, i as int));
            assert(sub.last() == lines@[i as int]@);
        }
        if failed.is_none() {
            match line_fields(lines[i].as_slice()) {
                None => {},
                Some(fields) => {
                    if fields.len() != 2 {
                        failed = Some(i + 1);
                    } else {
                        let value = copy_all(fields[0].as_slice());
                        let label = copy_all(fields[1].as_slice());
                        let g = find_label(&labels, label.as_slice());
                        let ghost prev_rows = row_views(rows@);
                        let ghost prev_labels = texts(labels@);
                        if g == labels.len() {
                            labels.push(label);
                            proof {
                                assert(texts(labels@) =~= prev_labels.push(
                                    texts(fields@)[1],
                                ));
                            }
                        }
                        rows.push(LongRow { line: i + 1, value, group: g });
                        proof {
                            assert(row_views(rows@) =~= prev_rows.push(
                                ((i + 1) as int, texts(fields@)[0], g as int),
                            ));
                        }
                    }
                },
            }
        }
        i = i + 1;
    }
    proof {
        assert(ls.subrange(0, lines.len() as int) =~= ls);
    }
    let stop = match failed {
        Some(l) => Some(FlignerError::ExpectedValueAndGroup { line: l }),
        None => if at_end && labels.len() < 2 {
            Some(FlignerError::TooFewLongGroups)
        } else {
            None
        },
    };
    LongLayout { rows, labels, stop }
}

} // verus!

verus! {

/// `label_position` finds `label` exactly where it first occurs.
pub proof fn lemma_label_position(labels: Seq<Seq<char>>, label: Seq<char>)
    ensures
        0 <= label_position(labels, label) <= labels.len(),
        label_position(labels, label) < labels.len() ==> labels[label_position(labels, label)]
            == label,
        forall|i: int|
            0 <= i < label_position(labels, label) ==> #[trigger] labels[i] != label,
    decreases labels.len(),
{
    if labels.len() > 0 {
        let d = labels.drop_last();
        lemma_label_position(d, label);
        assert forall|i: int| 0 <= i < label_position(labels, label) implies #[trigger] labels[i]
            != label by {
            if i < d.len() {
                assert(d[i] == labels[i]);
            }
        }
    }
}

/// Every value of a single-column input is the trimmed text of a nonblank
/// line, with that line's number; the values keep the order of the lines,
/// and every nonblank line gives one.
pub proof fn lemma_column_tokens(lines: Seq<Seq<char>>)
    ensures
        forall|k: int|
            0 <= k < column_tokens(lines).len() ==> {
                let (l, t) = #[trigger] column_tokens(lines)[k];
                &&& 1 <= l <= lines.len()
                &&& t == trim(lines[l - 1])
                &&& t.len() > 0
            },
        forall|a: int, b: int|
            0 <= a < b < column_tokens(lines).len() ==> (#[trigger] column_tokens(lines)[a]).0
                < (#[trigger] column_tokens(lines)[b]).0,
        forall|i: int|
            0 <= i < lines.len() && #[trigger] trim(lines[i]).len() > 0 ==> exists|k: int|
                0 <= k < column_tokens(lines).len() && (#[trigger] column_tokens(lines)[k]).0
                    == i + 1,
    decreases lines.len(),
{
    if lines.len() > 0 {
        let d = lines.drop_last();
        lemma_column_tokens(d);
        let prev = column_tokens(d);
        let cur = column_tokens(lines);
        assert forall|k: int| 0 <= k < prev.len() implies cur[k] == prev[k] by {}
        assert forall|i: int|
            0 <= i < lines.len() && #[trigger] trim(lines[i]).len() > 0 implies exists|k: int|
                0 <= k < cur.len() && (#[trigger] cur[k]).0 == i + 1 by {
            if i < d.len() {
                assert(d[i] == lines[i]);
                assert(trim(d[i]).len() > 0);
                let k = choose|k: int| 0 <= k < prev.len() && (#[trigger] prev[k]).0 == i + 1;
                assert(cur[k] == prev[k]);
            } else {
                assert(cur[prev.len() as int].0 == i + 1);
            }
        }
    }
}

/// Some row is in group `g`.
pub open spec fn group_has_row(rows: Seq<(int, Seq<char>, int)>, g: int) -> bool {
    exists|j: int| 0 <= j < rows.len() && (#[trigger] rows[j]).2 == g
}

/// What reading a long-format input keeps true: the labels are distinct;
/// each row stands on a well-formed line, holds that line's first field as
/// its value and is in the group of the line's second field; rows keep the
/// order of the lines; and groups are numbered in order of first
/// appearance, every group having a row and a group's first row coming after
/// a row of the group before it.
pub proof fn lemma_long_scan(lines: Seq<Seq<char>>)
    ensures
        ({
            let (rows, labels, failed) = long_scan(lines);
            &&& forall|a: int, b: int|
                0 <= a < b < labels.len() ==> #[trigger] labels[a] != #[trigger] labels[b]
            &&& forall|j: int|
                0 <= j < rows.len() ==> {
                    let (l, value, g) = #[trigger] rows[j];
                    &&& 1 <= l <= lines.len()
                    &&& long_fields(lines[l - 1]).len() == 2
                    &&& value == long_fields(lines[l - 1])[0]
                    &&& 0 <= g < labels.len()
                    &&& labels[g] == long_fields(lines[l - 1])[1]
                }
            &&& forall|a: int, b: int|
                0 <= a < b < rows.len() ==> (#[trigger] rows[a]).0 < (#[trigger] rows[b]).0
            &&& forall|g: int| 0 <= g < labels.len() ==> #[trigger] group_has_row(rows, g)
            &&& forall|j: int|
                0 <= j < rows.len() && (#[trigger] rows[j]).2 > 0 ==> exists|i: int|
                    0 <= i < j && (#[trigger] rows[i]).2 == rows[j].2 - 1
        }),
    decreases lines.len(),
{
    if lines.len() > 0 {
        let d = lines.drop_last();
        lemma_long_scan(d);
        let (rows0, labels0, failed0) = long_scan(d);
        let (rows, labels, failed) = long_scan(lines);
        let line = lines.last();
        let n = lines.len() as int;
        assert forall|i: int| 0 <= i < d.len() implies #[trigger] d[i] == lines[i] by {}
        if failed0 is Some || long_blank(line) {
        } else {
            let f = long_fields(line);
            if f.len() == 2 {
                let g = label_position(labels0, f[1]);
                lemma_label_position(labels0, f[1]);
                assert forall|j: int| 0 <= j < rows0.len() implies #[trigger] rows[j]
                    == rows0[j] by {}
                assert forall|k: int| 0 <= k < labels0.len() implies #[trigger] labels[k]
                    == labels0[k] by {}
                assert forall|a: int, b: int|
                    0 <= a < b < labels.len() implies #[trigger] labels[a]
                    != #[trigger] labels[b] by {
                    if b == labels0.len() {
                        assert(labels[a] == labels0[a]);
                    }
                }
                assert forall|j: int| 0 <= j < rows.len() implies {
                    let (l, value, gg) = #[trigger] rows[j];
                    &&& 1 <= l <= lines.len()
                    &&& long_fields(lines[l - 1]).len() == 2
                    &&& value == long_fields(lines[l - 1])[0]
                    &&& 0 <= gg < labels.len()
                    &&& labels[gg] == long_fields(lines[l - 1])[1]
                } by {
                    if j < rows0.len() {
                        assert(rows[j] == rows0[j]);
                        let (l, value, gg) = rows0[j];
                        assert(d[l - 1] == lines[l - 1]);
                        assert(labels[gg] == labels0[gg]);
                    }
                }
                assert forall|a: int, b: int|
                    0 <= a < b < rows.len() implies (#[trigger] rows[a]).0 < (
                    #[trigger] rows[b]).0 by {
                    if b == rows0.len() {
                        assert(rows[a] == rows0[a]);
                        assert(rows0[a].0 <= d.len());
                    }
                }
                assert forall|gg: int| 0 <= gg < labels.len() implies #[trigger] group_has_row(
                    rows,
                    gg,
                ) by {
                    if gg < labels0.len() {
                        assert(group_has_row(rows0, gg));
                        let j = choose|j: int| 0 <= j < rows0.len() && (#[trigger] rows0[j]).2 == gg;
                        assert(rows[j] == rows0[j]);
                    } else {
                        assert(rows[rows0.len() as int].2 == gg);
                    }
                }
                assert forall|j: int|
                    0 <= j < rows.len() && (#[trigger] rows[j]).2 > 0 implies exists|i: int|
                    0 <= i < j && (#[trigger] rows[i]).2 == rows[j].2 - 1 by {
                    if j < rows0.len() {
                        assert(rows[j] == rows0[j]);
                        let i = choose|i: int| 0 <= i < j && (#[trigger] rows0[i]).2 == rows0[j].2 - 1;
                        assert(rows[i] == rows0[i]);
                    } else {
                        let gg = rows[j].2;
                        if gg > 0 {
                            assert(gg - 1 < labels0.len());
                            assert(group_has_row(rows0, gg - 1));
                            let i = choose|i: int|
                                0 <= i < rows0.len() && (#[trigger] rows0[i]).2 == gg - 1;
                            assert(rows[i] == rows0[i]);
                        }
                    }
                }
            }
        }
    }
}

} // verus!

verus! {

/// The value texts of a single-column input, in line order.
pub open spec fn column_values(lines: Seq<Seq<char>>) -> Seq<Seq<char>> {
    column_tokens(lines).map_values(|t: (int, Seq<char>)| t.1)
}

/// The value texts of the long-format rows in group `g`, in row order: what
/// a reader collects into that group.
pub open spec fn group_values(rows: Seq<(int, Seq<char>, int)>, g: int) -> Seq<Seq<char>>
    decreases rows.len(),
{
    if rows.len() == 0 {
        Seq::empty()
    } else {
        let prev = group_values(rows.drop_last(), g);
        if rows.last().2 == g {
            prev.push(rows.last().1)
        } else {
            prev
        }
    }
}

/// How many of the first `t` entries of `pick` name group `g`.
pub open spec fn pick_count(pick: Seq<int>, t: int, g: int) -> nat
    decreases t,
{
    if t <= 0 {
        0
    } else {
        pick_count(pick, t - 1, g) + if pick[t - 1] == g {
            1nat
        } else {
            0nat
        }
    }
}

/// How many groups the first `t` entries of `pick` have introduced, when
/// groups are introduced in the order `0, 1, 2, ...`.
pub open spec fn groups_named(pick: Seq<int>, t: int) -> int
    decreases t,
{
    if t <= 0 {
        0
    } else {
        let m = groups_named(pick, t - 1);
        if pick[t - 1] == m {
            m + 1
        } else {
            m
        }
    }
}

/// How many of the first `t` long-format lines are not blank.
pub open spec fn nonblank_before(lines: Seq<Seq<char>>, t: int) -> nat
    decreases t,
{
    if t <= 0 {
        0
    } else {
        nonblank_before(lines, t - 1) + if long_blank(lines[t - 1]) {
            0nat
        } else {
            1nat
        }
    }
}

/// A group label as it may end a long-format line: no tab, and no line
/// break at its end (a line never ends in one). It may be padded with spaces.
pub open spec fn label_fits(l: Seq<char>) -> bool {
    &&& !l.contains('\t')
    &&& l.len() > 0 ==> l.last() != '\r' && l.last() != '\n'
}

/// The hypotheses of the long/column correspondence. The nonblank lines of
/// the long input take the values of the single-column inputs in order,
/// interleaved as `pick` says: nonblank line number `q` (counting nonblank
/// lines only) is `xs[t]`, a tab and the label of group `pick[q]`, where
/// `xs[t]` is tab-free and trims to that group's next unused value. Blank
/// lines may stand anywhere. Labels are distinct once trimmed, and each
/// group's label first appears after the label of the group before it.
pub open spec fn interleaves(
    files: Seq<Seq<Seq<char>>>,
    labels: Seq<Seq<char>>,
    pick: Seq<int>,
    xs: Seq<Seq<char>>,
    lines: Seq<Seq<char>>,
) -> bool {
    &&& files.len() == labels.len()
    &&& forall|j: int| 0 <= j < files.len() ==> #[trigger] column_values(files[j]).len() > 0
    &&& forall|j: int| 0 <= j < labels.len() ==> #[trigger] label_fits(labels[j])
    &&& forall|a: int, b: int|
        0 <= a < b < labels.len() ==> trim(#[trigger] labels[a]) != trim(#[trigger] labels[b])
    &&& forall|q: int| 0 <= q < pick.len() ==> 0 <= #[trigger] pick[q] < files.len()
    &&& forall|j: int|
        0 <= j < files.len() ==> #[trigger] pick_count(pick, pick.len() as int, j) == column_values(
            files[j],
        ).len()
    &&& forall|q: int|
        0 <= q < pick.len() && #[trigger] pick[q] > 0 ==> pick_count(pick, q, pick[q] - 1) > 0
    &&& xs.len() == lines.len()
    &&& pick.len() == nonblank_before(lines, lines.len() as int)
    &&& forall|t: int|
        0 <= t < lines.len() && !long_blank(#[trigger] lines[t]) ==> {
            let q = nonblank_before(lines, t) as int;
            let g = pick[q];
            &&& !xs[t].contains('\t')
            &&& trim(xs[t]) == column_values(files[g])[pick_count(pick, q, g) as int]
            &&& lines[t] == xs[t] + seq!['\t'] + labels[g]
        }
}

proof fn lemma_pick_count_grows(pick: Seq<int>, s: int, t: int, g: int)
    requires
        0 <= s <= t,
    ensures
        pick_count(pick, s, g) <= pick_count(pick, t, g),
    decreases t - s,
{
    if s < t {
        lemma_pick_count_grows(pick, s, t - 1, g);
    }
}

proof fn lemma_nonblank_grows(lines: Seq<Seq<char>>, s: int, t: int)
    requires
        0 <= s <= t,
    ensures
        nonblank_before(lines, s) <= nonblank_before(lines, t),
    decreases t - s,
{
    if s < t {
        lemma_nonblank_grows(lines, s, t - 1);
    }
}

/// A text with something visible, joined by a tab to a label that fits,
/// reads back as the two trimmed.
proof fn lemma_interleaved_fields(x: Seq<char>, l: Seq<char>)
    requires
        !x.contains('\t'),
        label_fits(l),
        trim(x).len() > 0,
    ensures
        !long_blank(x + seq!['\t'] + l),
        long_fields(x + seq!['\t'] + l) == seq![trim(x), trim(l)],
{
    let s = x + seq!['\t'] + l;
    if l.len() > 0 {
        assert(s.last() == l.last());
    } else {
        assert(s.last() == '\t');
    }
    assert(trim_end_line_breaks(s) == s);
    assert(s[x.len() as int] == '\t');
    assert(s.contains('\t'));
    lemma_split_one_tab(x, l);
    assert(seq![x, l].map_values(|f: Seq<char>| trim(f)) =~= seq![trim(x), trim(l)]);
    lemma_trim_nonempty(x);
    let i = choose|i: int| 0 <= i < x.len() && !is_white_space(#[trigger] x[i]);
    assert(s[i] == x[i]);
    assert(has_visible(s));
    lemma_trim_nonempty(s);
}

/// The state of reading the first `t` lines of an interleaved long-format
/// input, `q` of which are not blank.
#[verifier::rlimit(60)]
#[verifier::spinoff_prover]
proof fn lemma_interleaved_prefix(
    files: Seq<Seq<Seq<char>>>,
    labels: Seq<Seq<char>>,
    pick: Seq<int>,
    xs: Seq<Seq<char>>,
    lines: Seq<Seq<char>>,
    t: int,
)
    requires
        interleaves(files, labels, pick, xs, lines),
        0 <= t <= lines.len(),
    ensures
        ({
            let (rows, labs, failed) = long_scan(lines.subrange(0, t));
            let q = nonblank_before(lines, t) as int;
            let m = groups_named(pick, q);
            &&& failed is None
            &&& q <= pick.len()
            &&& 0 <= m <= files.len()
            &&& labs == labels.map_values(|l: Seq<char>| trim(l)).subrange(0, m)
            &&& forall|j: int|
                0 <= j < files.len() ==> (#[trigger] pick_count(pick, q, j) > 0 <==> j < m)
            &&& forall|j: int|
                0 <= j < files.len() ==> #[trigger] pick_count(pick, q, j) <= column_values(
                    files[j],
                ).len()
            &&& forall|j: int|
                0 <= j < files.len() ==> #[trigger] group_values(rows, j) == column_values(
                    files[j],
                ).subrange(0, pick_count(pick, q, j) as int)
        }),
    decreases t,
{
    let tl = labels.map_values(|l: Seq<char>| trim(l));
    let q = nonblank_before(lines, t) as int;
    lemma_nonblank_grows(lines, t, lines.len() as int);
    assert forall|j: int| 0 <= j < files.len() implies #[trigger] pick_count(pick, q, j)
        <= column_values(files[j]).len() by {
        lemma_pick_count_grows(pick, q, pick.len() as int, j);
    }
    if t == 0 {
        assert(lines.subrange(0, 0) =~= Seq::<Seq<char>>::empty());
        assert(tl.subrange(0, 0) =~= Seq::<Seq<char>>::empty());
        assert forall|j: int| 0 <= j < files.len() implies #[trigger] group_values(
            Seq::<(int, Seq<char>, int)>::empty(),
            j,
        ) == column_values(files[j]).subrange(0, pick_count(pick, 0, j) as int) by {
            assert(column_values(files[j]).subrange(0, 0) =~= Seq::<Seq<char>>::empty());
        }
    } else {
        let s = t - 1;
        lemma_interleaved_prefix(files, labels, pick, xs, lines, s);
        let prefix = lines.subrange(0, t);
        assert(prefix.drop_last() =~= lines.subrange(0, s));
        assert(prefix.last() == lines[s]);
        let (rows0, labs0, failed0) = long_scan(lines.subrange(0, s));
        let q0 = nonblank_before(lines, s) as int;
        let m = groups_named(pick, q0);
        if long_blank(lines[s]) {
            assert(q == q0);
        } else {
            assert(q == q0 + 1);
            let g = pick[q0];
            assert(0 <= g < files.len());
            if g > m {
                assert(pick_count(pick, q0, g - 1) > 0);
            }
            assert(g <= m);
            let vals = column_values(files[g]);
            let c = pick_count(pick, q0, g) as int;
            lemma_pick_count_grows(pick, q, pick.len() as int, g);
            assert(pick_count(pick, pick.len() as int, g) == vals.len());
            assert(c < vals.len());
            let v = vals[c];
            lemma_column_tokens(files[g]);
            assert(v == column_tokens(files[g])[c].1);
            assert(v.len() > 0);
            let x = xs[s];
            assert(trim(x) == v);
            assert(label_fits(labels[g]));
            assert(lines[s] == x + seq!['\t'] + labels[g]);
            lemma_interleaved_fields(x, labels[g]);
            let f = long_fields(lines[s]);
            assert(f[0] == v && f[1] == tl[g]);
            lemma_label_position(labs0, tl[g]);
            let pos = label_position(labs0, tl[g]);
            if g < m {
                assert(labs0[g] == tl[g]);
                if pos < g {
                    assert(labs0[pos] == tl[pos]);
                }
                assert(pos == g);
            } else {
                if pos < m {
                    assert(labs0[pos] == tl[pos]);
                }
                assert(pos == m);
                assert(tl.subrange(0, m).push(tl[g]) =~= tl.subrange(0, m + 1));
            }
            let (rows, labs, failed) = long_scan(prefix);
            assert(failed is None);
            assert(rows == rows0.push((t, v, g)));
            assert(rows.drop_last() =~= rows0);
            let m2 = groups_named(pick, q);
            assert(m2 == if g == m { m + 1 } else { m });
            assert(labs == tl.subrange(0, m2));
            assert forall|j: int| 0 <= j < files.len() implies (#[trigger] pick_count(
                pick,
                q,
                j,
            ) > 0 <==> j < m2) by {
                assert(pick_count(pick, q, j) == pick_count(pick, q0, j) + if j == g {
                    1nat
                } else {
                    0nat
                });
            }
            assert forall|j: int| 0 <= j < files.len() implies #[trigger] group_values(rows, j)
                == column_values(files[j]).subrange(0, pick_count(pick, q, j) as int) by {
                assert(rows.last() == (t, v, g));
                if j == g {
                    assert(pick_count(pick, q, j) == c + 1);
                    assert(group_values(rows, j) == group_values(rows0, j).push(v));
                    assert(vals.subrange(0, c).push(v) =~= vals.subrange(0, c + 1));
                } else {
                    assert(pick_count(pick, q, j) == pick_count(pick, q0, j));
                    assert(group_values(rows, j) == group_values(rows0, j));
                }
            }
        }
    }
}

/// Reading a long-format input built from single-column inputs gives each
/// group exactly the values of its single-column input, in their order, the
/// trimmed labels in their order of first appearance, and no refusal when
/// there are at least two groups (see `interleaves` for how the long input is
/// built: blank lines anywhere, padded labels, values with surrounding
/// whitespace).
pub proof fn lemma_long_matches_columns(
    files: Seq<Seq<Seq<char>>>,
    labels: Seq<Seq<char>>,
    pick: Seq<int>,
    xs: Seq<Seq<char>>,
    lines: Seq<Seq<char>>,
)
    requires
        interleaves(files, labels, pick, xs, lines),
    ensures
        long_scan(lines).2 is None,
        long_scan(lines).1 == labels.map_values(|l: Seq<char>| trim(l)),
        forall|j: int|
            0 <= j < files.len() ==> #[trigger] group_values(long_scan(lines).0, j)
                == column_values(files[j]),
        files.len() >= 2 ==> long_stop(lines, true) is None,
{
    let n = lines.len() as int;
    let tl = labels.map_values(|l: Seq<char>| trim(l));
    lemma_interleaved_prefix(files, labels, pick, xs, lines, n);
    assert(lines.subrange(0, n) =~= lines);
    let q = pick.len() as int;
    let m = groups_named(pick, q);
    if m < files.len() {
        assert(column_values(files[m]).len() > 0);
        assert(pick_count(pick, q, m) == column_values(files[m]).len());
    }
    assert(tl.subrange(0, m) =~= tl);
    assert forall|j: int| 0 <= j < files.len() implies #[trigger] group_values(
        long_scan(lines).0,
        j,
    ) == column_values(files[j]) by {
        assert(pick_count(pick, q, j) == column_values(files[j]).len());
        assert(column_values(files[j]).subrange(0, column_values(files[j]).len() as int)
            =~= column_values(files[j]));
    }
}

} // verus!

verus! {

/// What reading an input comes to.
#[derive(Debug, Clone, Copy, PartialEq, Eq, Structural)]
pub enum ReadVerdict {
    /// The value of row `row` (0-based among the rows returned) is not a number.
    NotANumber { row: usize },
    /// The layout refuses the input.
    Refused(FlignerError),
    /// Reading the input failed.
    ReadFailed,
    /// Every value is a number and the layout accepts the input.
    Accepted,
}

/// Which failure an input reports first. The rows a layout returns all stand
/// before the line its refusal names, and all the lines handed to it stand
/// before the point where reading failed; a layout refusal that needs the
/// whole input is only made when reading did not fail. So, in line order: a
/// value that is not a number, then the layout's refusal, then the failed
/// read.
pub open spec fn verdict_of(
    first_unparsed: Option<usize>,
    refusal: Option<FlignerError>,
    read_failed: bool,
) -> ReadVerdict {
    match first_unparsed {
        Some(row) => ReadVerdict::NotANumber { row },
        None => match refusal {
            Some(e) => ReadVerdict::Refused(e),
            None => if read_failed {
                ReadVerdict::ReadFailed
            } else {
                ReadVerdict::Accepted
            },
        },
    }
}

/// Decides what reading an input reports, given the first row whose value
/// did not parse, the layout's refusal and whether reading failed.
pub fn read_verdict(
    first_unparsed: Option<usize>,
    refusal: Option<FlignerError>,
    read_failed: bool,
) -> (r: ReadVerdict)
    ensures
        r == verdict_of(first_unparsed, refusal, read_failed),
{
    match first_unparsed {
        Some(row) => ReadVerdict::NotANumber { row },
        None => match refusal {
            Some(e) => ReadVerdict::Refused(e),
            None => if read_failed {
                ReadVerdict::ReadFailed
            } else {
                ReadVerdict::Accepted
            },
        },
    }
}

} // verus!

verus! {

/// Any number of single-column files from two up is accepted and fewer are
/// refused; `--long` accepts exactly one file. The same holds of
/// `check_input_files`, whose result is this refusal.
pub proof fn lemma_input_file_counts(files: int)
    ensures
        files >= 2 ==> input_files_refusal(files, false) is None,
        files < 2 ==> input_files_refusal(files, false) == Some(FlignerError::TooFewGroupFiles),
        files == 1 ==> input_files_refusal(files, true) is None,
        files != 1 ==> input_files_refusal(files, true) == Some(FlignerError::LongNeedsOneFile),
{
}

} // verus!

verus! {

/// A tab-free long-format line splits at runs of whitespace: a value and a
/// label made of non-whitespace characters, separated by any nonempty run of
/// whitespace and surrounded by any whitespace, give exactly the fields
/// value and label, so the line is one row with that value in that label's
/// group.
pub proof fn lemma_long_fields_white_space_separated(
    w1: Seq<char>,
    v: Seq<char>,
    w: Seq<char>,
    l: Seq<char>,
    w2: Seq<char>,
)
    requires
        v.len() > 0,
        l.len() > 0,
        w.len() > 0,
        forall|i: int| 0 <= i < w1.len() ==> is_white_space(#[trigger] w1[i]) && w1[i] != '\t',
        forall|i: int| 0 <= i < w.len() ==> is_white_space(#[trigger] w[i]) && w[i] != '\t',
        forall|i: int| 0 <= i < w2.len() ==> is_white_space(#[trigger] w2[i]) && w2[i] != '\t',
        forall|i: int| 0 <= i < v.len() ==> !is_white_space(#[trigger] v[i]),
        forall|i: int| 0 <= i < l.len() ==> !is_white_space(#[trigger] l[i]),
    ensures
        !long_blank(w1 + v + w + l + w2),
        long_fields(w1 + v + w + l + w2) == seq![v, l],
{
    let base = w1 + v + w + l;
    let u = base + w2;
    let j = lemma_line_breaks_stripped_prefix(u);
    let b = base.len() as int;
    assert(u[b - 1] == l[l.len() - 1]);
    if j < b {
        assert(u[b - 1] == '\r' || u[b - 1] == '\n');
    }
    let w2s = w2.subrange(0, j - b);
    let t = u.subrange(0, j);
    assert(t =~= w1 + v + w + l + w2s);
    assert forall|i: int| 0 <= i < w2s.len() implies is_white_space(#[trigger] w2s[i]) by {
        assert(w2s[i] == w2[i]);
    }
    assert(!t.contains('\t')) by {
        if t.contains('\t') {
            let i = choose|i: int| 0 <= i < t.len() && t[i] == '\t';
            let a = w1.len() as int;
            let c = a + v.len();
            let d = c + w.len();
            if i < a {
                assert(w1[i] != '\t');
            } else if i < c {
                assert(!is_white_space(v[i - a]));
            } else if i < d {
                assert(w[i - c] != '\t');
            } else if i < b {
                assert(!is_white_space(l[i - d]));
            } else {
                assert(w2[i - b] != '\t');
            }
        }
    }
    lemma_split_white_space_two(w1, v, w, l, w2s);
    assert(t[w1.len() as int] == v[0]);
    assert(has_visible(t));
    lemma_trim_nonempty(t);
}

} // verus!
