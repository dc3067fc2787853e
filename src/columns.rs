//! Per-column formatting records and their compaction into runs of
//! contiguous, identically formatted columns.
use vstd::prelude::*;
use vstd::string::*;
use crate::text::{dec, attr_text, push_attr, push_decimal, digit_char, decimal, parse_u32_text, u32_of_text};

verus! {

/// How a column is displayed. The width is held in hundred-millionths of
/// a character width (see `WIDTH_SCALE`).
#[derive(Clone, Copy, Debug, PartialEq, Eq, Structural)]
pub struct ColumnFormat {
    pub width: u64,
    pub hidden: bool,
    pub best_fit: bool,
    pub style: u32,
}

/// The formatting record of the column at `index` (1-based).
#[derive(Clone, Copy, Debug, PartialEq, Eq, Structural)]
pub struct Column {
    pub index: u32,
    pub format: ColumnFormat,
}

/// The columns `min..=max`, all formatted as `format`.
#[derive(Clone, Copy, Debug, PartialEq, Eq, Structural)]
pub struct ColumnRun {
    pub min: u32,
    pub max: u32,
    pub format: ColumnFormat,
}

/// `s` holds a record for column `i` formatted as `f`.
pub open spec fn has(s: Seq<Column>, i: int, f: ColumnFormat) -> bool {
    exists|j: int| 0 <= j < s.len() && s[j].index == i && s[j].format == f
}

/// No two records of `s` are for the same column.
pub open spec fn indices_unique(s: Seq<Column>) -> bool {
    forall|j: int, k: int|
        0 <= j < s.len() && 0 <= k < s.len() && j != k ==> s[j].index != s[k].index
}

pub open spec fn sorted_strict(s: Seq<Column>) -> bool {
    forall|j: int, k: int| 0 <= j < k < s.len() ==> s[j].index < s[k].index
}

/// Every run is non-empty and each of its columns has a record in `s` with the run's format.
pub open spec fn runs_backed(s: Seq<Column>, r: Seq<ColumnRun>) -> bool {
    forall|k: int| 0 <= k < r.len() ==> {
        &&& r[k].min <= r[k].max
        &&& forall|i: int| r[k].min <= i <= r[k].max ==> #[trigger] has(s, i, r[k].format)
    }
}

/// Runs come in ascending order and do not overlap.
pub open spec fn runs_ordered(r: Seq<ColumnRun>) -> bool {
    forall|j: int, k: int| 0 <= j < k < r.len() ==> r[j].max < r[k].min
}

/// No two neighbouring runs could be joined into one.
pub open spec fn runs_maximal(r: Seq<ColumnRun>) -> bool {
    forall|k: int|
        0 <= k && k + 1 < r.len() && r[k].max + 1 == r[k + 1].min ==> r[k].format
            != r[k + 1].format
}

/// Column `i` lies in `run`.
pub open spec fn covers(run: ColumnRun, i: int) -> bool {
    run.min <= i <= run.max
}

/// Column `i` lies in some run of `r`.
pub open spec fn covered(r: Seq<ColumnRun>, i: int) -> bool {
    exists|k: int| 0 <= k < r.len() && #[trigger] covers(r[k], i)
}

/// Every record of `s` lies in some run.
pub open spec fn runs_cover(s: Seq<Column>, r: Seq<ColumnRun>) -> bool {
    forall|j: int| 0 <= j < s.len() ==> #[trigger] covered(r, s[j].index as int)
}

/// `r` is the compaction of the records `s` into maximal runs.
pub open spec fn valid_runs(s: Seq<Column>, r: Seq<ColumnRun>) -> bool {
    &&& runs_backed(s, r)
    &&& runs_ordered(r)
    &&& runs_maximal(r)
    &&& runs_cover(s, r)
}

#[verifier::rlimit(100)]
proof fn lemma_insert_keeps_records(cols: Seq<Column>, prev: Seq<Column>, out: Seq<Column>, p: int, i: int)
    requires
        0 <= i < cols.len(),
        0 <= p <= prev.len(),
        out == prev.insert(p, cols[i]),
        sorted_strict(prev),
        indices_unique(cols),
        forall|k: int| 0 <= k < p ==> prev[k].index < cols[i].index,
        p < prev.len() ==> prev[p].index >= cols[i].index,
        forall|j: int| 0 <= j < i ==> #[trigger] prev.contains(cols[j]),
        forall|k: int| 0 <= k < prev.len() ==> #[trigger] cols.subrange(0, i).contains(prev[k]),
    ensures
        sorted_strict(out),
        forall|j: int| 0 <= j < i + 1 ==> #[trigger] out.contains(cols[j]),
        forall|k: int| 0 <= k < out.len() ==> #[trigger] cols.subrange(0, i + 1).contains(out[k]),
{
    assert forall|k: int| p <= k < prev.len() implies prev[k].index > cols[i].index by {
        assert(cols.subrange(0, i).contains(prev[k]));
        let j = choose|j: int| 0 <= j < i && #[trigger] cols.subrange(0, i)[j] == prev[k];
        assert(cols[j] == prev[k]);
        assert(cols[j].index != cols[i].index);
        if k > p {
            assert(prev[p].index < prev[k].index);
        }
    }
    assert forall|a: int, b: int| 0 <= a < b < out.len() implies out[a].index < out[b].index by {
        if b < p {
        } else if b == p {
        } else if a < p {
            assert(out[b] == prev[b - 1]);
        } else if a == p {
            assert(out[b] == prev[b - 1]);
        } else {
            assert(out[a] == prev[a - 1] && out[b] == prev[b - 1]);
        }
    }
    assert forall|j: int| 0 <= j < i + 1 implies #[trigger] out.contains(cols[j]) by {
        if j == i {
            assert(out[p] == cols[j]);
        } else {
            assert(prev.contains(cols[j]));
            let k = choose|k: int| 0 <= k < prev.len() && #[trigger] prev[k] == cols[j];
            if k < p {
                assert(out[k] == cols[j]);
            } else {
                assert(out[k + 1] == cols[j]);
            }
        }
    }
    assert forall|k: int| 0 <= k < out.len() implies #[trigger] cols.subrange(0, i + 1).contains(out[k]) by {
        let big = cols.subrange(0, i + 1);
        if k == p {
            assert(out[k] == cols[i]);
            assert(big[i] == out[k]);
        } else {
            let kk = if k < p { k } else { k - 1 };
            assert(out[k] == prev[kk]);
            assert(cols.subrange(0, i).contains(prev[kk]));
            let j = choose|j: int| 0 <= j < i && #[trigger] cols.subrange(0, i)[j] == prev[kk];
            assert(big[j] == out[k]);
        }
    }
}

/// The first position of the sorted `out` whose index is not below `key`.
fn find_insert_pos(out: &Vec<Column>, key: u32) -> (p: usize)
    ensures
        p <= out@.len(),
        forall|k: int| 0 <= k < p ==> out@[k].index < key,
        p < out@.len() ==> out@[p as int].index >= key,
{
    let mut p: usize = 0;
    while p < out.len() && out[p].index < key
        invariant
            p <= out@.len(),
            forall|k: int| 0 <= k < p ==> out@[k].index < key,
        decreases out@.len() - p,
    {
        p = p + 1;
    }
    p
}

/// The records of `cols` sorted by index, with nothing added or lost.
#[verifier::rlimit(100)]
fn sort_by_index(cols: &Vec<Column>) -> (t: Vec<Column>)
    requires
        indices_unique(cols@),
    ensures
        sorted_strict(t@),
        t@.len() == cols@.len(),
        forall|j: int| 0 <= j < cols@.len() ==> #[trigger] t@.contains(cols@[j]),
        forall|k: int| 0 <= k < t@.len() ==> #[trigger] cols@.contains(t@[k]),
{
    let mut out: Vec<Column> = Vec::new();
    let n = cols.len();
    let mut i: usize = 0;
    while i < n
        invariant
            i <= n,
            n == cols@.len(),
            indices_unique(cols@),
            out@.len() == i,
            sorted_strict(out@),
            forall|j: int| 0 <= j < i ==> #[trigger] out@.contains(cols@[j]),
            forall|k: int| 0 <= k < out@.len() ==> #[trigger] cols@.subrange(0, i as int).contains(out@[k]),
        decreases n - i,
    {
        let c = cols[i];
        let p = find_insert_pos(&out, c.index);
        let ghost prev = out@;
        out.insert(p, c);
        proof {
            lemma_insert_keeps_records(cols@, prev, out@, p as int, i as int);
        }
        i = i + 1;
    }
    assert forall|k: int| 0 <= k < out@.len() implies #[trigger] cols@.contains(out@[k]) by {
        assert(cols@.subrange(0, i as int) =~= cols@);
    }
    out
}

/// What holds after the scan has consumed the first `p` sorted records:
/// `all` is the finished runs followed by the open one.
pub open spec fn scan_state(t: Seq<Column>, all: Seq<ColumnRun>, p: int) -> bool {
    &&& sorted_strict(t)
    &&& 1 <= p <= t.len()
    &&& all.len() >= 1
    &&& all.last().max == t[p - 1].index
    &&& runs_backed(t, all)
    &&& runs_ordered(all)
    &&& runs_maximal(all)
    &&& forall|j: int| 0 <= j < p ==> #[trigger] covered(all, t[j].index as int)
}

proof fn lemma_scan_first(t: Seq<Column>)
    requires
        sorted_strict(t),
        t.len() >= 1,
    ensures
        scan_state(t, seq![ColumnRun { min: t[0].index, max: t[0].index, format: t[0].format }], 1),
{
    let all = seq![ColumnRun { min: t[0].index, max: t[0].index, format: t[0].format }];
    assert(has(t, t[0].index as int, t[0].format));
    assert forall|j: int| 0 <= j < 1 implies #[trigger] covered(all, t[j].index as int) by {
        assert(covers(all[0], t[j].index as int));
    }
}

#[verifier::rlimit(100)]
proof fn lemma_scan_extend(t: Seq<Column>, all: Seq<ColumnRun>, p: int)
    requires
        scan_state(t, all, p),
        p < t.len(),
        t[p].index == all.last().max + 1,
        t[p].format == all.last().format,
    ensures
        scan_state(t, all.update(all.len() - 1, ColumnRun { max: t[p].index, ..all.last() }), p + 1),
{
    let last = all.len() - 1;
    let cur = ColumnRun { max: t[p].index, ..all.last() };
    let nall = all.update(last, cur);
    assert(has(t, t[p].index as int, t[p].format));
    assert forall|k: int| #![trigger nall[k]] 0 <= k < nall.len() implies {
        &&& nall[k].min <= nall[k].max
        &&& forall|i: int| nall[k].min <= i <= nall[k].max ==> #[trigger] has(t, i, nall[k].format)
    } by {
        if k < last {
            assert(nall[k] == all[k]);
        } else {
            assert forall|i: int| nall[k].min <= i <= nall[k].max implies #[trigger] has(t, i, nall[k].format) by {
                if i < nall[k].max {
                    assert(all[k].min <= i <= all[k].max);
                }
            }
        }
    }
    assert forall|j: int| 0 <= j < p + 1 implies #[trigger] covered(nall, t[j].index as int) by {
        if j < p {
            assert(covered(all, t[j].index as int));
            let k = choose|k: int| 0 <= k < all.len() && #[trigger] covers(all[k], t[j].index as int);
            assert(nall[k].min == all[k].min);
            assert(nall[k].max >= all[k].max);
            assert(covers(nall[k], t[j].index as int));
        } else {
            assert(covers(nall[last], t[j].index as int));
        }
    }
    assert forall|a: int, b: int| 0 <= a < b < nall.len() implies nall[a].max < nall[b].min by {
        assert(all[a].max < all[b].min);
    }
    assert forall|k: int| 0 <= k && k + 1 < nall.len() && nall[k].max + 1 == nall[k + 1].min
        implies nall[k].format != nall[k + 1].format by {
        assert(all[k].max + 1 == all[k + 1].min);
    }
}

#[verifier::rlimit(100)]
proof fn lemma_scan_start(t: Seq<Column>, all: Seq<ColumnRun>, p: int)
    requires
        scan_state(t, all, p),
        p < t.len(),
        t[p].index != all.last().max + 1 || t[p].format != all.last().format,
    ensures
        scan_state(t, all.push(ColumnRun { min: t[p].index, max: t[p].index, format: t[p].format }), p + 1),
{
    let cur = ColumnRun { min: t[p].index, max: t[p].index, format: t[p].format };
    let nall = all.push(cur);
    assert(has(t, t[p].index as int, t[p].format));
    assert(t[p].index > t[p - 1].index);
    assert forall|k: int| #![trigger nall[k]] 0 <= k < nall.len() implies {
        &&& nall[k].min <= nall[k].max
        &&& forall|i: int| nall[k].min <= i <= nall[k].max ==> #[trigger] has(t, i, nall[k].format)
    } by {
        if k < all.len() {
            assert(nall[k] == all[k]);
        }
    }
    assert forall|a: int, b: int| 0 <= a < b < nall.len() implies nall[a].max < nall[b].min by {
        if b < all.len() {
            assert(all[a].max < all[b].min);
        } else if a < all.len() - 1 {
            assert(all[a].max < all[all.len() - 1].min);
        }
    }
    assert forall|j: int| 0 <= j < p + 1 implies #[trigger] covered(nall, t[j].index as int) by {
        if j < p {
            assert(covered(all, t[j].index as int));
            let k = choose|k: int| 0 <= k < all.len() && #[trigger] covers(all[k], t[j].index as int);
            assert(nall[k] == all[k]);
            assert(covers(nall[k], t[j].index as int));
        } else {
            assert(covers(nall[all.len() as int], t[j].index as int));
        }
    }
    assert forall|k: int| 0 <= k && k + 1 < nall.len() && nall[k].max + 1 == nall[k + 1].min
        implies nall[k].format != nall[k + 1].format by {
        if k + 1 < all.len() {
            assert(nall[k] == all[k] && nall[k + 1] == all[k + 1]);
        }
    }
}

/// Runs found over the sorted copy `t` are runs of the unsorted records `s`.
#[verifier::rlimit(100)]
proof fn lemma_runs_transfer(s: Seq<Column>, t: Seq<Column>, r: Seq<ColumnRun>)
    requires
        forall|j: int| 0 <= j < s.len() ==> #[trigger] t.contains(s[j]),
        forall|k: int| 0 <= k < t.len() ==> #[trigger] s.contains(t[k]),
        runs_backed(t, r),
        runs_ordered(r),
        runs_maximal(r),
        forall|j: int| 0 <= j < t.len() ==> #[trigger] covered(r, t[j].index as int),
    ensures
        valid_runs(s, r),
{
    assert forall|k: int| #![trigger r[k]] 0 <= k < r.len() implies forall|i: int| r[k].min <= i <= r[k].max ==> #[trigger] has(s, i, r[k].format) by {
        assert forall|i: int| r[k].min <= i <= r[k].max implies #[trigger] has(s, i, r[k].format) by {
            assert(has(t, i, r[k].format));
            let q = choose|q: int| 0 <= q < t.len() && t[q].index == i && t[q].format == r[k].format;
            assert(s.contains(t[q]));
        }
    }
    assert forall|j: int| 0 <= j < s.len() implies #[trigger] covered(r, s[j].index as int) by {
        assert(t.contains(s[j]));
        let q = choose|q: int| 0 <= q < t.len() && #[trigger] t[q] == s[j];
        assert(covered(r, t[q].index as int));
    }
}

/// Compacts the records `cols` into maximal runs of contiguous, identically
/// formatted columns, in ascending order.
pub fn encode_runs(cols: &Vec<Column>) -> (r: Vec<ColumnRun>)
    requires
        indices_unique(cols@),
    ensures
        valid_runs(cols@, r@),
{
    let t = sort_by_index(cols);
    let mut runs: Vec<ColumnRun> = Vec::new();
    if t.len() == 0 {
        return runs;
    }
    let mut cur = ColumnRun { min: t[0].index, max: t[0].index, format: t[0].format };
    proof {
        lemma_scan_first(t@);
        assert(runs@.push(cur) =~= seq![cur]);
    }
    let n = t.len();
    let mut p: usize = 1;
    while p < n
        invariant
            n == t@.len(),
            scan_state(t@, runs@.push(cur), p as int),
        decreases n - p,
    {
        let c = t[p];
        let ghost all = runs@.push(cur);
        if cur.max < u32::MAX && c.index == cur.max + 1 && c.format == cur.format {
            cur.max = c.index;
            proof {
                lemma_scan_extend(t@, all, p as int);
                assert(runs@.push(cur) =~= all.update(all.len() - 1, cur));
            }
        } else {
            runs.push(cur);
            cur = ColumnRun { min: c.index, max: c.index, format: c.format };
            proof {
                lemma_scan_start(t@, all, p as int);
                assert(runs@ =~= all);
            }
        }
        p = p + 1;
    }
    runs.push(cur);
    proof {
        lemma_runs_transfer(cols@, t@, runs@);
    }
    runs
}

} // verus!

verus! {

/// The width unit: a width is held as a count of hundred-millionths, which
/// holds every multiple of 1/256 exactly.
pub const WIDTH_SCALE: u64 = 100000000;

/// The last `n` decimal digits of `f`, leading zeros kept.
pub open spec fn padded_digits(f: nat, n: nat) -> Seq<char>
    decreases n,
{
    if n == 0 {
        Seq::empty()
    } else {
        padded_digits(f / 10, (n - 1) as nat).push(digit_char(f % 10))
    }
}

/// The `n`-digit fraction `f` without its trailing zeros.
pub open spec fn fraction_digits(f: nat, n: nat) -> Seq<char>
    decreases n,
{
    if n > 0 && f % 10 == 0 {
        fraction_digits(f / 10, (n - 1) as nat)
    } else {
        padded_digits(f, n)
    }
}

/// The decimal text of a width: the integer part, then the fraction without
/// trailing zeros.
pub open spec fn width_text(w: nat) -> Seq<char> {
    let frac = w % (WIDTH_SCALE as nat);
    if frac == 0 {
        dec(w / (WIDTH_SCALE as nat))
    } else {
        dec(w / (WIDTH_SCALE as nat)) + seq!['.'] + fraction_digits(frac, 8)
    }
}

fn push_padded(out: &mut String, f: u64, n: u64)
    ensures
        final(out)@ == old(out)@ + padded_digits(f as nat, n as nat),
    decreases n,
{
    if n > 0 {
        push_padded(out, f / 10, n - 1);
        push_decimal(out, f % 10);
        proof {
            assert(dec((f % 10) as nat) == seq![digit_char((f % 10) as nat)]);
            assert(final(out)@ =~= old(out)@ + padded_digits(f as nat, n as nat));
        }
    } else {
        proof {
            assert(final(out)@ =~= old(out)@ + padded_digits(f as nat, n as nat));
        }
    }
}

fn push_fraction(out: &mut String, f: u64, n: u64)
    ensures
        final(out)@ == old(out)@ + fraction_digits(f as nat, n as nat),
    decreases n,
{
    if n > 0 && f % 10 == 0 {
        push_fraction(out, f / 10, n - 1);
    } else {
        push_padded(out, f, n);
    }
}

/// The `col` element of one run.
pub open spec fn col_text(r: ColumnRun) -> Seq<char> {
    "<col"@ + attr_text("min"@, dec(r.min as nat)) + attr_text("max"@, dec(r.max as nat))
        + attr_text("width"@, width_text(r.format.width as nat))
        + (if r.format.hidden { attr_text("hidden"@, "1"@) } else { Seq::empty() })
        + (if r.format.best_fit { attr_text("bestFit"@, "1"@) } else { Seq::empty() })
        + attr_text("customWidth"@, "1"@)
        + (if r.format.style > 0 { attr_text("style"@, dec(r.format.style as nat)) } else { Seq::empty() })
        + "/>"@
}

/// The `col` elements of `runs`, one after another.
pub open spec fn cols_body(runs: Seq<ColumnRun>) -> Seq<char>
    decreases runs.len(),
{
    if runs.len() == 0 {
        Seq::empty()
    } else {
        cols_body(runs.drop_last()) + col_text(runs.last())
    }
}

/// The `cols` element for `runs`; nothing when there are no runs.
pub open spec fn cols_text(runs: Seq<ColumnRun>) -> Seq<char> {
    if runs.len() == 0 {
        Seq::empty()
    } else {
        "<cols>"@ + cols_body(runs) + "</cols>"@
    }
}

fn width_string(w: u64) -> (r: String)
    ensures
        r@ == width_text(w as nat),
{
    let mut s = String::new();
    push_decimal(&mut s, w / WIDTH_SCALE);
    let frac = w % WIDTH_SCALE;
    if frac != 0 {
        proof {
            reveal_strlit(".");
        }
        s.append(".");
        push_fraction(&mut s, frac, 8);
    }
    proof {
        assert(s@ =~= width_text(w as nat));
    }
    s
}

#[verifier::rlimit(100)]
fn push_col(out: &mut String, r: &ColumnRun)
    ensures
        final(out)@ == old(out)@ + col_text(*r),
{
    proof {
        reveal_strlit("<col");
        reveal_strlit("/>");
    }
    out.append("<col");
    push_attr(out, "min", decimal(r.min as u64).as_str());
    push_attr(out, "max", decimal(r.max as u64).as_str());
    push_attr(out, "width", width_string(r.format.width).as_str());
    if r.format.hidden {
        push_attr(out, "hidden", "1");
    }
    if r.format.best_fit {
        push_attr(out, "bestFit", "1");
    }
    push_attr(out, "customWidth", "1");
    if r.format.style > 0 {
        push_attr(out, "style", decimal(r.format.style as u64).as_str());
    }
    out.append("/>");
    proof {
        assert(final(out)@ =~= old(out)@ + col_text(*r));
    }
}

/// Appends the `cols` element for `runs` to `out`.
pub fn write_runs(out: &mut String, runs: &Vec<ColumnRun>)
    ensures
        final(out)@ == old(out)@ + cols_text(runs@),
{
    if runs.len() == 0 {
        proof {
            assert(final(out)@ =~= old(out)@ + cols_text(runs@));
        }
        return;
    }
    proof {
        reveal_strlit("<cols>");
        reveal_strlit("</cols>");
    }
    out.append("<cols>");
    let ghost base = out@;
    let mut i: usize = 0;
    while i < runs.len()
        invariant
            i <= runs@.len(),
            out@ == base + cols_body(runs@.subrange(0, i as int)),
        decreases runs@.len() - i,
    {
        push_col(out, &runs[i]);
        proof {
            let s = runs@.subrange(0, i + 1);
            assert(s.drop_last() =~= runs@.subrange(0, i as int));
        }
        i = i + 1;
    }
    out.append("</cols>");
    proof {
        assert(runs@.subrange(0, runs@.len() as int) =~= runs@);
        assert(final(out)@ =~= old(out)@ + cols_text(runs@));
    }
}

} // verus!

verus! {

/// One event of a `cols` element as read from a worksheet: a `col` element
/// with its `min` and `max` attribute texts and its format, the end of the
/// `cols` element, the end of the input, or anything else.
pub enum ColsEvent {
    Col { min: Option<String>, max: Option<String>, format: ColumnFormat },
    EndCols,
    Eof,
    Other,
}

/// The errors of reading a `cols` element.
#[derive(Clone, Copy, Debug, PartialEq, Eq, Structural)]
pub enum ColsError {
    /// The input ended before the `cols` end tag.
    MissingEndTag,
    /// A `col` element lacks `min` or `max`, or one of them is not a number.
    BadRange,
}

/// The number that an optional attribute text spells.
pub open spec fn attr_u32(a: Option<String>) -> Option<u32> {
    match a {
        Some(t) => u32_of_text(t@),
        None => None,
    }
}

fn parse_attr_u32(a: &Option<String>) -> (r: Option<u32>)
    ensures
        r == attr_u32(*a),
{
    match a {
        Some(t) => parse_u32_text(t.as_str()),
        None => None,
    }
}

/// The indices, in record order, of the first `n` records of `cols` that no
/// horizontal merge covers (`merged` lists the covered columns).
pub open spec fn unmerged_indices(cols: Seq<Column>, merged: Seq<u32>, n: int) -> Seq<u32>
    decreases n,
{
    if n <= 0 {
        Seq::empty()
    } else if merged.contains(cols[n - 1].index) {
        unmerged_indices(cols, merged, n - 1)
    } else {
        unmerged_indices(cols, merged, n - 1).push(cols[n - 1].index)
    }
}

fn contains_u32(v: &Vec<u32>, x: u32) -> (r: bool)
    ensures
        r == v@.contains(x),
{
    let mut i: usize = 0;
    while i < v.len()
        invariant
            i <= v@.len(),
            forall|k: int| 0 <= k < i ==> v@[k] != x,
        decreases v@.len() - i,
    {
        if v[i] == x {
            proof {
                assert(v@[i as int] == x);
            }
            return true;
        }
        i = i + 1;
    }
    false
}

/// The formatting records of a worksheet's columns, at most one per index.
pub struct Columns {
    pub column: Vec<Column>,
}

impl Columns {
    pub open spec fn wf(&self) -> bool {
        indices_unique(self.column@)
    }

    pub fn new() -> (r: Self)
        ensures
            r.wf(),
            r.column@.len() == 0,
    {
        Columns { column: Vec::new() }
    }

    pub fn get_column_collection(&self) -> (r: &Vec<Column>)
        ensures
            r@ == self.column@,
    {
        &self.column
    }

    /// The record of column `index`, if there is one.
    pub fn get_column(&self, index: u32) -> (r: Option<Column>)
        requires
            self.wf(),
        ensures
            r is None <==> forall|k: int| 0 <= k < self.column@.len() ==> self.column@[k].index != index,
            r is Some ==> self.column@.contains(r->0) && r->0.index == index,
    {
        let mut i: usize = 0;
        while i < self.column.len()
            invariant
                i <= self.column@.len(),
                forall|k: int| 0 <= k < i ==> self.column@[k].index != index,
            decreases self.column@.len() - i,
        {
            if self.column[i].index == index {
                return Some(self.column[i]);
            }
            i = i + 1;
        }
        None
    }

    /// Sets the record of column `value.index`, replacing the one there was.
    pub fn set_column(&mut self, value: Column)
        requires
            old(self).wf(),
        ensures
            final(self).wf(),
            final(self).column@.contains(value),
            forall|k: int| 0 <= k < old(self).column@.len() && old(self).column@[k].index != value.index
                ==> final(self).column@.contains(#[trigger] old(self).column@[k]),
            forall|k: int| 0 <= k < final(self).column@.len() && final(self).column@[k].index != value.index
                ==> old(self).column@.contains(#[trigger] final(self).column@[k]),
    {
        let mut i: usize = 0;
        while i < self.column.len()
            invariant
                i <= self.column@.len(),
                self.column@ == old(self).column@,
                old(self).wf(),
                forall|k: int| 0 <= k < i ==> self.column@[k].index != value.index,
            decreases self.column@.len() - i,
        {
            if self.column[i].index == value.index {
                self.column.set(i, value);
                proof {
                    let s = self.column@;
                    let o = old(self).column@;
                    assert(s[i as int] == value);
                    assert forall|k: int| 0 <= k < s.len() implies #[trigger] s[k].index == o[k].index by {
                        if k != i {
                            assert(s[k] == o[k]);
                        }
                    }
                    assert forall|a: int, b: int| 0 <= a < s.len() && 0 <= b < s.len() && a != b implies s[a].index != s[b].index by {
                        assert(s[a].index == o[a].index);
                        assert(s[b].index == o[b].index);
                        assert(indices_unique(o));
                        assert(o[a].index != o[b].index);
                    }
                    assert forall|k: int| 0 <= k < o.len() && o[k].index != value.index implies s.contains(#[trigger] o[k]) by {
                        assert(s[k] == o[k]);
                    }
                    assert forall|k: int| 0 <= k < s.len() && s[k].index != value.index implies o.contains(#[trigger] s[k]) by {
                        assert(s[k] == o[k]);
                    }
                }
                return;
            }
            i = i + 1;
        }
        self.column.push(value);
        proof {
            let s = self.column@;
            let o = old(self).column@;
            assert(s[o.len() as int] == value);
            assert forall|k: int| 0 <= k < o.len() && o[k].index != value.index implies s.contains(#[trigger] o[k]) by {
                assert(s[k] == o[k]);
            }
            assert forall|k: int| 0 <= k < s.len() && s[k].index != value.index implies o.contains(#[trigger] s[k]) by {
                assert(s[k] == o[k]);
            }
        }
    }

    /// Sets the columns `min..=max` to `format`, as a `col` element read from
    /// a worksheet describes them.
    pub fn set_column_range(&mut self, min: u32, max: u32, format: ColumnFormat)
        requires
            old(self).wf(),
        ensures
            final(self).wf(),
            forall|i: int| min <= i <= max ==> #[trigger] has(final(self).column@, i, format),
            forall|k: int| 0 <= k < old(self).column@.len() && !(min <= old(self).column@[k].index <= max)
                ==> final(self).column@.contains(#[trigger] old(self).column@[k]),
            forall|k: int| 0 <= k < final(self).column@.len() && !(min <= final(self).column@[k].index <= max)
                ==> old(self).column@.contains(#[trigger] final(self).column@[k]),
    {
        if min > max {
            return;
        }
        let mut i: u32 = min;
        loop
            invariant
                min <= i <= max,
                self.wf(),
                forall|j: int| min <= j < i ==> #[trigger] has(self.column@, j, format),
                forall|k: int| 0 <= k < old(self).column@.len() && !(min <= old(self).column@[k].index <= max)
                    ==> self.column@.contains(#[trigger] old(self).column@[k]),
                forall|k: int| 0 <= k < self.column@.len() && !(min <= self.column@[k].index <= max)
                    ==> old(self).column@.contains(#[trigger] self.column@[k]),
            ensures
                self.wf(),
                forall|j: int| min <= j <= max ==> #[trigger] has(self.column@, j, format),
                forall|k: int| 0 <= k < old(self).column@.len() && !(min <= old(self).column@[k].index <= max)
                    ==> self.column@.contains(#[trigger] old(self).column@[k]),
                forall|k: int| 0 <= k < self.column@.len() && !(min <= self.column@[k].index <= max)
                    ==> old(self).column@.contains(#[trigger] self.column@[k]),
            decreases max - i,
        {
            let ghost before = self.column@;
            let c = Column { index: i, format };
            self.set_column(c);
            proof {
                let now = self.column@;
                let w = choose|w: int| 0 <= w < now.len() && now[w] == c;
                assert(has(now, i as int, format));
                assert forall|j: int| min <= j < i implies #[trigger] has(now, j, format) by {
                    assert(has(before, j, format));
                    let q = choose|q: int| 0 <= q < before.len() && before[q].index == j && before[q].format == format;
                    assert(before[q].index != c.index);
                    assert(now.contains(before[q]));
                }
                assert forall|k: int| 0 <= k < old(self).column@.len() && !(min <= old(self).column@[k].index <= max)
                    implies now.contains(#[trigger] old(self).column@[k]) by {
                    assert(before.contains(old(self).column@[k]));
                    let q = choose|q: int| 0 <= q < before.len() && before[q] == old(self).column@[k];
                    assert(before[q].index != c.index);
                }
                assert forall|k: int| 0 <= k < now.len() && !(min <= now[k].index <= max)
                    implies old(self).column@.contains(#[trigger] now[k]) by {
                    assert(now[k].index != c.index);
                    assert(before.contains(now[k]));
                    let q = choose|q: int| 0 <= q < before.len() && before[q] == now[k];
                }
            }
            if i == max {
                proof {
                    assert forall|j: int| min <= j <= max implies #[trigger] has(self.column@, j, format) by {
                        if j < i {
                        }
                    }
                }
                break;
            }
            i = i + 1;
        }
    }

    /// The columns whose width is fitted to their content: all of them, in
    /// record order, but those that a horizontal merge covers.
    pub fn auto_width_columns(&self, merged: &Vec<u32>) -> (r: Vec<u32>)
        ensures
            r@ == unmerged_indices(self.column@, merged@, self.column@.len() as int),
    {
        let mut r: Vec<u32> = Vec::new();
        let mut i: usize = 0;
        while i < self.column.len()
            invariant
                i <= self.column@.len(),
                r@ == unmerged_indices(self.column@, merged@, i as int),
            decreases self.column@.len() - i,
        {
            let index = self.column[i].index;
            if !contains_u32(merged, index) {
                r.push(index);
            }
            i = i + 1;
        }
        r
    }

    /// Takes one event of a `cols` element being read. `Ok(true)` says the
    /// element has ended, `Ok(false)` that reading goes on; a `col` element
    /// sets the columns of its range.
    pub fn apply_cols_event(&mut self, ev: ColsEvent) -> (r: Result<bool, ColsError>)
        requires
            old(self).wf(),
        ensures
            final(self).wf(),
            ev is Eof ==> r == Err::<bool, ColsError>(ColsError::MissingEndTag) && final(self).column@ == old(self).column@,
            ev is EndCols ==> r == Ok::<bool, ColsError>(true) && final(self).column@ == old(self).column@,
            ev is Other ==> r == Ok::<bool, ColsError>(false) && final(self).column@ == old(self).column@,
            ev is Col && (attr_u32(ev->min) is None || attr_u32(ev->max) is None) ==> r == Err::<bool, ColsError>(
                ColsError::BadRange) && final(self).column@ == old(self).column@,
            ev is Col && attr_u32(ev->min) is Some && attr_u32(ev->max) is Some ==> {
                let min = attr_u32(ev->min)->0;
                let max = attr_u32(ev->max)->0;
                let format = ev->format;
                &&& r == Ok::<bool, ColsError>(false)
                &&& forall|i: int| min <= i <= max ==> #[trigger] has(final(self).column@, i, format)
                &&& forall|k: int| 0 <= k < old(self).column@.len() && !(min <= old(self).column@[k].index <= max)
                    ==> final(self).column@.contains(#[trigger] old(self).column@[k])
                &&& forall|k: int| 0 <= k < final(self).column@.len() && !(min <= final(self).column@[k].index <= max)
                    ==> old(self).column@.contains(#[trigger] final(self).column@[k])
            },
    {
        match ev {
            ColsEvent::Eof => Err(ColsError::MissingEndTag),
            ColsEvent::EndCols => Ok(true),
            ColsEvent::Other => Ok(false),
            ColsEvent::Col { min, max, format } => {
                let lo = parse_attr_u32(&min);
                let hi = parse_attr_u32(&max);
                match (lo, hi) {
                    (Some(lo), Some(hi)) => {
                        self.set_column_range(lo, hi, format);
                        Ok(false)
                    },
                    _ => Err(ColsError::BadRange),
                }
            },
        }
    }

    /// Appends the `cols` element of these columns to `out`: the maximal runs
    /// of contiguous, identically formatted columns; nothing when there are no
    /// columns.
    pub fn write_to(&self, out: &mut String)
        requires
            self.wf(),
        ensures
            exists|runs: Seq<ColumnRun>| {
                &&& valid_runs(self.column@, runs)
                &&& final(out)@ == old(out)@ + cols_text(runs)
            },
    {
        let runs = encode_runs(&self.column);
        write_runs(out, &runs);
    }
}

} // verus!

verus! {

/// `e` holds one record for every column of every run of `r`, with the run's
/// format, and nothing else.
pub open spec fn expands_to(r: Seq<ColumnRun>, e: Seq<Column>) -> bool {
    &&& indices_unique(e)
    &&& forall|i: int, f: ColumnFormat| #[trigger] has(e, i, f) <==> exists|k: int|
        0 <= k < r.len() && #[trigger] covers(r[k], i) && r[k].format == f
}

proof fn lemma_has_unique(e: Seq<Column>, i: int, f1: ColumnFormat, f2: ColumnFormat)
    requires
        indices_unique(e),
        has(e, i, f1),
        has(e, i, f2),
    ensures
        f1 == f2,
{
    let a = choose|a: int| 0 <= a < e.len() && e[a].index == i && e[a].format == f1;
    let b = choose|b: int| 0 <= b < e.len() && e[b].index == i && e[b].format == f2;
    if a != b {
        assert(e[a].index != e[b].index);
    }
}

proof fn lemma_run_bounds(e: Seq<Column>, r: Seq<ColumnRun>, k: int)
    requires
        indices_unique(e),
        valid_runs(e, r),
        0 <= k < r.len(),
    ensures
        has(e, r[k].min - 1, r[k].format) == false,
        has(e, r[k].max + 1, r[k].format) == false,
{
    let f = r[k].format;
    let m = r[k].min as int;
    if has(e, m - 1, f) {
        let j = choose|j: int| 0 <= j < e.len() && e[j].index == m - 1 && e[j].format == f;
        assert(covered(r, e[j].index as int));
        let k2 = choose|k2: int| 0 <= k2 < r.len() && #[trigger] covers(r[k2], e[j].index as int);
        if k2 > k {
            assert(r[k].max < r[k2].min);
        } else if k2 < k {
            assert(r[k2].max < r[k].min);
            if k2 < k - 1 {
                assert(r[k2].max < r[k - 1].min);
                assert(r[k - 1].max < r[k].min);
                assert(r[k - 1].min <= r[k - 1].max);
            } else {
                assert(has(e, m - 1, r[k2].format));
                lemma_has_unique(e, m - 1, f, r[k2].format);
            }
        }
    }
    let x = r[k].max as int;
    if has(e, x + 1, f) {
        let j = choose|j: int| 0 <= j < e.len() && e[j].index == x + 1 && e[j].format == f;
        assert(covered(r, e[j].index as int));
        let k2 = choose|k2: int| 0 <= k2 < r.len() && #[trigger] covers(r[k2], e[j].index as int);
        if k2 < k {
            assert(r[k2].max < r[k].min);
        } else if k2 > k {
            assert(r[k].max < r[k2].min);
            if k2 > k + 1 {
                assert(r[k].max < r[k + 1].min);
                assert(r[k + 1].max < r[k2].min);
                assert(r[k + 1].min <= r[k + 1].max);
            } else {
                assert(has(e, x + 1, r[k2].format));
                lemma_has_unique(e, x + 1, f, r[k2].format);
            }
        }
    }
}

proof fn lemma_same_run(e: Seq<Column>, r1: Seq<ColumnRun>, r2: Seq<ColumnRun>, k: int)
    requires
        indices_unique(e),
        valid_runs(e, r1),
        valid_runs(e, r2),
        0 <= k < r1.len(),
    ensures
        r2.contains(r1[k]),
{
    let f = r1[k].format;
    let m = r1[k].min as int;
    let x = r1[k].max as int;
    assert(has(e, m, f));
    let j = choose|j: int| 0 <= j < e.len() && e[j].index == m && e[j].format == f;
    assert(covered(r2, e[j].index as int));
    let k2 = choose|k2: int| 0 <= k2 < r2.len() && #[trigger] covers(r2[k2], e[j].index as int);
    assert(has(e, m, r2[k2].format));
    lemma_has_unique(e, m, f, r2[k2].format);
    lemma_run_bounds(e, r1, k);
    lemma_run_bounds(e, r2, k2);
    if r2[k2].min < m {
        assert(has(e, m - 1, r2[k2].format));
    }
    if r2[k2].max > x {
        assert(has(e, x + 1, r2[k2].format));
    }
    if r2[k2].max < x {
        assert(has(e, r2[k2].max + 1, f));
    }
    assert(r2[k2] == r1[k]);
}

proof fn lemma_prefix_equal(r1: Seq<ColumnRun>, r2: Seq<ColumnRun>, k: int)
    requires
        runs_ordered(r1),
        runs_ordered(r2),
        forall|j: int| 0 <= j < r1.len() ==> r1[j].min <= r1[j].max,
        forall|j: int| 0 <= j < r2.len() ==> r2[j].min <= r2[j].max,
        forall|j: int| 0 <= j < r1.len() ==> #[trigger] r2.contains(r1[j]),
        forall|j: int| 0 <= j < r2.len() ==> #[trigger] r1.contains(r2[j]),
        0 <= k < r1.len(),
        k < r2.len(),
    ensures
        forall|j: int| 0 <= j <= k ==> r1[j] == r2[j],
    decreases k,
{
    if k > 0 {
        lemma_prefix_equal(r1, r2, k - 1);
    }
    assert(r2.contains(r1[k]));
    let a = choose|a: int| 0 <= a < r2.len() && r2[a] == r1[k];
    if a < k {
        assert(r1[a] == r2[a]);
        assert(r1[a].max < r1[k].min);
    } else if a > k {
        assert(r1.contains(r2[k]));
        let b = choose|b: int| 0 <= b < r1.len() && r1[b] == r2[k];
        if b < k {
            assert(r1[b] == r2[b]);
            assert(r2[b].max < r2[k].min);
        } else if b == k {
            assert(r2[k].max < r2[a].min);
        } else {
            assert(r1[k].max < r1[b].min);
            assert(r2[k].max < r2[a].min);
        }
    }
}

proof fn lemma_runs_unique(e: Seq<Column>, r1: Seq<ColumnRun>, r2: Seq<ColumnRun>)
    requires
        indices_unique(e),
        valid_runs(e, r1),
        valid_runs(e, r2),
    ensures
        r1 == r2,
{
    assert forall|j: int| 0 <= j < r1.len() implies #[trigger] r2.contains(r1[j]) by {
        lemma_same_run(e, r1, r2, j);
    }
    assert forall|j: int| 0 <= j < r2.len() implies #[trigger] r1.contains(r2[j]) by {
        lemma_same_run(e, r2, r1, j);
    }
    assert forall|j: int| 0 <= j < r1.len() implies r1[j].min <= r1[j].max by {}
    assert forall|j: int| 0 <= j < r2.len() implies r2[j].min <= r2[j].max by {}
    if r1.len() > r2.len() {
        let n = r2.len() as int;
        if n > 0 {
            lemma_prefix_equal(r1, r2, n - 1);
        }
        assert(r2.contains(r1[n]));
        let a = choose|a: int| 0 <= a < r2.len() && r2[a] == r1[n];
        assert(r1[a] == r2[a]);
        assert(r1[a].max < r1[n].min);
    } else if r2.len() > r1.len() {
        let n = r1.len() as int;
        if n > 0 {
            lemma_prefix_equal(r1, r2, n - 1);
        }
        assert(r1.contains(r2[n]));
        let a = choose|a: int| 0 <= a < r1.len() && r1[a] == r2[n];
        assert(r1[a] == r2[a]);
        assert(r2[a].max < r2[n].min);
    } else if r1.len() > 0 {
        lemma_prefix_equal(r1, r2, r1.len() - 1);
    }
    assert(r1 =~= r2);
}

/// Encoding is idempotent: when the runs `r` of the records `s` are expanded
/// back into one record per column (`e`), the runs of `e` are `r` again.
pub proof fn lemma_encoding_idempotent(s: Seq<Column>, r: Seq<ColumnRun>, e: Seq<Column>, r2: Seq<ColumnRun>)
    requires
        indices_unique(s),
        valid_runs(s, r),
        expands_to(r, e),
        valid_runs(e, r2),
    ensures
        r2 == r,
{
    assert forall|k: int| 0 <= k < r.len() implies {
        &&& r[k].min <= r[k].max
        &&& forall|i: int| r[k].min <= i <= r[k].max ==> #[trigger] has(e, i, r[k].format)
    } by {
        assert forall|i: int| r[k].min <= i <= r[k].max implies #[trigger] has(e, i, r[k].format) by {
            assert(covers(r[k], i));
        }
    }
    assert forall|j: int| 0 <= j < e.len() implies #[trigger] covered(r, e[j].index as int) by {
        assert(has(e, e[j].index as int, e[j].format));
        let k = choose|k: int| 0 <= k < r.len() && #[trigger] covers(r[k], e[j].index as int) && r[k].format == e[j].format;
    }
    assert(valid_runs(e, r));
    lemma_runs_unique(e, r, r2);
}

/// Equal formats do not merge across a differently formatted column: when
/// columns `i` and `i + 2` share a format that column `i + 1` lacks, they lie
/// in two distinct runs, both of that format.
pub proof fn lemma_no_merge_across_gap(s: Seq<Column>, r: Seq<ColumnRun>, i: int, f: ColumnFormat, g: ColumnFormat)
    requires
        indices_unique(s),
        valid_runs(s, r),
        has(s, i, f),
        has(s, i + 1, g),
        has(s, i + 2, f),
        f != g,
    ensures
        exists|k1: int, k2: int|
            0 <= k1 < k2 < r.len() && covers(r[k1], i) && covers(r[k2], i + 2)
                && r[k1].format == f && r[k2].format == f,
{
    let a = choose|a: int| 0 <= a < s.len() && s[a].index == i && s[a].format == f;
    let b = choose|b: int| 0 <= b < s.len() && s[b].index == i + 2 && s[b].format == f;
    assert(covered(r, s[a].index as int));
    assert(covered(r, s[b].index as int));
    let k1 = choose|k1: int| 0 <= k1 < r.len() && #[trigger] covers(r[k1], s[a].index as int);
    let k2 = choose|k2: int| 0 <= k2 < r.len() && #[trigger] covers(r[k2], s[b].index as int);
    assert(has(s, i, r[k1].format));
    assert(has(s, i + 2, r[k2].format));
    lemma_has_unique(s, i, f, r[k1].format);
    lemma_has_unique(s, i + 2, f, r[k2].format);
    if k1 == k2 {
        assert(has(s, i + 1, r[k1].format));
        lemma_has_unique(s, i + 1, g, f);
    } else if k2 < k1 {
        assert(r[k2].max < r[k1].min);
    }
}

} // verus!
