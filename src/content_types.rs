//! The package-wide content-type manifest, and the numbering of drawing and
//! chart parts that it shares with the drawing relationship writer.
use vstd::prelude::*;
use vstd::string::*;
use crate::text::{dec, attr_text, xml_decl, push_attr, push_decimal, push_xml_decl};

verus! {

/// How many of the first `i` worksheets have at least one chart.
pub open spec fn drawings_before(charts: Seq<u64>, i: int) -> nat
    decreases i,
{
    if i <= 0 {
        0
    } else {
        drawings_before(charts, i - 1) + (if charts[i - 1] > 0 { 1nat } else { 0nat })
    }
}

/// How many charts the first `i` worksheets hold together.
pub open spec fn charts_before(charts: Seq<u64>, i: int) -> nat
    decreases i,
{
    if i <= 0 {
        0
    } else {
        charts_before(charts, i - 1) + charts[i - 1] as nat
    }
}

/// The numbers given to the parts of one worksheet: its drawing and its first chart.
#[derive(Clone, Copy, Debug, PartialEq, Eq, Structural)]
pub struct DrawingNumbers {
    pub drawing_id: u64,
    pub chart_start_id: u64,
}

/// Numbers the drawing and chart parts of the worksheets, whose chart counts
/// are `charts`: a worksheet with charts gets the next drawing number, and its
/// charts the next chart numbers, both counted from 1 across worksheets.
pub fn number_drawings(charts: &Vec<u64>) -> (r: Vec<DrawingNumbers>)
    requires
        charts_before(charts@, charts@.len() as int) < u64::MAX,
    ensures
        r@.len() == charts@.len(),
        forall|i: int| #![trigger r@[i]] 0 <= i < r@.len() ==> r@[i].drawing_id == drawings_before(charts@, i) + 1
            && r@[i].chart_start_id == charts_before(charts@, i) + 1,
{
    let mut r: Vec<DrawingNumbers> = Vec::new();
    let mut d: u64 = 1;
    let mut c: u64 = 1;
    let mut i: usize = 0;
    while i < charts.len()
        invariant
            i <= charts@.len(),
            r@.len() == i,
            d == drawings_before(charts@, i as int) + 1,
            c == charts_before(charts@, i as int) + 1,
            charts_before(charts@, charts@.len() as int) < u64::MAX,
            forall|j: int| #![trigger r@[j]] 0 <= j < i ==> r@[j].drawing_id == drawings_before(charts@, j) + 1
                && r@[j].chart_start_id == charts_before(charts@, j) + 1,
        decreases charts@.len() - i,
    {
        proof {
            lemma_before_monotone(charts@, i as int + 1, charts@.len() as int);
        }
        r.push(DrawingNumbers { drawing_id: d, chart_start_id: c });
        if charts[i] > 0 {
            d = d + 1;
        }
        c = c + charts[i];
        i = i + 1;
    }
    r
}

proof fn lemma_before_monotone(charts: Seq<u64>, i: int, j: int)
    requires
        0 <= i <= j <= charts.len(),
    ensures
        charts_before(charts, i) <= charts_before(charts, j),
        drawings_before(charts, i) <= drawings_before(charts, j),
        drawings_before(charts, j) <= j,
        drawings_before(charts, j) <= charts_before(charts, j),
    decreases j,
{
    if j > 0 {
        if i < j {
            lemma_before_monotone(charts, i, j - 1);
        } else {
            lemma_before_monotone(charts, j - 1, j - 1);
        }
    }
}

pub open spec fn default_text(ext: Seq<char>, ct: Seq<char>) -> Seq<char> {
    "<Default"@ + attr_text("Extension"@, ext) + attr_text("ContentType"@, ct) + "/>"@
}

pub open spec fn override_text(part: Seq<char>, ct: Seq<char>) -> Seq<char> {
    "<Override"@ + attr_text("PartName"@, part) + attr_text("ContentType"@, ct) + "/>"@
}

pub open spec fn sheet_ct() -> Seq<char> {
    "application/vnd.openxmlformats-officedocument.spreadsheetml.worksheet+xml"@
}

pub open spec fn drawing_ct() -> Seq<char> {
    "application/vnd.openxmlformats-officedocument.drawing+xml"@
}

pub open spec fn chart_ct() -> Seq<char> {
    "application/vnd.openxmlformats-officedocument.drawingml.chart+xml"@
}

/// One Override per sheet, numbered from 1.
pub open spec fn sheet_overrides(n: nat) -> Seq<char>
    decreases n,
{
    if n == 0 {
        Seq::empty()
    } else {
        sheet_overrides((n - 1) as nat) + override_text(
            "/xl/worksheets/sheet"@ + dec(n) + ".xml"@,
            sheet_ct(),
        )
    }
}

/// One Override for each of the charts `start .. start + n`.
pub open spec fn chart_overrides(start: nat, n: nat) -> Seq<char>
    decreases n,
{
    if n == 0 {
        Seq::empty()
    } else {
        chart_overrides(start, (n - 1) as nat) + override_text(
            "/xl/charts/chart"@ + dec((start + n - 1) as nat) + ".xml"@,
            chart_ct(),
        )
    }
}

/// The Overrides of worksheet `i`: one drawing when it has charts, then one per chart.
pub open spec fn worksheet_overrides(charts: Seq<u64>, i: int) -> Seq<char> {
    (if charts[i] > 0 {
        override_text("/xl/drawings/drawing"@ + dec(drawings_before(charts, i) + 1) + ".xml"@, drawing_ct())
    } else {
        Seq::empty()
    }) + chart_overrides(charts_before(charts, i) + 1, charts[i] as nat)
}

/// The drawing and chart Overrides of the first `i` worksheets.
pub open spec fn drawing_chart_overrides(charts: Seq<u64>, i: int) -> Seq<char>
    decreases i,
{
    if i <= 0 {
        Seq::empty()
    } else {
        drawing_chart_overrides(charts, i - 1) + worksheet_overrides(charts, i - 1)
    }
}

/// The manifest of a package of `sheet_count` sheets whose chart counts are `charts`.
pub open spec fn content_types_xml(sheet_count: nat, charts: Seq<u64>) -> Seq<char> {
    xml_decl() + "<Types"@
        + attr_text("xmlns"@, "http://schemas.openxmlformats.org/package/2006/content-types"@) + ">"@
        + default_text("rels"@, "application/vnd.openxmlformats-package.relationships+xml"@)
        + default_text("xml"@, "application/xml"@)
        + override_text("/xl/workbook.xml"@, "application/vnd.openxmlformats-officedocument.spreadsheetml.sheet.main+xml"@)
        + sheet_overrides(sheet_count)
        + override_text("/xl/theme/theme1.xml"@, "application/vnd.openxmlformats-officedocument.theme+xml"@)
        + override_text("/xl/styles.xml"@, "application/vnd.openxmlformats-officedocument.spreadsheetml.styles+xml"@)
        + override_text("/xl/sharedStrings.xml"@, "application/vnd.openxmlformats-officedocument.spreadsheetml.sharedStrings+xml"@)
        + drawing_chart_overrides(charts, charts.len() as int)
        + override_text("/docProps/core.xml"@, "application/vnd.openxmlformats-package.core-properties+xml"@)
        + override_text("/docProps/app.xml"@, "application/vnd.openxmlformats-officedocument.extended-properties+xml"@)
        + "</Types>"@
}

fn push_default(out: &mut String, ext: &str, ct: &str)
    ensures
        final(out)@ == old(out)@ + default_text(ext@, ct@),
{
    out.append("<Default");
    push_attr(out, "Extension", ext);
    push_attr(out, "ContentType", ct);
    out.append("/>");
    proof {
        assert(final(out)@ =~= old(out)@ + default_text(ext@, ct@));
    }
}

fn push_override(out: &mut String, part: &str, ct: &str)
    ensures
        final(out)@ == old(out)@ + override_text(part@, ct@),
{
    out.append("<Override");
    push_attr(out, "PartName", part);
    push_attr(out, "ContentType", ct);
    out.append("/>");
    proof {
        assert(final(out)@ =~= old(out)@ + override_text(part@, ct@));
    }
}

/// `prefix`, then `n` in decimal, then `suffix`.
fn numbered(prefix: &str, n: u64, suffix: &str) -> (r: String)
    ensures
        r@ == prefix@ + dec(n as nat) + suffix@,
{
    let mut s = String::from_str(prefix);
    push_decimal(&mut s, n);
    s.append(suffix);
    s
}

/// The content-type manifest of a package with `sheet_count` sheets whose
/// worksheets hold `charts[i]` charts each.
pub fn content_types(sheet_count: u64, charts: &Vec<u64>) -> (r: String)
    requires
        charts_before(charts@, charts@.len() as int) < u64::MAX,
    ensures
        r@ == content_types_xml(sheet_count as nat, charts@),
{
    let mut out = String::new();
    push_xml_decl(&mut out);
    out.append("<Types");
    push_attr(&mut out, "xmlns", "http://schemas.openxmlformats.org/package/2006/content-types");
    out.append(">");
    push_default(&mut out, "rels", "application/vnd.openxmlformats-package.relationships+xml");
    push_default(&mut out, "xml", "application/xml");
    push_override(&mut out, "/xl/workbook.xml", "application/vnd.openxmlformats-officedocument.spreadsheetml.sheet.main+xml");
    let ghost base = out@;
    let mut i: u64 = 0;
    while i < sheet_count
        invariant
            i <= sheet_count,
            out@ == base + sheet_overrides(i as nat),
        decreases sheet_count - i,
    {
        let name = numbered("/xl/worksheets/sheet", i + 1, ".xml");
        push_override(&mut out, name.as_str(), "application/vnd.openxmlformats-officedocument.spreadsheetml.worksheet+xml");
        i = i + 1;
        proof {
            assert(out@ =~= base + sheet_overrides(i as nat));
        }
    }
    push_override(&mut out, "/xl/theme/theme1.xml", "application/vnd.openxmlformats-officedocument.theme+xml");
    push_override(&mut out, "/xl/styles.xml", "application/vnd.openxmlformats-officedocument.spreadsheetml.styles+xml");
    push_override(&mut out, "/xl/sharedStrings.xml", "application/vnd.openxmlformats-officedocument.spreadsheetml.sharedStrings+xml");
    let numbers = number_drawings(charts);
    let ghost base2 = out@;
    let mut w: usize = 0;
    while w < charts.len()
        invariant
            w <= charts@.len(),
            numbers@.len() == charts@.len(),
            forall|i: int| #![trigger numbers@[i]] 0 <= i < numbers@.len() ==> numbers@[i].drawing_id == drawings_before(charts@, i) + 1
                && numbers@[i].chart_start_id == charts_before(charts@, i) + 1,
            charts_before(charts@, charts@.len() as int) < u64::MAX,
            out@ == base2 + drawing_chart_overrides(charts@, w as int),
        decreases charts@.len() - w,
    {
        let ghost before_ws = out@;
        let nb = numbers[w];
        if charts[w] > 0 {
            let name = numbered("/xl/drawings/drawing", nb.drawing_id, ".xml");
            push_override(&mut out, name.as_str(), "application/vnd.openxmlformats-officedocument.drawing+xml");
        }
        let ghost mid = out@;
        proof {
            lemma_before_monotone(charts@, w as int + 1, charts@.len() as int);
        }
        let mut k: u64 = 0;
        while k < charts[w]
            invariant
                k <= charts@[w as int],
                nb.chart_start_id == charts_before(charts@, w as int) + 1,
                charts_before(charts@, w as int) + charts@[w as int] < u64::MAX,
                w < charts@.len(),
                out@ == mid + chart_overrides(nb.chart_start_id as nat, k as nat),
            decreases charts@[w as int] - k,
        {
            let name = numbered("/xl/charts/chart", nb.chart_start_id + k, ".xml");
            push_override(&mut out, name.as_str(), "application/vnd.openxmlformats-officedocument.drawingml.chart+xml");
            k = k + 1;
            proof {
                assert(out@ =~= mid + chart_overrides(nb.chart_start_id as nat, k as nat));
            }
        }
        w = w + 1;
        proof {
            assert(out@ =~= base2 + drawing_chart_overrides(charts@, w as int));
        }
    }
    push_override(&mut out, "/docProps/core.xml", "application/vnd.openxmlformats-package.core-properties+xml");
    push_override(&mut out, "/docProps/app.xml", "application/vnd.openxmlformats-officedocument.extended-properties+xml");
    out.append("</Types>");
    proof {
        assert(out@ =~= content_types_xml(sheet_count as nat, charts@));
    }
    out
}

} // verus!
