//! Relationship parts of drawings and the media parts of worksheets.
use vstd::prelude::*;
use vstd::string::*;
use crate::text::{dec, push_decimal};
use crate::parts::{PartWriterManager, PartContent, deposit};
use crate::relationships::{RelationshipTable, Relationship, TargetMode, rels_xml};
use crate::content_types::DrawingNumbers;

verus! {

/// One anchor of a worksheet drawing: a chart frame, a picture, or both.
pub struct Anchor {
    pub has_chart: bool,
    pub image_name: Option<String>,
}

/// An embedded image and its bytes.
pub struct Image {
    pub image_name: String,
    pub image_data: Vec<u8>,
}

pub open spec fn chart_rel_type() -> Seq<char> {
    "http://schemas.openxmlformats.org/officeDocument/2006/relationships/chart"@
}

pub open spec fn image_rel_type() -> Seq<char> {
    "http://schemas.openxmlformats.org/officeDocument/2006/relationships/image"@
}

/// How many of the first `n` anchors hold a chart.
pub open spec fn charts_in(anchors: Seq<Anchor>, n: int) -> nat
    decreases n,
{
    if n <= 0 {
        0
    } else {
        charts_in(anchors, n - 1) + (if anchors[n - 1].has_chart { 1nat } else { 0nat })
    }
}

/// The (type, target) pairs of the relationships of the first `n` anchors,
/// the charts numbered from `chart_start`.
pub open spec fn anchor_rels(anchors: Seq<Anchor>, chart_start: nat, n: int) -> Seq<(Seq<char>, Seq<char>)>
    decreases n,
{
    if n <= 0 {
        Seq::empty()
    } else {
        let a = anchors[n - 1];
        let before = anchor_rels(anchors, chart_start, n - 1);
        let with_chart = if a.has_chart {
            before.push((chart_rel_type(), "../charts/chart"@ + dec(chart_start + charts_in(anchors, n - 1)) + ".xml"@))
        } else {
            before
        };
        match a.image_name {
            Some(name) => with_chart.push((image_rel_type(), "../media/"@ + name@)),
            None => with_chart,
        }
    }
}

/// The relationships of a table, as (type, target) pairs.
pub open spec fn type_targets(s: Seq<Relationship>) -> Seq<(Seq<char>, Seq<char>)> {
    s.map_values(|r: Relationship| (r.rel_type@, r.target@))
}

/// The relationships of a drawing whose anchors are `anchors`: for each anchor
/// its chart, numbered on from `chart_start`, then its picture.
pub fn drawing_relationships(anchors: &Vec<Anchor>, chart_start: u64) -> (t: RelationshipTable)
    requires
        chart_start + anchors@.len() < u64::MAX,
        2 * anchors@.len() < u64::MAX,
    ensures
        t.wf(),
        type_targets(t.entries@) == anchor_rels(anchors@, chart_start as nat, anchors@.len() as int),
        forall|k: int| 0 <= k < t.entries@.len() ==> #[trigger] t.entries@[k].mode == TargetMode::Internal,
{
    let mut t = RelationshipTable::new();
    let mut chart_id: u64 = chart_start;
    let mut i: usize = 0;
    while i < anchors.len()
        invariant
            i <= anchors@.len(),
            chart_start + anchors@.len() < u64::MAX,
            2 * anchors@.len() < u64::MAX,
            t.wf(),
            t.entries@.len() <= 2 * i,
            chart_id == chart_start + charts_in(anchors@, i as int),
            charts_in(anchors@, i as int) <= i,
            type_targets(t.entries@) == anchor_rels(anchors@, chart_start as nat, i as int),
            forall|k: int| 0 <= k < t.entries@.len() ==> #[trigger] t.entries@[k].mode == TargetMode::Internal,
        decreases anchors@.len() - i,
    {
        let ghost before = type_targets(t.entries@);
        let a = &anchors[i];
        if a.has_chart {
            let mut target = String::from_str("../charts/chart");
            push_decimal(&mut target, chart_id);
            target.append(".xml");
            t.add(
                String::from_str("http://schemas.openxmlformats.org/officeDocument/2006/relationships/chart"),
                target,
                TargetMode::Internal,
            );
            chart_id = chart_id + 1;
        }
        let ghost mid = type_targets(t.entries@);
        proof {
            if a.has_chart {
                assert(mid =~= before.push((chart_rel_type(), "../charts/chart"@ + dec(chart_start as nat + charts_in(anchors@, i as int)) + ".xml"@)));
            } else {
                assert(mid =~= before);
            }
        }
        match &a.image_name {
            Some(name) => {
                let mut target = String::from_str("../media/");
                target.append(name.as_str());
                t.add(
                    String::from_str("http://schemas.openxmlformats.org/officeDocument/2006/relationships/image"),
                    target,
                    TargetMode::Internal,
                );
                proof {
                    assert(type_targets(t.entries@) =~= mid.push((image_rel_type(), "../media/"@ + name@)));
                }
            },
            None => {},
        }
        i = i + 1;
    }
    t
}

/// The path of the relationship part of drawing `id`.
pub open spec fn drawing_rels_path(id: nat) -> Seq<char> {
    "xl/drawings/_rels/drawing"@ + dec(id) + ".xml.rels"@
}

/// Deposits the relationship part of the drawing numbered as `numbers` says;
/// a drawing whose anchors hold neither chart nor picture deposits nothing.
pub fn write_drawing_rels(anchors: &Vec<Anchor>, numbers: DrawingNumbers, writer_mng: &mut PartWriterManager)
    requires
        old(writer_mng).wf(),
        numbers.chart_start_id + anchors@.len() < u64::MAX,
        2 * anchors@.len() < u64::MAX,
    ensures
        final(writer_mng).wf(),
        anchor_rels(anchors@, numbers.chart_start_id as nat, anchors@.len() as int).len() == 0
            ==> final(writer_mng).view() == old(writer_mng).view(),
        anchor_rels(anchors@, numbers.chart_start_id as nat, anchors@.len() as int).len() > 0
            ==> exists|rels: Seq<Relationship>| {
                &&& type_targets(rels) == anchor_rels(anchors@, numbers.chart_start_id as nat, anchors@.len() as int)
                &&& forall|k: int| 0 <= k < rels.len() ==> #[trigger] rels[k].id@ == crate::relationships::rid((k + 1) as nat)
                &&& forall|k: int| 0 <= k < rels.len() ==> #[trigger] rels[k].mode == TargetMode::Internal
                &&& final(writer_mng).view() == deposit(
                    old(writer_mng).view(),
                    drawing_rels_path(numbers.drawing_id as nat),
                    PartContent::Text(rels_xml(rels)),
                )
            },
{
    let t = drawing_relationships(anchors, numbers.chart_start_id);
    let mut path = String::from_str("xl/drawings/_rels/drawing");
    push_decimal(&mut path, numbers.drawing_id);
    path.append(".xml.rels");
    t.write_to(writer_mng, path.as_str());
    proof {
        assert(type_targets(t.entries@).len() == t.entries@.len());
    }
}

/// The package path of an image.
pub open spec fn media_path(name: Seq<char>) -> Seq<char> {
    "xl/media/"@ + name
}

/// The registry after depositing the first `n` images.
pub open spec fn media_deposits(parts: Seq<(Seq<char>, PartContent)>, images: Seq<Image>, n: int) -> Seq<(Seq<char>, PartContent)>
    decreases n,
{
    if n <= 0 {
        parts
    } else {
        deposit(media_deposits(parts, images, n - 1), media_path(images[n - 1].image_name@),
            PartContent::Binary(images[n - 1].image_data@))
    }
}

/// Deposits each image of a worksheet under `xl/media/`.
pub fn write_media(images: &Vec<Image>, writer_mng: &mut PartWriterManager)
    requires
        old(writer_mng).wf(),
    ensures
        final(writer_mng).wf(),
        final(writer_mng).view() == media_deposits(old(writer_mng).view(), images@, images@.len() as int),
{
    let mut i: usize = 0;
    while i < images.len()
        invariant
            i <= images@.len(),
            writer_mng.wf(),
            writer_mng.view() == media_deposits(old(writer_mng).view(), images@, i as int),
        decreases images@.len() - i,
    {
        let mut path = String::from_str("xl/media/");
        path.append(images[i].image_name.as_str());
        writer_mng.add_binary_part(path.as_str(), images[i].image_data.clone());
        i = i + 1;
    }
}

} // verus!
