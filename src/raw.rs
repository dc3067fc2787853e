//! Parts kept byte for byte: raw files reached through relationships that
//! the typed model does not interpret, and their re-emission.
use vstd::prelude::*;
use vstd::string::*;
use crate::parts::{PartWriterManager, PartContent, deposit};
use crate::relationships::{str_eq, Relationship, TargetMode, rels_document, rels_xml};
use quick_xml::events::Event;

verus! {

/// One named entry of an input package.
pub struct ArchiveEntry {
    pub name: String,
    pub data: Vec<u8>,
}

/// The entries of an input package, as read from the container.
pub struct Archive {
    pub entries: Vec<ArchiveEntry>,
}

impl Archive {
    /// The position of the entry named `name`, if there is one.
    pub fn find(&self, name: &str) -> (r: Option<usize>)
        ensures
            r is None <==> forall|k: int| 0 <= k < self.entries@.len() ==> self.entries@[k].name@ != name@,
            r is Some ==> r->0 < self.entries@.len() && self.entries@[r->0 as int].name@ == name@,
    {
        let mut i: usize = 0;
        while i < self.entries.len()
            invariant
                i <= self.entries@.len(),
                forall|k: int| 0 <= k < i ==> self.entries@[k].name@ != name@,
            decreases self.entries@.len() - i,
        {
            if str_eq(self.entries[i].name.as_str(), name) {
                return Some(i);
            }
            i = i + 1;
        }
        None
    }
}

/// `s` up to (not including) its last `/`; empty when it has none.
pub open spec fn parent_dir(s: Seq<char>) -> Seq<char>
    decreases s.len(),
{
    if s.len() == 0 {
        s
    } else if s.last() == '/' {
        s.drop_last()
    } else {
        parent_dir(s.drop_last())
    }
}

/// `target`, a path relative to the directory `base`, as a path from the
/// package root: each leading `../` climbs one directory.
pub open spec fn join_path(base: Seq<char>, target: Seq<char>) -> Seq<char>
    decreases target.len(),
{
    if target.len() >= 3 && target[0] == '.' && target[1] == '.' && target[2] == '/' {
        join_path(parent_dir(base), target.subrange(3, target.len() as int))
    } else if target.len() >= 1 && target[0] == '/' {
        target.subrange(1, target.len() as int)
    } else if base.len() == 0 {
        target
    } else {
        base + seq!['/'] + target
    }
}

fn parent_of(s: &str) -> (r: String)
    ensures
        r@ == parent_dir(s@),
{
    let n = s.unicode_len();
    let mut i: usize = n;
    proof {
        assert(s@.subrange(0, n as int) =~= s@);
    }
    while i > 0 && s.get_char(i - 1) != '/'
        invariant
            i <= n,
            n == s@.len(),
            parent_dir(s@) == parent_dir(s@.subrange(0, i as int)),
        decreases i,
    {
        proof {
            assert(s@.subrange(0, i as int).drop_last() =~= s@.subrange(0, i - 1));
        }
        i = i - 1;
    }
    proof {
        assert(s@.subrange(0, n as int) =~= s@);
        if i > 0 {
            assert(s@.subrange(0, i as int).drop_last() =~= s@.subrange(0, i - 1));
        }
    }
    if i == 0 {
        String::new()
    } else {
        s.substring_char(0, i - 1).to_owned()
    }
}

/// The package path of `target`, relative to the directory `base`.
pub fn resolve_path(base: &str, target: &str) -> (r: String)
    ensures
        r@ == join_path(base@, target@),
    decreases target@.len(),
{
    let n = target.unicode_len();
    if n >= 3 && target.get_char(0) == '.' && target.get_char(1) == '.' && target.get_char(2) == '/' {
        let up = parent_of(base);
        return resolve_path(up.as_str(), target.substring_char(3, n));
    }
    if n >= 1 && target.get_char(0) == '/' {
        return target.substring_char(1, n).to_owned();
    }
    if base.unicode_len() == 0 {
        return target.to_owned();
    }
    proof {
        reveal_strlit("/");
    }
    let mut r = String::from_str(base);
    r.append("/");
    r.append(target);
    proof {
        assert(r@ =~= base@ + seq!['/'] + target@);
    }
    r
}

/// The bytes of an entry, kept as they were read.
pub struct RawFile {
    pub file_target: String,
    pub file_data: Vec<u8>,
}

/// A relationship read from an input package, with the raw file it points
/// at when the package holds it.
pub struct RawRelationship {
    pub id: String,
    pub rel_type: String,
    pub target: String,
    pub mode: TargetMode,
    pub raw_file: Option<RawFile>,
}

/// The attributes of one `Relationship` element as read from a `.rels` part.
pub struct RelationshipRecord {
    pub id: String,
    pub rel_type: String,
    pub target: String,
    pub mode: TargetMode,
}

/// `f` holds the bytes of the entry of `archive` named `path`, under that path.
pub open spec fn loaded_from(f: RawFile, archive: &Archive, path: Seq<char>) -> bool {
    &&& f.file_target@ == path
    &&& exists|e: int| 0 <= e < archive.entries@.len() && archive.entries@[e].name@ == path
        && f.file_data@ == archive.entries@[e].data@
}

/// The raw file that `target`, relative to `base`, names in `archive`:
/// nothing when the archive has no such entry.
pub fn load_raw_file(archive: &Archive, base: &str, target: &str) -> (r: Option<RawFile>)
    ensures
        r is None <==> forall|k: int| 0 <= k < archive.entries@.len()
            ==> archive.entries@[k].name@ != join_path(base@, target@),
        r is Some ==> loaded_from(r->0, archive, join_path(base@, target@)),
{
    let path = resolve_path(base, target);
    match archive.find(path.as_str()) {
        None => None,
        Some(k) => Some(RawFile { file_target: path, file_data: archive.entries[k].data.clone() }),
    }
}

/// The registry `parts` after depositing, in order, the raw files that the
/// first `n` relationships of `list` hold.
pub open spec fn raw_deposits(
    parts: Seq<(Seq<char>, PartContent)>,
    list: Seq<RawRelationship>,
    n: int,
) -> Seq<(Seq<char>, PartContent)>
    decreases n,
{
    if n <= 0 {
        parts
    } else {
        let before = raw_deposits(parts, list, n - 1);
        match list[n - 1].raw_file {
            Some(f) => deposit(before, f.file_target@, PartContent::Binary(f.file_data@)),
            None => before,
        }
    }
}

/// `rels` are the relationships of `list` as they are written back.
pub open spec fn written_back(rels: Seq<Relationship>, list: Seq<RawRelationship>) -> bool {
    &&& rels.len() == list.len()
    &&& forall|k: int| 0 <= k < rels.len() ==> {
        &&& (#[trigger] rels[k]).id@ == list[k].id@
        &&& rels[k].rel_type@ == list[k].rel_type@
        &&& rels[k].target@ == list[k].target@
        &&& rels[k].mode == list[k].mode
    }
}

pub open spec fn drawing_rel_type() -> Seq<char> {
    "http://schemas.openxmlformats.org/officeDocument/2006/relationships/drawing"@
}

pub open spec fn vml_drawing_rel_type() -> Seq<char> {
    "http://schemas.openxmlformats.org/officeDocument/2006/relationships/vmlDrawing"@
}

/// What follows the last `/` of `s`; all of `s` when it has none.
pub open spec fn file_name_of(s: Seq<char>) -> Seq<char>
    decreases s.len(),
{
    if s.len() == 0 || s.last() == '/' {
        Seq::empty()
    } else {
        file_name_of(s.drop_last()).push(s.last())
    }
}

/// The relationships of one `.rels` part kept for pass-through.
pub struct RawRelationships {
    pub file_target: String,
    pub relationship_list: Vec<RawRelationship>,
}

impl RawRelationships {
    /// Builds the relationships read from the `.rels` part at `file_target`:
    /// each one keeps its attributes and, when the archive holds its target
    /// (relative to `base`), the bytes of that target.
    pub fn from_records(file_target: String, records: Vec<RelationshipRecord>, archive: &Archive, base: &str) -> (r: Self)
        ensures
            r.file_target@ == file_target@,
            r.relationship_list@.len() == records@.len(),
            forall|k: int| 0 <= k < records@.len() ==> {
                let rel = #[trigger] r.relationship_list@[k];
                &&& rel.id@ == records@[k].id@
                &&& rel.rel_type@ == records@[k].rel_type@
                &&& rel.target@ == records@[k].target@
                &&& rel.mode == records@[k].mode
                &&& (rel.raw_file is None <==> forall|e: int| 0 <= e < archive.entries@.len()
                    ==> archive.entries@[e].name@ != join_path(base@, records@[k].target@))
                &&& (rel.raw_file is Some ==> loaded_from(rel.raw_file->0, archive, join_path(base@, records@[k].target@)))
            },
    {
        let mut list: Vec<RawRelationship> = Vec::new();
        let mut i: usize = 0;
        while i < records.len()
            invariant
                i <= records@.len(),
                list@.len() == i,
                forall|k: int| 0 <= k < i ==> {
                    let rel = #[trigger] list@[k];
                    &&& rel.id@ == records@[k].id@
                    &&& rel.rel_type@ == records@[k].rel_type@
                    &&& rel.target@ == records@[k].target@
                    &&& rel.mode == records@[k].mode
                    &&& (rel.raw_file is None <==> forall|e: int| 0 <= e < archive.entries@.len()
                        ==> archive.entries@[e].name@ != join_path(base@, records@[k].target@))
                    &&& (rel.raw_file is Some ==> loaded_from(rel.raw_file->0, archive, join_path(base@, records@[k].target@)))
                },
            decreases records@.len() - i,
        {
            let rec = &records[i];
            let raw_file = load_raw_file(archive, base, rec.target.as_str());
            list.push(RawRelationship {
                id: rec.id.clone(),
                rel_type: rec.rel_type.clone(),
                target: rec.target.clone(),
                mode: rec.mode,
                raw_file,
            });
            i = i + 1;
        }
        RawRelationships { file_target, relationship_list: list }
    }

    /// The raw file of the first relationship whose type is `rel_type`, when
    /// there is such a relationship; its raw file may be absent.
    pub fn first_raw_file_of_type(&self, rel_type: &str) -> (r: Option<&Option<RawFile>>)
        ensures
            r is None <==> forall|k: int| 0 <= k < self.relationship_list@.len()
                ==> self.relationship_list@[k].rel_type@ != rel_type@,
            r is Some ==> exists|k: int| 0 <= k < self.relationship_list@.len()
                && self.relationship_list@[k].rel_type@ == rel_type@
                && self.relationship_list@[k].raw_file == *r->0
                && forall|j: int| 0 <= j < k ==> self.relationship_list@[j].rel_type@ != rel_type@,
    {
        let mut i: usize = 0;
        while i < self.relationship_list.len()
            invariant
                i <= self.relationship_list@.len(),
                forall|k: int| 0 <= k < i ==> self.relationship_list@[k].rel_type@ != rel_type@,
            decreases self.relationship_list@.len() - i,
        {
            if str_eq(self.relationship_list[i].rel_type.as_str(), rel_type) {
                return Some(&self.relationship_list[i].raw_file);
            }
            i = i + 1;
        }
        None
    }

    /// The raw file of the first drawing relationship.
    pub fn get_drawing_raw_file(&self) -> (r: Option<&Option<RawFile>>)
        ensures
            r is None <==> forall|k: int| 0 <= k < self.relationship_list@.len()
                ==> self.relationship_list@[k].rel_type@ != drawing_rel_type(),
            r is Some ==> exists|k: int| 0 <= k < self.relationship_list@.len()
                && self.relationship_list@[k].rel_type@ == drawing_rel_type()
                && self.relationship_list@[k].raw_file == *r->0
                && forall|j: int| 0 <= j < k ==> self.relationship_list@[j].rel_type@ != drawing_rel_type(),
    {
        self.first_raw_file_of_type("http://schemas.openxmlformats.org/officeDocument/2006/relationships/drawing")
    }

    /// The raw file of the first legacy VML drawing relationship.
    pub fn get_vml_drawing_raw_file(&self) -> (r: Option<&Option<RawFile>>)
        ensures
            r is None <==> forall|k: int| 0 <= k < self.relationship_list@.len()
                ==> self.relationship_list@[k].rel_type@ != vml_drawing_rel_type(),
            r is Some ==> exists|k: int| 0 <= k < self.relationship_list@.len()
                && self.relationship_list@[k].rel_type@ == vml_drawing_rel_type()
                && self.relationship_list@[k].raw_file == *r->0
                && forall|j: int| 0 <= j < k ==> self.relationship_list@[j].rel_type@ != vml_drawing_rel_type(),
    {
        self.first_raw_file_of_type("http://schemas.openxmlformats.org/officeDocument/2006/relationships/vmlDrawing")
    }

    /// The last segment of the path of this `.rels` part.
    pub fn get_file_name(&self) -> (r: String)
        ensures
            r@ == file_name_of(self.file_target@),
    {
        let s = self.file_target.as_str();
        let n = s.unicode_len();
        let mut i: usize = n;
        proof {
            assert(s@.subrange(0, n as int) =~= s@);
            assert(s@.subrange(n as int, n as int) =~= Seq::<char>::empty());
        }
        while i > 0 && s.get_char(i - 1) != '/'
            invariant
                i <= n,
                n == s@.len(),
                file_name_of(s@) == file_name_of(s@.subrange(0, i as int)) + s@.subrange(i as int, n as int),
            decreases i,
        {
            proof {
                let p = s@.subrange(0, i as int);
                assert(p.drop_last() =~= s@.subrange(0, i - 1));
                assert(seq![p.last()] + s@.subrange(i as int, n as int) =~= s@.subrange(i - 1, n as int));
            }
            i = i - 1;
        }
        proof {
            if i > 0 {
                assert(s@.subrange(0, i as int).last() == '/');
            } else {
                assert(s@.subrange(0, 0) =~= Seq::<char>::empty());
            }
            assert(file_name_of(s@.subrange(0, i as int)) =~= Seq::<char>::empty());
        }
        s.substring_char(i, n).to_owned()
    }

    /// The relationship whose identifier is `r_id`.
    pub fn get_relationship_by_rid(&self, r_id: &str) -> (r: Option<&RawRelationship>)
        ensures
            r is None <==> forall|k: int| 0 <= k < self.relationship_list@.len()
                ==> self.relationship_list@[k].id@ != r_id@,
            r is Some ==> exists|k: int| 0 <= k < self.relationship_list@.len()
                && self.relationship_list@[k].id@ == r_id@ && self.relationship_list@[k] == *r->0
                && forall|j: int| 0 <= j < k ==> self.relationship_list@[j].id@ != r_id@,
    {
        let mut i: usize = 0;
        while i < self.relationship_list.len()
            invariant
                i <= self.relationship_list@.len(),
                forall|k: int| 0 <= k < i ==> self.relationship_list@[k].id@ != r_id@,
            decreases self.relationship_list@.len() - i,
        {
            if str_eq(self.relationship_list[i].id.as_str(), r_id) {
                return Some(&self.relationship_list[i]);
            }
            i = i + 1;
        }
        None
    }

    /// Deposits the `.rels` part under `other_target`, or under its own path
    /// when none is given, then each raw file that a relationship holds under
    /// its own path. Without relationships nothing is deposited.
    pub fn write_to(&self, writer_mng: &mut PartWriterManager, other_target: Option<&str>)
        requires
            old(writer_mng).wf(),
        ensures
            final(writer_mng).wf(),
            self.relationship_list@.len() == 0 ==> final(writer_mng).view() == old(writer_mng).view(),
            self.relationship_list@.len() > 0 ==> exists|rels: Seq<Relationship>| {
                &&& written_back(rels, self.relationship_list@)
                &&& final(writer_mng).view() == raw_deposits(
                    deposit(
                        old(writer_mng).view(),
                        match other_target { Some(t) => t@, None => self.file_target@ },
                        PartContent::Text(rels_xml(rels)),
                    ),
                    self.relationship_list@,
                    self.relationship_list@.len() as int,
                )
            },
    {
        if self.relationship_list.len() == 0 {
            return;
        }
        let rels = self.to_relationships();
        let xml = rels_document(&rels);
        let target = match other_target {
            Some(t) => t,
            None => self.file_target.as_str(),
        };
        writer_mng.add_text_part(target, xml);
        let ghost start = writer_mng.view();
        let mut i: usize = 0;
        while i < self.relationship_list.len()
            invariant
                i <= self.relationship_list@.len(),
                writer_mng.wf(),
                writer_mng.view() == raw_deposits(start, self.relationship_list@, i as int),
            decreases self.relationship_list@.len() - i,
        {
            match &self.relationship_list[i].raw_file {
                Some(f) => {
                    writer_mng.add_binary_part(f.file_target.as_str(), f.file_data.clone());
                },
                None => {},
            }
            i = i + 1;
        }
        proof {
            assert(written_back(rels@, self.relationship_list@));
        }
    }

    /// The relationships as they are written back.
    pub fn to_relationships(&self) -> (r: Vec<Relationship>)
        ensures
            written_back(r@, self.relationship_list@),
    {
        let mut out: Vec<Relationship> = Vec::new();
        let mut i: usize = 0;
        while i < self.relationship_list.len()
            invariant
                i <= self.relationship_list@.len(),
                out@.len() == i,
                forall|k: int| 0 <= k < i ==> {
                    &&& (#[trigger] out@[k]).id@ == self.relationship_list@[k].id@
                    &&& out@[k].rel_type@ == self.relationship_list@[k].rel_type@
                    &&& out@[k].target@ == self.relationship_list@[k].target@
                    &&& out@[k].mode == self.relationship_list@[k].mode
                },
            decreases self.relationship_list@.len() - i,
        {
            let rel = &self.relationship_list[i];
            out.push(Relationship {
                id: rel.id.clone(),
                rel_type: rel.rel_type.clone(),
                target: rel.target.clone(),
                mode: rel.mode,
            });
            i = i + 1;
        }
        out
    }
}

/// An empty element of an XML document: its name and its attributes, each
/// with its unescaped value, in document order.
pub struct XmlElement {
    pub name: String,
    pub attributes: Vec<(String, String)>,
}

pub open spec fn element_view(e: XmlElement) -> (Seq<char>, Seq<(Seq<char>, Seq<char>)>) {
    (e.name@, e.attributes@.map_values(|a: (String, String)| (a.0@, a.1@)))
}

/// What quick-xml's reader yields for the document `bytes`: its empty
/// elements in order, or nothing when the reader reports an error.
pub uninterp spec fn empty_elements_of(bytes: Seq<u8>) -> Option<Seq<(Seq<char>, Seq<(Seq<char>, Seq<char>)>)>>;

/// Relies on quick_xml::Reader::read_event, read to the end of `bytes`: it
/// yields the document's events in order, or an error. Each empty element is
/// kept with its name and its attributes, unescaped by
/// quick_xml::events::attributes::Attribute::unescaped_value.
#[verifier::external_body]
fn read_empty_elements(bytes: &[u8]) -> (r: Option<Vec<XmlElement>>)
    ensures
        r is None ==> empty_elements_of(bytes@) is None,
        r is Some ==> empty_elements_of(bytes@) == Some(r->0@.map_values(|e: XmlElement| element_view(e))),
{
    let mut reader = quick_xml::Reader::from_reader(bytes);
    let (mut buf, mut out) = (Vec::new(), Vec::new());
    loop {
        match reader.read_event(&mut buf).ok()? {
            Event::Empty(e) => out.push(XmlElement {
                name: String::from_utf8_lossy(e.name()).into_owned(),
                attributes: e.attributes().map(|a| a.ok().and_then(|a| Some((
                    String::from_utf8_lossy(a.key).into_owned(),
                    String::from_utf8_lossy(&a.unescaped_value().ok()?).into_owned())))).collect::<Option<Vec<_>>>()?,
            }),
            Event::Eof => return Some(out),
            _ => {},
        }
        buf.clear();
    }
}

/// The value of the first attribute named `key`; empty when there is none.
pub open spec fn attr_value(attrs: Seq<(Seq<char>, Seq<char>)>, key: Seq<char>) -> Seq<char>
    decreases attrs.len(),
{
    if attrs.len() == 0 {
        Seq::empty()
    } else if attrs[0].0 == key {
        attrs[0].1
    } else {
        attr_value(attrs.drop_first(), key)
    }
}

/// The attribute lists of the `Relationship` elements among `els`, in order.
pub open spec fn relationship_elements(els: Seq<(Seq<char>, Seq<(Seq<char>, Seq<char>)>)>) -> Seq<Seq<(Seq<char>, Seq<char>)>>
    decreases els.len(),
{
    if els.len() == 0 {
        Seq::empty()
    } else {
        let rest = relationship_elements(els.drop_last());
        if els.last().0 == "Relationship"@ {
            rest.push(els.last().1)
        } else {
            rest
        }
    }
}

/// The target mode that a `Relationship` element's attributes give.
pub open spec fn mode_of(attrs: Seq<(Seq<char>, Seq<char>)>) -> TargetMode {
    if attr_value(attrs, "TargetMode"@) == "External"@ { TargetMode::External } else { TargetMode::Internal }
}

fn find_attr(attrs: &Vec<(String, String)>, key: &str) -> (r: String)
    ensures
        r@ == attr_value(attrs@.map_values(|a: (String, String)| (a.0@, a.1@)), key@),
{
    let ghost v = attrs@.map_values(|a: (String, String)| (a.0@, a.1@));
    proof {
        assert(v.subrange(0, v.len() as int) =~= v);
    }
    let mut i: usize = 0;
    while i < attrs.len()
        invariant
            i <= attrs@.len(),
            v == attrs@.map_values(|a: (String, String)| (a.0@, a.1@)),
            attr_value(v, key@) == attr_value(v.subrange(i as int, v.len() as int), key@),
        decreases attrs@.len() - i,
    {
        proof {
            assert(v.subrange(i as int, v.len() as int).drop_first() =~= v.subrange(i + 1, v.len() as int));
        }
        if str_eq(attrs[i].0.as_str(), key) {
            return attrs[i].1.clone();
        }
        i = i + 1;
    }
    String::new()
}

/// The failures of loading a `.rels` part.
#[derive(Clone, Copy, Debug, PartialEq, Eq, Structural)]
pub enum RelsError {
    /// The part is not a well-formed XML document.
    Malformed,
}

/// `rr` holds the relationships that the attribute lists `attrs` describe,
/// with the raw files their targets (relative to `base`) name in `archive`.
pub open spec fn loaded_relationships(rr: RawRelationships, attrs: Seq<Seq<(Seq<char>, Seq<char>)>>, archive: &Archive, base: Seq<char>) -> bool {
    &&& rr.relationship_list@.len() == attrs.len()
    &&& forall|k: int| 0 <= k < attrs.len() ==> {
        let rel = #[trigger] rr.relationship_list@[k];
        let target = attr_value(attrs[k], "Target"@);
        &&& rel.id@ == attr_value(attrs[k], "Id"@)
        &&& rel.rel_type@ == attr_value(attrs[k], "Type"@)
        &&& rel.target@ == target
        &&& rel.mode == mode_of(attrs[k])
        &&& (rel.raw_file is None <==> forall|e: int| 0 <= e < archive.entries@.len()
            ==> archive.entries@[e].name@ != join_path(base, target))
        &&& (rel.raw_file is Some ==> loaded_from(rel.raw_file->0, archive, join_path(base, target)))
    }
}

/// Loads the `.rels` part that `target` names relative to `base`. An absent
/// part is no error: there is then nothing to load.
pub fn load_raw_relationships(archive: &Archive, base: &str, target: &str) -> (r: Result<Option<RawRelationships>, RelsError>)
    ensures
        (r is Ok && r->Ok_0 is None) <==> forall|e: int| 0 <= e < archive.entries@.len()
            ==> archive.entries@[e].name@ != join_path(base@, target@),
        r is Err ==> exists|e: int| 0 <= e < archive.entries@.len()
            && archive.entries@[e].name@ == join_path(base@, target@)
            && empty_elements_of(archive.entries@[e].data@) is None,
        r is Ok && r->Ok_0 is Some ==> exists|e: int| 0 <= e < archive.entries@.len()
            && archive.entries@[e].name@ == join_path(base@, target@)
            && empty_elements_of(archive.entries@[e].data@) is Some
            && r->Ok_0->0.file_target@ == join_path(base@, target@)
            && loaded_relationships(r->Ok_0->0,
                relationship_elements(empty_elements_of(archive.entries@[e].data@)->0), archive, base@),
{
    let path = resolve_path(base, target);
    let k = match archive.find(path.as_str()) {
        Some(k) => k,
        None => return Ok(None),
    };
    let els = match read_empty_elements(archive.entries[k].data.as_slice()) {
        Some(v) => v,
        None => return Err(RelsError::Malformed),
    };
    let ghost ev = els@.map_values(|e: XmlElement| element_view(e));
    let mut records: Vec<RelationshipRecord> = Vec::new();
    let ghost attrs_seq: Seq<Seq<(Seq<char>, Seq<char>)>> = Seq::empty();
    let mut i: usize = 0;
    while i < els.len()
        invariant
            i <= els@.len(),
            ev == els@.map_values(|e: XmlElement| element_view(e)),
            attrs_seq == relationship_elements(ev.subrange(0, i as int)),
            records@.len() == attrs_seq.len(),
            forall|j: int| 0 <= j < records@.len() ==> {
                let rec = #[trigger] records@[j];
                &&& rec.id@ == attr_value(attrs_seq[j], "Id"@)
                &&& rec.rel_type@ == attr_value(attrs_seq[j], "Type"@)
                &&& rec.target@ == attr_value(attrs_seq[j], "Target"@)
                &&& rec.mode == mode_of(attrs_seq[j])
            },
        decreases els@.len() - i,
    {
        proof {
            assert(ev.subrange(0, i + 1).drop_last() =~= ev.subrange(0, i as int));
            reveal_strlit("Relationship");
            reveal_strlit("External");
        }
        let el = &els[i];
        if str_eq(el.name.as_str(), "Relationship") {
            let mode_text = find_attr(&el.attributes, "TargetMode");
            let mode = if str_eq(mode_text.as_str(), "External") { TargetMode::External } else { TargetMode::Internal };
            records.push(RelationshipRecord {
                id: find_attr(&el.attributes, "Id"),
                rel_type: find_attr(&el.attributes, "Type"),
                target: find_attr(&el.attributes, "Target"),
                mode,
            });
            proof {
                attrs_seq = attrs_seq.push(ev[i as int].1);
            }
        }
        i = i + 1;
    }
    proof {
        assert(ev.subrange(0, ev.len() as int) =~= ev);
    }
    let rr = RawRelationships::from_records(path, records, archive, base);
    Ok(Some(rr))
}

} // verus!
