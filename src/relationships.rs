//! Per-part relationship tables with sequential identifiers, and their
//! `.rels` serialization.
use vstd::prelude::*;
use vstd::string::*;
use crate::text::{dec, attr_text, xml_decl, push_attr, push_decimal, push_xml_decl, lemma_dec_injective};
use crate::parts::{PartWriterManager, PartContent, deposit};

verus! {

/// Whether a relationship target lies inside the package or outside it.
#[derive(Clone, Copy, Debug, PartialEq, Eq, Structural)]
pub enum TargetMode {
    Internal,
    External,
}

/// A typed pointer from the owning part to a target.
#[derive(Debug)]
pub struct Relationship {
    pub id: String,
    pub rel_type: String,
    pub target: String,
    pub mode: TargetMode,
}

/// The errors of relationship lookup.
#[derive(Clone, Copy, Debug, PartialEq, Eq, Structural)]
pub enum RelationshipError {
    /// No relationship of the table carries the identifier.
    Unresolved,
}

/// The identifier given to the `n`-th relationship of a table.
pub open spec fn rid(n: nat) -> Seq<char> {
    "rId"@ + dec(n)
}

pub open spec fn relationships_xmlns() -> Seq<char> {
    "http://schemas.openxmlformats.org/package/2006/relationships"@
}

/// The `Relationship` element of `r`.
pub open spec fn relationship_text(r: Relationship) -> Seq<char> {
    "<Relationship"@ + attr_text("Id"@, r.id@) + attr_text("Type"@, r.rel_type@)
        + attr_text("Target"@, r.target@)
        + (if r.mode == TargetMode::External { attr_text("TargetMode"@, "External"@) } else { Seq::empty() })
        + "/>"@
}

pub open spec fn relationships_body(s: Seq<Relationship>) -> Seq<char>
    decreases s.len(),
{
    if s.len() == 0 {
        Seq::empty()
    } else {
        relationships_body(s.drop_last()) + relationship_text(s.last())
    }
}

/// The `.rels` document listing `s` in order.
pub open spec fn rels_xml(s: Seq<Relationship>) -> Seq<char> {
    xml_decl() + "<Relationships"@ + attr_text("xmlns"@, relationships_xmlns()) + ">"@
        + relationships_body(s) + "</Relationships>"@
}

/// The relationships of one part. The `n`-th one added carries `rId<n>`.
pub struct RelationshipTable {
    pub entries: Vec<Relationship>,
}

impl RelationshipTable {
    pub open spec fn wf(&self) -> bool {
        forall|k: int| 0 <= k < self.entries@.len() ==> #[trigger] self.entries@[k].id@ == rid((k + 1) as nat)
    }

    pub fn new() -> (r: Self)
        ensures
            r.wf(),
            r.entries@.len() == 0,
    {
        RelationshipTable { entries: Vec::new() }
    }

    pub fn len(&self) -> (n: usize)
        ensures
            n == self.entries@.len(),
    {
        self.entries.len()
    }

    /// Appends a relationship and returns the identifier it was given.
    pub fn add(&mut self, rel_type: String, target: String, mode: TargetMode) -> (id: String)
        requires
            old(self).wf(),
            old(self).entries@.len() < u64::MAX,
        ensures
            final(self).wf(),
            id@ == rid((old(self).entries@.len() + 1) as nat),
            final(self).entries@.len() == old(self).entries@.len() + 1,
            forall|k: int| 0 <= k < old(self).entries@.len() ==> final(self).entries@[k] == old(self).entries@[k],
            final(self).entries@.last().id@ == id@,
            final(self).entries@.last().rel_type@ == rel_type@,
            final(self).entries@.last().target@ == target@,
            final(self).entries@.last().mode == mode,
    {
        proof {
            reveal_strlit("rId");
        }
        let mut id = String::from_str("rId");
        push_decimal(&mut id, self.entries.len() as u64 + 1);
        let id2 = id.clone();
        self.entries.push(Relationship { id: id2, rel_type, target, mode });
        proof {
            assert forall|k: int| 0 <= k < self.entries@.len() implies #[trigger] self.entries@[k].id@ == rid((k + 1) as nat) by {
                if k < old(self).entries@.len() {
                    assert(self.entries@[k] == old(self).entries@[k]);
                }
            }
        }
        id
    }

    /// The relationship whose identifier is `id`.
    pub fn resolve(&self, id: &str) -> (r: Result<&Relationship, RelationshipError>)
        ensures
            r is Err <==> forall|k: int| 0 <= k < self.entries@.len() ==> self.entries@[k].id@ != id@,
            r is Ok ==> exists|k: int| 0 <= k < self.entries@.len() && self.entries@[k].id@ == id@
                && self.entries@[k] == *r->Ok_0,
    {
        let mut i: usize = 0;
        while i < self.entries.len()
            invariant
                i <= self.entries@.len(),
                forall|k: int| 0 <= k < i ==> self.entries@[k].id@ != id@,
            decreases self.entries@.len() - i,
        {
            if str_eq(self.entries[i].id.as_str(), id) {
                return Ok(&self.entries[i]);
            }
            i = i + 1;
        }
        Err(RelationshipError::Unresolved)
    }

    /// Deposits the `.rels` document of this table under `path`; a table
    /// without relationships deposits nothing.
    pub fn write_to(&self, writer_mng: &mut PartWriterManager, path: &str)
        requires
            old(writer_mng).wf(),
        ensures
            final(writer_mng).wf(),
            self.entries@.len() == 0 ==> final(writer_mng).view() == old(writer_mng).view(),
            self.entries@.len() > 0 ==> final(writer_mng).view() == deposit(
                old(writer_mng).view(),
                path@,
                PartContent::Text(rels_xml(self.entries@)),
            ),
    {
        if self.entries.len() == 0 {
            return;
        }
        let xml = rels_document(&self.entries);
        writer_mng.add_text_part(path, xml);
    }
}

proof fn lemma_rid_injective(a: nat, b: nat)
    requires
        rid(a) == rid(b),
    ensures
        a == b,
{
    reveal_strlit("rId");
    assert(dec(a) =~= rid(a).subrange(3, rid(a).len() as int));
    assert(dec(b) =~= rid(b).subrange(3, rid(b).len() as int));
    lemma_dec_injective(a, b);
}

/// Within a table, the relationship at position `k` is the only one carrying
/// its identifier, so resolving that identifier gives it back; an identifier
/// `rId<n>` with `n` outside `1..=len` was never handed out and matches nothing.
pub proof fn lemma_identifiers_resolve(t: &RelationshipTable, k: int, n: nat)
    requires
        t.wf(),
        0 <= k < t.entries@.len(),
    ensures
        forall|j: int| 0 <= j < t.entries@.len() && t.entries@[j].id@ == t.entries@[k].id@ ==> j == k,
        n == 0 || n > t.entries@.len() ==> forall|j: int| 0 <= j < t.entries@.len() ==> t.entries@[j].id@ != rid(n),
{
    assert forall|j: int| 0 <= j < t.entries@.len() && t.entries@[j].id@ == t.entries@[k].id@ implies j == k by {
        assert(t.entries@[j].id@ == rid((j + 1) as nat));
        assert(t.entries@[k].id@ == rid((k + 1) as nat));
        lemma_rid_injective((j + 1) as nat, (k + 1) as nat);
    }
    if n == 0 || n > t.entries@.len() {
        assert forall|j: int| 0 <= j < t.entries@.len() implies t.entries@[j].id@ != rid(n) by {
            assert(t.entries@[j].id@ == rid((j + 1) as nat));
            if t.entries@[j].id@ == rid(n) {
                lemma_rid_injective((j + 1) as nat, n);
            }
        }
    }
}

/// `a` and `b` hold the same characters.
pub(crate) fn str_eq(a: &str, b: &str) -> (r: bool)
    ensures
        r == (a@ == b@),
{
    let n = a.unicode_len();
    if n != b.unicode_len() {
        return false;
    }
    let mut i: usize = 0;
    while i < n
        invariant
            n == a@.len(),
            n == b@.len(),
            i <= n,
            forall|k: int| 0 <= k < i ==> a@[k] == b@[k],
        decreases n - i,
    {
        if a.get_char(i) != b.get_char(i) {
            return false;
        }
        i = i + 1;
    }
    proof {
        assert(a@ =~= b@);
    }
    true
}

fn push_relationship(out: &mut String, r: &Relationship)
    ensures
        final(out)@ == old(out)@ + relationship_text(*r),
{
    proof {
        reveal_strlit("<Relationship");
        reveal_strlit("/>");
    }
    out.append("<Relationship");
    push_attr(out, "Id", r.id.as_str());
    push_attr(out, "Type", r.rel_type.as_str());
    push_attr(out, "Target", r.target.as_str());
    if r.mode == TargetMode::External {
        push_attr(out, "TargetMode", "External");
    }
    out.append("/>");
    proof {
        assert(final(out)@ =~= old(out)@ + relationship_text(*r));
    }
}

/// The `.rels` document listing `rels` in order.
pub fn rels_document(rels: &Vec<Relationship>) -> (r: String)
    ensures
        r@ == rels_xml(rels@),
{
    let mut out = String::new();
    push_xml_decl(&mut out);
    out.append("<Relationships");
    push_attr(&mut out, "xmlns", "http://schemas.openxmlformats.org/package/2006/relationships");
    out.append(">");
    let ghost base = out@;
    let mut i: usize = 0;
    while i < rels.len()
        invariant
            i <= rels@.len(),
            out@ == base + relationships_body(rels@.subrange(0, i as int)),
        decreases rels@.len() - i,
    {
        push_relationship(&mut out, &rels[i]);
        proof {
            assert(rels@.subrange(0, i + 1).drop_last() =~= rels@.subrange(0, i as int));
        }
        i = i + 1;
    }
    out.append("</Relationships>");
    proof {
        assert(rels@.subrange(0, rels@.len() as int) =~= rels@);
        assert(out@ =~= rels_xml(rels@));
    }
    out
}

} // verus!
