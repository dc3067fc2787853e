//! The registry of finished parts, keyed by package path, in insertion order.
use vstd::prelude::*;

verus! {

/// The content of a part: XML text or an opaque binary payload.
#[derive(Debug)]
pub enum PartData {
    Text(String),
    Binary(Vec<u8>),
}

/// What a part holds, as a mathematical value.
pub enum PartContent {
    Text(Seq<char>),
    Binary(Seq<u8>),
}

impl PartData {
    pub open spec fn content(&self) -> PartContent {
        match self {
            PartData::Text(s) => PartContent::Text(s@),
            PartData::Binary(b) => PartContent::Binary(b@),
        }
    }
}

/// One entry of the package: its path and its content.
#[derive(Debug)]
pub struct Part {
    pub path: String,
    pub data: PartData,
}

/// Collects every part of a package until it is written out. A path is held
/// at most once; a later deposit under the same path replaces the content
/// in place.
pub struct PartWriterManager {
    pub parts: Vec<Part>,
}

/// The registry `parts` after depositing `content` under `path`.
pub open spec fn deposit(
    parts: Seq<(Seq<char>, PartContent)>,
    path: Seq<char>,
    content: PartContent,
) -> Seq<(Seq<char>, PartContent)> {
    if exists|k: int| 0 <= k < parts.len() && #[trigger] parts[k].0 == path {
        let k = choose|k: int| 0 <= k < parts.len() && #[trigger] parts[k].0 == path;
        parts.update(k, (path, content))
    } else {
        parts.push((path, content))
    }
}

impl PartWriterManager {
    /// The parts in insertion order, as (path, content) pairs.
    pub open spec fn view(&self) -> Seq<(Seq<char>, PartContent)> {
        self.parts@.map_values(|p: Part| (p.path@, p.data.content()))
    }

    /// No path is held twice.
    pub open spec fn wf(&self) -> bool {
        forall|a: int, b: int|
            0 <= a < b < self.parts@.len() ==> self.parts@[a].path@ != self.parts@[b].path@
    }

    pub fn new() -> (r: Self)
        ensures
            r.wf(),
            r.view().len() == 0,
    {
        PartWriterManager { parts: Vec::new() }
    }

    /// The parts in insertion order.
    pub fn get_parts(&self) -> (r: &Vec<Part>)
        ensures
            r@ == self.parts@,
    {
        &self.parts
    }

    /// Deposits `data` under `path`, replacing what an earlier deposit put there.
    pub fn add_part(&mut self, path: String, data: PartData)
        requires
            old(self).wf(),
        ensures
            final(self).wf(),
            final(self).view() == deposit(old(self).view(), path@, data.content()),
    {
        let ghost before = self.view();
        let mut i: usize = 0;
        while i < self.parts.len()
            invariant
                i <= self.parts@.len(),
                self.wf(),
                self.view() == before,
                self.parts@ == old(self).parts@,
                forall|k: int| 0 <= k < i ==> self.parts@[k].path@ != path@,
            decreases self.parts@.len() - i,
        {
            if self.parts[i].path == path {
                let ghost c = data.content();
                self.parts.set(i, Part { path, data });
                proof {
                    assert(before[i as int].0 == path@);
                    assert forall|k: int| 0 <= k < before.len() && #[trigger] before[k].0 == path@ implies k == i by {
                        if k < i {
                        } else if k > i {
                            assert(old(self).parts@[i as int].path@ != old(self).parts@[k].path@);
                        }
                    }
                    assert(self.view() =~= before.update(i as int, (path@, c)));
                    let w = choose|k: int| 0 <= k < before.len() && #[trigger] before[k].0 == path@;
                    assert(w == i);
                }
                return;
            }
            i = i + 1;
        }
        let ghost c = data.content();
        self.parts.push(Part { path, data });
        proof {
            assert forall|k: int| 0 <= k < before.len() implies #[trigger] before[k].0 != path@ by {
                assert(before[k].0 == old(self).parts@[k].path@);
            }
            assert(self.view() =~= before.push((path@, c)));
        }
    }

    /// Deposits XML text under `path`.
    pub fn add_text_part(&mut self, path: &str, text: String)
        requires
            old(self).wf(),
        ensures
            final(self).wf(),
            final(self).view() == deposit(old(self).view(), path@, PartContent::Text(text@)),
    {
        self.add_part(path.to_owned(), PartData::Text(text));
    }

    /// Deposits a binary payload under `path`.
    pub fn add_binary_part(&mut self, path: &str, bytes: Vec<u8>)
        requires
            old(self).wf(),
        ensures
            final(self).wf(),
            final(self).view() == deposit(old(self).view(), path@, PartContent::Binary(bytes@)),
    {
        self.add_part(path.to_owned(), PartData::Binary(bytes));
    }
}

} // verus!
