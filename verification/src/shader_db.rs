use vstd::prelude::*;

verus! {

/// Index of a shader entry.
#[derive(Copy, Clone, Debug, PartialEq, Eq, Structural, Hash)]
pub struct ShaderId(usize);

impl ShaderId {
    pub closed spec fn spec_index(self) -> usize {
        self.0
    }

    pub fn index(self) -> (r: usize)
        ensures
            r == self.spec_index(),
    {
        self.0
    }
}

/// One path under two owners is two entries; hot reload is scoped by owner.
#[derive(Copy, Clone, Debug, PartialEq, Eq, Structural, Hash)]
pub struct ShaderOwner(u32);

impl ShaderOwner {
    pub closed spec fn spec_number(self) -> u32 {
        self.0
    }

    pub fn number(self) -> (r: u32)
        ensures
            r == self.spec_number(),
    {
        self.0
    }
}

/// The owner that exists from the start.
pub fn root_owner() -> (r: ShaderOwner)
    ensures
        r.spec_number() == 0,
{
    ShaderOwner(0)
}

/// A loaded shader: where it came from, what it was assembled with, and how
/// many times it compiled.
pub struct ShaderEntry<M> {
    owner: ShaderOwner,
    path: String,
    module: M,
    scene_source: Option<String>,
    prelude: String,
    generation: u64,
}

/// What an entry holds, as plain values.
pub struct EntryView<M> {
    pub owner: ShaderOwner,
    pub path: Seq<char>,
    pub module: M,
    pub scene_source: Option<Seq<char>>,
    pub prelude: Seq<char>,
    pub generation: u64,
}

pub open spec fn opt_view(s: Option<String>) -> Option<Seq<char>> {
    match s {
        Some(t) => Some(t@),
        None => None,
    }
}

/// Compiled shader modules by owner and canonical path. A failed reload
/// never reaches the index, so the last good module stays.
pub struct ShaderDb<M> {
    entries: Vec<ShaderEntry<M>>,
    next_owner: u32,
}

impl<M> ShaderDb<M> {
    pub closed spec fn entry_views(&self) -> Seq<EntryView<M>> {
        self.entries@.map_values(
            |e: ShaderEntry<M>|
                EntryView {
                    owner: e.owner,
                    path: e.path@,
                    module: e.module,
                    scene_source: opt_view(e.scene_source),
                    prelude: e.prelude@,
                    generation: e.generation,
                },
        )
    }

    /// The owner the next request receives.
    pub closed spec fn spec_next_owner(&self) -> u32 {
        self.next_owner
    }

    /// No owner holds one path twice.
    pub open spec fn wf(&self) -> bool {
        forall|a: int, b: int|
            0 <= a < b < self.entry_views().len() ==> !((#[trigger] self.entry_views()[a]).owner
                == (#[trigger] self.entry_views()[b]).owner && self.entry_views()[a].path
                == self.entry_views()[b].path)
    }

    pub fn new() -> (r: Self)
        ensures
            r.wf(),
            r.entry_views() == Seq::<EntryView<M>>::empty(),
            r.spec_next_owner() == 1,
    {
        let r = Self { entries: Vec::new(), next_owner: 1 };
        assert(r.entry_views() =~= Seq::<EntryView<M>>::empty());
        r
    }

    /// Whether another owner can be handed out.
    pub fn can_add_owner(&self) -> (r: bool)
        ensures
            r == (self.spec_next_owner() < u32::MAX),
    {
        self.next_owner < u32::MAX
    }

    /// The number of entries; ids below it name entries.
    pub fn len(&self) -> (r: usize)
        ensures
            r == self.entry_views().len(),
    {
        self.entries.len()
    }

    /// A fresh owner, distinct from every owner handed out before.
    pub fn new_owner(&mut self) -> (r: ShaderOwner)
        requires
            old(self).spec_next_owner() < u32::MAX,
        ensures
            r.spec_number() == old(self).spec_next_owner(),
            final(self).spec_next_owner() == old(self).spec_next_owner() + 1,
            final(self).entry_views() == old(self).entry_views(),
    {
        let owner = ShaderOwner(self.next_owner);
        self.next_owner = self.next_owner + 1;
        owner
    }

    /// The entry an owner holds for a path.
    pub fn lookup(&self, owner: ShaderOwner, path: &str) -> (r: Option<ShaderId>)
        requires
            self.wf(),
        ensures
            r matches Some(id) ==> id.spec_index() < self.entry_views().len()
                && self.entry_views()[id.spec_index() as int].owner == owner
                && self.entry_views()[id.spec_index() as int].path == path@,
            r is None ==> forall|k: int|
                0 <= k < self.entry_views().len() ==> !((#[trigger] self.entry_views()[k]).owner
                    == owner && self.entry_views()[k].path == path@),
    {
        let wanted = String::from_str(path);
        let mut k: usize = 0;
        while k < self.entries.len()
            invariant
                k <= self.entries@.len(),
                wanted@ == path@,
                forall|q: int|
                    0 <= q < k ==> !((#[trigger] self.entries@[q]).owner == owner
                        && self.entries@[q].path@ == path@),
            decreases self.entries@.len() - k,
        {
            if self.entries[k].owner == owner && self.entries[k].path == wanted {
                return Some(ShaderId(k));
            }
            k = k + 1;
        }
        proof {
            assert forall|q: int| 0 <= q < self.entry_views().len() implies !((
            #[trigger] self.entry_views()[q]).owner == owner && self.entry_views()[q].path
                == path@) by {
                assert(self.entry_views()[q].owner == self.entries@[q].owner);
            }
        }
        None
    }

    /// Files a freshly compiled module under its owner and path: an entry the
    /// owner already holds for the path keeps its id, takes the new module,
    /// scene source and prelude, and counts one more compile; otherwise a new
    /// entry starts at one compile.
    pub fn install(
        &mut self,
        owner: ShaderOwner,
        path: String,
        module: M,
        scene_source: Option<String>,
        prelude: String,
    ) -> (r: ShaderId)
        requires
            old(self).wf(),
            forall|k: int|
                0 <= k < old(self).entry_views().len() && (#[trigger] old(self).entry_views()[k]).owner
                    == owner && old(self).entry_views()[k].path == path@ ==> old(
                    self,
                ).entry_views()[k].generation < u64::MAX,
        ensures
            final(self).wf(),
            final(self).spec_next_owner() == old(self).spec_next_owner(),
            ({
                let v = EntryView {
                    owner,
                    path: path@,
                    module,
                    scene_source: opt_view(scene_source),
                    prelude: prelude@,
                    generation: 0,
                };
                let olds = old(self).entry_views();
                let i = r.spec_index() as int;
                &&& 0 <= i < final(self).entry_views().len()
                &&& (exists|k: int|
                    0 <= k < olds.len() && (#[trigger] olds[k]).owner == owner && olds[k].path
                        == path@) ==> {
                    &&& i < olds.len()
                    &&& olds[i].owner == owner
                    &&& olds[i].path == path@
                    &&& final(self).entry_views() == olds.update(
                        i,
                        EntryView { generation: (olds[i].generation + 1) as u64, ..v },
                    )
                }
                &&& !(exists|k: int|
                    0 <= k < olds.len() && (#[trigger] olds[k]).owner == owner && olds[k].path
                        == path@) ==> {
                    &&& i == olds.len()
                    &&& final(self).entry_views() == olds.push(EntryView { generation: 1, ..v })
                }
            }),
    {
        let ghost olds = self.entry_views();
        match self.lookup(owner, path.as_str()) {
            Some(id) => {
                let i = id.0;
                proof {
                    assert(self.entry_views()[i as int].generation == self.entries@[i as int].generation);
                }
                let generation = self.entries[i].generation + 1;
                self.entries.set(i, ShaderEntry { owner, path, module, scene_source, prelude, generation });
                proof {
                    let new = self.entry_views();
                    assert(new =~= olds.update(
                        i as int,
                        EntryView {
                            owner,
                            path: path@,
                            module,
                            scene_source: opt_view(scene_source),
                            prelude: prelude@,
                            generation,
                        },
                    ));
                    assert forall|a: int, b: int|
                        0 <= a < b < new.len() implies !((#[trigger] new[a]).owner == (
                        #[trigger] new[b]).owner && new[a].path == new[b].path) by {
                        if a != i && b != i {
                            assert(new[a] == olds[a]);
                            assert(new[b] == olds[b]);
                        } else if a == i {
                            assert(new[b] == olds[b]);
                            assert(!(olds[a].owner == olds[b].owner && olds[a].path == olds[b].path));
                        } else {
                            assert(new[a] == olds[a]);
                            assert(!(olds[a].owner == olds[b].owner && olds[a].path == olds[b].path));
                        }
                    }
                }
                id
            },
            None => {
                let id = ShaderId(self.entries.len());
                self.entries.push(ShaderEntry { owner, path, module, scene_source, prelude, generation: 1 });
                proof {
                    let new = self.entry_views();
                    assert(new =~= olds.push(
                        EntryView {
                            owner,
                            path: path@,
                            module,
                            scene_source: opt_view(scene_source),
                            prelude: prelude@,
                            generation: 1,
                        },
                    ));
                    assert forall|a: int, b: int|
                        0 <= a < b < new.len() implies !((#[trigger] new[a]).owner == (
                        #[trigger] new[b]).owner && new[a].path == new[b].path) by {
                        assert(new[a] == olds[a]);
                        if b < olds.len() {
                            assert(new[b] == olds[b]);
                        }
                    }
                }
                id
            },
        }
    }

    /// The module an id names.
    pub fn module(&self, id: ShaderId) -> (r: &M)
        requires
            id.spec_index() < self.entry_views().len(),
        ensures
            *r == self.entry_views()[id.spec_index() as int].module,
    {
        &self.entries[id.0].module
    }

    /// The number of successful compiles of the entry; zero for an unknown id.
    pub fn generation(&self, id: ShaderId) -> (r: u64)
        ensures
            id.spec_index() < self.entry_views().len() ==> r == self.entry_views()[id.spec_index() as int].generation,
            id.spec_index() >= self.entry_views().len() ==> r == 0,
    {
        if id.0 < self.entries.len() {
            self.entries[id.0].generation
        } else {
            0
        }
    }

    /// What a reload re-reads and reassembles the entry with: its path, the
    /// scene source it was loaded with, and the prelude it was loaded under.
    pub fn reload_inputs(&self, id: ShaderId) -> (r: (&str, Option<&str>, &str))
        requires
            id.spec_index() < self.entry_views().len(),
        ensures
            r.0@ == self.entry_views()[id.spec_index() as int].path,
            (match r.1 {
                Some(s) => Some(s@),
                None => None,
            }) == self.entry_views()[id.spec_index() as int].scene_source,
            r.2@ == self.entry_views()[id.spec_index() as int].prelude,
    {
        let entry = &self.entries[id.0];
        let scene = match &entry.scene_source {
            Some(s) => Some(s.as_str()),
            None => None,
        };
        (entry.path.as_str(), scene, entry.prelude.as_str())
    }

    /// A successful reload: the entry takes the module and counts one more
    /// compile; every other entry, and this one's inputs, stay.
    pub fn replace_module(&mut self, id: ShaderId, module: M)
        requires
            old(self).wf(),
            id.spec_index() < old(self).entry_views().len(),
            old(self).entry_views()[id.spec_index() as int].generation < u64::MAX,
        ensures
            final(self).wf(),
            final(self).spec_next_owner() == old(self).spec_next_owner(),
            final(self).entry_views() == old(self).entry_views().update(
                id.spec_index() as int,
                EntryView {
                    module,
                    generation: (old(self).entry_views()[id.spec_index() as int].generation + 1) as u64,
                    ..old(self).entry_views()[id.spec_index() as int]
                },
            ),
    {
        let ghost olds = self.entry_views();
        let i = id.0;
        proof {
            assert(olds[i as int].generation == self.entries@[i as int].generation);
        }
        let old_entry = self.entries.remove(i);
        let ShaderEntry { owner, path, module: _, scene_source, prelude, generation } = old_entry;
        self.entries.insert(
            i,
            ShaderEntry { owner, path, module, scene_source, prelude, generation: generation + 1 },
        );
        proof {
            let new = self.entry_views();
            assert(new =~= olds.update(
                i as int,
                EntryView { module, generation: (olds[i as int].generation + 1) as u64, ..olds[i as int] },
            ));
            assert forall|a: int, b: int|
                0 <= a < b < new.len() implies !((#[trigger] new[a]).owner == (
                #[trigger] new[b]).owner && new[a].path == new[b].path) by {
                assert(new[a].owner == olds[a].owner && new[a].path == olds[a].path);
                assert(new[b].owner == olds[b].owner && new[b].path == olds[b].path);
            }
        }
    }
}

/// Reloading one owner's entry leaves every other entry, under any owner, as
/// it was: other owners of the same path keep their modules.
pub proof fn lemma_reload_touches_one_entry<M>(
    before: Seq<EntryView<M>>,
    i: int,
    module: M,
    k: int,
)
    requires
        0 <= i < before.len(),
        0 <= k < before.len(),
        k != i,
    ensures
        before.update(
            i,
            EntryView { module, generation: (before[i].generation + 1) as u64, ..before[i] },
        )[k] == before[k],
{
}

} // verus!
