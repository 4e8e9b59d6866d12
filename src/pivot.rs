//! An index held in memory: documents pivoted from groups to artifacts to
//! versions, with every string replaced by an id of its pool.

use std::collections::HashMap;

use vstd::hash_map::StringHashMap;
use vstd::prelude::*;

use crate::doc::{opt_view, AttachmentStatus, Checksum, Doc};
use crate::text::views;

verus! {

broadcast use vstd::std_specs::hash::group_hash_axioms;

/// Interns strings of one kind: the first string gets id 1, the next new one
/// id 2, and so on. Id 0 stands for no string.
pub struct StringPool {
    inner: StringHashMap<usize>,
    names: Vec<String>,
}

impl View for StringPool {
    type V = Seq<Seq<char>>;

    /// The strings, in the order of their ids.
    closed spec fn view(&self) -> Seq<Seq<char>> {
        self.names@.map_values(|s: String| s@)
    }
}

/// The id of `s` in a pool.
pub open spec fn id_in(pool: Seq<Seq<char>>, s: Seq<char>) -> usize {
    (pool.index_of(s) + 1) as usize
}

/// Where a pool can give `s` an id: it holds `s` already, or has an id
/// left.
pub open spec fn room(pool: Seq<Seq<char>>, s: Seq<char>) -> bool {
    pool.contains(s) || pool.len() < usize::MAX
}

/// A pool after `s` is given an id: unchanged if it holds `s`, else `s`
/// joins at the end.
pub open spec fn after_insert(pool: Seq<Seq<char>>, s: Seq<char>) -> Seq<Seq<char>> {
    if pool.contains(s) {
        pool
    } else {
        pool.push(s)
    }
}

/// A pool after an optional string is given an id.
pub open spec fn after_insert_opt(pool: Seq<Seq<char>>, s: Option<Seq<char>>) -> Seq<Seq<char>> {
    match s {
        Some(v) => after_insert(pool, v),
        None => pool,
    }
}

pub open spec fn ref_view(o: Option<&String>) -> Option<Seq<char>> {
    match o {
        Some(s) => Some(s@),
        None => None,
    }
}

pub open spec fn room_opt(pool: Seq<Seq<char>>, s: Option<Seq<char>>) -> bool {
    match s {
        Some(v) => room(pool, v),
        None => true,
    }
}

impl StringPool {
    /// Whether the pool can give `s` an id.
    pub fn has_room(&self, s: &str) -> (r: bool)
        requires
            self.wf(),
        ensures
            r == room(self@, s@),
    {
        self.len() < usize::MAX || self.get(s).is_some()
    }

    pub closed spec fn wf(&self) -> bool {
        &&& forall|i: int|
            0 <= i < self.names.len() ==> #[trigger] self.inner@.contains_key(self.names@[i]@)
                && self.inner@[self.names@[i]@] == i + 1
        &&& forall|k: Seq<char>| #[trigger]
            self.inner@.contains_key(k) ==> 1 <= self.inner@[k] <= self.names.len()
                && self.names@[self.inner@[k] - 1]@ == k
    }

    /// A pool holds each string once.
    pub proof fn lemma_unique(&self)
        requires
            self.wf(),
        ensures
            self@.len() <= usize::MAX,
            self@.no_duplicates(),
            forall|s: Seq<char>| #[trigger]
                self@.contains(s) ==> self@[self@.index_of(s)] == s && 0 <= self@.index_of(s)
                    < self@.len(),
    {
        assert(self@.len() == self.names.len());
        assert forall|i: int, j: int|
            0 <= i < self@.len() && 0 <= j < self@.len() && i != j implies self@[i] != self@[j] by {
            assert(self@[i] == self.names@[i]@);
            assert(self@[j] == self.names@[j]@);
            assert(self.inner@.contains_key(self.names@[i]@));
            assert(self.inner@.contains_key(self.names@[j]@));
        }
    }

    pub fn new() -> (r: StringPool)
        ensures
            r.wf(),
            r@ == Seq::<Seq<char>>::empty(),
    {
        let r = StringPool { inner: StringHashMap::new(), names: Vec::new() };
        assert(r@ =~= Seq::<Seq<char>>::empty());
        r
    }

    /// The id of `key`, if the pool holds it.
    pub fn get(&self, key: &str) -> (r: Option<usize>)
        requires
            self.wf(),
        ensures
            match r {
                Some(id) => self@.contains(key@) && id == id_in(self@, key@),
                None => !self@.contains(key@),
            },
    {
        proof {
            self.lemma_unique();
        }
        match self.inner.get(key) {
            Some(id) => {
                assert(self@[*id - 1] == key@);
                Some(*id)
            },
            None => {
                assert(!self@.contains(key@)) by {
                    if self@.contains(key@) {
                        let i = self@.index_of(key@);
                        assert(self.inner@.contains_key(self.names@[i]@));
                    }
                }
                None
            },
        }
    }

    /// The id of `val`, giving it the next id if it is new.
    pub fn insert(&mut self, val: &str) -> (r: usize)
        requires
            old(self).wf(),
            old(self)@.contains(val@) || old(self)@.len() < usize::MAX,
        ensures
            final(self).wf(),
            old(self)@.contains(val@) ==> final(self)@ == old(self)@ && r == id_in(old(self)@, val@),
            !old(self)@.contains(val@) ==> final(self)@ == old(self)@.push(val@) && r == old(
                self,
            )@.len() + 1,
            r == id_in(final(self)@, val@),
            final(self)@.contains(val@),
    {
        match self.get(val) {
            Some(id) => id,
            None => {
                let id = self.names.len() + 1;
                let ghost old_names = self.names@;
                self.inner.insert(val.to_owned(), id);
                self.names.push(val.to_owned());
                proof {
                    assert(self@ =~= old(self)@.push(val@));
                    assert forall|i: int| 0 <= i < self.names.len() implies #[trigger]
                        self.inner@.contains_key(self.names@[i]@) && self.inner@[self.names@[i]@]
                        == i + 1 by {
                        if i < old_names.len() {
                            assert(self.names@[i] == old_names[i]);
                            assert(old_names[i]@ != val@) by {
                                assert(old(self)@[i] == old_names[i]@);
                            }
                        }
                    }
                    self.lemma_unique();
                    assert(self@[id - 1] == val@);
                }
                id
            },
        }
    }

    /// The id of `val`, or 0 where there is none.
    pub fn insert_option(&mut self, val: Option<&String>) -> (r: usize)
        requires
            old(self).wf(),
            room_opt(old(self)@, ref_view(val)),
        ensures
            final(self).wf(),
            match val {
                None => r == 0 && final(self)@ == old(self)@,
                Some(s) => final(self)@.contains(s@) && r == id_in(final(self)@, s@) && (old(
                    self,
                )@.contains(s@) ==> final(self)@ == old(self)@) && (!old(self)@.contains(s@)
                    ==> final(self)@ == old(self)@.push(s@)),
            },
    {
        match val {
            None => 0,
            Some(s) => self.insert(s.as_str()),
        }
    }

    /// The string of an id.
    pub fn invert(&self, val: usize) -> (r: Option<&str>)
        requires
            self.wf(),
        ensures
            match r {
                Some(s) => 1 <= val <= self@.len() && s@ == self@[val - 1],
                None => val == 0 || val > self@.len(),
            },
    {
        if val == 0 || val > self.names.len() {
            None
        } else {
            Some(self.names[val - 1].as_str())
        }
    }

    pub fn len(&self) -> (r: usize)
        ensures
            r == self@.len(),
    {
        self.names.len()
    }
}

/// The classifier and extension of a document, as ids.
#[derive(Clone, Copy, Debug, PartialEq, Eq, Structural)]
pub struct ClassifierKey {
    pub classifier: usize,
    pub extension: usize,
}

/// What the index keeps of a document, its strings as ids.
#[derive(Clone, Copy, Debug)]
pub struct Record {
    pub packaging: usize,
    pub last_modified: u64,
    pub size: Option<u64>,
    pub source_attached: AttachmentStatus,
    pub javadoc_attached: AttachmentStatus,
    pub signature_attached: AttachmentStatus,
    pub name: usize,
    pub description: usize,
    pub checksum: Option<Checksum>,
}

/// The documents of one artifact: its versions in the order they came,
/// and a record for each version, classifier and extension.
struct Artifact {
    versions: Vec<usize>,
    docs: Vec<(usize, ClassifierKey, Record)>,
}

struct Group {
    artifacts: HashMap<usize, Artifact>,
}

impl Artifact {
    fn put(&mut self, version: usize, key: ClassifierKey, record: Record)
        ensures
            final(self).versions@ == if old(self).versions@.contains(version) {
                old(self).versions@
            } else {
                old(self).versions@.push(version)
            },
    {
        let mut i: usize = 0;
        let mut seen = false;
        while i < self.versions.len()
            invariant
                self.versions@ == old(self).versions@,
                i <= self.versions.len(),
                seen == exists|j: int| 0 <= j < i && self.versions@[j] == version,
            decreases self.versions.len() - i,
        {
            if self.versions[i] == version {
                seen = true;
            }
            i = i + 1;
        }
        if !seen {
            self.versions.push(version);
        }
        let ghost vs = self.versions@;
        assert(vs == if old(self).versions@.contains(version) {
            old(self).versions@
        } else {
            old(self).versions@.push(version)
        });
        let mut j: usize = 0;
        while j < self.docs.len()
            invariant
                j <= self.docs.len(),
                self.versions@ == vs,
                vs == if old(self).versions@.contains(version) {
                    old(self).versions@
                } else {
                    old(self).versions@.push(version)
                },
            decreases self.docs.len() - j,
        {
            let (v, k, _) = self.docs[j];
            if v == version && k == key {
                self.docs.set(j, (version, key, record));
                return;
            }
            j = j + 1;
        }
        self.docs.push((version, key, record));
    }
}

/// Why the index refused a document or a query.
#[derive(Clone, Copy, Debug, PartialEq, Eq, Structural)]
pub enum PivotError {
    /// A pool has handed out every id.
    PoolFull,
    NoSuchGroup,
    NoSuchArtifact,
    /// The group has no document of the artifact.
    NotInGroup,
}

/// The strings that ids stand for.
pub open spec fn names_of(ids: Seq<usize>, pool: Seq<Seq<char>>) -> Seq<Seq<char>> {
    ids.map_values(|v: usize| pool[v - 1])
}

/// Where every id is one that the pool has handed out.
pub open spec fn ids_valid(ids: Seq<usize>, len: int) -> bool {
    forall|i: int| 0 <= i < ids.len() ==> 1 <= #[trigger] ids[i] <= len
}

/// The versions after a document of `v` is added: `v` joins at the end if
/// it is new.
pub open spec fn with_version(vs: Option<Seq<Seq<char>>>, v: Seq<char>) -> Seq<Seq<char>> {
    let prev = match vs {
        Some(p) => p,
        None => Seq::empty(),
    };
    if prev.contains(v) {
        prev
    } else {
        prev.push(v)
    }
}

proof fn lemma_names_extend(ids: Seq<usize>, p: Seq<Seq<char>>, q: Seq<Seq<char>>)
    requires
        ids_valid(ids, p.len() as int),
        p.len() <= q.len(),
        q.take(p.len() as int) == p,
    ensures
        names_of(ids, q) == names_of(ids, p),
{
    assert forall|i: int| 0 <= i < ids.len() implies names_of(ids, q)[i] == names_of(ids, p)[i] by {
        assert(1 <= ids[i] <= p.len());
        assert(q.take(p.len() as int)[ids[i] - 1] == q[ids[i] - 1]);
    }
    assert(names_of(ids, q) =~= names_of(ids, p));
}

proof fn lemma_names_contains(ids: Seq<usize>, p: Seq<Seq<char>>, v: usize)
    requires
        p.no_duplicates(),
        ids_valid(ids, p.len() as int),
        1 <= v <= p.len(),
    ensures
        ids.contains(v) == names_of(ids, p).contains(p[v - 1]),
{
    if names_of(ids, p).contains(p[v - 1]) {
        let i = choose|i: int| 0 <= i < ids.len() && names_of(ids, p)[i] == p[v - 1];
        assert(1 <= ids[i] <= p.len());
        assert(ids[i] == v);
    }
    if ids.contains(v) {
        let i = choose|i: int| 0 <= i < ids.len() && ids[i] == v;
        assert(names_of(ids, p)[i] == p[v - 1]);
    }
}

proof fn lemma_names_all_in(ids: Seq<usize>, p: Seq<Seq<char>>, s: Seq<char>)
    requires
        ids_valid(ids, p.len() as int),
        !p.contains(s),
    ensures
        !names_of(ids, p).contains(s),
{
    if names_of(ids, p).contains(s) {
        let i = choose|i: int| 0 <= i < ids.len() && names_of(ids, p)[i] == s;
        assert(1 <= ids[i] <= p.len());
        assert(p[ids[i] - 1] == s);
    }
}

proof fn lemma_index_of(p: Seq<Seq<char>>, i: int)
    requires
        p.no_duplicates(),
        0 <= i < p.len(),
    ensures
        p.index_of(p[i]) == i,
{
    assert(p.contains(p[i]));
}

fn room_in(pool: &StringPool, s: Option<&String>) -> (r: bool)
    requires
        pool.wf(),
    ensures
        r == room_opt(pool@, ref_view(s)),
{
    match s {
        Some(v) => pool.has_room(v.as_str()),
        None => true,
    }
}

proof fn lemma_names_distinct(ids: Seq<usize>, p: Seq<Seq<char>>)
    requires
        p.no_duplicates(),
        ids.no_duplicates(),
        ids_valid(ids, p.len() as int),
    ensures
        names_of(ids, p).no_duplicates(),
{
    assert forall|i: int, j: int|
        0 <= i < ids.len() && 0 <= j < ids.len() && i != j implies names_of(ids, p)[i]
        != names_of(ids, p)[j] by {
        assert(1 <= ids[i] <= p.len());
        assert(1 <= ids[j] <= p.len());
    }
}

/// Documents by group, artifact, version, classifier and extension.
pub struct Db {
    groups: HashMap<usize, Group>,
    group_pool: StringPool,
    artifact_pool: StringPool,
    version_pool: StringPool,
    classifier_pool: StringPool,
    extension_pool: StringPool,
    packaging_pool: StringPool,
    name_pool: StringPool,
    description_pool: StringPool,
}

impl Db {
    closed spec fn artifact_at(&self, g: usize, a: usize) -> Option<Seq<usize>> {
        if self.groups@.contains_key(g) && self.groups@[g].artifacts@.contains_key(a) {
            Some(self.groups@[g].artifacts@[a].versions@)
        } else {
            None
        }
    }

    pub closed spec fn wf(&self) -> bool {
        &&& self.group_pool.wf()
        &&& self.artifact_pool.wf()
        &&& self.version_pool.wf()
        &&& self.classifier_pool.wf()
        &&& self.extension_pool.wf()
        &&& self.packaging_pool.wf()
        &&& self.name_pool.wf()
        &&& self.description_pool.wf()
        &&& forall|g: usize, a: usize| #[trigger]
            self.artifact_at(g, a) matches Some(vs) ==> ids_valid(vs, self.version_pool@.len() as int)
                && vs.no_duplicates() && 1 <= g <= self.group_pool@.len() && 1 <= a
                <= self.artifact_pool@.len()
    }

    /// The versions of an artifact in a group, in the order they first came;
    /// none where the group has no document of the artifact.
    pub closed spec fn versions(&self, group: Seq<char>, artifact: Seq<char>) -> Option<
        Seq<Seq<char>>,
    > {
        if self.group_pool@.contains(group) && self.artifact_pool@.contains(artifact) {
            match self.artifact_at(
                id_in(self.group_pool@, group),
                id_in(self.artifact_pool@, artifact),
            ) {
                Some(vs) => Some(names_of(vs, self.version_pool@)),
                None => None,
            }
        } else {
            None
        }
    }

    /// The group names, in the order of their ids.
    pub closed spec fn group_names(&self) -> Seq<Seq<char>> {
        self.group_pool@
    }

    /// The artifact names, in the order of their ids.
    pub closed spec fn artifact_names(&self) -> Seq<Seq<char>> {
        self.artifact_pool@
    }

    /// The version strings, in the order of their ids.
    /// The classifier, extension, packaging, name and description pools, in
    /// the order of their ids.
    pub closed spec fn classifier_names(&self) -> Seq<Seq<char>> {
        self.classifier_pool@
    }

    pub closed spec fn extension_names(&self) -> Seq<Seq<char>> {
        self.extension_pool@
    }

    pub closed spec fn packaging_names(&self) -> Seq<Seq<char>> {
        self.packaging_pool@
    }

    pub closed spec fn name_names(&self) -> Seq<Seq<char>> {
        self.name_pool@
    }

    pub closed spec fn description_names(&self) -> Seq<Seq<char>> {
        self.description_pool@
    }

    pub closed spec fn version_names(&self) -> Seq<Seq<char>> {
        self.version_pool@
    }

    pub closed spec fn group_count(&self) -> nat {
        self.groups@.len()
    }

    /// The versions of an artifact in a group, in the order they first came.
    pub fn find_versions(&self, group: &str, artifact: &str) -> (r: Result<Vec<String>, PivotError>)
        requires
            self.wf(),
        ensures
            !self.group_names().contains(group@) ==> r == Err::<Vec<String>, PivotError>(
                PivotError::NoSuchGroup,
            ),
            self.group_names().contains(group@) && !self.artifact_names().contains(artifact@)
                ==> r == Err::<Vec<String>, PivotError>(PivotError::NoSuchArtifact),
            match r {
                Ok(vs) => self.versions(group@, artifact@) == Some(views(vs@)) && views(
                    vs@,
                ).no_duplicates(),
                Err(e) => self.versions(group@, artifact@) is None && (e == PivotError::NoSuchGroup
                    <==> !self.group_names().contains(group@)) && (e == PivotError::NoSuchArtifact
                    <==> self.group_names().contains(group@) && !self.artifact_names().contains(
                    artifact@,
                )) && (e == PivotError::NotInGroup <==> self.group_names().contains(group@)
                    && self.artifact_names().contains(artifact@)),
            },
    {
        let g = match self.group_pool.get(group) {
            Some(g) => g,
            None => return Err(PivotError::NoSuchGroup),
        };
        let a = match self.artifact_pool.get(artifact) {
            Some(a) => a,
            None => return Err(PivotError::NoSuchArtifact),
        };
        let grp = match self.groups.get(&g) {
            Some(x) => x,
            None => return Err(PivotError::NotInGroup),
        };
        let art = match grp.artifacts.get(&a) {
            Some(x) => x,
            None => return Err(PivotError::NotInGroup),
        };
        assert(self.artifact_at(g, a) == Some(art.versions@));
        let ghost vp = self.version_pool@;
        let mut ret: Vec<String> = Vec::new();
        let mut i: usize = 0;
        while i < art.versions.len()
            invariant
                self.wf(),
                vp == self.version_pool@,
                ids_valid(art.versions@, vp.len() as int),
                i <= art.versions.len(),
                views(ret@) == names_of(art.versions@.take(i as int), vp),
            decreases art.versions.len() - i,
        {
            let id = art.versions[i];
            assert(1 <= art.versions@[i as int] <= vp.len());
            let ghost before = views(ret@);
            if let Some(name) = self.version_pool.invert(id) {
                ret.push(name.to_owned());
                assert(views(ret@) =~= before.push(vp[id - 1]));
            }
            assert(art.versions@.take(i as int + 1) =~= art.versions@.take(i as int).push(id));
            assert(views(ret@) =~= names_of(art.versions@.take(i as int + 1), vp));
            i = i + 1;
        }
        assert(art.versions@.take(art.versions.len() as int) =~= art.versions@);
        proof {
            self.version_pool.lemma_unique();
            lemma_names_distinct(art.versions@, vp);
        }
        Ok(ret)
    }

    /// How many groups have documents, and how many names each of the
    /// group, artifact and version pools holds.
    pub fn stats(&self) -> (r: (usize, usize, usize, usize))
        ensures
            r.0 == self.group_count(),
            r.1 == self.group_names().len(),
            r.2 == self.artifact_names().len(),
            r.3 == self.version_names().len(),
    {
        (self.groups.len(), self.group_pool.len(), self.artifact_pool.len(), self.version_pool.len())
    }

    pub fn new() -> (r: Db)
        ensures
            r.wf(),
            r.has_room(),
            r.group_names() == Seq::<Seq<char>>::empty(),
            r.artifact_names() == Seq::<Seq<char>>::empty(),
            r.version_names() == Seq::<Seq<char>>::empty(),
            r.classifier_names() == Seq::<Seq<char>>::empty(),
            r.extension_names() == Seq::<Seq<char>>::empty(),
            r.packaging_names() == Seq::<Seq<char>>::empty(),
            r.name_names() == Seq::<Seq<char>>::empty(),
            r.description_names() == Seq::<Seq<char>>::empty(),
            forall|g: Seq<char>, a: Seq<char>| #[trigger] r.versions(g, a) is None,
    {
        Db {
            groups: HashMap::new(),
            group_pool: StringPool::new(),
            artifact_pool: StringPool::new(),
            version_pool: StringPool::new(),
            classifier_pool: StringPool::new(),
            extension_pool: StringPool::new(),
            packaging_pool: StringPool::new(),
            name_pool: StringPool::new(),
            description_pool: StringPool::new(),
        }
    }

    /// Where every pool can give the document's string an id.
    pub closed spec fn has_room_for(&self, doc: Doc) -> bool {
        &&& room(self.group_pool@, doc.id.group@)
        &&& room(self.artifact_pool@, doc.id.artifact@)
        &&& room(self.version_pool@, doc.id.version@)
        &&& room_opt(self.classifier_pool@, opt_view(doc.id.classifier))
        &&& room_opt(self.extension_pool@, opt_view(doc.id.extension))
        &&& room(self.packaging_pool@, doc.object_info.packaging@)
        &&& room_opt(self.name_pool@, opt_view(doc.name))
        &&& room_opt(self.description_pool@, opt_view(doc.description))
    }

    /// Where every pool has an id left.
    pub closed spec fn has_room(&self) -> bool {
        &&& self.group_pool@.len() < usize::MAX
        &&& self.artifact_pool@.len() < usize::MAX
        &&& self.version_pool@.len() < usize::MAX
        &&& self.classifier_pool@.len() < usize::MAX
        &&& self.extension_pool@.len() < usize::MAX
        &&& self.packaging_pool@.len() < usize::MAX
        &&& self.name_pool@.len() < usize::MAX
        &&& self.description_pool@.len() < usize::MAX
    }

    fn fits(&self, doc: &Doc) -> (r: bool)
        requires
            self.wf(),
        ensures
            r == self.has_room_for(*doc),
    {
        self.group_pool.has_room(doc.id.group.as_str()) && self.artifact_pool.has_room(
            doc.id.artifact.as_str(),
        ) && self.version_pool.has_room(doc.id.version.as_str()) && room_in(
            &self.classifier_pool,
            doc.id.classifier.as_ref(),
        ) && room_in(&self.extension_pool, doc.id.extension.as_ref())
            && self.packaging_pool.has_room(doc.object_info.packaging.as_str()) && room_in(
            &self.name_pool,
            doc.name.as_ref(),
        ) && room_in(&self.description_pool, doc.description.as_ref())
    }

    /// Adds a document: a later document of the same group, artifact,
    /// version, classifier and extension takes the place of an earlier one.
    pub fn add(&mut self, doc: &Doc) -> (r: Result<(), PivotError>)
        requires
            old(self).wf(),
        ensures
            final(self).wf(),
            r is Ok ==> final(self).versions(doc.id.group@, doc.id.artifact@) == Some(
                with_version(old(self).versions(doc.id.group@, doc.id.artifact@), doc.id.version@),
            ),
            r is Ok ==> forall|g: Seq<char>, a: Seq<char>|
                (g, a) != (doc.id.group@, doc.id.artifact@) ==> #[trigger] final(self).versions(g, a)
                    == old(self).versions(g, a),
            r is Ok <==> old(self).has_room_for(*doc),
            old(self).has_room() ==> r is Ok,
            r is Ok ==> final(self).has_room_for(*doc),
            r is Ok ==> final(self).group_names() == if old(self).group_names().contains(
                doc.id.group@,
            ) {
                old(self).group_names()
            } else {
                old(self).group_names().push(doc.id.group@)
            },
            r is Ok ==> final(self).artifact_names() == if old(self).artifact_names().contains(
                doc.id.artifact@,
            ) {
                old(self).artifact_names()
            } else {
                old(self).artifact_names().push(doc.id.artifact@)
            },
            r is Ok ==> final(self).version_names() == after_insert(
                old(self).version_names(),
                doc.id.version@,
            ),
            r is Ok ==> final(self).classifier_names() == after_insert_opt(
                old(self).classifier_names(),
                opt_view(doc.id.classifier),
            ),
            r is Ok ==> final(self).extension_names() == after_insert_opt(
                old(self).extension_names(),
                opt_view(doc.id.extension),
            ),
            r is Ok ==> final(self).packaging_names() == after_insert(
                old(self).packaging_names(),
                doc.object_info.packaging@,
            ),
            r is Ok ==> final(self).name_names() == after_insert_opt(
                old(self).name_names(),
                opt_view(doc.name),
            ),
            r is Ok ==> final(self).description_names() == after_insert_opt(
                old(self).description_names(),
                opt_view(doc.description),
            ),
            r is Err ==> final(self).version_names() == old(self).version_names()
                && final(self).classifier_names() == old(self).classifier_names()
                && final(self).extension_names() == old(self).extension_names()
                && final(self).packaging_names() == old(self).packaging_names()
                && final(self).name_names() == old(self).name_names()
                && final(self).description_names() == old(self).description_names(),
            r is Err ==> final(self).group_names() == old(self).group_names()
                && final(self).artifact_names() == old(self).artifact_names(),
            r is Err ==> r == Err::<(), PivotError>(PivotError::PoolFull) && forall|
                g: Seq<char>,
                a: Seq<char>,
            | #[trigger] final(self).versions(g, a) == old(self).versions(g, a),
    {
        if !self.fits(doc) {
            return Err(PivotError::PoolFull);
        }
        let ghost old_gp = self.group_pool@;
        let ghost old_ap = self.artifact_pool@;
        let ghost old_vp = self.version_pool@;
        let g = self.group_pool.insert(doc.id.group.as_str());
        let a = self.artifact_pool.insert(doc.id.artifact.as_str());
        let v = self.version_pool.insert(doc.id.version.as_str());
        let key = ClassifierKey {
            classifier: self.classifier_pool.insert_option(doc.id.classifier.as_ref()),
            extension: self.extension_pool.insert_option(doc.id.extension.as_ref()),
        };
        let record = Record {
            packaging: self.packaging_pool.insert(doc.object_info.packaging.as_str()),
            last_modified: doc.object_info.last_modified,
            size: doc.object_info.size,
            source_attached: doc.object_info.source_attached,
            javadoc_attached: doc.object_info.javadoc_attached,
            signature_attached: doc.object_info.signature_attached,
            name: self.name_pool.insert_option(doc.name.as_ref()),
            description: self.description_pool.insert_option(doc.description.as_ref()),
            checksum: doc.checksum,
        };
        let ghost mid = *self;
        let mut group = match self.groups.remove(&g) {
            Some(x) => x,
            None => Group { artifacts: HashMap::new() },
        };
        let mut artifact = match group.artifacts.remove(&a) {
            Some(x) => x,
            None => Artifact { versions: Vec::new(), docs: Vec::new() },
        };
        let ghost old_versions = artifact.versions@;
        artifact.put(v, key, record);
        group.artifacts.insert(a, artifact);
        self.groups.insert(g, group);
        proof {
            self.group_pool.lemma_unique();
            self.artifact_pool.lemma_unique();
            self.version_pool.lemma_unique();
            old(self).group_pool.lemma_unique();
            old(self).artifact_pool.lemma_unique();
            self.lemma_frame(old(self), mid, g, a, v, old_versions, doc.id.group@, doc.id.artifact@, doc.id.version@);
        }
        Ok(())
    }

    proof fn lemma_frame(
        &self,
        before: &Db,
        mid: Db,
        g: usize,
        a: usize,
        v: usize,
        old_versions: Seq<usize>,
        gs: Seq<char>,
        as_: Seq<char>,
        vs: Seq<char>,
    )
        requires
            before.wf(),
            self.group_pool.wf(),
            self.artifact_pool.wf(),
            self.version_pool.wf(),
            self.classifier_pool.wf(),
            self.extension_pool.wf(),
            self.packaging_pool.wf(),
            self.name_pool.wf(),
            self.description_pool.wf(),
            mid.groups == before.groups,
            mid.group_pool@ == self.group_pool@,
            mid.artifact_pool@ == self.artifact_pool@,
            mid.version_pool@ == self.version_pool@,
            self.group_pool@.contains(gs) && g == id_in(self.group_pool@, gs),
            self.artifact_pool@.contains(as_) && a == id_in(self.artifact_pool@, as_),
            self.version_pool@.contains(vs) && v == id_in(self.version_pool@, vs),
            before.group_pool@.contains(gs) ==> self.group_pool@ == before.group_pool@,
            !before.group_pool@.contains(gs) ==> self.group_pool@ == before.group_pool@.push(gs),
            before.artifact_pool@.contains(as_) ==> self.artifact_pool@ == before.artifact_pool@,
            !before.artifact_pool@.contains(as_) ==> self.artifact_pool@
                == before.artifact_pool@.push(as_),
            before.version_pool@.contains(vs) ==> self.version_pool@ == before.version_pool@,
            !before.version_pool@.contains(vs) ==> self.version_pool@
                == before.version_pool@.push(vs),
            old_versions == match before.artifact_at(g, a) {
                Some(x) => x,
                None => Seq::empty(),
            },
            self.artifact_at(g, a) == Some(
                if old_versions.contains(v) {
                    old_versions
                } else {
                    old_versions.push(v)
                },
            ),
            forall|g2: usize, a2: usize|
                (g2, a2) != (g, a) ==> #[trigger] self.artifact_at(g2, a2) == before.artifact_at(
                    g2,
                    a2,
                ),
        ensures
            self.wf(),
            self.versions(gs, as_) == Some(with_version(before.versions(gs, as_), vs)),
            forall|g2: Seq<char>, a2: Seq<char>|
                (g2, a2) != (gs, as_) ==> #[trigger] self.versions(g2, a2) == before.versions(
                    g2,
                    a2,
                ),
    {
        let bvp = before.version_pool@;
        let vp = self.version_pool@;
        before.group_pool.lemma_unique();
        before.artifact_pool.lemma_unique();
        before.version_pool.lemma_unique();
        self.group_pool.lemma_unique();
        self.artifact_pool.lemma_unique();
        self.version_pool.lemma_unique();
        assert(vp.take(bvp.len() as int) =~= bvp);
        assert(self.group_pool@.take(before.group_pool@.len() as int) =~= before.group_pool@);
        assert(self.artifact_pool@.take(before.artifact_pool@.len() as int)
            =~= before.artifact_pool@);
        assert(1 <= v <= vp.len() && vp[v - 1] == vs);
        if !bvp.contains(vs) {
            lemma_index_of(vp, bvp.len() as int);
            assert(v == bvp.len() + 1);
        }
        if !before.group_pool@.contains(gs) {
            lemma_index_of(self.group_pool@, before.group_pool@.len() as int);
        }
        if !before.artifact_pool@.contains(as_) {
            lemma_index_of(self.artifact_pool@, before.artifact_pool@.len() as int);
        }
        assert(ids_valid(old_versions, bvp.len() as int));
        lemma_names_extend(old_versions, bvp, vp);
        let names = names_of(old_versions, bvp);
        assert(before.versions(gs, as_) == if before.artifact_at(g, a) is Some {
            Some(names)
        } else {
            None::<Seq<Seq<char>>>
        });
        if bvp.contains(vs) {
            lemma_names_contains(old_versions, bvp, v);
        } else {
            lemma_names_all_in(old_versions, bvp, vs);
        }
        if old_versions.contains(v) {
            assert(self.versions(gs, as_) == Some(names));
        } else {
            assert(names_of(old_versions.push(v), vp) =~= names_of(old_versions, vp).push(vs));
        }
        assert forall|g2: usize, a2: usize| #[trigger]
            self.artifact_at(g2, a2) is Some implies ids_valid(self.artifact_at(g2, a2)->0, vp.len() as int) && 1 <= g2
                <= self.group_pool@.len() && 1 <= a2 <= self.artifact_pool@.len() by {
            if (g2, a2) != (g, a) {
                assert(before.artifact_at(g2, a2) is Some);
                let x = before.artifact_at(g2, a2)->0;
                assert(ids_valid(x, bvp.len() as int));
            }
        }
    }
}

impl Default for Db {
    fn default() -> (r: Db)
        ensures
            r.wf(),
            forall|g: Seq<char>, a: Seq<char>| #[trigger] r.versions(g, a) is None,
    {
        Db::new()
    }
}

} // verus!
