//! The schema store: canonical id to schema, plus the ingestion of schema
//! definitions and of externally linked schemas.
use vstd::prelude::*;
use crate::foreign::{get_schema, insert_schema, new_schema_map, parse_url, parsed_url_of, schemas_in};
use crate::codegen::typescript::localized;
use crate::ingest::{
    chain_resolves, declared_url, ingested_as, keeps, resolved, settled, stored_id, IngestError, Ingestion,
    Step,
};
use crate::references::{
    collect_references, lemma_lookup_distinct, obj_has_ref, renamed, replace_references, rw_obj,
    string_texts,
};
use crate::schema::SchemaObject;
use crate::util::replace_all;

verus! {

/// Owns every stored schema, keyed by canonical id. Ids are kept in the order
/// in which they were first inserted; inserting an id already present changes
/// nothing.
pub struct Collection {
    schemas: ahash::AHashMap<String, SchemaObject>,
    order: Vec<String>,
}

impl View for Collection {
    type V = Map<Seq<char>, SchemaObject>;

    closed spec fn view(&self) -> Map<Seq<char>, SchemaObject> {
        schemas_in(self.schemas)
    }
}

impl Collection {
    /// The stored ids, in insertion order.
    pub closed spec fn ids(&self) -> Seq<Seq<char>> {
        self.order@.map_values(|s: String| s@)
    }

    pub closed spec fn wf(&self) -> bool {
        &&& self.ids().no_duplicates()
        &&& forall|k: Seq<char>| #[trigger] self@.contains_key(k) <==> self.ids().contains(k)
    }

    pub fn new() -> (r: Self)
        ensures
            r.wf(),
            r@ =~= Map::empty(),
            r.ids() =~= Seq::empty(),
    {
        Collection { schemas: new_schema_map(), order: Vec::new() }
    }

    pub fn len(&self) -> (r: usize)
        requires
            self.wf(),
        ensures
            r == self@.len(),
            r == self.ids().len(),
    {
        proof {
            self.lemma_len();
        }
        self.order.len()
    }

    pub fn is_empty(&self) -> (r: bool)
        requires
            self.wf(),
        ensures
            r == (self@.len() == 0),
    {
        proof {
            self.lemma_len();
        }
        self.order.len() == 0
    }

    proof fn lemma_len(&self)
        requires
            self.wf(),
        ensures
            self@.dom().finite(),
            self@.len() == self.ids().len(),
    {
        self.ids().unique_seq_to_set();
        assert(self@.dom() =~= self.ids().to_set()) by {
            assert forall|k: Seq<char>| self@.dom().contains(k) <==> self.ids().to_set().contains(k) by {
                assert(self@.contains_key(k) <==> self.ids().contains(k));
            }
        }
    }

    /// The schema stored under `id`.
    pub fn get(&self, id: &str) -> (r: Option<&SchemaObject>)
        ensures
            match r {
                Some(s) => self@.contains_key(id@) && *s == self@[id@],
                None => !self@.contains_key(id@),
            },
    {
        get_schema(&self.schemas, id)
    }

    pub fn contains(&self, id: &str) -> (r: bool)
        ensures
            r == self@.contains_key(id@),
    {
        get_schema(&self.schemas, id).is_some()
    }

    /// The `i`-th stored id in insertion order.
    pub fn id_at(&self, i: usize) -> (r: &String)
        requires
            i < self.ids().len(),
        ensures
            r@ == self.ids()[i as int],
    {
        &self.order[i]
    }

    pub proof fn lemma_id_stored(&self, i: int)
        requires
            self.wf(),
            0 <= i < self.ids().len(),
        ensures
            self@.contains_key(self.ids()[i]),
    {
        assert(self.ids().contains(self.ids()[i]));
    }

    /// Stores `schema` under `id`, replacing what was stored there.
    pub fn put(&mut self, id: String, schema: SchemaObject)
        requires
            old(self).wf(),
        ensures
            final(self).wf(),
            final(self)@ == old(self)@.insert(id@, schema),
            old(self)@.contains_key(id@) ==> final(self).ids() == old(self).ids(),
            !old(self)@.contains_key(id@) ==> final(self).ids() == old(self).ids().push(id@),
    {
        if self.contains(id.as_str()) {
            insert_schema(&mut self.schemas, id, schema);
            proof {
                assert forall|k: Seq<char>| #[trigger] self@.contains_key(k) <==> self.ids().contains(k) by {
                    assert(old(self)@.contains_key(k) <==> old(self).ids().contains(k));
                }
            }
            return;
        }
        self.insert(id, schema);
    }

    /// Stores `schema` under `id` unless `id` is already present.
    pub fn insert(&mut self, id: String, schema: SchemaObject)
        requires
            old(self).wf(),
        ensures
            final(self).wf(),
            old(self)@.contains_key(id@) ==> final(self)@ == old(self)@ && final(self).ids() == old(self).ids(),
            !old(self)@.contains_key(id@) ==> final(self)@ == old(self)@.insert(id@, schema)
                && final(self).ids() == old(self).ids().push(id@),
    {
        if self.contains(id.as_str()) {
            return;
        }
        let key = id.clone();
        insert_schema(&mut self.schemas, key, schema);
        self.order.push(id);
        proof {
            assert(self.ids() =~= old(self).ids().push(id@));
            assert forall|k: Seq<char>| #[trigger] self@.contains_key(k) <==> self.ids().contains(k) by {
                if k == id@ {
                    assert(self.ids()[self.ids().len() - 1] == k);
                } else {
                    assert(old(self)@.contains_key(k) <==> old(self).ids().contains(k));
                    if old(self).ids().contains(k) {
                        let j = choose|j: int| 0 <= j < old(self).ids().len() && old(self).ids()[j] == k;
                        assert(self.ids()[j] == k);
                    }
                    if self.ids().contains(k) {
                        let j = choose|j: int| 0 <= j < self.ids().len() && self.ids()[j] == k;
                        assert(old(self).ids()[j] == k);
                    }
                }
            }
        }
    }
}

/// The canonical id of the definition named `name`.
pub open spec fn definition_id(name: Seq<char>) -> Seq<char> {
    match parsed_url_of("root://"@ + name) {
        Some(u) => u,
        None => "root://"@ + name,
    }
}

/// The names of a list of definitions.
pub open spec fn definition_names(defs: Seq<(String, SchemaObject)>) -> Seq<Seq<char>> {
    defs.map_values(|d: (String, SchemaObject)| d.0@)
}

/// `b` is definition `a` named `name` as stored: every reference renamed to
/// its local form (`#/definitions/X` becomes `root://X`), and the title
/// defaulted to the name.
pub open spec fn ingested_definition(name: Seq<char>, a: SchemaObject, b: SchemaObject) -> bool {
    &&& b.title is Some
    &&& match a.title {
        Some(t) => b.title->0 == t,
        None => b.title->0@ == name,
    }
    &&& exists|t: Seq<(String, String)>| {
        &&& rw_obj(a, SchemaObject { title: a.title, ..b }, t)
        &&& forall|r: Seq<char>| #[trigger] obj_has_ref(a, r) ==> renamed(t, r) == localized(r)
    }
}

/// The ids that ingesting `defs` adds to a store holding `st`, in order.
pub open spec fn added_ids(st: Map<Seq<char>, SchemaObject>, defs: Seq<(String, SchemaObject)>) -> Seq<Seq<char>>
    decreases defs.len(),
{
    if defs.len() == 0 {
        Seq::empty()
    } else {
        let p = added_ids(st, defs.drop_last());
        let k = definition_id(defs.last().0@);
        if st.contains_key(k) || p.contains(k) {
            p
        } else {
            p.push(k)
        }
    }
}

impl Collection {
    /// Stores one definition under `root://<name>` (see [`ingested_definition`]).
    fn add_definition(&mut self, name: String, schema: SchemaObject)
        requires
            old(self).wf(),
        ensures
            final(self).wf(),
            old(self)@.contains_key(definition_id(name@)) ==> final(self)@ == old(self)@
                && final(self).ids() == old(self).ids(),
            !old(self)@.contains_key(definition_id(name@)) ==> final(self).ids() == old(self).ids().push(definition_id(name@)),
            !old(self)@.contains_key(definition_id(name@)) ==> final(self)@.contains_key(definition_id(name@))
                && ingested_definition(name@, schema, final(self)@[definition_id(name@)])
                && final(self)@ == old(self)@.insert(definition_id(name@), final(self)@[definition_id(name@)]),
    {
        let refs = collect_references(&schema);
        let mut table: Vec<(String, String)> = Vec::new();
        let mut i: usize = 0;
        proof {
            reveal_strlit("#/definitions/");
        }
        while i < refs.len()
            invariant
                i <= refs@.len(),
                table@.len() == i,
                forall|j: int| 0 <= j < i ==> #[trigger] table@[j].0@ == refs@[j]@ && table@[j].1@ == localized(refs@[j]@),
            decreases refs@.len() - i,
        {
            proof {
                reveal_strlit("#/definitions/");
            }
            let local = replace_all(refs[i].as_str(), "#/definitions/", "root://");
            table.push((refs[i].clone(), local));
            i = i + 1;
        }
        let ghost src = schema;
        let mut stored = replace_references(schema, &table);
        let ghost renamed_v = stored;
        if stored.title.is_none() {
            stored.title = Some(name.clone());
        }
        proof {
            assert(SchemaObject { title: src.title, ..stored } == renamed_v);
            assert forall|r: Seq<char>| #[trigger] obj_has_ref(src, r) implies renamed(table@, r) == localized(r) by {
                assert(string_texts(refs@).contains(r));
                let j = choose|j: int| 0 <= j < string_texts(refs@).len() && string_texts(refs@)[j] == r;
                assert(table@[j].0@ == refs@[j]@);
                assert forall|a: int, b: int| 0 <= a < b < table@.len() implies table@[a].0@ != table@[b].0@ by {
                    assert(table@[a].0@ == refs@[a]@);
                    assert(table@[b].0@ == refs@[b]@);
                    assert(string_texts(refs@)[a] != string_texts(refs@)[b]);
                }
                lemma_lookup_distinct(table@, j);
            }
            assert(ingested_definition(name@, src, stored));
        }
        let raw = String::from_str("root://").concat(name.as_str());
        let key = match parse_url(raw.as_str()) {
            Ok(u) => u,
            Err(_) => raw,
        };
        assert(key@ == definition_id(name@));
        let ghost stored_v = stored;
        self.insert(key, stored);
        proof {
            if !old(self)@.contains_key(definition_id(name@)) {
                assert(self@[definition_id(name@)] == stored_v);
            }
        }
    }

    /// Ingests a finalized set of named definitions: each is stored under
    /// `root://<name>` (as URL parsing writes it), with its references
    /// rewritten to that namespace and its title defaulted to its name. Ids
    /// already stored are left as they are; of two definitions with one id,
    /// the first is kept.
    #[verifier::rlimit(100)]
    pub fn add_from_generator(&mut self, definitions: Vec<(String, SchemaObject)>)
        requires
            old(self).wf(),
        ensures
            final(self).wf(),
            forall|k: Seq<char>| #[trigger] old(self)@.contains_key(k) ==> final(self)@.contains_key(k)
                && final(self)@[k] == old(self)@[k],
            forall|k: Seq<char>| #[trigger] final(self)@.contains_key(k) ==> old(self)@.contains_key(k)
                || exists|j: int| 0 <= j < definitions@.len() && k == definition_id(definitions@[j].0@),
            forall|j: int| 0 <= j < definitions@.len() ==> final(self)@.contains_key(#[trigger] definition_id(definitions@[j].0@)),
            forall|j: int| 0 <= j < definitions@.len() && !old(self)@.contains_key(#[trigger] definition_id(definitions@[j].0@))
                && (forall|m: int| 0 <= m < j ==> definition_id(definitions@[m].0@) != definition_id(definitions@[j].0@))
                ==> ingested_definition(definitions@[j].0@, definitions@[j].1, final(self)@[definition_id(definitions@[j].0@)]),
            final(self).ids() == old(self).ids() + added_ids(old(self)@, definitions@),
    {
        let ghost defs = definitions@;
        let n = definitions.len();
        let mut rest = definitions;
        let mut i: usize = 0;
        assert(defs.skip(0) =~= defs);
        assert(defs.take(0) =~= Seq::<(String, SchemaObject)>::empty());
        assert(old(self).ids() + Seq::<Seq<char>>::empty() =~= old(self).ids());
        while rest.len() > 0
            invariant
                i <= defs.len(),
                defs.len() == n,
                rest@ == defs.skip(i as int),
                self.wf(),
                forall|k: Seq<char>| #[trigger] old(self)@.contains_key(k) ==> self@.contains_key(k) && self@[k] == old(self)@[k],
                forall|k: Seq<char>| #[trigger] self@.contains_key(k) ==> old(self)@.contains_key(k)
                    || exists|j: int| 0 <= j < i && k == definition_id(defs[j].0@),
                forall|j: int| 0 <= j < i ==> self@.contains_key(#[trigger] definition_id(defs[j].0@)),
                forall|j: int| 0 <= j < i && !old(self)@.contains_key(#[trigger] definition_id(defs[j].0@))
                    && (forall|m: int| 0 <= m < j ==> definition_id(defs[m].0@) != definition_id(defs[j].0@))
                    ==> ingested_definition(defs[j].0@, defs[j].1, self@[definition_id(defs[j].0@)]),
                self.ids() == old(self).ids() + added_ids(old(self)@, defs.take(i as int)),
                forall|k: Seq<char>| #[trigger] added_ids(old(self)@, defs.take(i as int)).contains(k)
                    <==> !old(self)@.contains_key(k) && exists|j: int| 0 <= j < i && k == definition_id(defs[j].0@),
            decreases rest@.len(),
        {
            let (name, schema) = rest.remove(0);
            assert(name == defs[i as int].0 && schema == defs[i as int].1);
            assert(rest@ =~= defs.skip(i + 1));
            let ghost before = self@;
            let ghost before_ids = self.ids();
            let ghost key = definition_id(name@);
            let ghost p = added_ids(old(self)@, defs.take(i as int));
            let ghost seen = exists|j: int| 0 <= j < i && key == definition_id(defs[j].0@);
            self.add_definition(name, schema);
            proof {
                let ys = defs.take(i + 1);
                assert(ys.drop_last() =~= defs.take(i as int));
                assert(ys.last() == defs[i as int]);
                if old(self)@.contains_key(key) || seen {
                    if seen {
                        let j = choose|j: int| 0 <= j < i && key == definition_id(defs[j].0@);
                        assert(before.contains_key(definition_id(defs[j].0@)));
                    }
                    assert(before.contains_key(key));
                    assert(self.ids() == before_ids);
                    assert(added_ids(old(self)@, ys) == p);
                } else {
                    assert(!before.contains_key(key));
                    assert(added_ids(old(self)@, ys) == p.push(key));
                    assert(self.ids() =~= old(self).ids() + added_ids(old(self)@, ys));
                }
                assert forall|k: Seq<char>| #[trigger] added_ids(old(self)@, ys).contains(k)
                    <==> !old(self)@.contains_key(k) && exists|j: int| 0 <= j < i + 1 && k == definition_id(defs[j].0@) by {
                    if added_ids(old(self)@, ys).contains(k) && k != key {
                        if !(old(self)@.contains_key(key) || seen) {
                            let m = choose|m: int| 0 <= m < p.push(key).len() && p.push(key)[m] == k;
                            assert(m < p.len());
                            assert(p.contains(k));
                        }
                    }
                    if !old(self)@.contains_key(k) && (exists|j: int| 0 <= j < i + 1 && k == definition_id(defs[j].0@)) {
                        if k != key {
                            let j = choose|j: int| 0 <= j < i + 1 && k == definition_id(defs[j].0@);
                            assert(j < i);
                            assert(p.contains(k));
                            if !(old(self)@.contains_key(key) || seen) {
                                let m = choose|m: int| 0 <= m < p.len() && p[m] == k;
                                assert(p.push(key)[m] == k);
                            }
                        } else if !(old(self)@.contains_key(key) || seen) {
                            assert(p.push(key)[p.len() as int] == k);
                        }
                    }
                }
                assert forall|k: Seq<char>| #[trigger] self@.contains_key(k) implies old(self)@.contains_key(k)
                    || exists|j: int| 0 <= j < i + 1 && k == definition_id(defs[j].0@) by {
                    if k == key {
                        assert(k == definition_id(defs[i as int].0@));
                    } else {
                        assert(before.contains_key(k));
                    }
                }
                assert forall|j: int| 0 <= j < i + 1 implies self@.contains_key(#[trigger] definition_id(defs[j].0@)) by {
                    if j < i {
                        assert(before.contains_key(definition_id(defs[j].0@)));
                    }
                }
                assert forall|j: int| 0 <= j < i + 1 && !old(self)@.contains_key(#[trigger] definition_id(defs[j].0@))
                    && (forall|m: int| 0 <= m < j ==> definition_id(defs[m].0@) != definition_id(defs[j].0@))
                    implies ingested_definition(defs[j].0@, defs[j].1, self@[definition_id(defs[j].0@)]) by {
                    if j < i {
                        assert(before.contains_key(definition_id(defs[j].0@)));
                        assert(self@[definition_id(defs[j].0@)] == before[definition_id(defs[j].0@)]);
                    } else {
                        assert(!seen);
                        assert(!before.contains_key(key));
                    }
                }
            }
            i = i + 1;
        }
        assert(defs.skip(i as int).len() == 0);
        assert(defs.take(i as int) =~= defs);
    }

    /// Starts ingesting `schema`, whose references may point at other
    /// documents, under `root` (see [`Ingestion::begin`]). Nothing happens
    /// where `root`, or the id the schema declares, is already stored.
    pub fn add_schema_with_id(&mut self, root: &str, schema: SchemaObject) -> (r: (Ingestion, Result<Step, IngestError>))
        requires
            old(self).wf(),
        ensures
            final(self).wf(),
            r.0.base() == old(self)@,
            r.0.faithful(),
            r.0.origin() == root@,
            r.0.source() == schema,
            keeps(old(self)@, final(self)@),
            r.0.started() == !(old(self)@.contains_key(root@) || (declared_url(schema) is Some
                && old(self)@.contains_key(declared_url(schema)->0))),
            !r.0.started() ==> (r.1 matches Ok(Step::Done)) && final(self)@ == old(self)@,
            r.0.started() && (forall|x: Seq<char>| #[trigger] obj_has_ref(schema, x) ==> resolved(root@, schema, x) is Some)
                ==> r.1 is Ok,
            (forall|x: Seq<char>| #[trigger] obj_has_ref(schema, x) ==> resolved(root@, schema, x) is Some)
                ==> chain_resolves(r.0.chain()),
            r.1 is Err ==> r.1->Err_0 is Resolution && final(self)@ == old(self)@,
            r.1 matches Err(IngestError::Resolution { reference, root: rt }) ==> rt@ == root@
                && obj_has_ref(schema, reference@) && resolved(root@, schema, reference@) is None,
            r.1 is Ok ==> r.0.inv(final(self)@),
            r.1 matches Ok(Step::Fetch(t)) ==> r.0.awaiting() == Some(t@) && !final(self)@.contains_key(t@)
                && r.0.chain() == seq![(root@, schema)]
                && (exists|x: Seq<char>| #[trigger] obj_has_ref(schema, x) && resolved(root@, schema, x) == Some(t@))
                && r.0.requested() == Set::<Seq<char>>::empty().insert(t@),
            r.1 matches Ok(Step::Done) ==> r.0.finished() && r.0.awaiting() is None
                && settled(old(self)@, final(self)@),
            r.1 matches Ok(Step::Done) && r.0.started() ==> final(self)@.contains_key(stored_id(root@, schema))
                && ingested_as(root@, schema, final(self)@[stored_id(root@, schema)]),
    {
        Ingestion::begin(self, root, schema)
    }
}

} // verus!
