//! Ingestion of a schema whose references may point at other documents.
//!
//! An [`Ingestion`] holds the decisions; the caller does the fetching. Each
//! step answers with [`Step::Fetch`] (retrieve the schema at that locator and
//! hand it to [`Ingestion::resume`]) or [`Step::Done`]. A schema is stored
//! only after every schema it references has been stored, or is being
//! ingested further down the same chain, which is what ends cycles. A schema
//! is stored under its own declared id where that parses, else under the
//! locator it was ingested under; when it completes it replaces whatever was
//! written under that id during the same ingestion.
use vstd::prelude::*;
use crate::collection::Collection;
use crate::foreign::{join_url, joined_url_of, parse_url, parsed_url_of};
use crate::references::{
    collect_references, lemma_lookup_distinct, lemma_obj_source, obj_has_ref, renamed,
    replace_references, rw_obj, string_texts,
};
use crate::schema::SchemaObject;

verus! {

/// What the caller does next.
#[derive(Debug, PartialEq, Eq)]
pub enum Step {
    /// Retrieve the schema at this absolute locator and hand it to
    /// [`Ingestion::resume`].
    Fetch(String),
    /// The ingestion is complete.
    Done,
}

/// Why an ingestion failed.
#[derive(Debug, PartialEq, Eq)]
pub enum IngestError {
    /// `reference`, met while ingesting `root`, resolves to no absolute
    /// locator.
    Resolution { reference: String, root: String },
    /// The schema at `target`, referenced while ingesting `root`, could not
    /// be retrieved.
    Fetch { target: String, root: String },
}

/// The id that a schema declares for itself, if it parses as an absolute URL.
pub open spec fn declared_url(s: SchemaObject) -> Option<Seq<char>> {
    match s.id {
        Some(d) => parsed_url_of(d@),
        None => None,
    }
}

/// The canonical id a schema ingested under `root` is stored under: its own
/// declared id if it has a usable one, else `root`.
pub open spec fn stored_id(root: Seq<char>, s: SchemaObject) -> Seq<char> {
    match declared_url(s) {
        Some(u) => u,
        None => root,
    }
}

/// The schema declares no usable id other than `root`.
pub open spec fn declares_at(s: SchemaObject, root: Seq<char>) -> bool {
    stored_id(root, s) == root
}

/// The absolute target of reference `r` met in schema `s` ingested under
/// `root`: `r` itself if absolute, else `r` joined onto the declared id of
/// `s`, else onto `root`.
pub open spec fn resolved(root: Seq<char>, s: SchemaObject, r: Seq<char>) -> Option<Seq<char>> {
    match parsed_url_of(r) {
        Some(u) => Some(u),
        None => {
            let via_id = match declared_url(s) {
                Some(b) => joined_url_of(b, r),
                None => None,
            };
            match via_id {
                Some(u) => Some(u),
                None => joined_url_of(root, r),
            }
        },
    }
}

/// Every reference in every schema of `st` is itself a key of `st`.
pub open spec fn closed(st: Map<Seq<char>, SchemaObject>) -> bool {
    forall|k: Seq<char>, r: Seq<char>|
        st.contains_key(k) && #[trigger] obj_has_ref(st[k], r) ==> st.contains_key(r)
}

/// The canonical id `id_for_schema` gives.
pub fn id_for_schema(root: &str, s: &SchemaObject) -> (r: String)
    ensures
        r@ == stored_id(root@, *s),
{
    match &s.id {
        Some(d) => match parse_url(d.as_str()) {
            Ok(u) => u,
            Err(_) => String::from_str(root),
        },
        None => String::from_str(root),
    }
}

/// Resolves `r` (see [`resolved`]).
pub fn resolve_reference(root: &str, s: &SchemaObject, r: &str) -> (t: Option<String>)
    ensures
        match t {
            Some(u) => resolved(root@, *s, r@) == Some(u@),
            None => resolved(root@, *s, r@) is None,
        },
{
    match parse_url(r) {
        Ok(u) => return Some(u),
        Err(_) => {},
    }
    let via_id = match &s.id {
        Some(d) => match parse_url(d.as_str()) {
            Ok(b) => match join_url(b.as_str(), r) {
                Ok(u) => Some(u),
                Err(_) => None,
            },
            Err(_) => None,
        },
        None => None,
    };
    match via_id {
        Some(u) => Some(u),
        None => match join_url(root, r) {
            Ok(u) => Some(u),
            Err(_) => None,
        },
    }
}

/// One schema being ingested: its references, and the targets of those
/// already resolved (`table`, in the order of `refs`).
struct Frame {
    root: String,
    key: String,
    schema: SchemaObject,
    refs: Vec<String>,
    table: Vec<(String, String)>,
    next: usize,
}

spec fn frame_wf(f: Frame) -> bool {
    &&& f.key@ == stored_id(f.root@, f.schema)
    &&& f.next <= f.refs@.len()
    &&& f.table@.len() == f.next
    &&& string_texts(f.refs@).no_duplicates()
    &&& forall|r: Seq<char>| #[trigger] string_texts(f.refs@).contains(r) <==> obj_has_ref(f.schema, r)
    &&& forall|j: int| 0 <= j < f.next ==> #[trigger] f.table@[j].0@ == f.refs@[j]@
        && resolved(f.root@, f.schema, f.refs@[j]@) == Some(f.table@[j].1@)
}

/// `b` is schema `a`, ingested under `root`, as stored: every reference
/// renamed to the absolute target it resolves to, all else unchanged.
pub open spec fn ingested_as(root: Seq<char>, a: SchemaObject, b: SchemaObject) -> bool {
    exists|t: Seq<(String, String)>| {
        &&& rw_obj(a, b, t)
        &&& forall|r: Seq<char>| #[trigger] obj_has_ref(a, r) ==> resolved(root, a, r) == Some(renamed(t, r))
    }
}

proof fn lemma_frame_done(f: Frame, b: SchemaObject)
    requires
        frame_wf(f),
        f.next == f.refs@.len(),
        rw_obj(f.schema, b, f.table@),
    ensures
        ingested_as(f.root@, f.schema, b),
        forall|r: Seq<char>| #[trigger] obj_has_ref(f.schema, r) ==> exists|j: int| 0 <= j < f.next
            && renamed(f.table@, r) == #[trigger] f.table@[j].1@,
{
    let t = f.table@;
    assert forall|a: int, c: int| 0 <= a < c < t.len() implies t[a].0@ != t[c].0@ by {
        assert(0 <= a < f.next && 0 <= c < f.next);
        assert(f.table@[a].0@ == f.refs@[a]@);
        assert(f.table@[c].0@ == f.refs@[c]@);
        assert(string_texts(f.refs@)[a] != string_texts(f.refs@)[c]);
    }
    assert forall|r: Seq<char>| #[trigger] obj_has_ref(f.schema, r) implies resolved(f.root@, f.schema, r) == Some(renamed(t, r))
        && exists|j: int| 0 <= j < f.next && renamed(t, r) == #[trigger] t[j].1@ by {
        assert(string_texts(f.refs@).contains(r));
        let j = choose|j: int| 0 <= j < string_texts(f.refs@).len() && string_texts(f.refs@)[j] == r;
        assert(t[j].0@ == f.refs@[j]@);
        lemma_lookup_distinct(t, j);
    }
}

spec fn keys(frames: Seq<Frame>) -> Seq<Seq<char>> {
    frames.map_values(|f: Frame| f.key@)
}

spec fn chain_of(frames: Seq<Frame>) -> Seq<(Seq<char>, SchemaObject)> {
    frames.map_values(|f: Frame| (f.root@, f.schema))
}

/// `t` is stored, or is the id of a schema being ingested, or is awaited.
spec fn cov(st: Map<Seq<char>, SchemaObject>, ks: Seq<Seq<char>>, p: Option<Seq<char>>, t: Seq<char>) -> bool {
    st.contains_key(t) || ks.contains(t) || p == Some(t)
}

proof fn lemma_push(fs: Seq<Frame>, f: Frame)
    ensures
        keys(fs.push(f)) == keys(fs).push(f.key@),
        chain_of(fs.push(f)) == chain_of(fs).push((f.root@, f.schema)),
{
    assert(keys(fs.push(f)) =~= keys(fs).push(f.key@));
    assert(chain_of(fs.push(f)) =~= chain_of(fs).push((f.root@, f.schema)));
}

/// Every reference of every schema in `c` (locator, schema) resolves.
pub open spec fn chain_resolves(c: Seq<(Seq<char>, SchemaObject)>) -> bool {
    forall|i: int, x: Seq<char>| 0 <= i < c.len() && #[trigger] obj_has_ref(c[i].1, x)
        ==> resolved(c[i].0, c[i].1, x) is Some
}

proof fn lemma_resolves_prefix(c: Seq<(Seq<char>, SchemaObject)>, m: int)
    requires
        chain_resolves(c),
        0 <= m <= c.len(),
    ensures
        chain_resolves(c.take(m)),
{
    assert forall|i: int, x: Seq<char>| 0 <= i < c.take(m).len() && #[trigger] obj_has_ref(c.take(m)[i].1, x)
        implies resolved(c.take(m)[i].0, c.take(m)[i].1, x) is Some by {
        assert(c.take(m)[i] == c[i]);
    }
}

/// Every entry of `base` is still in `st`, unchanged.
pub open spec fn keeps(base: Map<Seq<char>, SchemaObject>, st: Map<Seq<char>, SchemaObject>) -> bool {
    forall|k: Seq<char>| #[trigger] base.contains_key(k) ==> st.contains_key(k) && st[k] == base[k]
}

fn in_progress(frames: &Vec<Frame>, t: &String) -> (r: bool)
    ensures
        r == keys(frames@).contains(t@),
{
    let mut i: usize = 0;
    while i < frames.len()
        invariant
            i <= frames@.len(),
            forall|j: int| 0 <= j < i ==> keys(frames@)[j] != t@,
        decreases frames@.len() - i,
    {
        if frames[i].key == *t {
            assert(keys(frames@)[i as int] == t@);
            return true;
        }
        i = i + 1;
    }
    false
}

spec fn work(frames: Seq<Frame>) -> nat
    decreases frames.len(),
{
    if frames.len() == 0 {
        0
    } else {
        work(frames.drop_last()) + (frames.last().refs@.len() - frames.last().next) as nat + 1
    }
}

/// An ingestion in progress: the chain of schemas being ingested, innermost
/// last, and the locator the caller was last asked to fetch.
pub struct Ingestion {
    frames: Vec<Frame>,
    pending: Option<String>,
    base: Ghost<Map<Seq<char>, SchemaObject>>,
    faithful: Ghost<bool>,
    started: Ghost<bool>,
    origin: Ghost<Seq<char>>,
    source: Ghost<SchemaObject>,
    requested: Ghost<Set<Seq<char>>>,
}

impl Ingestion {
    /// The store as it was when the ingestion began.
    pub closed spec fn base(&self) -> Map<Seq<char>, SchemaObject> {
        self.base@
    }

    /// Every schema fetched so far declares no usable id other than the
    /// locator it was fetched from.
    pub closed spec fn faithful(&self) -> bool {
        self.faithful@
    }

    /// The locator the caller was last asked to fetch, while it is awaited.
    pub closed spec fn awaiting(&self) -> Option<Seq<char>> {
        match self.pending {
            Some(t) => Some(t@),
            None => None,
        }
    }

    /// Whether a schema was taken up, rather than the ingestion ending at once
    /// because its id was already stored.
    pub closed spec fn started(&self) -> bool {
        self.started@
    }

    /// The locator the ingestion began with.
    pub closed spec fn origin(&self) -> Seq<char> {
        self.origin@
    }

    /// The schema the ingestion began with.
    pub closed spec fn source(&self) -> SchemaObject {
        self.source@
    }

    /// Every locator the caller has been asked to fetch.
    pub closed spec fn requested(&self) -> Set<Seq<char>> {
        self.requested@
    }

    /// The schemas being ingested, each with the locator it is ingested
    /// under, outermost first.
    pub closed spec fn chain(&self) -> Seq<(Seq<char>, SchemaObject)> {
        chain_of(self.frames@)
    }

    /// Whether no schema is left to ingest.
    pub closed spec fn finished(&self) -> bool {
        self.frames@.len() == 0
    }

    spec fn covered(&self, st: Map<Seq<char>, SchemaObject>, t: Seq<char>) -> bool {
        cov(st, keys(self.frames@), self.awaiting(), t)
    }

    /// The ingestion's invariant against the store `st`.
    pub closed spec fn inv(&self, st: Map<Seq<char>, SchemaObject>) -> bool {
        &&& forall|i: int| 0 <= i < self.frames@.len() ==> frame_wf(#[trigger] self.frames@[i])
        &&& self.pending is Some ==> self.frames@.len() > 0 && !keys(self.frames@).contains(self.pending->0@)
            && !st.contains_key(self.pending->0@)
        &&& self.started@ && self.frames@.len() > 0 ==> self.frames@[0].root@ == self.origin@
            && self.frames@[0].schema == self.source@
        &&& self.started@ && self.frames@.len() == 0 ==> st.contains_key(stored_id(self.origin@, self.source@))
            && ingested_as(self.origin@, self.source@, st[stored_id(self.origin@, self.source@)])
        &&& keeps(self.base@, st)
        &&& forall|i: int| 0 <= i < self.frames@.len() ==> !self.base@.contains_key(#[trigger] self.frames@[i].key@)
        &&& self.faithful@ ==> {
            &&& forall|i: int, j: int| 0 <= i < j < self.frames@.len()
                ==> #[trigger] self.frames@[i].key@ != #[trigger] self.frames@[j].key@
            &&& forall|i: int| 0 <= i < self.frames@.len() ==> !st.contains_key(#[trigger] self.frames@[i].key@)
            &&& forall|i: int, j: int| 0 <= i < self.frames@.len() && 0 <= j < self.frames@[i].next
                ==> self.covered(st, #[trigger] self.frames@[i].table@[j].1@)
            &&& forall|k: Seq<char>, r: Seq<char>| #[trigger] st.contains_key(k) && !self.base@.contains_key(k)
                && #[trigger] obj_has_ref(st[k], r) ==> self.covered(st, r)
            &&& forall|t: Seq<char>| #[trigger] self.requested@.contains(t) ==> self.covered(st, t)
        }
    }

    /// A schema being ingested is not stored before every schema it
    /// references is: while it is in the chain, its id is not a key.
    pub proof fn lemma_chain_unstored(&self, st: Map<Seq<char>, SchemaObject>)
        requires
            self.inv(st),
            self.faithful(),
        ensures
            forall|i: int| 0 <= i < self.chain().len()
                ==> !st.contains_key(stored_id(#[trigger] self.chain()[i].0, self.chain()[i].1)),
    {
        assert forall|i: int| 0 <= i < self.chain().len()
            implies !st.contains_key(stored_id(#[trigger] self.chain()[i].0, self.chain()[i].1)) by {
            assert(frame_wf(self.frames@[i]));
            assert(self.chain()[i] == (self.frames@[i].root@, self.frames@[i].schema));
        }
    }

    proof fn lemma_done_settled(&self, st: Map<Seq<char>, SchemaObject>)
        requires
            self.inv(st),
            self.faithful(),
            self.finished(),
            self.awaiting() is None,
        ensures
            settled(self.base(), st),
    {
        assert(keys(self.frames@) =~= Seq::<Seq<char>>::empty());
        assert forall|k: Seq<char>, r: Seq<char>| #[trigger] st.contains_key(k) && !self.base().contains_key(k)
            && #[trigger] obj_has_ref(st[k], r) implies st.contains_key(r) by {
            assert(self.covered(st, r));
        }
    }
}

/// `st` grew from `base` by ingestion: every entry of `base` is kept, and
/// every reference in a schema stored since names a stored schema.
pub open spec fn settled(base: Map<Seq<char>, SchemaObject>, st: Map<Seq<char>, SchemaObject>) -> bool {
    &&& forall|k: Seq<char>| #[trigger] base.contains_key(k) ==> st.contains_key(k) && st[k] == base[k]
    &&& forall|k: Seq<char>, r: Seq<char>| #[trigger] st.contains_key(k) && !base.contains_key(k)
        && #[trigger] obj_has_ref(st[k], r) ==> st.contains_key(r)
}

/// Closure: once an ingestion has settled, every reference in the schema
/// stored under `id` names a stored schema, provided that schema was stored
/// by the ingestion or the store was closed before it.
pub proof fn lemma_ingested_refs_stored(base: Map<Seq<char>, SchemaObject>, st: Map<Seq<char>, SchemaObject>, id: Seq<char>)
    requires
        settled(base, st),
        st.contains_key(id),
        base.contains_key(id) ==> closed(base),
    ensures
        forall|r: Seq<char>| #[trigger] obj_has_ref(st[id], r) ==> st.contains_key(r),
{
    assert forall|r: Seq<char>| #[trigger] obj_has_ref(st[id], r) implies st.contains_key(r) by {
        if base.contains_key(id) {
            assert(st[id] == base[id]);
            assert(base.contains_key(r));
        }
    }
}

/// A closed store stays closed through an ingestion that settles.
pub proof fn lemma_closed_preserved(base: Map<Seq<char>, SchemaObject>, st: Map<Seq<char>, SchemaObject>)
    requires
        closed(base),
        settled(base, st),
    ensures
        closed(st),
{
    assert forall|k: Seq<char>, r: Seq<char>| st.contains_key(k) && #[trigger] obj_has_ref(st[k], r) implies st.contains_key(r) by {
        if base.contains_key(k) {
            assert(st[k] == base[k]);
            assert(base.contains_key(r));
        }
    }
}

impl Ingestion {
    /// Resolves references of the innermost schema and stores each schema
    /// whose references are all settled, until a fetch is needed or nothing
    /// is left.
    fn advance(&mut self, store: &mut Collection) -> (r: Result<Step, IngestError>)
        requires
            old(self).inv(old(store)@),
            old(self).pending is None,
            old(store).wf(),
        ensures
            final(store).wf(),
            final(self).base() == old(self).base(),
            final(self).faithful() == old(self).faithful(),
            final(self).started() == old(self).started(),
            final(self).origin() == old(self).origin(),
            final(self).source() == old(self).source(),
            keeps(old(self).base(), final(store)@),
            final(self).frames@.len() <= old(self).frames@.len(),
            final(self).frames@.len() == old(self).frames@.len() ==> final(store)@ == old(store)@,
            final(self).chain() == old(self).chain().take(final(self).frames@.len() as int),
            chain_resolves(old(self).chain()) ==> r is Ok,
            r is Err ==> r->Err_0 is Resolution && final(self).frames@.len() > 0,
            r matches Err(IngestError::Resolution { reference, root }) ==> root@ == final(self).chain().last().0
                && obj_has_ref(final(self).chain().last().1, reference@)
                && resolved(root@, final(self).chain().last().1, reference@) is None,
            r is Ok ==> final(self).inv(final(store)@),
            !(r matches Ok(Step::Fetch(_))) ==> final(self).requested() == old(self).requested(),
            r matches Ok(Step::Done) ==> final(self).finished() && final(self).awaiting() is None,
            r matches Ok(Step::Fetch(t)) ==> final(self).awaiting() == Some(t@) && !final(store)@.contains_key(t@)
                && final(self).frames@.len() > 0
                && (exists|x: Seq<char>| #[trigger] obj_has_ref(final(self).chain().last().1, x)
                    && resolved(final(self).chain().last().0, final(self).chain().last().1, x) == Some(t@))
                && final(self).requested() == old(self).requested().insert(t@)
                && (old(self).faithful() ==> !old(self).requested().contains(t@)),
    {
        let ghost st0 = store@;
        let ghost fs0 = self.frames@;
        assert(chain_of(fs0).take(fs0.len() as int) =~= chain_of(fs0));
        loop
            invariant
                st0 == old(store)@,
                fs0 == old(self).frames@,
                old(self).pending is None,
                self.inv(store@),
                self.pending is None,
                store.wf(),
                self.base() == old(self).base(),
                self.faithful() == old(self).faithful(),
                self.started() == old(self).started(),
                self.origin() == old(self).origin(),
                self.source() == old(self).source(),
                self.requested() == old(self).requested(),
                self.frames@.len() <= fs0.len(),
                self.frames@.len() == fs0.len() ==> store@ == st0,
                chain_of(self.frames@) == chain_of(fs0).take(self.frames@.len() as int),
            decreases work(self.frames@),
        {
            let ghost fs = self.frames@;
            let ghost st = store@;
            let mut f = match self.frames.pop() {
                None => return Ok(Step::Done),
                Some(f) => f,
            };
            let ghost rest = self.frames@;
            proof {
                assert(fs.drop_last() == rest);
                assert(f == fs.last());
                assert(frame_wf(fs[fs.len() - 1]));
                assert(rest.push(f) =~= fs);
                lemma_push(rest, f);
                assert forall|i: int| 0 <= i < rest.len() implies #[trigger] rest[i] == fs[i] by {}
                assert(chain_of(fs)[fs.len() - 1] == (f.root@, f.schema));
                assert(chain_of(fs) =~= chain_of(fs0).take(fs.len() as int));
            }
            if f.next < f.refs.len() {
                let r = f.refs[f.next].clone();
                proof {
                    assert(string_texts(f.refs@)[f.next as int] == r@);
                    assert(string_texts(f.refs@).contains(r@));
                    assert(obj_has_ref(f.schema, r@));
                }
                match resolve_reference(f.root.as_str(), &f.schema, r.as_str()) {
                    None => {
                        let root = f.root.clone();
                        self.frames.push(f);
                        proof {
                            assert(self.frames@ =~= fs);
                            if chain_resolves(chain_of(fs0)) {
                                lemma_resolves_prefix(chain_of(fs0), fs.len() as int);
                                assert(chain_of(fs)[fs.len() - 1].1 == f.schema);
                                assert(obj_has_ref(chain_of(fs)[fs.len() - 1].1, r@));
                            }
                        }
                        return Err(IngestError::Resolution { reference: r, root });
                    },
                    Some(target) => {
                        let skip = store.contains(target.as_str()) || f.key == target || in_progress(&self.frames, &target);
                        let ghost f0 = f;
                        let ghost rr = r@;
                        f.table.push((r, target.clone()));
                        f.next = f.next + 1;
                        proof {
                            assert forall|j: int| 0 <= j < f.next implies #[trigger] f.table@[j].0@ == f.refs@[j]@
                                && resolved(f.root@, f.schema, f.refs@[j]@) == Some(f.table@[j].1@) by {
                                if j < f0.next {
                                    assert(f.table@[j] == f0.table@[j]);
                                }
                            }
                            assert(frame_wf(f));
                        }
                        self.frames.push(f);
                        proof {
                            lemma_push(rest, f);
                            assert(keys(self.frames@) == keys(fs));
                            assert(chain_of(self.frames@) == chain_of(fs));
                            assert(self.frames@.drop_last() =~= rest);
                            assert(work(self.frames@) < work(fs));
                            assert forall|i: int| 0 <= i < self.frames@.len() implies frame_wf(#[trigger] self.frames@[i])
                                && self.frames@[i].key@ == fs[i].key@ by {
                                if i < rest.len() {
                                    assert(self.frames@[i] == fs[i]);
                                }
                            }
                            assert(self.frames@[0].root@ == fs[0].root@ && self.frames@[0].schema == fs[0].schema);
                        }
                        if !skip {
                            self.pending = Some(target.clone());
                            proof {
                                self.requested = Ghost(self.requested@.insert(target@));
                                assert(!keys(fs).contains(target@)) by {
                                    if keys(fs).contains(target@) {
                                        let k = choose|k: int| 0 <= k < keys(fs).len() && keys(fs)[k] == target@;
                                        if k < rest.len() {
                                            assert(keys(rest)[k] == target@);
                                        }
                                    }
                                }
                                assert(obj_has_ref(chain_of(self.frames@).last().1, rr));
                                if self.faithful@ {
                                    assert(!old(self).requested().contains(target@)) by {
                                        if old(self).requested().contains(target@) {
                                            assert(cov(st, keys(fs), None, target@));
                                        }
                                    }
                                    assert forall|t: Seq<char>| cov(st, keys(fs), None, t)
                                        implies #[trigger] self.covered(store@, t) by {}
                                    assert forall|i: int, j: int| 0 <= i < self.frames@.len() && 0 <= j < self.frames@[i].next
                                        implies self.covered(store@, #[trigger] self.frames@[i].table@[j].1@) by {
                                        if i < rest.len() {
                                            assert(self.frames@[i] == fs[i]);
                                            assert(cov(st, keys(fs), None, fs[i].table@[j].1@));
                                        } else if j < f0.next {
                                            assert(self.frames@[i].table@[j] == fs[fs.len() - 1].table@[j]);
                                            assert(cov(st, keys(fs), None, fs[fs.len() - 1].table@[j].1@));
                                        }
                                    }
                                    assert forall|k: Seq<char>, x: Seq<char>| #[trigger] store@.contains_key(k) && !self.base@.contains_key(k)
                                        && #[trigger] obj_has_ref(store@[k], x) implies self.covered(store@, x) by {
                                        assert(cov(st, keys(fs), None, x));
                                    }
                                    assert forall|t: Seq<char>| #[trigger] self.requested@.contains(t) implies self.covered(store@, t) by {
                                        if t != target@ {
                                            assert(cov(st, keys(fs), None, t));
                                        }
                                    }
                                    assert forall|i: int| 0 <= i < self.frames@.len()
                                        implies !store@.contains_key(#[trigger] self.frames@[i].key@) by {
                                        assert(!st.contains_key(fs[i].key@));
                                    }
                                    assert forall|i: int, j: int| 0 <= i < j < self.frames@.len()
                                        implies #[trigger] self.frames@[i].key@ != #[trigger] self.frames@[j].key@ by {
                                        assert(fs[i].key@ != fs[j].key@);
                                    }
                                }
                                assert forall|i: int| 0 <= i < self.frames@.len()
                                    implies !self.base@.contains_key(#[trigger] self.frames@[i].key@) by {
                                    assert(!self.base@.contains_key(fs[i].key@));
                                }
                            }
                            return Ok(Step::Fetch(target));
                        }
                        proof {
                            if self.faithful@ {
                                assert(cov(st, keys(fs), None, target@)) by {
                                    if !st.contains_key(target@) {
                                        if f.key@ == target@ {
                                            assert(keys(fs)[rest.len() as int] == target@);
                                        } else {
                                            let k = choose|k: int| 0 <= k < keys(rest).len() && keys(rest)[k] == target@;
                                            assert(keys(fs)[k] == target@);
                                        }
                                    }
                                }
                                assert forall|i: int, j: int| 0 <= i < self.frames@.len() && 0 <= j < self.frames@[i].next
                                    implies self.covered(store@, #[trigger] self.frames@[i].table@[j].1@) by {
                                    if i < rest.len() {
                                        assert(self.frames@[i] == fs[i]);
                                        assert(cov(st, keys(fs), None, fs[i].table@[j].1@));
                                    } else if j < f0.next {
                                        assert(self.frames@[i].table@[j] == fs[fs.len() - 1].table@[j]);
                                        assert(cov(st, keys(fs), None, fs[fs.len() - 1].table@[j].1@));
                                    }
                                }
                                assert forall|k: Seq<char>, x: Seq<char>| #[trigger] store@.contains_key(k) && !self.base@.contains_key(k)
                                    && #[trigger] obj_has_ref(store@[k], x) implies self.covered(store@, x) by {
                                    assert(cov(st, keys(fs), None, x));
                                }
                                assert forall|t: Seq<char>| #[trigger] self.requested@.contains(t) implies self.covered(store@, t) by {
                                    assert(cov(st, keys(fs), None, t));
                                }
                                assert forall|i: int| 0 <= i < self.frames@.len()
                                    implies !store@.contains_key(#[trigger] self.frames@[i].key@) by {
                                    assert(!st.contains_key(fs[i].key@));
                                }
                                assert forall|i: int, j: int| 0 <= i < j < self.frames@.len()
                                    implies #[trigger] self.frames@[i].key@ != #[trigger] self.frames@[j].key@ by {
                                    assert(fs[i].key@ != fs[j].key@);
                                }
                            }
                            assert forall|i: int| 0 <= i < self.frames@.len()
                                implies !self.base@.contains_key(#[trigger] self.frames@[i].key@) by {
                                assert(!self.base@.contains_key(fs[i].key@));
                            }
                        }
                    },
                }
            } else {
                let ghost fl = f;
                let Frame { root, key, schema, refs, table, next } = f;
                let stored = replace_references(schema, &table);
                let ghost stored_v = stored;
                let ghost kv = key@;
                store.put(key, stored);
                proof {
                    assert(work(rest) < work(fs));
                    assert(kv == stored_id(fl.root@, fl.schema));
                    lemma_frame_done(fl, stored_v);
                    assert(store@ == st.insert(kv, stored_v));
                    assert(chain_of(rest) =~= chain_of(fs).take(rest.len() as int));
                    assert(chain_of(rest) =~= chain_of(fs0).take(rest.len() as int));
                    assert(!self.base@.contains_key(fs[fs.len() - 1].key@));
                    assert forall|k: Seq<char>| #[trigger] self.base@.contains_key(k) implies store@.contains_key(k)
                        && store@[k] == self.base@[k] by {
                        assert(k != kv);
                    }
                    assert forall|i: int| 0 <= i < self.frames@.len() implies frame_wf(#[trigger] self.frames@[i]) by {
                        assert(self.frames@[i] == fs[i]);
                    }
                    assert forall|i: int| 0 <= i < self.frames@.len()
                        implies !self.base@.contains_key(#[trigger] self.frames@[i].key@) by {
                        assert(self.frames@[i] == fs[i]);
                    }
                    if self.started@ && rest.len() > 0 {
                        assert(self.frames@[0] == fs[0]);
                    }
                    if self.started@ && rest.len() == 0 {
                        assert(fl == fs[0]);
                    }
                    if self.faithful@ {
                        assert(!st.contains_key(kv));
                        assert forall|t: Seq<char>| cov(st, keys(fs), None, t)
                            implies #[trigger] cov(store@, keys(rest), None, t) by {
                            if keys(fs).contains(t) && t != kv {
                                let k = choose|k: int| 0 <= k < keys(fs).len() && keys(fs)[k] == t;
                                assert(k < rest.len());
                                assert(keys(rest)[k] == t);
                            }
                        }
                        assert forall|i: int| 0 <= i < self.frames@.len()
                            implies !store@.contains_key(#[trigger] self.frames@[i].key@) by {
                            assert(self.frames@[i] == fs[i]);
                            assert(fs[i].key@ != fs[fs.len() - 1].key@);
                        }
                        assert forall|i: int, j: int| 0 <= i < j < self.frames@.len()
                            implies #[trigger] self.frames@[i].key@ != #[trigger] self.frames@[j].key@ by {
                            assert(self.frames@[i] == fs[i]);
                            assert(self.frames@[j] == fs[j]);
                        }
                        assert forall|i: int, j: int| 0 <= i < self.frames@.len() && 0 <= j < self.frames@[i].next
                            implies self.covered(store@, #[trigger] self.frames@[i].table@[j].1@) by {
                            assert(self.frames@[i] == fs[i]);
                            assert(cov(st, keys(fs), None, fs[i].table@[j].1@));
                        }
                        assert forall|k: Seq<char>, x: Seq<char>| #[trigger] store@.contains_key(k) && !self.base@.contains_key(k)
                            && #[trigger] obj_has_ref(store@[k], x) implies self.covered(store@, x) by {
                            if k == kv {
                                assert(store@[k] == stored_v);
                                let o = lemma_obj_source(fl.schema, stored_v, fl.table@, x);
                                let j2 = choose|j: int| 0 <= j < fl.next && renamed(fl.table@, o) == #[trigger] fl.table@[j].1@;
                                assert(cov(st, keys(fs), None, fs[fs.len() - 1].table@[j2].1@));
                            } else {
                                assert(store@[k] == st[k]);
                                assert(cov(st, keys(fs), None, x));
                            }
                        }
                        assert forall|t: Seq<char>| #[trigger] self.requested@.contains(t) implies self.covered(store@, t) by {
                            assert(cov(st, keys(fs), None, t));
                        }
                    }
                }
            }
        }
    }
}

/// Idempotence: once an ingestion of `schema` under `root` has stored the
/// schema, a second ingestion of the same pair finds it stored and ends at
/// once, leaving the store as it is.
pub proof fn lemma_second_ingestion_no_op(st: Map<Seq<char>, SchemaObject>, root: Seq<char>, schema: SchemaObject)
    requires
        st.contains_key(stored_id(root, schema)),
    ensures
        st.contains_key(root) || (declared_url(schema) is Some && st.contains_key(declared_url(schema)->0)),
{
}

impl Ingestion {
    /// Starts ingesting `schema` under `root`. Nothing happens where `root`,
    /// or the id the schema declares, is already stored.
    pub fn begin(store: &mut Collection, root: &str, schema: SchemaObject) -> (r: (Ingestion, Result<Step, IngestError>))
        requires
            old(store).wf(),
        ensures
            final(store).wf(),
            r.0.base() == old(store)@,
            r.0.faithful(),
            r.0.origin() == root@,
            r.0.source() == schema,
            keeps(old(store)@, final(store)@),
            r.0.started() == !(old(store)@.contains_key(root@) || (declared_url(schema) is Some
                && old(store)@.contains_key(declared_url(schema)->0))),
            !r.0.started() ==> (r.1 matches Ok(Step::Done)) && final(store)@ == old(store)@,
            r.0.started() && (forall|x: Seq<char>| #[trigger] obj_has_ref(schema, x) ==> resolved(root@, schema, x) is Some)
                ==> r.1 is Ok,
            (forall|x: Seq<char>| #[trigger] obj_has_ref(schema, x) ==> resolved(root@, schema, x) is Some)
                ==> chain_resolves(r.0.chain()),
            r.1 is Err ==> r.1->Err_0 is Resolution && final(store)@ == old(store)@,
            r.1 matches Err(IngestError::Resolution { reference, root: rt }) ==> rt@ == root@
                && obj_has_ref(schema, reference@) && resolved(root@, schema, reference@) is None,
            r.1 is Ok ==> r.0.inv(final(store)@),
            r.1 matches Ok(Step::Fetch(t)) ==> r.0.awaiting() == Some(t@) && !final(store)@.contains_key(t@)
                && r.0.chain() == seq![(root@, schema)]
                && (exists|x: Seq<char>| #[trigger] obj_has_ref(schema, x) && resolved(root@, schema, x) == Some(t@))
                && r.0.requested() == Set::<Seq<char>>::empty().insert(t@),
            r.1 matches Ok(Step::Done) ==> r.0.finished() && r.0.awaiting() is None
                && settled(old(store)@, final(store)@),
            r.1 matches Ok(Step::Done) && r.0.started() ==> final(store)@.contains_key(stored_id(root@, schema))
                && ingested_as(root@, schema, final(store)@[stored_id(root@, schema)]),
    {
        let mut ing = Ingestion {
            frames: Vec::new(),
            pending: None,
            base: Ghost(store@),
            faithful: Ghost(true),
            started: Ghost(false),
            origin: Ghost(root@),
            source: Ghost(schema),
            requested: Ghost(Set::empty()),
        };
        proof {
            assert(keys(ing.frames@) =~= Seq::<Seq<char>>::empty());
            assert(chain_of(ing.frames@) =~= Seq::<(Seq<char>, SchemaObject)>::empty());
        }
        if store.contains(root) {
            return (ing, Ok(Step::Done));
        }
        match &schema.id {
            Some(d) => match parse_url(d.as_str()) {
                Ok(u) => {
                    if store.contains(u.as_str()) {
                        assert(declared_url(schema) == Some(u@));
                        return (ing, Ok(Step::Done));
                    }
                },
                Err(_) => {},
            },
            None => {},
        }
        assert(declared_url(schema) is Some ==> !store@.contains_key(declared_url(schema)->0));
        let key = id_for_schema(root, &schema);
        let refs = collect_references(&schema);
        let ghost src = schema;
        let f = Frame { root: String::from_str(root), key, schema, refs, table: Vec::new(), next: 0 };
        ing.frames.push(f);
        ing.started = Ghost(true);
        proof {
            lemma_push(Seq::empty(), f);
            assert(ing.frames@ =~= seq![f]);
            assert(frame_wf(f));
            assert(!store@.contains_key(f.key@));
            assert(chain_of(ing.frames@) =~= seq![(root@, src)]);
        }
        let ghost c0 = chain_of(ing.frames@);
        let r = ing.advance(store);
        proof {
            if forall|x: Seq<char>| #[trigger] obj_has_ref(src, x) ==> resolved(root@, src, x) is Some {
                assert(chain_resolves(c0)) by {
                    assert forall|i: int, x: Seq<char>| 0 <= i < c0.len() && #[trigger] obj_has_ref(c0[i].1, x)
                        implies resolved(c0[i].0, c0[i].1, x) is Some by {
                        assert(c0[i] == (root@, src));
                    }
                }
                lemma_resolves_prefix(c0, ing.frames@.len() as int);
            }
            if ing.frames@.len() == 1 {
                assert(c0.take(1) =~= c0);
            }
            if r matches Ok(Step::Done) {
                ing.lemma_done_settled(store@);
            }
        }
        (ing, r)
    }

    /// Hands over the outcome of the last fetch: the schema retrieved, or
    /// `None` where it could not be retrieved.
    pub fn resume(&mut self, store: &mut Collection, fetched: Option<SchemaObject>) -> (r: Result<Step, IngestError>)
        requires
            old(self).inv(old(store)@),
            old(self).awaiting() is Some,
            old(store).wf(),
        ensures
            final(store).wf(),
            final(self).base() == old(self).base(),
            final(self).started() == old(self).started(),
            final(self).origin() == old(self).origin(),
            final(self).source() == old(self).source(),
            final(self).faithful() == (old(self).faithful() && match fetched {
                Some(s) => declares_at(s, old(self).awaiting()->0),
                None => true,
            }),
            keeps(final(self).base(), final(store)@),
            fetched is None ==> r is Err && r->Err_0 is Fetch && r->Err_0->Fetch_target@ == old(self).awaiting()->0
                && old(self).chain().len() > 0 && r->Err_0->Fetch_root@ == old(self).chain().last().0
                && final(store)@ == old(store)@
                && (old(self).faithful() ==> !final(store)@.contains_key(
                    stored_id(old(self).chain().last().0, old(self).chain().last().1))),
            fetched matches Some(s) && chain_resolves(old(self).chain())
                && (forall|x: Seq<char>| #[trigger] obj_has_ref(s, x) ==> resolved(old(self).awaiting()->0, s, x) is Some)
                ==> r is Ok && chain_resolves(final(self).chain()),
            r matches Err(IngestError::Resolution { reference, root }) ==> final(self).chain().len() > 0
                && root@ == final(self).chain().last().0 && obj_has_ref(final(self).chain().last().1, reference@)
                && resolved(root@, final(self).chain().last().1, reference@) is None,
            r is Ok ==> final(self).inv(final(store)@),
            r matches Ok(Step::Fetch(t)) ==> final(self).awaiting() == Some(t@) && !final(store)@.contains_key(t@)
                && final(self).chain().len() > 0
                && (exists|x: Seq<char>| #[trigger] obj_has_ref(final(self).chain().last().1, x)
                    && resolved(final(self).chain().last().0, final(self).chain().last().1, x) == Some(t@))
                && final(self).requested() == old(self).requested().insert(t@)
                && (final(self).faithful() ==> !old(self).requested().contains(t@)),
            !(r matches Ok(Step::Fetch(_))) ==> final(self).requested() == old(self).requested(),
            r matches Ok(Step::Done) ==> final(self).finished() && final(self).awaiting() is None,
            r matches Ok(Step::Done) && final(self).faithful() ==> settled(final(self).base(), final(store)@),
            r matches Ok(Step::Done) && final(self).started() ==> final(store)@.contains_key(
                stored_id(final(self).origin(), final(self).source()))
                && ingested_as(final(self).origin(), final(self).source(),
                final(store)@[stored_id(final(self).origin(), final(self).source())]),
    {
        let target = self.pending.take().unwrap();
        let ghost fs = self.frames@;
        let ghost st = store@;
        let schema = match fetched {
            None => {
                let last = self.frames.len() - 1;
                let root = self.frames[last].root.clone();
                proof {
                    assert(frame_wf(fs[last as int]));
                    assert(chain_of(fs)[last as int] == (fs[last as int].root@, fs[last as int].schema));
                }
                return Err(IngestError::Fetch { target, root });
            },
            Some(s) => s,
        };
        let ghost was_faithful = self.faithful@;
        proof {
            self.faithful = Ghost(self.faithful@ && declares_at(schema, target@));
        }
        let mut skip = store.contains(target.as_str());
        if !skip {
            match &schema.id {
                Some(d) => match parse_url(d.as_str()) {
                    Ok(u) => {
                        skip = store.contains(u.as_str());
                        assert(declared_url(schema) == Some(u@));
                    },
                    Err(_) => {},
                },
                None => {},
            }
        }
        let ghost src = schema;
        let ghost c1 = chain_of(fs);
        if !skip {
            assert(declared_url(src) is Some ==> !store@.contains_key(declared_url(src)->0));
            let key = id_for_schema(target.as_str(), &schema);
            let refs = collect_references(&schema);
            let f = Frame { root: target, key, schema, refs, table: Vec::new(), next: 0 };
            self.frames.push(f);
            proof {
                lemma_push(fs, f);
                assert(frame_wf(f));
                assert(!store@.contains_key(f.key@));
                c1 = chain_of(self.frames@);
                assert forall|i: int| 0 <= i < self.frames@.len() implies frame_wf(#[trigger] self.frames@[i])
                    && !self.base@.contains_key(self.frames@[i].key@) by {
                    if i < fs.len() {
                        assert(self.frames@[i] == fs[i]);
                    }
                }
                assert(self.frames@[0] == fs[0]);
                if self.faithful@ {
                    assert(f.key@ == target@);
                    assert(keys(self.frames@)[fs.len() as int] == target@);
                    assert forall|t: Seq<char>| cov(st, keys(fs), Some(target@), t)
                        implies #[trigger] cov(st, keys(self.frames@), None, t) by {
                        if keys(fs).contains(t) {
                            let k = choose|k: int| 0 <= k < keys(fs).len() && keys(fs)[k] == t;
                            assert(keys(self.frames@)[k] == t);
                        }
                    }
                    assert forall|i: int| 0 <= i < fs.len() implies #[trigger] fs[i].key@ != target@ by {
                        assert(keys(fs)[i] == fs[i].key@);
                    }
                    assert forall|i: int, j: int| 0 <= i < j < self.frames@.len()
                        implies #[trigger] self.frames@[i].key@ != #[trigger] self.frames@[j].key@ by {
                        assert(self.frames@[i] == fs[i]);
                        if j < fs.len() {
                            assert(self.frames@[j] == fs[j]);
                        }
                    }
                    assert forall|i: int| 0 <= i < self.frames@.len()
                        implies !store@.contains_key(#[trigger] self.frames@[i].key@) by {
                        if i < fs.len() {
                            assert(self.frames@[i] == fs[i]);
                        }
                    }
                    assert forall|i: int, j: int| 0 <= i < self.frames@.len() && 0 <= j < self.frames@[i].next
                        implies self.covered(store@, #[trigger] self.frames@[i].table@[j].1@) by {
                        assert(i < fs.len());
                        assert(self.frames@[i] == fs[i]);
                        assert(cov(st, keys(fs), Some(target@), fs[i].table@[j].1@));
                    }
                    assert forall|k: Seq<char>, x: Seq<char>| #[trigger] store@.contains_key(k) && !self.base@.contains_key(k)
                        && #[trigger] obj_has_ref(store@[k], x) implies self.covered(store@, x) by {
                        assert(cov(st, keys(fs), Some(target@), x));
                    }
                    assert forall|t: Seq<char>| #[trigger] self.requested@.contains(t) implies self.covered(store@, t) by {
                        assert(cov(st, keys(fs), Some(target@), t));
                    }
                }
            }
        } else {
            proof {
                if self.faithful@ {
                    assert(store@.contains_key(target@));
                    assert forall|t: Seq<char>| cov(st, keys(fs), Some(target@), t)
                        implies #[trigger] cov(st, keys(fs), None, t) by {}
                    assert forall|i: int, j: int| 0 <= i < self.frames@.len() && 0 <= j < self.frames@[i].next
                        implies self.covered(store@, #[trigger] self.frames@[i].table@[j].1@) by {
                        assert(cov(st, keys(fs), Some(target@), fs[i].table@[j].1@));
                    }
                    assert forall|k: Seq<char>, x: Seq<char>| #[trigger] store@.contains_key(k) && !self.base@.contains_key(k)
                        && #[trigger] obj_has_ref(store@[k], x) implies self.covered(store@, x) by {
                        assert(cov(st, keys(fs), Some(target@), x));
                    }
                    assert forall|t: Seq<char>| #[trigger] self.requested@.contains(t) implies self.covered(store@, t) by {
                        assert(cov(st, keys(fs), Some(target@), t));
                    }
                }
            }
        }
        proof {
            if chain_resolves(chain_of(fs)) && (forall|x: Seq<char>| #[trigger] obj_has_ref(src, x)
                ==> resolved(target@, src, x) is Some) {
                assert(chain_resolves(c1)) by {
                    assert forall|i: int, x: Seq<char>| 0 <= i < c1.len() && #[trigger] obj_has_ref(c1[i].1, x)
                        implies resolved(c1[i].0, c1[i].1, x) is Some by {
                        if i < fs.len() {
                            assert(c1[i] == chain_of(fs)[i]);
                        }
                    }
                }
            }
        }
        let r = self.advance(store);
        proof {
            if chain_resolves(c1) {
                lemma_resolves_prefix(c1, self.frames@.len() as int);
            }
            if r matches Ok(Step::Done) {
                if self.faithful@ {
                    self.lemma_done_settled(store@);
                }
            }
        }
        r
    }
}

} // verus!
