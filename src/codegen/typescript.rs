//! TypeScript declarations from stored schemas.
use vstd::prelude::*;
use crate::collection::Collection;
use crate::foreign::{parse_url, parsed_url_of};
use crate::schema::{ArrayItems, InstanceType, Schema, SchemaObject};
use crate::util::{
    doc_block, docs_of, push_doc_comment, replace_all, replaced, type_name_of, type_name_spec,
    SchemaObjectExt, StringWriter,
};

verus! {

/// How definitions are declared.
#[derive(Debug, Clone, Copy)]
pub struct TypeScriptGeneratorOptions {
    /// Prefix each declaration with `export `.
    pub export_definitions: bool,
    /// Declare plain objects as `interface`s rather than type aliases.
    pub use_interface: bool,
}

impl Default for TypeScriptGeneratorOptions {
    fn default() -> (r: Self)
        ensures
            r.export_definitions,
            r.use_interface,
    {
        TypeScriptGeneratorOptions { export_definitions: true, use_interface: true }
    }
}

/// Why a declaration could not be generated.
#[derive(Debug, PartialEq, Eq)]
pub enum GenerateError {
    /// No schema is stored under the requested id.
    Lookup(String),
    /// No exported name can be derived for the schema stored under the id.
    TypeName(String),
    /// A reference is not an absolute id, even after local definition names
    /// are mapped to `root://`.
    NotAbsolute(String),
    /// A reference points at an id that is not stored.
    MissingReference(String),
}

/// The text of an optional string.
pub open spec fn string_opt_view(s: Option<String>) -> Option<Seq<char>> {
    match s {
        Some(t) => Some(t@),
        None => None,
    }
}

/// The texts of a list of strings.
pub open spec fn texts(v: Seq<String>) -> Seq<Seq<char>> {
    v.map_values(|s: String| s@)
}

/// `parts` with `sep` between each two.
pub open spec fn join(parts: Seq<Seq<char>>, sep: Seq<char>) -> Seq<char>
    decreases parts.len(),
{
    if parts.len() == 0 {
        Seq::empty()
    } else if parts.len() == 1 {
        parts[0]
    } else {
        join(parts.drop_last(), sep) + sep + parts.last()
    }
}

/// `parts`, each followed by a comma.
pub open spec fn with_commas(parts: Seq<Seq<char>>) -> Seq<char>
    decreases parts.len(),
{
    if parts.len() == 0 {
        Seq::empty()
    } else {
        with_commas(parts.drop_last()) + parts.last() + ","@
    }
}

/// A reference with the local definitions prefix mapped to `root://`.
pub open spec fn localized(r: Seq<char>) -> Seq<char> {
    replaced(r, "#/definitions/"@, "root://"@)
}

// Rendering results pair whether rendering succeeds (every reference met on
// the way resolves to a stored schema) with the text produced.

/// A schema used as a type: the target's exported name for a reference, else
/// the schema's own type.
pub open spec fn name_or_type_spec(st: Map<Seq<char>, SchemaObject>, o: SchemaObject) -> (bool, Seq<char>)
    decreases o, 3nat, 0nat,
{
    match o.reference {
        Some(r) => match parsed_url_of(localized(r@)) {
            None => (false, Seq::empty()),
            Some(u) => if st.contains_key(u) {
                match type_name_spec(st[u], Some(u)) {
                    Some(n) => (true, n),
                    None => type_spec(st, o),
                }
            } else {
                (false, Seq::empty())
            },
        },
        None => type_spec(st, o),
    }
}

/// A branch of a composition or an item schema: `unknown` / `never` for the
/// boolean schemas.
pub open spec fn branch_spec(st: Map<Seq<char>, SchemaObject>, b: Schema) -> (bool, Seq<char>)
    decreases b, 4nat, 0nat,
{
    match b {
        Schema::Bool(true) => (true, "unknown"@),
        Schema::Bool(false) => (true, "never"@),
        Schema::Object(o) => name_or_type_spec(st, o),
    }
}

/// Each schema of a list rendered as a branch.
pub open spec fn list_spec(st: Map<Seq<char>, SchemaObject>, xs: Seq<Schema>) -> (bool, Seq<Seq<char>>)
    decreases xs, 5nat, 0nat,
{
    if xs.len() == 0 {
        (true, Seq::empty())
    } else {
        let p = list_spec(st, xs.drop_last());
        let b = branch_spec(st, xs.last());
        (p.0 && b.0, p.1.push(b.1))
    }
}

/// What the value schemas of pattern properties add to an index signature:
/// `unknown` for `true`, nothing for `false`.
pub open spec fn pattern_spec(st: Map<Seq<char>, SchemaObject>, ps: Seq<(String, Schema)>) -> (bool, Seq<Seq<char>>)
    decreases ps, 5nat, 0nat,
{
    if ps.len() == 0 {
        (true, Seq::empty())
    } else {
        let p = pattern_spec(st, ps.drop_last());
        match ps.last().1 {
            Schema::Bool(true) => (p.0, p.1.push("unknown"@)),
            Schema::Bool(false) => p,
            Schema::Object(po) => {
                let t = name_or_type_spec(st, po);
                (p.0 && t.0, p.1.push(t.1))
            },
        }
    }
}

/// The property lines of an object type, in declaration order.
pub open spec fn props_spec(
    st: Map<Seq<char>, SchemaObject>,
    ps: Seq<(String, Schema)>,
    required: Seq<Seq<char>>,
) -> (bool, Seq<char>)
    decreases ps, 5nat, 0nat,
{
    if ps.len() == 0 {
        (true, Seq::empty())
    } else {
        let p = props_spec(st, ps.drop_last(), required);
        let name = ps.last().0@;
        let head = name + (if required.contains(name) { Seq::empty() } else { "?"@ }) + ": "@;
        match ps.last().1 {
            Schema::Bool(true) => (p.0, p.1 + head + "unknown;"@),
            Schema::Bool(false) => (p.0, p.1 + head + "never;"@),
            Schema::Object(po) => {
                let docs = match po.description {
                    Some(d) => doc_block(d@),
                    None => Seq::empty(),
                };
                let t = name_or_type_spec(st, po);
                (p.0 && t.0, p.1 + docs + head + t.1 + ";\n"@)
            },
        }
    }
}

/// The declared instance types of `o`, each rendered.
pub open spec fn types_spec(st: Map<Seq<char>, SchemaObject>, o: SchemaObject, tys: Seq<InstanceType>) -> (bool, Seq<Seq<char>>)
    decreases o, 1nat, tys.len(),
{
    if tys.len() == 0 {
        (true, Seq::empty())
    } else {
        let p = types_spec(st, o, tys.drop_last());
        let t = instance_spec(st, o, tys.last());
        (p.0 && t.0, p.1.push(t.1))
    }
}

/// The contributions of additional properties to an index signature.
pub open spec fn additional_spec(st: Map<Seq<char>, SchemaObject>, a: Option<Box<Schema>>) -> (bool, Seq<Seq<char>>)
    decreases a, 5nat, 0nat,
{
    match a {
        None => (true, Seq::empty()),
        Some(b) => match *b {
            Schema::Bool(true) => (true, seq!["unknown"@]),
            Schema::Bool(false) => (true, Seq::empty()),
            Schema::Object(ao) => {
                let t = name_or_type_spec(st, ao);
                (t.0, seq![t.1])
            },
        },
    }
}

/// `o` rendered as one instance type.
pub open spec fn instance_spec(st: Map<Seq<char>, SchemaObject>, o: SchemaObject, ty: InstanceType) -> (bool, Seq<char>)
    decreases o, 0nat, 0nat,
{
    match ty {
        InstanceType::Null => (true, "null"@),
        InstanceType::Boolean => (true, "boolean"@),
        InstanceType::Number | InstanceType::Integer => (true, "number"@),
        InstanceType::String => (true, "string"@),
        InstanceType::Object => match o.object {
            None => (true, "{\n"@ + "[key: string]: unknown;"@ + "}"@),
            Some(ov) => {
                let a = additional_spec(st, ov.additional_properties);
                let p = pattern_spec(st, ov.pattern_properties@);
                let parts = a.1 + p.1;
                let index = if parts.len() == 0 {
                    Seq::empty()
                } else {
                    "[key: string]: "@ + join(parts, " | "@) + ";\n"@
                };
                let props = props_spec(st, ov.properties@, texts(ov.required@));
                (a.0 && p.0 && props.0, "{\n"@ + index + props.1 + "}"@)
            },
        },
        InstanceType::Array => match o.array {
            Some(Some(ArrayItems::Single(b))) => match *b {
                Schema::Bool(true) => (true, "Array<unknown>"@),
                Schema::Bool(false) => (true, "Array<never>"@),
                Schema::Object(io) => {
                    let t = name_or_type_spec(st, io);
                    (t.0, "Array<"@ + t.1 + ">"@)
                },
            },
            Some(Some(ArrayItems::Tuple(xs))) => {
                let l = list_spec(st, xs@);
                (l.0, "["@ + with_commas(l.1) + "]"@)
            },
            _ => (true, "Array<unknown>"@),
        },
    }
}

/// The branches of an optional list.
pub open spec fn opt_list_spec(st: Map<Seq<char>, SchemaObject>, v: Option<Vec<Schema>>) -> (bool, Seq<Seq<char>>)
    decreases v, 6nat, 0nat,
{
    match v {
        None => (true, Seq::empty()),
        Some(xs) => list_spec(st, xs@),
    }
}

/// The composition of `o`: whether it renders, its text, and whether it has
/// any branch. `oneOf` and `anyOf` branches form one parenthesized union;
/// `allOf` branches an intersection; both present are joined by ` & `.
pub open spec fn composition_spec(st: Map<Seq<char>, SchemaObject>, o: SchemaObject) -> (bool, Seq<char>, bool)
    decreases o, 1nat, 0nat,
{
    match o.subschemas {
        None => (true, Seq::empty(), false),
        Some(sub) => {
            let u1 = opt_list_spec(st, sub.one_of);
            let u2 = opt_list_spec(st, sub.any_of);
            let a = opt_list_spec(st, sub.all_of);
            let union = u1.1 + u2.1;
            let ut = if union.len() == 0 { Seq::empty() } else { "("@ + join(union, " | "@) + ")"@ };
            let it = join(a.1, " & "@);
            let text = if ut.len() > 0 && it.len() > 0 { ut + " & "@ + it } else { ut + it };
            (u1.0 && u2.0 && a.0, text, union.len() + a.1.len() > 0)
        },
    }
}

/// The type of `o` itself: its constant, its enum literals, else its
/// composition refined by its declared instance types, else an object type.
pub open spec fn type_spec(st: Map<Seq<char>, SchemaObject>, o: SchemaObject) -> (bool, Seq<char>)
    decreases o, 2nat, 0nat,
{
    match o.const_value {
        Some(c) => (true, c@),
        None => match o.enum_values {
            Some(vs) => (true, join(texts(vs@), " | "@)),
            None => {
                let c = composition_spec(st, o);
                match o.instance_type {
                    Some(tys) => {
                        let t = types_spec(st, o, tys@);
                        (c.0 && t.0, c.1 + (if c.1.len() > 0 { " & "@ } else { Seq::empty() }) + join(t.1, " | "@))
                    },
                    None => if c.2 {
                        (c.0, c.1)
                    } else {
                        instance_spec(st, o, InstanceType::Object)
                    },
                }
            },
        },
    }
}

/// The exported name of the definition stored under `id`: the override if
/// given, else the name derived from the schema and `id`.
pub open spec fn definition_name(st: Map<Seq<char>, SchemaObject>, id: Seq<char>, name: Option<Seq<char>>) -> Option<Seq<char>> {
    match name {
        Some(n) => Some(n),
        None => type_name_spec(st[id], Some(id)),
    }
}

/// The declaration of the schema stored under `id`, exported as `name`:
/// its doc comment, then an interface for a plain object (when interfaces
/// are used) or else a type alias, then its type.
pub open spec fn definition_spec(
    export: bool,
    interface: bool,
    st: Map<Seq<char>, SchemaObject>,
    id: Seq<char>,
    name: Seq<char>,
) -> (bool, Seq<char>) {
    let s = st[id];
    let docs = match s.description {
        Some(d) => doc_block(d@),
        None => Seq::empty(),
    };
    let export_text = if export { "export "@ } else { Seq::empty() };
    let head = if s.single_object() && interface {
        "interface "@ + name + " "@
    } else {
        "type "@ + name + " = "@
    };
    let body = name_or_type_spec(st, s);
    (body.0, docs + export_text + head + body.1)
}

/// The document of all stored definitions, in the order of `ids`, each
/// followed by a line break; `false` where one of them cannot be generated.
pub open spec fn document_spec(
    export: bool,
    interface: bool,
    st: Map<Seq<char>, SchemaObject>,
    ids: Seq<Seq<char>>,
) -> (bool, Seq<char>)
    decreases ids.len(),
{
    if ids.len() == 0 {
        (true, Seq::empty())
    } else {
        let p = document_spec(export, interface, st, ids.drop_last());
        let id = ids.last();
        match definition_name(st, id, None) {
            None => (false, p.1),
            Some(n) => {
                let d = definition_spec(export, interface, st, id, n);
                (p.0 && d.0, p.1 + d.1 + "\n"@)
            },
        }
    }
}

proof fn lemma_document_prefix(export: bool, interface: bool, st: Map<Seq<char>, SchemaObject>, ids: Seq<Seq<char>>, i: int)
    requires
        0 <= i <= ids.len(),
        document_spec(export, interface, st, ids).0,
    ensures
        document_spec(export, interface, st, ids.take(i)).0,
    decreases ids.len() - i,
{
    if i == ids.len() {
        assert(ids.take(i) =~= ids);
    } else {
        lemma_document_prefix(export, interface, st, ids.drop_last(), i);
        assert(ids.drop_last().take(i) =~= ids.take(i));
    }
}

/// Determinism: the declaration generated for an id depends only on what
/// the store holds and on the options, so generating it twice, or from two
/// generators over equal stores, gives the same text.
pub proof fn lemma_generation_deterministic(
    g1: TypeScriptGenerator<'_>,
    g2: TypeScriptGenerator<'_>,
    id: Seq<char>,
    name: Option<Seq<char>>,
)
    requires
        g1.store() == g2.store(),
        g1.exports() == g2.exports(),
        g1.interfaces() == g2.interfaces(),
    ensures
        definition_name(g1.store(), id, name) == definition_name(g2.store(), id, name),
        definition_name(g1.store(), id, name) is Some ==> definition_spec(
            g1.exports(),
            g1.interfaces(),
            g1.store(),
            id,
            definition_name(g1.store(), id, name)->0,
        ) == definition_spec(
            g2.exports(),
            g2.interfaces(),
            g2.store(),
            id,
            definition_name(g2.store(), id, name)->0,
        ),
{
}

proof fn lemma_list_prefix(st: Map<Seq<char>, SchemaObject>, xs: Seq<Schema>, i: int)
    requires
        0 <= i <= xs.len(),
        list_spec(st, xs).0,
    ensures
        list_spec(st, xs.take(i)).0,
    decreases xs.len() - i,
{
    if i == xs.len() {
        assert(xs.take(i) =~= xs);
    } else {
        lemma_list_prefix(st, xs.drop_last(), i);
        assert(xs.drop_last().take(i) =~= xs.take(i));
    }
}

proof fn lemma_list_len(st: Map<Seq<char>, SchemaObject>, xs: Seq<Schema>)
    ensures
        list_spec(st, xs).1.len() == xs.len(),
    decreases xs.len(),
{
    if xs.len() > 0 {
        lemma_list_len(st, xs.drop_last());
    }
}

proof fn lemma_pattern_prefix(st: Map<Seq<char>, SchemaObject>, ps: Seq<(String, Schema)>, i: int)
    requires
        0 <= i <= ps.len(),
        pattern_spec(st, ps).0,
    ensures
        pattern_spec(st, ps.take(i)).0,
    decreases ps.len() - i,
{
    if i == ps.len() {
        assert(ps.take(i) =~= ps);
    } else {
        lemma_pattern_prefix(st, ps.drop_last(), i);
        assert(ps.drop_last().take(i) =~= ps.take(i));
    }
}

proof fn lemma_props_prefix(st: Map<Seq<char>, SchemaObject>, ps: Seq<(String, Schema)>, req: Seq<Seq<char>>, i: int)
    requires
        0 <= i <= ps.len(),
        props_spec(st, ps, req).0,
    ensures
        props_spec(st, ps.take(i), req).0,
    decreases ps.len() - i,
{
    if i == ps.len() {
        assert(ps.take(i) =~= ps);
    } else {
        lemma_props_prefix(st, ps.drop_last(), req, i);
        assert(ps.drop_last().take(i) =~= ps.take(i));
    }
}

proof fn lemma_types_prefix(st: Map<Seq<char>, SchemaObject>, o: SchemaObject, tys: Seq<InstanceType>, i: int)
    requires
        0 <= i <= tys.len(),
        types_spec(st, o, tys).0,
    ensures
        types_spec(st, o, tys.take(i)).0,
    decreases tys.len() - i,
{
    if i == tys.len() {
        assert(tys.take(i) =~= tys);
    } else {
        lemma_types_prefix(st, o, tys.drop_last(), i);
        assert(tys.drop_last().take(i) =~= tys.take(i));
    }
}

/// Joins `parts` with `sep` between each two.
pub fn join_strings(parts: &Vec<String>, sep: &str) -> (r: String)
    ensures
        r@ == join(texts(parts@), sep@),
{
    let mut out = String::new();
    let mut i: usize = 0;
    assert(texts(parts@).take(0) =~= Seq::<Seq<char>>::empty());
    while i < parts.len()
        invariant
            i <= parts@.len(),
            out@ == join(texts(parts@).take(i as int), sep@),
        decreases parts@.len() - i,
    {
        let ghost ys = texts(parts@).take(i + 1);
        assert(ys.drop_last() =~= texts(parts@).take(i as int));
        if i > 0 {
            out.append(sep);
        }
        out.append(parts[i].as_str());
        i = i + 1;
    }
    assert(texts(parts@).take(parts@.len() as int) =~= texts(parts@));
    out
}

fn commas_strings(parts: &Vec<String>) -> (r: String)
    ensures
        r@ == with_commas(texts(parts@)),
{
    let mut out = String::new();
    let mut i: usize = 0;
    assert(texts(parts@).take(0) =~= Seq::<Seq<char>>::empty());
    while i < parts.len()
        invariant
            i <= parts@.len(),
            out@ == with_commas(texts(parts@).take(i as int)),
        decreases parts@.len() - i,
    {
        let ghost ys = texts(parts@).take(i + 1);
        assert(ys.drop_last() =~= texts(parts@).take(i as int));
        out.append(parts[i].as_str());
        out.append(",");
        i = i + 1;
    }
    assert(texts(parts@).take(parts@.len() as int) =~= texts(parts@));
    out
}

fn is_required(required: &Vec<String>, name: &String) -> (r: bool)
    ensures
        r == texts(required@).contains(name@),
{
    let mut i: usize = 0;
    while i < required.len()
        invariant
            i <= required@.len(),
            forall|j: int| 0 <= j < i ==> texts(required@)[j] != name@,
        decreases required@.len() - i,
    {
        if required[i] == *name {
            assert(texts(required@)[i as int] == name@);
            return true;
        }
        i = i + 1;
    }
    false
}

/// Generates TypeScript declarations for the schemas of a collection.
pub struct TypeScriptGenerator<'a> {
    options: TypeScriptGeneratorOptions,
    collection: &'a Collection,
}

impl<'a> TypeScriptGenerator<'a> {
    /// The store that references are resolved in.
    pub closed spec fn store(&self) -> Map<Seq<char>, SchemaObject> {
        self.collection@
    }

    pub closed spec fn exports(&self) -> bool {
        self.options.export_definitions
    }

    pub closed spec fn interfaces(&self) -> bool {
        self.options.use_interface
    }

    pub closed spec fn wf(&self) -> bool {
        self.collection.wf()
    }

    /// A generator with the default options: exported declarations, plain
    /// objects as interfaces.
    pub fn new(collection: &'a Collection) -> (r: Self)
        ensures
            r.store() == collection@,
            r.wf() == collection.wf(),
            r.exports(),
            r.interfaces(),
    {
        Self::new_with_options(collection, TypeScriptGeneratorOptions::default())
    }

    pub fn new_with_options(collection: &'a Collection, options: TypeScriptGeneratorOptions) -> (r: Self)
        ensures
            r.store() == collection@,
            r.wf() == collection.wf(),
            r.exports() == options.export_definitions,
            r.interfaces() == options.use_interface,
    {
        TypeScriptGenerator { options, collection }
    }

    pub fn collection(&self) -> (r: &'a Collection)
        ensures
            r@ == self.store(),
            r.wf() == self.wf(),
    {
        self.collection
    }

    /// Writes the declaration of the schema stored under `id`, exported as
    /// `name_override` if given. On error nothing is written.
    #[verifier::rlimit(40)]
    pub fn generate_definition(&self, id: &str, name_override: Option<String>, out: &mut StringWriter) -> (r: Result<(), GenerateError>)
        ensures
            !self.store().contains_key(id@) ==> r is Err && r->Err_0 is Lookup && r->Err_0->Lookup_0@ == id@,
            self.store().contains_key(id@) && definition_name(self.store(), id@, string_opt_view(name_override)) is None
                ==> r is Err && r->Err_0 is TypeName && r->Err_0->TypeName_0@ == id@,
            self.store().contains_key(id@) && definition_name(self.store(), id@, string_opt_view(name_override)) is Some
                ==> (r is Ok <==> definition_spec(self.exports(), self.interfaces(), self.store(), id@,
                definition_name(self.store(), id@, string_opt_view(name_override))->0).0),
            r is Ok ==> self.store().contains_key(id@) && final(out).text() == old(out).text() + definition_spec(
                self.exports(),
                self.interfaces(),
                self.store(),
                id@,
                definition_name(self.store(), id@, string_opt_view(name_override))->0,
            ).1,
            r is Err ==> *final(out) == *old(out),
    {
        let schema = match self.collection.get(id) {
            None => return Err(GenerateError::Lookup(String::from_str(id))),
            Some(s) => s,
        };
        let name = match name_override {
            Some(n) => n,
            None => match type_name_of(schema, Some(id)) {
                Some(n) => n,
                None => return Err(GenerateError::TypeName(String::from_str(id))),
            },
        };
        let mut w = StringWriter::new();
        match docs_of(schema) {
            Some(d) => push_doc_comment(&mut w, d),
            None => {},
        }
        if self.options.export_definitions {
            w.push_str("export ");
        }
        if schema.is_single_object() && self.options.use_interface {
            w.push_str("interface ");
            w.push_str(name.as_str());
            w.push_str(" ");
        } else {
            w.push_str("type ");
            w.push_str(name.as_str());
            w.push_str(" = ");
        }
        match self.generate_name_or_type(schema, &mut w) {
            Err(e) => return Err(e),
            Ok(()) => {},
        }
        let text = w.finish();
        out.push_str(text.as_str());
        assert(final(out).text() =~= old(out).text() + definition_spec(
            self.exports(),
            self.interfaces(),
            self.store(),
            id@,
            definition_name(self.store(), id@, string_opt_view(name_override))->0,
        ).1);
        Ok(())
    }

    /// Writes the declaration of every stored schema, in insertion order, each
    /// followed by a line break. Stops at the first that fails.
    pub fn generate_definitions(&self, out: &mut StringWriter) -> (r: Result<(), GenerateError>)
        requires
            self.wf(),
        ensures
            r is Ok <==> document_spec(self.exports(), self.interfaces(), self.store(), self.collection_ids()).0,
            r is Ok ==> final(out).text() == old(out).text() + document_spec(
                self.exports(),
                self.interfaces(),
                self.store(),
                self.collection_ids(),
            ).1,
    {
        let ghost ids = self.collection_ids();
        let ghost start = out.text();
        let n = self.collection.len();
        let mut i: usize = 0;
        assert(ids.take(0) =~= Seq::<Seq<char>>::empty());
        assert(start + Seq::<char>::empty() =~= start);
        while i < n
            invariant
                n == ids.len(),
                ids == self.collection_ids(),
                self.wf(),
                i <= n,
                document_spec(self.exports(), self.interfaces(), self.store(), ids.take(i as int)).0,
                out.text() == start + document_spec(self.exports(), self.interfaces(), self.store(), ids.take(i as int)).1,
            decreases n - i,
        {
            let ghost ys = ids.take(i + 1);
            assert(ys.drop_last() =~= ids.take(i as int));
            assert(ys.last() == ids[i as int]);
            let id = self.collection.id_at(i);
            proof {
                self.collection.lemma_id_stored(i as int);
            }
            match self.generate_definition(id.as_str(), None, out) {
                Err(e) => {
                    proof {
                        if document_spec(self.exports(), self.interfaces(), self.store(), ids).0 {
                            lemma_document_prefix(self.exports(), self.interfaces(), self.store(), ids, i + 1);
                        }
                    }
                    return Err(e);
                },
                Ok(()) => {},
            }
            out.push_str("\n");
            assert(out.text() =~= start + document_spec(self.exports(), self.interfaces(), self.store(), ys).1);
            i = i + 1;
        }
        assert(ids.take(n as int) =~= ids);
        Ok(())
    }

    /// The stored ids, in insertion order.
    pub closed spec fn collection_ids(&self) -> Seq<Seq<char>> {
        self.collection.ids()
    }

    fn write_branch(&self, b: &Schema, out: &mut StringWriter) -> (r: Result<(), GenerateError>)
        ensures
            r is Ok <==> branch_spec(self.store(), *b).0,
            r is Ok ==> final(out).text() == old(out).text() + branch_spec(self.store(), *b).1,
        decreases *b, 4nat, 0nat,
    {
        match b {
            Schema::Bool(v) => {
                if *v {
                    out.push_str("unknown");
                } else {
                    out.push_str("never");
                }
                Ok(())
            },
            Schema::Object(o) => self.generate_name_or_type(o, out),
        }
    }

    fn collect_branches(&self, xs: &Vec<Schema>, parts: &mut Vec<String>) -> (r: Result<(), GenerateError>)
        ensures
            r is Ok <==> list_spec(self.store(), xs@).0,
            r is Ok ==> texts(final(parts)@) == texts(old(parts)@) + list_spec(self.store(), xs@).1,
        decreases xs@, 5nat, 0nat,
    {
        let ghost st = self.store();
        let ghost start = texts(parts@);
        let mut i: usize = 0;
        assert(xs@.take(0) =~= Seq::<Schema>::empty());
        assert(start + Seq::<Seq<char>>::empty() =~= start);
        while i < xs.len()
            invariant
                i <= xs@.len(),
                st == self.store(),
                list_spec(st, xs@.take(i as int)).0,
                texts(parts@) == start + list_spec(st, xs@.take(i as int)).1,
            decreases xs@.len() - i,
        {
            let ghost ys = xs@.take(i + 1);
            assert(ys.drop_last() =~= xs@.take(i as int));
            assert(ys.last() == xs@[i as int]);
            let mut w = StringWriter::new();
            match self.write_branch(&xs[i], &mut w) {
                Err(e) => {
                    proof {
                        if list_spec(st, xs@).0 {
                            lemma_list_prefix(st, xs@, i + 1);
                        }
                    }
                    return Err(e);
                },
                Ok(()) => {},
            }
            let ghost prev = parts@;
            let t = w.finish();
            parts.push(t);
            assert(texts(parts@) =~= texts(prev).push(t@));
            assert(texts(parts@) =~= start + list_spec(st, ys).1);
            i = i + 1;
        }
        assert(xs@.take(xs@.len() as int) =~= xs@);
        Ok(())
    }

    fn collect_patterns(&self, ps: &Vec<(String, Schema)>, parts: &mut Vec<String>) -> (r: Result<(), GenerateError>)
        ensures
            r is Ok <==> pattern_spec(self.store(), ps@).0,
            r is Ok ==> texts(final(parts)@) == texts(old(parts)@) + pattern_spec(self.store(), ps@).1,
        decreases ps@, 5nat, 0nat,
    {
        let ghost st = self.store();
        let ghost start = texts(parts@);
        let mut i: usize = 0;
        assert(ps@.take(0) =~= Seq::<(String, Schema)>::empty());
        assert(start + Seq::<Seq<char>>::empty() =~= start);
        while i < ps.len()
            invariant
                i <= ps@.len(),
                st == self.store(),
                pattern_spec(st, ps@.take(i as int)).0,
                texts(parts@) == start + pattern_spec(st, ps@.take(i as int)).1,
            decreases ps@.len() - i,
        {
            let ghost ys = ps@.take(i + 1);
            assert(ys.drop_last() =~= ps@.take(i as int));
            assert(ys.last() == ps@[i as int]);
            let entry = &ps[i];
            match &entry.1 {
                Schema::Bool(v) => {
                    if *v {
                        let ghost prev = parts@;
                        let t = String::from_str("unknown");
                        parts.push(t);
                        assert(texts(parts@) =~= texts(prev).push(t@));
                        assert(texts(parts@) =~= start + pattern_spec(st, ys).1);
                    } else {
                        assert(pattern_spec(st, ys) == pattern_spec(st, ps@.take(i as int)));
                    }
                },
                Schema::Object(po) => {
                    let mut w = StringWriter::new();
                    match self.generate_name_or_type(po, &mut w) {
                        Err(e) => {
                            proof {
                                if pattern_spec(st, ps@).0 {
                                    lemma_pattern_prefix(st, ps@, i + 1);
                                }
                            }
                            return Err(e);
                        },
                        Ok(()) => {},
                    }
                    let ghost prev = parts@;
                    let t = w.finish();
                    parts.push(t);
                    assert(texts(parts@) =~= texts(prev).push(t@));
                    assert(texts(parts@) =~= start + pattern_spec(st, ys).1);
                },
            }
            i = i + 1;
        }
        assert(ps@.take(ps@.len() as int) =~= ps@);
        Ok(())
    }
    #[verifier::rlimit(40)]
    fn write_props(&self, ps: &Vec<(String, Schema)>, required: &Vec<String>, out: &mut StringWriter) -> (r: Result<(), GenerateError>)
        ensures
            r is Ok <==> props_spec(self.store(), ps@, texts(required@)).0,
            r is Ok ==> final(out).text() == old(out).text() + props_spec(self.store(), ps@, texts(required@)).1,
        decreases ps@, 5nat, 0nat,
    {
        let ghost st = self.store();
        let ghost req = texts(required@);
        let ghost start = out.text();
        let mut i: usize = 0;
        assert(ps@.take(0) =~= Seq::<(String, Schema)>::empty());
        assert(start + Seq::<char>::empty() =~= start);
        while i < ps.len()
            invariant
                i <= ps@.len(),
                st == self.store(),
                req == texts(required@),
                props_spec(st, ps@.take(i as int), req).0,
                out.text() == start + props_spec(st, ps@.take(i as int), req).1,
            decreases ps@.len() - i,
        {
            let ghost ys = ps@.take(i + 1);
            assert(ys.drop_last() =~= ps@.take(i as int));
            assert(ys.last() == ps@[i as int]);
            let ghost before = out.text();
            let entry = &ps[i];
            let required_here = is_required(required, &entry.0);
            match &entry.1 {
                Schema::Bool(v) => {
                    out.push_str(entry.0.as_str());
                    if !required_here {
                        out.push_str("?");
                    }
                    out.push_str(": ");
                    if *v {
                        out.push_str("unknown;");
                    } else {
                        out.push_str("never;");
                    }
                },
                Schema::Object(po) => {
                    match docs_of(po) {
                        Some(d) => push_doc_comment(out, d),
                        None => {},
                    }
                    out.push_str(entry.0.as_str());
                    if !required_here {
                        out.push_str("?");
                    }
                    out.push_str(": ");
                    match self.generate_name_or_type(po, out) {
                        Err(e) => {
                            proof {
                                if props_spec(st, ps@, req).0 {
                                    lemma_props_prefix(st, ps@, req, i + 1);
                                }
                            }
                            return Err(e);
                        },
                        Ok(()) => {},
                    }
                    out.push_str(";\n");
                },
            }
            assert(out.text() =~= start + props_spec(st, ys, req).1);
            i = i + 1;
        }
        assert(ps@.take(ps@.len() as int) =~= ps@);
        Ok(())
    }

    fn collect_additional(&self, a: &Option<Box<Schema>>, parts: &mut Vec<String>) -> (r: Result<(), GenerateError>)
        ensures
            r is Ok <==> additional_spec(self.store(), *a).0,
            r is Ok ==> texts(final(parts)@) == texts(old(parts)@) + additional_spec(self.store(), *a).1,
        decreases *a, 5nat, 0nat,
    {
        match a {
            None => {
                assert(texts(parts@) + Seq::<Seq<char>>::empty() =~= texts(parts@));
                Ok(())
            },
            Some(b) => match &**b {
                Schema::Bool(v) => {
                    if *v {
                        parts.push(String::from_str("unknown"));
                        assert(texts(final(parts)@) =~= texts(old(parts)@) + seq!["unknown"@]);
                    } else {
                        assert(texts(parts@) + Seq::<Seq<char>>::empty() =~= texts(parts@));
                    }
                    Ok(())
                },
                Schema::Object(ao) => {
                    let mut w = StringWriter::new();
                    match self.generate_name_or_type(ao, &mut w) {
                        Err(e) => return Err(e),
                        Ok(()) => {},
                    }
                    parts.push(w.finish());
                    assert(texts(final(parts)@) =~= texts(old(parts)@) + additional_spec(self.store(), *a).1);
                    Ok(())
                },
            },
        }
    }

    fn collect_types(&self, o: &SchemaObject, tys: &Vec<InstanceType>, parts: &mut Vec<String>) -> (r: Result<(), GenerateError>)
        ensures
            r is Ok <==> types_spec(self.store(), *o, tys@).0,
            r is Ok ==> texts(final(parts)@) == texts(old(parts)@) + types_spec(self.store(), *o, tys@).1,
        decreases *o, 1nat, tys@.len(),
    {
        let ghost st = self.store();
        let ghost start = texts(parts@);
        let mut i: usize = 0;
        assert(tys@.take(0) =~= Seq::<InstanceType>::empty());
        assert(start + Seq::<Seq<char>>::empty() =~= start);
        while i < tys.len()
            invariant
                i <= tys@.len(),
                st == self.store(),
                types_spec(st, *o, tys@.take(i as int)).0,
                texts(parts@) == start + types_spec(st, *o, tys@.take(i as int)).1,
            decreases tys@.len() - i,
        {
            let ghost ys = tys@.take(i + 1);
            assert(ys.drop_last() =~= tys@.take(i as int));
            assert(ys.last() == tys@[i as int]);
            let mut w = StringWriter::new();
            match self.generate_instance_type(o, tys[i], &mut w) {
                Err(e) => {
                    proof {
                        if types_spec(st, *o, tys@).0 {
                            lemma_types_prefix(st, *o, tys@, i + 1);
                        }
                    }
                    return Err(e);
                },
                Ok(()) => {},
            }
            let ghost prev = parts@;
            let t = w.finish();
            parts.push(t);
            assert(texts(parts@) =~= texts(prev).push(t@));
            assert(texts(parts@) =~= start + types_spec(st, *o, ys).1);
            i = i + 1;
        }
        assert(tys@.take(tys@.len() as int) =~= tys@);
        Ok(())
    }

    fn generate_instance_type(&self, o: &SchemaObject, ty: InstanceType, out: &mut StringWriter) -> (r: Result<(), GenerateError>)
        ensures
            r is Ok <==> instance_spec(self.store(), *o, ty).0,
            r is Ok ==> final(out).text() == old(out).text() + instance_spec(self.store(), *o, ty).1,
        decreases *o, 0nat, 0nat,
    {
        match ty {
            InstanceType::Null => out.push_str("null"),
            InstanceType::Boolean => out.push_str("boolean"),
            InstanceType::Number | InstanceType::Integer => out.push_str("number"),
            InstanceType::String => out.push_str("string"),
            InstanceType::Object => match &o.object {
                None => {
                    out.push_str("{\n");
                    out.push_str("[key: string]: unknown;");
                    out.push_str("}");
                },
                Some(ov) => {
                    let mut parts: Vec<String> = Vec::new();
                    match self.collect_additional(&ov.additional_properties, &mut parts) {
                        Err(e) => return Err(e),
                        Ok(()) => {},
                    }
                    match self.collect_patterns(&ov.pattern_properties, &mut parts) {
                        Err(e) => return Err(e),
                        Ok(()) => {},
                    }
                    assert(texts(parts@) =~= additional_spec(self.store(), ov.additional_properties).1
                        + pattern_spec(self.store(), ov.pattern_properties@).1);
                    out.push_str("{\n");
                    if parts.len() > 0 {
                        out.push_str("[key: string]: ");
                        let j = join_strings(&parts, " | ");
                        out.push_str(j.as_str());
                        out.push_str(";\n");
                    }
                    match self.write_props(&ov.properties, &ov.required, out) {
                        Err(e) => return Err(e),
                        Ok(()) => {},
                    }
                    out.push_str("}");
                },
            },
            InstanceType::Array => match &o.array {
                Some(Some(ArrayItems::Single(b))) => match &**b {
                    Schema::Bool(v) => {
                        if *v {
                            out.push_str("Array<unknown>");
                        } else {
                            out.push_str("Array<never>");
                        }
                    },
                    Schema::Object(io) => {
                        out.push_str("Array<");
                        match self.generate_name_or_type(io, out) {
                            Err(e) => return Err(e),
                            Ok(()) => {},
                        }
                        out.push_str(">");
                    },
                },
                Some(Some(ArrayItems::Tuple(xs))) => {
                    let mut parts: Vec<String> = Vec::new();
                    match self.collect_branches(xs, &mut parts) {
                        Err(e) => return Err(e),
                        Ok(()) => {},
                    }
                    assert(texts(parts@) =~= list_spec(self.store(), xs@).1);
                    out.push_str("[");
                    let c = commas_strings(&parts);
                    out.push_str(c.as_str());
                    out.push_str("]");
                },
                _ => out.push_str("Array<unknown>"),
            },
        }
        assert(final(out).text() =~= old(out).text() + instance_spec(self.store(), *o, ty).1);
        Ok(())
    }

    fn collect_opt_branches(&self, v: &Option<Vec<Schema>>, parts: &mut Vec<String>) -> (r: Result<(), GenerateError>)
        ensures
            r is Ok <==> opt_list_spec(self.store(), *v).0,
            r is Ok ==> texts(final(parts)@) == texts(old(parts)@) + opt_list_spec(self.store(), *v).1,
        decreases *v, 6nat, 0nat,
    {
        match v {
            None => {
                assert(texts(parts@) + Seq::<Seq<char>>::empty() =~= texts(parts@));
                Ok(())
            },
            Some(xs) => self.collect_branches(xs, parts),
        }
    }

    fn generate_composition(&self, o: &SchemaObject, out: &mut StringWriter) -> (r: Result<bool, GenerateError>)
        ensures
            r is Ok <==> composition_spec(self.store(), *o).0,
            !composition_spec(self.store(), *o).0 ==> composition_spec(self.store(), *o).2,
            r is Ok ==> final(out).text() == old(out).text() + composition_spec(self.store(), *o).1
                && r->Ok_0 == composition_spec(self.store(), *o).2,
        decreases *o, 1nat, 0nat,
    {
        let ghost st = self.store();
        match &o.subschemas {
            None => {
                assert(old(out).text() + Seq::<char>::empty() =~= old(out).text());
                Ok(false)
            },
            Some(sub) => {
                proof {
                    if sub.one_of is Some {
                        lemma_list_len(st, sub.one_of->0@);
                    }
                    if sub.any_of is Some {
                        lemma_list_len(st, sub.any_of->0@);
                    }
                    if sub.all_of is Some {
                        lemma_list_len(st, sub.all_of->0@);
                    }
                }
                let mut union: Vec<String> = Vec::new();
                let mut inter: Vec<String> = Vec::new();
                match self.collect_opt_branches(&sub.one_of, &mut union) {
                    Err(e) => return Err(e),
                    Ok(()) => {},
                }
                match self.collect_opt_branches(&sub.any_of, &mut union) {
                    Err(e) => return Err(e),
                    Ok(()) => {},
                }
                match self.collect_opt_branches(&sub.all_of, &mut inter) {
                    Err(e) => return Err(e),
                    Ok(()) => {},
                }
                assert(texts(union@) =~= opt_list_spec(st, sub.one_of).1 + opt_list_spec(st, sub.any_of).1);
                assert(texts(inter@) =~= opt_list_spec(st, sub.all_of).1);
                let it = join_strings(&inter, " & ");
                proof {
                    reveal_strlit("(");
                }
                if union.len() > 0 {
                    let j = join_strings(&union, " | ");
                    out.push_str("(");
                    out.push_str(j.as_str());
                    out.push_str(")");
                    if !it.as_str().is_empty() {
                        out.push_str(" & ");
                    }
                }
                out.push_str(it.as_str());
                assert(final(out).text() =~= old(out).text() + composition_spec(st, *o).1);
                Ok(union.len() > 0 || inter.len() > 0)
            },
        }
    }

    /// Writes the type of `o` itself (see [`type_spec`]).
    pub fn generate_type(&self, o: &SchemaObject, out: &mut StringWriter) -> (r: Result<(), GenerateError>)
        ensures
            r is Ok <==> type_spec(self.store(), *o).0,
            r is Ok ==> final(out).text() == old(out).text() + type_spec(self.store(), *o).1,
        decreases *o, 2nat, 0nat,
    {
        match &o.const_value {
            Some(c) => {
                out.push_str(c.as_str());
                return Ok(());
            },
            None => {},
        }
        match &o.enum_values {
            Some(vs) => {
                let j = join_strings(vs, " | ");
                out.push_str(j.as_str());
                return Ok(());
            },
            None => {},
        }
        let mut comp = StringWriter::new();
        let written = match self.generate_composition(o, &mut comp) {
            Err(e) => return Err(e),
            Ok(w) => w,
        };
        let ctext = comp.finish();
        match &o.instance_type {
            Some(tys) => {
                let mut parts: Vec<String> = Vec::new();
                match self.collect_types(o, tys, &mut parts) {
                    Err(e) => return Err(e),
                    Ok(()) => {},
                }
                assert(texts(parts@) =~= types_spec(self.store(), *o, tys@).1);
                out.push_str(ctext.as_str());
                if !ctext.as_str().is_empty() {
                    out.push_str(" & ");
                }
                let j = join_strings(&parts, " | ");
                out.push_str(j.as_str());
                assert(final(out).text() =~= old(out).text() + type_spec(self.store(), *o).1);
                Ok(())
            },
            None => {
                if written {
                    out.push_str(ctext.as_str());
                    Ok(())
                } else {
                    self.generate_instance_type(o, InstanceType::Object, out)
                }
            },
        }
    }

    /// Writes `o` as a type: the exported name of the schema it references,
    /// else its own type (see [`name_or_type_spec`]).
    pub fn generate_name_or_type(&self, o: &SchemaObject, out: &mut StringWriter) -> (r: Result<(), GenerateError>)
        ensures
            r is Ok <==> name_or_type_spec(self.store(), *o).0,
            r is Ok ==> final(out).text() == old(out).text() + name_or_type_spec(self.store(), *o).1,
            o.reference is Some && parsed_url_of(localized(o.reference->0@)) is None
                ==> r == Err::<(), GenerateError>(GenerateError::NotAbsolute(o.reference->0)),
            o.reference is Some && parsed_url_of(localized(o.reference->0@)) is Some
                && !self.store().contains_key(parsed_url_of(localized(o.reference->0@))->0)
                ==> r is Err && r->Err_0 is MissingReference
                && r->Err_0->MissingReference_0@ == parsed_url_of(localized(o.reference->0@))->0,
            o.reference is Some && (parsed_url_of(localized(o.reference->0@)) is None
                || !self.store().contains_key(parsed_url_of(localized(o.reference->0@))->0))
                ==> *final(out) == *old(out),
        decreases *o, 3nat, 0nat,
    {
        match &o.reference {
            Some(r) => {
                proof {
                    reveal_strlit("#/definitions/");
                }
                let local = replace_all(r.as_str(), "#/definitions/", "root://");
                match parse_url(local.as_str()) {
                    Err(_) => Err(GenerateError::NotAbsolute(r.clone())),
                    Ok(u) => match self.collection.get(u.as_str()) {
                        None => Err(GenerateError::MissingReference(u)),
                        Some(target) => match type_name_of(target, Some(u.as_str())) {
                            Some(n) => {
                                out.push_str(n.as_str());
                                Ok(())
                            },
                            None => self.generate_type(o, out),
                        },
                    },
                }
            },
            None => self.generate_type(o, out),
        }
    }
}

} // verus!