//! The two walks over a schema tree that ingestion needs: collecting every
//! reference, and replacing references through a rename table. A reference
//! node is a leaf of both walks: neither descends into it.
use vstd::prelude::*;
use crate::schema::{ArrayItems, ObjectValidation, Schema, SchemaObject, SubschemaValidation};

verus! {

/// The texts of a list of strings.
pub open spec fn string_texts(v: Seq<String>) -> Seq<Seq<char>> {
    v.map_values(|s: String| s@)
}

// ---- Which references a schema holds ----

pub open spec fn has_ref(s: Schema, r: Seq<char>) -> bool
    decreases s, 2nat,
{
    match s {
        Schema::Bool(_) => false,
        Schema::Object(o) => obj_has_ref(o, r),
    }
}

/// Whether `r` occurs as a reference in `o`: `o`'s own reference if it has
/// one, else a reference in its compositions, object shape or array items.
pub open spec fn obj_has_ref(o: SchemaObject, r: Seq<char>) -> bool
    decreases o, 1nat,
{
    match o.reference {
        Some(x) => x@ == r,
        None => sub_has_ref(o.subschemas, r) || objv_has_ref(o.object, r) || arr_has_ref(o.array, r),
    }
}

pub open spec fn list_has_ref(xs: Seq<Schema>, r: Seq<char>) -> bool
    decreases xs, 0nat,
{
    xs.len() > 0 && (list_has_ref(xs.drop_last(), r) || has_ref(xs.last(), r))
}

pub open spec fn pairs_has_ref(ps: Seq<(String, Schema)>, r: Seq<char>) -> bool
    decreases ps, 0nat,
{
    ps.len() > 0 && (pairs_has_ref(ps.drop_last(), r) || has_ref(ps.last().1, r))
}

pub open spec fn optlist_has_ref(v: Option<Vec<Schema>>, r: Seq<char>) -> bool
    decreases v, 0nat,
{
    match v {
        Some(xs) => list_has_ref(xs@, r),
        None => false,
    }
}

pub open spec fn box_has_ref(b: Option<Box<Schema>>, r: Seq<char>) -> bool
    decreases b, 0nat,
{
    match b {
        Some(x) => has_ref(*x, r),
        None => false,
    }
}

pub open spec fn sub_has_ref(s: Option<SubschemaValidation>, r: Seq<char>) -> bool
    decreases s, 0nat,
{
    match s {
        Some(sub) => optlist_has_ref(sub.one_of, r) || optlist_has_ref(sub.any_of, r)
            || optlist_has_ref(sub.all_of, r),
        None => false,
    }
}

pub open spec fn objv_has_ref(v: Option<ObjectValidation>, r: Seq<char>) -> bool
    decreases v, 0nat,
{
    match v {
        Some(ov) => pairs_has_ref(ov.properties@, r) || box_has_ref(ov.additional_properties, r)
            || pairs_has_ref(ov.pattern_properties@, r),
        None => false,
    }
}

pub open spec fn arr_has_ref(a: Option<Option<ArrayItems>>, r: Seq<char>) -> bool
    decreases a, 0nat,
{
    match a {
        Some(Some(ArrayItems::Single(b))) => has_ref(*b, r),
        Some(Some(ArrayItems::Tuple(xs))) => list_has_ref(xs@, r),
        _ => false,
    }
}

// ---- Rename tables ----

/// The target that a rename table gives `r` (the last entry for it wins).
pub open spec fn table_lookup(t: Seq<(String, String)>, r: Seq<char>) -> Option<Seq<char>>
    decreases t.len(),
{
    if t.len() == 0 {
        None
    } else if t.last().0@ == r {
        Some(t.last().1@)
    } else {
        table_lookup(t.drop_last(), r)
    }
}

/// Where the keys of `t` are distinct, each entry is what `t` gives its key.
pub proof fn lemma_lookup_distinct(t: Seq<(String, String)>, j: int)
    requires
        0 <= j < t.len(),
        forall|a: int, b: int| 0 <= a < b < t.len() ==> t[a].0@ != t[b].0@,
    ensures
        table_lookup(t, t[j].0@) == Some(t[j].1@),
    decreases t.len(),
{
    if j < t.len() - 1 {
        assert(t.last().0@ != t[j].0@);
        lemma_lookup_distinct(t.drop_last(), j);
    }
}

/// `r` renamed through `t`; unchanged where `t` has no entry for it.
pub open spec fn renamed(t: Seq<(String, String)>, r: Seq<char>) -> Seq<char> {
    match table_lookup(t, r) {
        Some(x) => x,
        None => r,
    }
}

// ---- `b` is `a` with its references renamed through `t` ----

pub open spec fn rw(a: Schema, b: Schema, t: Seq<(String, String)>) -> bool
    decreases a, 2nat,
{
    match a {
        Schema::Bool(x) => b == Schema::Bool(x),
        Schema::Object(x) => b is Object && rw_obj(x, b->Object_0, t),
    }
}

/// `b` is `a` with its references renamed: a reference node keeps everything
/// but its renamed reference; any other node keeps its own keywords and has
/// its subschemas renamed.
pub open spec fn rw_obj(a: SchemaObject, b: SchemaObject, t: Seq<(String, String)>) -> bool
    decreases a, 1nat,
{
    &&& b.id == a.id
    &&& b.title == a.title
    &&& b.description == a.description
    &&& b.instance_type == a.instance_type
    &&& b.const_value == a.const_value
    &&& b.enum_values == a.enum_values
    &&& match a.reference {
        Some(x) => {
            &&& b.reference is Some
            &&& b.reference->0@ == renamed(t, x@)
            &&& b.subschemas == a.subschemas
            &&& b.object == a.object
            &&& b.array == a.array
        },
        None => {
            &&& b.reference is None
            &&& rw_sub(a.subschemas, b.subschemas, t)
            &&& rw_objv(a.object, b.object, t)
            &&& rw_arr(a.array, b.array, t)
        },
    }
}

pub open spec fn rw_list(a: Seq<Schema>, b: Seq<Schema>, t: Seq<(String, String)>) -> bool
    decreases a, 0nat,
{
    &&& a.len() == b.len()
    &&& a.len() > 0 ==> rw_list(a.drop_last(), b.drop_last(), t) && rw(a.last(), b.last(), t)
}

pub open spec fn rw_pairs(a: Seq<(String, Schema)>, b: Seq<(String, Schema)>, t: Seq<(String, String)>) -> bool
    decreases a, 0nat,
{
    &&& a.len() == b.len()
    &&& a.len() > 0 ==> rw_pairs(a.drop_last(), b.drop_last(), t) && b.last().0 == a.last().0
        && rw(a.last().1, b.last().1, t)
}

pub open spec fn rw_optlist(a: Option<Vec<Schema>>, b: Option<Vec<Schema>>, t: Seq<(String, String)>) -> bool
    decreases a, 0nat,
{
    match a {
        Some(x) => b is Some && rw_list(x@, b->0@, t),
        None => b is None,
    }
}

pub open spec fn rw_box(a: Option<Box<Schema>>, b: Option<Box<Schema>>, t: Seq<(String, String)>) -> bool
    decreases a, 0nat,
{
    match a {
        Some(x) => b is Some && rw(*x, *b->0, t),
        None => b is None,
    }
}

pub open spec fn rw_sub(a: Option<SubschemaValidation>, b: Option<SubschemaValidation>, t: Seq<(String, String)>) -> bool
    decreases a, 0nat,
{
    match a {
        Some(x) => b is Some && rw_optlist(x.one_of, b->0.one_of, t) && rw_optlist(x.any_of, b->0.any_of, t)
            && rw_optlist(x.all_of, b->0.all_of, t),
        None => b is None,
    }
}

pub open spec fn rw_objv(a: Option<ObjectValidation>, b: Option<ObjectValidation>, t: Seq<(String, String)>) -> bool
    decreases a, 0nat,
{
    match a {
        Some(x) => b is Some && b->0.required == x.required && rw_pairs(x.properties@, b->0.properties@, t)
            && rw_box(x.additional_properties, b->0.additional_properties, t)
            && rw_pairs(x.pattern_properties@, b->0.pattern_properties@, t),
        None => b is None,
    }
}

pub open spec fn rw_arr(a: Option<Option<ArrayItems>>, b: Option<Option<ArrayItems>>, t: Seq<(String, String)>) -> bool
    decreases a, 0nat,
{
    match a {
        Some(Some(ArrayItems::Single(x))) => b matches Some(Some(ArrayItems::Single(y))) && rw(*x, *y, t),
        Some(Some(ArrayItems::Tuple(xs))) => b matches Some(Some(ArrayItems::Tuple(ys))) && rw_list(xs@, ys@, t),
        Some(None) => b == Some(None::<ArrayItems>),
        None => b is None,
    }
}

// ---- Every reference of a renamed schema comes from one of its source ----

/// A reference of `b`, the renaming of `a`, is the renaming of a reference of
/// `a`: the result is that reference.
pub proof fn lemma_rw_source(a: Schema, b: Schema, t: Seq<(String, String)>, r: Seq<char>) -> (o: Seq<char>)
    requires
        rw(a, b, t),
        has_ref(b, r),
    ensures
        has_ref(a, o),
        r == renamed(t, o),
    decreases a, 2nat,
{
    match a {
        Schema::Bool(_) => {
            assert(false);
            r
        },
        Schema::Object(x) => lemma_obj_source(x, b->Object_0, t, r),
    }
}

pub proof fn lemma_obj_source(a: SchemaObject, b: SchemaObject, t: Seq<(String, String)>, r: Seq<char>) -> (o: Seq<char>)
    requires
        rw_obj(a, b, t),
        obj_has_ref(b, r),
    ensures
        obj_has_ref(a, o),
        r == renamed(t, o),
    decreases a, 1nat,
{
    match a.reference {
        Some(x) => x@,
        None => {
            if sub_has_ref(b.subschemas, r) {
                lemma_sub_source(a.subschemas, b.subschemas, t, r)
            } else if objv_has_ref(b.object, r) {
                lemma_objv_source(a.object, b.object, t, r)
            } else {
                lemma_arr_source(a.array, b.array, t, r)
            }
        },
    }
}

proof fn lemma_list_source(a: Seq<Schema>, b: Seq<Schema>, t: Seq<(String, String)>, r: Seq<char>) -> (o: Seq<char>)
    requires
        rw_list(a, b, t),
        list_has_ref(b, r),
    ensures
        list_has_ref(a, o),
        r == renamed(t, o),
    decreases a, 0nat,
{
    if list_has_ref(b.drop_last(), r) {
        lemma_list_source(a.drop_last(), b.drop_last(), t, r)
    } else {
        lemma_rw_source(a.last(), b.last(), t, r)
    }
}

proof fn lemma_pairs_source(a: Seq<(String, Schema)>, b: Seq<(String, Schema)>, t: Seq<(String, String)>, r: Seq<char>) -> (o: Seq<char>)
    requires
        rw_pairs(a, b, t),
        pairs_has_ref(b, r),
    ensures
        pairs_has_ref(a, o),
        r == renamed(t, o),
    decreases a, 0nat,
{
    if pairs_has_ref(b.drop_last(), r) {
        lemma_pairs_source(a.drop_last(), b.drop_last(), t, r)
    } else {
        lemma_rw_source(a.last().1, b.last().1, t, r)
    }
}

proof fn lemma_optlist_source(a: Option<Vec<Schema>>, b: Option<Vec<Schema>>, t: Seq<(String, String)>, r: Seq<char>) -> (o: Seq<char>)
    requires
        rw_optlist(a, b, t),
        optlist_has_ref(b, r),
    ensures
        optlist_has_ref(a, o),
        r == renamed(t, o),
    decreases a, 0nat,
{
    match a {
        Some(x) => lemma_list_source(x@, b->0@, t, r),
        None => r,
    }
}

proof fn lemma_sub_source(a: Option<SubschemaValidation>, b: Option<SubschemaValidation>, t: Seq<(String, String)>, r: Seq<char>) -> (o: Seq<char>)
    requires
        rw_sub(a, b, t),
        sub_has_ref(b, r),
    ensures
        sub_has_ref(a, o),
        r == renamed(t, o),
    decreases a, 0nat,
{
    match a {
        Some(x) => {
            let y = b->0;
            if optlist_has_ref(y.one_of, r) {
                lemma_optlist_source(x.one_of, y.one_of, t, r)
            } else if optlist_has_ref(y.any_of, r) {
                lemma_optlist_source(x.any_of, y.any_of, t, r)
            } else {
                lemma_optlist_source(x.all_of, y.all_of, t, r)
            }
        },
        None => r,
    }
}

proof fn lemma_objv_source(a: Option<ObjectValidation>, b: Option<ObjectValidation>, t: Seq<(String, String)>, r: Seq<char>) -> (o: Seq<char>)
    requires
        rw_objv(a, b, t),
        objv_has_ref(b, r),
    ensures
        objv_has_ref(a, o),
        r == renamed(t, o),
    decreases a, 0nat,
{
    match a {
        Some(x) => {
            let y = b->0;
            if pairs_has_ref(y.properties@, r) {
                lemma_pairs_source(x.properties@, y.properties@, t, r)
            } else if box_has_ref(y.additional_properties, r) {
                match x.additional_properties {
                    Some(xb) => lemma_rw_source(*xb, *y.additional_properties->0, t, r),
                    None => r,
                }
            } else {
                lemma_pairs_source(x.pattern_properties@, y.pattern_properties@, t, r)
            }
        },
        None => r,
    }
}

proof fn lemma_arr_source(a: Option<Option<ArrayItems>>, b: Option<Option<ArrayItems>>, t: Seq<(String, String)>, r: Seq<char>) -> (o: Seq<char>)
    requires
        rw_arr(a, b, t),
        arr_has_ref(b, r),
    ensures
        arr_has_ref(a, o),
        r == renamed(t, o),
    decreases a, 0nat,
{
    match a {
        Some(Some(ArrayItems::Single(x))) => match b {
            Some(Some(ArrayItems::Single(y))) => lemma_rw_source(*x, *y, t, r),
            _ => r,
        },
        Some(Some(ArrayItems::Tuple(xs))) => match b {
            Some(Some(ArrayItems::Tuple(ys))) => lemma_list_source(xs@, ys@, t, r),
            _ => r,
        },
        _ => r,
    }
}

// ---- Collecting references ----

/// `new` holds what `old` held and the strings that `p` accepts, nothing
/// else, each once.
pub open spec fn grown(old: Seq<String>, new: Seq<String>, p: spec_fn(Seq<char>) -> bool) -> bool {
    &&& string_texts(new).no_duplicates()
    &&& forall|x: Seq<char>| #[trigger] string_texts(new).contains(x) <==> string_texts(old).contains(x) || p(x)
}

fn push_distinct(found: &mut Vec<String>, r: &String)
    requires
        string_texts(old(found)@).no_duplicates(),
    ensures
        grown(old(found)@, final(found)@, |x: Seq<char>| x == r@),
{
    let mut i: usize = 0;
    while i < found.len()
        invariant
            i <= found@.len(),
            found@ == old(found)@,
            string_texts(found@).no_duplicates(),
            forall|j: int| 0 <= j < i ==> string_texts(found@)[j] != r@,
        decreases found@.len() - i,
    {
        if found[i] == *r {
            assert(string_texts(found@)[i as int] == r@);
            assert(string_texts(found@).contains(r@));
            assert forall|x: Seq<char>| #[trigger] string_texts(found@).contains(x) <==> string_texts(old(found)@).contains(x) || x == r@ by {}
            return;
        }
        i = i + 1;
    }
    let ghost prev = found@;
    found.push(r.clone());
    assert(string_texts(found@) =~= string_texts(prev).push(r@));
    assert(!string_texts(prev).contains(r@));
    assert forall|x: Seq<char>| #[trigger] string_texts(found@).contains(x) <==> string_texts(prev).contains(x) || x == r@ by {
        if string_texts(found@).contains(x) && x != r@ {
            let j = choose|j: int| 0 <= j < string_texts(found@).len() && string_texts(found@)[j] == x;
            assert(j < prev.len());
            assert(string_texts(prev)[j] == x);
        }
        if string_texts(prev).contains(x) {
            let j = choose|j: int| 0 <= j < string_texts(prev).len() && string_texts(prev)[j] == x;
            assert(string_texts(found@)[j] == x);
        }
        if x == r@ {
            assert(string_texts(found@)[prev.len() as int] == x);
        }
    }
    assert forall|a: int, b: int| 0 <= a < b < string_texts(found@).len() implies string_texts(found@)[a] != string_texts(found@)[b] by {
        if b == prev.len() {
            assert(string_texts(prev)[a] != r@);
        } else {
            assert(string_texts(prev)[a] != string_texts(prev)[b]);
        }
    }
}

/// Every distinct reference in `o`, each once.
pub fn collect_references(o: &SchemaObject) -> (r: Vec<String>)
    ensures
        string_texts(r@).no_duplicates(),
        forall|x: Seq<char>| #[trigger] string_texts(r@).contains(x) <==> obj_has_ref(*o, x),
{
    let mut found: Vec<String> = Vec::new();
    assert(string_texts(found@) =~= Seq::<Seq<char>>::empty());
    collect_obj(o, &mut found);
    found
}

fn collect_schema(s: &Schema, found: &mut Vec<String>)
    requires
        string_texts(old(found)@).no_duplicates(),
    ensures
        grown(old(found)@, final(found)@, |x: Seq<char>| has_ref(*s, x)),
    decreases *s, 2nat,
{
    match s {
        Schema::Bool(_) => {},
        Schema::Object(o) => collect_obj(o, found),
    }
}

fn collect_obj(o: &SchemaObject, found: &mut Vec<String>)
    requires
        string_texts(old(found)@).no_duplicates(),
    ensures
        grown(old(found)@, final(found)@, |x: Seq<char>| obj_has_ref(*o, x)),
    decreases *o, 1nat,
{
    match &o.reference {
        Some(r) => push_distinct(found, r),
        None => {
            let ghost f0 = found@;
            collect_sub(&o.subschemas, found);
            let ghost f1 = found@;
            collect_objv(&o.object, found);
            let ghost f2 = found@;
            collect_arr(&o.array, found);
            assert forall|x: Seq<char>| #[trigger] string_texts(found@).contains(x) <==> string_texts(f0).contains(x) || obj_has_ref(*o, x) by {
                assert(string_texts(f1).contains(x) <==> string_texts(f0).contains(x) || sub_has_ref(o.subschemas, x));
                assert(string_texts(f2).contains(x) <==> string_texts(f1).contains(x) || objv_has_ref(o.object, x));
                assert(string_texts(found@).contains(x) <==> string_texts(f2).contains(x) || arr_has_ref(o.array, x));
            }
        },
    }
}

fn collect_list(xs: &Vec<Schema>, found: &mut Vec<String>)
    requires
        string_texts(old(found)@).no_duplicates(),
    ensures
        grown(old(found)@, final(found)@, |x: Seq<char>| list_has_ref(xs@, x)),
    decreases xs@, 0nat,
{
    let ghost f0 = found@;
    let mut i: usize = 0;
    assert forall|x: Seq<char>| !list_has_ref(#[trigger] xs@.take(0), x) by {}
    while i < xs.len()
        invariant
            i <= xs@.len(),
            grown(f0, found@, |x: Seq<char>| list_has_ref(xs@.take(i as int), x)),
        decreases xs@.len() - i,
    {
        let ghost ys = xs@.take(i + 1);
        assert(ys.drop_last() =~= xs@.take(i as int));
        assert(ys.last() == xs@[i as int]);
        let ghost before = found@;
        collect_schema(&xs[i], found);
        assert forall|x: Seq<char>| #[trigger] string_texts(found@).contains(x) <==> string_texts(f0).contains(x) || list_has_ref(ys, x) by {
            assert(string_texts(before).contains(x) <==> string_texts(f0).contains(x) || list_has_ref(xs@.take(i as int), x));
        }
        i = i + 1;
    }
    assert(xs@.take(xs@.len() as int) =~= xs@);
}

fn collect_pairs(ps: &Vec<(String, Schema)>, found: &mut Vec<String>)
    requires
        string_texts(old(found)@).no_duplicates(),
    ensures
        grown(old(found)@, final(found)@, |x: Seq<char>| pairs_has_ref(ps@, x)),
    decreases ps@, 0nat,
{
    let ghost f0 = found@;
    let mut i: usize = 0;
    assert forall|x: Seq<char>| !pairs_has_ref(#[trigger] ps@.take(0), x) by {}
    while i < ps.len()
        invariant
            i <= ps@.len(),
            grown(f0, found@, |x: Seq<char>| pairs_has_ref(ps@.take(i as int), x)),
        decreases ps@.len() - i,
    {
        let ghost ys = ps@.take(i + 1);
        assert(ys.drop_last() =~= ps@.take(i as int));
        assert(ys.last() == ps@[i as int]);
        let ghost before = found@;
        collect_schema(&ps[i].1, found);
        assert forall|x: Seq<char>| #[trigger] string_texts(found@).contains(x) <==> string_texts(f0).contains(x) || pairs_has_ref(ys, x) by {
            assert(string_texts(before).contains(x) <==> string_texts(f0).contains(x) || pairs_has_ref(ps@.take(i as int), x));
        }
        i = i + 1;
    }
    assert(ps@.take(ps@.len() as int) =~= ps@);
}

fn collect_optlist(v: &Option<Vec<Schema>>, found: &mut Vec<String>)
    requires
        string_texts(old(found)@).no_duplicates(),
    ensures
        grown(old(found)@, final(found)@, |x: Seq<char>| optlist_has_ref(*v, x)),
    decreases *v, 0nat,
{
    match v {
        Some(xs) => collect_list(xs, found),
        None => {},
    }
}

fn collect_sub(s: &Option<SubschemaValidation>, found: &mut Vec<String>)
    requires
        string_texts(old(found)@).no_duplicates(),
    ensures
        grown(old(found)@, final(found)@, |x: Seq<char>| sub_has_ref(*s, x)),
    decreases *s, 0nat,
{
    match s {
        Some(sub) => {
            let ghost f0 = found@;
            collect_optlist(&sub.one_of, found);
            let ghost f1 = found@;
            collect_optlist(&sub.any_of, found);
            let ghost f2 = found@;
            collect_optlist(&sub.all_of, found);
            assert forall|x: Seq<char>| #[trigger] string_texts(found@).contains(x) <==> string_texts(f0).contains(x) || sub_has_ref(*s, x) by {
                assert(string_texts(f1).contains(x) <==> string_texts(f0).contains(x) || optlist_has_ref(sub.one_of, x));
                assert(string_texts(f2).contains(x) <==> string_texts(f1).contains(x) || optlist_has_ref(sub.any_of, x));
                assert(string_texts(found@).contains(x) <==> string_texts(f2).contains(x) || optlist_has_ref(sub.all_of, x));
            }
        },
        None => {},
    }
}

fn collect_objv(v: &Option<ObjectValidation>, found: &mut Vec<String>)
    requires
        string_texts(old(found)@).no_duplicates(),
    ensures
        grown(old(found)@, final(found)@, |x: Seq<char>| objv_has_ref(*v, x)),
    decreases *v, 0nat,
{
    match v {
        Some(ov) => {
            let ghost f0 = found@;
            collect_pairs(&ov.properties, found);
            let ghost f1 = found@;
            match &ov.additional_properties {
                Some(b) => collect_schema(&**b, found),
                None => {},
            }
            let ghost f2 = found@;
            collect_pairs(&ov.pattern_properties, found);
            assert forall|x: Seq<char>| #[trigger] string_texts(found@).contains(x) <==> string_texts(f0).contains(x) || objv_has_ref(*v, x) by {
                assert(string_texts(f1).contains(x) <==> string_texts(f0).contains(x) || pairs_has_ref(ov.properties@, x));
                assert(string_texts(f2).contains(x) <==> string_texts(f1).contains(x) || box_has_ref(ov.additional_properties, x));
                assert(string_texts(found@).contains(x) <==> string_texts(f2).contains(x) || pairs_has_ref(ov.pattern_properties@, x));
            }
        },
        None => {},
    }
}

fn collect_arr(a: &Option<Option<ArrayItems>>, found: &mut Vec<String>)
    requires
        string_texts(old(found)@).no_duplicates(),
    ensures
        grown(old(found)@, final(found)@, |x: Seq<char>| arr_has_ref(*a, x)),
    decreases *a, 0nat,
{
    match a {
        Some(Some(ArrayItems::Single(b))) => collect_schema(&**b, found),
        Some(Some(ArrayItems::Tuple(xs))) => collect_list(xs, found),
        _ => {},
    }
}

// ---- Renaming references ----

/// `r` renamed through the table `t` (see [`renamed`]).
pub fn rename(t: &Vec<(String, String)>, r: String) -> (n: String)
    ensures
        n@ == renamed(t@, r@),
{
    let mut i: usize = t.len();
    assert(t@.take(t@.len() as int) =~= t@);
    while i > 0
        invariant
            i <= t@.len(),
            table_lookup(t@, r@) == table_lookup(t@.take(i as int), r@),
        decreases i,
    {
        let ghost ys = t@.take(i as int);
        assert(ys.last() == t@[i - 1]);
        assert(ys.drop_last() =~= t@.take(i - 1));
        if t[i - 1].0 == r {
            return t[i - 1].1.clone();
        }
        i = i - 1;
    }
    r
}

/// `o` with every reference renamed through `t` (see [`rw_obj`]).
pub fn replace_references(o: SchemaObject, t: &Vec<(String, String)>) -> (n: SchemaObject)
    ensures
        rw_obj(o, n, t@),
    decreases o, 1nat,
{
    let ghost a = o;
    let SchemaObject {
        id,
        title,
        description,
        instance_type,
        const_value,
        enum_values,
        subschemas,
        object,
        array,
        reference,
    } = o;
    match reference {
        Some(r) => SchemaObject {
            id,
            title,
            description,
            instance_type,
            const_value,
            enum_values,
            subschemas,
            object,
            array,
            reference: Some(rename(t, r)),
        },
        None => SchemaObject {
            id,
            title,
            description,
            instance_type,
            const_value,
            enum_values,
            subschemas: rewrite_sub(subschemas, t),
            object: rewrite_objv(object, t),
            array: rewrite_arr(array, t),
            reference: None,
        },
    }
}

fn rewrite_schema(s: Schema, t: &Vec<(String, String)>) -> (n: Schema)
    ensures
        rw(s, n, t@),
    decreases s, 2nat,
{
    match s {
        Schema::Bool(b) => Schema::Bool(b),
        Schema::Object(o) => Schema::Object(replace_references(o, t)),
    }
}

fn rewrite_list(xs: Vec<Schema>, t: &Vec<(String, String)>) -> (n: Vec<Schema>)
    ensures
        rw_list(xs@, n@, t@),
    decreases xs@, 0nat,
{
    let ghost a = xs@;
    let mut front = xs;
    match front.pop() {
        None => front,
        Some(last) => {
            assert(front@ =~= a.drop_last());
            assert(decreases_to!(a => a.drop_last()));
            assert(decreases_to!(a => a[a.len() - 1]));
            let mut done = rewrite_list(front, t);
            let ghost prev = done@;
            done.push(rewrite_schema(last, t));
            assert(done@.drop_last() =~= prev);
            done
        },
    }
}

fn rewrite_pairs(ps: Vec<(String, Schema)>, t: &Vec<(String, String)>) -> (n: Vec<(String, Schema)>)
    ensures
        rw_pairs(ps@, n@, t@),
    decreases ps@, 0nat,
{
    let ghost a = ps@;
    let mut front = ps;
    match front.pop() {
        None => front,
        Some(last) => {
            let (name, x) = last;
            assert(front@ =~= a.drop_last());
            assert(decreases_to!(a => a.drop_last()));
            assert(decreases_to!(a => a[a.len() - 1]));
            assert(decreases_to!(a[a.len() - 1] => a[a.len() - 1].1));
            let mut done = rewrite_pairs(front, t);
            let ghost prev = done@;
            done.push((name, rewrite_schema(x, t)));
            assert(done@.drop_last() =~= prev);
            done
        },
    }
}

fn rewrite_optlist(v: Option<Vec<Schema>>, t: &Vec<(String, String)>) -> (n: Option<Vec<Schema>>)
    ensures
        rw_optlist(v, n, t@),
    decreases v, 0nat,
{
    match v {
        Some(xs) => Some(rewrite_list(xs, t)),
        None => None,
    }
}

fn rewrite_sub(v: Option<SubschemaValidation>, t: &Vec<(String, String)>) -> (n: Option<SubschemaValidation>)
    ensures
        rw_sub(v, n, t@),
    decreases v, 0nat,
{
    match v {
        Some(sub) => {
            let SubschemaValidation { all_of, any_of, one_of } = sub;
            Some(SubschemaValidation {
                all_of: rewrite_optlist(all_of, t),
                any_of: rewrite_optlist(any_of, t),
                one_of: rewrite_optlist(one_of, t),
            })
        },
        None => None,
    }
}

fn rewrite_objv(v: Option<ObjectValidation>, t: &Vec<(String, String)>) -> (n: Option<ObjectValidation>)
    ensures
        rw_objv(v, n, t@),
    decreases v, 0nat,
{
    match v {
        Some(ov) => {
            let ObjectValidation { required, properties, additional_properties, pattern_properties } = ov;
            let additional = match additional_properties {
                Some(b) => Some(Box::new(rewrite_schema(*b, t))),
                None => None,
            };
            Some(ObjectValidation {
                required,
                properties: rewrite_pairs(properties, t),
                additional_properties: additional,
                pattern_properties: rewrite_pairs(pattern_properties, t),
            })
        },
        None => None,
    }
}

fn rewrite_arr(a: Option<Option<ArrayItems>>, t: &Vec<(String, String)>) -> (n: Option<Option<ArrayItems>>)
    ensures
        rw_arr(a, n, t@),
    decreases a, 0nat,
{
    match a {
        Some(Some(ArrayItems::Single(b))) => Some(Some(ArrayItems::Single(Box::new(rewrite_schema(*b, t))))),
        Some(Some(ArrayItems::Tuple(xs))) => Some(Some(ArrayItems::Tuple(rewrite_list(xs, t)))),
        Some(None) => Some(None),
        None => None,
    }
}

} // verus!
