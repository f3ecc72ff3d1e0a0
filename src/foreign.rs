//! Calls into `url`, `heck`, `ahash` and std text functions that the library
//! relies on, each with the contract the library assumes of it.
use vstd::prelude::*;
use crate::schema::SchemaObject;
use heck::ToUpperCamelCase;

verus! {

#[verifier::external_type_specification]
#[verifier::external_body]
pub struct ExParseError(url::ParseError);

#[verifier::external_type_specification]
#[verifier::external_body]
pub struct ExRandomState(ahash::RandomState);

#[verifier::external_type_specification]
#[verifier::external_body]
#[verifier::reject_recursive_types(K)]
#[verifier::reject_recursive_types(V)]
#[verifier::reject_recursive_types(S)]
pub struct ExAHashMap<K, V, S>(ahash::AHashMap<K, V, S>);

/// The serialization of the URL that `url::Url::parse` makes of a text, if it
/// parses as an absolute URL.
pub uninterp spec fn parsed_url_of(s: Seq<char>) -> Option<Seq<char>>;

/// The serialization of `url::Url::join` of a reference onto a base URL.
pub uninterp spec fn joined_url_of(base: Seq<char>, reference: Seq<char>) -> Option<Seq<char>>;

/// The last path segment of a URL, as `url::Url::path_segments` yields it.
pub uninterp spec fn last_segment_of(url: Seq<char>) -> Option<Seq<char>>;

/// The text as `heck::ToUpperCamelCase` converts it.
pub uninterp spec fn upper_camel_of(s: Seq<char>) -> Seq<char>;

/// The text with leading and trailing whitespace removed, as `str::trim` gives it.
pub uninterp spec fn trimmed_of(s: Seq<char>) -> Seq<char>;

/// What a schema map holds, keyed by canonical id.
pub uninterp spec fn schemas_in(m: ahash::AHashMap<String, SchemaObject>) -> Map<Seq<char>, SchemaObject>;

/// Relies on `url::Url::parse`: parses an absolute URL and gives back its
/// serialization.
#[verifier::external_body]
pub(crate) fn parse_url(s: &str) -> (r: Result<String, url::ParseError>)
    ensures
        match r {
            Ok(u) => parsed_url_of(s@) == Some(u@),
            Err(_) => parsed_url_of(s@) is None,
        },
{
    url::Url::parse(s).map(String::from)
}

/// Relies on `url::Url::join`: resolves a reference against a base URL. The
/// base is a serialization that `url::Url::parse` made, and is read back by it.
#[verifier::external_body]
pub(crate) fn join_url(base: &str, reference: &str) -> (r: Result<String, url::ParseError>)
    ensures
        match r {
            Ok(u) => joined_url_of(base@, reference@) == Some(u@),
            Err(_) => joined_url_of(base@, reference@) is None,
        },
{
    let base = url::Url::parse(base)?;
    base.join(reference).map(String::from)
}

/// Relies on `url::Url::path_segments`: the last segment of the URL's path,
/// `None` where the URL cannot be a base (or does not parse).
#[verifier::external_body]
pub(crate) fn last_path_segment(id: &str) -> (r: Option<String>)
    ensures
        match r {
            Some(seg) => last_segment_of(id@) == Some(seg@),
            None => last_segment_of(id@) is None,
        },
{
    url::Url::parse(id).ok()?.path_segments()?.last().map(String::from)
}

/// Relies on `heck::ToUpperCamelCase::to_upper_camel_case` for `str`.
#[verifier::external_body]
pub(crate) fn upper_camel_case(s: &str) -> (r: String)
    ensures
        r@ == upper_camel_of(s@),
{
    s.to_upper_camel_case()
}

/// Relies on `str::trim`.
#[verifier::external_body]
pub(crate) fn trim_text(s: &str) -> (r: String)
    ensures
        r@ == trimmed_of(s@),
{
    String::from(s.trim())
}

/// Relies on `ahash::AHashMap::new`: the new map is empty.
#[verifier::external_body]
pub(crate) fn new_schema_map() -> (r: ahash::AHashMap<String, SchemaObject>)
    ensures
        schemas_in(r) =~= Map::empty(),
{
    ahash::AHashMap::new()
}

/// Relies on `ahash::AHashMap::get`: the schema stored under `id`, if any.
#[verifier::external_body]
pub(crate) fn get_schema<'a>(m: &'a ahash::AHashMap<String, SchemaObject>, id: &str) -> (r: Option<&'a SchemaObject>)
    ensures
        match r {
            Some(s) => schemas_in(*m).contains_key(id@) && *s == schemas_in(*m)[id@],
            None => !schemas_in(*m).contains_key(id@),
        },
{
    m.get(id)
}

/// Relies on `ahash::AHashMap::insert`: `id` maps to `schema` afterwards, any
/// earlier entry under it being replaced.
#[verifier::external_body]
pub(crate) fn insert_schema(m: &mut ahash::AHashMap<String, SchemaObject>, id: String, schema: SchemaObject)
    ensures
        schemas_in(*final(m)) == schemas_in(*old(m)).insert(id@, schema),
{
    m.insert(id, schema);
}

} // verus!
