use vstd::prelude::*;
use crate::foreign::{trim_text, trimmed_of, last_path_segment, last_segment_of, upper_camel_case, upper_camel_of};
use crate::schema::{InstanceType, SchemaObject};

verus! {

/// Append-only text buffer that also counts how many bytes were ever written
/// to it, so that callers can tell whether a section produced output even after
/// its text was taken out.
pub struct StringWriter {
    written: usize,
    buf: String,
}

impl StringWriter {
    /// The text currently held.
    pub closed spec fn text(&self) -> Seq<char> {
        self.buf@
    }

    /// The number of bytes written so far (saturating at `usize::MAX`).
    pub closed spec fn written(&self) -> nat {
        self.written as nat
    }

    pub fn new() -> (r: Self)
        ensures
            r.text() == Seq::<char>::empty(),
            r.written() == 0,
    {
        StringWriter { written: 0, buf: String::new() }
    }

    /// Appends `string`; the byte count grows by its UTF-8 length.
    pub fn push_str(&mut self, string: &str)
        ensures
            final(self).text() == old(self).text() + string@,
            final(self).written() == crate::util::saturating_sum(
                old(self).written(),
                string.len() as nat,
            ),
    {
        self.add_written(string.len());
        self.buf.append(string);
    }

    fn add_written(&mut self, n: usize)
        ensures
            final(self).written() == saturating_sum(old(self).written(), n as nat),
            final(self).text() == old(self).text(),
    {
        if n > usize::MAX - self.written {
            self.written = usize::MAX;
        } else {
            self.written = self.written + n;
        }
    }

    pub fn finish(self) -> (r: String)
        ensures
            r@ == self.text(),
    {
        self.buf
    }

    pub fn is_empty(&self) -> (r: bool)
        ensures
            r == (self.text().len() == 0),
    {
        self.buf.as_str().is_empty()
    }

    /// Takes the text out, leaving the buffer empty; the byte count is kept.
    pub fn take(&mut self) -> (r: String)
        ensures
            r@ == old(self).text(),
            final(self).text() == Seq::<char>::empty(),
            final(self).written() == old(self).written(),
    {
        let mut out = String::new();
        std::mem::swap(&mut out, &mut self.buf);
        out
    }

    pub fn bytes_written(&self) -> (r: usize)
        ensures
            r as nat == self.written(),
    {
        self.written
    }

    /// Puts `string` in front of the text held.
    pub fn prepend_str(&mut self, string: &str)
        ensures
            final(self).text() == string@ + old(self).text(),
            final(self).written() == crate::util::saturating_sum(
                old(self).written(),
                string.len() as nat,
            ),
    {
        self.add_written(string.len());
        let mut buf = String::new();
        std::mem::swap(&mut buf, &mut self.buf);
        self.buf = String::from_str(string).concat(buf.as_str());
    }
}

/// `a + b`, capped at `usize::MAX`.
pub open spec fn saturating_sum(a: nat, b: nat) -> nat {
    if a + b > usize::MAX {
        usize::MAX as nat
    } else {
        a + b
    }
}

/// Marks the types that may implement the extension traits of this module.
pub trait Sealed {}

impl Sealed for SchemaObject {}

/// Queries on a schema object.
pub trait SchemaObjectExt: Sealed {
    spec fn single_object(&self) -> bool;

    /// Whether the schema is a plain object: no reference, no enum (not even
    /// an empty one), no constant, no composition, and its declared type is exactly `object` or
    /// absent.
    fn is_single_object(&self) -> (r: bool)
        ensures
            r == self.single_object(),
    ;
}

impl SchemaObjectExt for SchemaObject {
    open spec fn single_object(&self) -> bool {
        &&& self.reference is None
        &&& match self.instance_type {
            None => true,
            Some(types) => types@.len() == 1 && types@[0] == InstanceType::Object,
        }
        &&& self.enum_values is None
        &&& self.const_value is None
        &&& self.subschemas is None
    }

    fn is_single_object(&self) -> (r: bool) {
        let type_ok = match &self.instance_type {
            None => true,
            Some(types) => types.len() == 1 && matches!(types[0], InstanceType::Object),
        };
        self.reference.is_none() && type_ok && self.enum_values.is_none() && self.const_value.is_none()
            && self.subschemas.is_none()
    }
}

/// The documentation text of a schema.
pub fn docs_of(schema: &SchemaObject) -> (r: Option<&str>)
    ensures
        match schema.description {
            Some(d) => r is Some && r->0@ == d@,
            None => r is None,
        },
{
    match &schema.description {
        Some(d) => Some(d.as_str()),
        None => None,
    }
}

/// The part of `s` before its first `.` (all of `s` if it has none).
pub open spec fn before_dot(s: Seq<char>) -> Seq<char>
    decreases s.len(),
{
    if s.len() == 0 || s[0] == '.' {
        Seq::empty()
    } else {
        seq![s[0]] + before_dot(s.skip(1))
    }
}

proof fn lemma_before_dot_prefix(s: Seq<char>, i: int)
    requires
        0 <= i <= s.len(),
        forall|j: int| 0 <= j < i ==> s[j] != '.',
    ensures
        before_dot(s) == s.take(i) + before_dot(s.skip(i)),
    decreases i,
{
    if i > 0 {
        lemma_before_dot_prefix(s.skip(1), i - 1);
        assert(s.skip(1).skip(i - 1) =~= s.skip(i));
        assert(s.take(i) =~= seq![s[0]] + s.skip(1).take(i - 1));
    } else {
        assert(s.take(0) =~= Seq::<char>::empty());
        assert(s.skip(0) =~= s);
    }
}

/// The exported name of a schema: its title, else the last path segment of
/// `id` up to its first `.`, converted to upper camel case.
pub open spec fn type_name_spec(schema: SchemaObject, id: Option<Seq<char>>) -> Option<Seq<char>> {
    match schema.title {
        Some(t) => Some(upper_camel_of(t@)),
        None => match id {
            None => None,
            Some(i) => match last_segment_of(i) {
                None => None,
                Some(seg) => Some(upper_camel_of(before_dot(seg))),
            },
        },
    }
}

/// The text of an optional string slice.
pub open spec fn str_opt_view(s: Option<&str>) -> Option<Seq<char>> {
    match s {
        Some(t) => Some(t@),
        None => None,
    }
}

fn prefix_before_dot(s: &str) -> (r: &str)
    ensures
        r@ == before_dot(s@),
{
    let n = s.unicode_len();
    let mut i: usize = 0;
    while i < n && s.get_char(i) != '.'
        invariant
            n == s@.len(),
            i <= n,
            forall|j: int| 0 <= j < i ==> s@[j] != '.',
        decreases n - i,
    {
        i = i + 1;
    }
    proof {
        lemma_before_dot_prefix(s@, i as int);
        if i < n {
            assert(s@.skip(i as int)[0] == '.');
        } else {
            assert(s@.skip(i as int).len() == 0);
        }
    }
    s.substring_char(0, i)
}

/// Derives the exported name of a schema (see [`type_name_spec`]).
pub fn type_name_of(schema: &SchemaObject, id: Option<&str>) -> (r: Option<String>)
    ensures
        match r {
            Some(name) => type_name_spec(*schema, str_opt_view(id)) == Some(name@),
            None => type_name_spec(*schema, str_opt_view(id)) is None,
        },
{
    match &schema.title {
        Some(t) => Some(upper_camel_case(t.as_str())),
        None => match id {
            None => None,
            Some(i) => match last_path_segment(i) {
                None => None,
                Some(seg) => Some(upper_camel_case(prefix_before_dot(seg.as_str()))),
            },
        },
    }
}

/// `s` with every occurrence of `pat` replaced by `to`, scanning left to right.
pub open spec fn replaced(s: Seq<char>, pat: Seq<char>, to: Seq<char>) -> Seq<char>
    decreases s.len(),
{
    if s.len() == 0 {
        Seq::empty()
    } else if 0 < pat.len() <= s.len() && s.take(pat.len() as int) == pat {
        to + replaced(s.skip(pat.len() as int), pat, to)
    } else {
        seq![s[0]] + replaced(s.skip(1), pat, to)
    }
}

fn occurs_at(s: &str, n: usize, i: usize, pat: &str, m: usize) -> (r: bool)
    requires
        n == s@.len(),
        m == pat@.len(),
        i <= n,
    ensures
        r == (m <= n - i && s@.skip(i as int).take(m as int) == pat@),
{
    if m > n - i {
        return false;
    }
    let mut j: usize = 0;
    while j < m
        invariant
            m <= n - i,
            n == s@.len(),
            m == pat@.len(),
            j <= m,
            forall|k: int| 0 <= k < j ==> s@[i + k] == pat@[k],
        decreases m - j,
    {
        if s.get_char(i + j) != pat.get_char(j) {
            assert(s@.skip(i as int).take(m as int)[j as int] != pat@[j as int]);
            return false;
        }
        j = j + 1;
    }
    assert(s@.skip(i as int).take(m as int) =~= pat@);
    true
}

/// Replaces every occurrence of the non-empty `pat` in `s` by `to`.
pub fn replace_all(s: &str, pat: &str, to: &str) -> (r: String)
    requires
        pat@.len() > 0,
    ensures
        r@ == replaced(s@, pat@, to@),
{
    let n = s.unicode_len();
    let m = pat.unicode_len();
    let mut out = String::new();
    let mut i: usize = 0;
    assert(s@.skip(0) =~= s@);
    assert(out@ + replaced(s@, pat@, to@) =~= replaced(s@, pat@, to@));
    while i < n
        invariant
            n == s@.len(),
            m == pat@.len(),
            m > 0,
            i <= n,
            replaced(s@, pat@, to@) == out@ + replaced(s@.skip(i as int), pat@, to@),
        decreases n - i,
    {
        let ghost rest = s@.skip(i as int);
        if occurs_at(s, n, i, pat, m) {
            out.append(to);
            proof {
                assert(rest.skip(m as int) =~= s@.skip(i + m));
            }
            i = i + m;
        } else {
            out.append(s.substring_char(i, i + 1));
            proof {
                assert(rest.skip(1) =~= s@.skip(i + 1));
                assert(s@.subrange(i as int, i + 1) =~= seq![rest[0]]);
            }
            i = i + 1;
        }
    }
    assert(s@.skip(n as int) =~= Seq::<char>::empty());
    assert(out@ + Seq::<char>::empty() =~= out@);
    out
}

/// The lines of `t` as the body of a doc comment: each line break continues
/// with ` * `.
pub open spec fn star_lines(t: Seq<char>) -> Seq<char>
    decreases t.len(),
{
    if t.len() == 0 {
        Seq::empty()
    } else {
        (if t[0] == '\n' { "\n * "@ } else { seq![t[0]] }) + star_lines(t.skip(1))
    }
}

/// The doc comment emitted for documentation text `d`: nothing when `d` is
/// blank, else one ` * ` line per line of the trimmed text.
pub open spec fn doc_block(d: Seq<char>) -> Seq<char> {
    let t = trimmed_of(d);
    if t.len() == 0 {
        Seq::empty()
    } else {
        "/**\n"@ + " * "@ + star_lines(t) + "\n"@ + " */\n"@
    }
}

/// Writes the doc comment for `docs` (see [`doc_block`]).
pub fn push_doc_comment(out: &mut StringWriter, docs: &str)
    ensures
        final(out).text() == old(out).text() + doc_block(docs@),
{
    let t = trim_text(docs);
    let n = t.as_str().unicode_len();
    if n == 0 {
        assert(old(out).text() + doc_block(docs@) =~= old(out).text());
        return;
    }
    let mut body = String::new();
    let mut i: usize = 0;
    assert(t@.skip(0) =~= t@);
    assert(body@ + star_lines(t@) =~= star_lines(t@));
    while i < n
        invariant
            n == t@.len(),
            i <= n,
            star_lines(t@) == body@ + star_lines(t@.skip(i as int)),
        decreases n - i,
    {
        let ghost rest = t@.skip(i as int);
        let c = t.as_str().get_char(i);
        if c == '\n' {
            body.append("\n * ");
        } else {
            body.append(t.as_str().substring_char(i, i + 1));
            assert(t@.subrange(i as int, i + 1) =~= seq![c]);
        }
        assert(rest.skip(1) =~= t@.skip(i + 1));
        assert(rest[0] == c);
        i = i + 1;
    }
    assert(t@.skip(n as int) =~= Seq::<char>::empty());
    assert(body@ + Seq::<char>::empty() =~= body@);
    out.push_str("/**\n");
    out.push_str(" * ");
    out.push_str(body.as_str());
    out.push_str("\n");
    out.push_str(" */\n");
    assert(final(out).text() =~= old(out).text() + doc_block(docs@));
}

} // verus!
