//! Schema-driven document ingestion.
//!
//! A schema names which fields of a free-form document are indexed, which
//! are kept as metadata, and which holds the URL.  Documents arrive as
//! flat field maps whose values are plain text, numbers rendered as text,
//! booleans or lists; preparation extracts and concatenates the named
//! fields into the identity and body that the index builder consumes.

use vstd::prelude::*;
use crate::{views_of, view_set_of};
use crate::index::PostId;
use crate::api::{PreparedDoc, prepared_model, prepared_of, upsert_doc, upsert_entry};

verus! {

/// Names the result of `str::trim`.
pub uninterp spec fn trim_of(s: Seq<char>) -> Seq<char>;

/// Relies on `str::trim`: removing leading and trailing whitespace is a
/// pure function of the characters.
pub assume_specification<'a>[ str::trim ](s: &'a str) -> (r: &'a str)
    ensures
        r@ == trim_of(s@),
;

/// One field's value in a free-form document.  Numbers carry their
/// rendered text, so that no floating point runs through the library.
#[derive(Debug)]
pub enum FieldValue {
    /// A text value.
    Text(String),
    /// A numeric value, as the text it renders to.
    Number(String),
    /// A boolean value.
    Truth(bool),
    /// A list of values; only its text elements are extracted.
    List(Vec<FieldValue>),
    /// A null or unsupported value.
    Nothing,
}

/// The given texts joined by single spaces.
pub open spec fn join_spaced(ts: Seq<Seq<char>>) -> Seq<char>
    decreases ts.len(),
{
    if ts.len() == 0 {
        Seq::empty()
    } else if ts.len() == 1 {
        ts[0]
    } else {
        join_spaced(ts.drop_last()) + seq![' '] + ts.last()
    }
}

/// The text elements among the first `k` values of a list.
pub open spec fn texts_upto(items: Seq<FieldValue>, k: int) -> Seq<Seq<char>>
    decreases k,
{
    if k <= 0 {
        Seq::empty()
    } else {
        match items[k - 1] {
            FieldValue::Text(s) => texts_upto(items, k - 1).push(s@),
            _ => texts_upto(items, k - 1),
        }
    }
}

/// The text a field value contributes to the index: text and rendered
/// numbers as they are, booleans as `true`/`false`, lists as their text
/// elements joined by spaces, anything else as nothing.
pub open spec fn spec_extract(v: FieldValue) -> Seq<char> {
    match v {
        FieldValue::Text(s) => s@,
        FieldValue::Number(s) => s@,
        FieldValue::Truth(b) => if b {
            seq!['t', 'r', 'u', 'e']
        } else {
            seq!['f', 'a', 'l', 's', 'e']
        },
        FieldValue::List(items) => join_spaced(texts_upto(items@, items@.len() as int)),
        FieldValue::Nothing => Seq::empty(),
    }
}

/// Extracts the text a field value contributes to the index.
#[verifier::loop_isolation(false)]
pub fn extract_string_value(value: &FieldValue) -> (r: String)
    ensures
        r@ == spec_extract(*value),
{
    match value {
        FieldValue::Text(s) => s.clone(),
        FieldValue::Number(s) => s.clone(),
        FieldValue::Truth(b) => {
            proof {
                reveal_strlit("true");
                reveal_strlit("false");
            }
            if *b {
                let r = "true".to_owned();
                proof {
                    assert(r@ =~= seq!['t', 'r', 'u', 'e']);
                }
                r
            } else {
                let r = "false".to_owned();
                proof {
                    assert(r@ =~= seq!['f', 'a', 'l', 's', 'e']);
                }
                r
            }
        },
        FieldValue::List(items) => {
            let mut out = String::new();
            let mut first = true;
            let mut i: usize = 0;
            while i < items.len()
                invariant
                    0 <= i <= items@.len(),
                    out@ == join_spaced(texts_upto(items@, i as int)),
                    first <==> texts_upto(items@, i as int).len() == 0,
                decreases items@.len() - i,
            {
                match &items[i] {
                    FieldValue::Text(s) => {
                        let ghost ts = texts_upto(items@, i as int);
                        if !first {
                            out.push(' ');
                        }
                        out.append(s.as_str());
                        first = false;
                        proof {
                            assert(texts_upto(items@, i + 1) == ts.push(s@));
                            if ts.len() == 0 {
                                assert(ts.push(s@)[0] == s@);
                                assert(out@ =~= join_spaced(ts.push(s@)));
                            } else {
                                assert(ts.push(s@).drop_last() =~= ts);
                                assert(ts.push(s@).last() == s@);
                                assert(out@ =~= join_spaced(ts.push(s@)));
                            }
                        }
                    },
                    _ => {
                        proof {
                            assert(texts_upto(items@, i + 1) == texts_upto(items@, i as int));
                        }
                    },
                }
                i += 1;
            }
            out
        },
        FieldValue::Nothing => String::new(),
    }
}

/// The value of the first field at or after `j` whose name matches, if
/// any.
pub open spec fn field_from(
    fields: Seq<(String, FieldValue)>,
    name: Seq<char>,
    j: int,
) -> Option<FieldValue>
    decreases fields.len() - j,
{
    if j < 0 || j >= fields.len() {
        None
    } else if fields[j].0@ == name {
        Some(fields[j].1)
    } else {
        field_from(fields, name, j + 1)
    }
}

/// The value of the first field with the given name, if any.
pub open spec fn field_of(fields: Seq<(String, FieldValue)>, name: Seq<char>) -> Option<
    FieldValue,
> {
    field_from(fields, name, 0)
}

/// Looks a field up by name; the first match wins.
#[verifier::loop_isolation(false)]
fn lookup_field<'a>(fields: &'a Vec<(String, FieldValue)>, name: &String) -> (r: Option<
    &'a FieldValue,
>)
    ensures
        match field_of(fields@, name@) {
            Some(v) => r matches Some(rv) && *rv == v,
            None => r is None,
        },
{
    let mut i: usize = 0;
    while i < fields.len()
        invariant
            0 <= i <= fields@.len(),
            field_of(fields@, name@) == field_from(fields@, name@, i as int),
        decreases fields@.len() - i,
    {
        if fields[i].0 == *name {
            return Some(&fields[i].1);
        }
        i += 1;
    }
    None
}

/// The named fields' extracted texts, concatenated in order; each field
/// that is present and non-empty contributes its text and one trailing
/// space.
pub open spec fn concat_fields(
    fields: Seq<(String, FieldValue)>,
    names: Seq<Seq<char>>,
    k: int,
) -> Seq<char>
    decreases k,
{
    if k <= 0 {
        Seq::empty()
    } else {
        let prev = concat_fields(fields, names, k - 1);
        match field_of(fields, names[k - 1]) {
            Some(v) => if spec_extract(v).len() > 0 {
                prev + spec_extract(v) + seq![' ']
            } else {
                prev
            },
            None => prev,
        }
    }
}

/// Concatenates the extracted texts of the named fields.
#[verifier::loop_isolation(false)]
fn concat_field_values(fields: &Vec<(String, FieldValue)>, names: &Vec<String>) -> (r: String)
    ensures
        r@ == concat_fields(fields@, views_of(names@), names@.len() as int),
{
    let mut out = String::new();
    let mut i: usize = 0;
    while i < names.len()
        invariant
            0 <= i <= names@.len(),
            out@ == concat_fields(fields@, views_of(names@), i as int),
        decreases names@.len() - i,
    {
        proof {
            assert(views_of(names@)[i as int] == names@[i as int]@);
        }
        match lookup_field(fields, &names[i]) {
            Some(v) => {
                let c = extract_string_value(v);
                if !c.as_str().is_empty() {
                    out.append(c.as_str());
                    out.push(' ');
                    proof {
                        assert(out@ =~= concat_fields(fields@, views_of(names@), i + 1));
                    }
                }
            },
            None => {},
        }
        i += 1;
    }
    out
}

/// The URL a document's fields give it: the extracted url field, or
/// nothing when the field is absent.
pub open spec fn url_value_of(fields: Seq<(String, FieldValue)>, url_field: Seq<char>) -> Seq<
    char,
> {
    match field_of(fields, url_field) {
        Some(v) => spec_extract(v),
        None => Seq::empty(),
    }
}

/// The title a document's fields give it: the first indexed field's text,
/// falling back to the URL value.
pub open spec fn title_of(
    fields: Seq<(String, FieldValue)>,
    indexed: Seq<Seq<char>>,
    url_field: Seq<char>,
) -> Seq<char> {
    if indexed.len() > 0 {
        match field_of(fields, indexed[0]) {
            Some(v) => spec_extract(v),
            None => url_value_of(fields, url_field),
        }
    } else {
        url_value_of(fields, url_field)
    }
}

/// The prepared document that a field map yields under a schema: the
/// indexed fields' trimmed concatenation as the body (or none when
/// empty), the metadata fields' trimmed concatenation as the identity's
/// metadata, the title from the first indexed field.
pub open spec fn schema_doc_of(
    fields: Seq<(String, FieldValue)>,
    indexed: Seq<Seq<char>>,
    metadata: Seq<Seq<char>>,
    url_field: Seq<char>,
) -> PreparedDoc {
    let indexed_content = trim_of(concat_fields(fields, indexed, indexed.len() as int));
    PreparedDoc {
        title: title_of(fields, indexed, url_field),
        url: url_value_of(fields, url_field),
        meta: trim_of(concat_fields(fields, metadata, metadata.len() as int)),
        body: if indexed_content.len() == 0 {
            None
        } else {
            Some(indexed_content)
        },
    }
}

/// A free-form document: a flat map from field names to values.  When two
/// fields carry the same name, the first wins.
#[derive(Debug)]
pub struct Post {
    /// The document's fields, in a stable order.
    pub fields: Vec<(String, FieldValue)>,
}

/// A batch of free-form documents.
pub type Posts = Vec<Post>;

/// Schema configuration file contents.
#[derive(Clone, Debug)]
pub struct SearchSchemaConfig {
    /// Schema configuration section.
    pub schema: SearchSchema,
}

/// Which fields of a document are indexed, kept as metadata, and used as
/// the URL.
#[derive(Clone, Debug)]
pub struct SearchSchema {
    /// Fields that are indexed for searching.
    pub indexed_fields: Vec<String>,
    /// Fields that are stored as metadata but not weighted as titles.
    pub metadata_fields: Vec<String>,
    /// Field that holds the URL of each document.
    pub url_field: String,
}

/// A schema validation failure.
#[derive(Clone, Copy, Debug, PartialEq, Eq, Structural)]
pub enum ValidationError {
    /// No field is indexed.
    EmptyIndexedFields,
    /// The URL field's name is empty.
    EmptyUrlField,
    /// A field is named twice across the three roles.
    DuplicateField,
}

/// Every field name a schema mentions: indexed, metadata, then the URL
/// field.
pub open spec fn spec_all_fields(s: SearchSchema) -> Seq<Seq<char>> {
    views_of(s.indexed_fields@) + views_of(s.metadata_fields@) + seq![s.url_field@]
}

/// Appends clones of the source strings.
#[verifier::loop_isolation(false)]
fn clone_strings_into(dst: &mut Vec<String>, src: &Vec<String>)
    ensures
        views_of(final(dst)@) == views_of(old(dst)@) + views_of(src@),
{
    let mut i: usize = 0;
    while i < src.len()
        invariant
            0 <= i <= src@.len(),
            views_of(dst@) == views_of(old(dst)@) + views_of(src@.take(i as int)),
        decreases src@.len() - i,
    {
        let ghost before = dst@;
        dst.push(src[i].clone());
        proof {
            assert(dst@ == before.push(src@[i as int]));
            assert(src@.take(i + 1) =~= src@.take(i as int).push(src@[i as int]));
            assert forall|j: int| 0 <= j < dst@.len() implies views_of(dst@)[j] == (views_of(
                old(dst)@,
            ) + views_of(src@.take(i + 1)))[j] by {
                if j < before.len() {
                    assert(dst@[j] == before[j]);
                    assert(views_of(before)[j] == (views_of(old(dst)@) + views_of(
                        src@.take(i as int),
                    ))[j]);
                } else {
                    assert(dst@[j] == src@[i as int]);
                    assert(views_of(src@.take(i + 1))[j - old(dst)@.len()] == src@.take(
                        i + 1,
                    )[j - old(dst)@.len()]@);
                }
            }
            assert(views_of(dst@) =~= views_of(old(dst)@) + views_of(src@.take(i + 1)));
        }
        i += 1;
    }
    proof {
        assert(src@.take(src@.len() as int) =~= src@);
        assert(views_of(dst@) =~= views_of(old(dst)@) + views_of(src@));
    }
}

impl Default for SearchSchema {
    /// The default schema: `title` and `body` indexed, no metadata, the
    /// URL under `url`.
    fn default() -> (r: SearchSchema)
        ensures
            views_of(r.indexed_fields@) == seq!["title"@, "body"@],
            r.metadata_fields@.len() == 0,
            r.url_field@ == "url"@,
    {
        let r = SearchSchema {
            indexed_fields: vec!["title".to_owned(), "body".to_owned()],
            metadata_fields: Vec::new(),
            url_field: "url".to_owned(),
        };
        proof {
            assert(views_of(r.indexed_fields@) =~= seq!["title"@, "body"@]);
        }
        r
    }
}

impl SearchSchema {
    /// Validates the schema: at least one indexed field, a named URL
    /// field, and no field named twice across the three roles.
    #[verifier::loop_isolation(false)]
    pub fn validate(&self) -> (r: Result<(), ValidationError>)
        ensures
            r matches Ok(rr) <==> (self.indexed_fields@.len() > 0 && self.url_field@.len() > 0
                && spec_all_fields(*self).no_duplicates()),
            r matches Err(e) ==> (e == ValidationError::EmptyIndexedFields
                <==> self.indexed_fields@.len() == 0),
            r matches Err(e) ==> (e == ValidationError::EmptyUrlField <==> (
            self.indexed_fields@.len() > 0 && self.url_field@.len() == 0)),
    {
        if self.indexed_fields.len() == 0 {
            return Err(ValidationError::EmptyIndexedFields);
        }
        if self.url_field.as_str().is_empty() {
            return Err(ValidationError::EmptyUrlField);
        }
        let mut all: Vec<String> = Vec::new();
        clone_strings_into(&mut all, &self.indexed_fields);
        clone_strings_into(&mut all, &self.metadata_fields);
        all.push(self.url_field.clone());
        proof {
            assert(views_of(all@) =~= spec_all_fields(*self));
        }
        let n = all.len();
        let mut i: usize = 0;
        while i < n
            invariant
                n == all@.len(),
                0 <= i <= n,
                views_of(all@) == spec_all_fields(*self),
                forall|a: int, b: int|
                    0 <= a < b < i ==> views_of(all@)[a] != views_of(all@)[b],
            decreases n - i,
        {
            let mut j: usize = 0;
            while j < i
                invariant
                    0 <= j <= i < n == all@.len(),
                    views_of(all@) == spec_all_fields(*self),
                    forall|b: int| 0 <= b < j ==> views_of(all@)[b] != views_of(all@)[i as int],
                decreases i - j,
            {
                if all[j] == all[i] {
                    proof {
                        assert(views_of(all@)[j as int] == all@[j as int]@);
                        assert(views_of(all@)[i as int] == all@[i as int]@);
                        assert(spec_all_fields(*self)[j as int] == spec_all_fields(
                            *self,
                        )[i as int]);
                        assert(!spec_all_fields(*self).no_duplicates());
                    }
                    return Err(ValidationError::DuplicateField);
                }
                j += 1;
            }
            i += 1;
        }
        assert(spec_all_fields(*self).no_duplicates());
        Ok(())
    }

    /// Every field to read from a document: the indexed fields, the
    /// metadata fields, and the URL field unless already among them.
    #[verifier::loop_isolation(false)]
    pub fn all_fields(&self) -> (r: Vec<String>)
        ensures
            ({
                let base = views_of(self.indexed_fields@) + views_of(self.metadata_fields@);
                views_of(r@) == if base.contains(self.url_field@) {
                    base
                } else {
                    base.push(self.url_field@)
                }
            }),
    {
        let mut fields: Vec<String> = Vec::new();
        clone_strings_into(&mut fields, &self.indexed_fields);
        clone_strings_into(&mut fields, &self.metadata_fields);
        let ghost base = views_of(self.indexed_fields@) + views_of(self.metadata_fields@);
        proof {
            assert(views_of(fields@) =~= base);
        }
        if !crate::tokenize::contains_string(&fields, &self.url_field) {
            fields.push(self.url_field.clone());
            proof {
                assert(views_of(fields@) =~= base.push(self.url_field@));
                assert(!base.contains(self.url_field@)) by {
                    if base.contains(self.url_field@) {
                        let k = choose|k: int| 0 <= k < base.len() && base[k] == self.url_field@;
                        assert(view_set_of(self.indexed_fields@ + self.metadata_fields@).contains(
                            self.url_field@,
                        )) by {
                            assert(views_of(self.indexed_fields@ + self.metadata_fields@) =~= base);
                        }
                    }
                }
            }
        } else {
            proof {
                let k = choose|k: int|
                    0 <= k < views_of(fields@).len() && views_of(fields@)[k] == self.url_field@;
                assert(base[k] == self.url_field@);
            }
        }
        fields
    }
}

/// The prepared form of the first `n` schema documents, identical
/// identities merged (last body wins, first position kept).
pub open spec fn spec_schema_prepare(posts: Seq<Post>, schema: SearchSchema, n: int) -> Seq<
    PreparedDoc,
>
    decreases n,
{
    if n <= 0 {
        Seq::empty()
    } else {
        upsert_doc(
            spec_schema_prepare(posts, schema, n - 1),
            schema_doc_of(
                posts[n - 1].fields@,
                views_of(schema.indexed_fields@),
                views_of(schema.metadata_fields@),
                schema.url_field@,
            ),
        )
    }
}

/// Prepares free-form documents under a schema: extracts each document's
/// title, URL, metadata text and indexed body text, and merges documents
/// whose identities collide (last body wins, first position kept).
#[verifier::loop_isolation(false)]
pub fn prepare_posts(posts: Posts, schema: &SearchSchema) -> (r: Vec<(PostId, Option<String>)>)
    ensures
        prepared_model(r@) == spec_schema_prepare(posts@, *schema, posts@.len() as int),
{
    let mut acc: Vec<(PostId, Option<String>)> = Vec::new();
    let mut i: usize = 0;
    proof {
        assert(prepared_model(acc@) =~= spec_schema_prepare(posts@, *schema, 0));
    }
    while i < posts.len()
        invariant
            0 <= i <= posts@.len(),
            prepared_model(acc@) == spec_schema_prepare(posts@, *schema, i as int),
        decreases posts@.len() - i,
    {
        let p = &posts[i];
        let ghost d = schema_doc_of(
            p.fields@,
            views_of(schema.indexed_fields@),
            views_of(schema.metadata_fields@),
            schema.url_field@,
        );
        let url_value = match lookup_field(&p.fields, &schema.url_field) {
            Some(v) => extract_string_value(v),
            None => String::new(),
        };
        let title = if schema.indexed_fields.len() > 0 {
            match lookup_field(&p.fields, &schema.indexed_fields[0]) {
                Some(v) => extract_string_value(v),
                None => url_value.clone(),
            }
        } else {
            url_value.clone()
        };
        proof {
            assert(views_of(schema.indexed_fields@).len() == schema.indexed_fields@.len());
            if schema.indexed_fields@.len() > 0 {
                assert(views_of(schema.indexed_fields@)[0] == schema.indexed_fields@[0]@);
            }
        }
        let indexed_raw = concat_field_values(&p.fields, &schema.indexed_fields);
        let indexed_trimmed = indexed_raw.as_str().trim().to_owned();
        let meta_raw = concat_field_values(&p.fields, &schema.metadata_fields);
        let meta_trimmed = meta_raw.as_str().trim().to_owned();
        let body: Option<String> = if indexed_trimmed.as_str().is_empty() {
            None
        } else {
            Some(indexed_trimmed)
        };
        let pid = PostId { title, url: url_value, meta: meta_trimmed };
        proof {
            assert(prepared_of((pid, body)) == d);
        }
        upsert_entry(&mut acc, pid, body);
        proof {
            assert(prepared_model(acc@) == spec_schema_prepare(posts@, *schema, i + 1));
        }
        i += 1;
    }
    proof {
        assert(posts@.len() as int == posts@.len());
    }
    acc
}

} // verus!
