//! The virtual branch record: its fields, how it is loaded from a key/value
//! record with per-field defaults, and how it is stored.
use vstd::prelude::*;
use crate::decimal::{dec, read_dec, parse_dec, write_dec, lemma_dec_read};
use crate::hex::{Oid, OID_LEN, hex_text, parse_oid_spec, lemma_oid_round_trip};
use crate::hunk::Hunk;
use crate::id::{BranchId, ID_LEN, id_text, parse_id_spec, lemma_id_round_trip};
use crate::ownership::{Ownership, ownership_text, parse_ownership_spec, files_wf, lemma_ownership_round_trip};
use crate::record::{Content, ContentView, Entry, Reader, Field, Cause, LoadError, lookup, field_key, lemma_lookup_at, lemma_lookup_absent, lemma_keys_distinct};
use crate::refname::{RemoteRefname, VirtualRefname, remote_text, remote_parts_wf, parse_remote_spec, normalize, normalize_branch_name, lemma_remote_round_trip};
use crate::text::from_chars;

verus! {

#[derive(Debug)]
pub struct Branch {
    pub id: BranchId,
    pub name: String,
    pub notes: String,
    pub applied: bool,
    pub upstream: Option<RemoteRefname>,
    /// The last commit pushed to the upstream branch.
    pub upstream_head: Option<Oid>,
    pub created_timestamp_ms: u128,
    pub updated_timestamp_ms: u128,
    /// The tree that deltas of this branch are computed from.
    pub tree: Oid,
    /// The latest synthetic commit of this branch.
    pub head: Oid,
    pub ownership: Ownership,
    /// The position of this branch among the others.
    pub order: usize,
}

pub struct BranchView {
    pub id: Seq<u8>,
    pub name: Seq<char>,
    pub notes: Seq<char>,
    pub applied: bool,
    pub upstream: Option<(Seq<char>, Seq<char>)>,
    pub upstream_head: Option<Seq<u8>>,
    pub created_timestamp_ms: u128,
    pub updated_timestamp_ms: u128,
    pub tree: Seq<u8>,
    pub head: Seq<u8>,
    pub ownership: Seq<(Seq<char>, Seq<Hunk>)>,
    pub order: usize,
}

impl View for Branch {
    type V = BranchView;

    open spec fn view(&self) -> BranchView {
        BranchView {
            id: self.id@,
            name: self.name@,
            notes: self.notes@,
            applied: self.applied,
            upstream: match self.upstream { Some(u) => Some(u@), None => None },
            upstream_head: match self.upstream_head { Some(o) => Some(o@), None => None },
            created_timestamp_ms: self.created_timestamp_ms,
            updated_timestamp_ms: self.updated_timestamp_ms,
            tree: self.tree@,
            head: self.head@,
            ownership: self.ownership@,
            order: self.order,
        }
    }
}

/// Every field holds a value that its encoding can carry.
pub open spec fn view_wf(v: BranchView) -> bool {
    &&& v.id.len() == ID_LEN
    &&& v.tree.len() == OID_LEN
    &&& v.head.len() == OID_LEN
    &&& (v.upstream_head matches Some(o) ==> o.len() == OID_LEN)
    &&& (v.upstream matches Some(p) ==> remote_parts_wf(p))
    &&& files_wf(v.ownership)
}

/// A mandatory text field.
pub open spec fn text_field(c: Option<ContentView>, f: Field) -> Result<Seq<char>, LoadError> {
    match c {
        None => Err(LoadError::NotFound(f)),
        Some(ContentView::Utf8(s)) => Ok(s),
        Some(ContentView::Binary(_)) => Err(LoadError::Invalid(f, Cause::NotText)),
    }
}

pub open spec fn id_field(es: Seq<(Seq<char>, ContentView)>) -> Result<Seq<u8>, LoadError> {
    match text_field(lookup(es, field_key(Field::Id)), Field::Id) {
        Err(e) => Err(e),
        Ok(s) => match parse_id_spec(s) {
            Some(b) => Ok(b),
            None => Err(LoadError::Invalid(Field::Id, Cause::MalformedIdentifier)),
        },
    }
}

/// Notes: empty when absent.
pub open spec fn notes_field(es: Seq<(Seq<char>, ContentView)>) -> Result<Seq<char>, LoadError> {
    match lookup(es, field_key(Field::Notes)) {
        None => Ok(Seq::empty()),
        Some(ContentView::Utf8(s)) => Ok(s),
        Some(ContentView::Binary(_)) => Err(LoadError::Invalid(Field::Notes, Cause::NotText)),
    }
}

/// Applied: true only for the text `true`; anything else, absence included, is false.
pub open spec fn applied_field(es: Seq<(Seq<char>, ContentView)>) -> bool {
    match lookup(es, field_key(Field::Applied)) {
        Some(ContentView::Utf8(s)) => s == "true"@,
        _ => false,
    }
}

/// Order: zero when absent.
pub open spec fn order_field(es: Seq<(Seq<char>, ContentView)>) -> Result<usize, LoadError> {
    match lookup(es, field_key(Field::Order)) {
        None => Ok(0),
        Some(ContentView::Binary(_)) => Err(LoadError::Invalid(Field::Order, Cause::NotText)),
        Some(ContentView::Utf8(s)) => match read_dec(s) {
            Some(n) => if n <= usize::MAX { Ok(n as usize) } else { Err(LoadError::Invalid(Field::Order, Cause::MalformedNumber)) },
            None => Err(LoadError::Invalid(Field::Order, Cause::MalformedNumber)),
        },
    }
}

/// Upstream head: unset when absent or not text; text must be an object identifier.
pub open spec fn upstream_head_field(es: Seq<(Seq<char>, ContentView)>) -> Result<Option<Seq<u8>>, LoadError> {
    match lookup(es, field_key(Field::UpstreamHead)) {
        Some(ContentView::Utf8(s)) => match parse_oid_spec(s) {
            Some(o) => Ok(Some(o)),
            None => Err(LoadError::Invalid(Field::UpstreamHead, Cause::MalformedOid)),
        },
        _ => Ok(None),
    }
}

/// Upstream: unset when absent, not text, or empty; other text must be a remote reference.
pub open spec fn upstream_field(es: Seq<(Seq<char>, ContentView)>) -> Result<Option<(Seq<char>, Seq<char>)>, LoadError> {
    match lookup(es, field_key(Field::Upstream)) {
        Some(ContentView::Utf8(s)) => if s.len() == 0 {
            Ok(None)
        } else {
            match parse_remote_spec(s) {
                Some(p) => Ok(Some(p)),
                None => Err(LoadError::Invalid(Field::Upstream, Cause::MalformedRefname)),
            }
        },
        _ => Ok(None),
    }
}

/// A mandatory object identifier.
pub open spec fn oid_field(es: Seq<(Seq<char>, ContentView)>, f: Field) -> Result<Seq<u8>, LoadError> {
    match text_field(lookup(es, field_key(f)), f) {
        Err(e) => Err(e),
        Ok(s) => match parse_oid_spec(s) {
            Some(o) => Ok(o),
            None => Err(LoadError::Invalid(f, Cause::MalformedOid)),
        },
    }
}

/// A mandatory timestamp.
pub open spec fn number_field(es: Seq<(Seq<char>, ContentView)>, f: Field) -> Result<u128, LoadError> {
    match text_field(lookup(es, field_key(f)), f) {
        Err(e) => Err(e),
        Ok(s) => match read_dec(s) {
            Some(n) => if n <= u128::MAX { Ok(n as u128) } else { Err(LoadError::Invalid(f, Cause::MalformedNumber)) },
            None => Err(LoadError::Invalid(f, Cause::MalformedNumber)),
        },
    }
}

pub open spec fn ownership_field(es: Seq<(Seq<char>, ContentView)>) -> Result<Seq<(Seq<char>, Seq<Hunk>)>, LoadError> {
    match text_field(lookup(es, field_key(Field::Ownership)), Field::Ownership) {
        Err(e) => Err(e),
        Ok(s) => match parse_ownership_spec(s) {
            Some(o) => Ok(o),
            None => Err(LoadError::Invalid(Field::Ownership, Cause::MalformedOwnership)),
        },
    }
}

/// The branch that a record holds, or the first field, in key order, that fails.
pub open spec fn load_spec(es: Seq<(Seq<char>, ContentView)>) -> Result<BranchView, LoadError> {
    let id = id_field(es);
    let name = text_field(lookup(es, field_key(Field::Name)), Field::Name);
    let notes = notes_field(es);
    let order = order_field(es);
    let upstream_head = upstream_head_field(es);
    let upstream = upstream_field(es);
    let tree = oid_field(es, Field::Tree);
    let head = oid_field(es, Field::Head);
    let created = number_field(es, Field::CreatedTimestamp);
    let updated = number_field(es, Field::UpdatedTimestamp);
    let ownership = ownership_field(es);
    if id is Err { Err(id->Err_0) }
    else if name is Err { Err(name->Err_0) }
    else if notes is Err { Err(notes->Err_0) }
    else if order is Err { Err(order->Err_0) }
    else if upstream_head is Err { Err(upstream_head->Err_0) }
    else if upstream is Err { Err(upstream->Err_0) }
    else if tree is Err { Err(tree->Err_0) }
    else if head is Err { Err(head->Err_0) }
    else if created is Err { Err(created->Err_0) }
    else if updated is Err { Err(updated->Err_0) }
    else if ownership is Err { Err(ownership->Err_0) }
    else {
        Ok(BranchView {
            id: id->Ok_0,
            name: name->Ok_0,
            notes: notes->Ok_0,
            applied: applied_field(es),
            upstream: upstream->Ok_0,
            upstream_head: upstream_head->Ok_0,
            created_timestamp_ms: created->Ok_0,
            updated_timestamp_ms: updated->Ok_0,
            tree: tree->Ok_0,
            head: head->Ok_0,
            ownership: ownership->Ok_0,
            order: order->Ok_0,
        })
    }
}

fn read_text<'a>(r: &'a Reader, f: Field) -> (res: Result<&'a String, LoadError>)
    ensures
        match res {
            Ok(s) => text_field(lookup(r@, field_key(f)), f) == Result::<Seq<char>, LoadError>::Ok(s@),
            Err(e) => text_field(lookup(r@, field_key(f)), f) == Result::<Seq<char>, LoadError>::Err(e),
        },
{
    match r.read(f.key()) {
        None => Err(LoadError::NotFound(f)),
        Some(Content::Utf8(s)) => Ok(s),
        Some(Content::Binary(_)) => Err(LoadError::Invalid(f, Cause::NotText)),
    }
}

fn load_id(r: &Reader) -> (res: Result<BranchId, LoadError>)
    ensures
        match res {
            Ok(b) => id_field(r@) == Result::<Seq<u8>, LoadError>::Ok(b@) && b.wf(),
            Err(e) => id_field(r@) == Result::<Seq<u8>, LoadError>::Err(e),
        },
{
    let s = read_text(r, Field::Id)?;
    match BranchId::parse(s.as_str()) {
        Ok(b) => Ok(b),
        Err(_) => Err(LoadError::Invalid(Field::Id, Cause::MalformedIdentifier)),
    }
}

fn load_notes(r: &Reader) -> (res: Result<String, LoadError>)
    ensures
        match res {
            Ok(s) => notes_field(r@) == Result::<Seq<char>, LoadError>::Ok(s@),
            Err(e) => notes_field(r@) == Result::<Seq<char>, LoadError>::Err(e),
        },
{
    match r.read(Field::Notes.key()) {
        None => Ok(String::new()),
        Some(Content::Utf8(s)) => Ok(s.clone()),
        Some(Content::Binary(_)) => Err(LoadError::Invalid(Field::Notes, Cause::NotText)),
    }
}

fn load_applied(r: &Reader) -> (res: bool)
    ensures
        res == applied_field(r@),
{
    match r.read(Field::Applied.key()) {
        Some(Content::Utf8(s)) => {
            let t = String::from_str("true");
            *s == t
        },
        _ => false,
    }
}

fn load_order(r: &Reader) -> (res: Result<usize, LoadError>)
    ensures
        match res {
            Ok(n) => order_field(r@) == Result::<usize, LoadError>::Ok(n),
            Err(e) => order_field(r@) == Result::<usize, LoadError>::Err(e),
        },
{
    match r.read(Field::Order.key()) {
        None => Ok(0),
        Some(Content::Binary(_)) => Err(LoadError::Invalid(Field::Order, Cause::NotText)),
        Some(Content::Utf8(s)) => {
            let cs = crate::text::to_chars(s.as_str());
            match parse_dec(&cs) {
                Some(n) => if n <= usize::MAX as u128 {
                    Ok(n as usize)
                } else {
                    Err(LoadError::Invalid(Field::Order, Cause::MalformedNumber))
                },
                None => Err(LoadError::Invalid(Field::Order, Cause::MalformedNumber)),
            }
        },
    }
}

fn load_upstream_head(r: &Reader) -> (res: Result<Option<Oid>, LoadError>)
    ensures
        match res {
            Ok(o) => upstream_head_field(r@) == Result::<Option<Seq<u8>>, LoadError>::Ok(
                match o { Some(x) => Some(x@), None => None }) && (o matches Some(x) ==> x.wf()),
            Err(e) => upstream_head_field(r@) == Result::<Option<Seq<u8>>, LoadError>::Err(e),
        },
{
    match r.read(Field::UpstreamHead.key()) {
        Some(Content::Utf8(s)) => match Oid::parse(s.as_str()) {
            Some(o) => Ok(Some(o)),
            None => Err(LoadError::Invalid(Field::UpstreamHead, Cause::MalformedOid)),
        },
        _ => Ok(None),
    }
}

fn load_upstream(r: &Reader) -> (res: Result<Option<RemoteRefname>, LoadError>)
    ensures
        match res {
            Ok(u) => upstream_field(r@) == Result::<Option<(Seq<char>, Seq<char>)>, LoadError>::Ok(
                match u { Some(x) => Some(x@), None => None }) && (u matches Some(x) ==> x.wf()),
            Err(e) => upstream_field(r@) == Result::<Option<(Seq<char>, Seq<char>)>, LoadError>::Err(e),
        },
{
    match r.read(Field::Upstream.key()) {
        Some(Content::Utf8(s)) => {
            if s.as_str().is_empty() {
                Ok(None)
            } else {
                match RemoteRefname::parse(s.as_str()) {
                    Some(u) => Ok(Some(u)),
                    None => Err(LoadError::Invalid(Field::Upstream, Cause::MalformedRefname)),
                }
            }
        },
        _ => Ok(None),
    }
}

fn load_oid(r: &Reader, f: Field) -> (res: Result<Oid, LoadError>)
    ensures
        match res {
            Ok(o) => oid_field(r@, f) == Result::<Seq<u8>, LoadError>::Ok(o@) && o.wf(),
            Err(e) => oid_field(r@, f) == Result::<Seq<u8>, LoadError>::Err(e),
        },
{
    let s = read_text(r, f)?;
    match Oid::parse(s.as_str()) {
        Some(o) => Ok(o),
        None => Err(LoadError::Invalid(f, Cause::MalformedOid)),
    }
}

fn load_number(r: &Reader, f: Field) -> (res: Result<u128, LoadError>)
    ensures
        match res {
            Ok(n) => number_field(r@, f) == Result::<u128, LoadError>::Ok(n),
            Err(e) => number_field(r@, f) == Result::<u128, LoadError>::Err(e),
        },
{
    let s = read_text(r, f)?;
    let cs = crate::text::to_chars(s.as_str());
    match parse_dec(&cs) {
        Some(n) => Ok(n),
        None => Err(LoadError::Invalid(f, Cause::MalformedNumber)),
    }
}

fn load_ownership(r: &Reader) -> (res: Result<Ownership, LoadError>)
    ensures
        match res {
            Ok(o) => ownership_field(r@) == Result::<Seq<(Seq<char>, Seq<Hunk>)>, LoadError>::Ok(o@) && o.wf(),
            Err(e) => ownership_field(r@) == Result::<Seq<(Seq<char>, Seq<Hunk>)>, LoadError>::Err(e),
        },
{
    let s = read_text(r, Field::Ownership)?;
    match Ownership::parse(s.as_str()) {
        Ok(o) => Ok(o),
        Err(_) => Err(LoadError::Invalid(Field::Ownership, Cause::MalformedOwnership)),
    }
}

impl Branch {
    pub open spec fn wf(&self) -> bool {
        view_wf(self@)
    }

    /// Rebuilds a branch from its stored record. Mandatory fields fail when
    /// missing or malformed; notes and order default when missing; applied
    /// defaults on any trouble; the two upstream fields are unset when missing
    /// or not text. The first field at fault, in key order, is reported.
    pub fn load(reader: &Reader) -> (r: Result<Branch, LoadError>)
        ensures
            match r {
                Ok(b) => load_spec(reader@) == Result::<BranchView, LoadError>::Ok(b@) && b.wf(),
                Err(e) => load_spec(reader@) == Result::<BranchView, LoadError>::Err(e),
            },
    {
        let id = load_id(reader)?;
        let name = read_text(reader, Field::Name)?.clone();
        let notes = load_notes(reader)?;
        let applied = load_applied(reader);
        let order = load_order(reader)?;
        let upstream_head = load_upstream_head(reader)?;
        let upstream = load_upstream(reader)?;
        let tree = load_oid(reader, Field::Tree)?;
        let head = load_oid(reader, Field::Head)?;
        let created_timestamp_ms = load_number(reader, Field::CreatedTimestamp)?;
        let updated_timestamp_ms = load_number(reader, Field::UpdatedTimestamp)?;
        let ownership = load_ownership(reader)?;
        Ok(Branch {
            id,
            name,
            notes,
            applied,
            upstream,
            upstream_head,
            created_timestamp_ms,
            updated_timestamp_ms,
            tree,
            head,
            ownership,
            order,
        })
    }
}

/// The record that a branch is stored as: the ten fields that are always
/// written, then the upstream head and the upstream where they are set.
pub open spec fn store_spec(v: BranchView) -> Seq<(Seq<char>, ContentView)> {
    seq![
        (field_key(Field::Id), ContentView::Utf8(id_text(v.id))),
        (field_key(Field::Name), ContentView::Utf8(v.name)),
        (field_key(Field::Notes), ContentView::Utf8(v.notes)),
        (field_key(Field::Applied), ContentView::Utf8(if v.applied { "true"@ } else { "false"@ })),
        (field_key(Field::Order), ContentView::Utf8(dec(v.order as nat))),
        (field_key(Field::Tree), ContentView::Utf8(hex_text(v.tree))),
        (field_key(Field::Head), ContentView::Utf8(hex_text(v.head))),
        (field_key(Field::CreatedTimestamp), ContentView::Utf8(dec(v.created_timestamp_ms as nat))),
        (field_key(Field::UpdatedTimestamp), ContentView::Utf8(dec(v.updated_timestamp_ms as nat))),
        (field_key(Field::Ownership), ContentView::Utf8(ownership_text(v.ownership))),
    ] + match v.upstream_head {
        Some(o) => seq![(field_key(Field::UpstreamHead), ContentView::Utf8(hex_text(o)))],
        None => Seq::empty(),
    } + match v.upstream {
        Some(p) => seq![(field_key(Field::Upstream), ContentView::Utf8(remote_text(p)))],
        None => Seq::empty(),
    }
}

/// The fields in the order `store_spec` writes them.
pub open spec fn stored_fields(v: BranchView) -> Seq<Field> {
    seq![Field::Id, Field::Name, Field::Notes, Field::Applied, Field::Order, Field::Tree,
        Field::Head, Field::CreatedTimestamp, Field::UpdatedTimestamp, Field::Ownership]
        + match v.upstream_head { Some(_) => seq![Field::UpstreamHead], None => Seq::empty() }
        + match v.upstream { Some(_) => seq![Field::Upstream], None => Seq::empty() }
}

proof fn lemma_lookup_keyed(es: Seq<(Seq<char>, ContentView)>, fs: Seq<Field>, i: int)
    requires
        es.len() == fs.len(),
        forall|j: int| 0 <= j < es.len() ==> (#[trigger] es[j]).0 == field_key(fs[j]),
        forall|j: int, k: int| 0 <= j < k < fs.len() ==> #[trigger] fs[j] != #[trigger] fs[k],
        0 <= i < es.len(),
    ensures
        lookup(es, field_key(fs[i])) == Some(es[i].1),
{
    assert forall|j: int| 0 <= j < i implies (#[trigger] es[j]).0 != es[i].0 by {
        lemma_keys_distinct(fs[j], fs[i]);
    }
    lemma_lookup_at(es, i);
}

proof fn lemma_lookup_unkeyed(es: Seq<(Seq<char>, ContentView)>, fs: Seq<Field>, f: Field)
    requires
        es.len() == fs.len(),
        forall|j: int| 0 <= j < es.len() ==> (#[trigger] es[j]).0 == field_key(fs[j]),
        forall|j: int| 0 <= j < fs.len() ==> #[trigger] fs[j] != f,
    ensures
        lookup(es, field_key(f)) is None,
{
    assert forall|j: int| 0 <= j < es.len() implies (#[trigger] es[j]).0 != field_key(f) by {
        lemma_keys_distinct(fs[j], f);
    }
    lemma_lookup_absent(es, field_key(f));
}

proof fn lemma_store_shape(v: BranchView)
    ensures
        store_spec(v).len() == stored_fields(v).len(),
        forall|j: int| 0 <= j < store_spec(v).len() ==> (#[trigger] store_spec(v)[j]).0 == field_key(stored_fields(v)[j]),
        forall|j: int, k: int| 0 <= j < k < stored_fields(v).len() ==> #[trigger] stored_fields(v)[j] != #[trigger] stored_fields(v)[k],
        stored_fields(v).len() >= 10,
        store_spec(v)[0].1 == ContentView::Utf8(id_text(v.id)),
        store_spec(v)[1].1 == ContentView::Utf8(v.name),
        store_spec(v)[2].1 == ContentView::Utf8(v.notes),
        store_spec(v)[3].1 == ContentView::Utf8(if v.applied { "true"@ } else { "false"@ }),
        store_spec(v)[4].1 == ContentView::Utf8(dec(v.order as nat)),
        store_spec(v)[5].1 == ContentView::Utf8(hex_text(v.tree)),
        store_spec(v)[6].1 == ContentView::Utf8(hex_text(v.head)),
        store_spec(v)[7].1 == ContentView::Utf8(dec(v.created_timestamp_ms as nat)),
        store_spec(v)[8].1 == ContentView::Utf8(dec(v.updated_timestamp_ms as nat)),
        store_spec(v)[9].1 == ContentView::Utf8(ownership_text(v.ownership)),
        stored_fields(v)[0] == Field::Id,
        stored_fields(v)[1] == Field::Name,
        stored_fields(v)[2] == Field::Notes,
        stored_fields(v)[3] == Field::Applied,
        stored_fields(v)[4] == Field::Order,
        stored_fields(v)[5] == Field::Tree,
        stored_fields(v)[6] == Field::Head,
        stored_fields(v)[7] == Field::CreatedTimestamp,
        stored_fields(v)[8] == Field::UpdatedTimestamp,
        stored_fields(v)[9] == Field::Ownership,
        v.upstream_head matches Some(o) ==> stored_fields(v)[10] == Field::UpstreamHead
            && store_spec(v)[10].1 == ContentView::Utf8(hex_text(o)),
        v.upstream matches Some(p) ==> stored_fields(v)[stored_fields(v).len() - 1] == Field::Upstream
            && store_spec(v)[store_spec(v).len() - 1].1 == ContentView::Utf8(remote_text(p)),
        v.upstream_head is None ==> forall|j: int| 0 <= j < stored_fields(v).len() ==> #[trigger] stored_fields(v)[j] != Field::UpstreamHead,
        v.upstream is None ==> forall|j: int| 0 <= j < stored_fields(v).len() ==> #[trigger] stored_fields(v)[j] != Field::Upstream,
{
}

/// Storing a well-formed branch and loading the record back gives the same
/// branch, field for field, ownership included.
pub proof fn lemma_store_load(v: BranchView)
    requires
        view_wf(v),
    ensures
        load_spec(store_spec(v)) == Result::<BranchView, LoadError>::Ok(v),
{
    let es = store_spec(v);
    let fs = stored_fields(v);
    lemma_store_shape(v);
    let n = es.len() as int;
    lemma_lookup_keyed(es, fs, 0);
    lemma_lookup_keyed(es, fs, 1);
    lemma_lookup_keyed(es, fs, 2);
    lemma_lookup_keyed(es, fs, 3);
    lemma_lookup_keyed(es, fs, 4);
    lemma_lookup_keyed(es, fs, 5);
    lemma_lookup_keyed(es, fs, 6);
    lemma_lookup_keyed(es, fs, 7);
    lemma_lookup_keyed(es, fs, 8);
    lemma_lookup_keyed(es, fs, 9);
    match v.upstream_head {
        Some(o) => {
            lemma_lookup_keyed(es, fs, 10);
        },
        None => {
            lemma_lookup_unkeyed(es, fs, Field::UpstreamHead);
        },
    }
    match v.upstream {
        Some(p) => {
            lemma_lookup_keyed(es, fs, n - 1);
        },
        None => {
            lemma_lookup_unkeyed(es, fs, Field::Upstream);
        },
    }
    lemma_fields_load(es, v);
}

proof fn lemma_fields_load(es: Seq<(Seq<char>, ContentView)>, v: BranchView)
    requires
        view_wf(v),
        lookup(es, field_key(Field::Id)) == Some(ContentView::Utf8(id_text(v.id))),
        lookup(es, field_key(Field::Name)) == Some(ContentView::Utf8(v.name)),
        lookup(es, field_key(Field::Notes)) == Some(ContentView::Utf8(v.notes)),
        lookup(es, field_key(Field::Applied)) == Some(ContentView::Utf8(if v.applied { "true"@ } else { "false"@ })),
        lookup(es, field_key(Field::Order)) == Some(ContentView::Utf8(dec(v.order as nat))),
        lookup(es, field_key(Field::Tree)) == Some(ContentView::Utf8(hex_text(v.tree))),
        lookup(es, field_key(Field::Head)) == Some(ContentView::Utf8(hex_text(v.head))),
        lookup(es, field_key(Field::CreatedTimestamp)) == Some(ContentView::Utf8(dec(v.created_timestamp_ms as nat))),
        lookup(es, field_key(Field::UpdatedTimestamp)) == Some(ContentView::Utf8(dec(v.updated_timestamp_ms as nat))),
        lookup(es, field_key(Field::Ownership)) == Some(ContentView::Utf8(ownership_text(v.ownership))),
        lookup(es, field_key(Field::UpstreamHead)) == match v.upstream_head {
            Some(o) => Some(ContentView::Utf8(hex_text(o))),
            None => None,
        },
        lookup(es, field_key(Field::Upstream)) == match v.upstream {
            Some(p) => Some(ContentView::Utf8(remote_text(p))),
            None => None,
        },
    ensures
        load_spec(es) == Result::<BranchView, LoadError>::Ok(v),
{
    lemma_id_round_trip(v.id);
    lemma_dec_read(v.order as nat);
    lemma_oid_round_trip(v.tree);
    lemma_oid_round_trip(v.head);
    lemma_dec_read(v.created_timestamp_ms as nat);
    lemma_dec_read(v.updated_timestamp_ms as nat);
    lemma_ownership_round_trip(v.ownership);
    reveal_strlit("true");
    reveal_strlit("false");
    assert("false"@ != "true"@) by {
        assert("false"@.len() != "true"@.len());
    }
    assert(applied_field(es) == v.applied);
    match v.upstream_head {
        Some(o) => {
            lemma_oid_round_trip(o);
        },
        None => {},
    }
    match v.upstream {
        Some(p) => {
            lemma_remote_round_trip(p);
            assert(remote_text(p).len() > 0);
        },
        None => {},
    }
}

fn text_entry(f: Field, s: String) -> (e: Entry)
    ensures
        e@ == (field_key(f), ContentView::Utf8(s@)),
{
    Entry { key: String::from_str(f.key()), value: Content::Utf8(s) }
}

fn dec_string(n: u128) -> (r: String)
    ensures
        r@ == dec(n as nat),
{
    let mut out: Vec<char> = Vec::new();
    write_dec(n, &mut out);
    proof {
        assert(out@ =~= dec(n as nat));
    }
    from_chars(&out)
}

impl Branch {
    /// The record to store this branch as, one entry per key.
    pub fn store(&self) -> (r: Vec<Entry>)
        requires
            self.wf(),
        ensures
            r@.map_values(|e: Entry| e@) == store_spec(self@),
    {
        let mut r: Vec<Entry> = Vec::new();
        r.push(text_entry(Field::Id, self.id.to_text()));
        r.push(text_entry(Field::Name, self.name.clone()));
        r.push(text_entry(Field::Notes, self.notes.clone()));
        let applied = if self.applied { String::from_str("true") } else { String::from_str("false") };
        r.push(text_entry(Field::Applied, applied));
        r.push(text_entry(Field::Order, dec_string(self.order as u128)));
        r.push(text_entry(Field::Tree, self.tree.to_text()));
        r.push(text_entry(Field::Head, self.head.to_text()));
        r.push(text_entry(Field::CreatedTimestamp, dec_string(self.created_timestamp_ms)));
        r.push(text_entry(Field::UpdatedTimestamp, dec_string(self.updated_timestamp_ms)));
        r.push(text_entry(Field::Ownership, self.ownership.to_text()));
        let ghost base = r@.map_values(|e: Entry| e@);
        match &self.upstream_head {
            Some(o) => r.push(text_entry(Field::UpstreamHead, o.to_text())),
            None => {},
        }
        let ghost mid = r@.map_values(|e: Entry| e@);
        match &self.upstream {
            Some(u) => r.push(text_entry(Field::Upstream, u.to_text())),
            None => {},
        }
        proof {
            let v = self@;
            assert(base =~= seq![
                (field_key(Field::Id), ContentView::Utf8(id_text(v.id))),
                (field_key(Field::Name), ContentView::Utf8(v.name)),
                (field_key(Field::Notes), ContentView::Utf8(v.notes)),
                (field_key(Field::Applied), ContentView::Utf8(if v.applied { "true"@ } else { "false"@ })),
                (field_key(Field::Order), ContentView::Utf8(dec(v.order as nat))),
                (field_key(Field::Tree), ContentView::Utf8(hex_text(v.tree))),
                (field_key(Field::Head), ContentView::Utf8(hex_text(v.head))),
                (field_key(Field::CreatedTimestamp), ContentView::Utf8(dec(v.created_timestamp_ms as nat))),
                (field_key(Field::UpdatedTimestamp), ContentView::Utf8(dec(v.updated_timestamp_ms as nat))),
                (field_key(Field::Ownership), ContentView::Utf8(ownership_text(v.ownership))),
            ]);
            assert(r@.map_values(|e: Entry| e@) =~= store_spec(v));
        }
        r
    }
}

/// Whether `f` must be present for a record to load.
pub open spec fn mandatory(f: Field) -> bool {
    f == Field::Id || f == Field::Name || f == Field::Tree || f == Field::Head
        || f == Field::CreatedTimestamp || f == Field::UpdatedTimestamp || f == Field::Ownership
}

/// The field that a load error names.
pub open spec fn error_field(e: LoadError) -> Field {
    match e {
        LoadError::NotFound(f) => f,
        LoadError::Invalid(f, _) => f,
    }
}

/// A record without notes, applied flag, order, upstream or upstream head
/// loads with their defaults: empty notes, not applied, order zero, no
/// upstream. Their absence causes no error: a failure names a mandatory field.
pub proof fn lemma_optional_defaults(es: Seq<(Seq<char>, ContentView)>)
    requires
        lookup(es, field_key(Field::Notes)) is None,
        lookup(es, field_key(Field::Applied)) is None,
        lookup(es, field_key(Field::Order)) is None,
        lookup(es, field_key(Field::Upstream)) is None,
        lookup(es, field_key(Field::UpstreamHead)) is None,
    ensures
        load_spec(es) matches Ok(b) ==> b.notes == Seq::<char>::empty() && !b.applied && b.order == 0
            && b.upstream is None && b.upstream_head is None,
        load_spec(es) matches Err(e) ==> mandatory(error_field(e)),
{
}

/// A missing mandatory field makes loading fail.
pub proof fn lemma_mandatory_missing(es: Seq<(Seq<char>, ContentView)>, f: Field)
    requires
        mandatory(f),
        lookup(es, field_key(f)) is None,
    ensures
        load_spec(es) is Err,
{
}

/// The position of a field in the order in which loading reads them.
pub open spec fn load_rank(f: Field) -> nat {
    match f {
        Field::Id => 0,
        Field::Name => 1,
        Field::Notes => 2,
        Field::Order => 3,
        Field::UpstreamHead => 4,
        Field::Upstream => 5,
        Field::Tree => 6,
        Field::Head => 7,
        Field::CreatedTimestamp => 8,
        Field::UpdatedTimestamp => 9,
        Field::Ownership => 10,
        Field::Applied => 11,
    }
}

/// Whether field `f` of the record reads without error.
pub open spec fn field_ok(es: Seq<(Seq<char>, ContentView)>, f: Field) -> bool {
    match f {
        Field::Id => id_field(es) is Ok,
        Field::Name => text_field(lookup(es, field_key(Field::Name)), Field::Name) is Ok,
        Field::Notes => notes_field(es) is Ok,
        Field::Applied => true,
        Field::Order => order_field(es) is Ok,
        Field::UpstreamHead => upstream_head_field(es) is Ok,
        Field::Upstream => upstream_field(es) is Ok,
        Field::Tree => oid_field(es, Field::Tree) is Ok,
        Field::Head => oid_field(es, Field::Head) is Ok,
        Field::CreatedTimestamp => number_field(es, Field::CreatedTimestamp) is Ok,
        Field::UpdatedTimestamp => number_field(es, Field::UpdatedTimestamp) is Ok,
        Field::Ownership => ownership_field(es) is Ok,
    }
}

/// A missing mandatory key is reported as `NotFound` of its field, unless a
/// field read before it fails first.
pub proof fn lemma_missing_reported(es: Seq<(Seq<char>, ContentView)>, f: Field)
    requires
        mandatory(f),
        lookup(es, field_key(f)) is None,
        forall|g: Field| load_rank(g) < load_rank(f) ==> #[trigger] field_ok(es, g),
    ensures
        load_spec(es) == Result::<BranchView, LoadError>::Err(LoadError::NotFound(f)),
{
    assert(load_rank(Field::Id) < load_rank(f) ==> field_ok(es, Field::Id));
    assert(load_rank(Field::Name) < load_rank(f) ==> field_ok(es, Field::Name));
    assert(load_rank(Field::Notes) < load_rank(f) ==> field_ok(es, Field::Notes));
    assert(load_rank(Field::Order) < load_rank(f) ==> field_ok(es, Field::Order));
    assert(load_rank(Field::UpstreamHead) < load_rank(f) ==> field_ok(es, Field::UpstreamHead));
    assert(load_rank(Field::Upstream) < load_rank(f) ==> field_ok(es, Field::Upstream));
    assert(load_rank(Field::Tree) < load_rank(f) ==> field_ok(es, Field::Tree));
    assert(load_rank(Field::Head) < load_rank(f) ==> field_ok(es, Field::Head));
    assert(load_rank(Field::CreatedTimestamp) < load_rank(f) ==> field_ok(es, Field::CreatedTimestamp));
    assert(load_rank(Field::UpdatedTimestamp) < load_rank(f) ==> field_ok(es, Field::UpdatedTimestamp));
}

/// With the fields before it readable, a missing tree fails as
/// `NotFound(Tree)`, and tree text that is no object identifier fails as
/// `Invalid(Tree, MalformedOid)`.
pub proof fn lemma_tree_failures(es: Seq<(Seq<char>, ContentView)>)
    requires
        id_field(es) is Ok,
        text_field(lookup(es, field_key(Field::Name)), Field::Name) is Ok,
        notes_field(es) is Ok,
        order_field(es) is Ok,
        upstream_head_field(es) is Ok,
        upstream_field(es) is Ok,
    ensures
        lookup(es, field_key(Field::Tree)) is None ==>
            load_spec(es) == Result::<BranchView, LoadError>::Err(LoadError::NotFound(Field::Tree)),
        lookup(es, field_key(Field::Tree)) matches Some(ContentView::Utf8(s)) && parse_oid_spec(s) is None ==>
            load_spec(es) == Result::<BranchView, LoadError>::Err(LoadError::Invalid(Field::Tree, Cause::MalformedOid)),
{
}

/// A stored upstream of empty text loads as no upstream, not as an error.
pub proof fn lemma_empty_upstream(es: Seq<(Seq<char>, ContentView)>)
    requires
        lookup(es, field_key(Field::Upstream)) == Some(ContentView::Utf8(Seq::empty())),
    ensures
        upstream_field(es) == Result::<Option<(Seq<char>, Seq<char>)>, LoadError>::Ok(None),
        load_spec(es) matches Ok(b) ==> b.upstream is None,
        load_spec(es) matches Err(e) ==> error_field(e) != Field::Upstream,
{
}

/// A partial change to a stored branch; `None` leaves a field as it is.
#[derive(Debug)]
pub struct BranchUpdateRequest {
    pub id: BranchId,
    pub name: Option<String>,
    pub notes: Option<String>,
    pub ownership: Option<Ownership>,
    pub order: Option<usize>,
    /// The bare branch name on the remote, such as `feature`.
    pub upstream: Option<String>,
}

/// What a new branch may be given; the rest is filled in.
#[derive(Debug)]
pub struct BranchCreateRequest {
    pub name: Option<String>,
    pub ownership: Option<Ownership>,
    pub order: Option<usize>,
}

/// The branch `v` after `req`, with `remote` qualifying the upstream name and
/// `now` as the modification time.
pub open spec fn update_spec(v: BranchView, req: &BranchUpdateRequest, remote: Seq<char>, now: u128) -> BranchView {
    BranchView {
        id: v.id,
        name: match req.name { Some(n) => n@, None => v.name },
        notes: match req.notes { Some(n) => n@, None => v.notes },
        applied: v.applied,
        upstream: match req.upstream { Some(u) => Some((remote, u@)), None => v.upstream },
        upstream_head: v.upstream_head,
        created_timestamp_ms: v.created_timestamp_ms,
        updated_timestamp_ms: now,
        tree: v.tree,
        head: v.head,
        ownership: match req.ownership { Some(o) => o@, None => v.ownership },
        order: match req.order { Some(o) => o, None => v.order },
    }
}

fn has_slash(s: &String) -> (r: bool)
    ensures
        r == crate::text::has_char(s@, '/'),
{
    let cs = crate::text::to_chars(s.as_str());
    let mut i: usize = 0;
    while i < cs.len()
        invariant
            i <= cs@.len(),
            cs@ == s@,
            forall|k: int| 0 <= k < i ==> cs@[k] != '/',
        decreases cs@.len() - i,
    {
        if cs[i] == '/' {
            return true;
        }
        i = i + 1;
    }
    false
}

impl Branch {
    /// A new branch: name, ownership and order from `req` where given, else
    /// `default_name`, no hunks and `next_order`; not applied, no notes, no
    /// upstream, created and modified at `now_ms`.
    pub fn from_create_request(
        req: BranchCreateRequest,
        id: BranchId,
        tree: Oid,
        head: Oid,
        now_ms: u128,
        default_name: String,
        next_order: usize,
    ) -> (b: Branch)
        requires
            id.wf(),
            tree.wf(),
            head.wf(),
            req.ownership matches Some(o) ==> o.wf(),
        ensures
            b.wf(),
            b@ == (BranchView {
                id: id@,
                name: match req.name { Some(n) => n@, None => default_name@ },
                notes: Seq::empty(),
                applied: false,
                upstream: None,
                upstream_head: None,
                created_timestamp_ms: now_ms,
                updated_timestamp_ms: now_ms,
                tree: tree@,
                head: head@,
                ownership: match req.ownership { Some(o) => o@, None => Seq::empty() },
                order: match req.order { Some(o) => o, None => next_order },
            }),
    {
        let name = match req.name { Some(n) => n, None => default_name };
        let ownership = match req.ownership { Some(o) => o, None => Ownership::new() };
        let order = match req.order { Some(o) => o, None => next_order };
        Branch {
            id,
            name,
            notes: String::new(),
            applied: false,
            upstream: None,
            upstream_head: None,
            created_timestamp_ms: now_ms,
            updated_timestamp_ms: now_ms,
            tree,
            head,
            ownership,
            order,
        }
    }

    /// Applies `req`: each field it gives replaces this branch's, the others
    /// stay, and the modification time becomes `now_ms`. The upstream name is
    /// qualified with `remote`; a remote with `/` or an empty name is refused,
    /// and then nothing changes.
    pub fn apply_update(&mut self, req: BranchUpdateRequest, remote: &String, now_ms: u128) -> (r: Result<(), LoadError>)
        requires
            old(self).wf(),
            req.ownership matches Some(o) ==> o.wf(),
        ensures
            r is Err <==> (req.upstream matches Some(u) && !remote_parts_wf((remote@, u@))),
            r is Err ==> r == Result::<(), LoadError>::Err(LoadError::Invalid(Field::Upstream, Cause::MalformedRefname))
                && final(self)@ == old(self)@,
            r is Ok ==> final(self)@ == update_spec(old(self)@, &req, remote@, now_ms) && final(self).wf(),
    {
        let ghost req_v = update_spec(self@, &req, remote@, now_ms);
        let upstream = match req.upstream {
            Some(u) => {
                if remote.as_str().is_empty() || has_slash(remote) || u.as_str().is_empty() {
                    return Err(LoadError::Invalid(Field::Upstream, Cause::MalformedRefname));
                }
                Some(RemoteRefname { remote: remote.clone(), branch: u })
            },
            None => None,
        };
        match req.name {
            Some(n) => self.name = n,
            None => {},
        }
        match req.notes {
            Some(n) => self.notes = n,
            None => {},
        }
        match req.ownership {
            Some(o) => self.ownership = o,
            None => {},
        }
        match req.order {
            Some(o) => self.order = o,
            None => {},
        }
        match upstream {
            Some(u) => self.upstream = Some(u),
            None => {},
        }
        self.updated_timestamp_ms = now_ms;
        proof {
            assert(self@ == req_v);
        }
        Ok(())
    }

    /// Whether every field holds a value that its encoding can carry, as
    /// `store` asks.
    pub fn is_well_formed(&self) -> (r: bool)
        ensures
            r == self.wf(),
    {
        if self.id.bytes.len() != ID_LEN || self.tree.bytes.len() != OID_LEN || self.head.bytes.len() != OID_LEN {
            return false;
        }
        match &self.upstream_head {
            Some(o) => if o.bytes.len() != OID_LEN {
                return false;
            },
            None => {},
        }
        match &self.upstream {
            Some(u) => if u.remote.as_str().is_empty() || has_slash(&u.remote) || u.branch.as_str().is_empty() {
                return false;
            },
            None => {},
        }
        self.ownership.is_well_formed()
    }

    /// The synthetic reference of this branch: its name with each run of
    /// characters other than letters, digits, `_`, `/` and `.` made one `-`.
    pub fn refname(&self) -> (r: VirtualRefname)
        ensures
            r.branch@ == normalize(self.name@),
    {
        VirtualRefname { branch: normalize_branch_name(self.name.as_str()) }
    }
}

} // verus!
