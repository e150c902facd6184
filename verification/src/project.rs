//! A parsed `.csproj` project: its name, its project references and its package
//! references, read from the file's XML with `quick_xml`.

use vstd::prelude::*;

use quick_xml::events::{BytesStart, Event};

use crate::paths::{
    extension_of, file_stem, file_stem_of, has_extension, join, joined, parent, parent_of,
};
use crate::text::eq_ascii_case_insensitive;
use crate::text::{find_first, found_at, occurs_at, owned, push_bytes, utf8_text};
use vstd::string::StringSliceAdditionalSpecFns;
use vstd::utf8::{decode_utf8, encode_utf8, valid_utf8};

verus! {

/// A project file and the references it declares.
#[derive(Debug)]
pub struct ProjectFile {
    /// Path of the `.csproj` file.
    pub path: String,
    /// The file's stem, e.g. `MyApp.Domain`.
    pub name: String,
    pub project_refs: Vec<ProjectRef>,
    pub package_refs: Vec<PackageRef>,
}

/// A `<ProjectReference Include=".."/>`.
#[derive(Debug)]
pub struct ProjectRef {
    /// The `Include` attribute.
    pub target: String,
    /// The `(start, len)` byte range of the `Include` attribute's value in the file.
    pub include_span: (usize, usize),
    /// The referenced path joined to the project's directory (best effort).
    pub resolved: Option<String>,
}

/// A `<PackageReference Include=".." Version=".."/>`; the version is empty when absent.
#[derive(Debug)]
pub struct PackageRef {
    pub name: String,
    /// The `(start, len)` byte range of the `Include` attribute's value in the file.
    pub name_span: (usize, usize),
    pub version: String,
}

/// Why a project file could not be read.
#[derive(Debug)]
pub enum ProjectError {
    /// The path has no file stem to name the project by.
    NoFileStem,
    /// The XML reader failed, with its message.
    Xml(String),
}

/// An element tag: its name, its attributes (`None` for one the reader could not read), its
/// bytes between `<` and `>` (without the `/` of an empty-element tag), and the reader's
/// byte position just after its `>`.
pub struct XmlTag {
    pub name: Vec<u8>,
    pub attributes: Vec<Option<(Vec<u8>, Vec<u8>)>>,
    pub raw: Vec<u8>,
    pub end: u64,
}

/// One event of the XML reader, as far as project files need it.
pub enum XmlEvent {
    Start(XmlTag),
    Empty(XmlTag),
    Other,
    Eof,
    Error(String),
}

/// The value of an element tag.
pub struct TagView {
    pub name: Seq<u8>,
    pub attributes: Seq<Option<(Seq<u8>, Seq<u8>)>>,
    pub raw: Seq<u8>,
    pub end: int,
}

/// The value of a reader event.
pub enum XmlStep {
    Start(TagView),
    Empty(TagView),
    Other,
    Eof,
    Error(Seq<char>),
}

impl View for XmlTag {
    type V = TagView;

    open spec fn view(&self) -> TagView {
        TagView {
            name: self.name@,
            attributes: self.attributes@.map_values(
                |a: Option<(Vec<u8>, Vec<u8>)>|
                    match a {
                        Some(kv) => Some((kv.0@, kv.1@)),
                        None => None,
                    },
            ),
            raw: self.raw@,
            end: self.end as int,
        }
    }
}

impl View for XmlEvent {
    type V = XmlStep;

    open spec fn view(&self) -> XmlStep {
        match self {
            XmlEvent::Start(t) => XmlStep::Start(t@),
            XmlEvent::Empty(t) => XmlStep::Empty(t@),
            XmlEvent::Other => XmlStep::Other,
            XmlEvent::Eof => XmlStep::Eof,
            XmlEvent::Error(m) => XmlStep::Error(m@),
        }
    }
}

/// The step ends the reading: the end of the document or an error.
pub open spec fn is_stop(s: XmlStep) -> bool {
    s is Eof || s is Error
}

/// Steps that end in exactly one stop.
pub open spec fn well_ended(steps: Seq<XmlStep>) -> bool {
    &&& steps.len() > 0
    &&& is_stop(steps.last())
    &&& forall|k: int| 0 <= k < steps.len() - 1 ==> !is_stop(#[trigger] steps[k])
}

/// Whether `bytes` begins with the UTF-8 byte-order mark.
pub open spec fn has_bom(bytes: Seq<u8>) -> bool {
    bytes.len() >= 3 && bytes[0] == 0xEFu8 && bytes[1] == 0xBBu8 && bytes[2] == 0xBFu8
}

/// The length of the byte-order mark at the start of `bytes`: 3 or 0.
pub open spec fn bom_len(bytes: Seq<u8>) -> int {
    if has_bom(bytes) {
        3
    } else {
        0
    }
}

/// The bytes the XML reader counts positions in: the file without its byte-order mark.
pub open spec fn xml_body(bytes: Seq<u8>) -> Seq<u8> {
    bytes.subrange(bom_len(bytes), bytes.len() as int)
}

/// The text of a start tag (`<` raw `>`) or of an empty-element tag (`<` raw `/>`).
pub open spec fn tag_text(s: XmlStep) -> Seq<u8> {
    match s {
        XmlStep::Start(t) => seq![60u8] + t.raw + seq![62u8],
        XmlStep::Empty(t) => seq![60u8] + t.raw + seq![47u8, 62u8],
        _ => seq![],
    }
}

/// A tag step's text stands in the body of the file `bytes` and ends at the step's `end`.
pub open spec fn step_placed(bytes: Seq<u8>, s: XmlStep) -> bool {
    match tag_of(s) {
        Some(t) => tag_text(s).len() <= t.end <= xml_body(bytes).len() && xml_body(bytes).subrange(
            t.end - tag_text(s).len(),
            t.end,
        ) == tag_text(s),
        None => true,
    }
}

/// The position in the file `bytes` of the first byte of a tag step's raw text (just after
/// its `<`).
pub open spec fn raw_start(bytes: Seq<u8>, s: XmlStep) -> int {
    bom_len(bytes) + tag_of(s)->0.end - tag_text(s).len() + 1
}

/// The events that `quick_xml::Reader::from_str(content)` with `trim_text(true)` returns
/// from `read_event`, up to and including the end of the document or the first error.
pub uninterp spec fn xml_steps(content: Seq<char>) -> Seq<XmlStep>;

#[verifier::external_type_specification]
#[verifier::external_body]
#[verifier::reject_recursive_types(R)]
pub struct ExXmlReader<R>(quick_xml::Reader<R>);

/// An XML reader over a string, with the events it will return and how many it has.
pub struct XmlCursor<'a> {
    reader: quick_xml::Reader<&'a [u8]>,
    pub steps: Ghost<Seq<XmlStep>>,
    pub pos: Ghost<nat>,
}

/// Calls `quick_xml::Reader::from_str(content)` and sets `trim_text(true)`. Claimed: the
/// reader will return `xml_steps(content)`, a finite sequence that ends with the end of the
/// document or an error; each start or empty-element tag is the text of the file, past a
/// UTF-8 byte-order mark, that ends at the tag's `end`. The reader drops the mark without
/// counting it, reads a tag up to its `>` and hands out the bytes in between (less a
/// closing `/`), and after it `buffer_position` is the count of bytes consumed.
#[verifier::external_body]
fn xml_cursor<'a>(content: &'a str) -> (r: XmlCursor<'a>)
    ensures
        r.steps@ == xml_steps(content@),
        r.pos@ == 0,
        well_ended(r.steps@),
        forall|k: int|
            0 <= k < r.steps@.len() ==> step_placed(content.spec_bytes(), #[trigger] r.steps@[k]),
{
    let mut reader = quick_xml::Reader::from_str(content);
    reader.config_mut().trim_text(true);
    XmlCursor { reader, steps: Ghost(Seq::empty()), pos: Ghost(0) }
}

/// Calls `Reader::read_event` and then `buffer_position`, and converts the event: the tag
/// name, attributes (the key and raw value of each, or `None` for one that fails to read),
/// raw bytes and end position of a start or empty tag, and the message of an error.
/// Claimed: the event is the next of the reader's steps.
#[verifier::external_body]
fn xml_next<'a>(cur: &mut XmlCursor<'a>) -> (r: XmlEvent)
    requires
        old(cur).pos@ < old(cur).steps@.len(),
    ensures
        final(cur).steps == old(cur).steps,
        final(cur).pos@ == old(cur).pos@ + 1,
        r@ == old(cur).steps@[old(cur).pos@ as int],
{
    let event = cur.reader.read_event();
    let end = cur.reader.buffer_position();
    let tag = |e: &BytesStart| XmlTag {
        name: e.name().0.to_vec(),
        attributes: e.attributes().map(|a| a.ok().map(|a| (a.key.0.to_vec(), a.value.to_vec()))).collect(),
        raw: e.to_vec(),
        end,
    };
    match event {
        Ok(Event::Start(e)) => XmlEvent::Start(tag(&e)),
        Ok(Event::Empty(e)) => XmlEvent::Empty(tag(&e)),
        Ok(Event::Eof) => XmlEvent::Eof,
        Ok(_) => XmlEvent::Other,
        Err(e) => XmlEvent::Error(e.to_string()),
    }
}

/// Attribute `k` of `attrs` could be read and has key `key`.
pub open spec fn attr_selects(attrs: Seq<Option<(Seq<u8>, Seq<u8>)>>, key: Seq<u8>) -> spec_fn(
    int,
) -> bool {
    |k: int| attrs[k] is Some && attrs[k].unwrap().0 == key
}

/// The value of the first readable attribute with key `key`, when it is valid UTF-8.
pub open spec fn attr_text(tag: TagView, key: Seq<u8>) -> Option<Seq<char>> {
    match crate::search::first_index(tag.attributes.len(), attr_selects(tag.attributes, key)) {
        Some(k) => if valid_utf8(tag.attributes[k].unwrap().1) {
            Some(decode_utf8(tag.attributes[k].unwrap().1))
        } else {
            None
        },
        None => None,
    }
}

/// The raw value of the first readable attribute with key `key`.
pub open spec fn attr_raw(tag: TagView, key: Seq<u8>) -> Option<Seq<u8>> {
    match crate::search::first_index(tag.attributes.len(), attr_selects(tag.attributes, key)) {
        Some(k) => Some(tag.attributes[k].unwrap().1),
        None => None,
    }
}

/// The text `key="v"` (with `q` for the quote) of an attribute.
pub open spec fn attr_pattern(key: Seq<u8>, v: Seq<u8>, q: u8) -> Seq<u8> {
    key + seq![61u8, q] + v + seq![q]
}

/// Where, in a tag's raw text, the value `v` of attribute `key` starts: just inside the
/// quotes of the first `key="v"`, or else of the first `key='v'`; failing both, at the
/// first occurrence of `v`, or else at 0.
pub open spec fn value_offset(raw: Seq<u8>, key: Seq<u8>, v: Seq<u8>) -> int {
    match found_at(raw, attr_pattern(key, v, 34u8)) {
        Some(p) => p + key.len() + 2,
        None => match found_at(raw, attr_pattern(key, v, 39u8)) {
            Some(p) => p + key.len() + 2,
            None => match found_at(raw, v) {
                Some(p) => p,
                None => 0,
            },
        },
    }
}

/// The `(start, len)` range in the file of the value of attribute `key` of a tag whose raw
/// text starts at byte `start`.
pub open spec fn value_span(start: int, t: TagView, key: Seq<u8>) -> (int, int) {
    (start + value_offset(t.raw, key, attr_raw(t, key)->0), attr_raw(t, key)->0.len() as int)
}

/// The reference-resolved path: `target` joined to the directory of `path`.
pub open spec fn resolve_against(path: Seq<char>, target: Seq<char>) -> Option<Seq<char>> {
    match parent_of(path) {
        Some(dir) => Some(joined(dir, target)),
        None => None,
    }
}

/// The tag of a start or empty-element step.
pub open spec fn tag_of(s: XmlStep) -> Option<TagView> {
    match s {
        XmlStep::Start(t) => Some(t),
        XmlStep::Empty(t) => Some(t),
        _ => None,
    }
}

/// The project reference that step `s` declares, as (include, resolved path, span of the
/// include value), for a tag whose raw text starts at byte `start` of the file.
pub open spec fn step_ref(path: Seq<char>, start: int, s: XmlStep) -> Seq<
    (Seq<char>, Option<Seq<char>>, (int, int)),
> {
    match tag_of(s) {
        Some(t) => if t.name == "ProjectReference".spec_bytes() {
            match attr_text(t, "Include".spec_bytes()) {
                Some(inc) => seq![
                    (inc, resolve_against(path, inc), value_span(start, t, "Include".spec_bytes())),
                ],
                None => seq![],
            }
        } else {
            seq![]
        },
        None => seq![],
    }
}

/// The package reference that step `s` declares, as (name, version or empty, span of the
/// name), for a tag whose raw text starts at byte `start` of the file.
pub open spec fn step_pkg(start: int, s: XmlStep) -> Seq<(Seq<char>, Seq<char>, (int, int))> {
    match tag_of(s) {
        Some(t) => if t.name == "PackageReference".spec_bytes() {
            match attr_text(t, "Include".spec_bytes()) {
                Some(name) => seq![
                    (
                        name,
                        match attr_text(t, "Version".spec_bytes()) {
                            Some(v) => v,
                            None => seq![],
                        },
                        value_span(start, t, "Include".spec_bytes()),
                    ),
                ],
                None => seq![],
            }
        } else {
            seq![]
        },
        None => seq![],
    }
}

/// The project references declared by the first `n` steps of reading the file `bytes`.
pub open spec fn steps_refs(path: Seq<char>, bytes: Seq<u8>, steps: Seq<XmlStep>, n: nat) -> Seq<
    (Seq<char>, Option<Seq<char>>, (int, int)),
>
    decreases n,
{
    if n == 0 {
        seq![]
    } else {
        steps_refs(path, bytes, steps, (n - 1) as nat) + step_ref(
            path,
            raw_start(bytes, steps[n - 1]),
            steps[n - 1],
        )
    }
}

/// The package references declared by the first `n` steps of reading the file `bytes`.
pub open spec fn steps_pkgs(bytes: Seq<u8>, steps: Seq<XmlStep>, n: nat) -> Seq<
    (Seq<char>, Seq<char>, (int, int)),
>
    decreases n,
{
    if n == 0 {
        seq![]
    } else {
        steps_pkgs(bytes, steps, (n - 1) as nat) + step_pkg(
            raw_start(bytes, steps[n - 1]),
            steps[n - 1],
        )
    }
}

/// The value of an optional string.
pub open spec fn opt_view(o: Option<String>) -> Option<Seq<char>> {
    match o {
        Some(s) => Some(s@),
        None => None,
    }
}

/// The value of a byte range.
pub open spec fn span_view(r: (usize, usize)) -> (int, int) {
    (r.0 as int, r.1 as int)
}

/// The values of project references.
pub open spec fn ref_views(refs: Seq<ProjectRef>) -> Seq<(Seq<char>, Option<Seq<char>>, (int, int))> {
    refs.map_values(|r: ProjectRef| (r.target@, opt_view(r.resolved), span_view(r.include_span)))
}

/// The values of package references.
pub open spec fn pkg_views(pkgs: Seq<PackageRef>) -> Seq<(Seq<char>, Seq<char>, (int, int))> {
    pkgs.map_values(|p: PackageRef| (p.name@, p.version@, span_view(p.name_span)))
}

/// Whether the two byte strings are equal.
fn bytes_eq(a: &[u8], b: &[u8]) -> (r: bool)
    ensures
        r == (a@ == b@),
{
    if a.len() != b.len() {
        return false;
    }
    let mut i: usize = 0;
    while i < a.len()
        invariant
            a@.len() == b@.len(),
            i <= a@.len(),
            forall|k: int| 0 <= k < i ==> a@[k] == b@[k],
        decreases a@.len() - i,
    {
        if a[i] != b[i] {
            return false;
        }
        i = i + 1;
    }
    proof {
        assert(a@ =~= b@);
    }
    true
}

/// The text of the first readable attribute of `tag` with key `key`.
pub fn attr_value(tag: &XmlTag, key: &[u8]) -> (r: Option<String>)
    ensures
        opt_view(r) == attr_text(tag@, key@),
{
    let ghost attrs = tag@.attributes;
    let ghost p = attr_selects(attrs, key@);
    let mut k: usize = 0;
    while k < tag.attributes.len()
        invariant
            k <= tag.attributes@.len(),
            attrs == tag@.attributes,
            p == attr_selects(attrs, key@),
            crate::search::first_index(k as nat, p) is None,
        decreases tag.attributes@.len() - k,
    {
        let hit = match &tag.attributes[k] {
            Some(kv) => bytes_eq(kv.0.as_slice(), key),
            None => false,
        };
        proof {
            assert(p(k as int) == hit);
            crate::search::lemma_first_index_step(k as nat, p);
            crate::search::lemma_first_index(k as nat, p);
            crate::search::lemma_first_index(attrs.len(), p);
        }
        if hit {
            match &tag.attributes[k] {
                Some(kv) => {
                    return utf8_text(kv.1.as_slice());
                },
                None => {
                    return None;
                },
            }
        }
        k = k + 1;
    }
    None
}

/// The raw value of the first readable attribute of `tag` with key `key`.
fn attr_raw_value<'a>(tag: &'a XmlTag, key: &[u8]) -> (r: Option<&'a Vec<u8>>)
    ensures
        match attr_raw(tag@, key@) {
            Some(v) => r matches Some(x) && x@ == v,
            None => r is None,
        },
{
    let ghost attrs = tag@.attributes;
    let ghost p = attr_selects(attrs, key@);
    let mut k: usize = 0;
    while k < tag.attributes.len()
        invariant
            k <= tag.attributes@.len(),
            attrs == tag@.attributes,
            p == attr_selects(attrs, key@),
            crate::search::first_index(k as nat, p) is None,
        decreases tag.attributes@.len() - k,
    {
        let hit = match &tag.attributes[k] {
            Some(kv) => bytes_eq(kv.0.as_slice(), key),
            None => false,
        };
        proof {
            assert(p(k as int) == hit);
            crate::search::lemma_first_index_step(k as nat, p);
            crate::search::lemma_first_index(k as nat, p);
            crate::search::lemma_first_index(attrs.len(), p);
        }
        if hit {
            match &tag.attributes[k] {
                Some(kv) => {
                    return Some(&kv.1);
                },
                None => {
                    return None;
                },
            }
        }
        k = k + 1;
    }
    None
}

/// The bytes of `key="v"`, with `q` for the quote.
fn attr_pattern_bytes(key: &[u8], v: &[u8], q: u8) -> (r: Vec<u8>)
    ensures
        r@ == attr_pattern(key@, v@, q),
{
    let mut out: Vec<u8> = Vec::new();
    push_bytes(&mut out, key);
    out.push(61u8);
    out.push(q);
    push_bytes(&mut out, v);
    out.push(q);
    proof {
        assert(out@ =~= attr_pattern(key@, v@, q));
    }
    out
}

/// Where the value `v` of attribute `key` starts in a tag's raw text (see `value_offset`).
pub fn value_offset_in(raw: &[u8], key: &[u8], v: &[u8]) -> (r: usize)
    ensures
        r == value_offset(raw@, key@, v@),
        r <= raw@.len(),
{
    let raw_len = raw.len();
    let double = attr_pattern_bytes(key, v, 34u8);
    if let Some(p) = find_first(raw, double.as_slice()) {
        proof {
            assert(double@.len() == key@.len() + v@.len() + 3);
            assert(occurs_at(raw@, double@, p as int));
            assert(p + double@.len() <= raw_len);
        }
        return p + key.len() + 2;
    }
    let single = attr_pattern_bytes(key, v, 39u8);
    if let Some(p) = find_first(raw, single.as_slice()) {
        proof {
            assert(single@.len() == key@.len() + v@.len() + 3);
            assert(occurs_at(raw@, single@, p as int));
            assert(p + single@.len() <= raw_len);
        }
        return p + key.len() + 2;
    }
    match find_first(raw, v) {
        Some(p) => p,
        None => 0,
    }
}

/// The outcome of reading a project file's XML: the error message, or the project and
/// package references in document order.
pub open spec fn parsed(path: Seq<char>, content: Seq<char>) -> Result<
    (Seq<(Seq<char>, Option<Seq<char>>, (int, int))>, Seq<(Seq<char>, Seq<char>, (int, int))>),
    Seq<char>,
> {
    let steps = xml_steps(content);
    let bytes = encode_utf8(content);
    let n = (steps.len() - 1) as nat;
    match steps[n as int] {
        XmlStep::Error(m) => Err(m),
        _ => Ok((steps_refs(path, bytes, steps, n), steps_pkgs(bytes, steps, n))),
    }
}

/// Adds the references that one reader event declares, for a tag whose raw text starts at
/// byte `start` of the file: a `ProjectReference` tag with an `Include` attribute gives a
/// project reference resolved against the directory of `path`; a `PackageReference` tag
/// with an `Include` attribute gives a package reference with its `Version`, or an empty
/// one. Each records the byte range of its `Include` value (see `value_span`). Other events
/// add nothing.
pub fn read_references(
    path: &str,
    start: usize,
    event: &XmlEvent,
    refs: &mut Vec<ProjectRef>,
    pkgs: &mut Vec<PackageRef>,
)
    requires
        tag_of(event@) matches Some(t) ==> start + t.raw.len() <= usize::MAX,
    ensures
        ref_views(final(refs)@) == ref_views(old(refs)@) + step_ref(path@, start as int, event@),
        pkg_views(final(pkgs)@) == pkg_views(old(pkgs)@) + step_pkg(start as int, event@),
{
    let ghost refs0 = refs@;
    let ghost pkgs0 = pkgs@;
    let tag = match event {
        XmlEvent::Start(t) => t,
        XmlEvent::Empty(t) => t,
        _ => {
            proof {
                assert(ref_views(refs@) =~= ref_views(refs0) + step_ref(path@, start as int, event@));
                assert(pkg_views(pkgs@) =~= pkg_views(pkgs0) + step_pkg(start as int, event@));
            }
            return ;
        },
    };
    proof {
        assert(tag_of(event@) == Some(tag@));
    }
    if bytes_eq(tag.name.as_slice(), "ProjectReference".as_bytes()) {
        if let Some(target) = attr_value(tag, "Include".as_bytes()) {
            let include_span = match attr_raw_value(tag, "Include".as_bytes()) {
                Some(v) => (start + value_offset_in(tag.raw.as_slice(), "Include".as_bytes(), v.as_slice()), v.len()),
                None => (start, 0),
            };
            let resolved = match parent(path) {
                Some(dir) => Some(join(dir.as_str(), target.as_str())),
                None => None,
            };
            refs.push(ProjectRef { target, include_span, resolved });
            proof {
                assert(ref_views(refs@) =~= ref_views(refs0).push(
                    step_ref(path@, start as int, event@)[0],
                ));
            }
        }
    }
    if bytes_eq(tag.name.as_slice(), "PackageReference".as_bytes()) {
        if let Some(pkg) = attr_value(tag, "Include".as_bytes()) {
            let name_span = match attr_raw_value(tag, "Include".as_bytes()) {
                Some(v) => (start + value_offset_in(tag.raw.as_slice(), "Include".as_bytes(), v.as_slice()), v.len()),
                None => (start, 0),
            };
            let version = match attr_value(tag, "Version".as_bytes()) {
                Some(v) => v,
                None => String::new(),
            };
            pkgs.push(PackageRef { name: pkg, name_span, version });
            proof {
                assert(pkg_views(pkgs@) =~= pkg_views(pkgs0).push(step_pkg(start as int, event@)[0]));
            }
        }
    }
    proof {
        assert(ref_views(refs@) =~= ref_views(refs0) + step_ref(path@, start as int, event@));
        assert(pkg_views(pkgs@) =~= pkg_views(pkgs0) + step_pkg(start as int, event@));
    }
}

impl ProjectFile {
    /// Reads a project from the text of its `.csproj` file at `path`: the name is the
    /// file's stem; every `ProjectReference` and `PackageReference` element (start or
    /// empty tag) with an `Include` attribute gives a reference, in document order; a
    /// project reference is resolved against the file's directory; a package's version is
    /// its `Version` attribute or empty. Each reference records the byte range in `content`
    /// of its `Include` value, found within the element's own tag. An XML error fails the
    /// whole read.
    pub fn parse_content(path: &str, content: &str) -> (r: Result<ProjectFile, ProjectError>)
        ensures
            file_stem_of(path@) is None ==> r matches Err(ProjectError::NoFileStem),
            file_stem_of(path@) is Some ==> match parsed(path@, content@) {
                Err(m) => r matches Err(ProjectError::Xml(e)) && e@ == m,
                Ok((refs, pkgs)) => r matches Ok(pf) && pf.path@ == path@ && pf.name@
                    == file_stem_of(path@)->0 && ref_views(pf.project_refs@) == refs && pkg_views(
                    pf.package_refs@,
                ) == pkgs,
            },
    {
        let name = match file_stem(path) {
            Some(n) => n,
            None => {
                return Err(ProjectError::NoFileStem);
            },
        };
        let mut project_refs: Vec<ProjectRef> = Vec::new();
        let mut package_refs: Vec<PackageRef> = Vec::new();
        let bytes = content.as_bytes();
        let blen = bytes.len();
        let bom: usize = if blen >= 3 && bytes[0] == 0xEFu8 && bytes[1] == 0xBBu8 && bytes[2]
            == 0xBFu8 {
            3
        } else {
            0
        };
        let mut cur = xml_cursor(content);
        let ghost steps = cur.steps@;
        let mut done = false;
        while !done
            invariant
                file_stem_of(path@) is Some,
                steps == xml_steps(content@),
                bytes@ == encode_utf8(content@),
                bom as int == bom_len(bytes@),
                blen == bytes@.len(),
                forall|k: int| 0 <= k < steps.len() ==> step_placed(bytes@, #[trigger] steps[k]),
                cur.steps@ == steps,
                well_ended(steps),
                !done ==> cur.pos@ < steps.len(),
                !done ==> forall|k: int| 0 <= k < cur.pos@ ==> !is_stop(#[trigger] steps[k]),
                done ==> cur.pos@ == steps.len() && steps.last() is Eof,
                ref_views(project_refs@) == steps_refs(path@, bytes@, steps, (if done {
                    cur.pos@ - 1
                } else {
                    cur.pos@ as int
                }) as nat),
                pkg_views(package_refs@) == steps_pkgs(bytes@, steps, (if done {
                    cur.pos@ - 1
                } else {
                    cur.pos@ as int
                }) as nat),
            decreases steps.len() - cur.pos@,
        {
            let ghost k = cur.pos@;
            let ev = xml_next(&mut cur);
            proof {
                assert(ev@ == steps[k as int]);
                if !is_stop(steps[k as int]) {
                    assert(k < steps.len() - 1);
                }
                if is_stop(steps[k as int]) && k < steps.len() - 1 {
                    assert(!is_stop(steps[k as int]));
                }
            }
            match &ev {
                XmlEvent::Error(m) => {
                    proof {
                        assert(k == steps.len() - 1);
                    }
                    return Err(ProjectError::Xml(m.clone()));
                },
                XmlEvent::Eof => {
                    done = true;
                    proof {
                        assert(k == steps.len() - 1);
                    }
                },
                XmlEvent::Other => {
                    proof {
                        assert(steps_refs(path@, bytes@, steps, (k + 1) as nat) =~= steps_refs(
                            path@,
                            bytes@,
                            steps,
                            k as nat,
                        ));
                        assert(steps_pkgs(bytes@, steps, (k + 1) as nat) =~= steps_pkgs(
                            bytes@,
                            steps,
                            k as nat,
                        ));
                    }
                },
                XmlEvent::Start(t) | XmlEvent::Empty(t) => {
                    let close: usize = match &ev {
                        XmlEvent::Empty(_) => 3,
                        _ => 2,
                    };
                    proof {
                        assert(step_placed(bytes@, steps[k as int]));
                        assert(tag_of(ev@) == Some(t@));
                        assert(tag_text(ev@).len() == t.raw@.len() + close);
                        assert(xml_body(bytes@).len() == bytes@.len() - bom);
                        assert(t.end <= bytes@.len() - bom);
                    }
                    let end = t.end as usize;
                    let start = bom + end - t.raw.len() - close + 1;
                    proof {
                        assert(start as int == raw_start(bytes@, steps[k as int]));
                    }
                    read_references(path, start, &ev, &mut project_refs, &mut package_refs);
                    proof {
                        assert(ref_views(project_refs@) =~= steps_refs(
                            path@,
                            bytes@,
                            steps,
                            (k + 1) as nat,
                        ));
                        assert(pkg_views(package_refs@) =~= steps_pkgs(bytes@, steps, (k + 1) as nat));
                    }
                },
            }
        }
        Ok(ProjectFile { path: owned(path), name, project_refs, package_refs })
    }
}

/// The raw text of a placed tag stands in the file from `raw_start` on.
proof fn lemma_raw_in_file(bytes: Seq<u8>, s: XmlStep)
    requires
        step_placed(bytes, s),
        tag_of(s) is Some,
    ensures
        0 <= raw_start(bytes, s),
        raw_start(bytes, s) + tag_of(s)->0.raw.len() <= bytes.len(),
        bytes.subrange(raw_start(bytes, s), raw_start(bytes, s) + tag_of(s)->0.raw.len())
            == tag_of(s)->0.raw,
{
    let t = tag_of(s)->0;
    let body = xml_body(bytes);
    let text = tag_text(s);
    let b = bom_len(bytes);
    let lo = t.end - text.len();
    assert(text.subrange(1, 1 + t.raw.len() as int) =~= t.raw);
    assert(body.subrange(lo, t.end).subrange(1, 1 + t.raw.len() as int) =~= bytes.subrange(
        b + lo + 1,
        b + lo + 1 + t.raw.len() as int,
    ));
}

/// The value of attribute `key` of a tag that the reader read from the file `bytes` stands
/// in the file at the range that `value_span` records, inside the tag's own text, whenever
/// the value occurs in that text at all.
pub proof fn law_value_span_holds_value(bytes: Seq<u8>, s: XmlStep, key: Seq<u8>)
    requires
        step_placed(bytes, s),
        tag_of(s) matches Some(t) && attr_raw(t, key) is Some && found_at(
            t.raw,
            attr_raw(t, key)->0,
        ) is Some,
    ensures
        ({
            let t = tag_of(s)->0;
            let (a, n) = value_span(raw_start(bytes, s), t, key);
            &&& raw_start(bytes, s) <= a && a + n <= raw_start(bytes, s) + t.raw.len()
            &&& bytes.subrange(a, a + n) == attr_raw(t, key)->0
        }),
{
    let t = tag_of(s)->0;
    let v = attr_raw(t, key)->0;
    let start = raw_start(bytes, s);
    lemma_raw_in_file(bytes, s);
    let off = value_offset(t.raw, key, v);
    let kl: int = key.len() as int + 2;
    let n = (t.raw.len() + 1) as nat;
    let d = attr_pattern(key, v, 34u8);
    let q = attr_pattern(key, v, 39u8);
    crate::search::lemma_first_index(n, crate::text::occurs_pred(t.raw, d));
    crate::search::lemma_first_index(n, crate::text::occurs_pred(t.raw, q));
    crate::search::lemma_first_index(n, crate::text::occurs_pred(t.raw, v));
    match found_at(t.raw, d) {
        Some(p) => {
            assert(occurs_at(t.raw, d, p));
            assert(t.raw.subrange(p, p + d.len()).subrange(kl, kl + v.len())
                =~= t.raw.subrange(off, off + v.len()));
            assert(d.subrange(kl, kl + v.len()) =~= v);
        },
        None => match found_at(t.raw, q) {
            Some(p) => {
                assert(occurs_at(t.raw, q, p));
                assert(t.raw.subrange(p, p + q.len()).subrange(
                    kl,
                    kl + v.len(),
                ) =~= t.raw.subrange(off, off + v.len()));
                assert(q.subrange(kl, kl + v.len()) =~= v);
            },
            None => {
                assert(occurs_at(t.raw, v, off));
            },
        },
    }
    assert(t.raw.subrange(off, off + v.len()) == v);
    assert(bytes.subrange(start, start + t.raw.len()).subrange(off, off + v.len()) =~= bytes.subrange(
        start + off,
        start + off + v.len(),
    ));
}

/// Step `s` is a start or empty tag named `element` with an `Include` attribute.
pub open spec fn declares(s: XmlStep, element: Seq<u8>) -> bool {
    tag_of(s) matches Some(t) && t.name == element && attr_text(t, "Include".spec_bytes()) is Some
}

/// The positions, in reading order, of the first `n` steps that declare an `element`.
pub open spec fn declaring_steps(steps: Seq<XmlStep>, element: Seq<u8>, n: nat) -> Seq<int>
    decreases n,
{
    if n == 0 {
        seq![]
    } else {
        declaring_steps(steps, element, (n - 1) as nat) + if declares(steps[n - 1], element) {
            seq![n - 1]
        } else {
            seq![]
        }
    }
}

/// `idx` lists, in increasing order, exactly the positions below `n` whose step declares an
/// `element`.
pub open spec fn lists_declarations(steps: Seq<XmlStep>, element: Seq<u8>, idx: Seq<int>, n: nat) -> bool {
    &&& forall|a: int| 0 <= a < idx.len() ==> 0 <= #[trigger] idx[a] < n && declares(steps[idx[a]], element)
    &&& forall|a: int, b: int| 0 <= a < b < idx.len() ==> #[trigger] idx[a] < #[trigger] idx[b]
    &&& forall|k: int| 0 <= k < n && #[trigger] declares(steps[k], element) ==> idx.contains(k)
}

proof fn lemma_declaring_steps(steps: Seq<XmlStep>, element: Seq<u8>, n: nat)
    requires
        n <= steps.len(),
    ensures
        lists_declarations(steps, element, declaring_steps(steps, element, n), n),
    decreases n,
{
    if n > 0 {
        let m = (n - 1) as nat;
        lemma_declaring_steps(steps, element, m);
        let prev = declaring_steps(steps, element, m);
        let cur = declaring_steps(steps, element, n);
        assert forall|k: int| 0 <= k < n && #[trigger] declares(steps[k], element) implies cur.contains(
            k,
        ) by {
            if k < m {
                let a = choose|a: int| 0 <= a < prev.len() && prev[a] == k;
                assert(cur[a] == k);
            } else {
                assert(cur[prev.len() as int] == k);
            }
        }
        assert forall|a: int, b: int| 0 <= a < b < cur.len() implies #[trigger] cur[a] < #[trigger] cur[b] by {
            if b < prev.len() {
                assert(prev[a] < prev[b]);
            } else {
                assert(prev[a] < m);
            }
        }
        assert forall|a: int| 0 <= a < cur.len() implies 0 <= #[trigger] cur[a] < n && declares(
            steps[cur[a]],
            element,
        ) by {
            if a < prev.len() {
                assert(cur[a] == prev[a]);
            }
        }
    }
}

proof fn lemma_refs_follow_steps(path: Seq<char>, bytes: Seq<u8>, steps: Seq<XmlStep>, n: nat)
    requires
        n <= steps.len(),
    ensures
        ({
            let refs = steps_refs(path, bytes, steps, n);
            let idx = declaring_steps(steps, "ProjectReference".spec_bytes(), n);
            &&& refs.len() == idx.len()
            &&& forall|i: int|
                0 <= i < refs.len() ==> #[trigger] refs[i] == step_ref(
                    path,
                    raw_start(bytes, steps[idx[i]]),
                    steps[idx[i]],
                )[0]
        }),
    decreases n,
{
    if n > 0 {
        let m = (n - 1) as nat;
        lemma_refs_follow_steps(path, bytes, steps, m);
        let refs = steps_refs(path, bytes, steps, n);
        let idx = declaring_steps(steps, "ProjectReference".spec_bytes(), n);
        let prev = steps_refs(path, bytes, steps, m);
        let pidx = declaring_steps(steps, "ProjectReference".spec_bytes(), m);
        assert forall|i: int| 0 <= i < refs.len() implies #[trigger] refs[i] == step_ref(
            path,
            raw_start(bytes, steps[idx[i]]),
            steps[idx[i]],
        )[0] by {
            if i < prev.len() {
                assert(refs[i] == prev[i]);
                assert(idx[i] == pidx[i]);
            }
        }
    }
}

proof fn lemma_pkgs_follow_steps(bytes: Seq<u8>, steps: Seq<XmlStep>, n: nat)
    requires
        n <= steps.len(),
    ensures
        ({
            let pkgs = steps_pkgs(bytes, steps, n);
            let idx = declaring_steps(steps, "PackageReference".spec_bytes(), n);
            &&& pkgs.len() == idx.len()
            &&& forall|i: int|
                0 <= i < pkgs.len() ==> #[trigger] pkgs[i] == step_pkg(
                    raw_start(bytes, steps[idx[i]]),
                    steps[idx[i]],
                )[0]
        }),
    decreases n,
{
    if n > 0 {
        let m = (n - 1) as nat;
        lemma_pkgs_follow_steps(bytes, steps, m);
        let pkgs = steps_pkgs(bytes, steps, n);
        let idx = declaring_steps(steps, "PackageReference".spec_bytes(), n);
        let prev = steps_pkgs(bytes, steps, m);
        let pidx = declaring_steps(steps, "PackageReference".spec_bytes(), m);
        assert forall|i: int| 0 <= i < pkgs.len() implies #[trigger] pkgs[i] == step_pkg(
            raw_start(bytes, steps[idx[i]]),
            steps[idx[i]],
        )[0] by {
            if i < prev.len() {
                assert(pkgs[i] == prev[i]);
                assert(idx[i] == pidx[i]);
            }
        }
    }
}

/// The references of a project file come one per declaring element, in document order: the
/// `i`-th project reference is the `i`-th `ProjectReference` tag (start or empty) that has an
/// `Include` attribute, with that attribute's text, its resolved path, and the range of its
/// value; every such tag gives one, and tags without `Include` give none. The same holds of
/// package references and `PackageReference` tags, with their `Version`. Each recorded range
/// lies inside its element's own tag and, when the value occurs in that tag's text, holds
/// exactly the value's bytes, wherever else the same text occurs in the file. (The premises
/// on the reader's events are those `xml_cursor` states of every reading.)
pub proof fn law_references_in_document_order(path: Seq<char>, content: Seq<char>)
    requires
        parsed(path, content) is Ok,
        well_ended(xml_steps(content)),
        forall|k: int|
            0 <= k < xml_steps(content).len() ==> step_placed(
                encode_utf8(content),
                #[trigger] xml_steps(content)[k],
            ),
    ensures
        ({
            let steps = xml_steps(content);
            let bytes = encode_utf8(content);
            let n = (steps.len() - 1) as nat;
            let refs = parsed(path, content)->Ok_0.0;
            let pkgs = parsed(path, content)->Ok_0.1;
            let ri = declaring_steps(steps, "ProjectReference".spec_bytes(), n);
            let pi = declaring_steps(steps, "PackageReference".spec_bytes(), n);
            &&& lists_declarations(steps, "ProjectReference".spec_bytes(), ri, n)
            &&& lists_declarations(steps, "PackageReference".spec_bytes(), pi, n)
            &&& refs.len() == ri.len() && pkgs.len() == pi.len()
            &&& forall|i: int|
                0 <= i < refs.len() ==> #[trigger] refs[i] == step_ref(
                    path,
                    raw_start(bytes, steps[ri[i]]),
                    steps[ri[i]],
                )[0] && span_holds_value(bytes, steps[ri[i]], refs[i].2)
            &&& forall|i: int|
                0 <= i < pkgs.len() ==> #[trigger] pkgs[i] == step_pkg(
                    raw_start(bytes, steps[pi[i]]),
                    steps[pi[i]],
                )[0] && span_holds_value(bytes, steps[pi[i]], pkgs[i].2)
        }),
{
    let steps = xml_steps(content);
    let bytes = encode_utf8(content);
    let n = (steps.len() - 1) as nat;
    lemma_declaring_steps(steps, "ProjectReference".spec_bytes(), n);
    lemma_declaring_steps(steps, "PackageReference".spec_bytes(), n);
    lemma_refs_follow_steps(path, bytes, steps, n);
    lemma_pkgs_follow_steps(bytes, steps, n);
    let refs = steps_refs(path, bytes, steps, n);
    let pkgs = steps_pkgs(bytes, steps, n);
    let ri = declaring_steps(steps, "ProjectReference".spec_bytes(), n);
    let pi = declaring_steps(steps, "PackageReference".spec_bytes(), n);
    assert forall|i: int| 0 <= i < refs.len() implies span_holds_value(bytes, steps[ri[i]], refs[i].2) by {
        let s = steps[ri[i]];
        assert(declares(s, "ProjectReference".spec_bytes()));
        lemma_span_holds_value(bytes, s);
    }
    assert forall|i: int| 0 <= i < pkgs.len() implies span_holds_value(bytes, steps[pi[i]], pkgs[i].2) by {
        let s = steps[pi[i]];
        assert(declares(s, "PackageReference".spec_bytes()));
        lemma_span_holds_value(bytes, s);
    }
}

/// The range `span` lies inside the tag of step `s`, and holds the raw `Include` value when
/// that value occurs in the tag's text.
pub open spec fn span_holds_value(bytes: Seq<u8>, s: XmlStep, span: (int, int)) -> bool {
    let t = tag_of(s)->0;
    let v = attr_raw(t, "Include".spec_bytes())->0;
    &&& span == value_span(raw_start(bytes, s), t, "Include".spec_bytes())
    &&& found_at(t.raw, v) is Some ==> raw_start(bytes, s) <= span.0 && span.0 + span.1
        <= raw_start(bytes, s) + t.raw.len() && bytes.subrange(span.0, span.0 + span.1) == v
}

proof fn lemma_span_holds_value(bytes: Seq<u8>, s: XmlStep)
    requires
        step_placed(bytes, s),
        tag_of(s) is Some,
        attr_text(tag_of(s)->0, "Include".spec_bytes()) is Some,
    ensures
        span_holds_value(
            bytes,
            s,
            value_span(raw_start(bytes, s), tag_of(s)->0, "Include".spec_bytes()),
        ),
{
    let t = tag_of(s)->0;
    let key = "Include".spec_bytes();
    assert(attr_raw(t, key) is Some);
    if found_at(t.raw, attr_raw(t, key)->0) is Some {
        law_value_span_holds_value(bytes, s, key);
    }
}

/// Whether `path` names a project file: its extension is `csproj`, in any ASCII case.
pub fn is_project_path(path: &str) -> (r: bool)
    ensures
        r == (extension_of(path@) is Some && eq_ascii_case_insensitive(
            extension_of(path@)->0,
            "csproj"@,
        )),
{
    has_extension(path, "csproj")
}

} // verus!
