//! The schema parser: a two-state scanner over the schema text that builds
//! the element table (names, ancestry paths, and a name lookup table).
//! The scanner is specified by a character-step function (`scan_char`)
//! folded over the text (`scan_all`); the executable parser is proved to
//! produce exactly that fold's outcome.

use vstd::prelude::*;
use vstd::string::*;
use crate::tables::{NameTable, name_table_insert, name_table_new, name_table_view};
use crate::text::{char_is_alphanumeric, char_is_whitespace, chars_to_string, copy_usizes, chars_eq, is_alnum, is_space, str_chars};

verus! {

/// The errors that can abort schema construction.
#[derive(Debug, PartialEq)]
pub enum XmlSchemaError {
    /// A tag name holds a character that is not permitted there, or a
    /// character stands outside of tags that is neither whitespace nor `<`.
    InvalidTag(String),
    /// The schema text or a tag's text is empty.
    SchemaTxtInvalid(String),
    /// A closing tag does not match the innermost open tag.
    TagMismatch(String),
    /// An element name occurs twice in the schema.
    DuplicateElementName(String),
    /// A closing tag was found while no tag was open.
    FirstTagIsClosing(String),
}

/// The kind of a schema error, without its message text.
pub ghost enum SchemaErrKind {
    EmptyTag,
    BadChar,
    Mismatch,
    NothingOpen,
    Duplicate,
}

/// Whether an error value carries the given kind.
pub open spec fn err_matches(e: XmlSchemaError, k: SchemaErrKind) -> bool {
    match k {
        SchemaErrKind::EmptyTag => e matches XmlSchemaError::SchemaTxtInvalid(_),
        SchemaErrKind::BadChar => e matches XmlSchemaError::InvalidTag(_),
        SchemaErrKind::Mismatch => e matches XmlSchemaError::TagMismatch(_),
        SchemaErrKind::NothingOpen => e matches XmlSchemaError::FirstTagIsClosing(_),
        SchemaErrKind::Duplicate => e matches XmlSchemaError::DuplicateElementName(_),
    }
}

/// Whether a character may stand in a tag name: alphanumeric anywhere,
/// and `-`, `_`, `.` anywhere but first.
pub open spec fn name_char_ok(c: char, first: bool) -> bool {
    is_alnum(c) || (!first && (c == '-' || c == '_' || c == '.'))
}

/// Whether the tag text is a closing form, i.e. starts with `/`.
pub open spec fn tag_is_closing(b: Seq<char>) -> bool {
    b.len() > 0 && b[0] == '/'
}

/// Validation of one tag's text: empty text is an error; otherwise every
/// name character must be permitted — the name's first character (for a
/// closing tag, the one right after `/`) must be alphanumeric — and the
/// result tells whether the tag is an opening one.
pub open spec fn tag_check(b: Seq<char>) -> Result<bool, SchemaErrKind> {
    if b.len() == 0 {
        Err(SchemaErrKind::EmptyTag)
    } else if tag_is_closing(b) {
        if forall|j: int| 1 <= j < b.len() ==> name_char_ok(#[trigger] b[j], j == 1) {
            Ok(false)
        } else {
            Err(SchemaErrKind::BadChar)
        }
    } else {
        if forall|j: int| 0 <= j < b.len() ==> name_char_ok(#[trigger] b[j], j == 0) {
            Ok(true)
        } else {
            Err(SchemaErrKind::BadChar)
        }
    }
}

/// The scanner's state: the element table built so far, the stack of open
/// tag names, the current ancestry position, the tag buffer, whether the
/// scanner stands inside a tag, and a sticky error.
pub ghost struct ScanState {
    pub names: Seq<Seq<char>>,
    pub paths: Seq<Seq<usize>>,
    pub stack: Seq<Seq<char>>,
    pub pos: Seq<usize>,
    pub buffer: Seq<char>,
    pub in_tag: bool,
    pub error: Option<SchemaErrKind>,
}

/// The scanner's starting state.
pub open spec fn scan_init() -> ScanState {
    ScanState {
        names: Seq::empty(),
        paths: Seq::empty(),
        stack: Seq::empty(),
        pos: Seq::empty(),
        buffer: Seq::empty(),
        in_tag: false,
        error: None,
    }
}

/// Dispatch of one completed tag. An opening tag must be a new name; it is
/// assigned the next id, its ancestry is the ids of the open tags plus
/// itself, and it is pushed onto the open stack. A closing tag must match
/// the innermost open tag, which it pops.
pub open spec fn dispatch_tag(st: ScanState) -> ScanState {
    match tag_check(st.buffer) {
        Err(k) => ScanState { error: Some(k), ..st },
        Ok(false) => {
            if st.stack.len() == 0 {
                ScanState { error: Some(SchemaErrKind::NothingOpen), ..st }
            } else if st.stack.last() != st.buffer.drop_first() {
                ScanState { error: Some(SchemaErrKind::Mismatch), ..st }
            } else {
                ScanState { stack: st.stack.drop_last(), ..st }
            }
        },
        Ok(true) => {
            if st.names.contains(st.buffer) {
                ScanState { error: Some(SchemaErrKind::Duplicate), ..st }
            } else {
                let id = st.names.len() as usize;
                let newpos = st.pos.take(st.stack.len() as int).push(id);
                ScanState {
                    names: st.names.push(st.buffer),
                    paths: st.paths.push(newpos),
                    stack: st.stack.push(st.buffer),
                    pos: newpos,
                    ..st
                }
            }
        },
    }
}

/// One scanner step. Inside a tag, `<` is an error, `>` dispatches the
/// buffered tag, and any other character joins the buffer. Outside tags,
/// whitespace is skipped, `<` enters a tag, and anything else is an error.
/// Once an error is set the state no longer changes.
pub open spec fn scan_char(st: ScanState, c: char) -> ScanState {
    if st.error is Some {
        st
    } else if st.in_tag {
        if c == '<' {
            ScanState { error: Some(SchemaErrKind::BadChar), ..st }
        } else if c == '>' {
            let st1 = dispatch_tag(st);
            if st1.error is Some {
                st1
            } else {
                ScanState { in_tag: false, buffer: Seq::empty(), ..st1 }
            }
        } else {
            ScanState { buffer: st.buffer.push(c), ..st }
        }
    } else {
        if is_space(c) {
            st
        } else if c == '<' {
            ScanState { in_tag: true, ..st }
        } else {
            ScanState { error: Some(SchemaErrKind::BadChar), ..st }
        }
    }
}

/// The scanner folded over a whole text.
pub open spec fn scan_all(s: Seq<char>, st: ScanState) -> ScanState
    decreases s.len(),
{
    if s.len() == 0 {
        st
    } else {
        scan_char(scan_all(s.drop_last(), st), s.last())
    }
}

pub proof fn lemma_scan_sticky(s: Seq<char>, st: ScanState)
    requires
        st.error is Some,
    ensures
        scan_all(s, st) == st,
    decreases s.len(),
{
    if s.len() > 0 {
        lemma_scan_sticky(s.drop_last(), st);
    }
}

pub proof fn lemma_scan_append(a: Seq<char>, b: Seq<char>, st: ScanState)
    ensures
        scan_all(a + b, st) == scan_all(b, scan_all(a, st)),
    decreases b.len(),
{
    if b.len() == 0 {
        assert(a + b =~= a);
    } else {
        assert((a + b).drop_last() =~= a + b.drop_last());
        assert((a + b).last() == b.last());
        lemma_scan_append(a, b.drop_last(), st);
    }
}

/// Well-formedness of the scanner's state, as long as no error was met:
/// paths and names run in step; the open stack never outruns the position;
/// ids are in range; and each recorded path ends in its own id.
pub open spec fn scan_wf(st: ScanState) -> bool {
    st.error is None ==> {
        &&& st.paths.len() == st.names.len()
        &&& st.stack.len() <= st.pos.len()
        &&& forall|k: int| 0 <= k < st.pos.len() ==> #[trigger] st.pos[k] < st.names.len()
        &&& forall|j: int|
            0 <= j < st.paths.len() ==> {
                &&& (#[trigger] st.paths[j]).len() > 0
                &&& st.paths[j].last() == j as usize
                &&& forall|k: int|
                    0 <= k < st.paths[j].len() ==> #[trigger] st.paths[j][k] < st.names.len()
            }
        &&& forall|d: int|
            1 <= d <= st.stack.len() ==> st.paths[st.pos[d - 1] as int] == #[trigger] st.pos.take(
                d,
            )
        &&& paths_tree_shaped(st.paths)
    }
}

/// Whether every path of more than one element is the path of the element
/// before its last — its parent — extended by its own id: the table forms
/// a tree rooted at the depth-one paths.
pub open spec fn paths_tree_shaped(paths: Seq<Seq<usize>>) -> bool {
    forall|j: int|
        0 <= j < paths.len() && (#[trigger] paths[j]).len() > 1 ==> paths[j].drop_last() == paths[
            paths[j][paths[j].len() - 2] as int
        ]
}

pub proof fn lemma_scan_char_wf(st: ScanState, c: char)
    requires
        scan_wf(st),
        st.names.len() < usize::MAX,
    ensures
        scan_wf(scan_char(st, c)),
        scan_char(st, c).names.len() <= st.names.len() + 1,
{
    let st2 = scan_char(st, c);
    if st.error is None && st.in_tag && c == '>' && tag_check(st.buffer) == Ok::<
        bool,
        SchemaErrKind,
    >(true) && !st.names.contains(st.buffer) {
        let ghost L = st.stack.len() as int;
        let id = st.names.len() as usize;
        let newpos = st.pos.take(L).push(id);
        assert forall|d: int| 1 <= d <= st2.stack.len() implies st2.paths[st2.pos[d - 1] as int]
            == #[trigger] st2.pos.take(d) by {
            if d <= L {
                assert(d - 1 < st.pos.len());
                assert(st.pos[d - 1] < st.names.len());
                assert(st2.pos[d - 1] == st.pos[d - 1]);
                assert(st2.paths[st.pos[d - 1] as int] == st.paths[st.pos[d - 1] as int]);
                assert(st2.pos.take(d) =~= st.pos.take(d));
                assert(st.paths[st.pos[d - 1] as int] == st.pos.take(d));
            } else {
                assert(d == L + 1);
                assert(st2.pos[d - 1] == id);
                assert(st2.paths[id as int] == newpos);
                assert(st2.pos.take(d) =~= newpos);
            }
        }
        assert forall|j: int|
            0 <= j < st2.paths.len() && (#[trigger] st2.paths[j]).len() > 1 implies st2.paths[
            j
        ].drop_last() == st2.paths[st2.paths[j][st2.paths[j].len() - 2] as int] by {
            if j < st.paths.len() {
                assert(st2.paths[j] == st.paths[j]);
            } else {
                assert(st2.paths[j] == newpos);
                assert(newpos.len() > 1 ==> {
                    &&& newpos.drop_last() =~= st.pos.take(L)
                    &&& newpos[newpos.len() - 2] == st.pos[L - 1]
                    &&& st.paths[st.pos[L - 1] as int] == st.pos.take(L)
                });
            }
        }
    }
}

pub proof fn lemma_scan_wf(s: Seq<char>)
    requires
        s.len() <= usize::MAX,
    ensures
        scan_wf(scan_all(s, scan_init())),
        scan_all(s, scan_init()).names.len() <= s.len(),
    decreases s.len(),
{
    if s.len() == 0 {
    } else {
        lemma_scan_wf(s.drop_last());
        lemma_scan_char_wf(scan_all(s.drop_last(), scan_init()), s.last());
    }
}

/// The lookup table built from the first `n` names: each name bound to its
/// index, later bindings winning.
pub open spec fn table_upto(names: Seq<Seq<char>>, n: int) -> Map<Seq<char>, usize>
    decreases n,
{
    if n <= 0 {
        Map::empty()
    } else {
        table_upto(names, n - 1).insert(names[n - 1], (n - 1) as usize)
    }
}

pub proof fn lemma_table_upto_facts(names: Seq<Seq<char>>, n: int)
    requires
        0 <= n <= names.len(),
        n <= usize::MAX,
    ensures
        forall|nm: Seq<char>| #[trigger]
            table_upto(names, n).contains_key(nm) ==> table_upto(names, n)[nm] < n && names[
                table_upto(names, n)[nm] as int
            ] == nm,
        forall|nm: Seq<char>|
            table_upto(names, n).contains_key(nm) <==> exists|j: int|
                0 <= j < n && #[trigger] names[j] == nm,
    decreases n,
{
    if n > 0 {
        lemma_table_upto_facts(names, n - 1);
        let t = table_upto(names, n);
        let t0 = table_upto(names, n - 1);
        assert(t == t0.insert(names[n - 1], (n - 1) as usize));
        assert forall|nm: Seq<char>| #[trigger]
            t.contains_key(nm) implies t[nm] < n && names[t[nm] as int] == nm by {
            if nm == names[n - 1] {
                assert(t[nm] == (n - 1) as usize);
            } else {
                assert(t0.contains_key(nm));
                assert(t[nm] == t0[nm]);
            }
        }
        assert forall|nm: Seq<char>| #[trigger]
            t.contains_key(nm) implies exists|j: int| 0 <= j < n && #[trigger] names[j] == nm by {
            if nm == names[n - 1] {
                assert(0 <= n - 1 < n && names[n - 1] == nm);
            } else {
                assert(t0.contains_key(nm));
                let j = choose|j: int| 0 <= j < n - 1 && #[trigger] names[j] == nm;
                assert(0 <= j < n && names[j] == nm);
            }
        }
        assert forall|nm: Seq<char>| (exists|j: int| 0 <= j < n && #[trigger] names[j] == nm)
            implies t.contains_key(nm) by {
            let j = choose|j: int| 0 <= j < n && #[trigger] names[j] == nm;
            if j < n - 1 {
                assert(table_upto(names, n - 1).contains_key(nm));
            } else {
                assert(nm == names[n - 1]);
            }
        }
    }
}

/// Validates one tag's text, handed over as its characters, and reports
/// whether it is an opening tag; exactly `tag_check` of the characters.
pub fn validate_chars(b: &Vec<char>) -> (r: Result<bool, XmlSchemaError>)
    ensures
        match r {
            Ok(op) => tag_check(b@) == Ok::<bool, SchemaErrKind>(op),
            Err(e) => tag_check(b@) matches Err(k) && err_matches(e, k),
        },
{
    let n = b.len();
    if n == 0 {
        return Err(XmlSchemaError::SchemaTxtInvalid("Schema Txt passed has length of zero".to_owned()));
    }
    let closing = b[0] == '/';
    let start: usize = if closing { 1 } else { 0 };
    let mut j = start;
    while j < n
        invariant
            start <= j <= n,
            n == b@.len(),
            n > 0,
            closing == tag_is_closing(b@),
            start == (if closing { 1int } else { 0int }),
            forall|t: int| start <= t < j ==> name_char_ok(#[trigger] b@[t], t == start),
        decreases n - j,
    {
        let c = b[j];
        let alnum = char_is_alphanumeric(c);
        let ok = alnum || (j > start && (c == '-' || c == '_' || c == '.'));
        if !ok {
            proof {
                assert(!name_char_ok(b@[j as int], j == start));
            }
            return Err(XmlSchemaError::InvalidTag("character not valid in a tag name".to_owned()));
        }
        j = j + 1;
    }
    if closing {
        Ok(false)
    } else {
        Ok(true)
    }
}

/// Validates a tag's text and reports whether it is an opening tag
/// (`Ok(false)` meaning a closing tag); exactly `tag_check` of the text.
pub fn validate_tag_check_if_opening(txt_tag: &str) -> (r: Result<bool, XmlSchemaError>)
    ensures
        match r {
            Ok(op) => tag_check(txt_tag@) == Ok::<bool, SchemaErrKind>(op),
            Err(e) => tag_check(txt_tag@) matches Err(k) && err_matches(e, k),
        },
{
    let b = str_chars(txt_tag);
    validate_chars(&b)
}

/// The element table: the schema text as given, each element's name by id,
/// each element's ancestry path by id, and the name lookup table.
pub struct XmlSchema {
    pub raw_string: String,
    pub element_names: Vec<String>,
    pub element_position: Vec<Vec<usize>>,
    pub lookup: NameTable,
}

impl XmlSchema {
    /// The element names, as character sequences, by id.
    pub open spec fn names_view(self) -> Seq<Seq<char>> {
        self.element_names@.map_values(|s: String| s@)
    }

    /// The ancestry paths, by id.
    pub open spec fn paths_view(self) -> Seq<Seq<usize>> {
        self.element_position@.map_values(|p: Vec<usize>| p@)
    }

    /// The contents of the name lookup table.
    pub open spec fn lookup_view(self) -> Map<Seq<char>, usize> {
        name_table_view(self.lookup)
    }

    /// Well-formedness of the element table: names and paths run in step,
    /// every path is non-empty, in range, ends in its own id, and extends
    /// its parent's path, and the lookup table binds names to ids that
    /// carry them.
    pub open spec fn wf(self) -> bool {
        &&& self.paths_view().len() == self.names_view().len()
        &&& paths_tree_shaped(self.paths_view())
        &&& forall|j: int|
            0 <= j < self.paths_view().len() ==> {
                &&& (#[trigger] self.paths_view()[j]).len() > 0
                &&& self.paths_view()[j].last() == j as usize
                &&& forall|k: int|
                    0 <= k < self.paths_view()[j].len() ==> #[trigger] self.paths_view()[j][k]
                        < self.names_view().len()
            }
        &&& forall|nm: Seq<char>| #[trigger]
            self.lookup_view().contains_key(nm) ==> self.lookup_view()[nm]
                < self.names_view().len() && self.names_view()[self.lookup_view()[nm] as int] == nm
    }

    /// An empty table: no schema text, no elements.
    pub fn new() -> (r: XmlSchema)
        ensures
            r.raw_string@ == Seq::<char>::empty(),
            r.names_view() == Seq::<Seq<char>>::empty(),
            r.paths_view() == Seq::<Seq<usize>>::empty(),
            r.lookup_view() == Map::<Seq<char>, usize>::empty(),
            r.wf(),
    {
        let r = XmlSchema {
            raw_string: String::new(),
            element_names: Vec::new(),
            element_position: Vec::new(),
            lookup: name_table_new(),
        };
        proof {
            assert(r.names_view() =~= Seq::<Seq<char>>::empty());
            assert(r.paths_view() =~= Seq::<Seq<usize>>::empty());
        }
        r
    }

    /// Stores the schema text; `parse_schema` reads it.
    pub fn set_schema(&mut self, txt_schema: &str)
        ensures
            final(self).raw_string@ == txt_schema@,
            final(self).element_names == old(self).element_names,
            final(self).element_position == old(self).element_position,
            final(self).lookup == old(self).lookup,
    {
        self.raw_string = txt_schema.to_owned();
    }
}

pub proof fn lemma_error_final(s: Seq<char>, i: int, k: SchemaErrKind)
    requires
        0 <= i < s.len(),
        scan_char(scan_all(s.take(i), scan_init()), s[i]).error == Some(k),
    ensures
        scan_all(s, scan_init()) == scan_char(scan_all(s.take(i), scan_init()), s[i]),
        scan_all(s, scan_init()).error == Some(k),
{
    let st1 = scan_char(scan_all(s.take(i), scan_init()), s[i]);
    assert(s.take(i + 1).drop_last() =~= s.take(i));
    assert(s.take(i + 1).last() == s[i]);
    assert(scan_all(s.take(i + 1), scan_init()) == st1);
    assert(s =~= s.take(i + 1) + s.skip(i + 1));
    lemma_scan_append(s.take(i + 1), s.skip(i + 1), scan_init());
    lemma_scan_sticky(s.skip(i + 1), st1);
}

impl XmlSchema {
    /// Resets the element table to hold no elements.
    fn reset_tables(&mut self)
        ensures
            final(self).raw_string == old(self).raw_string,
            final(self).names_view() == Seq::<Seq<char>>::empty(),
            final(self).paths_view() == Seq::<Seq<usize>>::empty(),
            final(self).lookup_view() == Map::<Seq<char>, usize>::empty(),
            final(self).wf(),
    {
        self.element_names = Vec::new();
        self.element_position = Vec::new();
        self.lookup = name_table_new();
        proof {
            assert(self.names_view() =~= Seq::<Seq<char>>::empty());
            assert(self.paths_view() =~= Seq::<Seq<usize>>::empty());
        }
    }

    /// Parses the stored schema text and fills the element table. Empty
    /// text is rejected; otherwise the outcome is exactly the scanner's:
    /// on success the table holds the scanner's names and paths and the
    /// lookup binds each name to its id; on any error the kind of the
    /// returned error is the scanner's, and the table is left empty.
    pub fn parse_schema(&mut self) -> (r: Result<(), XmlSchemaError>)
        ensures
            final(self).raw_string == old(self).raw_string,
            ({
                let txt = old(self).raw_string@;
                let st = scan_all(txt, scan_init());
                match r {
                    Ok(()) => {
                        &&& txt.len() > 0
                        &&& st.error is None
                        &&& final(self).names_view() == st.names
                        &&& final(self).paths_view() == st.paths
                        &&& final(self).lookup_view() == table_upto(
                            st.names,
                            st.names.len() as int,
                        )
                        &&& final(self).wf()
                    },
                    Err(e) => {
                        &&& (txt.len() == 0 ==> (e matches XmlSchemaError::SchemaTxtInvalid(_)))
                        &&& (txt.len() > 0 ==> st.error is Some && err_matches(e, st.error.unwrap()))
                        &&& (st.error == Some(SchemaErrKind::Mismatch) ==> (e matches
                        XmlSchemaError::TagMismatch(m) && m@ == "Closing tag "@ + st.buffer
                            + " doesn't match last opening tag "@ + st.stack.last()))
                        &&& final(self).names_view() == Seq::<Seq<char>>::empty()
                        &&& final(self).paths_view() == Seq::<Seq<usize>>::empty()
                        &&& final(self).lookup_view() == Map::<Seq<char>, usize>::empty()
                        &&& final(self).wf()
                    },
                }
            }),
    {
        let chars = str_chars(self.raw_string.as_str());
        let n = chars.len();
        if n == 0 {
            self.reset_tables();
            return Err(
                XmlSchemaError::SchemaTxtInvalid("Schema Txt passed has length of zero".to_owned()),
            );
        }
        let mut names: Vec<String> = Vec::new();
        let mut paths: Vec<Vec<usize>> = Vec::new();
        let mut stack: Vec<String> = Vec::new();
        let mut pos: Vec<usize> = Vec::new();
        let mut buffer: Vec<char> = Vec::new();
        let mut in_tag: bool = false;
        let mut i: usize = 0;
        while i < n
            invariant
                i <= n,
                n == chars@.len(),
                chars@ == self.raw_string@,
                *self == *old(self),
                ({
                    let st = scan_all(chars@.take(i as int), scan_init());
                    &&& st.error is None
                    &&& names@.map_values(|s: String| s@) == st.names
                    &&& paths@.map_values(|p: Vec<usize>| p@) == st.paths
                    &&& stack@.map_values(|s: String| s@) == st.stack
                    &&& pos@ == st.pos
                    &&& buffer@ == st.buffer
                    &&& in_tag == st.in_tag
                }),
            decreases n - i,
        {
            let ghost st = scan_all(chars@.take(i as int), scan_init());
            let ghost stn = scan_char(st, chars@[i as int]);
            proof {
                lemma_scan_wf(chars@.take(i as int));
                assert(chars@.take(i as int + 1).drop_last() =~= chars@.take(i as int));
                assert(chars@.take(i as int + 1).last() == chars@[i as int]);
                assert(scan_all(chars@.take(i as int + 1), scan_init()) == stn);
            }
            let c = chars[i];
            if in_tag {
                if c == '<' {
                    proof {
                        lemma_error_final(chars@, i as int, SchemaErrKind::BadChar);
                    }
                    self.reset_tables();
                    return Err(XmlSchemaError::InvalidTag("< symbol in open tag".to_owned()));
                } else if c == '>' {
                    let tag = chars_to_string(&buffer);
                    match validate_chars(&buffer) {
                        Err(e) => {
                            proof {
                                let k = tag_check(st.buffer)->Err_0;
                                assert(dispatch_tag(st).error == Some(k));
                                lemma_error_final(chars@, i as int, k);
                            }
                            self.reset_tables();
                            return Err(e);
                        },
                        Ok(false) => {
                            if stack.len() == 0 {
                                proof {
                                    lemma_error_final(chars@, i as int, SchemaErrKind::NothingOpen);
                                }
                                self.reset_tables();
                                let mut m = "Closing Tag ".to_owned();
                                m.append(tag.as_str());
                                m.append(" found when no Tags open");
                                return Err(XmlSchemaError::FirstTagIsClosing(m));
                            }
                            let top_chars = str_chars(stack[stack.len() - 1].as_str());
                            let mut cname: Vec<char> = Vec::new();
                            let mut t: usize = 1;
                            while t < buffer.len()
                                invariant
                                    1 <= t <= buffer@.len(),
                                    cname@ == buffer@.subrange(1, t as int),
                                decreases buffer@.len() - t,
                            {
                                cname.push(buffer[t]);
                                t = t + 1;
                                proof {
                                    assert(cname@ =~= buffer@.subrange(1, t as int));
                                }
                            }
                            proof {
                                assert(cname@ =~= st.buffer.drop_first());
                                assert(top_chars@ == st.stack.last());
                            }
                            if chars_eq(&top_chars, &cname) {
                                let _ = stack.remove(stack.len() - 1);
                                in_tag = false;
                                buffer.clear();
                                proof {
                                    assert(stack@.map_values(|s: String| s@) =~= st.stack.drop_last());
                                }
                            } else {
                                proof {
                                    lemma_error_final(chars@, i as int, SchemaErrKind::Mismatch);
                                }
                                let mut m = "Closing tag ".to_owned();
                                m.append(tag.as_str());
                                m.append(" doesn't match last opening tag ");
                                m.append(stack[stack.len() - 1].as_str());
                                proof {
                                    assert(stn.buffer == buffer@);
                                    assert(stn.stack.last() == st.stack.last());
                                    assert(m@ =~= "Closing tag "@ + stn.buffer
                                        + " doesn't match last opening tag "@ + stn.stack.last());
                                }
                                self.reset_tables();
                                return Err(XmlSchemaError::TagMismatch(m));
                            }
                        },
                        Ok(true) => {
                            let mut dup = false;
                            let mut d: usize = 0;
                            while d < names.len()
                                invariant
                                    d <= names@.len(),
                                    tag@ == buffer@,
                                    dup == exists|q: int|
                                        0 <= q < d && #[trigger] names@[q]@ == buffer@,
                                decreases names@.len() - d,
                            {
                                if names[d] == tag {
                                    dup = true;
                                    proof {
                                        assert(names@[d as int]@ == buffer@);
                                    }
                                }
                                d = d + 1;
                            }
                            proof {
                                if dup {
                                    let q = choose|q: int|
                                        0 <= q < names@.len() && #[trigger] names@[q]@ == buffer@;
                                    assert(st.names[q] == st.buffer);
                                    assert(st.names.contains(st.buffer));
                                } else {
                                    if st.names.contains(st.buffer) {
                                        let q = choose|q: int|
                                            0 <= q < st.names.len() && st.names[q] == st.buffer;
                                        assert(names@[q]@ == buffer@);
                                    }
                                }
                            }
                            if dup {
                                proof {
                                    lemma_error_final(chars@, i as int, SchemaErrKind::Duplicate);
                                }
                                self.reset_tables();
                                let mut m = "Duplicate element ".to_owned();
                                m.append(tag.as_str());
                                return Err(XmlSchemaError::DuplicateElementName(m));
                            }
                            let id = names.len();
                            proof {
                                assert(pos@ =~= st.pos.take(pos@.len() as int));
                            }
                            while pos.len() > stack.len()
                                invariant
                                    stack@.len() <= pos@.len(),
                                    pos@.len() <= st.pos.len(),
                                    pos@ == st.pos.take(pos@.len() as int),
                                    stack@.map_values(|s: String| s@) == st.stack,
                                decreases pos@.len(),
                            {
                                let _ = pos.pop();
                                proof {
                                    assert(pos@ =~= st.pos.take(pos@.len() as int));
                                }
                            }
                            proof {
                                assert(pos@ =~= st.pos.take(st.stack.len() as int));
                            }
                            pos.push(id);
                            let path_copy = copy_usizes(&pos);
                            paths.push(path_copy);
                            names.push(tag.clone());
                            stack.push(tag);
                            in_tag = false;
                            buffer.clear();
                            proof {
                                assert(names@.map_values(|s: String| s@) =~= st.names.push(
                                    st.buffer,
                                ));
                                assert(paths@.map_values(|p: Vec<usize>| p@) =~= st.paths.push(
                                    st.pos.take(st.stack.len() as int).push(
                                        st.names.len() as usize,
                                    ),
                                ));
                                assert(stack@.map_values(|s: String| s@) =~= st.stack.push(
                                    st.buffer,
                                ));
                            }
                        },
                    }
                } else {
                    buffer.push(c);
                }
            } else {
                if char_is_whitespace(c) {
                } else if c == '<' {
                    in_tag = true;
                } else {
                    proof {
                        lemma_error_final(chars@, i as int, SchemaErrKind::BadChar);
                    }
                    self.reset_tables();
                    return Err(
                        XmlSchemaError::InvalidTag(
                            "character outside of tags is neither whitespace nor <".to_owned(),
                        ),
                    );
                }
            }
            i = i + 1;
        }
        proof {
            assert(chars@.take(n as int) =~= chars@);
        }
        let ghost st = scan_all(chars@, scan_init());
        self.element_names = names;
        self.element_position = paths;
        let mut lk = name_table_new();
        let mut j: usize = 0;
        while j < self.element_names.len()
            invariant
                j <= self.element_names@.len(),
                name_table_view(lk) == table_upto(
                    self.element_names@.map_values(|s: String| s@),
                    j as int,
                ),
            decreases self.element_names@.len() - j,
        {
            name_table_insert(&mut lk, self.element_names[j].as_str(), j);
            proof {
                assert(self.element_names@[j as int]@ == self.element_names@.map_values(
                    |s: String| s@,
                )[j as int]);
            }
            j = j + 1;
        }
        self.lookup = lk;
        proof {
            lemma_scan_wf(chars@);
            lemma_table_upto_facts(st.names, st.names.len() as int);
        }
        Ok(())
    }
}

} // verus!
