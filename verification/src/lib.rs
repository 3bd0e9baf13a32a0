//! A schema-driven XML builder: a hierarchy-only schema is parsed into an
//! element table, imperative calls assign instance keys and record leaf
//! values, and serialization reconstructs the nested document by sorting
//! the recorded ancestry vectors and diffing adjacent ones.

pub mod builder;
pub mod schema;
pub mod tables;
pub mod text;

pub use schema::XmlSchemaError;
pub use schema::XmlSchema;
pub use schema::validate_tag_check_if_opening;
pub use builder::Instance;
pub use builder::create_position;
pub use text::escape_xml;

use vstd::prelude::*;
use vstd::string::StringExecFns;
use vstd::pervasive::VecAdditionalExecFns;
use crate::builder::{
    Instance as Rec, add_element_updates, attach_updates, attr_string, create_position as
    encode_exec, emit_step, fresh_keys, instance_wf, lemma_encode_facts, render_pairs,
    set_key_updates, sort_instances, sorted_positions,
};
use crate::schema::{XmlSchema as Schema, scan_all, scan_init};
use crate::tables::{
    AttrTable, KeyTable, attr_table_get, attr_table_insert, attr_table_new, attr_table_view,
    key_table_get, key_table_insert, key_table_new, key_table_view, name_table_get,
};
use crate::text::{chars_to_string, push_str_chars, str_chars};

verus! {

/// The error of a name lookup against the element table.
#[derive(Debug, PartialEq, Eq)]
pub enum XmlLookupError {
    /// The element name is not declared in the schema.
    UnknownElementName,
}

/// The errors of attaching attributes to an instance.
#[derive(Debug, PartialEq, Eq)]
pub enum XmlAttributeError {
    /// The name/value items do not come in pairs.
    OddPairCount,
    /// The instance already carries a different attribute string.
    ConflictingAttributesForSameInstance,
}

/// A handle to one recorded element instance: its element id and the
/// instance key allocated or reused for it.
#[derive(Debug, PartialEq, Eq, Clone, Copy)]
pub struct ChainFromAdd {
    pub no_element: usize,
    pub no_key: usize,
}

/// The builder session: the parsed schema, the key registry, the current
/// key per element, the recorded instances, the attribute store, and the
/// output buffer.
pub struct XmlBuilder {
    pub schema: Schema,
    pub current_key: Vec<usize>,
    pub key_list: KeyTable,
    pub key_count: usize,
    pub elements: Vec<Rec>,
    pub attribute_list: AttrTable,
    pub xml_output: String,
    pub built: bool,
}

impl XmlBuilder {
    /// The element names by id.
    pub open spec fn names(self) -> Seq<Seq<char>> {
        self.schema.names_view()
    }

    /// The ancestry paths by id.
    pub open spec fn paths(self) -> Seq<Seq<usize>> {
        self.schema.paths_view()
    }

    /// The name lookup table's contents.
    pub open spec fn lookup(self) -> Map<Seq<char>, usize> {
        self.schema.lookup_view()
    }

    /// The key registry's contents.
    pub open spec fn keys(self) -> Map<(usize, Seq<char>), usize> {
        key_table_view(self.key_list)
    }

    /// The attribute store's contents.
    pub open spec fn attrs(self) -> Map<(usize, usize), Seq<char>> {
        attr_table_view(self.attribute_list)
    }

    /// Well-formedness: the element table is well formed, the current-key
    /// vector has one slot per element, every recorded instance's encoded
    /// vector is even and in range, and until serialization consumes the
    /// recorder the instances carry fresh, pairwise distinct keys.
    pub open spec fn wf(self) -> bool {
        &&& self.schema.wf()
        &&& self.current_key@.len() == self.names().len()
        &&& forall|n: int|
            0 <= n < self.elements@.len() ==> instance_wf(
                #[trigger] self.elements@[n],
                self.names().len() as int,
            )
        &&& !self.built ==> fresh_keys(self.elements@, self.key_count)
    }

    /// A fresh builder: no schema, no keys, no attributes, an empty output
    /// buffer, and the one initial empty instance that the serializer
    /// diffs the first real instance against.
    pub fn new() -> (r: XmlBuilder)
        ensures
            r.wf(),
            r.names() == Seq::<Seq<char>>::empty(),
            r.lookup() == Map::<Seq<char>, usize>::empty(),
            r.keys() == Map::<(usize, Seq<char>), usize>::empty(),
            r.attrs() == Map::<(usize, usize), Seq<char>>::empty(),
            r.current_key@ == Seq::<usize>::empty(),
            r.key_count == 0,
            r.elements@.len() == 1,
            r.elements@[0].position@.len() == 0,
            r.elements@[0].value@.len() == 0,
            r.xml_output@ == Seq::<char>::empty(),
            !r.built,
    {
        let mut elems: Vec<Rec> = Vec::new();
        elems.push(Rec { position: Vec::new(), value: Vec::new() });
        XmlBuilder {
            schema: Schema::new(),
            current_key: Vec::new(),
            key_list: key_table_new(),
            key_count: 0,
            elements: elems,
            attribute_list: attr_table_new(),
            xml_output: String::new(),
            built: false,
        }
    }

    /// Parses a schema and starts a fresh session on it: keys, recorded
    /// instances, attributes and the output buffer are discarded. On
    /// success the element table is exactly the scanner's outcome and
    /// every current key is unset; on any error the kind of the returned
    /// error is the scanner's (empty text is rejected outright), and the
    /// builder is left without elements, so that every later lookup fails
    /// until a valid schema is supplied.
    pub fn set_schema(&mut self, txt_schema: &str) -> (r: Result<(), XmlSchemaError>)
        ensures
            final(self).wf(),
            final(self).key_count == 0,
            final(self).keys() == Map::<(usize, Seq<char>), usize>::empty(),
            final(self).attrs() == Map::<(usize, usize), Seq<char>>::empty(),
            final(self).elements@.len() == 1,
            final(self).elements@[0].position@.len() == 0,
            final(self).elements@[0].value@.len() == 0,
            final(self).xml_output@ == Seq::<char>::empty(),
            !final(self).built,
            final(self).schema.raw_string@ == txt_schema@,
            ({
                let st = scan_all(txt_schema@, scan_init());
                match r {
                    Ok(()) => {
                        &&& txt_schema@.len() > 0
                        &&& st.error is None
                        &&& final(self).names() == st.names
                        &&& final(self).paths() == st.paths
                        &&& final(self).lookup() == crate::schema::table_upto(
                            st.names,
                            st.names.len() as int,
                        )
                        &&& final(self).current_key@.len() == st.names.len()
                        &&& forall|i: int|
                            0 <= i < final(self).current_key@.len()
                                ==> final(self).current_key@[i] == 0
                    },
                    Err(e) => {
                        &&& (txt_schema@.len() == 0 ==> (e matches XmlSchemaError::SchemaTxtInvalid(
                            _,
                        )))
                        &&& (txt_schema@.len() > 0 ==> st.error is Some && crate::schema::err_matches(
                            e,
                            st.error.unwrap(),
                        ))
                        &&& (st.error == Some(crate::schema::SchemaErrKind::Mismatch) ==> (e matches
                        XmlSchemaError::TagMismatch(m) && m@ == "Closing tag "@ + st.buffer
                            + " doesn't match last opening tag "@ + st.stack.last()))
                        &&& final(self).names().len() == 0
                        &&& final(self).current_key@.len() == 0
                    },
                }
            }),
    {
        self.schema.set_schema(txt_schema);
        let r = self.schema.parse_schema();
        self.key_list = key_table_new();
        self.key_count = 0;
        self.attribute_list = attr_table_new();
        let mut elems: Vec<Rec> = Vec::new();
        elems.push(Rec { position: Vec::new(), value: Vec::new() });
        self.elements = elems;
        self.xml_output = String::new();
        self.built = false;
        match r {
            Ok(()) => {
                let n = self.schema.element_names.len();
                let mut z: Vec<usize> = Vec::new();
                let mut i: usize = 0;
                while i < n
                    invariant
                        i <= n,
                        z@.len() == i,
                        forall|j: int| 0 <= j < i ==> z@[j] == 0,
                    decreases n - i,
                {
                    z.push(0);
                    i = i + 1;
                }
                self.current_key = z;
                Ok(())
            },
            Err(e) => {
                self.current_key = Vec::new();
                Err(e)
            },
        }
    }

    /// Resolves the element and makes a key current for it: the key bound
    /// to (element, key text) is reused if one exists, else the next fresh
    /// key is allocated and bound. An unknown element name is refused and
    /// changes nothing.
    pub fn set_key(&mut self, nm_element: &str, txt_key: &str) -> (r: Result<
        ChainFromAdd,
        XmlLookupError,
    >)
        requires
            old(self).wf(),
            old(self).key_count < usize::MAX,
        ensures
            final(self).wf(),
            final(self).schema == old(self).schema,
            final(self).elements == old(self).elements,
            final(self).attribute_list == old(self).attribute_list,
            final(self).xml_output == old(self).xml_output,
            final(self).built == old(self).built,
            match r {
                Err(e) => {
                    &&& e == XmlLookupError::UnknownElementName
                    &&& !old(self).lookup().contains_key(nm_element@)
                    &&& final(self).key_list == old(self).key_list
                    &&& final(self).current_key == old(self).current_key
                    &&& final(self).key_count == old(self).key_count
                },
                Ok(ch) => {
                    &&& old(self).lookup().contains_key(nm_element@)
                    &&& ch.no_element == old(self).lookup()[nm_element@]
                    &&& ({
                        let (k2, c2, n2, rk) = set_key_updates(
                            old(self).keys(),
                            old(self).current_key@,
                            old(self).key_count,
                            ch.no_element,
                            txt_key@,
                        );
                        &&& final(self).keys() == k2
                        &&& final(self).current_key@ == c2
                        &&& final(self).key_count == n2
                        &&& ch.no_key == rk
                    })
                },
            },
    {
        match name_table_get(&self.schema.lookup, nm_element) {
            None => Err(XmlLookupError::UnknownElementName),
            Some(id) => {
                proof {
                    assert(old(self).lookup().contains_key(nm_element@));
                    assert(id < old(self).names().len());
                }
                match key_table_get(&self.key_list, id, txt_key) {
                    Some(k) => {
                        self.current_key.set(id, k);
                        Ok(ChainFromAdd { no_element: id, no_key: k })
                    },
                    None => {
                        let k = self.key_count + 1;
                        self.key_count = k;
                        key_table_insert(&mut self.key_list, id, txt_key, k);
                        self.current_key.set(id, k);
                        Ok(ChainFromAdd { no_element: id, no_key: k })
                    },
                }
            },
        }
    }

    /// Resets every element's current key to unset, so that the next
    /// recorded instances begin an independent ancestry chain.
    pub fn clear_keys(&mut self)
        requires
            old(self).wf(),
        ensures
            final(self).wf(),
            final(self).schema == old(self).schema,
            final(self).key_list == old(self).key_list,
            final(self).key_count == old(self).key_count,
            final(self).elements == old(self).elements,
            final(self).attribute_list == old(self).attribute_list,
            final(self).xml_output == old(self).xml_output,
            final(self).built == old(self).built,
            final(self).current_key@.len() == old(self).current_key@.len(),
            forall|i: int|
                0 <= i < final(self).current_key@.len() ==> final(self).current_key@[i] == 0,
    {
        let n = self.current_key.len();
        let mut z: Vec<usize> = Vec::new();
        let mut i: usize = 0;
        while i < n
            invariant
                i <= n,
                z@.len() == i,
                forall|j: int| 0 <= j < i ==> z@[j] == 0,
            decreases n - i,
        {
            z.push(0);
            i = i + 1;
        }
        self.current_key = z;
    }

    /// Resolves the element and records a new instance of it: a fresh key
    /// is always allocated — two identical calls yield two distinct
    /// instances — and the instance's ancestry vector pairs every element
    /// of its schema path with that element's current key. An empty value
    /// is stored as a single space. An unknown element name is refused and
    /// changes nothing.
    pub fn add_element(&mut self, nm_element: &str, value_element: &str) -> (r: Result<
        ChainFromAdd,
        XmlLookupError,
    >)
        requires
            old(self).wf(),
            old(self).key_count < usize::MAX,
        ensures
            final(self).wf(),
            final(self).schema == old(self).schema,
            final(self).key_list == old(self).key_list,
            final(self).attribute_list == old(self).attribute_list,
            final(self).xml_output == old(self).xml_output,
            final(self).built == old(self).built,
            match r {
                Err(e) => {
                    &&& e == XmlLookupError::UnknownElementName
                    &&& !old(self).lookup().contains_key(nm_element@)
                    &&& final(self).current_key == old(self).current_key
                    &&& final(self).key_count == old(self).key_count
                    &&& final(self).elements == old(self).elements
                },
                Ok(ch) => {
                    &&& old(self).lookup().contains_key(nm_element@)
                    &&& ch.no_element == old(self).lookup()[nm_element@]
                    &&& ({
                        let (c2, n2, pos, val) = add_element_updates(
                            old(self).paths()[ch.no_element as int],
                            old(self).current_key@,
                            old(self).key_count,
                            value_element@,
                        );
                        &&& final(self).current_key@ == c2
                        &&& final(self).key_count == n2
                        &&& ch.no_key == n2
                        &&& final(self).elements@.len() == old(self).elements@.len() + 1
                        &&& final(self).elements@.drop_last() == old(self).elements@
                        &&& final(self).elements@.last().position@ == pos
                        &&& final(self).elements@.last().value@ == val
                    })
                },
            },
    {
        match name_table_get(&self.schema.lookup, nm_element) {
            None => Err(XmlLookupError::UnknownElementName),
            Some(id) => {
                proof {
                    assert(old(self).lookup().contains_key(nm_element@));
                    assert(id < old(self).names().len());
                    assert(old(self).paths()[id as int].len() > 0);
                    assert(old(self).paths()[id as int].last() == id);
                }
                let k = self.key_count + 1;
                self.key_count = k;
                self.current_key.set(id, k);
                proof {
                    assert(self.schema.element_position@[id as int]@ == old(self).paths()[
                        id as int
                    ]);
                    assert(forall|q: int|
                        0 <= q < old(self).paths()[id as int].len() ==> #[trigger] old(
                            self,
                        ).paths()[id as int][q] < self.current_key@.len());
                }
                let position = encode_exec(&self.schema.element_position[id], &self.current_key);
                let mut vchars = str_chars(value_element);
                if vchars.len() == 0 {
                    vchars.push(' ');
                }
                let ghost pre = self.elements@;
                self.elements.push(Rec { position, value: vchars });
                proof {
                    let path = old(self).paths()[id as int];
                    lemma_encode_facts(path, self.current_key@);
                    assert(self.elements@.drop_last() =~= pre);
                    let last = self.elements@.last();
                    assert forall|q: int|
                        0 <= q < last.position@.len() && q % 2 == 0 implies #[trigger] last.position@[q]
                        < self.names().len() by {
                        let j = q / 2;
                        assert(q == 2 * j);
                        assert(last.position@[2 * j] == path[j]);
                    }
                }
                Ok(ChainFromAdd { no_element: id, no_key: k })
            },
        }
    }

    /// Performs the sort-and-diff emission: the recorded instances are
    /// sorted by their encoded ancestry vectors, a sentinel with an empty
    /// ancestry is appended to force every still-open tag closed, and the
    /// rendered text of every adjacent pair is appended to the output
    /// buffer. A second call is a guarded no-op: the recorder is consumed.
    pub fn build_xml(&mut self)
        requires
            old(self).wf(),
        ensures
            final(self).wf(),
            final(self).schema == old(self).schema,
            final(self).current_key == old(self).current_key,
            final(self).key_list == old(self).key_list,
            final(self).key_count == old(self).key_count,
            final(self).attribute_list == old(self).attribute_list,
            old(self).built ==> *final(self) == *old(self),
            !old(self).built ==> {
                &&& final(self).built
                &&& final(self).elements@.len() == old(self).elements@.len() + 1
                &&& sorted_positions(final(self).elements@.drop_last())
                &&& final(self).elements@.drop_last().to_multiset() == old(
                    self,
                ).elements@.to_multiset()
                &&& final(self).elements@.last().position@.len() == 0
                &&& final(self).elements@.last().value@.len() == 0
                &&& final(self).xml_output@ == old(self).xml_output@ + render_pairs(
                    final(self).elements@,
                    old(self).names(),
                    old(self).attrs(),
                    1,
                )
            },
    {
        if self.built {
            return ;
        }
        self.built = true;
        sort_instances(&mut self.elements);
        proof {
            let sorted = self.elements@;
            let pre = old(self).elements@;
            sorted.to_multiset_ensures();
            pre.to_multiset_ensures();
            assert forall|n: int|
                0 <= n < sorted.len() implies instance_wf(
                #[trigger] sorted[n],
                self.names().len() as int,
            ) by {
                assert(sorted.contains(sorted[n]));
                assert(sorted.to_multiset().count(sorted[n]) > 0);
                assert(pre.to_multiset().count(sorted[n]) > 0);
                assert(pre.contains(sorted[n]));
                let j = choose|j: int| 0 <= j < pre.len() && pre[j] == sorted[n];
                assert(instance_wf(pre[j], self.names().len() as int));
            }
        }
        let ghost sorted_all = self.elements@;
        self.elements.push(Rec { position: Vec::new(), value: Vec::new() });
        proof {
            assert(self.elements@.drop_last() =~= sorted_all);
        }
        let n = self.elements.len();
        let mut out: Vec<char> = Vec::new();
        let ghost nv = self.names();
        let ghost av = self.attrs();
        let ghost elems = self.elements@;
        let mut idx: usize = 1;
        while idx < n
            invariant
                1 <= idx <= n,
                n == self.elements@.len(),
                self.elements@ == elems,
                self.schema == old(self).schema,
                self.attribute_list == old(self).attribute_list,
                nv == self.names(),
                av == self.attrs(),
                forall|q: int|
                    0 <= q < elems.len() ==> instance_wf(#[trigger] elems[q], nv.len() as int),
                out@ + render_pairs(elems, nv, av, idx as int) == render_pairs(elems, nv, av, 1),
            decreases n - idx,
        {
            let ghost out_before = out@;
            emit_step(
                &mut out,
                &self.elements[idx - 1],
                &self.elements[idx],
                &self.schema.element_names,
                &self.attribute_list,
            );
            idx = idx + 1;
            proof {
                assert(out@ + render_pairs(elems, nv, av, idx as int) =~= render_pairs(
                    elems,
                    nv,
                    av,
                    1,
                ));
            }
        }
        proof {
            assert(render_pairs(elems, nv, av, n as int) =~= Seq::<char>::empty());
            assert(out@ =~= render_pairs(elems, nv, av, 1));
        }
        let add = chars_to_string(&out);
        self.xml_output.append(add.as_str());
    }

    /// The accumulated output text.
    pub fn xml_out(&self) -> (r: &str)
        ensures
            r@ == self.xml_output@,
    {
        self.xml_output.as_str()
    }
}

impl ChainFromAdd {
    /// Attaches attributes to the instance this handle names: the items
    /// must come in name/value pairs and are concatenated verbatim to
    /// ` name="value"` tokens. The string is set once per instance: the
    /// same string again succeeds and changes nothing, a different one is
    /// refused and changes nothing.
    pub fn attributes(&self, xb: &mut XmlBuilder, attributes: &[&str]) -> (r: Result<
        (),
        XmlAttributeError,
    >)
        ensures
            old(xb).wf() ==> final(xb).wf(),
            final(xb).schema == old(xb).schema,
            final(xb).current_key == old(xb).current_key,
            final(xb).key_list == old(xb).key_list,
            final(xb).key_count == old(xb).key_count,
            final(xb).elements == old(xb).elements,
            final(xb).xml_output == old(xb).xml_output,
            final(xb).built == old(xb).built,
            ({
                let a = attr_string(attributes@.map_values(|t: &str| t@));
                if attributes@.len() % 2 != 0 {
                    r == Err::<(), XmlAttributeError>(XmlAttributeError::OddPairCount) && final(xb).attrs()
                        == old(xb).attrs()
                } else {
                    let (a2, ok) = attach_updates(
                        old(xb).attrs(),
                        self.no_element,
                        self.no_key,
                        a,
                    );
                    &&& final(xb).attrs() == a2
                    &&& (ok ==> r == Ok::<(), XmlAttributeError>(()))
                    &&& (!ok ==> r == Err::<(), XmlAttributeError>(
                        XmlAttributeError::ConflictingAttributesForSameInstance,
                    ))
                }
            }),
    {
        if attributes.len() % 2 != 0 {
            return Err(XmlAttributeError::OddPairCount);
        }
        let ghost vs = attributes@.map_values(|t: &str| t@);
        let mut built: Vec<char> = Vec::new();
        let n = attributes.len();
        let np = n / 2;
        let mut i: usize = 0;
        proof {
            assert(vs.skip(0) =~= vs);
        }
        while i < np
            invariant
                i <= np,
                n == attributes@.len(),
                np == n / 2,
                n % 2 == 0,
                vs == attributes@.map_values(|t: &str| t@),
                vs.len() == n,
                built@ + attr_string(vs.skip(2 * i as int)) == attr_string(vs),
            decreases np - i,
        {
            let ghost before = built@;
            built.push(' ');
            push_str_chars(&mut built, attributes[2 * i]);
            built.push('=');
            built.push('"');
            push_str_chars(&mut built, attributes[2 * i + 1]);
            built.push('"');
            i = i + 1;
            proof {
                let rest = vs.skip(2 * (i - 1) as int);
                assert(rest[0] == vs[2 * (i - 1)]);
                assert(rest[1] == vs[2 * (i - 1) + 1]);
                assert(rest.skip(2) =~= vs.skip(2 * i as int));
                assert(built@ =~= before + (seq![' '] + rest[0] + seq!['=', '"'] + rest[1] + seq![
                    '"',
                ]));
                assert(attr_string(rest) == seq![' '] + rest[0] + seq!['=', '"'] + rest[1] + seq![
                    '"',
                ] + attr_string(rest.skip(2)));
                assert(built@ + attr_string(vs.skip(2 * i as int)) =~= before + attr_string(rest));
            }
        }
        proof {
            assert(vs.skip(2 * np as int).len() < 2);
            assert(attr_string(vs.skip(2 * np as int)) =~= Seq::<char>::empty());
            assert(built@ =~= attr_string(vs));
        }
        let s = chars_to_string(&built);
        match attr_table_get(&xb.attribute_list, self.no_element, self.no_key) {
            Some(existing) => {
                if existing == s {
                    Ok(())
                } else {
                    Err(XmlAttributeError::ConflictingAttributesForSameInstance)
                }
            },
            None => {
                attr_table_insert(&mut xb.attribute_list, self.no_element, self.no_key, s);
                Ok(())
            },
        }
    }
}

} // verus!
