//! Header fields of an HTTP message: a map from field name to field value.
//!
//! The fields are kept in a vector sorted by the UTF-8 bytes of the name, so
//! that no name occurs twice, two maps with the same fields are held the
//! same way, and the fields are written out in one fixed order.

use crate::assoc::{lemma_insert_sorted, lemma_to_map_at, lemma_update_sorted, place_of};
use crate::assoc::{sorted, to_map};
use crate::order::{lemma_lex_irreflexive, lemma_lex_transitive, lex_lt};
use crate::order::{lex_order, Order};
use crate::text::lemma_bytes_tell_apart;
use vstd::prelude::*;
use vstd::string::*;
use vstd::utf8::encode_utf8;

verus! {

/// A header field as contracts see it: its name and its value.
pub type Field = (Seq<char>, Seq<char>);

/// The fields with their names as UTF-8 bytes, by which they are ordered.
pub open spec fn keyed(fields: Seq<Field>) -> Seq<(Seq<u8>, Seq<char>)> {
    Seq::new(fields.len(), |i: int| (encode_utf8(fields[i].0), fields[i].1))
}

/// The map that a list of fields stands for.
pub open spec fn field_map(fields: Seq<Field>) -> Map<Seq<char>, Seq<char>> {
    Map::new(
        |name: Seq<char>| to_map(keyed(fields)).contains_key(encode_utf8(name)),
        |name: Seq<char>| to_map(keyed(fields))[encode_utf8(name)],
    )
}

/// What a list of owned fields holds, as contracts see it.
pub open spec fn view_fields(items: Seq<(String, String)>) -> Seq<Field> {
    Seq::new(items.len(), |i: int| (items[i].0@, items[i].1@))
}

/// The header fields of a message.
#[derive(Debug, Clone, PartialEq, Eq)]
pub struct Headers {
    items: Vec<(String, String)>,
}

impl View for Headers {
    type V = Map<Seq<char>, Seq<char>>;

    /// The map from field name to field value.
    closed spec fn view(&self) -> Map<Seq<char>, Seq<char>> {
        field_map(self.fields())
    }
}

impl Headers {
    /// The fields in the order in which they are held and written out.
    pub closed spec fn fields(&self) -> Seq<Field> {
        view_fields(self.items@)
    }

    /// The fields are sorted by name, so no name occurs twice.
    pub open spec fn wf(&self) -> bool {
        sorted(keyed(self.fields()))
    }

    /// The view is the map of the fields.
    pub proof fn lemma_view(&self)
        ensures
            self@ == field_map(self.fields()),
    {
    }

    /// No fields.
    pub fn new() -> (h: Headers)
        ensures
            h.wf(),
            h@ == Map::<Seq<char>, Seq<char>>::empty(),
            h.fields() == Seq::<Field>::empty(),
    {
        let h = Headers { items: Vec::new() };
        assert(h.fields() =~= Seq::<Field>::empty());
        assert(keyed(h.fields()) =~= Seq::<(Seq<u8>, Seq<char>)>::empty());
        assert(h@ =~= Map::<Seq<char>, Seq<char>>::empty());
        h
    }

    /// The number of fields.
    pub fn len(&self) -> (n: usize)
        ensures
            n == self.fields().len(),
    {
        self.items.len()
    }

    /// The name of the field at place `i`.
    pub fn name_at(&self, i: usize) -> (name: &str)
        requires
            i < self.fields().len(),
        ensures
            name@ == self.fields()[i as int].0,
    {
        self.items[i].0.as_str()
    }

    /// The value of the field at place `i`.
    pub fn value_at(&self, i: usize) -> (value: &str)
        requires
            i < self.fields().len(),
        ensures
            value@ == self.fields()[i as int].1,
    {
        self.items[i].1.as_str()
    }

    /// The place where the field `name` stands or would stand, and whether
    /// it stands there.
    fn search(&self, name: &str) -> (r: (usize, bool))
        requires
            self.wf(),
        ensures
            r.0 <= self.fields().len(),
            forall|j: int|
                0 <= j < r.0 ==> lex_lt((#[trigger] keyed(self.fields())[j]).0, encode_utf8(name@)),
            !r.1 ==> forall|j: int|
                r.0 <= j < self.fields().len() ==> lex_lt(
                    encode_utf8(name@),
                    (#[trigger] keyed(self.fields())[j]).0,
                ),
            r.1 ==> r.0 < self.fields().len() && self.fields()[r.0 as int].0 == name@,
            r.1 <==> self@.contains_key(name@),
    {
        let ghost es = keyed(self.fields());
        let ghost key = encode_utf8(name@);
        let mut i: usize = 0;
        while i < self.items.len()
            invariant
                es == keyed(self.fields()),
                key == encode_utf8(name@),
                sorted(es),
                i <= es.len(),
                es.len() == self.items@.len(),
                forall|j: int| 0 <= j < i ==> lex_lt((#[trigger] es[j]).0, key),
            decreases es.len() - i,
        {
            assert(es[i as int].0 == encode_utf8(self.items@[i as int].0@));
            match lex_order(self.items[i].0.as_str().as_bytes(), name.as_bytes()) {
                Order::Less => {
                    i += 1;
                },
                Order::Equal => {
                    proof {
                        lemma_bytes_tell_apart(self.items@[i as int].0@, name@);
                        lemma_to_map_at(es, i as int);
                    }
                    return (i, true);
                },
                Order::Greater => {
                    proof {
                        lemma_lex_irreflexive(key);
                        assert forall|j: int| i <= j < es.len() implies lex_lt(
                            key,
                            (#[trigger] es[j]).0,
                        ) by {
                            if j > i {
                                assert(lex_lt(es[i as int].0, es[j].0));
                                lemma_lex_transitive(key, es[i as int].0, es[j].0);
                            }
                        }
                        if to_map(es).contains_key(key) {
                            let p = place_of(es, key);
                            assert(es[p].0 == key);
                            if p < i {
                                assert(lex_lt(es[p].0, key));
                            }
                        }
                    }
                    return (i, false);
                },
            }
        }
        proof {
            lemma_lex_irreflexive(key);
            if to_map(es).contains_key(key) {
                let p = place_of(es, key);
                assert(es[p].0 == key);
                assert(lex_lt(es[p].0, key));
            }
        }
        (i, false)
    }

    /// The value of the field `name`, if there is such a field.
    pub fn get(&self, name: &str) -> (r: Option<&str>)
        requires
            self.wf(),
        ensures
            match r {
                Some(value) => self@.contains_key(name@) && value@ == self@[name@],
                None => !self@.contains_key(name@),
            },
    {
        let (i, found) = self.search(name);
        if found {
            proof {
                lemma_to_map_at(keyed(self.fields()), i as int);
            }
            Some(self.items[i].1.as_str())
        } else {
            None
        }
    }

    /// Gives the field `name` the value `value`, whatever it held before.
    pub fn insert(&mut self, name: &str, value: &str)
        requires
            old(self).wf(),
        ensures
            final(self).wf(),
            final(self)@ == old(self)@.insert(name@, value@),
    {
        let ghost fields = self.fields();
        let ghost es = keyed(fields);
        let ghost e = (encode_utf8(name@), value@);
        let (i, found) = self.search(name);
        if found {
            proof {
                lemma_update_sorted(es, i as int, e);
            }
            self.items.set(i, (name.to_owned(), value.to_owned()));
            assert(self.fields() =~= fields.update(i as int, (name@, value@)));
            assert(keyed(self.fields()) =~= es.update(i as int, e));
        } else {
            proof {
                lemma_insert_sorted(es, i as int, e);
            }
            self.items.insert(i, (name.to_owned(), value.to_owned()));
            assert(self.fields() =~= fields.insert(i as int, (name@, value@)));
            assert(keyed(self.fields()) =~= es.insert(i as int, e));
        }
        proof {
            assert forall|k: Seq<char>| #[trigger]
                self@.contains_key(k) <==> old(self)@.insert(name@, value@).contains_key(k) by {
                lemma_bytes_tell_apart(k, name@);
            }
            assert forall|k: Seq<char>| #[trigger] self@.contains_key(k) implies self@[k] == old(
                self,
            )@.insert(name@, value@)[k] by {
                lemma_bytes_tell_apart(k, name@);
            }
            assert(self@ =~= old(self)@.insert(name@, value@));
        }
    }
}

} // verus!
