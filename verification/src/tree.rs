//! The key/value tree: text values and named child trees, with keys unique
//! within each node.

use vstd::prelude::*;
use vstd::std_specs::cmp::PartialEqSpecImpl;
use std::str::FromStr;
use crate::assoc::{
    distinct_keys,
    find,
    has_key,
    index_of,
    keys_included,
    lemma_entry_found,
    lemma_same_keys,
    put,
    value_of,
};
use crate::builder::{build, parse_keyvalues, result_view};
use crate::error::{Error, ErrorView};
use crate::lexer::{lex, tokenize};
use crate::token::Token;

verus! {

/// Mathematical model of a [`KeyValues`] node: a map from keys to text and a
/// map from keys to child trees. The order in which bindings were made is not
/// part of it.
pub ghost struct Tree {
    pub values: Map<Seq<char>, Seq<char>>,
    pub subkeys: Map<Seq<char>, Tree>,
}

impl Tree {
    /// The tree without any binding.
    pub open spec fn empty() -> Tree {
        Tree { values: Map::empty(), subkeys: Map::empty() }
    }

    /// This tree with `key` bound to the text `value`; an earlier text under
    /// `key` is replaced.
    pub open spec fn with_value(self, key: Seq<char>, value: Seq<char>) -> Tree {
        Tree { values: self.values.insert(key, value), subkeys: self.subkeys }
    }

    /// This tree with `key` bound to the child `child`; an earlier child
    /// under `key` is replaced.
    pub open spec fn with_subkey(self, key: Seq<char>, child: Tree) -> Tree {
        Tree { values: self.values, subkeys: self.subkeys.insert(key, child) }
    }
}

/// A node of the tree. Each child is owned by its parent alone.
///
/// The bindings are kept in two lists, one for the text values and one for
/// the children; within each list no key occurs twice.
#[derive(Debug)]
pub struct KeyValues {
    values: Vec<(String, String)>,
    subkeys: Vec<(String, KeyValues)>,
}

impl KeyValues {
    #[verifier::type_invariant]
    spec fn keys_unique(&self) -> bool {
        distinct_keys(self.values@) && distinct_keys(self.subkeys@)
    }

    /// The tree that this node stands for.
    pub closed spec fn view(&self) -> Tree
        decreases self,
    {
        Tree {
            values: Map::new(
                |k: Seq<char>| has_key(self.values@, k),
                |k: Seq<char>| value_of(self.values@, k)@,
            ),
            subkeys: Map::new(
                |k: Seq<char>| has_key(self.subkeys@, k),
                |k: Seq<char>|
                    if has_key(self.subkeys@, k) {
                        self.subkeys@[index_of(self.subkeys@, k)].1.view()
                    } else {
                        arbitrary()
                    },
            ),
        }
    }

    /// The empty tree.
    pub fn new() -> (r: Self)
        ensures
            r@ == Tree::empty(),
    {
        let r = KeyValues { values: Vec::new(), subkeys: Vec::new() };
        proof {
            assert(r@.values =~= Map::<Seq<char>, Seq<char>>::empty());
            assert(r@.subkeys =~= Map::<Seq<char>, Tree>::empty());
        }
        r
    }

    /// The tree with the single text value `value` under `key`.
    pub fn from_pair(key: &str, value: &str) -> (r: Self)
        ensures
            r@ == Tree::empty().with_value(key@, value@),
    {
        let mut r = KeyValues::new();
        r.add_value(key, value);
        r
    }

    /// Binds `key` to the text `value`. A text already under `key` is
    /// replaced; the children are not touched.
    pub fn add_value(&mut self, key: &str, value: &str)
        ensures
            final(self)@ == old(self)@.with_value(key@, value@),
    {
        proof {
            use_type_invariant(&*self);
        }
        let mut values: Vec<(String, String)> = Vec::new();
        core::mem::swap(&mut self.values, &mut values);
        put(&mut values, key.to_string(), value.to_string());
        core::mem::swap(&mut self.values, &mut values);
        proof {
            assert(self@.values =~= old(self)@.values.insert(key@, value@));
            assert(self@.subkeys =~= old(self)@.subkeys);
        }
    }

    /// Binds `key` to the child `subkey`, moving it into the tree. A child
    /// already under `key` is replaced; the text values are not touched.
    pub fn insert_subkey(&mut self, key: String, subkey: KeyValues)
        ensures
            final(self)@ == old(self)@.with_subkey(key@, subkey@),
    {
        proof {
            use_type_invariant(&*self);
        }
        let mut subkeys: Vec<(String, KeyValues)> = Vec::new();
        core::mem::swap(&mut self.subkeys, &mut subkeys);
        put(&mut subkeys, key, subkey);
        core::mem::swap(&mut self.subkeys, &mut subkeys);
        proof {
            assert(self@.values =~= old(self)@.values);
            assert(self@.subkeys =~= old(self)@.subkeys.insert(key@, subkey@));
        }
    }

    /// Looks up the text stored under `key`, as it was stored.
    pub fn get_text(&self, key: &String) -> (r: Option<&String>)
        ensures
            match r {
                Some(text) => self@.values.contains_key(key@) && text@ == self@.values[key@],
                None => !self@.values.contains_key(key@),
            },
    {
        proof {
            use_type_invariant(self);
        }
        match find(&self.values, key) {
            Some(i) => {
                proof {
                    lemma_entry_found(self.values@, i as int);
                }
                Some(&self.values[i].1)
            },
            None => None,
        }
    }

    /// Looks up the child stored under `key`. Only this node is searched,
    /// not its descendants.
    pub fn get_subkey(&self, key: &str) -> (r: Option<&KeyValues>)
        ensures
            match r {
                Some(child) => self@.subkeys.contains_key(key@) && child@ == self@.subkeys[key@],
                None => !self@.subkeys.contains_key(key@),
            },
    {
        proof {
            use_type_invariant(self);
        }
        let key = key.to_string();
        match find(&self.subkeys, &key) {
            Some(i) => {
                proof {
                    lemma_entry_found(self.subkeys@, i as int);
                }
                Some(&self.subkeys[i].1)
            },
            None => None,
        }
    }

    /// Binds `key` to a copy of the child `subkey`. A child already under
    /// `key` is replaced; the text values are not touched.
    pub fn add_subkey(&mut self, key: &str, subkey: &KeyValues)
        ensures
            final(self)@ == old(self)@.with_subkey(key@, subkey@),
    {
        self.insert_subkey(key.to_string(), subkey.clone());
    }

    /// Reads a tree from text: the text is split into tokens, and the tree
    /// is built from them. The first error of either step is returned.
    pub fn from_str(string: &str) -> (r: Result<Self, Error>)
        ensures
            result_view(r) == parse(string@),
    {
        match tokenize(string) {
            Ok(tokens) => Self::from_tokens(&tokens),
            Err(e) => Err(e),
        }
    }

    fn from_tokens(tokens: &Vec<Token>) -> (r: Result<Self, Error>)
        ensures
            result_view(r) == build(crate::token::tokens_view(tokens@)),
    {
        parse_keyvalues(tokens)
    }

    /// Looks up the text under `key` and converts it to a `T`. There is no
    /// value where the key is missing, and none where its text is not a `T`.
    pub fn get<T: FromStr>(&self, key: &String) -> (r: Option<T>)
        ensures
            !self@.values.contains_key(key@) ==> r is None,
    {
        let converted = match self.get_text(key) {
            Some(text) => Some(convert::<T>(text.as_str())),
            None => None,
        };
        typed(converted)
    }

    /// Like [`KeyValues::get`], with the default value of `T` where that
    /// has no value.
    pub fn get_or_default<T: FromStr + Default>(&self, key: &String) -> (r: T)
        ensures
            !self@.values.contains_key(key@) ==> call_ensures(T::default, (), r),
    {
        or_default(self.get(key))
    }

    /// Tells whether this tree and `other` hold the same bindings, whatever
    /// the order in which they were made.
    fn same(&self, other: &KeyValues) -> (r: bool)
        ensures
            r == (self@ == other@),
        decreases self,
    {
        proof {
            use_type_invariant(self);
            use_type_invariant(other);
        }
        if !keys_included(&other.values, &self.values) {
            assert(self@.values.dom() != other@.values.dom()) by {
                let k = choose|k: Seq<char>|
                    has_key(other.values@, k) && !has_key(self.values@, k);
                assert(other@.values.dom().contains(k));
            }
            return false;
        }
        if !keys_included(&other.subkeys, &self.subkeys) {
            assert(self@.subkeys.dom() != other@.subkeys.dom()) by {
                let k = choose|k: Seq<char>|
                    has_key(other.subkeys@, k) && !has_key(self.subkeys@, k);
                assert(other@.subkeys.dom().contains(k));
            }
            return false;
        }
        let mut i: usize = 0;
        while i < self.values.len()
            invariant
                i <= self.values.len(),
                distinct_keys(self.values@),
                distinct_keys(other.values@),
                forall|j: int|
                    0 <= j < i ==> has_key(other.values@, (#[trigger] self.values@[j]).0@)
                        && value_of(other.values@, self.values@[j].0@)@ == self.values@[j].1@,
            decreases self.values.len() - i,
        {
            proof {
                lemma_entry_found(self.values@, i as int);
            }
            match find(&other.values, &self.values[i].0) {
                Some(j) => {
                    proof {
                        lemma_entry_found(other.values@, j as int);
                    }
                    if other.values[j].1 != self.values[i].1 {
                        assert(self@.values[self.values@[i as int].0@]
                            != other@.values[self.values@[i as int].0@]);
                        return false;
                    }
                },
                None => {
                    assert(self@.values.dom().contains(self.values@[i as int].0@));
                    assert(!other@.values.dom().contains(self.values@[i as int].0@));
                    return false;
                },
            }
            i += 1;
        }
        let mut i: usize = 0;
        while i < self.subkeys.len()
            invariant
                i <= self.subkeys.len(),
                distinct_keys(self.subkeys@),
                distinct_keys(other.subkeys@),
                forall|j: int|
                    0 <= j < i ==> has_key(other.subkeys@, (#[trigger] self.subkeys@[j]).0@)
                        && value_of(other.subkeys@, self.subkeys@[j].0@)@
                        == self.subkeys@[j].1@,
            decreases self.subkeys.len() - i,
        {
            proof {
                lemma_entry_found(self.subkeys@, i as int);
            }
            match find(&other.subkeys, &self.subkeys[i].0) {
                Some(j) => {
                    proof {
                        lemma_entry_found(other.subkeys@, j as int);
                    }
                    if !self.subkeys[i].1.same(&other.subkeys[j].1) {
                        assert(self@.subkeys[self.subkeys@[i as int].0@]
                            != other@.subkeys[self.subkeys@[i as int].0@]);
                        return false;
                    }
                },
                None => {
                    assert(self@.subkeys.dom().contains(self.subkeys@[i as int].0@));
                    assert(!other@.subkeys.dom().contains(self.subkeys@[i as int].0@));
                    return false;
                },
            }
            i += 1;
        }
        proof {
            assert forall|k: Seq<char>| has_key(self.values@, k) implies has_key(
                other.values@,
                k,
            ) && value_of(other.values@, k)@ == value_of(self.values@, k)@ by {
                lemma_entry_found(self.values@, index_of(self.values@, k));
            }
            assert forall|k: Seq<char>| has_key(self.subkeys@, k) implies has_key(
                other.subkeys@,
                k,
            ) && value_of(other.subkeys@, k)@ == value_of(self.subkeys@, k)@ by {
                lemma_entry_found(self.subkeys@, index_of(self.subkeys@, k));
            }
            assert(self@.values =~= other@.values);
            assert(self@.subkeys =~= other@.subkeys);
        }
        true
    }
}

/// The tree that the text `s` describes, or the first error in it: that of
/// the lexer if it has one, else that of the builder.
pub open spec fn parse(s: Seq<char>) -> Result<Tree, ErrorView> {
    match lex(s) {
        Ok(tokens) => build(tokens),
        Err(e) => Err(e),
    }
}

/// `str::parse` of the standard library, which converts text through the
/// `FromStr` impl of `T`. A failed conversion is handed back as `None`.
/// Nothing is claimed of the outcome: it is up to that impl.
#[verifier::external_body]
fn convert<T: FromStr>(text: &str) -> (r: Option<T>) {
    text.parse::<T>().ok()
}

/// What a typed lookup gives: `found` is `None` where the key is missing,
/// and holds the outcome of the conversion where it is present. A missing
/// key and a failed conversion both give `None`.
pub fn typed<T>(found: Option<Option<T>>) -> (r: Option<T>)
    ensures
        r == match found {
            Some(Some(value)) => Some(value),
            _ => None::<T>,
        },
{
    match found {
        Some(Some(value)) => Some(value),
        _ => None,
    }
}

/// The value of a typed lookup, or the default value of `T` where the
/// lookup gave none.
pub fn or_default<T: Default>(found: Option<T>) -> (r: T)
    ensures
        match found {
            Some(value) => r == value,
            None => call_ensures(T::default, (), r),
        },
{
    match found {
        Some(value) => value,
        None => T::default(),
    }
}

impl Clone for KeyValues {
    /// A copy of the whole tree.
    fn clone(&self) -> (r: Self)
        ensures
            r@ == self@,
        decreases self,
    {
        proof {
            use_type_invariant(self);
        }
        let mut values: Vec<(String, String)> = Vec::new();
        let mut i: usize = 0;
        while i < self.values.len()
            invariant
                i <= self.values.len(),
                values@.len() == i,
                forall|j: int| 0 <= j < i ==> #[trigger] values@[j] == self.values@[j],
            decreases self.values.len() - i,
        {
            values.push((self.values[i].0.clone(), self.values[i].1.clone()));
            i += 1;
        }
        let mut subkeys: Vec<(String, KeyValues)> = Vec::new();
        let mut i: usize = 0;
        while i < self.subkeys.len()
            invariant
                i <= self.subkeys.len(),
                subkeys@.len() == i,
                forall|j: int|
                    0 <= j < i ==> (#[trigger] subkeys@[j]).0 == self.subkeys@[j].0
                        && subkeys@[j].1@ == self.subkeys@[j].1@,
            decreases self.subkeys.len() - i,
        {
            let child = self.subkeys[i].1.clone();
            subkeys.push((self.subkeys[i].0.clone(), child));
            i += 1;
        }
        proof {
            assert(values@ =~= self.values@);
            lemma_same_keys(self.subkeys@, subkeys@);
        }
        let r = KeyValues { values, subkeys };
        proof {
            assert(r@.values =~= self@.values);
            assert(r@.subkeys =~= self@.subkeys);
        }
        r
    }
}

impl PartialEq for KeyValues {
    /// Two trees are equal if they hold the same bindings.
    fn eq(&self, other: &Self) -> (r: bool) {
        self.same(other)
    }
}

impl PartialEqSpecImpl for KeyValues {
    open spec fn obeys_eq_spec() -> bool {
        true
    }

    open spec fn eq_spec(&self, other: &Self) -> bool {
        self@ == other@
    }
}

} // verus!
