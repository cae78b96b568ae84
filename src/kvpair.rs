use vstd::prelude::*;
use std::cmp::Ordering;

use crate::storage::codec::push_char;
use crate::storage::keys::{compare_keys, key_lt};

verus! {

/// A key and its value.
pub struct KVPair<'a> {
    pub key: &'a str,
    pub value: &'a str,
}

/// The order of two pairs: by key, then by value.
pub open spec fn pair_order(a: (Seq<char>, Seq<char>), b: (Seq<char>, Seq<char>)) -> Ordering {
    if key_lt(a.0, b.0) {
        Ordering::Less
    } else if key_lt(b.0, a.0) {
        Ordering::Greater
    } else if key_lt(a.1, b.1) {
        Ordering::Less
    } else if key_lt(b.1, a.1) {
        Ordering::Greater
    } else {
        Ordering::Equal
    }
}

impl<'a> KVPair<'a> {
    pub fn new(key: &'a str, value: &'a str) -> (r: KVPair<'a>)
        ensures
            r.key@ == key@,
            r.value@ == value@,
    {
        KVPair { key, value }
    }

    /// `key: <key>, value: <value>`.
    pub fn describe(&self) -> (r: String)
        ensures
            r@ == seq!['k', 'e', 'y', ':', ' '] + self.key@ + seq![',', ' ', 'v', 'a', 'l', 'u', 'e', ':', ' ']
                + self.value@,
    {
        let mut r = String::new();
        push_char(&mut r, 'k');
        push_char(&mut r, 'e');
        push_char(&mut r, 'y');
        push_char(&mut r, ':');
        push_char(&mut r, ' ');
        r.append(self.key);
        push_char(&mut r, ',');
        push_char(&mut r, ' ');
        push_char(&mut r, 'v');
        push_char(&mut r, 'a');
        push_char(&mut r, 'l');
        push_char(&mut r, 'u');
        push_char(&mut r, 'e');
        push_char(&mut r, ':');
        push_char(&mut r, ' ');
        r.append(self.value);
        assert(r@ =~= seq!['k', 'e', 'y', ':', ' '] + self.key@ + seq![',', ' ', 'v', 'a', 'l', 'u', 'e', ':', ' ']
            + self.value@);
        r
    }
}

/// Two pairs are equal when their keys are: a pair names one logical record.
impl<'a> PartialEq for KVPair<'a> {
    fn eq(&self, other: &KVPair<'a>) -> (r: bool) {
        match compare_keys(self.key, other.key) {
            Ordering::Equal => true,
            _ => false,
        }
    }
}

impl<'a> vstd::std_specs::cmp::PartialEqSpecImpl for KVPair<'a> {
    open spec fn obeys_eq_spec() -> bool {
        true
    }

    open spec fn eq_spec(&self, other: &KVPair<'a>) -> bool {
        self.key@ == other.key@
    }
}

/// Pairs are ordered by key, then by value.
impl<'a> PartialOrd for KVPair<'a> {
    fn partial_cmp(&self, other: &KVPair<'a>) -> (r: Option<Ordering>) {
        match compare_keys(self.key, other.key) {
            Ordering::Equal => Some(compare_keys(self.value, other.value)),
            o => Some(o),
        }
    }
}

impl<'a> vstd::std_specs::cmp::PartialOrdSpecImpl for KVPair<'a> {
    open spec fn obeys_partial_cmp_spec() -> bool {
        true
    }

    open spec fn partial_cmp_spec(&self, other: &KVPair<'a>) -> Option<Ordering> {
        Some(pair_order((self.key@, self.value@), (other.key@, other.value@)))
    }
}

} // verus!
