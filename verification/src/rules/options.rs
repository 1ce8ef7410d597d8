//! A rule's options: the entries of its configuration object, holding the
//! values the rules read.

use vstd::prelude::*;

verus! {

/// A number as the rules read it: exactly as an `i64` when it is one, and
/// truncated towards zero (saturating) otherwise; and whether it is zero.
#[derive(Clone, Copy, Debug)]
pub struct Number {
    pub int: Option<i64>,
    pub trunc: i64,
    pub zero: bool,
}

/// A single configuration value.
#[derive(Clone, Debug)]
pub enum Scalar {
    Null,
    Bool(bool),
    Num(Number),
    Str(Vec<char>),
    /// An object, or an array inside an array: present, not read.
    Other,
}

/// An option's value: one value or an array of them.
#[derive(Clone, Debug)]
pub enum OptValue {
    One(Scalar),
    List(Vec<Scalar>),
}

/// The options object of a rule, entries in order.
#[derive(Clone, Debug)]
pub struct Options {
    pub entries: Vec<(Vec<char>, OptValue)>,
}

/// The value of the first entry named `key`, if any.
pub open spec fn lookup(entries: Seq<(Vec<char>, OptValue)>, key: Seq<char>) -> Option<OptValue>
    decreases entries.len(),
{
    if entries.len() == 0 {
        None
    } else if entries[0].0@ == key {
        Some(entries[0].1)
    } else {
        lookup(entries.skip(1), key)
    }
}

/// `key` read as a boolean: the value when it is one; `default` when absent
/// or null or of another type.
pub open spec fn spec_opt_bool(o: Option<OptValue>, default: bool) -> bool {
    match o {
        Some(OptValue::One(Scalar::Bool(b))) => b,
        _ => default,
    }
}

/// `key` read as an integer: an integer's value, a fractional number
/// truncated; `default` when absent or of another type.
pub open spec fn spec_opt_i64(o: Option<OptValue>, default: i64) -> i64 {
    match o {
        Some(OptValue::One(Scalar::Num(n))) => match n.int {
            Some(i) => i,
            None => n.trunc,
        },
        _ => default,
    }
}

/// `key` read as a string.
pub open spec fn spec_opt_str(o: Option<OptValue>) -> Option<Seq<char>> {
    match o {
        Some(OptValue::One(Scalar::Str(s))) => Some(s@),
        _ => None,
    }
}

/// The strings of an array, in order, other elements skipped.
pub open spec fn strings_of(items: Seq<Scalar>) -> Seq<Seq<char>>
    decreases items.len(),
{
    if items.len() == 0 {
        Seq::empty()
    } else {
        let rest = strings_of(items.drop_last());
        match items.last() {
            Scalar::Str(s) => rest.push(s@),
            _ => rest,
        }
    }
}

impl Options {
    pub fn empty() -> (o: Options)
        ensures
            o.entries@.len() == 0,
    {
        Options { entries: Vec::new() }
    }

    /// The value of `key`, if present.
    pub fn get(&self, key: &str) -> (r: Option<&OptValue>)
        ensures
            match r {
                Some(v) => lookup(self.entries@, key@) == Some(*v),
                None => lookup(self.entries@, key@) is None,
            },
    {
        let mut i: usize = 0;
        proof {
            assert(self.entries@.skip(0) =~= self.entries@);
        }
        while i < self.entries.len()
            invariant
                i <= self.entries@.len(),
                lookup(self.entries@.skip(i as int), key@) == lookup(self.entries@, key@),
            decreases self.entries@.len() - i,
        {
            proof {
                assert(self.entries@.skip(i as int).skip(1) =~= self.entries@.skip(i + 1));
            }
            if str_eq_chars(&self.entries[i].0, key) {
                return Some(&self.entries[i].1);
            }
            i += 1;
        }
        None
    }

    /// The value of `key` unless it is absent or null.
    pub fn opt(&self, key: &str) -> (r: Option<&OptValue>)
        ensures
            match r {
                Some(v) => lookup(self.entries@, key@) == Some(*v) && !(*v matches OptValue::One(
                    Scalar::Null,
                )),
                None => lookup(self.entries@, key@) is None || lookup(self.entries@, key@)
                    == Some(OptValue::One(Scalar::Null)),
            },
    {
        match self.get(key) {
            Some(v) => match v {
                OptValue::One(Scalar::Null) => None,
                _ => Some(v),
            },
            None => None,
        }
    }

    /// `key` as a boolean, `default` when absent or not a boolean.
    pub fn opt_bool(&self, key: &str, default: bool) -> (r: bool)
        ensures
            r == spec_opt_bool(lookup(self.entries@, key@), default),
    {
        match self.get(key) {
            Some(OptValue::One(Scalar::Bool(b))) => *b,
            _ => default,
        }
    }

    /// `key` as an integer, `default` when absent or not a number.
    pub fn opt_i64(&self, key: &str, default: i64) -> (r: i64)
        ensures
            r == spec_opt_i64(lookup(self.entries@, key@), default),
    {
        match self.get(key) {
            Some(OptValue::One(Scalar::Num(n))) => match n.int {
                Some(i) => i,
                None => n.trunc,
            },
            _ => default,
        }
    }

    /// `key` as a string.
    pub fn opt_str(&self, key: &str) -> (r: Option<&Vec<char>>)
        ensures
            match r {
                Some(s) => spec_opt_str(lookup(self.entries@, key@)) == Some(s@),
                None => spec_opt_str(lookup(self.entries@, key@)) is None,
            },
    {
        match self.get(key) {
            Some(OptValue::One(Scalar::Str(s))) => Some(s),
            _ => None,
        }
    }

    /// The strings of the array `key`; `None` when it is not an array.
    pub fn opt_strings(&self, key: &str) -> (r: Option<Vec<Vec<char>>>)
        ensures
            match lookup(self.entries@, key@) {
                Some(OptValue::List(items)) => r is Some && r->0@.map_values(|v: Vec<char>| v@)
                    == strings_of(items@),
                _ => r is None,
            },
    {
        match self.get(key) {
            Some(OptValue::List(items)) => {
                let mut out: Vec<Vec<char>> = Vec::new();
                let mut i: usize = 0;
                while i < items.len()
                    invariant
                        i <= items@.len(),
                        out@.map_values(|v: Vec<char>| v@) == strings_of(items@.take(i as int)),
                    decreases items@.len() - i,
                {
                    proof {
                        assert(items@.take(i + 1).drop_last() =~= items@.take(i as int));
                    }
                    match &items[i] {
                        Scalar::Str(s) => {
                            let c = crate::text::slice_vec(s, 0, s.len());
                            proof {
                                assert(c@ =~= s@);
                            }
                            out.push(c);
                            proof {
                                assert(out@.map_values(|v: Vec<char>| v@) =~= strings_of(
                                    items@.take(i as int),
                                ).push(s@));
                            }
                        },
                        _ => {},
                    }
                    i += 1;
                }
                proof {
                    assert(items@.take(items@.len() as int) =~= items@);
                }
                Some(out)
            },
            _ => None,
        }
    }
}

/// Whether the characters `a` spell the string `b`.
pub fn str_eq_chars(a: &Vec<char>, b: &str) -> (r: bool)
    ensures
        r == (a@ == b@),
{
    let bc = crate::text::chars_of(b);
    crate::rules::slice_eq(a, &bc)
}

} // verus!
