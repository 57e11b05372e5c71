//! Last-writer-wins registers: the basic CRDT building block of the
//! metadata tables. The newest timestamp wins; on a timestamp tie the
//! larger value wins, so replicas agree whatever the merge order.

use vstd::prelude::*;
use vstd::string::StringSliceAdditionalSpecFns;

use crate::data::{bytes_cmp, bytes_lt, lemma_bytes_lt_total, lemma_bytes_lt_trans};

verus! {

/// A last-writer-wins register: a value with the wall-clock time of its
/// last change.
pub struct Lww<T> {
    /// Timestamp of the last change, in milliseconds
    pub ts: u64,
    /// The stored value
    pub v: T,
}

impl Lww<bool> {
    pub fn new(ts: u64, v: bool) -> (r: Lww<bool>)
        ensures
            r.ts == ts && r.v == v,
    {
        Lww { ts, v }
    }

    pub fn get(&self) -> (r: bool)
        ensures
            r == self.v,
    {
        self.v
    }

    /// Replace the value at a later time.
    pub fn update(&mut self, ts: u64, v: bool)
        ensures
            final(self).ts == ts && final(self).v == v,
    {
        self.ts = ts;
        self.v = v;
    }

    /// Merge: newest timestamp wins; on a tie, `true` wins (the larger
    /// value), so merging in either order agrees.
    pub fn merge(&mut self, other: &Lww<bool>)
        ensures
            *final(self) == spec_lww_bool_join(*old(self), *other),
    {
        if other.ts > self.ts {
            self.ts = other.ts;
            self.v = other.v;
        } else if other.ts == self.ts && other.v && !self.v {
            self.v = true;
        }
    }
}

pub open spec fn spec_lww_bool_join(a: Lww<bool>, b: Lww<bool>) -> Lww<bool> {
    if b.ts > a.ts {
        b
    } else if b.ts == a.ts {
        Lww { ts: a.ts, v: a.v || b.v }
    } else {
        a
    }
}

/// Merging boolean registers is commutative.
pub proof fn lemma_lww_bool_join_commutes(a: Lww<bool>, b: Lww<bool>)
    ensures
        spec_lww_bool_join(a, b) == spec_lww_bool_join(b, a),
{
}

/// Merging boolean registers is associative.
pub proof fn lemma_lww_bool_join_assoc(a: Lww<bool>, b: Lww<bool>, c: Lww<bool>)
    ensures
        spec_lww_bool_join(spec_lww_bool_join(a, b), c) == spec_lww_bool_join(
            a,
            spec_lww_bool_join(b, c),
        ),
{
}

/// Merging a boolean register with itself changes nothing.
pub proof fn lemma_lww_bool_join_idempotent(a: Lww<bool>)
    ensures
        spec_lww_bool_join(a, a) == a,
{
}

impl Lww<String> {
    pub fn new(ts: u64, v: String) -> (r: Lww<String>)
        ensures
            r.ts == ts && r.v@ == v@,
    {
        Lww { ts, v }
    }

    pub fn get(&self) -> (r: &String)
        ensures
            r@ == self.v@,
    {
        &self.v
    }

    pub fn update(&mut self, ts: u64, v: String)
        ensures
            final(self).ts == ts && final(self).v@ == v@,
    {
        self.ts = ts;
        self.v = v;
    }

    /// Merge: newest timestamp wins; on a timestamp tie the larger value
    /// wins, comparing the strings byte-wise (the order `Ord` on strings
    /// uses), so merging in either order agrees.
    pub fn merge(&mut self, other: &Lww<String>)
        ensures
            final(self).ts == spec_lww_str_join(
                (old(self).ts, old(self).v@),
                (other.ts, other.v@),
            ).0,
            final(self).v@ == spec_lww_str_join(
                (old(self).ts, old(self).v@),
                (other.ts, other.v@),
            ).1,
    {
        let take_other = if other.ts > self.ts {
            true
        } else if other.ts < self.ts {
            false
        } else {
            bytes_cmp(self.v.as_str().as_bytes(), other.v.as_str().as_bytes()) == -1
        };
        if take_other {
            self.ts = other.ts;
            self.v = other.v.clone();
        }
    }
}

/// The byte encoding a string value is ordered by.
pub open spec fn str_value_bytes(s: Seq<char>) -> Seq<u8> {
    vstd::utf8::encode_utf8(s)
}

/// The abstract value of a string register after a merge: the newest
/// write, ties broken towards the larger value.
pub open spec fn spec_lww_str_join(a: (u64, Seq<char>), b: (u64, Seq<char>)) -> (u64, Seq<char>) {
    if b.0 > a.0 {
        b
    } else if b.0 < a.0 {
        a
    } else if bytes_lt(str_value_bytes(a.1), str_value_bytes(b.1)) {
        b
    } else {
        a
    }
}

/// Merging string registers is commutative.
pub proof fn lemma_lww_str_join_commutes(a: (u64, Seq<char>), b: (u64, Seq<char>))
    ensures
        spec_lww_str_join(a, b) == spec_lww_str_join(b, a),
{
    if a.0 == b.0 {
        lemma_bytes_lt_total(str_value_bytes(a.1), str_value_bytes(b.1));
        if !bytes_lt(str_value_bytes(a.1), str_value_bytes(b.1)) && !bytes_lt(
            str_value_bytes(b.1),
            str_value_bytes(a.1),
        ) {
            lemma_str_value_bytes_injective(a.1, b.1);
        }
    }
}

/// Merging string registers is associative.
pub proof fn lemma_lww_str_join_assoc(
    a: (u64, Seq<char>),
    b: (u64, Seq<char>),
    c: (u64, Seq<char>),
)
    ensures
        spec_lww_str_join(spec_lww_str_join(a, b), c) == spec_lww_str_join(
            a,
            spec_lww_str_join(b, c),
        ),
{
    let ea = str_value_bytes(a.1);
    let eb = str_value_bytes(b.1);
    let ec = str_value_bytes(c.1);
    lemma_bytes_lt_total(ea, eb);
    lemma_bytes_lt_total(eb, ec);
    lemma_bytes_lt_total(ea, ec);
    if bytes_lt(ea, eb) && bytes_lt(eb, ec) {
        lemma_bytes_lt_trans(ea, eb, ec);
    }
    if bytes_lt(ec, eb) && bytes_lt(eb, ea) {
        lemma_bytes_lt_trans(ec, eb, ea);
    }
    lemma_str_value_bytes_injective(a.1, b.1);
    lemma_str_value_bytes_injective(b.1, c.1);
    lemma_str_value_bytes_injective(a.1, c.1);
}

/// Merging a string register with itself changes nothing.
pub proof fn lemma_lww_str_join_idempotent(a: (u64, Seq<char>))
    ensures
        spec_lww_str_join(a, a) == a,
{
    crate::data::lemma_bytes_lt_irrefl(str_value_bytes(a.1));
}

/// Equal byte encodings come from equal strings.
pub proof fn lemma_str_value_bytes_injective(a: Seq<char>, b: Seq<char>)
    ensures
        str_value_bytes(a) == str_value_bytes(b) ==> a == b,
{
    if str_value_bytes(a) == str_value_bytes(b) {
        vstd::utf8::encode_utf8_decode_utf8(a);
        vstd::utf8::encode_utf8_decode_utf8(b);
    }
}

} // verus!
