//! An ordered header map with case-insensitive name matching.
//!
//! Header names are compared lower-cased but stored with the case they were
//! received in, and insertion order is preserved, so serialization is
//! deterministic. At most one entry exists per lower-cased name: setting a
//! name that is already present replaces the value in place and keeps the
//! stored name.

use vstd::prelude::*;
use vstd::utf8::is_ascii_chars;
use crate::ascii::{lower_byte, lower_char, lower_chars, lemma_lower_char_byte_eq};

verus! {

/// Case-insensitive equality of header names.
pub open spec fn names_match(a: Seq<char>, b: Seq<char>) -> bool {
    lower_chars(a) == lower_chars(b)
}

/// Every name and value is ASCII, and no two entries share a name.
pub open spec fn headers_wf(hs: Seq<(Seq<char>, Seq<char>)>) -> bool {
    &&& forall|i: int|
        0 <= i < hs.len() ==> is_ascii_chars(#[trigger] hs[i].0) && is_ascii_chars(hs[i].1)
    &&& forall|i: int, j: int|
        0 <= i < j < hs.len() ==> !names_match(#[trigger] hs[i].0, #[trigger] hs[j].0)
}

/// The value of the first (hence, under `headers_wf`, only) entry whose name
/// matches, if any.
pub open spec fn lookup(hs: Seq<(Seq<char>, Seq<char>)>, name: Seq<char>) -> Option<Seq<char>>
    decreases hs.len(),
{
    if hs.len() == 0 {
        None
    } else if names_match(hs[0].0, name) {
        Some(hs[0].1)
    } else {
        lookup(hs.drop_first(), name)
    }
}

/// Replaces the value of the matching entry in place (keeping its stored
/// name), or appends a new entry when no name matches.
pub open spec fn put(hs: Seq<(Seq<char>, Seq<char>)>, name: Seq<char>, value: Seq<char>) -> Seq<
    (Seq<char>, Seq<char>),
>
    decreases hs.len(),
{
    if hs.len() == 0 {
        seq![(name, value)]
    } else if names_match(hs[0].0, name) {
        seq![(hs[0].0, value)] + hs.drop_first()
    } else {
        seq![hs[0]] + put(hs.drop_first(), name, value)
    }
}

#[derive(Debug)]
pub struct Headers {
    entries: Vec<(String, String)>,
}

impl View for Headers {
    type V = Seq<(Seq<char>, Seq<char>)>;

    closed spec fn view(&self) -> Seq<(Seq<char>, Seq<char>)> {
        self.entries@.map_values(|p: (String, String)| (p.0@, p.1@))
    }
}

/// Case-insensitive name comparison, byte by byte.
pub fn eq_insensitive(a: &str, b: &str) -> (r: bool)
    requires
        a.is_ascii(),
        b.is_ascii(),
    ensures
        r == names_match(a@, b@),
{
    proof {
        broadcast use vstd::string::is_ascii_spec_bytes;

    }
    let ab = a.as_bytes();
    let bb = b.as_bytes();
    if ab.len() != bb.len() {
        proof {
            assert(lower_chars(a@).len() != lower_chars(b@).len());
        }
        return false;
    }
    let n = ab.len();
    let mut i: usize = 0;
    while i < n
        invariant
            n == ab@.len() == bb@.len() == a@.len() == b@.len(),
            0 <= i <= n,
            forall|j: int| 0 <= j < ab@.len() ==> ab@[j] == #[trigger] a@[j] as u8,
            forall|j: int| 0 <= j < bb@.len() ==> bb@[j] == #[trigger] b@[j] as u8,
            a.is_ascii(),
            b.is_ascii(),
            forall|j: int| 0 <= j < i ==> lower_char(#[trigger] a@[j]) == lower_char(b@[j]),
        decreases n - i,
    {
        let mut x = ab[i];
        let mut y = bb[i];
        if 65 <= x && x <= 90 {
            x = x + 32;
        }
        if 65 <= y && y <= 90 {
            y = y + 32;
        }
        proof {
            lemma_lower_char_byte_eq(a@[i as int], b@[i as int]);
            assert(x == lower_byte(ab@[i as int]));
            assert(y == lower_byte(bb@[i as int]));
        }
        if x != y {
            proof {
                assert(lower_chars(a@)[i as int] != lower_chars(b@)[i as int]);
            }
            return false;
        }
        i = i + 1;
    }
    proof {
        assert(lower_chars(a@) =~= lower_chars(b@));
    }
    true
}

proof fn lemma_lookup_step(hs: Seq<(Seq<char>, Seq<char>)>, k: int, name: Seq<char>)
    requires
        0 <= k < hs.len(),
        !names_match(hs[k].0, name),
    ensures
        lookup(hs.skip(k), name) == lookup(hs.skip(k + 1), name),
{
    assert(hs.skip(k).drop_first() =~= hs.skip(k + 1));
    assert(hs.skip(k)[0] == hs[k]);
}

impl Headers {
    pub open spec fn wf(&self) -> bool {
        headers_wf(self@)
    }

    pub fn new() -> (h: Headers)
        ensures
            h@ =~= Seq::<(Seq<char>, Seq<char>)>::empty(),
            h.wf(),
    {
        Headers { entries: Vec::new() }
    }

    pub fn len(&self) -> (n: usize)
        ensures
            n == self@.len(),
    {
        self.entries.len()
    }

    pub fn name_at(&self, i: usize) -> (r: &String)
        requires
            i < self@.len(),
        ensures
            r@ == self@[i as int].0,
    {
        &self.entries[i].0
    }

    pub fn value_at(&self, i: usize) -> (r: &String)
        requires
            i < self@.len(),
        ensures
            r@ == self@[i as int].1,
    {
        &self.entries[i].1
    }

    /// Case-insensitive lookup; storage case is unaffected.
    pub fn get(&self, name: &str) -> (r: Option<&String>)
        requires
            self.wf(),
            name.is_ascii(),
        ensures
            match r {
                Some(v) => lookup(self@, name@) == Some(v@),
                None => lookup(self@, name@) is None,
            },
    {
        let n = self.entries.len();
        let mut i: usize = 0;
        proof {
            assert(self@.skip(0) =~= self@);
        }
        while i < n
            invariant
                n == self@.len(),
                0 <= i <= n,
                self.wf(),
                name.is_ascii(),
                lookup(self@, name@) == lookup(self@.skip(i as int), name@),
            decreases n - i,
        {
            proof {
                assert(self@.skip(i as int)[0] == self@[i as int]);
                assert(self@[i as int] == (self.entries@[i as int].0@, self.entries@[i as int].1@));
                assert(is_ascii_chars(self@[i as int].0));
            }
            if eq_insensitive(self.entries[i].0.as_str(), name) {
                return Some(&self.entries[i].1);
            }
            proof {
                lemma_lookup_step(self@, i as int, name@);
            }
            i = i + 1;
        }
        proof {
            assert(self@.skip(n as int) =~= Seq::<(Seq<char>, Seq<char>)>::empty());
        }
        None
    }

    /// Sets `name` to `value`: replaces the value of a matching entry in
    /// place (keeping the stored name), or appends a new entry.
    pub fn set(&mut self, name: &str, value: &str)
        requires
            old(self).wf(),
            name.is_ascii(),
            value.is_ascii(),
        ensures
            final(self)@ == put(old(self)@, name@, value@),
            final(self).wf(),
    {
        let n = self.entries.len();
        let mut i: usize = 0;
        while i < n
            invariant
                n == self@.len(),
                0 <= i <= n,
                self.wf(),
                name.is_ascii(),
                value.is_ascii(),
                self == old(self),
                forall|j: int| 0 <= j < i ==> !names_match(#[trigger] self@[j].0, name@),
            decreases n - i,
        {
            proof {
                assert(self@[i as int] == (self.entries@[i as int].0@, self.entries@[i as int].1@));
                assert(is_ascii_chars(self@[i as int].0));
            }
            if eq_insensitive(self.entries[i].0.as_str(), name) {
                let stored_name = self.entries[i].0.clone();
                self.entries.set(i, (stored_name, String::from_str(value)));
                proof {
                    lemma_put_at(old(self)@, i as int, name@, value@);
                    assert(self@ =~= put(old(self)@, name@, value@));
                    lemma_put_wf(old(self)@, name@, value@);
                }
                return ;
            }
            i = i + 1;
        }
        self.entries.push((String::from_str(name), String::from_str(value)));
        proof {
            lemma_put_absent(old(self)@, name@, value@);
            assert(self@ =~= old(self)@ + seq![(name@, value@)]);
            lemma_put_wf(old(self)@, name@, value@);
        }
    }
}

/// When entry `k` is the first whose name matches, `put` rewrites exactly
/// that entry's value.
proof fn lemma_put_at(hs: Seq<(Seq<char>, Seq<char>)>, k: int, name: Seq<char>, value: Seq<char>)
    requires
        0 <= k < hs.len(),
        names_match(hs[k].0, name),
        forall|j: int| 0 <= j < k ==> !names_match(#[trigger] hs[j].0, name),
    ensures
        put(hs, name, value) =~= hs.update(k, (hs[k].0, value)),
    decreases k,
{
    if k == 0 {
        assert(put(hs, name, value) =~= seq![(hs[0].0, value)] + hs.drop_first());
    } else {
        lemma_put_at(hs.drop_first(), k - 1, name, value);
        assert(put(hs, name, value) =~= seq![hs[0]] + put(hs.drop_first(), name, value));
        assert(hs.drop_first().update(k - 1, (hs[k].0, value)) =~= hs.update(
            k,
            (hs[k].0, value),
        ).drop_first());
    }
}

/// When no entry's name matches, `put` appends.
pub proof fn lemma_put_absent(hs: Seq<(Seq<char>, Seq<char>)>, name: Seq<char>, value: Seq<char>)
    requires
        forall|j: int| 0 <= j < hs.len() ==> !names_match(#[trigger] hs[j].0, name),
    ensures
        put(hs, name, value) =~= hs + seq![(name, value)],
    decreases hs.len(),
{
    if hs.len() > 0 {
        lemma_put_absent(hs.drop_first(), name, value);
    }
}

/// `put` preserves well-formedness and acts on the name map as expected.
pub proof fn lemma_put_wf(hs: Seq<(Seq<char>, Seq<char>)>, name: Seq<char>, value: Seq<char>)
    requires
        headers_wf(hs),
        is_ascii_chars(name),
        is_ascii_chars(value),
    ensures
        headers_wf(put(hs, name, value)),
        lookup(put(hs, name, value), name) == Some(value),
        forall|other: Seq<char>|
            !names_match(other, name) ==> #[trigger] lookup(put(hs, name, value), other) == lookup(
                hs,
                other,
            ),
    decreases hs.len(),
{
    if hs.len() == 0 {
        let r = put(hs, name, value);
        assert(r =~= seq![(name, value)]);
        assert(r.drop_first() =~= Seq::<(Seq<char>, Seq<char>)>::empty());
        assert(names_match(r[0].0, name));
        assert(lookup(r, name) == Some(value));
        assert forall|i: int, j: int| 0 <= i < j < r.len() implies !names_match(
            #[trigger] r[i].0,
            #[trigger] r[j].0,
        ) by {}
        assert forall|other: Seq<char>| !names_match(other, name) implies #[trigger] lookup(
            r,
            other,
        ) == lookup(hs, other) by {
            assert(!names_match(r[0].0, other));
            assert(lookup(r, other) == lookup(r.drop_first(), other));
        }
    } else if names_match(hs[0].0, name) {
        let r = put(hs, name, value);
        assert(r[0] == (hs[0].0, value));
        assert(r.drop_first() =~= hs.drop_first());
        assert forall|i: int| 0 <= i < r.len() implies is_ascii_chars(#[trigger] r[i].0)
            && is_ascii_chars(r[i].1) by {
            if i > 0 {
                assert(r[i] == hs[i]);
            }
        }
        assert forall|i: int, j: int| 0 <= i < j < r.len() implies !names_match(
            #[trigger] r[i].0,
            #[trigger] r[j].0,
        ) by {
            assert(r[j] == hs[j]);
            assert(r[i].0 == hs[i].0);
        }
        assert(lookup(r, name) == Some(value));
        assert forall|other: Seq<char>| !names_match(other, name) implies #[trigger] lookup(
            r,
            other,
        ) == lookup(hs, other) by {
            if names_match(hs[0].0, other) {
                assert(names_match(name, other)) by {
                    assert(lower_chars(name) == lower_chars(hs[0].0));
                }
                assert(false);
            } else {
                assert(lookup(r, other) == lookup(r.drop_first(), other));
                assert(lookup(hs, other) == lookup(hs.drop_first(), other));
            }
        }
    } else {
        lemma_put_wf(hs.drop_first(), name, value);
        let r = put(hs, name, value);
        assert(r[0] == hs[0]);
        assert(r.drop_first() =~= put(hs.drop_first(), name, value));
        lemma_put_names(hs.drop_first(), name, value);
        assert forall|i: int, j: int| 0 <= i < j < r.len() implies !names_match(
            #[trigger] r[i].0,
            #[trigger] r[j].0,
        ) by {
            if i == 0 {
                assert(r.drop_first()[j - 1] == r[j]);
            } else {
                assert(r.drop_first()[i - 1] == r[i]);
                assert(r.drop_first()[j - 1] == r[j]);
            }
        }
        assert forall|i: int| 0 <= i < r.len() implies is_ascii_chars(#[trigger] r[i].0)
            && is_ascii_chars(r[i].1) by {
            if i > 0 {
                assert(r.drop_first()[i - 1] == r[i]);
            }
        }
        assert forall|other: Seq<char>| !names_match(other, name) implies #[trigger] lookup(
            r,
            other,
        ) == lookup(hs, other) by {
            if names_match(hs[0].0, other) {
                assert(lookup(r, other) == Some(r[0].1));
                assert(lookup(hs, other) == Some(hs[0].1));
            } else {
                assert(lookup(r, other) == lookup(r.drop_first(), other));
                assert(lookup(hs, other) == lookup(hs.drop_first(), other));
            }
        }
    }
}

/// Lookups agree on names that match case-insensitively.
pub proof fn lemma_lookup_names_match(hs: Seq<(Seq<char>, Seq<char>)>, a: Seq<char>, b: Seq<char>)
    requires
        names_match(a, b),
    ensures
        lookup(hs, a) == lookup(hs, b),
    decreases hs.len(),
{
    if hs.len() > 0 && !names_match(hs[0].0, a) {
        lemma_lookup_names_match(hs.drop_first(), a, b);
    }
}

/// Well-formedness passes to the tail.
pub proof fn lemma_wf_tail(hs: Seq<(Seq<char>, Seq<char>)>)
    requires
        headers_wf(hs),
        hs.len() > 0,
    ensures
        headers_wf(hs.drop_first()),
{
    let t = hs.drop_first();
    assert forall|i: int| 0 <= i < t.len() implies is_ascii_chars(#[trigger] t[i].0)
        && is_ascii_chars(t[i].1) by {
        assert(t[i] == hs[i + 1]);
        assert(is_ascii_chars(hs[i + 1].0) && is_ascii_chars(hs[i + 1].1));
    }
    assert forall|i: int, j: int| 0 <= i < j < t.len() implies !names_match(
        #[trigger] t[i].0,
        #[trigger] t[j].0,
    ) by {
        assert(t[i] == hs[i + 1]);
        assert(t[j] == hs[j + 1]);
    }
}

/// In a well-formed header sequence every stored value is ASCII.
pub proof fn lemma_lookup_ascii(hs: Seq<(Seq<char>, Seq<char>)>, name: Seq<char>)
    requires
        headers_wf(hs),
    ensures
        lookup(hs, name) matches Some(v) ==> is_ascii_chars(v),
    decreases hs.len(),
{
    if hs.len() > 0 && !names_match(hs[0].0, name) {
        lemma_wf_tail(hs);
        lemma_lookup_ascii(hs.drop_first(), name);
    }
}

/// Every name in `put(hs, name, value)` is a name of `hs` or matches `name`.
proof fn lemma_put_names(hs: Seq<(Seq<char>, Seq<char>)>, name: Seq<char>, value: Seq<char>)
    ensures
        forall|i: int|
            0 <= i < put(hs, name, value).len() ==> (names_match(
                #[trigger] put(hs, name, value)[i].0,
                name,
            ) || exists|j: int| 0 <= j < hs.len() && #[trigger] hs[j].0 == put(hs, name, value)[i].0
                && hs[j].1 == put(hs, name, value)[i].1),
    decreases hs.len(),
{
    if hs.len() == 0 {
    } else if names_match(hs[0].0, name) {
    } else {
        lemma_put_names(hs.drop_first(), name, value);
        let r = put(hs, name, value);
        assert forall|i: int| 0 <= i < r.len() implies (names_match(#[trigger] r[i].0, name)
            || exists|j: int| 0 <= j < hs.len() && #[trigger] hs[j].0 == r[i].0 && hs[j].1
                == r[i].1) by {
            if i == 0 {
                assert(hs[0].0 == r[0].0 && hs[0].1 == r[0].1);
            } else {
                assert(r.drop_first()[i - 1] == r[i]);
                let rr = put(hs.drop_first(), name, value);
                if !names_match(rr[i - 1].0, name) {
                    let j = choose|j: int|
                        0 <= j < hs.drop_first().len() && #[trigger] hs.drop_first()[j].0 == rr[i
                            - 1].0 && hs.drop_first()[j].1 == rr[i - 1].1;
                    assert(hs[j + 1].0 == r[i].0 && hs[j + 1].1 == r[i].1);
                }
            }
        }
    }
}

} // verus!
