//! The process-wide token cache.
//!
//! A mapping from provider identifier to the last-fetched token and its
//! absolute expiry instant, in milliseconds. Entries are superseded by later
//! writes for the same identifier and never evicted; freshness is decided by
//! the caller comparing `valid_until` against the current time, never by
//! presence alone. The surrounding application serializes access (one lock
//! around the whole cache); this type holds the verified sequential logic.

use vstd::prelude::*;
use vstd::utf8::is_ascii_chars;
use crate::ascii::str_eq;

verus! {

/// A bearer credential and the instant (in milliseconds since the epoch)
/// until which it is valid.
#[derive(Debug)]
pub struct Token {
    pub access_token: String,
    pub valid_until: u128,
}

pub ghost struct TokenModel {
    pub access_token: Seq<char>,
    pub valid_until: u128,
}

impl View for Token {
    type V = TokenModel;

    open spec fn view(&self) -> TokenModel {
        TokenModel { access_token: self.access_token@, valid_until: self.valid_until }
    }
}

/// A token is fresh at `now` while `now` lies strictly before its expiry.
pub open spec fn fresh(t: TokenModel, now: u128) -> bool {
    now < t.valid_until
}

/// The token of the first (hence, under `cache_wf`, only) entry with this
/// exact identifier.
pub open spec fn cache_lookup(s: Seq<(Seq<char>, TokenModel)>, id: Seq<char>) -> Option<TokenModel>
    decreases s.len(),
{
    if s.len() == 0 {
        None
    } else if s[0].0 == id {
        Some(s[0].1)
    } else {
        cache_lookup(s.drop_first(), id)
    }
}

/// At most one entry per identifier, and every stored credential is ASCII
/// (it came off the wire).
pub open spec fn cache_wf(s: Seq<(Seq<char>, TokenModel)>) -> bool {
    &&& forall|i: int, j: int| 0 <= i < j < s.len() ==> #[trigger] s[i].0 != #[trigger] s[j].0
    &&& forall|i: int| 0 <= i < s.len() ==> is_ascii_chars(#[trigger] s[i].1.access_token)
}

/// The newest write wins: an existing entry is overwritten in place, a new
/// identifier is appended.
pub open spec fn cache_put(
    s: Seq<(Seq<char>, TokenModel)>,
    id: Seq<char>,
    t: TokenModel,
) -> Seq<(Seq<char>, TokenModel)>
    decreases s.len(),
{
    if s.len() == 0 {
        seq![(id, t)]
    } else if s[0].0 == id {
        seq![(id, t)] + s.drop_first()
    } else {
        seq![s[0]] + cache_put(s.drop_first(), id, t)
    }
}

/// What `cache_put` does to every lookup: the written identifier maps to the
/// new token, every other identifier is untouched, and well-formedness is
/// preserved.
pub proof fn lemma_cache_put(s: Seq<(Seq<char>, TokenModel)>, id: Seq<char>, t: TokenModel)
    requires
        cache_wf(s),
        is_ascii_chars(t.access_token),
    ensures
        cache_wf(cache_put(s, id, t)),
        cache_lookup(cache_put(s, id, t), id) == Some(t),
        forall|other: Seq<char>|
            other != id ==> #[trigger] cache_lookup(cache_put(s, id, t), other) == cache_lookup(
                s,
                other,
            ),
    decreases s.len(),
{
    let r = cache_put(s, id, t);
    if s.len() == 0 {
        assert(r =~= seq![(id, t)]);
        assert(r.drop_first() =~= Seq::<(Seq<char>, TokenModel)>::empty());
        assert forall|other: Seq<char>| other != id implies #[trigger] cache_lookup(r, other)
            == cache_lookup(s, other) by {
            assert(cache_lookup(r, other) == cache_lookup(r.drop_first(), other));
        }
    } else if s[0].0 == id {
        assert(r[0] == (id, t));
        assert(r.drop_first() =~= s.drop_first());
        assert forall|i: int, j: int| 0 <= i < j < r.len() implies #[trigger] r[i].0
            != #[trigger] r[j].0 by {
            assert(r[j] == s[j]);
            if i > 0 {
                assert(r[i] == s[i]);
            }
        }
        assert forall|i: int| 0 <= i < r.len() implies is_ascii_chars(
            #[trigger] r[i].1.access_token,
        ) by {
            if i > 0 {
                assert(r[i] == s[i]);
            }
        }
        assert forall|other: Seq<char>| other != id implies #[trigger] cache_lookup(r, other)
            == cache_lookup(s, other) by {
            assert(cache_lookup(r, other) == cache_lookup(r.drop_first(), other));
            assert(cache_lookup(s, other) == cache_lookup(s.drop_first(), other));
        }
    } else {
        let st = s.drop_first();
        assert forall|i: int, j: int| 0 <= i < j < st.len() implies #[trigger] st[i].0
            != #[trigger] st[j].0 by {
            assert(st[i] == s[i + 1] && st[j] == s[j + 1]);
        }
        assert forall|i: int| 0 <= i < st.len() implies is_ascii_chars(
            #[trigger] st[i].1.access_token,
        ) by {
            assert(st[i] == s[i + 1]);
        }
        lemma_cache_put(st, id, t);
        assert(r[0] == s[0]);
        assert(r.drop_first() =~= cache_put(st, id, t));
        assert forall|i: int| 0 <= i < r.len() implies is_ascii_chars(
            #[trigger] r[i].1.access_token,
        ) by {
            if i > 0 {
                assert(r[i] == cache_put(st, id, t)[i - 1]);
            }
        }
        assert forall|i: int, j: int| 0 <= i < j < r.len() implies #[trigger] r[i].0
            != #[trigger] r[j].0 by {
            if i == 0 {
                let rt = cache_put(st, id, t);
                assert(r[j] == rt[j - 1]);
                if rt[j - 1].0 == id {
                } else {
                    lemma_cache_put_ids(st, id, t, j - 1);
                }
            } else {
                assert(r[i] == cache_put(st, id, t)[i - 1]);
                assert(r[j] == cache_put(st, id, t)[j - 1]);
            }
        }
        assert forall|other: Seq<char>| other != id implies #[trigger] cache_lookup(r, other)
            == cache_lookup(s, other) by {
            if r[0].0 != other {
                assert(cache_lookup(r, other) == cache_lookup(r.drop_first(), other));
                assert(cache_lookup(s, other) == cache_lookup(st, other));
            }
        }
        assert(cache_lookup(r, id) == cache_lookup(r.drop_first(), id));
    }
}

/// Every identifier in `cache_put(s, id, t)` is `id` or one of `s`.
proof fn lemma_cache_put_ids(s: Seq<(Seq<char>, TokenModel)>, id: Seq<char>, t: TokenModel, k: int)
    requires
        0 <= k < cache_put(s, id, t).len(),
        cache_put(s, id, t)[k].0 != id,
    ensures
        exists|j: int| 0 <= j < s.len() && #[trigger] s[j].0 == cache_put(s, id, t)[k].0,
    decreases s.len(),
{
    let r = cache_put(s, id, t);
    if s.len() == 0 {
        assert(r[k].0 == id);
    } else if s[0].0 == id {
        assert(r[k] == s[k]);
    } else {
        if k == 0 {
            assert(r[0] == s[0]);
        } else {
            assert(r[k] == cache_put(s.drop_first(), id, t)[k - 1]);
            lemma_cache_put_ids(s.drop_first(), id, t, k - 1);
            let j = choose|j: int|
                0 <= j < s.drop_first().len() && #[trigger] s.drop_first()[j].0 == cache_put(
                    s.drop_first(),
                    id,
                    t,
                )[k - 1].0;
            assert(s[j + 1].0 == r[k].0);
        }
    }
}

#[derive(Debug)]
pub struct TokenCache {
    entries: Vec<(String, Token)>,
}

impl View for TokenCache {
    type V = Seq<(Seq<char>, TokenModel)>;

    closed spec fn view(&self) -> Seq<(Seq<char>, TokenModel)> {
        self.entries@.map_values(|p: (String, Token)| (p.0@, p.1@))
    }
}

impl TokenCache {
    pub open spec fn wf(&self) -> bool {
        cache_wf(self@)
    }

    pub fn new() -> (c: TokenCache)
        ensures
            c@ =~= Seq::<(Seq<char>, TokenModel)>::empty(),
            c.wf(),
    {
        TokenCache { entries: Vec::new() }
    }

    /// The cached token for this identifier, fresh or not.
    pub fn get(&self, id: &str) -> (r: Option<&Token>)
        requires
            self.wf(),
        ensures
            match r {
                Some(t) => cache_lookup(self@, id@) == Some(t@),
                None => cache_lookup(self@, id@) is None,
            },
    {
        let n = self.entries.len();
        let mut i: usize = 0;
        proof {
            assert(self@.skip(0) =~= self@);
        }
        while i < n
            invariant
                n == self@.len(),
                0 <= i <= n,
                self.wf(),
                cache_lookup(self@, id@) == cache_lookup(self@.skip(i as int), id@),
            decreases n - i,
        {
            proof {
                assert(self@.skip(i as int)[0] == self@[i as int]);
                assert(self@[i as int] == (self.entries@[i as int].0@, self.entries@[i as int].1@));
            }
            if str_eq(self.entries[i].0.as_str(), id) {
                return Some(&self.entries[i].1);
            }
            proof {
                assert(self@.skip(i as int).drop_first() =~= self@.skip(i + 1));
            }
            i = i + 1;
        }
        proof {
            assert(self@.skip(n as int) =~= Seq::<(Seq<char>, TokenModel)>::empty());
        }
        None
    }

    /// The cached token, but only while it is still fresh at `now`; a stale
    /// or missing entry is a miss.
    pub fn lookup_fresh(&self, id: &str, now: u128) -> (r: Option<&Token>)
        requires
            self.wf(),
        ensures
            match r {
                Some(t) => cache_lookup(self@, id@) == Some(t@) && fresh(t@, now),
                None => match cache_lookup(self@, id@) {
                    Some(t) => !fresh(t, now),
                    None => true,
                },
            },
    {
        match self.get(id) {
            Some(t) => {
                if now < t.valid_until {
                    Some(t)
                } else {
                    None
                }
            },
            None => None,
        }
    }

    /// Stores `token` for `id`; the newest write wins.
    pub fn put(&mut self, id: &str, token: Token)
        requires
            old(self).wf(),
            is_ascii_chars(token@.access_token),
        ensures
            final(self)@ == cache_put(old(self)@, id@, token@),
            final(self).wf(),
    {
        let n = self.entries.len();
        let mut i: usize = 0;
        while i < n
            invariant
                n == self@.len(),
                0 <= i <= n,
                self.wf(),
                self == old(self),
                is_ascii_chars(token@.access_token),
                forall|j: int| 0 <= j < i ==> #[trigger] self@[j].0 != id@,
            decreases n - i,
        {
            proof {
                assert(self@[i as int] == (self.entries@[i as int].0@, self.entries@[i as int].1@));
            }
            if str_eq(self.entries[i].0.as_str(), id) {
                self.entries.set(i, (String::from_str(id), token));
                proof {
                    lemma_cache_put_at(old(self)@, i as int, id@, token@);
                    assert(self@ =~= old(self)@.update(i as int, (id@, token@)));
                    lemma_cache_put(old(self)@, id@, token@);
                }
                return ;
            }
            i = i + 1;
        }
        self.entries.push((String::from_str(id), token));
        proof {
            lemma_cache_put_absent(old(self)@, id@, token@);
            assert(self@ =~= old(self)@ + seq![(id@, token@)]);
            lemma_cache_put(old(self)@, id@, token@);
        }
    }
}

/// When entry `k` is the first with this identifier, `cache_put` rewrites
/// exactly that entry.
proof fn lemma_cache_put_at(s: Seq<(Seq<char>, TokenModel)>, k: int, id: Seq<char>, t: TokenModel)
    requires
        0 <= k < s.len(),
        s[k].0 == id,
        forall|j: int| 0 <= j < k ==> #[trigger] s[j].0 != id,
    ensures
        cache_put(s, id, t) =~= s.update(k, (id, t)),
    decreases k,
{
    if k == 0 {
        assert(cache_put(s, id, t) =~= seq![(id, t)] + s.drop_first());
    } else {
        lemma_cache_put_at(s.drop_first(), k - 1, id, t);
        assert(s.drop_first().update(k - 1, (id, t)) =~= s.update(k, (id, t)).drop_first());
    }
}

/// In a well-formed cache every stored credential is ASCII.
pub proof fn lemma_cache_lookup_ascii(s: Seq<(Seq<char>, TokenModel)>, id: Seq<char>)
    requires
        cache_wf(s),
    ensures
        cache_lookup(s, id) matches Some(t) ==> is_ascii_chars(t.access_token),
    decreases s.len(),
{
    if s.len() > 0 && s[0].0 != id {
        let st = s.drop_first();
        assert forall|i: int, j: int| 0 <= i < j < st.len() implies #[trigger] st[i].0
            != #[trigger] st[j].0 by {
            assert(st[i] == s[i + 1] && st[j] == s[j + 1]);
        }
        assert forall|i: int| 0 <= i < st.len() implies is_ascii_chars(
            #[trigger] st[i].1.access_token,
        ) by {
            assert(st[i] == s[i + 1]);
        }
        lemma_cache_lookup_ascii(st, id);
    }
}

/// When no entry has this identifier, `cache_put` appends.
proof fn lemma_cache_put_absent(s: Seq<(Seq<char>, TokenModel)>, id: Seq<char>, t: TokenModel)
    requires
        forall|j: int| 0 <= j < s.len() ==> #[trigger] s[j].0 != id,
    ensures
        cache_put(s, id, t) =~= s + seq![(id, t)],
    decreases s.len(),
{
    if s.len() > 0 {
        lemma_cache_put_absent(s.drop_first(), id, t);
    }
}

} // verus!
