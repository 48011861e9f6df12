//! Static configuration: the upstream origin and the credential providers.
//!
//! Loaded once at startup by the surrounding application (which owns the
//! file handling) and immutable afterwards. Provider identifiers are unique;
//! `add_provider` therefore requires an identifier not yet present.

use vstd::prelude::*;
use crate::ascii::str_eq;
use crate::headers::Headers;

verus! {

/// How to ask one credential provider for a token: endpoint, HTTP method,
/// static headers, and an opaque request body passed through verbatim.
#[derive(Debug)]
pub struct ProviderConfig {
    pub method: String,
    pub url: String,
    pub headers: Headers,
    pub body: String,
}

pub ghost struct ProviderConfigModel {
    pub method: Seq<char>,
    pub url: Seq<char>,
    pub headers: Seq<(Seq<char>, Seq<char>)>,
    pub body: Seq<char>,
}

impl View for ProviderConfig {
    type V = ProviderConfigModel;

    open spec fn view(&self) -> ProviderConfigModel {
        ProviderConfigModel {
            method: self.method@,
            url: self.url@,
            headers: self.headers@,
            body: self.body@,
        }
    }
}

/// The provider under the first (hence, under `providers_wf`, only) entry
/// with this exact identifier.
pub open spec fn provider_lookup(
    s: Seq<(Seq<char>, ProviderConfigModel)>,
    id: Seq<char>,
) -> Option<ProviderConfigModel>
    decreases s.len(),
{
    if s.len() == 0 {
        None
    } else if s[0].0 == id {
        Some(s[0].1)
    } else {
        provider_lookup(s.drop_first(), id)
    }
}

/// At most one provider per identifier.
pub open spec fn providers_wf(s: Seq<(Seq<char>, ProviderConfigModel)>) -> bool {
    forall|i: int, j: int| 0 <= i < j < s.len() ==> #[trigger] s[i].0 != #[trigger] s[j].0
}

#[derive(Debug)]
pub struct Config {
    auth_providers: Vec<(String, ProviderConfig)>,
    pub redirect_url: String,
}

pub ghost struct ConfigModel {
    pub auth_providers: Seq<(Seq<char>, ProviderConfigModel)>,
    pub redirect_url: Seq<char>,
}

impl View for Config {
    type V = ConfigModel;

    closed spec fn view(&self) -> ConfigModel {
        ConfigModel {
            auth_providers: self.auth_providers@.map_values(
                |p: (String, ProviderConfig)| (p.0@, p.1@),
            ),
            redirect_url: self.redirect_url@,
        }
    }
}

/// Appending a fresh identifier leaves every other lookup unchanged.
proof fn lemma_provider_lookup_push(
    s: Seq<(Seq<char>, ProviderConfigModel)>,
    id: Seq<char>,
    pc: ProviderConfigModel,
    other: Seq<char>,
)
    requires
        forall|j: int| 0 <= j < s.len() ==> #[trigger] s[j].0 != id,
    ensures
        provider_lookup(s.push((id, pc)), other) == if other == id {
            Some(pc)
        } else {
            provider_lookup(s, other)
        },
    decreases s.len(),
{
    let r = s.push((id, pc));
    if s.len() == 0 {
        assert(r[0] == (id, pc));
        assert(r.drop_first() =~= Seq::<(Seq<char>, ProviderConfigModel)>::empty());
        if other == id {
            assert(provider_lookup(r, other) == Some(pc));
        } else {
            assert(provider_lookup(r, other) == provider_lookup(r.drop_first(), other));
        }
    } else {
        assert(r[0] == s[0]);
        assert(r.drop_first() =~= s.drop_first().push((id, pc)));
        lemma_provider_lookup_push(s.drop_first(), id, pc, other);
        if s[0].0 == other {
            assert(provider_lookup(r, other) == Some(s[0].1));
            assert(provider_lookup(s, other) == Some(s[0].1));
        } else {
            assert(provider_lookup(r, other) == provider_lookup(r.drop_first(), other));
            assert(provider_lookup(s, other) == provider_lookup(s.drop_first(), other));
        }
    }
}

impl Config {
    pub open spec fn wf(&self) -> bool {
        providers_wf(self@.auth_providers)
    }

    pub fn new(redirect_url: String) -> (c: Config)
        ensures
            c@.auth_providers =~= Seq::<(Seq<char>, ProviderConfigModel)>::empty(),
            c@.redirect_url == redirect_url@,
            c.wf(),
    {
        Config { auth_providers: Vec::new(), redirect_url }
    }

    /// Registers a provider under a new identifier.
    pub fn add_provider(&mut self, id: &str, pc: ProviderConfig)
        requires
            old(self).wf(),
            provider_lookup(old(self)@.auth_providers, id@) is None,
        ensures
            final(self)@.auth_providers == old(self)@.auth_providers.push((id@, pc@)),
            final(self)@.redirect_url == old(self)@.redirect_url,
            final(self).wf(),
    {
        proof {
            lemma_provider_absent(old(self)@.auth_providers, id@);
        }
        self.auth_providers.push((String::from_str(id), pc));
        proof {
            assert(self@.auth_providers =~= old(self)@.auth_providers.push((id@, pc@)));
            let s = old(self)@.auth_providers;
            let r = self@.auth_providers;
            assert forall|i: int, j: int| 0 <= i < j < r.len() implies #[trigger] r[i].0
                != #[trigger] r[j].0 by {
                if j < s.len() {
                    assert(r[i] == s[i] && r[j] == s[j]);
                } else {
                    assert(r[i] == s[i] && r[j] == (id@, pc@));
                }
            }
        }
    }

    pub fn get_provider(&self, id: &str) -> (r: Option<&ProviderConfig>)
        requires
            self.wf(),
        ensures
            match r {
                Some(pc) => provider_lookup(self@.auth_providers, id@) == Some(pc@),
                None => provider_lookup(self@.auth_providers, id@) is None,
            },
    {
        let n = self.auth_providers.len();
        let mut i: usize = 0;
        proof {
            assert(self@.auth_providers.skip(0) =~= self@.auth_providers);
        }
        while i < n
            invariant
                n == self@.auth_providers.len(),
                0 <= i <= n,
                self.wf(),
                provider_lookup(self@.auth_providers, id@) == provider_lookup(
                    self@.auth_providers.skip(i as int),
                    id@,
                ),
            decreases n - i,
        {
            proof {
                assert(self@.auth_providers.skip(i as int)[0] == self@.auth_providers[i as int]);
                assert(self@.auth_providers[i as int] == (
                    self.auth_providers@[i as int].0@,
                    self.auth_providers@[i as int].1@,
                ));
            }
            if str_eq(self.auth_providers[i].0.as_str(), id) {
                return Some(&self.auth_providers[i].1);
            }
            proof {
                assert(self@.auth_providers.skip(i as int).drop_first()
                    =~= self@.auth_providers.skip(i + 1));
            }
            i = i + 1;
        }
        proof {
            assert(self@.auth_providers.skip(n as int) =~= Seq::<
                (Seq<char>, ProviderConfigModel),
            >::empty());
        }
        None
    }
}

/// A missing identifier is missing from every position.
proof fn lemma_provider_absent(s: Seq<(Seq<char>, ProviderConfigModel)>, id: Seq<char>)
    requires
        provider_lookup(s, id) is None,
    ensures
        forall|j: int| 0 <= j < s.len() ==> #[trigger] s[j].0 != id,
    decreases s.len(),
{
    if s.len() > 0 {
        lemma_provider_absent(s.drop_first(), id);
        assert forall|j: int| 0 <= j < s.len() implies #[trigger] s[j].0 != id by {
            if j > 0 {
                assert(s.drop_first()[j - 1] == s[j]);
            }
        }
    }
}

} // verus!
