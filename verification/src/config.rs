//! The profile store: a sequence of named profiles, each carrying a
//! configuration, plus the path of the live external configuration file and
//! an optional active index.  The store's invariant is that the active
//! index, when set, points inside the profile sequence; every mutation here
//! re-establishes it.

use vstd::prelude::*;
use crate::gitconfig::{GitConfig, SectionV};
use crate::ini::parse_config;

verus! {

/// One named profile: a display name, the creation-order tag it was given
/// when added, and its configuration.
pub struct InternalGitConfig {
    pub name: String,
    pub index: usize,
    pub git_config: GitConfig,
}

/// Spec-level image of a profile.
#[verifier::ext_equal]
pub struct ProfileV {
    pub name: Seq<char>,
    pub index: int,
    pub config: Seq<SectionV>,
}

impl View for InternalGitConfig {
    type V = ProfileV;

    open spec fn view(&self) -> ProfileV {
        ProfileV { name: self.name@, index: self.index as int, config: self.git_config@ }
    }
}

/// The persisted root: active pointer, external path, profiles.
pub struct Config {
    pub active_config: Option<usize>,
    pub global_gitconfig_path: String,
    pub configs: Vec<InternalGitConfig>,
}

/// Spec-level image of the store.
#[verifier::ext_equal]
pub struct StoreV {
    pub active: Option<int>,
    pub path: Seq<char>,
    pub profiles: Seq<ProfileV>,
}

impl View for Config {
    type V = StoreV;

    open spec fn view(&self) -> StoreV {
        StoreV {
            active: match self.active_config {
                Some(a) => Some(a as int),
                None => None,
            },
            path: self.global_gitconfig_path@,
            profiles: self.configs@.map_values(|p: InternalGitConfig| p@),
        }
    }
}

/// First index of a profile named `n`, if any.
pub open spec fn find_profile(ps: Seq<ProfileV>, n: Seq<char>) -> Option<int>
    decreases ps.len(),
{
    if ps.len() == 0 {
        None
    } else if ps[0].name == n {
        Some(0int)
    } else {
        match find_profile(ps.drop_first(), n) {
            Some(i) => Some(i + 1),
            None => None,
        }
    }
}

/// `find_profile` names the first index whose name matches, or none.
pub proof fn lemma_find_profile_at(ps: Seq<ProfileV>, n: Seq<char>, i: int)
    requires
        0 <= i <= ps.len(),
        forall|j: int| 0 <= j < i ==> ps[j].name != n,
        i < ps.len() ==> ps[i].name == n,
    ensures
        find_profile(ps, n) == if i == ps.len() {
            Option::<int>::None
        } else {
            Option::<int>::Some(i)
        },
    decreases i,
{
    if ps.len() == 0 {
    } else if i == 0 {
    } else {
        assert(ps[0].name != n);
        let d = ps.drop_first();
        assert forall|j: int| 0 <= j < i - 1 implies d[j].name != n by {
            assert(d[j] == ps[j + 1]);
        }
        if i - 1 < d.len() {
            assert(d[i - 1] == ps[i]);
        }
        lemma_find_profile_at(d, n, i - 1);
    }
}

/// Where the active pointer stands after removing the profile at `removed`:
/// indices past the removed slot shift down one, and a pointer that falls
/// out of bounds is cleared.
pub open spec fn active_after_remove(active: Option<int>, removed: int, new_len: int) -> Option<
    int,
> {
    match active {
        None => None,
        Some(a) => {
            let a2 = if a > removed {
                a - 1
            } else {
                a
            };
            if a2 < new_len {
                Some(a2)
            } else {
                None
            }
        },
    }
}

impl InternalGitConfig {
    /// A profile from its parts.
    pub fn new(name: String, index: usize, git_config: GitConfig) -> (r: InternalGitConfig)
        ensures
            r@ == (ProfileV { name: name@, index: index as int, config: git_config@ }),
    {
        InternalGitConfig { name, index, git_config }
    }
}

impl Config {
    /// The active pointer, when set, stays inside the profile sequence.
    pub open spec fn wf(&self) -> bool {
        match self@.active {
            Some(a) => 0 <= a < self@.profiles.len(),
            None => true,
        }
    }

    /// The fresh empty store: no active profile, the default external path,
    /// no profiles.
    pub fn new() -> (r: Config)
        ensures
            r@.active is None,
            r@.path == "~/.gitconfig"@,
            r@.profiles =~= Seq::<ProfileV>::empty(),
            r.wf(),
    {
        Config {
            active_config: None,
            global_gitconfig_path: "~/.gitconfig".to_owned(),
            configs: Vec::new(),
        }
    }

    /// A loaded store when one could be read, else the fresh empty store:
    /// the load-or-default rule.
    pub fn or_default(loaded: Option<Config>) -> (r: Config)
        ensures
            match loaded {
                Some(c) => r == c,
                None => r@.active is None && r@.path == "~/.gitconfig"@ && r@.profiles
                    =~= Seq::<ProfileV>::empty(),
            },
    {
        match loaded {
            Some(c) => c,
            None => Config::new(),
        }
    }

    /// A store from loaded parts, re-establishing the invariant: an active
    /// index that points outside the profiles is cleared.
    pub fn from_parts(
        active_config: Option<usize>,
        global_gitconfig_path: String,
        configs: Vec<InternalGitConfig>,
    ) -> (r: Config)
        ensures
            r.wf(),
            r@.path == global_gitconfig_path@,
            r@.profiles =~~= configs@.map_values(|p: InternalGitConfig| p@),
            r@.active == match active_config {
                Some(a) => if a < configs@.len() {
                    Some(a as int)
                } else {
                    None
                },
                None => None,
            },
    {
        let active = match active_config {
            Some(a) => if a < configs.len() {
                Some(a)
            } else {
                None
            },
            None => None,
        };
        Config { active_config: active, global_gitconfig_path, configs }
    }

    /// Append a profile tagged with the count before insertion; that tag is
    /// also returned as the new profile's position.
    pub fn add_profile(&mut self, name: String, git_config: GitConfig) -> (idx: usize)
        ensures
            idx == old(self)@.profiles.len(),
            final(self)@.profiles =~~= old(self)@.profiles.push(
                ProfileV { name: name@, index: old(self)@.profiles.len() as int, config: git_config@ },
            ),
            final(self)@.active == old(self)@.active,
            final(self)@.path == old(self)@.path,
            old(self).wf() ==> final(self).wf(),
    {
        let idx = self.configs.len();
        self.configs.push(InternalGitConfig::new(name, idx, git_config));
        idx
    }

    /// Index of the first profile named `name`, or `None`.
    pub fn find_by_name(&self, name: &String) -> (r: Option<usize>)
        ensures
            match r {
                Some(i) => 0 <= i < self@.profiles.len() && find_profile(self@.profiles, name@)
                    == Some(i as int),
                None => find_profile(self@.profiles, name@) is None,
            },
    {
        let mut k: usize = 0;
        while k < self.configs.len()
            invariant
                0 <= k <= self.configs@.len(),
                forall|j: int| 0 <= j < k ==> (#[trigger] self.configs@[j])@.name != name@,
            decreases self.configs@.len() - k,
        {
            if self.configs[k].name == *name {
                proof {
                    lemma_find_profile_at(self@.profiles, name@, k as int);
                }
                return Some(k);
            }
            k = k + 1;
        }
        proof {
            lemma_find_profile_at(self@.profiles, name@, self.configs@.len() as int);
        }
        None
    }

    /// Remove the first profile named `name`; reports whether one was found.
    /// The active pointer is re-aimed: it shifts down when it pointed past
    /// the removed profile and is cleared when it falls out of bounds, so
    /// the store's invariant survives deletion.
    pub fn remove_by_name(&mut self, name: &String) -> (found: bool)
        ensures
            final(self)@.path == old(self)@.path,
            match find_profile(old(self)@.profiles, name@) {
                Some(i) => found && final(self)@.profiles =~~= old(self)@.profiles.remove(i)
                    && final(self)@.active == active_after_remove(
                    old(self)@.active,
                    i,
                    old(self)@.profiles.len() - 1,
                ),
                None => !found && final(self)@ =~~= old(self)@,
            },
            old(self).wf() ==> final(self).wf(),
    {
        let found = self.find_by_name(name);
        match found {
            Some(i) => {
                self.configs.remove(i);
                let new_active = match self.active_config {
                    Some(a) => {
                        let a2 = if a > i {
                            a - 1
                        } else {
                            a
                        };
                        if a2 < self.configs.len() {
                            Some(a2)
                        } else {
                            None
                        }
                    },
                    None => None,
                };
                self.active_config = new_active;
                proof {
                    assert(final(self)@.profiles =~~= old(self)@.profiles.remove(i as int));
                }
                true
            },
            None => false,
        }
    }

    /// The listing: each profile's current position in the sequence paired
    /// with its name.
    pub fn list(&self) -> (r: Vec<(usize, String)>)
        ensures
            r@.len() == self@.profiles.len(),
            forall|i: int|
                0 <= i < r@.len() ==> (#[trigger] r@[i]).0 == i && r@[i].1@
                    == self@.profiles[i].name,
    {
        let mut r: Vec<(usize, String)> = Vec::new();
        let mut k: usize = 0;
        while k < self.configs.len()
            invariant
                0 <= k <= self.configs@.len(),
                r@.len() == k,
                forall|i: int|
                    0 <= i < k ==> (#[trigger] r@[i]).0 == i && r@[i].1@
                        == self.configs@[i]@.name,
            decreases self.configs@.len() - k,
        {
            let ghost old_r = r@;
            let nm = self.configs[k].name.clone();
            proof {
                assert(nm@ == self.configs@[k as int]@.name);
            }
            r.push((k, nm));
            proof {
                assert(r@[k as int].1@ == self.configs@[k as int]@.name);
            }
            k = k + 1;
        }
        r
    }

    /// The rotation decision.  With no profiles, or a single profile that is
    /// already active, nothing changes and `None` comes back.  Otherwise the
    /// active pointer advances to the next profile — wrapping around, or to
    /// the first profile when none was active — and the newly active index
    /// comes back.
    pub fn cycle_active_config(&mut self) -> (activated: Option<usize>)
        requires
            old(self).wf(),
        ensures
            final(self).wf(),
            final(self)@.profiles =~~= old(self)@.profiles,
            final(self)@.path == old(self)@.path,
            ({
                let n = old(self)@.profiles.len() as int;
                if n == 0 || (n == 1 && old(self)@.active is Some) {
                    activated is None && final(self)@.active == old(self)@.active
                } else {
                    let next = match old(self)@.active {
                        Some(a) => (a + 1) % n,
                        None => 0int,
                    };
                    activated == Some(next as usize) && final(self)@.active == Some(next)
                }
            }),
    {
        let n = self.configs.len();
        if n == 0 {
            None
        } else if n == 1 && self.active_config.is_some() {
            None
        } else {
            let next = match self.active_config {
                Some(a) => (a + 1) % n,
                None => 0,
            };
            self.active_config = Some(next);
            Some(next)
        }
    }

    /// The backup step: when a profile is active, its stored configuration
    /// is overwritten with the parse of the external file's text, capturing
    /// out-of-band edits.  With no active profile the store is untouched.
    pub fn backup_active_config(&mut self, external_text: &str)
        requires
            old(self).wf(),
        ensures
            final(self).wf(),
            final(self)@.active == old(self)@.active,
            final(self)@.path == old(self)@.path,
            match old(self)@.active {
                Some(a) => final(self)@.profiles =~~= old(self)@.profiles.update(
                    a,
                    ProfileV {
                        name: old(self)@.profiles[a].name,
                        index: old(self)@.profiles[a].index,
                        config: parse_config(external_text@),
                    },
                ),
                None => final(self)@.profiles =~~= old(self)@.profiles,
            },
    {
        match self.active_config {
            Some(a) => {
                let parsed = GitConfig::from_config_string(external_text);
                self.configs[a].git_config = parsed;
            },
            None => {},
        }
    }
}

} // verus!
