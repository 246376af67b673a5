//! The configured vaults and which one is active.
use vstd::prelude::*;

use crate::text::str_eq;

verus! {

broadcast use vstd::string::group_string_axioms;

/// Where a vault lives.
#[derive(Debug, Clone, PartialEq)]
pub struct VaultConfig {
    pub path: String,
}

/// The configured vaults, by name, and the name of the active one.
#[derive(Debug, Clone, PartialEq)]
pub struct Config {
    pub active_vault: String,
    pub vaults: Vec<(String, VaultConfig)>,
}

/// Why a vault could not be selected.
#[derive(Debug, Clone, PartialEq, Eq)]
pub enum ConfigError {
    /// The active vault's name is not among the configured vaults.
    ActiveVaultNotFound(String),
    /// No vault of that name is configured; the configured names follow.
    VaultNotFound(String, Vec<String>),
}

/// The names, separated by `, `.
pub open spec fn joined(names: Seq<Seq<char>>) -> Seq<char>
    decreases names.len(),
{
    if names.len() == 0 {
        seq![]
    } else if names.len() == 1 {
        names[0]
    } else {
        joined(names.drop_last()) + ", "@ + names.last()
    }
}

/// The text of a configuration error.
pub open spec fn config_message(e: ConfigError) -> Seq<char> {
    match e {
        ConfigError::ActiveVaultNotFound(n) => "Active vault '"@ + n@ + "' not found in config"@,
        ConfigError::VaultNotFound(n, names) => "Vault '"@ + n@ + "' not found. Available vaults: "@
            + joined(names.deep_view()),
    }
}

impl ConfigError {
    /// The error as a sentence for the user.
    pub fn message(&self) -> (r: String)
        ensures
            r@ == config_message(*self),
    {
        match self {
            ConfigError::ActiveVaultNotFound(n) => {
                let mut s = "Active vault '".to_string();
                s.append(n.as_str());
                s.append("' not found in config");
                s
            },
            ConfigError::VaultNotFound(n, names) => {
                let mut s = "Vault '".to_string();
                s.append(n.as_str());
                s.append("' not found. Available vaults: ");
                let ghost prefix = s@;
                let ghost dv = names.deep_view();
                let mut i: usize = 0;
                while i < names.len()
                    invariant
                        i <= names@.len(),
                        dv == names.deep_view(),
                        s@ == prefix + joined(dv.take(i as int)),
                    decreases names@.len() - i,
                {
                    assert(dv[i as int] == names@[i as int]@);
                    assert(dv.take(i + 1).drop_last() =~= dv.take(i as int));
                    if i > 0 {
                        s.append(", ");
                    }
                    s.append(names[i].as_str());
                    proof {
                        if i == 0 {
                            assert(joined(dv.take(0)) =~= seq![]);
                        }
                        assert(dv.take(i + 1).last() == dv[i as int]);
                    }
                    assert(s@ =~= prefix + joined(dv.take(i + 1)));
                    i = i + 1;
                }
                assert(dv.take(names@.len() as int) =~= dv);
                s
            },
        }
    }
}

/// Index of the first vault named `name` among `vaults`.
pub open spec fn first_named(vaults: Seq<(String, VaultConfig)>, name: Seq<char>, i: int) -> bool {
    0 <= i < vaults.len() && vaults[i].0@ == name && forall|j: int| 0 <= j < i ==> (#[trigger] vaults[j]).0@ != name
}

/// Some vault is named `name`.
pub open spec fn has_vault(vaults: Seq<(String, VaultConfig)>, name: Seq<char>) -> bool {
    exists|i: int| 0 <= i < vaults.len() && (#[trigger] vaults[i]).0@ == name
}

impl Config {
    /// The index of the first vault named `name`.
    pub fn position_of(&self, name: &str) -> (r: Option<usize>)
        ensures
            r matches Some(i) ==> first_named(self.vaults@, name@, i as int),
            r is None <==> !has_vault(self.vaults@, name@),
    {
        let mut i: usize = 0;
        while i < self.vaults.len()
            invariant
                i <= self.vaults@.len(),
                forall|j: int| 0 <= j < i ==> (#[trigger] self.vaults@[j]).0@ != name@,
            decreases self.vaults@.len() - i,
        {
            if str_eq(self.vaults[i].0.as_str(), name) {
                return Some(i);
            }
            i = i + 1;
        }
        None
    }

    /// The vault named `name`, if one is configured.
    pub fn find_vault(&self, name: &str) -> (r: Option<VaultConfig>)
        ensures
            r is None <==> !has_vault(self.vaults@, name@),
            r matches Some(v) ==> exists|i: int| first_named(self.vaults@, name@, i) && v.path@
                == self.vaults@[i].1.path@,
    {
        match self.position_of(name) {
            Some(i) => Some(VaultConfig { path: self.vaults[i].1.path.clone() }),
            None => None,
        }
    }

    /// The name and settings of the active vault.
    pub fn get_active_vault(&self) -> (r: Result<(String, VaultConfig), ConfigError>)
        ensures
            r is Ok <==> has_vault(self.vaults@, self.active_vault@),
            r matches Ok(p) ==> p.0@ == self.active_vault@ && exists|i: int|
                first_named(self.vaults@, self.active_vault@, i) && p.1.path@ == self.vaults@[i].1.path@,
            r matches Err(e) ==> e matches ConfigError::ActiveVaultNotFound(n) && n@ == self.active_vault@,
    {
        match self.find_vault(self.active_vault.as_str()) {
            Some(v) => Ok((self.active_vault.clone(), v)),
            None => Err(ConfigError::ActiveVaultNotFound(self.active_vault.clone())),
        }
    }

    /// The names of the configured vaults, in order.
    pub fn vault_names(&self) -> (r: Vec<String>)
        ensures
            r@.len() == self.vaults@.len(),
            forall|i: int| 0 <= i < r@.len() ==> (#[trigger] r@[i])@ == self.vaults@[i].0@,
    {
        let mut out: Vec<String> = Vec::new();
        let mut i: usize = 0;
        while i < self.vaults.len()
            invariant
                i <= self.vaults@.len(),
                out@.len() == i,
                forall|k: int| 0 <= k < i ==> (#[trigger] out@[k])@ == self.vaults@[k].0@,
            decreases self.vaults@.len() - i,
        {
            out.push(self.vaults[i].0.clone());
            i = i + 1;
        }
        out
    }

    /// Makes `name` the active vault; an error naming the configured vaults
    /// where there is no such vault.
    pub fn set_active_vault(&mut self, name: &str) -> (r: Result<(), ConfigError>)
        ensures
            r is Ok <==> has_vault(old(self).vaults@, name@),
            r is Ok ==> final(self).active_vault@ == name@ && final(self).vaults == old(self).vaults,
            r is Err ==> *final(self) == *old(self),
    {
        if self.position_of(name).is_none() {
            return Err(ConfigError::VaultNotFound(name.to_string(), self.vault_names()));
        }
        self.active_vault = name.to_string();
        Ok(())
    }

    /// Adds the vault `name` at `path`, replacing a vault of that name; the
    /// first vault configured becomes the active one.
    pub fn add_vault(&mut self, name: &str, path: &str)
        ensures
            has_vault(final(self).vaults@, name@),
            forall|i: int| first_named(final(self).vaults@, name@, i) ==> final(self).vaults@[i].1.path@ == path@,
            forall|n: Seq<char>| n != name@ ==> (has_vault(final(self).vaults@, n) <==> has_vault(old(self).vaults@, n)),
            final(self).active_vault@ == if final(self).vaults@.len() == 1 {
                name@
            } else {
                old(self).active_vault@
            },
    {
        let ghost old_v = self.vaults@;
        let entry = (name.to_string(), VaultConfig { path: path.to_string() });
        match self.position_of(name) {
            Some(i) => {
                self.vaults.set(i, entry);
                assert(self.vaults@ == old_v.update(i as int, self.vaults@[i as int]));
                assert forall|n: Seq<char>| n != name@ implies (has_vault(self.vaults@, n) <==> has_vault(old_v, n)) by {
                    if has_vault(old_v, n) {
                        let k = choose|k: int| 0 <= k < old_v.len() && (#[trigger] old_v[k]).0@ == n;
                        assert(self.vaults@[k].0@ == n);
                    }
                    if has_vault(self.vaults@, n) {
                        let k = choose|k: int| 0 <= k < self.vaults@.len() && (#[trigger] self.vaults@[k]).0@ == n;
                        assert(old_v[k].0@ == n);
                    }
                }
                assert forall|k: int| first_named(self.vaults@, name@, k) implies self.vaults@[k].1.path@ == path@ by {
                    if k != i {
                        if k < i {
                            assert(old_v[k].0@ == name@);
                        } else {
                            assert(self.vaults@[i as int].0@ == name@);
                        }
                    }
                }
            },
            None => {
                self.vaults.push(entry);
                let ghost nv = self.vaults@;
                assert(nv[old_v.len() as int].0@ == name@);
                assert forall|n: Seq<char>| n != name@ implies (has_vault(nv, n) <==> has_vault(old_v, n)) by {
                    if has_vault(old_v, n) {
                        let k = choose|k: int| 0 <= k < old_v.len() && (#[trigger] old_v[k]).0@ == n;
                        assert(nv[k].0@ == n);
                    }
                    if has_vault(nv, n) {
                        let k = choose|k: int| 0 <= k < nv.len() && (#[trigger] nv[k]).0@ == n;
                        assert(old_v[k].0@ == n);
                    }
                }
                assert forall|k: int| first_named(nv, name@, k) implies nv[k].1.path@ == path@ by {
                    if k < old_v.len() {
                        assert(old_v[k].0@ == name@);
                    }
                }
            },
        }
        if self.vaults.len() == 1 {
            self.active_vault = name.to_string();
        }
    }
}

} // verus!
