//! The loaded configuration — themes, aliases and programs — and the
//! decision a `set` request comes down to: which theme to apply, or why
//! the request is refused. Parsing the configuration file is I/O left to
//! the caller.

use vstd::prelude::*;

use crate::program::Program;
use crate::state::State;
use crate::theme::Theme;

verus! {

/// One alias: a shorthand name that stands for a real theme name.
#[derive(Clone, Debug)]
pub struct Alias {
    pub alias: String,
    pub target: String,
}

/// The configuration: the themes, the alias table, and the programs to
/// rewrite, each list in its configured order.
#[derive(Clone, Debug)]
pub struct Config {
    pub themes: Vec<Theme>,
    pub aliases: Vec<Alias>,
    pub programs: Vec<Program>,
}

/// Why a `set` request is refused.
#[derive(Clone, Copy, Debug, PartialEq, Eq, Structural)]
pub enum SetError {
    /// The requested name, after alias resolution, names no configured
    /// theme.
    ThemeNotFound,
    /// The resolved theme is already the active one and force was not
    /// given.
    AlreadySet,
}

/// The target of the first alias entry for `name`, if any.
pub open spec fn alias_target(aliases: Seq<Alias>, name: Seq<char>) -> Option<Seq<char>>
    decreases aliases.len(),
{
    if aliases.len() == 0 {
        None
    } else if aliases.first().alias@ == name {
        Some(aliases.first().target@)
    } else {
        alias_target(aliases.drop_first(), name)
    }
}

/// The theme name an entered name stands for: the first matching alias's
/// target, or the name itself where no alias matches.
pub open spec fn resolved_name(aliases: Seq<Alias>, name: Seq<char>) -> Seq<char> {
    match alias_target(aliases, name) {
        Some(t) => t,
        None => name,
    }
}

/// The position of the first theme carrying the given name, if any.
pub open spec fn theme_index(themes: Seq<Theme>, name: Seq<char>) -> Option<int>
    decreases themes.len(),
{
    if themes.len() == 0 {
        None
    } else if themes.first().name@ == name {
        Some(0)
    } else {
        match theme_index(themes.drop_first(), name) {
            Some(i) => Some(i + 1),
            None => None,
        }
    }
}

impl Config {
    /// Resolves an entered theme name through the alias table: the first
    /// matching alias's target, or the name itself where no alias
    /// matches.
    pub fn resolve_name(&self, name: &String) -> (r: String)
        ensures
            r@ == resolved_name(self.aliases@, name@),
    {
        let mut i: usize = 0;
        proof {
            assert(self.aliases@.skip(0) =~= self.aliases@);
        }
        while i < self.aliases.len()
            invariant
                i <= self.aliases@.len(),
                alias_target(self.aliases@, name@) == alias_target(
                    self.aliases@.skip(i as int),
                    name@,
                ),
            decreases self.aliases@.len() - i,
        {
            proof {
                assert(self.aliases@.skip(i as int).first() == self.aliases@[i as int]);
                assert(self.aliases@.skip(i as int).drop_first() =~= self.aliases@.skip(
                    i as int + 1,
                ));
            }
            if self.aliases[i].alias == *name {
                return self.aliases[i].target.clone();
            }
            i = i + 1;
        }
        proof {
            assert(self.aliases@.skip(self.aliases@.len() as int) =~= Seq::<Alias>::empty());
        }
        name.clone()
    }

    /// The position of the first theme carrying the given name.
    pub fn find_theme(&self, name: &String) -> (r: Option<usize>)
        ensures
            r matches Some(i) ==> theme_index(self.themes@, name@) == Some(i as int),
            r is None ==> theme_index(self.themes@, name@) is None,
    {
        let mut i: usize = 0;
        proof {
            assert(self.themes@.skip(0) =~= self.themes@);
        }
        while i < self.themes.len()
            invariant
                i <= self.themes@.len(),
                theme_index(self.themes@, name@) == (match theme_index(
                    self.themes@.skip(i as int),
                    name@,
                ) {
                    Some(k) => Some(k + i),
                    None => None::<int>,
                }),
            decreases self.themes@.len() - i,
        {
            proof {
                assert(self.themes@.skip(i as int).first() == self.themes@[i as int]);
                assert(self.themes@.skip(i as int).drop_first() =~= self.themes@.skip(i as int + 1));
            }
            if self.themes[i].name == *name {
                return Some(i);
            }
            i = i + 1;
        }
        proof {
            assert(self.themes@.skip(self.themes@.len() as int) =~= Seq::<Theme>::empty());
        }
        None
    }

    /// Decides a `set` request: resolves the entered name through the
    /// aliases, finds the theme of that name, and refuses when that
    /// theme is already the active one and `force` is not given — so an
    /// alias of the active theme is refused like its real name. Returns
    /// the position of the theme to apply.
    pub fn select_theme(&self, state: &State, requested: &String, force: bool) -> (r: Result<
        usize,
        SetError,
    >)
        ensures
            ({
                let resolved = resolved_name(self.aliases@, requested@);
                match r {
                    Ok(i) => theme_index(self.themes@, resolved) == Some(i as int) && (force
                        || !state.spec_is_current(resolved)),
                    Err(SetError::ThemeNotFound) => theme_index(self.themes@, resolved) is None,
                    Err(SetError::AlreadySet) => theme_index(self.themes@, resolved) is Some
                        && state.spec_is_current(resolved) && !force,
                }
            }),
    {
        let resolved = self.resolve_name(requested);
        let index = match self.find_theme(&resolved) {
            Some(i) => i,
            None => {
                return Err(SetError::ThemeNotFound);
            },
        };
        if state.is_current(&resolved) && !force {
            return Err(SetError::AlreadySet);
        }
        Ok(index)
    }
}

} // verus!
