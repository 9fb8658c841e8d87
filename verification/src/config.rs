//! Templates on disk as the library sees them: a template is a directory
//! path whose last segment is its name, templates come in a global and a
//! local list, and a lookup by name prefers one list over the other.

use vstd::prelude::*;
use vstd::string::StrSliceExecFns;

verus! {

/// One template: the path of its directory.
#[derive(Clone)]
pub struct Template(pub String);

/// The start of a path's last segment: one past the last separator.
pub open spec fn last_seg_start(s: Seq<char>) -> int
    decreases s.len(),
{
    if s.len() == 0 {
        0
    } else if s.last() == '/' {
        s.len() as int
    } else {
        last_seg_start(s.drop_last())
    }
}

impl Template {
    /// The template's name: the last segment of its path.
    pub fn name(&self) -> (r: &str)
        ensures
            r@ == self.0@.subrange(last_seg_start(self.0@), self.0@.len() as int),
    {
        let cs = crate::text::to_chars(self.0.as_str());
        let mut k: usize = cs.len();
        proof {
            assert(self.0@.subrange(0, self.0@.len() as int) =~= self.0@);
        }
        while k > 0 && cs[k - 1] != '/'
            invariant
                k <= cs@.len(),
                cs@ == self.0@,
                last_seg_start(self.0@) == last_seg_start(self.0@.subrange(0, k as int)),
                forall|p: int| k <= p < cs@.len() ==> cs@[p] != '/',
            decreases k,
        {
            k = k - 1;
            proof {
                assert(self.0@.subrange(0, k + 1).drop_last() =~= self.0@.subrange(0, k as int));
            }
        }
        proof {
            if k > 0 {
                assert(self.0@.subrange(0, k as int).last() == self.0@[k - 1]);
            }
            assert(last_seg_start(self.0@) == k as int);
        }
        let n = self.0.unicode_len();
        self.0.as_str().substring_char(k, n)
    }
}

/// The templates found on disk, global and local.
pub struct Templates {
    pub global: Vec<Template>,
    pub local: Vec<Template>,
}

/// Which list wins when a name exists in both.
#[derive(PartialEq, Eq, Structural)]
pub enum Prefer {
    Local,
    Global,
}

/// The first index whose template has the given name.
pub open spec fn find_named(ts: Seq<Template>, name: Seq<char>) -> Option<int>
    decreases ts.len(),
{
    if ts.len() == 0 {
        None
    } else {
        match find_named(ts.drop_last(), name) {
            Some(i) => Some(i),
            None => {
                let t = ts.last();
                if t.0@.subrange(last_seg_start(t.0@), t.0@.len() as int) == name {
                    Some(ts.len() - 1)
                } else {
                    None
                }
            },
        }
    }
}

/// Looks the first template with the given name up in one list.
fn find_in_list<'a>(ts: &'a Vec<Template>, name: &str) -> (r: Option<&'a Template>)
    ensures
        match r {
            Some(t) => match find_named(ts@, name@) {
                Some(i) => 0 <= i < ts@.len() && t == &ts@[i],
                None => false,
            },
            None => find_named(ts@, name@) is None,
        },
{
    let mut i: usize = 0;
    while i < ts.len()
        invariant
            i <= ts@.len(),
            find_named(ts@.subrange(0, i as int), name@) is None,
        decreases ts@.len() - i,
    {
        if crate::text::str_eq(ts[i].name(), name) {
            proof {
                lemma_find_named_extend(ts@, name@, i as int);
            }
            return Some(&ts[i]);
        }
        i = i + 1;
        proof {
            assert(ts@.subrange(0, i as int).drop_last() =~= ts@.subrange(0, i - 1));
        }
    }
    proof {
        assert(ts@.subrange(0, ts@.len() as int) =~= ts@);
    }
    None
}

/// When no earlier index matches and index `i` does, `i` is the first match.
proof fn lemma_find_named_extend(ts: Seq<Template>, name: Seq<char>, i: int)
    requires
        0 <= i < ts.len(),
        ts[i].0@.subrange(last_seg_start(ts[i].0@), ts[i].0@.len() as int) == name,
        find_named(ts.subrange(0, i), name) is None,
    ensures
        find_named(ts, name) == Some(i),
    decreases ts.len(),
{
    if i == ts.len() - 1 {
        assert(ts.subrange(0, i) =~= ts.drop_last());
    } else {
        assert(ts.drop_last()[i] == ts[i]);
        assert(ts.subrange(0, i) =~= ts.drop_last().subrange(0, i));
        lemma_find_named_extend(ts.drop_last(), name, i);
    }
}

impl Templates {
    /// The template with the given name: when both lists have one, the
    /// preferred list wins; when only one list has one, that one is it.
    pub fn get_named(&self, name: &str, prefers: &Prefer) -> (r: Option<&Template>)
        ensures
            ({
                let lo = find_named(self.local@, name@);
                let go = find_named(self.global@, name@);
                match r {
                    Some(t) => {
                        &&& (lo is Some && go is Some) ==> (if prefers == Prefer::Local {
                            t == &self.local@[lo.unwrap()]
                        } else {
                            t == &self.global@[go.unwrap()]
                        })
                        &&& (lo is Some && go is None) ==> t == &self.local@[lo.unwrap()]
                        &&& (lo is None && go is Some) ==> t == &self.global@[go.unwrap()]
                        &&& !(lo is None && go is None)
                    },
                    None => lo is None && go is None,
                }
            }),
    {
        let local = find_in_list(&self.local, name);
        let global = find_in_list(&self.global, name);
        match (local, global) {
            (Some(l), _) if matches!(prefers, Prefer::Local) => Some(l),
            (_, Some(g)) if matches!(prefers, Prefer::Global) => Some(g),
            (None, Some(found)) => Some(found),
            (Some(found), None) => Some(found),
            _ => None,
        }
    }
}

/// The configuration directories the tool works with, as plain paths: the
/// user's home, the global configuration directory, and the local one when
/// a containing directory has one.
pub struct TempleDirs {
    user_home: String,
    global_config: String,
    local_config: Option<String>,
}

impl TempleDirs {
    /// Wraps the three paths.
    pub fn new(user_home: String, global_config: String, local_config: Option<String>) -> (r:
        TempleDirs)
        ensures
            r.user_home_spec() == user_home@,
            r.global_config_spec() == global_config@,
            match r.local_config_spec() {
                Some(p) => local_config is Some && p == local_config.unwrap()@,
                None => local_config is None,
            },
    {
        TempleDirs { user_home, global_config, local_config }
    }

    /// The user's home directory.
    pub closed spec fn user_home_spec(self) -> Seq<char> {
        self.user_home@
    }

    /// The global configuration directory.
    pub closed spec fn global_config_spec(self) -> Seq<char> {
        self.global_config@
    }

    /// The local configuration directory, when one was found.
    pub closed spec fn local_config_spec(self) -> Option<Seq<char>> {
        match self.local_config {
            Some(p) => Some(p@),
            None => None,
        }
    }

    /// A reference to the user's home path.
    pub fn user_home(&self) -> (r: &str)
        ensures
            r@ == self.user_home_spec(),
    {
        self.user_home.as_str()
    }

    /// A reference to the global configuration path.
    pub fn global_config(&self) -> (r: &str)
        ensures
            r@ == self.global_config_spec(),
    {
        self.global_config.as_str()
    }

    /// A reference to the local configuration path, when one was found.
    pub fn local_config(&self) -> (r: Option<&str>)
        ensures
            match r {
                Some(p) => self.local_config_spec() == Some(p@),
                None => self.local_config_spec() is None,
            },
    {
        match &self.local_config {
            Some(p) => Some(p.as_str()),
            None => None,
        }
    }
}

} // verus!
