//! Constants of the CPU mask layout, and the path of the base cpuset group.
use vstd::prelude::*;

use crate::text::chars_of;

verus! {

/// The number of CPUs a mask can hold.
pub const CPU_SETSIZE: usize = 1024;

/// The number of CPUs per mask word.
pub const CPU_WORD_BITS: usize = 64;

/// The number of words in a mask.
pub const CPU_WORDS: usize = 16;

/// The path of the base cpuset group, once it has been set.
pub struct BaseCpuset {
    path: Option<String>,
}

impl View for BaseCpuset {
    type V = Option<Seq<char>>;

    closed spec fn view(&self) -> Option<Seq<char>> {
        match self.path {
            Some(p) => Some(p@),
            None => None,
        }
    }
}

/// Whether `name` can name a cpuset group: it is not empty and holds no `/`.
pub open spec fn valid_group_name(name: Seq<char>) -> bool {
    name.len() > 0 && !name.contains('/')
}

/// The path of the cpuset group `name`.
pub open spec fn group_path(name: Seq<char>) -> Seq<char> {
    "/dev/cpuset/"@ + name
}

/// The path used while none has been set.
pub open spec fn default_base() -> Seq<char> {
    "/dev/cpuset/OptExt"@
}

/// The base path that `base_cpuset` reports for the state `b`.
pub open spec fn base_path(b: Option<Seq<char>>) -> Seq<char> {
    match b {
        Some(p) => p,
        None => default_base(),
    }
}

/// The state after `set_base_cpuset(name)` on the state `b`.
pub open spec fn after_set(b: Option<Seq<char>>, name: Seq<char>) -> Option<Seq<char>> {
    if b is None && valid_group_name(name) {
        Some(group_path(name))
    } else {
        b
    }
}

/// The first valid name set is the one kept: whatever is set afterwards,
/// `base_cpuset` reports `/dev/cpuset/<first>`.
pub proof fn lemma_first_name_kept(b: Option<Seq<char>>, first: Seq<char>, later: Seq<char>)
    requires
        b is None,
        valid_group_name(first),
    ensures
        base_path(after_set(after_set(b, first), later)) == group_path(first),
{
}

/// Setting an invalid name (empty, or holding `/`) changes nothing.
pub proof fn lemma_invalid_name_ignored(b: Option<Seq<char>>, name: Seq<char>)
    requires
        !valid_group_name(name),
    ensures
        after_set(b, name) == b,
{
}

impl BaseCpuset {
    /// No path set yet.
    pub fn new() -> (r: BaseCpuset)
        ensures
            r@ is None,
    {
        BaseCpuset { path: None }
    }
}

/// Sets the base cpuset group to `/dev/cpuset/<name>`. Only the first valid
/// name takes; an empty name or one holding `/` is ignored.
pub fn set_base_cpuset(base: &mut BaseCpuset, name: &str)
    ensures
        final(base)@ == after_set(old(base)@, name@),
{
    let v = chars_of(name);
    if v.len() == 0 {
        return ;
    }
    let mut i: usize = 0;
    while i < v.len()
        invariant
            i <= v@.len(),
            v@ == name@,
            forall|k: int| 0 <= k < i ==> v@[k] != '/',
        decreases v@.len() - i,
    {
        if v[i] == '/' {
            assert(name@[i as int] == '/');
            return ;
        }
        i = i + 1;
    }
    if base.path.is_some() {
        return ;
    }
    let mut path = String::from_str("/dev/cpuset/");
    path.append(name);
    base.path = Some(path);
}

/// The base cpuset group's path: the one set, else `/dev/cpuset/OptExt`.
pub fn base_cpuset(base: &BaseCpuset) -> (r: String)
    ensures
        r@ == base_path(base@),
{
    match &base.path {
        Some(p) => p.clone(),
        None => String::from_str("/dev/cpuset/OptExt"),
    }
}

} // verus!
