//! The shared environment: active flags and the node and script
//! registries.

use vstd::prelude::*;
use vstd::string::{StrSliceExecFns, StringSliceAdditionalSpecFns};
use vstd::utf8::encode_utf8;
use crate::graph::{Node, Script};
use crate::names::StringName;
use crate::registry::TypeRegistry;

verus! {

/// What `str::to_lowercase` makes of a text.
pub uninterp spec fn lower_of(s: Seq<char>) -> Seq<char>;

/// Relies on `str::to_lowercase`: the result depends on the characters
/// alone.
#[verifier::external_body]
fn lowercase(s: &str) -> (r: String)
    ensures
        r@ == lower_of(s@),
{
    s.to_lowercase()
}

/// `p` is a prefix of `s`.
pub open spec fn has_prefix(s: Seq<char>, p: Seq<char>) -> bool {
    p.len() <= s.len() && s.subrange(0, p.len() as int) == p
}

/// `t` occurs somewhere in `s`.
pub open spec fn has_infix(s: Seq<char>, t: Seq<char>) -> bool {
    exists|i: int| 0 <= i && i + t.len() <= s.len() && #[trigger] s.subrange(i, i + t.len()) == t
}

/// The rule for flags, on lower-cased texts: the name starts with `cho_`
/// and the value does not contain `false`.
pub open spec fn flag_rule(lower_key: Seq<char>, lower_value: Seq<char>) -> bool {
    has_prefix(lower_key, "cho_"@) && !has_infix(lower_value, "false"@)
}

/// Whether `t` occurs in `s` at position `i`.
fn occurs_at(s: &str, t: &str, i: usize) -> (r: bool)
    requires
        i + t@.len() <= s@.len(),
    ensures
        r == (s@.subrange(i as int, i + t@.len()) == t@),
{
    let n = t.unicode_len();
    let sl = s.unicode_len();
    let mut j: usize = 0;
    while j < n
        invariant
            n == t@.len(),
            sl == s@.len(),
            i + n <= s@.len(),
            j <= n,
            forall|m: int| 0 <= m < j ==> s@[i + m] == t@[m],
        decreases n - j,
    {
        if s.get_char(i + j) != t.get_char(j) {
            assert(s@.subrange(i as int, i + t@.len())[j as int] != t@[j as int]);
            return false;
        }
        j = j + 1;
    }
    assert(s@.subrange(i as int, i + t@.len()) =~= t@);
    true
}

/// Whether `p` is a prefix of `s`.
pub fn starts_with(s: &str, p: &str) -> (r: bool)
    ensures
        r == has_prefix(s@, p@),
{
    if p.unicode_len() > s.unicode_len() {
        return false;
    }
    occurs_at(s, p, 0)
}

/// Whether `t` occurs in `s`.
pub fn contains_text(s: &str, t: &str) -> (r: bool)
    ensures
        r == has_infix(s@, t@),
{
    let n = s.unicode_len();
    let m = t.unicode_len();
    if m > n {
        assert forall|i: int| 0 <= i && i + t@.len() <= s@.len() implies #[trigger] s@.subrange(i, i + t@.len()) != t@ by {
        }
        return false;
    }
    let mut i: usize = 0;
    while i <= n - m
        invariant
            n == s@.len(),
            m == t@.len(),
            m <= n,
            i <= n - m,
            forall|k: int| 0 <= k < i ==> #[trigger] s@.subrange(k, k + t@.len()) != t@,
        decreases n - m - i,
    {
        if occurs_at(s, t, i) {
            return true;
        }
        if i == n - m {
            assert forall|k: int| 0 <= k && k + t@.len() <= s@.len() implies #[trigger] s@.subrange(k, k + t@.len()) != t@ by {
                if k < i {
                } else {
                    assert(k == i);
                }
            }
            return false;
        }
        i = i + 1;
    }
    false
}

/// The rule for flags, on texts that are already lower case.
pub fn flag_rule_holds(lower_key: &str, lower_value: &str) -> (r: bool)
    ensures
        r == flag_rule(lower_key@, lower_value@),
{
    starts_with(lower_key, "cho_") && !contains_text(lower_value, "false")
}

/// Whether an environment variable is an active flag: its name starts with
/// `cho_` and its value does not contain `false`, both ignoring case.
pub fn is_flag(key: &str, value: &str) -> (r: bool)
    ensures
        r == flag_rule(lower_of(key@), lower_of(value@)),
{
    let k = lowercase(key);
    let v = lowercase(value);
    flag_rule_holds(k.as_str(), v.as_str())
}

/// The names, as bytes, of the variables that are active flags, in order.
pub open spec fn active_flags(vars: Seq<(String, String)>) -> Seq<Seq<u8>>
    decreases vars.len(),
{
    if vars.len() == 0 {
        Seq::empty()
    } else {
        let rest = active_flags(vars.drop_last());
        let (k, v) = vars.last();
        if flag_rule(lower_of(k@), lower_of(v@)) {
            rest.push(encode_utf8(k@))
        } else {
            rest
        }
    }
}

/// The environment shared by the calls of a run.
#[derive(Debug, Clone)]
pub struct Environment {
    pub flags: Vec<StringName>,
    pub nodes: TypeRegistry<Node>,
    pub scripts: TypeRegistry<Script>,
}

impl Environment {
    /// An environment with no flags and empty registries.
    pub fn new_empty() -> (r: Environment)
        ensures
            r.flags@.len() == 0,
            r.nodes.wf(),
            r.nodes@ == Map::<(Seq<u8>, Seq<u8>), Node>::empty(),
            r.scripts.wf(),
            r.scripts@ == Map::<(Seq<u8>, Seq<u8>), Script>::empty(),
    {
        Environment { flags: Vec::new(), nodes: TypeRegistry::new(), scripts: TypeRegistry::new() }
    }

    /// An environment whose flags are the names of the given variables that
    /// are active flags, in order, with the built-in nodes registered.
    pub fn new(vars: &Vec<(String, String)>) -> (e: Environment)
        ensures
            e.nodes.wf(),
            e.scripts.wf(),
            e.scripts@ == Map::<(Seq<u8>, Seq<u8>), Script>::empty(),
            Seq::new(e.flags@.len(), |i: int| e.flags@[i]@) == active_flags(vars@),
            crate::stdlib::holds_builtins(e.nodes@),
            e.nodes@.dom() == crate::stdlib::builtin_names().to_set(),
    {
        let mut env = Environment::new_empty();
        let mut i: usize = 0;
        while i < vars.len()
            invariant
                i <= vars@.len(),
                Seq::new(env.flags@.len(), |j: int| env.flags@[j]@) == active_flags(vars@.subrange(0, i as int)),
                env.nodes.wf(),
                env.nodes@ == Map::<(Seq<u8>, Seq<u8>), Node>::empty(),
                env.scripts.wf(),
                env.scripts@ == Map::<(Seq<u8>, Seq<u8>), Script>::empty(),
            decreases vars@.len() - i,
        {
            let ghost before = Seq::new(env.flags@.len(), |j: int| env.flags@[j]@);
            assert(vars@.subrange(0, i + 1).drop_last() == vars@.subrange(0, i as int));
            assert(vars@.subrange(0, i + 1).last() == vars@[i as int]);
            let (k, v) = (&vars[i].0, &vars[i].1);
            if is_flag(k.as_str(), v.as_str()) {
                env.flags.push(StringName::from_text(k.as_str()));
                assert(Seq::new(env.flags@.len(), |j: int| env.flags@[j]@) =~= before.push(encode_utf8(k@)));
            }
            i = i + 1;
        }
        assert(vars@.subrange(0, vars@.len() as int) == vars@);
        let registered = crate::stdlib::register(&mut env.nodes);
        assert(registered.is_ok());
        assert(env.nodes@.dom() =~= crate::stdlib::builtin_names().to_set());
        env
    }
}

} // verus!
