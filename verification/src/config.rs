//! Provider configuration: the settings every provider command shares and
//! the registry of runtime descriptors they name.
//!
//! Reading descriptor files and environment variables is the caller's
//! business; this module holds the values and the parsing steps that are
//! pure functions of their input, such as splitting a `KEY=value` argument.

use vstd::prelude::*;

verus! {

/// Common configuration for all provider commands: where the runtime
/// descriptor files live and where presets are kept.
pub struct ProviderConfig {
    /// Pattern naming the descriptor files for available runtimes.
    pub exe_unit_path: String,
    /// Where the offer presets are kept.
    pub presets_file: String,
}

/// This node's identity in the network.
pub struct NodeConfig {
    /// Human-readable name announced to the network.
    pub node_name: String,
    /// Optional subnetwork identifier used to filter nodes.
    pub subnet: Option<String>,
}

/// Commands on the registry of available runtimes.
pub enum ExeUnitsConfig {
    /// List the registered runtimes.
    List,
}

/// The names of the runtime descriptors registered so far, in registration
/// order.
pub struct ExeUnitsRegistry {
    names: Vec<String>,
}

impl View for ExeUnitsRegistry {
    type V = Seq<Seq<char>>;

    closed spec fn view(&self) -> Seq<Seq<char>> {
        self.names.deep_view()
    }
}

impl ExeUnitsRegistry {
    /// An empty registry.
    pub fn new() -> (r: ExeUnitsRegistry)
        ensures
            r@ == Seq::<Seq<char>>::empty(),
    {
        let r = ExeUnitsRegistry { names: Vec::new() };
        proof {
            assert(r@ =~~= Seq::<Seq<char>>::empty());
        }
        r
    }

    /// Registers one runtime descriptor under its name.
    pub fn register_exe_unit(&mut self, name: String)
        ensures
            final(self)@ == old(self)@.push(name@),
    {
        let ghost prev: Seq<Seq<char>> = self@;
        self.names.push(name);
        proof {
            assert(self@ =~~= prev.push(self.names@[self.names@.len() - 1]@));
        }
    }

    /// Whether a runtime of that name is registered.
    pub fn contains(&self, name: &String) -> (r: bool)
        ensures
            r == exists|i: int| 0 <= i < self@.len() && self@[i] == name@,
    {
        let mut i: usize = 0;
        while i < self.names.len()
            invariant
                i <= self@.len(),
                self@.len() == self.names@.len(),
                forall|j: int| 0 <= j < i ==> self@[j] != name@,
            decreases self@.len() - i,
        {
            if self.names[i] == *name {
                assert(self@[i as int] == name@);
                return true;
            }
            i = i + 1;
        }
        proof {
            if exists|j: int| 0 <= j < self@.len() && self@[j] == name@ {
                let w = choose|j: int| 0 <= j < self@.len() && self@[j] == name@;
                assert(self@[w] != name@);
            }
        }
        false
    }
}

impl ProviderConfig {
    /// A fresh, empty registry for the runtimes whose descriptor files match
    /// `exe_unit_path`; the caller reads each matching file and registers
    /// the entries it parses.
    pub fn registry(&self) -> (r: ExeUnitsRegistry)
        ensures
            r@ == Seq::<Seq<char>>::empty(),
    {
        ExeUnitsRegistry::new()
    }
}

/// Index of the first `=` in `s`, counted in characters.
pub open spec fn first_eq(s: Seq<char>) -> int
    decreases s.len(),
{
    if s.len() == 0 {
        0
    } else if s[0] == '=' {
        0
    } else {
        1 + first_eq(s.drop_first())
    }
}

/// Whether `s` holds an `=` anywhere.
pub open spec fn has_eq(s: Seq<char>) -> bool {
    exists|i: int| 0 <= i < s.len() && s[i] == '='
}

/// Splits a `KEY=value` argument at its first `=`: the key is everything
/// before it, the value everything after it, and an argument without `=` is
/// rejected.
#[verifier::loop_isolation(false)]
pub fn parse_key_val(s: &str) -> (r: Result<(String, String), String>)
    ensures
        has_eq(s@) ==> (r matches Ok(kv) && kv.0@ == s@.take(first_eq(s@)) && kv.1@ == s@.skip(
            first_eq(s@) + 1,
        )),
        !has_eq(s@) ==> r is Err,
{
    let n = s.unicode_len();
    let mut i: usize = 0;
    proof {
        assert(s@.skip(0) =~= s@);
    }
    while i < n
        invariant
            i <= s@.len(),
            n == s@.len(),
            forall|j: int| 0 <= j < i ==> s@[j] != '=',
            first_eq(s@) == i + first_eq(s@.skip(i as int)),
        decreases n - i,
    {
        let c = s.get_char(i);
        proof {
            assert(s@.skip(i as int)[0] == s@[i as int]);
        }
        if c == '=' {
            assert(first_eq(s@.skip(i as int)) == 0);
            assert(first_eq(s@) == i);
            assert(has_eq(s@));
            let key = s.substring_char(0, i);
            let value = s.substring_char(i + 1, n);
            assert(key@ =~= s@.take(i as int));
            assert(value@ =~= s@.skip(i + 1));
            return Ok((key.to_owned(), value.to_owned()));
        }
        proof {
            assert(s@.skip(i as int).drop_first() =~= s@.skip(i + 1));
        }
        i = i + 1;
    }
    proof {
        if has_eq(s@) {
            let w = choose|j: int| 0 <= j < s@.len() && s@[j] == '=';
            assert(s@[w] != '=');
        }
    }
    Err(String::from_str("invalid KEY=value: no `=` found"))
}

} // verus!
