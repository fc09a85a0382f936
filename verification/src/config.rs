//! The proxy configuration: named upstream entries, each with an optional
//! request limit.
use vstd::prelude::*;

verus! {

/// At most `requests` requests per client in each window of `window_sec`
/// seconds.
#[derive(Clone, Copy, Debug, PartialEq, Eq, Structural)]
pub struct RateLimitConfig {
    pub requests: u64,
    pub window_sec: u64,
}

/// One proxied site: requests for `host` go to `target`.
#[derive(Debug)]
pub struct ProxyEntry {
    pub host: String,
    pub target: String,
    pub rate_limit: Option<RateLimitConfig>,
}

impl Clone for ProxyEntry {
    fn clone(&self) -> (r: Self)
        ensures
            r == *self,
    {
        ProxyEntry {
            host: self.host.clone(),
            target: self.target.clone(),
            rate_limit: match &self.rate_limit {
                Some(limit) => Some(*limit),
                None => None,
            },
        }
    }
}

/// The entries of a configuration, by name.
pub type ProxyTable = Map<Seq<char>, ProxyEntry>;

spec fn named_table(s: Seq<(String, ProxyEntry)>) -> ProxyTable
    decreases s.len(),
{
    if s.len() == 0 {
        Map::empty()
    } else {
        named_table(s.drop_last()).insert(s.last().0@, s.last().1)
    }
}

spec fn names_distinct(s: Seq<(String, ProxyEntry)>) -> bool {
    forall|i: int, j: int| 0 <= i < j < s.len() ==> s[i].0@ != s[j].0@
}

proof fn lemma_named_entry(s: Seq<(String, ProxyEntry)>, j: int)
    requires
        names_distinct(s),
        0 <= j < s.len(),
    ensures
        named_table(s).contains_key(s[j].0@),
        named_table(s)[s[j].0@] == s[j].1,
    decreases s.len(),
{
    if j < s.len() - 1 {
        let d = s.drop_last();
        assert(d[j] == s[j]);
        lemma_named_entry(d, j);
    }
}

proof fn lemma_name_absent(s: Seq<(String, ProxyEntry)>, k: Seq<char>)
    requires
        forall|j: int| 0 <= j < s.len() ==> s[j].0@ != k,
    ensures
        !named_table(s).contains_key(k),
    decreases s.len(),
{
    if s.len() > 0 {
        let d = s.drop_last();
        assert forall|j: int| 0 <= j < d.len() implies d[j].0@ != k by {
            assert(d[j] == s[j]);
        }
        lemma_name_absent(d, k);
    }
}

proof fn lemma_named_update(s: Seq<(String, ProxyEntry)>, i: int, e: (String, ProxyEntry))
    requires
        names_distinct(s),
        0 <= i < s.len(),
        e.0@ == s[i].0@,
    ensures
        names_distinct(s.update(i, e)),
        named_table(s.update(i, e)) == named_table(s).insert(e.0@, e.1),
    decreases s.len(),
{
    let t = s.update(i, e);
    assert forall|a: int, b: int| 0 <= a < b < t.len() implies t[a].0@ != t[b].0@ by {
        assert(t[a].0@ == s[a].0@);
        assert(t[b].0@ == s[b].0@);
    }
    let d = s.drop_last();
    if i == s.len() - 1 {
        assert(t.drop_last() =~= d);
    } else {
        assert(t.drop_last() =~= d.update(i, e));
        lemma_named_update(d, i, e);
        assert(s.last().0@ != e.0@);
    }
    assert(named_table(t) =~= named_table(s).insert(e.0@, e.1));
}

proof fn lemma_named_len(s: Seq<(String, ProxyEntry)>)
    requires
        names_distinct(s),
    ensures
        named_table(s).dom().finite(),
        named_table(s).len() == s.len(),
    decreases s.len(),
{
    if s.len() > 0 {
        let d = s.drop_last();
        assert forall|j: int| 0 <= j < d.len() implies d[j].0@ != s.last().0@ by {
            assert(d[j] == s[j]);
        }
        lemma_named_len(d);
        lemma_name_absent(d, s.last().0@);
    }
}

fn position(proxy: &Vec<(String, ProxyEntry)>, name: &String) -> (pos: Option<usize>)
    ensures
        match pos {
            Some(i) => i < proxy.len() && proxy@[i as int].0@ == name@,
            None => forall|j: int| 0 <= j < proxy.len() ==> proxy@[j].0@ != name@,
        },
{
    let mut i: usize = 0;
    while i < proxy.len()
        invariant
            i <= proxy.len(),
            forall|j: int| 0 <= j < i ==> proxy@[j].0@ != name@,
        decreases proxy.len() - i,
    {
        if proxy[i].0 == *name {
            return Some(i);
        }
        i = i + 1;
    }
    None
}

/// After `insert`, `get` of the inserted name finds the inserted entry, and
/// every other name finds what it found before.
pub proof fn lemma_lookup_after_insert(
    m: ProxyTable,
    name: Seq<char>,
    entry: ProxyEntry,
    other: Seq<char>,
)
    requires
        other != name,
    ensures
        m.insert(name, entry).contains_key(name),
        m.insert(name, entry)[name] == entry,
        m.insert(name, entry).contains_key(other) == m.contains_key(other),
        m.contains_key(other) ==> m.insert(name, entry)[other] == m[other],
{
}

/// The proxied sites, each under its own name; a name stands for one entry.
///
/// The entries are a vector with distinct names rather than a
/// `std::collections::HashMap`: vstd specifies a hash map only for key types
/// with a key model, which `String` lacks.
pub struct ProxyConfig {
    proxy: Vec<(String, ProxyEntry)>,
}

impl View for ProxyConfig {
    type V = ProxyTable;

    closed spec fn view(&self) -> ProxyTable {
        named_table(self.proxy@)
    }
}

impl Default for ProxyConfig {
    fn default() -> (r: Self)
        ensures
            r@ == Map::<Seq<char>, ProxyEntry>::empty(),
    {
        ProxyConfig { proxy: Vec::new() }
    }
}

impl ProxyConfig {
    #[verifier::type_invariant]
    spec fn names_unique(self) -> bool {
        names_distinct(self.proxy@)
    }

    /// A configuration with no entry.
    pub fn new() -> (r: Self)
        ensures
            r@ == Map::<Seq<char>, ProxyEntry>::empty(),
    {
        ProxyConfig { proxy: Vec::new() }
    }

    /// Puts `entry` under `name`, in place of any entry that had that name.
    pub fn insert(&mut self, name: String, entry: ProxyEntry)
        ensures
            final(self)@ == old(self)@.insert(name@, entry),
    {
        proof {
            use_type_invariant(&*self);
        }
        let mut proxy: Vec<(String, ProxyEntry)> = Vec::new();
        std::mem::swap(&mut proxy, &mut self.proxy);
        match position(&proxy, &name) {
            Some(i) => {
                proof {
                    lemma_named_update(proxy@, i as int, (name, entry));
                }
                proxy.set(i, (name, entry));
            },
            None => {
                proof {
                    lemma_name_absent(proxy@, name@);
                    let t = proxy@.push((name, entry));
                    assert forall|a: int, b: int| 0 <= a < b < t.len() implies t[a].0@ != t[b].0@ by {
                        assert(t[a] == proxy@[a]);
                    }
                    assert(t.drop_last() =~= proxy@);
                }
                proxy.push((name, entry));
            },
        }
        self.proxy = proxy;
    }

    /// The entry named `name`, if there is one.
    pub fn get(&self, name: &str) -> (r: Option<&ProxyEntry>)
        ensures
            match r {
                Some(e) => self@.contains_key(name@) && *e == self@[name@],
                None => !self@.contains_key(name@),
            },
    {
        proof {
            use_type_invariant(self);
        }
        let key = name.to_owned();
        match position(&self.proxy, &key) {
            Some(i) => {
                proof {
                    lemma_named_entry(self.proxy@, i as int);
                }
                Some(&self.proxy[i].1)
            },
            None => {
                proof {
                    lemma_name_absent(self.proxy@, name@);
                }
                None
            },
        }
    }

    /// Every entry once, under names that are each used once.
    pub fn entries(&self) -> (r: Vec<ProxyEntry>)
        ensures
            r.len() == self@.len(),
            self@.dom().finite(),
            exists|names: Seq<Seq<char>>|
                {
                    &&& names.len() == r.len()
                    &&& names.no_duplicates()
                    &&& names.to_set() == self@.dom()
                    &&& forall|i: int| 0 <= i < r.len() ==> r@[i] == self@[#[trigger] names[i]]
                },
    {
        proof {
            use_type_invariant(self);
            lemma_named_len(self.proxy@);
        }
        let ghost names = self.proxy@.map_values(|p: (String, ProxyEntry)| p.0@);
        let mut r: Vec<ProxyEntry> = Vec::new();
        let mut i: usize = 0;
        while i < self.proxy.len()
            invariant
                i <= self.proxy.len(),
                r.len() == i,
                names_distinct(self.proxy@),
                names == self.proxy@.map_values(|p: (String, ProxyEntry)| p.0@),
                forall|j: int| 0 <= j < i ==> r@[j] == self@[#[trigger] names[j]],
            decreases self.proxy.len() - i,
        {
            proof {
                lemma_named_entry(self.proxy@, i as int);
            }
            r.push(self.proxy[i].1.clone());
            i = i + 1;
        }
        proof {
            assert(names.no_duplicates()) by {
                assert forall|a: int, b: int| 0 <= a < names.len() && 0 <= b < names.len() && a != b implies names[a] != names[b] by {
                    if a < b {
                        assert(self.proxy@[a].0@ != self.proxy@[b].0@);
                    } else {
                        assert(self.proxy@[b].0@ != self.proxy@[a].0@);
                    }
                }
            }
            assert forall|k: Seq<char>| names.to_set().contains(k) == self@.dom().contains(k) by {
                if names.to_set().contains(k) {
                    let j = names.index_of(k);
                    lemma_named_entry(self.proxy@, j);
                } else if self@.dom().contains(k) {
                    assert forall|j: int| 0 <= j < self.proxy@.len() implies self.proxy@[j].0@ != k by {
                        assert(names[j] == self.proxy@[j].0@);
                        assert(names.contains(names[j]));
                    }
                    lemma_name_absent(self.proxy@, k);
                }
            }
            assert(names.to_set() =~= self@.dom());
        }
        r
    }
}

} // verus!
