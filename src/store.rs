use vstd::prelude::*;
use vstd::string::StringExecFns;

use crate::reply::{Reply, ReplyView};
use crate::request::{Request, RequestView};

verus! {

/// A key-value store held in memory: each key bound to at most one value.
pub struct MemoryStore {
    keys: Vec<String>,
    values: Vec<String>,
}

impl MemoryStore {
    /// Keys and values pair up by position, and no key appears twice.
    pub closed spec fn well_formed(&self) -> bool {
        &&& self.keys@.len() == self.values@.len()
        &&& forall|i: int, j: int|
            0 <= i < j < self.keys@.len() ==> #[trigger] self.keys@[i]@ != #[trigger] self.keys@[j]@
    }

    /// The position at which key `k` is stored.
    closed spec fn position(&self, k: Seq<char>) -> int {
        choose|i: int| 0 <= i < self.keys@.len() && #[trigger] self.keys@[i]@ == k
    }

    /// Each stored key is found at its own position.
    proof fn lemma_position(&self, i: int)
        requires
            self.well_formed(),
            0 <= i < self.keys@.len(),
        ensures
            self.position(self.keys@[i]@) == i,
    {
        let j = self.position(self.keys@[i]@);
        assert(0 <= j < self.keys@.len() && self.keys@[j]@ == self.keys@[i]@);
    }

    /// The binding of each key.
    pub closed spec fn bindings(&self) -> Map<Seq<char>, Seq<char>> {
        Map::new(
            |k: Seq<char>| exists|i: int| 0 <= i < self.keys@.len() && #[trigger] self.keys@[i]@ == k,
            |k: Seq<char>| self.values@[self.position(k)]@,
        )
    }
}

impl View for MemoryStore {
    type V = Map<Seq<char>, Seq<char>>;

    closed spec fn view(&self) -> Map<Seq<char>, Seq<char>> {
        self.bindings()
    }
}

impl MemoryStore {
    /// An empty store.
    pub fn new() -> (r: Self)
        ensures
            r.well_formed(),
            r@ == Map::<Seq<char>, Seq<char>>::empty(),
    {
        let r = MemoryStore { keys: Vec::new(), values: Vec::new() };
        assert(r@ =~= Map::<Seq<char>, Seq<char>>::empty());
        r
    }

    /// Where `key` is stored, if it is.
    fn find(&self, key: &String) -> (r: Option<usize>)
        requires
            self.well_formed(),
        ensures
            r matches Some(i) ==> i < self.keys@.len() && self.keys@[i as int]@ == key@
                && self.position(key@) == i,
            r is None ==> !self@.contains_key(key@),
    {
        let mut i: usize = 0;
        while i < self.keys.len()
            invariant
                self.well_formed(),
                i <= self.keys@.len(),
                forall|j: int| 0 <= j < i ==> self.keys@[j]@ != key@,
            decreases self.keys@.len() - i,
        {
            if self.keys[i] == *key {
                return Some(i);
            }
            i = i + 1;
        }
        None
    }

    /// The value bound to `key`, if any.
    pub fn get(&self, key: &String) -> (r: Option<String>)
        requires
            self.well_formed(),
        ensures
            r is None <==> !self@.contains_key(key@),
            r matches Some(v) ==> v@ == self@[key@],
    {
        match self.find(key) {
            Some(i) => Some(self.values[i].clone()),
            None => None,
        }
    }

    /// Binds `value` to `key`, replacing any earlier value.
    pub fn put(&mut self, key: String, value: String)
        requires
            old(self).well_formed(),
        ensures
            final(self).well_formed(),
            final(self)@ == old(self)@.insert(key@, value@),
    {
        match self.find(&key) {
            Some(i) => {
                self.values[i] = value;
                assert(self@ =~= old(self)@.insert(key@, value@));
            },
            None => {
                let ghost n = self.keys@.len() as int;
                let ghost k_new = key@;
                let ghost v_new = value@;
                self.keys.push(key);
                self.values.push(value);
                proof {
                    let expected = old(self)@.insert(k_new, v_new);
                    assert(self.keys@[n]@ == k_new);
                    assert forall|k: Seq<char>| #[trigger]
                        self@.contains_key(k) == expected.contains_key(k) by {
                        if k != k_new && old(self)@.contains_key(k) {
                            let i = old(self).position(k);
                            assert(self.keys@[i]@ == k);
                        } else if k != k_new && self@.contains_key(k) {
                            let i = self.position(k);
                            assert(old(self).keys@[i]@ == k);
                        }
                    }
                    assert forall|k: Seq<char>| #[trigger]
                        self@.contains_key(k) implies self@[k] == expected[k] by {
                        if k == k_new {
                            self.lemma_position(n);
                        } else {
                            let i = old(self).position(k);
                            assert(self.keys@[i]@ == k);
                            self.lemma_position(i);
                        }
                    }
                    assert(self@ =~= expected);
                }
            },
        }
    }

    /// Carries out `request`: a store binds the value and answers `Done`; a
    /// load answers with the key's value, or `NotFound`.
    pub fn execute(&mut self, request: Request) -> (r: Reply)
        requires
            old(self).well_formed(),
        ensures
            final(self).well_formed(),
            match request@ {
                RequestView::Store { key, value } => {
                    &&& r is Done
                    &&& final(self)@ == old(self)@.insert(key, value)
                },
                RequestView::Load { key } => {
                    &&& final(self)@ == old(self)@
                    &&& r@ == if old(self)@.contains_key(key) {
                        ReplyView::Found(old(self)@[key])
                    } else {
                        ReplyView::NotFound
                    }
                },
            },
    {
        match request {
            Request::Store(s) => {
                self.put(s.key, s.value);
                Reply::Done
            },
            Request::Load(l) => match self.get(&l.key) {
                Some(v) => Reply::Found(v),
                None => Reply::NotFound,
            },
        }
    }
}

/// `database`, the directory of the file-backed store.
pub open spec fn database_dir_name() -> Seq<char> {
    seq!['d', 'a', 't', 'a', 'b', 'a', 's', 'e']
}

/// `database/key-` followed by the key: the file that holds a key's value.
pub open spec fn key_file_name(key: Seq<char>) -> Seq<char> {
    database_dir_name() + seq!['/', 'k', 'e', 'y', '-'] + key
}

/// The directory of the file-backed store, relative to the working directory.
pub fn database_dir() -> (r: &'static str)
    ensures
        r@ == database_dir_name(),
{
    proof {
        reveal_strlit("database");
    }
    let r = "database";
    assert(r@ =~= database_dir_name());
    r
}

/// The path of the file that holds the value of `key`.
pub fn key_file_path(key: &str) -> (r: String)
    ensures
        r@ == key_file_name(key@),
{
    proof {
        reveal_strlit("/key-");
    }
    let mut r = String::from_str(database_dir());
    r.append("/key-");
    r.append(key);
    assert(r@ =~= key_file_name(key@));
    r
}

} // verus!
