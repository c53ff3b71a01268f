//! A key-value store of strings. Every change is a `Command`; the caller logs
//! a command before applying it, and opening a store replays the logged
//! commands in order. The entries live in a `DashMap`.
use vstd::prelude::*;
use dashmap::DashMap;

verus! {

/// A change to the store, as it is logged.
#[derive(Debug, Clone, PartialEq, Eq)]
pub enum Command {
    Put(String, String),
    Remove(String),
}

pub enum CommandView {
    Put(Seq<char>, Seq<char>),
    Remove(Seq<char>),
}

impl View for Command {
    type V = CommandView;

    open spec fn view(&self) -> CommandView {
        match self {
            Command::Put(k, v) => CommandView::Put(k@, v@),
            Command::Remove(k) => CommandView::Remove(k@),
        }
    }
}

/// The entries of a store with nothing in it.
pub open spec fn no_entries() -> Map<Seq<char>, Seq<char>> {
    Map::empty()
}

/// `dashmap::DashMap`, declared so that the store can hold one; Verus sees
/// nothing inside it but what `dash_entries` names.
#[verifier::external_type_specification]
#[verifier::external_body]
#[verifier::reject_recursive_types(K)]
#[verifier::reject_recursive_types(V)]
#[verifier::reject_recursive_types(S)]
pub struct ExDashMap<K, V, S>(DashMap<K, V, S>);

/// The entries of a map of strings, by the characters of key and value.
pub uninterp spec fn dash_entries(m: DashMap<String, String>) -> Map<Seq<char>, Seq<char>>;

/// `DashMap::new`: a map with no entries.
#[verifier::external_body]
fn dash_new() -> (m: DashMap<String, String>)
    ensures
        dash_entries(m) == no_entries(),
{
    DashMap::new()
}

/// `DashMap::insert`: afterwards the key maps to the value; the value it
/// mapped to before, if any, is returned.
#[verifier::external_body]
fn dash_insert(m: &mut DashMap<String, String>, key: String, value: String) -> (prev: Option<String>)
    ensures
        dash_entries(*final(m)) == dash_entries(*old(m)).insert(key@, value@),
        match prev {
            Some(v) => dash_entries(*old(m)).contains_key(key@) && v@ == dash_entries(*old(m))[key@],
            None => !dash_entries(*old(m)).contains_key(key@),
        },
{
    m.insert(key, value)
}

/// `DashMap::remove`: afterwards the key has no entry; the entry it had, if
/// any, is returned.
#[verifier::external_body]
fn dash_remove(m: &mut DashMap<String, String>, key: &str) -> (removed: Option<(String, String)>)
    ensures
        dash_entries(*final(m)) == dash_entries(*old(m)).remove(key@),
        match removed {
            Some((k, v)) => dash_entries(*old(m)).contains_key(key@) && k@ == key@ && v@ == dash_entries(*old(m))[key@],
            None => !dash_entries(*old(m)).contains_key(key@),
        },
{
    m.remove(key)
}

/// `DashMap::get`: the value the key maps to, copied out of the returned
/// guard, or `None` when the key has no entry.
#[verifier::external_body]
fn dash_get(m: &DashMap<String, String>, key: &str) -> (r: Option<String>)
    ensures
        match r {
            Some(v) => dash_entries(*m).contains_key(key@) && v@ == dash_entries(*m)[key@],
            None => !dash_entries(*m).contains_key(key@),
        },
{
    match m.get(key) {
        Some(entry) => Some(entry.value().clone()),
        None => None,
    }
}

/// `DashMap::contains_key`: whether the key has an entry.
#[verifier::external_body]
fn dash_contains_key(m: &DashMap<String, String>, key: &str) -> (r: bool)
    ensures
        r == dash_entries(*m).contains_key(key@),
{
    m.contains_key(key)
}

/// What a logged command does to the entries.
pub open spec fn kv_apply(m: Map<Seq<char>, Seq<char>>, c: CommandView) -> Map<Seq<char>, Seq<char>> {
    match c {
        CommandView::Put(k, v) => m.insert(k, v),
        CommandView::Remove(k) => m.remove(k),
    }
}

/// The entries after applying the commands in order to an empty store.
pub open spec fn kv_replay(cs: Seq<CommandView>) -> Map<Seq<char>, Seq<char>>
    decreases cs.len(),
{
    if cs.len() == 0 {
        no_entries()
    } else {
        kv_apply(kv_replay(cs.drop_last()), cs.last())
    }
}

pub struct KvStore {
    map: DashMap<String, String>,
}

impl View for KvStore {
    type V = Map<Seq<char>, Seq<char>>;

    closed spec fn view(&self) -> Map<Seq<char>, Seq<char>> {
        dash_entries(self.map)
    }
}

impl KvStore {
    /// A store with no entries.
    pub fn new() -> (s: KvStore)
        ensures
            s@ == no_entries(),
    {
        KvStore { map: dash_new() }
    }

    /// Opens a store from its log: the logged commands, replayed in order.
    pub fn open(commands: Vec<Command>) -> (s: KvStore)
        ensures
            s@ == kv_replay(commands@.map_values(|c: Command| c@)),
    {
        let ghost cs = commands@.map_values(|c: Command| c@);
        let mut store = KvStore::new();
        for c in it: commands.into_iter()
            invariant
                it.seq() == commands@,
                cs == commands@.map_values(|c: Command| c@),
                store@ == kv_replay(cs.take(it.index() as int)),
        {
            proof {
                assert(cs.take(it.index() + 1).drop_last() =~= cs.take(it.index() as int));
            }
            store.apply(c);
        }
        assert(cs.take(cs.len() as int) =~= cs);
        store
    }

    /// Applies one logged command.
    pub fn apply(&mut self, command: Command)
        ensures
            final(self)@ == kv_apply(old(self)@, command@),
    {
        match command {
            Command::Put(k, v) => self.set(k, v),
            Command::Remove(k) => {
                self.remove(k.as_str());
            },
        }
    }

    /// Maps `key` to `value`.
    pub fn set(&mut self, key: String, value: String)
        ensures
            final(self)@ == old(self)@.insert(key@, value@),
    {
        dash_insert(&mut self.map, key, value);
    }

    /// The value of `key`, if it has one.
    pub fn get(&self, key: &str) -> (r: Option<String>)
        ensures
            match r {
                Some(v) => self@.contains_key(key@) && v@ == self@[key@],
                None => !self@.contains_key(key@),
            },
    {
        dash_get(&self.map, key)
    }

    /// Removes the entry of `key`; tells whether there was one.
    pub fn remove(&mut self, key: &str) -> (had: bool)
        ensures
            final(self)@ == old(self)@.remove(key@),
            had == old(self)@.contains_key(key@),
    {
        match dash_remove(&mut self.map, key) {
            Some(_) => true,
            None => false,
        }
    }

    /// The command that removing `key` logs: a remove is logged only for a
    /// key that has an entry.
    pub fn remove_command(&self, key: String) -> (c: Option<Command>)
        ensures
            match c {
                Some(cmd) => self@.contains_key(key@) && cmd@ == CommandView::Remove(key@),
                None => !self@.contains_key(key@),
            },
    {
        if dash_contains_key(&self.map, key.as_str()) {
            Some(Command::Remove(key))
        } else {
            None
        }
    }
}

/// A read gives back the last write: after setting `key` to `value` the key
/// reads `value`, after removing it the key reads nothing, and other keys
/// read as before.
pub proof fn law_read_gives_last_write(m: Map<Seq<char>, Seq<char>>, key: Seq<char>, value: Seq<char>, other: Seq<char>)
    requires
        other != key,
    ensures
        kv_apply(m, CommandView::Put(key, value)).contains_key(key),
        kv_apply(m, CommandView::Put(key, value))[key] == value,
        !kv_apply(m, CommandView::Remove(key)).contains_key(key),
        kv_apply(m, CommandView::Put(key, value)).contains_key(other) == m.contains_key(other),
        kv_apply(m, CommandView::Put(key, value))[other] == m[other],
        kv_apply(m, CommandView::Remove(key)).contains_key(other) == m.contains_key(other),
        kv_apply(m, CommandView::Remove(key))[other] == m[other],
{
}

/// Reopening a store gives back the store that wrote the log: logging a
/// command and then applying it to the replayed entries gives the entries
/// that the longer log replays to.
pub proof fn law_reopen_matches_live(cs: Seq<CommandView>, c: CommandView)
    ensures
        kv_replay(cs.push(c)) == kv_apply(kv_replay(cs), c),
{
    assert(cs.push(c).drop_last() =~= cs);
}

} // verus!
