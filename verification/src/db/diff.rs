use std::collections::HashMap;
use vstd::prelude::*;
use vstd::std_specs::cmp::PartialEqSpecImpl;
use vstd::std_specs::iter::IteratorSpec;

verus! {

broadcast use vstd::std_specs::hash::group_hash_axioms;

/// What the emoji cache compares of a guild emoji.
pub struct EmojiInfo {
    pub animated: bool,
    pub id: u64,
    pub name: String,
    pub managed: bool,
    pub require_colons: bool,
    pub roles: Vec<u64>,
}

/// The mathematical value of an emoji.
pub struct EmojiView {
    pub animated: bool,
    pub id: u64,
    pub name: Seq<char>,
    pub managed: bool,
    pub require_colons: bool,
    pub roles: Seq<u64>,
}

impl View for EmojiInfo {
    type V = EmojiView;

    open spec fn view(&self) -> EmojiView {
        EmojiView {
            animated: self.animated,
            id: self.id,
            name: self.name@,
            managed: self.managed,
            require_colons: self.require_colons,
            roles: self.roles@,
        }
    }
}

impl EmojiInfo {
    /// Whether two emojis agree in every field.
    pub fn same_as(&self, other: &EmojiInfo) -> (r: bool)
        ensures
            r == (self@ == other@),
    {
        if self.animated != other.animated {
            return false;
        }
        if self.id != other.id {
            return false;
        }
        if self.name != other.name {
            return false;
        }
        if self.managed != other.managed {
            return false;
        }
        if self.require_colons != other.require_colons {
            return false;
        }
        if self.roles.len() != other.roles.len() {
            return false;
        }
        let mut i: usize = 0;
        while i < self.roles.len()
            invariant
                i <= self.roles@.len(),
                self.roles@.len() == other.roles@.len(),
                forall|j: int| 0 <= j < i ==> self.roles@[j] == other.roles@[j],
            decreases self.roles@.len() - i,
        {
            if self.roles[i] != other.roles[i] {
                return false;
            }
            i = i + 1;
        }
        assert(self.roles@ =~= other.roles@);
        true
    }

    /// A copy of this emoji.
    pub fn duplicate(&self) -> (r: EmojiInfo)
        ensures
            r@ == self@,
    {
        let roles = self.roles.clone();
        assert(roles@ =~= self.roles@);
        EmojiInfo {
            animated: self.animated,
            id: self.id,
            name: self.name.clone(),
            managed: self.managed,
            require_colons: self.require_colons,
            roles,
        }
    }
}

impl Clone for EmojiInfo {
    fn clone(&self) -> (r: Self)
        ensures
            r@ == self@,
    {
        self.duplicate()
    }
}

impl PartialEq for EmojiInfo {
    fn eq(&self, other: &Self) -> (r: bool) {
        self.same_as(other)
    }
}

impl PartialEqSpecImpl for EmojiInfo {
    open spec fn obeys_eq_spec() -> bool {
        true
    }

    open spec fn eq_spec(&self, other: &EmojiInfo) -> bool {
        self@ == other@
    }
}

impl Eq for EmojiInfo {
}

/// A value before and after a change.
pub struct SimpleChange<T> {
    pub previous_value: T,
    pub current_value: T,
}

/// What changed between two versions of a collection.
pub struct CollectionDiffChange<K, V> {
    pub added: HashMap<K, V>,
    pub removed: HashMap<K, V>,
    pub changed: HashMap<K, SimpleChange<V>>,
}

/// The keys of a map.
fn keys_of<V>(m: &HashMap<u64, V>) -> (keys: Vec<u64>)
    ensures
        keys@.to_set() == m@.dom(),
        keys@.no_duplicates(),
{
    let ghost ks = vstd::std_specs::hash::spec_keys_iter(m).remaining().unref();
    let mut keys: Vec<u64> = Vec::new();
    for k in it: m.keys()
        invariant
            it.seq() == vstd::std_specs::hash::spec_keys_iter(m).remaining(),
            ks == it.seq().unref(),
            keys@.len() == it.index(),
            forall|i: int| 0 <= i < it.index() ==> keys@[i] == ks[i],
    {
        keys.push(*k);
    }
    assert(keys@.len() == ks.len());
    assert(keys@ =~= ks);
    keys
}

/// The emojis added, removed and changed between `before` and `after`.
pub fn diff(before: &HashMap<u64, EmojiInfo>, after: &HashMap<u64, EmojiInfo>) -> (r:
    CollectionDiffChange<u64, EmojiInfo>)
    ensures
        r.added@.dom() == after@.dom().difference(before@.dom()),
        forall|k: u64| #[trigger] r.added@.contains_key(k) ==> r.added@[k]@ == after@[k]@,
        r.removed@.dom() == before@.dom().difference(after@.dom()),
        forall|k: u64| #[trigger] r.removed@.contains_key(k) ==> r.removed@[k]@ == before@[k]@,
        forall|k: u64| #[trigger]
            r.changed@.contains_key(k) <==> (before@.contains_key(k) && after@.contains_key(k)
                && before@[k]@ != after@[k]@),
        forall|k: u64| #[trigger]
            r.changed@.contains_key(k) ==> r.changed@[k].previous_value@ == before@[k]@
                && r.changed@[k].current_value@ == after@[k]@,
{
    let mut added: HashMap<u64, EmojiInfo> = HashMap::new();
    let mut removed: HashMap<u64, EmojiInfo> = HashMap::new();
    let mut changed: HashMap<u64, SimpleChange<EmojiInfo>> = HashMap::new();
    let keys = keys_of(before);
    let mut i: usize = 0;
    while i < keys.len()
        invariant
            i <= keys@.len(),
            keys@.to_set() == before@.dom(),
            forall|k: u64| #[trigger]
                removed@.contains_key(k) <==> (keys@.take(i as int).contains(k)
                    && !after@.contains_key(k)),
            forall|k: u64| #[trigger] removed@.contains_key(k) ==> removed@[k]@ == before@[k]@,
            forall|k: u64| #[trigger]
                changed@.contains_key(k) <==> (keys@.take(i as int).contains(k)
                    && after@.contains_key(k) && before@[k]@ != after@[k]@),
            forall|k: u64| #[trigger]
                changed@.contains_key(k) ==> changed@[k].previous_value@ == before@[k]@
                    && changed@[k].current_value@ == after@[k]@,
        decreases keys@.len() - i,
    {
        let k = keys[i];
        let ghost done = keys@.take(i as int);
        proof {
            assert(keys@.take(i + 1) =~= done.push(k));
            assert(keys@.to_set().contains(k));
            assert forall|k2: u64| #[trigger] keys@.take(i + 1).contains(k2) <==> (done.contains(k2)
                || k2 == k) by {
                if keys@.take(i + 1).contains(k2) {
                    let j = choose|j: int| 0 <= j < i + 1 && #[trigger] keys@.take(i + 1)[j] == k2;
                    if j < i {
                        assert(done[j] == k2);
                    }
                }
                if done.contains(k2) {
                    let j = choose|j: int| 0 <= j < i && done[j] == k2;
                    assert(keys@.take(i + 1)[j] == k2);
                }
                if k2 == k {
                    assert(keys@.take(i + 1)[i as int] == k2);
                }
            }
        }
        let prev = before.get(&k).unwrap();
        match after.get(&k) {
            None => {
                removed.insert(k, prev.duplicate());
            },
            Some(new) => {
                if prev != new {
                    changed.insert(
                        k,
                        SimpleChange { previous_value: prev.duplicate(), current_value: new.duplicate() },
                    );
                }
            },
        }
        i = i + 1;
    }
    assert(keys@.take(keys@.len() as int) =~= keys@);
    let akeys = keys_of(after);
    let mut j: usize = 0;
    while j < akeys.len()
        invariant
            j <= akeys@.len(),
            akeys@.to_set() == after@.dom(),
            forall|k: u64| #[trigger]
                added@.contains_key(k) <==> (akeys@.take(j as int).contains(k)
                    && !before@.contains_key(k)),
            forall|k: u64| #[trigger] added@.contains_key(k) ==> added@[k]@ == after@[k]@,
        decreases akeys@.len() - j,
    {
        let k = akeys[j];
        let ghost done = akeys@.take(j as int);
        proof {
            assert(akeys@.to_set().contains(k));
            assert forall|k2: u64| #[trigger] akeys@.take(j + 1).contains(k2) <==> (done.contains(
                k2,
            ) || k2 == k) by {
                if akeys@.take(j + 1).contains(k2) {
                    let x = choose|x: int| 0 <= x < j + 1 && #[trigger] akeys@.take(j + 1)[x] == k2;
                    if x < j {
                        assert(done[x] == k2);
                    }
                }
                if done.contains(k2) {
                    let x = choose|x: int| 0 <= x < j && done[x] == k2;
                    assert(akeys@.take(j + 1)[x] == k2);
                }
                if k2 == k {
                    assert(akeys@.take(j + 1)[j as int] == k2);
                }
            }
        }
        if !before.contains_key(&k) {
            let new = after.get(&k).unwrap();
            added.insert(k, new.duplicate());
        }
        j = j + 1;
    }
    proof {
        assert(akeys@.take(akeys@.len() as int) =~= akeys@);
        assert forall|k: u64| keys@.contains(k) <==> before@.contains_key(k) by {
            assert(keys@.to_set().contains(k) <==> keys@.contains(k));
        }
        assert forall|k: u64| akeys@.contains(k) <==> after@.contains_key(k) by {
            assert(akeys@.to_set().contains(k) <==> akeys@.contains(k));
        }
        assert(added@.dom() =~= after@.dom().difference(before@.dom()));
        assert(removed@.dom() =~= before@.dom().difference(after@.dom()));
    }
    CollectionDiffChange { added, removed, changed }
}

} // verus!
