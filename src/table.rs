use vstd::prelude::*;

use std::collections::HashMap;

use crate::key_index::{index_key, index_key_of, indexable, lemma_index_key_injective};
use crate::registry::Registry;
use crate::text::{
    chars_of, replace_char, replace_chars, replace_double_space, replace_double_spaces,
    string_of, trim, trim_chars,
};

verus! {

/// A record from the OUI database.
#[derive(Debug, Clone)]
pub struct OuiData {
    registry: Registry,
    oui: String,
    organization: String,
}

/// What a record holds: its registry, its assignment key and the name of the
/// organization it was assigned to.
pub struct OuiDataView {
    pub registry: Registry,
    pub oui: Seq<char>,
    pub organization: Seq<char>,
}

impl View for OuiData {
    type V = OuiDataView;

    closed spec fn view(&self) -> OuiDataView {
        OuiDataView { registry: self.registry, oui: self.oui@, organization: self.organization@ }
    }
}

impl OuiData {
    /// A record of the given registry, key and organization name.
    pub(crate) fn from_parts(registry: Registry, oui: String, organization: String) -> (r: OuiData)
        ensures
            r@ == (OuiDataView { registry, oui: oui@, organization: organization@ }),
    {
        OuiData { registry, oui, organization }
    }

    /// The registry for this record.
    pub fn registry(&self) -> (r: Registry)
        ensures
            r == self@.registry,
    {
        self.registry
    }

    /// The MAC address prefix for this record. This is an upper-case string
    /// like "000000", representing MAC addresses that are prefixed with
    /// "00:00:00".
    pub fn oui(&self) -> (r: &str)
        ensures
            r@ == self@.oui,
    {
        self.oui.as_str()
    }

    /// The name of the vendor associated with this record, in the
    /// normalized form that `clean_string` gives it.
    pub fn organization(&self) -> (r: &str)
        ensures
            r@ == self@.organization,
    {
        self.organization.as_str()
    }
}

/// The views of a sequence of records.
pub open spec fn views(v: Seq<OuiData>) -> Seq<OuiDataView> {
    v.map_values(|d: OuiData| d@)
}

/// The first record of `t` whose key is `key`.
pub open spec fn find(t: Seq<OuiDataView>, key: Seq<char>) -> Option<OuiDataView>
    decreases t.len(),
{
    if t.len() == 0 {
        None
    } else if t[0].oui == key {
        Some(t[0])
    } else {
        find(t.drop_first(), key)
    }
}

/// Whether some record of `t` has the key `key`.
pub open spec fn has_key(t: Seq<OuiDataView>, key: Seq<char>) -> bool {
    find(t, key) is Some
}

/// Whether no two records of `t` share a key.
pub open spec fn keys_unique(t: Seq<OuiDataView>) -> bool {
    forall|i: int, j: int| 0 <= i < j < t.len() ==> t[i].oui != t[j].oui
}

/// `find` is the first record with the key, and finds nothing exactly when
/// no record has it.
pub proof fn lemma_find(t: Seq<OuiDataView>, key: Seq<char>)
    ensures
        find(t, key) is None <==> forall|i: int| 0 <= i < t.len() ==> t[i].oui != key,
        find(t, key) is Some ==> exists|i: int|
            0 <= i < t.len() && t[i].oui == key && find(t, key) == Some(t[i]) && forall|j: int|
                0 <= j < i ==> t[j].oui != key,
    decreases t.len(),
{
    if t.len() > 0 {
        lemma_find(t.drop_first(), key);
        if t[0].oui != key {
            if find(t, key) is Some {
                let k = choose|k: int|
                    0 <= k < t.len() - 1 && t.drop_first()[k].oui == key && find(t, key) == Some(
                        t.drop_first()[k],
                    ) && forall|j: int| 0 <= j < k ==> t.drop_first()[j].oui != key;
                assert(t[k + 1] == t.drop_first()[k]);
                assert forall|j: int| 0 <= j < k + 1 implies t[j].oui != key by {
                    if j > 0 {
                        assert(t[j] == t.drop_first()[j - 1]);
                    }
                }
            } else {
                assert forall|i: int| 0 <= i < t.len() implies t[i].oui != key by {
                    if i > 0 {
                        assert(t[i] == t.drop_first()[i - 1]);
                    }
                }
            }
        }
    }
}

/// In a table whose keys are unique, the record found for a key is the one
/// record that holds it.
pub proof fn lemma_find_unique(t: Seq<OuiDataView>, i: int)
    requires
        keys_unique(t),
        0 <= i < t.len(),
    ensures
        find(t, t[i].oui) == Some(t[i]),
{
    lemma_find(t, t[i].oui);
}

/// A compiled table: records keyed by their assignment keys.
pub struct OuiDb {
    entries: Vec<OuiData>,
    /// Position in `entries` of each record whose key is indexable, by the
    /// key's number.
    index: HashMap<u64, usize>,
    /// Positions in `entries` of the records whose keys are not indexable.
    others: Vec<usize>,
}

impl View for OuiDb {
    type V = Seq<OuiDataView>;

    closed spec fn view(&self) -> Seq<OuiDataView> {
        views(self.entries@)
    }
}

/// The view of an optional record.
pub open spec fn view_opt(r: Option<&OuiData>) -> Option<OuiDataView> {
    match r {
        Some(d) => Some(d@),
        None => None,
    }
}

/// Whether the characters of `s` are those of `key`.
fn key_is(s: &str, key: &[char]) -> (r: bool)
    ensures
        r == (s@ == key@),
{
    let n = s.unicode_len();
    if n != key.len() {
        return false;
    }
    let mut j: usize = 0;
    while j < n
        invariant
            n == s@.len() == key@.len(),
            j <= n,
            forall|k: int| 0 <= k < j ==> s@[k] == key@[k],
        decreases n - j,
    {
        if s.get_char(j) != key[j] {
            return false;
        }
        j = j + 1;
    }
    assert(s@ =~= key@);
    true
}

impl OuiDb {
    /// Keys are unique within the table, and the index finds each record
    /// by its key.
    pub closed spec fn wf(&self) -> bool {
        let t = self@;
        &&& keys_unique(t)
        &&& forall|k: u64| #[trigger]
            self.index@.contains_key(k) ==> {
                let i = self.index@[k] as int;
                &&& 0 <= i < t.len()
                &&& indexable(t[i].oui)
                &&& index_key(t[i].oui) == k
            }
        &&& forall|i: int|
            0 <= i < t.len() && indexable(#[trigger] t[i].oui) ==> self.index@.contains_key(
                index_key(t[i].oui) as u64,
            )
        &&& forall|j: int|
            0 <= j < self.others@.len() ==> {
                let i = #[trigger] self.others@[j] as int;
                &&& 0 <= i < t.len()
                &&& !indexable(t[i].oui)
            }
        &&& forall|i: int|
            0 <= i < t.len() && !indexable(#[trigger] t[i].oui) ==> exists|j: int|
                0 <= j < self.others@.len() && self.others@[j] == i
    }

    /// A well-formed table has unique keys.
    pub proof fn lemma_wf_keys_unique(&self)
        requires
            self.wf(),
        ensures
            keys_unique(self@),
    {
    }

    /// An empty table.
    pub fn new() -> (r: OuiDb)
        ensures
            r@ == Seq::<OuiDataView>::empty(),
            r.wf(),
    {
        let r = OuiDb { entries: Vec::new(), index: HashMap::new(), others: Vec::new() };
        assert(r@ =~= Seq::<OuiDataView>::empty());
        r
    }

    /// Appends a record whose key is not in the table yet.
    pub(crate) fn push(&mut self, d: OuiData)
        requires
            old(self).wf(),
            !has_key(old(self)@, d@.oui),
        ensures
            final(self).wf(),
            final(self)@ == old(self)@.push(d@),
    {
        broadcast use vstd::std_specs::hash::group_hash_axioms;

        let ghost t0 = self@;
        proof {
            lemma_find(t0, d@.oui);
        }
        let pos = self.entries.len();
        let key = chars_of(d.oui.as_str());
        let slot = index_key_of(key.as_slice());
        self.entries.push(d);
        let ghost t = self@;
        assert(t =~= t0.push(d@));
        assert(t[pos as int] == d@);
        match slot {
            Some(k) => {
                self.index.insert(k, pos);
            },
            None => {
                self.others.push(pos);
            },
        }
        assert forall|k: u64| #[trigger] self.index@.contains_key(k) implies {
            let i = self.index@[k] as int;
            &&& 0 <= i < t.len()
            &&& indexable(t[i].oui)
            &&& index_key(t[i].oui) == k
        } by {
            if self.index@[k] != pos {
                assert(old(self).index@.contains_key(k));
            }
        }
        assert forall|i: int| 0 <= i < t.len() && indexable(#[trigger] t[i].oui) implies self.index@.contains_key(
            index_key(t[i].oui) as u64,
        ) by {
            if i < pos {
                assert(t[i] == t0[i]);
            }
        }
        assert forall|j: int| 0 <= j < self.others@.len() implies {
            let i = #[trigger] self.others@[j] as int;
            &&& 0 <= i < t.len()
            &&& !indexable(t[i].oui)
        } by {
            if j < old(self).others@.len() {
                assert(self.others@[j] == old(self).others@[j]);
                assert(t[self.others@[j] as int] == t0[self.others@[j] as int]);
            }
        }
        assert forall|i: int| 0 <= i < t.len() && !indexable(#[trigger] t[i].oui) implies exists|j: int|
            0 <= j < self.others@.len() && self.others@[j] == i by {
            if i < pos {
                assert(t[i] == t0[i]);
                let j = choose|j: int| 0 <= j < old(self).others@.len() && old(self).others@[j] == i;
                assert(self.others@[j] == i);
            } else {
                assert(self.others@[old(self).others@.len() as int] == i);
            }
        }
    }

    /// The number of records in the table.
    pub fn len(&self) -> (r: usize)
        ensures
            r == self@.len(),
    {
        self.entries.len()
    }

    /// Index of the record whose key is `key`.
    pub(crate) fn find_index(&self, key: &[char]) -> (r: Option<usize>)
        requires
            self.wf(),
        ensures
            match r {
                Some(i) => i < self@.len() && find(self@, key@) == Some(self@[i as int]),
                None => find(self@, key@) is None,
            },
    {
        broadcast use vstd::std_specs::hash::group_hash_axioms;

        let ghost t = self@;
        proof {
            lemma_find(t, key@);
        }
        match index_key_of(key) {
            Some(k) => {
                match self.index.get(&k) {
                    Some(i) => {
                        let i = *i;
                        proof {
                            lemma_index_key_injective(t[i as int].oui, key@);
                            lemma_find_unique(t, i as int);
                        }
                        Some(i)
                    },
                    None => {
                        assert forall|i: int| 0 <= i < t.len() implies t[i].oui != key@ by {
                            if t[i].oui == key@ {
                                assert(self.index@.contains_key(index_key(t[i].oui) as u64));
                            }
                        }
                        None
                    },
                }
            },
            None => {
                let mut j: usize = 0;
                while j < self.others.len()
                    invariant
                        self.wf(),
                        t == self@,
                        !indexable(key@),
                        j <= self.others@.len(),
                        forall|m: int| 0 <= m < j ==> t[self.others@[m] as int].oui != key@,
                    decreases self.others.len() - j,
                {
                    let i = self.others[j];
                    assert(self.others@[j as int] == i);
                    assert(t[i as int] == self.entries@[i as int]@);
                    if key_is(self.entries[i].oui.as_str(), key) {
                        proof {
                            lemma_find_unique(t, i as int);
                        }
                        return Some(i);
                    }
                    j = j + 1;
                }
                assert forall|i: int| 0 <= i < t.len() implies t[i].oui != key@ by {
                    if t[i].oui == key@ {
                        let m = choose|m: int| 0 <= m < self.others@.len() && self.others@[m] == i;
                        assert(t[self.others@[m] as int].oui != key@);
                    }
                }
                None
            },
        }
    }

    /// The record whose key is exactly `key`, if any.
    pub fn get(&self, key: &[char]) -> (r: Option<&OuiData>)
        requires
            self.wf(),
        ensures
            view_opt(r) == find(self@, key@),
    {
        match self.find_index(key) {
            Some(i) => {
                assert(self@[i as int] == self.entries@[i as int]@);
                Some(&self.entries[i])
            },
            None => None,
        }
    }
}

/// The normalized form of an organization name: non-breaking spaces become
/// spaces, backslashes and double quotes are escaped, line breaks and runs
/// of two spaces become the escaped line break `\n`, and leading and
/// trailing white space is removed.
pub open spec fn clean(s: Seq<char>) -> Seq<char> {
    let a = replace_char(s, '\u{A0}', seq![' ']);
    let b = replace_char(a, '\\', seq!['\\', '\\']);
    let c = replace_char(b, '\n', seq!['\\', 'n']);
    let d = replace_double_space(c);
    trim(replace_char(d, '"', seq!['\\', '"']))
}

/// Normalizes an organization name.
pub fn clean_string(s: &str) -> (r: String)
    ensures
        r@ == clean(s@),
{
    let space: [char; 1] = [' '];
    let backslash: [char; 2] = ['\\', '\\'];
    let newline: [char; 2] = ['\\', 'n'];
    let quote: [char; 2] = ['\\', '"'];
    assert(space@ =~= seq![' ']);
    assert(backslash@ =~= seq!['\\', '\\']);
    assert(newline@ =~= seq!['\\', 'n']);
    assert(quote@ =~= seq!['\\', '"']);
    let v = chars_of(s);
    let a = replace_chars(&v, '\u{A0}', &space);
    let b = replace_chars(&a, '\\', &backslash);
    let c = replace_chars(&b, '\n', &newline);
    let d = replace_double_spaces(&c);
    let e = replace_chars(&d, '"', &quote);
    let f = trim_chars(&e);
    string_of(&f)
}

} // verus!
