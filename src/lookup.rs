use vstd::prelude::*;

use crate::table::{find, view_opt, OuiData, OuiDataView, OuiDb};
use crate::text::{
    all_ascii, all_upper_hex, ascii_upper, ascii_upper_seq, chars_of, is_upper_hex, remove_colons,
    to_uppercase, upper_of, without_colons,
};

verus! {

/// Whether `c` is a hexadecimal digit, in either case.
pub open spec fn is_hex(c: char) -> bool {
    is_upper_hex(c) || ('a' <= c && c <= 'f')
}

/// Whether `s` is written in the characters of an address: hexadecimal
/// digits of either case, and colons.
pub open spec fn is_address_text(s: Seq<char>) -> bool {
    forall|i: int| 0 <= i < s.len() ==> is_hex(s[i]) || s[i] == ':'
}

/// The canonical form of an address: as it is when it is made of upper-case
/// hexadecimal digits alone, else upper-cased with its colons removed (the
/// upper case of ASCII text is that of its letters `a` to `z`).
pub open spec fn canonical(s: Seq<char>) -> Seq<char> {
    if all_upper_hex(s) {
        s
    } else if all_ascii(s) {
        without_colons(ascii_upper_seq(s))
    } else {
        without_colons(upper_of(s))
    }
}

/// The record of `t` whose key is the first `n` digits of `c`, if `c` has
/// that many.
pub open spec fn probe(t: Seq<OuiDataView>, c: Seq<char>, n: nat) -> Option<OuiDataView> {
    if c.len() >= n {
        find(t, c.take(n as int))
    } else {
        None
    }
}

/// The most specific record of `t` for the canonical address `c`: its
/// first nine digits are tried, then its first seven, then its first six.
pub open spec fn resolve(t: Seq<OuiDataView>, c: Seq<char>) -> Option<OuiDataView> {
    if probe(t, c, 9) is Some {
        probe(t, c, 9)
    } else if probe(t, c, 7) is Some {
        probe(t, c, 7)
    } else {
        probe(t, c, 6)
    }
}

/// The first `n` characters of `v`.
fn prefix(v: &Vec<char>, n: usize) -> (r: Vec<char>)
    requires
        n <= v.len(),
    ensures
        r@ == v@.take(n as int),
{
    let mut r: Vec<char> = Vec::new();
    let mut i: usize = 0;
    while i < n
        invariant
            n <= v.len(),
            i <= n,
            r@ == v@.take(i as int),
        decreases n - i,
    {
        r.push(v[i]);
        i = i + 1;
        assert(r@ =~= v@.take(i as int));
    }
    r
}

fn all_upper_hex_chars(s: &Vec<char>) -> (r: bool)
    ensures
        r == all_upper_hex(s@),
{
    let mut i: usize = 0;
    while i < s.len()
        invariant
            i <= s.len(),
            forall|k: int| 0 <= k < i ==> is_upper_hex(s@[k]),
        decreases s.len() - i,
    {
        let c = s[i];
        if !(('0' <= c && c <= '9') || ('A' <= c && c <= 'F')) {
            return false;
        }
        i = i + 1;
    }
    true
}

/// Looks up a canonical address: the record whose key is its first nine
/// digits, else its first seven, else its first six.
pub fn lookup_prefix<'a>(db: &'a OuiDb, mac: &Vec<char>) -> (r: Option<&'a OuiData>)
    requires
        db.wf(),
    ensures
        view_opt(r) == resolve(db@, mac@),
{
    if mac.len() >= 9 {
        let key = prefix(mac, 9);
        let r = db.get(key.as_slice());
        if r.is_some() {
            return r;
        }
    }
    if mac.len() >= 7 {
        let key = prefix(mac, 7);
        let r = db.get(key.as_slice());
        if r.is_some() {
            return r;
        }
    }
    if mac.len() >= 6 {
        let key = prefix(mac, 6);
        return db.get(key.as_slice());
    }
    None
}

/// Retrieves the record for a MAC address, written as colon-separated
/// octets in either case ("50:a6:d8:00:00:00") or as bare upper-case
/// hexadecimal digits ("50A6D8000000"), in full or as a prefix of at least
/// six digits. Nothing is found for shorter addresses or unknown prefixes.
pub fn lookup<'a>(db: &'a OuiDb, mac: &str) -> (r: Option<&'a OuiData>)
    requires
        db.wf(),
    ensures
        view_opt(r) == resolve(db@, canonical(mac@)),
{
    let chars = chars_of(mac);
    if all_upper_hex_chars(&chars) {
        return lookup_prefix(db, &chars);
    }
    let upper = to_uppercase(mac);
    let canon = remove_colons(&chars_of(upper.as_str()));
    lookup_prefix(db, &canon)
}

/// A string without colons is its own `without_colons`.
proof fn lemma_without_colons_none(s: Seq<char>)
    requires
        forall|i: int| 0 <= i < s.len() ==> s[i] != ':',
    ensures
        without_colons(s) == s,
    decreases s.len(),
{
    if s.len() > 0 {
        lemma_without_colons_none(s.drop_last());
        assert(s.drop_last().push(s.last()) =~= s);
    }
}

/// Removing colons and upper-casing ASCII letters may be done in either
/// order.
proof fn lemma_upper_without_colons(s: Seq<char>)
    ensures
        without_colons(ascii_upper_seq(s)) == ascii_upper_seq(without_colons(s)),
    decreases s.len(),
{
    if s.len() > 0 {
        lemma_upper_without_colons(s.drop_last());
        assert(ascii_upper_seq(s).drop_last() =~= ascii_upper_seq(s.drop_last()));
        let w = without_colons(s.drop_last());
        assert(ascii_upper_seq(w.push(s.last())) =~= ascii_upper_seq(w).push(
            ascii_upper(s.last()),
        ));
    }
}

/// The canonical form of address text is its digits in upper case.
pub proof fn lemma_canonical_of_address_text(s: Seq<char>)
    requires
        is_address_text(s),
    ensures
        canonical(s) == ascii_upper_seq(without_colons(s)),
{
    if all_upper_hex(s) {
        lemma_without_colons_none(s);
        assert(ascii_upper_seq(s) =~= s);
    } else {
        assert(all_ascii(s));
        lemma_upper_without_colons(s);
    }
}

/// Every textual form of an address (colon-separated or bare, in upper or
/// lower case) resolves to one and the same record: where the address's
/// prefix stands in the table at exactly one of the three key lengths, each
/// form resolves to that record.
pub proof fn lemma_forms_resolve_to_the_one_record(
    t: Seq<OuiDataView>,
    addr: Seq<char>,
    form: Seq<char>,
    rec: OuiDataView,
)
    requires
        all_upper_hex(addr),
        is_address_text(form),
        ascii_upper_seq(without_colons(form)) == addr,
        (probe(t, addr, 9) == Some(rec) && probe(t, addr, 7) is None && probe(t, addr, 6) is None)
            || (probe(t, addr, 9) is None && probe(t, addr, 7) == Some(rec) && probe(t, addr, 6) is None)
            || (probe(t, addr, 9) is None && probe(t, addr, 7) is None && probe(t, addr, 6) == Some(rec)),
    ensures
        resolve(t, canonical(form)) == Some(rec),
        resolve(t, canonical(addr)) == Some(rec),
{
    lemma_canonical_of_address_text(form);
}

/// When an address's first nine digits name no record and its first seven
/// do, the seven-digit record is found, never a coarser six-digit one.
pub proof fn lemma_seven_digit_match_wins(t: Seq<OuiDataView>, mac: Seq<char>, rec: OuiDataView)
    requires
        probe(t, canonical(mac), 9) is None,
        canonical(mac).len() >= 7,
        find(t, canonical(mac).take(7)) == Some(rec),
    ensures
        resolve(t, canonical(mac)) == Some(rec),
{
}

/// An address of fewer than six hexadecimal digits finds nothing, whatever
/// its digits.
pub proof fn lemma_short_address_finds_nothing(t: Seq<OuiDataView>, mac: Seq<char>)
    requires
        is_address_text(mac),
        without_colons(mac).len() < 6,
    ensures
        resolve(t, canonical(mac)) is None,
{
    lemma_canonical_of_address_text(mac);
}

/// Two forms of an address that differ only in colons and in the case of
/// their letters have the same canonical form, and so resolve alike.
pub proof fn lemma_colons_and_case_do_not_matter(t: Seq<OuiDataView>, a: Seq<char>, b: Seq<char>)
    requires
        is_address_text(a),
        is_address_text(b),
        ascii_upper_seq(without_colons(a)) == ascii_upper_seq(without_colons(b)),
    ensures
        canonical(a) == canonical(b),
        resolve(t, canonical(a)) == resolve(t, canonical(b)),
{
    lemma_canonical_of_address_text(a);
    lemma_canonical_of_address_text(b);
}

} // verus!
