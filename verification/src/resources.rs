use lopdf::Dictionary;
use vstd::prelude::*;
use vstd::string::StringSliceAdditionalSpecFns;

use crate::text::bytes_equal;

verus! {

/// A PDF dictionary of the `lopdf` crate, carried through as it is.
#[verifier::external_type_specification]
#[verifier::external_body]
pub struct ExDictionary(lopdf::Dictionary);

/// The `XObject` entries of a resource dictionary, in order, each with
/// the object it refers to when it is a reference: `Some` when the
/// resource dictionary has no `XObject` entry (no entries) or has a
/// dictionary there; `None` when it has something else there.
pub uninterp spec fn xobject_entries(d: Dictionary) -> Option<Seq<(Seq<u8>, Option<(u32, u16)>)>>;

/// `entries` after setting `key` to `value` in a `lopdf` dictionary: an
/// entry under that key is removed, and the new entry goes last.
pub open spec fn entries_set<V>(entries: Seq<(Seq<u8>, V)>, key: Seq<u8>, value: V) -> Seq<(Seq<u8>, V)> {
    entries.filter(|e: (Seq<u8>, V)| e.0 != key).push((key, value))
}

/// The names of the `XObject` entries of a resource dictionary, in order
/// (none when its `XObject` entry is missing or not a dictionary), read
/// with `Dictionary::get`, `Object::as_dict` and `Dictionary::iter`.
#[verifier::external_body]
fn read_xobject_names(d: &Dictionary) -> (r: Vec<Vec<u8>>)
    ensures
        r@.map_values(|k: Vec<u8>| k@) == match xobject_entries(*d) {
            Some(es) => es.map_values(|e: (Seq<u8>, Option<(u32, u16)>)| e.0),
            None => Seq::empty(),
        },
{
    match d.get(b"XObject") {
        Ok(o) => match o.as_dict() {
            Ok(x) => x.iter().map(|(k, _)| k.clone()).collect(),
            Err(_) => Vec::new(),
        },
        Err(_) => Vec::new(),
    }
}

/// The keys of a resource dictionary's entries, in order.
pub uninterp spec fn resource_keys(d: Dictionary) -> Seq<Seq<u8>>;

/// The key `XObject`.
pub open spec fn xobject_key() -> Seq<u8> {
    seq![88u8, 79, 98, 106, 101, 99, 116]
}

/// Whether a resource dictionary has an `XObject` entry at all.
pub open spec fn has_xobject_key(d: Dictionary) -> bool {
    resource_keys(d).contains(xobject_key())
}

/// What a resource dictionary holds under `XObject`.
pub enum XObjectEntry {
    /// No `XObject` entry.
    Missing,
    /// A dictionary.
    Dict,
    /// Something other than a dictionary.
    Other,
}

/// What a resource dictionary holds under `XObject`, read with
/// `Dictionary::get` and `Object::as_dict`.
#[verifier::external_body]
fn xobject_state(d: &Dictionary) -> (r: XObjectEntry)
    ensures
        match r {
            XObjectEntry::Missing => !has_xobject_key(*d) && xobject_entries(*d) == Some(
                Seq::<(Seq<u8>, Option<(u32, u16)>)>::empty(),
            ),
            XObjectEntry::Dict => has_xobject_key(*d) && xobject_entries(*d) is Some,
            XObjectEntry::Other => has_xobject_key(*d) && xobject_entries(*d) is None,
        },
{
    match d.get(b"XObject") {
        Ok(o) => match o.as_dict() {
            Ok(_) => XObjectEntry::Dict,
            Err(_) => XObjectEntry::Other,
        },
        Err(_) => XObjectEntry::Missing,
    }
}

/// Sets the `XObject` entry of a resource dictionary to an empty
/// dictionary with `Dictionary::set`: an entry under that key is removed
/// and the new one goes last. The values of the other entries are not
/// stated.
#[verifier::external_body]
fn insert_empty_xobject(d: &mut Dictionary)
    ensures
        resource_keys(*final(d)) == if has_xobject_key(*old(d)) {
            resource_keys(*old(d)).filter(|k: Seq<u8>| k != xobject_key()).push(xobject_key())
        } else {
            resource_keys(*old(d)).push(xobject_key())
        },
        xobject_entries(*final(d)) == Some(Seq::<(Seq<u8>, Option<(u32, u16)>)>::empty()),
{
    d.set("XObject", Dictionary::new());
}

/// Sets entry `name` of the `XObject` dictionary of a resource dictionary
/// to a reference to object `id` (`Dictionary::get_mut`,
/// `Object::as_dict_mut`, `Dictionary::set`); nothing changes when there is
/// no `XObject` entry or it is not a dictionary. The resource
/// dictionary's keys stay as they are; the values of its other entries are
/// not stated.
#[verifier::external_body]
fn set_in_xobject(d: &mut Dictionary, name: &Vec<u8>, id: (u32, u16))
    ensures
        resource_keys(*final(d)) == resource_keys(*old(d)),
        xobject_entries(*final(d)) == if has_xobject_key(*old(d)) {
            match xobject_entries(*old(d)) {
                Some(es) => Some(entries_set(es, name@, Some(id))),
                None => None::<Seq<(Seq<u8>, Option<(u32, u16)>)>>,
            }
        } else {
            xobject_entries(*old(d))
        },
{
    if let Ok(xobj) = d.get_mut(b"XObject") {
        if let Ok(xdict) = xobj.as_dict_mut() {
            xdict.set(name.clone(), lopdf::Object::Reference(id));
        }
    }
}

/// Enters `name` as a reference to object `id` in the `XObject` dictionary
/// of a resource dictionary, first creating an empty one when there is no
/// `XObject` entry; when the entry is something other than a dictionary,
/// nothing is entered.
fn set_xobject_reference(d: &mut Dictionary, name: &Vec<u8>, id: (u32, u16))
    ensures
        xobject_entries(*final(d)) == match xobject_entries(*old(d)) {
            Some(es) => Some(entries_set(es, name@, Some(id))),
            None => None::<Seq<(Seq<u8>, Option<(u32, u16)>)>>,
        },
        resource_keys(*final(d)) == if has_xobject_key(*old(d)) {
            resource_keys(*old(d))
        } else {
            resource_keys(*old(d)).push(xobject_key())
        },
{
    match xobject_state(d) {
        XObjectEntry::Missing => {
            insert_empty_xobject(d);
            proof {
                let ks = resource_keys(*d);
                assert(ks[ks.len() - 1] == xobject_key());
            }
        },
        _ => {},
    }
    set_in_xobject(d, name, id);
}

/// Decimal digits of `n`, most significant first, as ASCII bytes.
pub open spec fn decimal(n: nat) -> Seq<u8>
    decreases n,
{
    if n < 10 {
        seq![(48 + n) as u8]
    } else {
        decimal(n / 10).push((48 + n % 10) as u8)
    }
}

/// The name given to the `counter`-th added XObject: `XMask` and the
/// counter in decimal.
pub open spec fn xmask_name(counter: nat) -> Seq<u8> {
    "XMask".spec_bytes() + decimal(counter)
}

/// Appends the decimal digits of `n` to `out`.
fn push_decimal(out: &mut Vec<u8>, n: u32)
    ensures
        final(out)@ == old(out)@ + decimal(n as nat),
    decreases n,
{
    if n >= 10 {
        push_decimal(out, n / 10);
    }
    let digit: u8 = (n % 10) as u8;
    out.push(48 + digit);
    assert(final(out)@ =~= old(out)@ + decimal(n as nat));
}

/// The name `XMask` followed by `counter` in decimal.
pub fn xmask_name_bytes(counter: u32) -> (r: Vec<u8>)
    ensures
        r@ == xmask_name(counter as nat),
{
    let mut out: Vec<u8> = Vec::new();
    let prefix = "XMask".as_bytes();
    let mut i: usize = 0;
    while i < prefix.len()
        invariant
            i <= prefix@.len(),
            prefix@ == "XMask".spec_bytes(),
            out@ == prefix@.take(i as int),
        decreases prefix.len() - i,
    {
        out.push(prefix[i]);
        i = i + 1;
        assert(out@ =~= prefix@.take(i as int));
    }
    assert(prefix@.take(prefix@.len() as int) =~= prefix@);
    push_decimal(&mut out, counter);
    out
}

/// Decimal digits: at least one, and at least two from 10 on.
proof fn lemma_decimal_len(n: nat)
    ensures
        decimal(n).len() >= 1,
        n >= 10 ==> decimal(n).len() >= 2,
    decreases n,
{
    if n >= 10 {
        lemma_decimal_len(n / 10);
    }
}

/// Different numbers have different decimal digits.
proof fn lemma_decimal_injective(a: nat, b: nat)
    requires
        decimal(a) == decimal(b),
    ensures
        a == b,
    decreases a + b,
{
    lemma_decimal_len(a);
    lemma_decimal_len(b);
    if a < 10 && b < 10 {
        assert(decimal(a)[0] == decimal(b)[0]);
        assert(decimal(a)[0] == (48 + a) as u8);
        assert(decimal(b)[0] == (48 + b) as u8);
    } else if a < 10 {
        assert(decimal(a).len() == 1);
        assert(decimal(b).len() >= 2);
    } else if b < 10 {
        assert(decimal(b).len() == 1);
        assert(decimal(a).len() >= 2);
    } else {
        assert(decimal(a).last() == decimal(b).last());
        assert(decimal(a).last() == (48 + a % 10) as u8);
        assert(decimal(b).last() == (48 + b % 10) as u8);
        assert(a % 10 == b % 10);
        assert(decimal(a).drop_last() =~= decimal(a / 10));
        assert(decimal(b).drop_last() =~= decimal(b / 10));
        lemma_decimal_injective(a / 10, b / 10);
        assert(a == (a / 10) * 10 + a % 10);
        assert(b == (b / 10) * 10 + b % 10);
    }
}

/// Every counter value gives its own XObject name.
pub proof fn law_xmask_names_distinct(a: nat, b: nat)
    requires
        a != b,
    ensures
        xmask_name(a) != xmask_name(b),
{
    if xmask_name(a) == xmask_name(b) {
        let p = "XMask".spec_bytes();
        assert(xmask_name(a).subrange(p.len() as int, xmask_name(a).len() as int) =~= decimal(a));
        assert(xmask_name(b).subrange(p.len() as int, xmask_name(b).len() as int) =~= decimal(b));
        lemma_decimal_injective(a, b);
    }
}

/// The names of the counter values `counter + 1 ..= counter + k`.
pub open spec fn names_after(counter: int, k: nat) -> Set<Seq<u8>>
    decreases k,
{
    if k == 0 {
        Set::empty()
    } else {
        names_after(counter, (k - 1) as nat).insert(xmask_name((counter + k) as nat))
    }
}

proof fn lemma_names_after(counter: nat, k: nat)
    ensures
        names_after(counter as int, k).finite(),
        names_after(counter as int, k).len() == k,
        forall|s: Seq<u8>|
            #[trigger] names_after(counter as int, k).contains(s) ==> exists|c: nat|
                counter < c <= counter + k && s == xmask_name(c),
    decreases k,
{
    if k > 0 {
        lemma_names_after(counter, (k - 1) as nat);
        let new_name = xmask_name(counter + k);
        if names_after(counter as int, (k - 1) as nat).contains(new_name) {
            let c = choose|c: nat| counter < c <= counter + (k - 1) && new_name == xmask_name(c);
            law_xmask_names_distinct(c, counter + k);
        }
    }
}

/// A free name is always found while fewer names are in use than
/// counter values remain: some value above the counter gives a name not
/// in use.
pub proof fn law_free_name_exists(counter: u32, names: Set<Seq<u8>>)
    requires
        names.finite(),
        counter + names.len() < u32::MAX,
    ensures
        exists|c: u32| c > counter && !names.contains(xmask_name(c as nat)),
{
    let k = (names.len() + 1) as nat;
    lemma_names_after(counter as nat, k);
    let range = names_after(counter as int, k);
    if forall|c: u32| c > counter ==> names.contains(xmask_name(c as nat)) {
        assert forall|s: Seq<u8>| range.contains(s) implies names.contains(s) by {
            let c = choose|c: nat| counter < c <= counter + k && s == xmask_name(c);
            let cu = c as u32;
            assert(names.contains(xmask_name(cu as nat)));
        }
        vstd::set_lib::lemma_len_subset(range, names);
        assert(false);
    }
}

/// Whether `names` holds `name`.
fn holds_name(names: &Vec<Vec<u8>>, name: &Vec<u8>) -> (r: bool)
    ensures
        r == exists|i: int| 0 <= i < names@.len() && names@[i]@ == name@,
{
    let mut i: usize = 0;
    while i < names.len()
        invariant
            i <= names@.len(),
            forall|j: int| 0 <= j < i ==> names@[j]@ != name@,
        decreases names.len() - i,
    {
        if bytes_equal(names[i].as_slice(), name.as_slice()) {
            return true;
        }
        i = i + 1;
    }
    false
}

/// The resources of a content stream being rewritten: the resource
/// dictionary, the XObject names in use, and how many names have been
/// tried for new XObjects.
pub struct ResourceState {
    dict: Dictionary,
    xobject_names: Vec<Vec<u8>>,
    counter: u32,
}

impl ResourceState {
    /// The XObject names in use.
    pub closed spec fn names(&self) -> Set<Seq<u8>> {
        Set::new(|s: Seq<u8>| exists|i: int| 0 <= i < self.xobject_names@.len() && self.xobject_names@[i]@ == s)
    }

    /// The resource dictionary.
    pub closed spec fn dictionary(&self) -> Dictionary {
        self.dict
    }

    /// The resource dictionary.
    pub fn dict(&self) -> (r: &Dictionary)
        ensures
            *r == self.dictionary(),
    {
        &self.dict
    }

    /// Gives up the state for its resource dictionary.
    pub fn into_dict(self) -> (r: Dictionary)
        ensures
            r == self.dictionary(),
    {
        self.dict
    }

    /// How many names have been tried for new XObjects.
    pub closed spec fn counter(&self) -> u32 {
        self.counter
    }

    /// Starts from a resource dictionary: its XObject names are in use.
    pub fn new(dict: Dictionary) -> (r: ResourceState)
        ensures
            r.dictionary() == dict,
            r.counter() == 0,
            r.names() == match xobject_entries(dict) {
                Some(es) => es.map_values(|e: (Seq<u8>, Option<(u32, u16)>)| e.0).to_set(),
                None => Set::empty(),
            },
    {
        let names = read_xobject_names(&dict);
        let r = ResourceState { dict, xobject_names: names, counter: 0 };
        proof {
            let keys = names@.map_values(|k: Vec<u8>| k@);
            assert forall|s: Seq<u8>| r.names().contains(s) <==> keys.to_set().contains(s) by {
                if r.names().contains(s) {
                    let i = choose|i: int| 0 <= i < names@.len() && names@[i]@ == s;
                    assert(keys[i] == s);
                }
                if keys.to_set().contains(s) {
                    let i = choose|i: int| 0 <= i < keys.len() && keys[i] == s;
                    assert(names@[i]@ == s);
                }
            }
            assert(r.names() =~= keys.to_set());
        }
        r
    }

    /// Looks for the next unused name `XMask<n>`, for the least `n` above
    /// the counter whose name is not in use, and marks it in use; `None`
    /// (and the counter at its limit) when every such name is in use.
    pub fn try_next_xobject_name(&mut self) -> (r: Option<Vec<u8>>)
        ensures
            final(self).dictionary() == old(self).dictionary(),
            match r {
                Some(name) => {
                    &&& final(self).counter() > old(self).counter()
                    &&& name@ == xmask_name(final(self).counter() as nat)
                    &&& !old(self).names().contains(name@)
                    &&& forall|c: u32|
                        old(self).counter() < c < final(self).counter() ==> old(self).names().contains(
                            xmask_name(c as nat),
                        )
                    &&& final(self).names() == old(self).names().insert(name@)
                },
                None => {
                    &&& final(self).names() == old(self).names()
                    &&& forall|c: u32| c > old(self).counter() ==> old(self).names().contains(
                        xmask_name(c as nat),
                    )
                },
            },
    {
        let ghost start = self.counter;
        loop
            invariant
                start <= self.counter,
                self.names() == old(self).names(),
                self.dict == old(self).dict,
                start == old(self).counter(),
                forall|c: u32| start < c <= self.counter ==> self.names().contains(xmask_name(c as nat)),
            decreases u32::MAX - self.counter,
        {
            if self.counter == u32::MAX {
                return None;
            }
            self.counter = self.counter + 1;
            let name = xmask_name_bytes(self.counter);
            if !holds_name(&self.xobject_names, &name) {
                let ghost before = self.names();
                let ghost old_names = self.xobject_names@;
                self.xobject_names.push(name.clone());
                proof {
                    assert(self.xobject_names@.last()@ == name@);
                    assert forall|s: Seq<u8>| self.names().contains(s) <==> before.insert(name@).contains(s) by {
                        if self.names().contains(s) {
                            let i = choose|i: int| 0 <= i < self.xobject_names@.len() && self.xobject_names@[i]@ == s;
                            if i < self.xobject_names@.len() - 1 {
                                assert(old_names[i] == self.xobject_names@[i]);
                                assert(before.contains(s));
                            }
                        }
                        if before.contains(s) && s != name@ {
                            let i = choose|i: int| 0 <= i < old_names.len() && old_names[i]@ == s;
                            assert(self.xobject_names@[i] == old_names[i]);
                        }
                    }
                    assert(self.names() =~= before.insert(name@));
                }
                return Some(name);
            }
        }
    }

    /// Gives the next unused name `XMask<n>`, for the least `n` above
    /// the counter whose name is not in use, and marks it in use.
    pub fn next_xobject_name(&mut self) -> (r: Vec<u8>)
        requires
            exists|c: u32| c > old(self).counter() && !old(self).names().contains(xmask_name(c as nat)),
        ensures
            final(self).counter() > old(self).counter(),
            r@ == xmask_name(final(self).counter() as nat),
            !old(self).names().contains(r@),
            forall|c: u32|
                old(self).counter() < c < final(self).counter() ==> old(self).names().contains(
                    xmask_name(c as nat),
                ),
            final(self).names() == old(self).names().insert(r@),
            final(self).dictionary() == old(self).dictionary(),
    {
        match self.try_next_xobject_name() {
            Some(name) => name,
            None => {
                assert(false);
                Vec::new()
            },
        }
    }

    /// Enters object `id` under a new XObject name (see
    /// `next_xobject_name`) in the resource dictionary, and gives the name.
    pub fn add_xobject(&mut self, id: (u32, u16)) -> (r: Vec<u8>)
        requires
            exists|c: u32| c > old(self).counter() && !old(self).names().contains(xmask_name(c as nat)),
        ensures
            final(self).counter() > old(self).counter(),
            r@ == xmask_name(final(self).counter() as nat),
            !old(self).names().contains(r@),
            forall|c: u32|
                old(self).counter() < c < final(self).counter() ==> old(self).names().contains(
                    xmask_name(c as nat),
                ),
            final(self).names() == old(self).names().insert(r@),
            xobject_entries(final(self).dictionary()) == match xobject_entries(old(self).dictionary()) {
                Some(es) => Some(entries_set(es, r@, Some(id))),
                None => None::<Seq<(Seq<u8>, Option<(u32, u16)>)>>,
            },
            resource_keys(final(self).dictionary()) == if has_xobject_key(old(self).dictionary()) {
                resource_keys(old(self).dictionary())
            } else {
                resource_keys(old(self).dictionary()).push(xobject_key())
            },
    {
        let name = self.next_xobject_name();
        set_xobject_reference(&mut self.dict, &name, id);
        name
    }

    /// Enters object `id` under a new XObject name (see
    /// `try_next_xobject_name`) in the resource dictionary, and gives the
    /// name; `None`, with nothing entered, when every name above the
    /// counter is in use.
    pub fn try_add_xobject(&mut self, id: (u32, u16)) -> (r: Option<Vec<u8>>)
        ensures
            match r {
                Some(name) => {
                    &&& final(self).counter() > old(self).counter()
                    &&& name@ == xmask_name(final(self).counter() as nat)
                    &&& !old(self).names().contains(name@)
                    &&& forall|c: u32|
                        old(self).counter() < c < final(self).counter() ==> old(self).names().contains(
                            xmask_name(c as nat),
                        )
                    &&& final(self).names() == old(self).names().insert(name@)
                    &&& xobject_entries(final(self).dictionary()) == match xobject_entries(
                        old(self).dictionary(),
                    ) {
                        Some(es) => Some(entries_set(es, name@, Some(id))),
                        None => None::<Seq<(Seq<u8>, Option<(u32, u16)>)>>,
                    }
                    &&& resource_keys(final(self).dictionary()) == if has_xobject_key(
                        old(self).dictionary(),
                    ) {
                        resource_keys(old(self).dictionary())
                    } else {
                        resource_keys(old(self).dictionary()).push(xobject_key())
                    }
                },
                None => {
                    &&& final(self).names() == old(self).names()
                    &&& final(self).dictionary() == old(self).dictionary()
                    &&& forall|c: u32| c > old(self).counter() ==> old(self).names().contains(
                        xmask_name(c as nat),
                    )
                },
            },
    {
        match self.try_next_xobject_name() {
            Some(name) => {
                set_xobject_reference(&mut self.dict, &name, id);
                Some(name)
            },
            None => None,
        }
    }
}

} // verus!
