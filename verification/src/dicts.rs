//! Bounded, append-only string dictionaries.
//!
//! A dictionary maps byte strings to small integer indices. Indices are
//! assigned in strict insertion order starting at zero and never change.
//! A dictionary holds at most `max_index` distinct entries; inserting a new
//! string beyond that bound fails. Because the persisted form separates
//! entries with the line-terminator byte, strings containing that byte are
//! rejected at insertion time.

use vstd::prelude::*;
use crate::has_newline;
use crate::push_bytes;

verus! {

/// Capacity of the key dictionary: indices fit a 16-bit header field.
pub const KEYS_MAX: u32 = 65536;

/// Capacity of the value dictionary: indices fit the 30-bit header field
/// (the top two bits of the header word are reserved for flags).
pub const VALS_MAX: u32 = 0x3FFF_FFFF;

/// The byte strings held by a vector of owned byte strings.
pub open spec fn views(v: Seq<Vec<u8>>) -> Seq<Seq<u8>> {
    v.map_values(|s: Vec<u8>| s@)
}

/// The byte string `v` occurs among the entries `d`.
pub open spec fn contains_str(d: Seq<Seq<u8>>, v: Seq<u8>) -> bool {
    exists|i: int| 0 <= i < d.len() && d[i] == v
}

/// The index of `v` among the entries `d` (unique when the entries are
/// distinct, as the dictionary invariant guarantees).
pub open spec fn str_index(d: Seq<Seq<u8>>, v: Seq<u8>) -> int {
    choose|i: int| 0 <= i < d.len() && d[i] == v
}

/// Well-formed entry list: entries are distinct, none contains the
/// line-terminator byte, and the count fits the index type.
pub open spec fn entries_wf(d: Seq<Seq<u8>>) -> bool {
    &&& forall|i: int, j: int| 0 <= i < j < d.len() ==> d[i] != d[j]
    &&& forall|i: int| 0 <= i < d.len() ==> !has_newline(#[trigger] d[i])
    &&& d.len() <= 0xFFFF_FFFF
}

/// One insertion step of a dictionary with entries `d` and bound `max`:
/// the new entry list and the index assigned to `v`, if any.
///
/// A string already present keeps its index and the entries are unchanged.
/// A new string is appended when there is room and it is free of the
/// line-terminator byte; otherwise the insertion fails.
pub open spec fn dict_step(d: Seq<Seq<u8>>, max: nat, v: Seq<u8>) -> (Seq<Seq<u8>>, Option<int>) {
    if contains_str(d, v) {
        (d, Some(str_index(d, v)))
    } else if has_newline(v) {
        (d, None)
    } else if d.len() < max {
        (d.push(v), Some(d.len() as int))
    } else {
        (d, None)
    }
}

/// The persisted form of an entry list: each entry followed by the
/// line-terminator byte, in index order.
pub open spec fn spec_serialize(d: Seq<Seq<u8>>) -> Seq<u8>
    decreases d.len(),
{
    if d.len() == 0 {
        Seq::empty()
    } else {
        d[0] + seq![10u8] + spec_serialize(d.drop_first())
    }
}

/// Splits `data` at each line-terminator byte, with `cur` the partial entry
/// read so far. A trailing entry without a terminator is kept; a trailing
/// empty partial entry is not (a terminator ends every complete entry).
pub open spec fn parse_acc(data: Seq<u8>, cur: Seq<u8>) -> Seq<Seq<u8>>
    decreases data.len(),
{
    if data.len() == 0 {
        if cur.len() == 0 {
            Seq::empty()
        } else {
            seq![cur]
        }
    } else if data[0] == 10u8 {
        seq![cur] + parse_acc(data.skip(1), Seq::empty())
    } else {
        parse_acc(data.skip(1), cur.push(data[0]))
    }
}

/// The entry list encoded by persisted bytes `data`.
pub open spec fn spec_parse(data: Seq<u8>) -> Seq<Seq<u8>> {
    parse_acc(data, Seq::empty())
}

/// Byte-wise equality of two slices.
pub fn bytes_eq(a: &[u8], b: &[u8]) -> (r: bool)
    ensures
        r == (a@ == b@),
{
    if a.len() != b.len() {
        assert(a@ != b@) by {
            assert(a@.len() != b@.len());
        }
        return false;
    }
    let n = a.len();
    let mut i: usize = 0;
    while i < n
        invariant
            n == a@.len() && n == b@.len(),
            0 <= i <= n,
            forall|j: int| 0 <= j < i ==> a@[j] == b@[j],
        decreases n - i,
    {
        if a[i] != b[i] {
            return false;
        }
        i = i + 1;
    }
    assert(a@ =~= b@);
    true
}

/// Whether a slice contains the line-terminator byte.
pub fn contains_newline(v: &[u8]) -> (r: bool)
    ensures
        r == has_newline(v@),
{
    let n = v.len();
    let mut i: usize = 0;
    while i < n
        invariant
            n == v@.len(),
            0 <= i <= n,
            forall|j: int| 0 <= j < i ==> v@[j] != 10u8,
        decreases n - i,
    {
        if v[i] == 10 {
            return true;
        }
        i = i + 1;
    }
    false
}

/// Splits persisted bytes into lines at each line-terminator byte.
fn parse(data: &[u8]) -> (r: Vec<Vec<u8>>)
    ensures
        views(r@) == spec_parse(data@),
        forall|j: int| 0 <= j < r@.len() ==> !has_newline(#[trigger] r@[j]@),
        r@.len() <= data@.len(),
{
    let mut out: Vec<Vec<u8>> = Vec::new();
    let mut cur: Vec<u8> = Vec::new();
    let n = data.len();
    let mut i: usize = 0;
    proof {
        assert(data@.skip(0) =~= data@);
        assert(views(out@) =~= Seq::<Seq<u8>>::empty());
        assert(Seq::<Seq<u8>>::empty() + parse_acc(data@, cur@) =~= parse_acc(data@, cur@));
    }
    while i < n
        invariant
            n == data@.len(),
            0 <= i <= n,
            spec_parse(data@) == views(out@) + parse_acc(data@.skip(i as int), cur@),
            !has_newline(cur@),
            forall|j: int| 0 <= j < out@.len() ==> !has_newline(#[trigger] out@[j]@),
            out@.len() + (if cur@.len() > 0 { 1int } else { 0int }) <= i,
        decreases n - i,
    {
        let ghost tail = data@.skip(i as int);
        proof {
            assert(tail[0] == data@[i as int]);
            assert(tail.skip(1) =~= data@.skip(i + 1 as int));
        }
        if data[i] == 10 {
            let ghost out_before = out@;
            let ghost cur_before = cur@;
            out.push(cur);
            cur = Vec::new();
            proof {
                assert(views(out@) =~= views(out_before).push(cur_before));
                assert(parse_acc(tail, cur_before)
                    == seq![cur_before] + parse_acc(data@.skip(i + 1 as int), Seq::empty()));
                assert(cur@ =~= Seq::<u8>::empty());
                assert(views(out@) + parse_acc(data@.skip(i + 1 as int), cur@)
                    =~= views(out_before) + parse_acc(tail, cur_before));
            }
        } else {
            let ghost cur_before = cur@;
            cur.push(data[i]);
            proof {
                assert(cur@ == cur_before.push(data@[i as int]));
                assert(forall|k: int| 0 <= k < cur@.len() ==> cur@[k] != 10u8);
                assert(parse_acc(tail, cur_before)
                    == parse_acc(tail.skip(1), cur_before.push(tail[0])));
                assert(parse_acc(data@.skip(i + 1 as int), cur@) == parse_acc(tail, cur_before));
            }
        }
        i = i + 1;
    }
    proof {
        assert(data@.skip(n as int) =~= Seq::<u8>::empty());
    }
    if cur.len() > 0 {
        let ghost out_before = out@;
        let ghost cur_before = cur@;
        out.push(cur);
        proof {
            assert(views(out@) =~= views(out_before).push(cur_before));
            assert(parse_acc(Seq::<u8>::empty(), cur_before) == seq![cur_before]);
            assert(views(out_before) + seq![cur_before] =~= views(out@));
        }
    } else {
        proof {
            assert(parse_acc(Seq::<u8>::empty(), cur@) =~= Seq::<Seq<u8>>::empty());
            assert(views(out@) + Seq::<Seq<u8>>::empty() =~= views(out@));
        }
    }
    out
}

/// A bounded, append-only dictionary from byte strings to indices.
pub struct Dict {
    strs: Vec<Vec<u8>>,
    max_index: u32,
}

impl Dict {
    /// The entries in index order.
    pub closed spec fn entries(&self) -> Seq<Seq<u8>> {
        views(self.strs@)
    }

    /// The capacity bound.
    pub closed spec fn max(&self) -> nat {
        self.max_index as nat
    }

    /// Dictionary invariant: well-formed entries within the bound.
    pub open spec fn wf(&self) -> bool {
        entries_wf(self.entries()) && self.entries().len() <= self.max()
    }

    /// An empty dictionary with the given capacity bound.
    pub fn new(max_index: u32) -> (r: Self)
        ensures
            r.wf(),
            r.entries() == Seq::<Seq<u8>>::empty(),
            r.max() == max_index as nat,
    {
        let r = Dict { strs: Vec::new(), max_index };
        assert(r.entries() =~= Seq::<Seq<u8>>::empty());
        r
    }

    /// The number of entries.
    pub fn len(&self) -> (r: usize)
        ensures
            r == self.entries().len(),
    {
        self.strs.len()
    }

    /// Looks up `val`, inserting it with the next sequential index if it is
    /// new and the dictionary has room. Fails (returning `None`) when a new
    /// string would exceed the bound or contains the line-terminator byte.
    pub fn index(&mut self, val: &[u8]) -> (r: Option<u32>)
        requires
            old(self).wf(),
        ensures
            final(self).wf(),
            final(self).max() == old(self).max(),
            final(self).entries() == dict_step(old(self).entries(), old(self).max(), val@).0,
            r matches Some(n) ==> dict_step(old(self).entries(), old(self).max(), val@).1
                == Some(n as int),
            r matches Some(n) ==> n < final(self).entries().len() && final(self).entries()[n as int]
                == val@,
            r is None ==> dict_step(old(self).entries(), old(self).max(), val@).1 is None,
    {
        let ghost d = self.entries();
        let n = self.strs.len();
        let mut i: usize = 0;
        while i < n
            invariant
                self.wf(),
                d == self.entries(),
                n == d.len(),
                0 <= i <= n,
                forall|j: int| 0 <= j < i ==> d[j] != val@,
            decreases n - i,
        {
            if bytes_eq(self.strs[i].as_slice(), val) {
                proof {
                    assert(d[i as int] == val@);
                    assert(contains_str(d, val@));
                    let k = str_index(d, val@);
                    assert(d[k] == val@);
                    assert(k == i as int) by {
                        if k != i as int {
                            if k < i as int {
                                assert(d[k] != d[i as int]);
                            } else {
                                assert(d[i as int] != d[k]);
                            }
                        }
                    }
                }
                return Some(i as u32);
            }
            i = i + 1;
        }
        proof {
            assert(!contains_str(d, val@));
        }
        if contains_newline(val) {
            return None;
        }
        if n >= self.max_index as usize {
            return None;
        }
        let mut owned: Vec<u8> = Vec::new();
        let mut k: usize = 0;
        let m = val.len();
        while k < m
            invariant
                m == val@.len(),
                0 <= k <= m,
                owned@ == val@.subrange(0, k as int),
            decreases m - k,
        {
            owned.push(val[k]);
            assert(owned@ =~= val@.subrange(0, k + 1 as int));
            k = k + 1;
        }
        assert(owned@ =~= val@);
        self.strs.push(owned);
        proof {
            assert(self.entries() =~= d.push(val@));
            assert(self.wf()) by {
                let e = self.entries();
                assert(forall|p: int, q: int| 0 <= p < q < e.len() ==> e[p] != e[q]) by {
                    assert(forall|p: int| 0 <= p < d.len() ==> e[p] == d[p]);
                    assert(e[d.len() as int] == val@);
                    assert(forall|p: int| 0 <= p < d.len() ==> #[trigger] e[p] != val@);
                }
            }
        }
        Some(n as u32)
    }

    /// Serializes the entries in index order into the persisted form.
    pub fn save(&self) -> (r: Vec<u8>)
        requires
            self.wf(),
        ensures
            r@ == spec_serialize(self.entries()),
    {
        let ghost d = self.entries();
        let mut out: Vec<u8> = Vec::new();
        let n = self.strs.len();
        let mut i: usize = 0;
        assert(d.skip(0) =~= d);
        while i < n
            invariant
                self.wf(),
                d == self.entries(),
                n == d.len(),
                0 <= i <= n,
                spec_serialize(d) == out@ + spec_serialize(d.skip(i as int)),
            decreases n - i,
        {
            let ghost out_before = out@;
            push_bytes(&mut out, self.strs[i].as_slice());
            out.push(10);
            proof {
                let tail = d.skip(i as int);
                assert(tail[0] == d[i as int]);
                assert(tail.drop_first() =~= d.skip(i + 1 as int));
                assert(spec_serialize(tail) == tail[0] + seq![10u8] + spec_serialize(tail.drop_first()));
                assert(out@ =~= out_before + d[i as int] + seq![10u8]);
                assert(out@ + spec_serialize(d.skip(i + 1 as int))
                    =~= out_before + spec_serialize(tail));
            }
            i = i + 1;
        }
        proof {
            assert(spec_serialize(d.skip(n as int)) =~= Seq::<u8>::empty());
            assert(out@ + Seq::<u8>::empty() =~= out@);
        }
        out
    }

    /// Reconstructs a dictionary from persisted bytes: entry `i` is line `i`.
    /// Fails when the data is too large for the index type, when the lines
    /// are not distinct, or when there are more lines than `max_index`.
    pub fn load(data: &[u8], max_index: u32) -> (r: Option<Dict>)
        ensures
            r matches Some(d) ==> {
                &&& d.wf()
                &&& d.max() == max_index as nat
                &&& d.entries() == spec_parse(data@)
            },
            r is Some <==> {
                &&& data@.len() <= 0xFFFF_FFFF
                &&& entries_wf(spec_parse(data@))
                &&& spec_parse(data@).len() <= max_index as nat
            },
    {
        if data.len() as u64 > 0xFFFF_FFFF {
            return None;
        }
        let lines = parse(data);
        let ghost lv = views(lines@);
        if lines.len() > max_index as usize {
            proof {
                assert(!(spec_parse(data@).len() <= max_index as nat));
            }
            return None;
        }
        let mut d = Dict::new(max_index);
        let n = lines.len();
        let mut i: usize = 0;
        assert(lv.subrange(0, 0) =~= Seq::<Seq<u8>>::empty());
        while i < n
            invariant
                d.wf(),
                d.max() == max_index as nat,
                n == lv.len() && n == lines@.len(),
                n <= max_index as nat,
                lv == spec_parse(data@),
                forall|j: int| 0 <= j < n ==> lines@[j]@ == lv[j],
                forall|j: int| 0 <= j < n ==> !has_newline(#[trigger] lv[j]),
                0 <= i <= n,
                d.entries() == lv.subrange(0, i as int),
            decreases n - i,
        {
            let ghost before = d.entries();
            match d.index(lines[i].as_slice()) {
                None => {
                    // A parsed line never contains the terminator and there
                    // is room, so this is unreachable; report failure anyway.
                    proof {
                        assert(!contains_str(before, lv[i as int]) ==> false) by {
                            if !contains_str(before, lv[i as int]) {
                                assert(!has_newline(lv[i as int]));
                                assert(before.len() < max_index as nat);
                            }
                        }
                        let k = str_index(before, lv[i as int]);
                        assert(0 <= k < i && lv[k] == lv[i as int]);
                        assert(!entries_wf(lv));
                    }
                    return None;
                }
                Some(idx) => {
                    if idx as usize != i {
                        // The line was already present: duplicate entries.
                        proof {
                            if !contains_str(before, lv[i as int]) {
                                assert(dict_step(before, max_index as nat, lv[i as int]).1
                                    == Some(before.len() as int));
                                assert(false);
                            }
                            let k = str_index(before, lv[i as int]);
                            assert(0 <= k < i && lv[k] == lv[i as int]);
                            assert(!entries_wf(lv));
                        }
                        return None;
                    }
                    proof {
                        if contains_str(before, lv[i as int]) {
                            let k = str_index(before, lv[i as int]);
                            assert(0 <= k < before.len() && before[k] == lv[i as int]);
                            assert(dict_step(before, max_index as nat, lv[i as int]).1
                                == Some(k));
                            assert(false);
                        }
                        assert(d.entries() =~= lv.subrange(0, i + 1 as int));
                    }
                }
            }
            i = i + 1;
        }
        proof {
            assert(d.entries() =~= lv);
            assert(entries_wf(lv));
        }
        Some(d)
    }

    /// The byte string previously assigned to `index`.
    pub fn value(&self, index: u32) -> (r: &[u8])
        requires
            self.wf(),
            index < self.entries().len(),
        ensures
            r@ == self.entries()[index as int],
    {
        self.strs[index as usize].as_slice()
    }
}

/// The pair of dictionaries used by the record codec: one for category and
/// subkey names (indices fit 16 bits), one for dictionary-indexed values
/// (indices fit 30 bits). The value dictionary is pre-seeded with the
/// single-byte sentinel `-` at index 0.
pub struct Dicts {
    keys: Dict,
    vals: Dict,
}

impl Dicts {
    /// The key dictionary's entries in index order.
    pub closed spec fn keys_entries(&self) -> Seq<Seq<u8>> {
        self.keys.entries()
    }

    /// The value dictionary's entries in index order.
    pub closed spec fn vals_entries(&self) -> Seq<Seq<u8>> {
        self.vals.entries()
    }

    /// Both dictionaries are well-formed and carry their fixed bounds.
    pub closed spec fn wf(&self) -> bool {
        &&& self.keys.wf()
        &&& self.vals.wf()
        &&& self.keys.max() == KEYS_MAX as nat
        &&& self.vals.max() == VALS_MAX as nat
    }

    /// Fresh dictionaries: no keys, and the value dictionary pre-seeded
    /// with the sentinel `-` at index 0.
    pub fn new() -> (r: Self)
        ensures
            r.wf(),
            r.keys_entries() == Seq::<Seq<u8>>::empty(),
            r.vals_entries() == seq![seq![45u8]],
    {
        let keys = Dict::new(KEYS_MAX);
        let mut vals = Dict::new(VALS_MAX);
        let mut sentinel: Vec<u8> = Vec::new();
        sentinel.push(45);
        proof {
            assert(sentinel@ =~= seq![45u8]);
            assert(!has_newline(seq![45u8]));
            assert(!contains_str(Seq::<Seq<u8>>::empty(), seq![45u8]));
        }
        let _seeded = vals.index(sentinel.as_slice());
        proof {
            assert(vals.entries() =~= seq![seq![45u8]]);
        }
        Dicts { keys, vals }
    }

    /// Reconstructs both dictionaries from their persisted forms.
    pub fn load(keys_data: &[u8], vals_data: &[u8]) -> (r: Option<Dicts>)
        ensures
            r matches Some(d) ==> {
                &&& d.wf()
                &&& d.keys_entries() == spec_parse(keys_data@)
                &&& d.vals_entries() == spec_parse(vals_data@)
            },
            r is Some <==> {
                &&& keys_data@.len() <= 0xFFFF_FFFF
                &&& entries_wf(spec_parse(keys_data@))
                &&& spec_parse(keys_data@).len() <= KEYS_MAX as nat
                &&& vals_data@.len() <= 0xFFFF_FFFF
                &&& entries_wf(spec_parse(vals_data@))
                &&& spec_parse(vals_data@).len() <= VALS_MAX as nat
            },
    {
        let keys = match Dict::load(keys_data, KEYS_MAX) {
            Some(k) => k,
            None => {
                return None;
            }
        };
        let vals = match Dict::load(vals_data, VALS_MAX) {
            Some(v) => v,
            None => {
                return None;
            }
        };
        Some(Dicts { keys, vals })
    }

    /// Serializes both dictionaries: the persisted key entries and the
    /// persisted value entries, in that order.
    pub fn save(&self) -> (r: (Vec<u8>, Vec<u8>))
        requires
            self.wf(),
        ensures
            r.0@ == spec_serialize(self.keys_entries()),
            r.1@ == spec_serialize(self.vals_entries()),
    {
        (self.keys.save(), self.vals.save())
    }

    /// Resolves a category or subkey name to its 16-bit index, inserting it
    /// if it is new. Fails when the key dictionary is full or the name
    /// contains the line-terminator byte.
    pub fn key_index(&mut self, key: &[u8]) -> (r: Option<u16>)
        requires
            old(self).wf(),
        ensures
            final(self).wf(),
            final(self).vals_entries() == old(self).vals_entries(),
            final(self).keys_entries()
                == dict_step(old(self).keys_entries(), KEYS_MAX as nat, key@).0,
            r matches Some(n) ==> dict_step(old(self).keys_entries(), KEYS_MAX as nat, key@).1
                == Some(n as int),
            r matches Some(n) ==> n < final(self).keys_entries().len()
                && final(self).keys_entries()[n as int] == key@,
            r is None ==> dict_step(old(self).keys_entries(), KEYS_MAX as nat, key@).1 is None,
    {
        match self.keys.index(key) {
            Some(n) => {
                proof {
                    let step = dict_step(old(self).keys_entries(), KEYS_MAX as nat, key@);
                    assert(step.1 == Some(n as int));
                    assert(n < KEYS_MAX) by {
                        if contains_str(old(self).keys_entries(), key@) {
                            let k = str_index(old(self).keys_entries(), key@);
                            assert(0 <= k < old(self).keys_entries().len());
                        }
                    }
                }
                Some(n as u16)
            }
            None => None,
        }
    }

    /// Resolves a value to its 30-bit index, inserting it if it is new.
    /// Fails when the value dictionary is full or the value contains the
    /// line-terminator byte.
    pub fn value_index(&mut self, val: &[u8]) -> (r: Option<u32>)
        requires
            old(self).wf(),
        ensures
            final(self).wf(),
            final(self).keys_entries() == old(self).keys_entries(),
            final(self).vals_entries()
                == dict_step(old(self).vals_entries(), VALS_MAX as nat, val@).0,
            r matches Some(n) ==> dict_step(old(self).vals_entries(), VALS_MAX as nat, val@).1
                == Some(n as int),
            r matches Some(n) ==> n < VALS_MAX,
            r matches Some(n) ==> n < final(self).vals_entries().len()
                && final(self).vals_entries()[n as int] == val@,
            r is None ==> dict_step(old(self).vals_entries(), VALS_MAX as nat, val@).1 is None,
    {
        match self.vals.index(val) {
            Some(n) => {
                proof {
                    assert(n < VALS_MAX) by {
                        if contains_str(old(self).vals_entries(), val@) {
                            let k = str_index(old(self).vals_entries(), val@);
                            assert(0 <= k < old(self).vals_entries().len());
                        }
                    }
                }
                Some(n)
            }
            None => None,
        }
    }

    /// The name previously assigned to key index `index`.
    pub fn key(&self, index: u16) -> (r: &[u8])
        requires
            self.wf(),
            index < self.keys_entries().len(),
        ensures
            r@ == self.keys_entries()[index as int],
    {
        self.keys.value(index as u32)
    }

    /// The value previously assigned to value index `index`.
    pub fn value(&self, index: u32) -> (r: &[u8])
        requires
            self.wf(),
            index < self.vals_entries().len(),
        ensures
            r@ == self.vals_entries()[index as int],
    {
        self.vals.value(index)
    }
}

/// Law: inserting the same byte string twice assigns the same index both
/// times, the second insertion leaves the entries unchanged, and a single
/// insertion grows the dictionary by at most one entry.
pub proof fn lemma_dict_idempotent(d: Seq<Seq<u8>>, max: nat, v: Seq<u8>)
    requires
        entries_wf(d),
    ensures
        ({
            let once = dict_step(d, max, v);
            let twice = dict_step(once.0, max, v);
            &&& twice.1 == once.1
            &&& twice.0 == once.0
            &&& d.len() <= once.0.len() <= d.len() + 1
        }),
{
    let once = dict_step(d, max, v);
    if !contains_str(d, v) && !has_newline(v) && d.len() < max {
        let d1 = d.push(v);
        assert(d1[d.len() as int] == v);
        assert(contains_str(d1, v));
        let k = str_index(d1, v);
        assert(0 <= k < d1.len() && d1[k] == v);
        assert(k == d.len() as int) by {
            if k < d.len() {
                assert(d[k] == v);
            }
        }
    }
}

/// Law: a dictionary with bound `max` assigns a new string the next
/// sequential index — its current entry count — exactly when it holds fewer
/// than `max` entries; the insertion past the bound fails and changes
/// nothing.
pub proof fn lemma_dict_bound(d: Seq<Seq<u8>>, max: nat, v: Seq<u8>)
    requires
        !contains_str(d, v),
        !has_newline(v),
    ensures
        d.len() < max ==> dict_step(d, max, v) == (d.push(v), Some(d.len() as int)),
        d.len() >= max ==> dict_step(d, max, v) == (d, None::<int>),
{
}

/// Parsing consumes a terminator-free prefix into the partial entry.
proof fn lemma_parse_acc_extend(s: Seq<u8>, rest: Seq<u8>, cur: Seq<u8>)
    requires
        !has_newline(s),
    ensures
        parse_acc(s + rest, cur) == parse_acc(rest, cur + s),
    decreases s.len(),
{
    if s.len() == 0 {
        assert(s + rest =~= rest);
        assert(cur + s =~= cur);
    } else {
        let joined = s + rest;
        assert(joined[0] == s[0]);
        assert(s[0] != 10u8) by {
            if s[0] == 10u8 {
                assert(has_newline(s));
            }
        }
        assert(joined.skip(1) =~= s.skip(1) + rest);
        assert(!has_newline(s.skip(1))) by {
            if has_newline(s.skip(1)) {
                let i = choose|i: int| 0 <= i < s.skip(1).len() && s.skip(1)[i] == 10u8;
                assert(s[i + 1] == 10u8);
                assert(has_newline(s));
            }
        }
        lemma_parse_acc_extend(s.skip(1), rest, cur.push(s[0]));
        assert(cur.push(s[0]) + s.skip(1) =~= cur + s);
    }
}

/// Law: parsing the persisted form of a terminator-free entry list yields
/// exactly the same entries, in the same order — saving a dictionary and
/// loading the result reproduces every index assignment.
pub proof fn lemma_persist_round_trip(d: Seq<Seq<u8>>)
    requires
        forall|i: int| 0 <= i < d.len() ==> !has_newline(#[trigger] d[i]),
    ensures
        spec_parse(spec_serialize(d)) == d,
    decreases d.len(),
{
    if d.len() == 0 {
        assert(spec_parse(spec_serialize(d)) =~= d);
    } else {
        let first = d[0];
        let rest = d.drop_first();
        let tail = seq![10u8] + spec_serialize(rest);
        assert(spec_serialize(d) =~= first + tail);
        lemma_parse_acc_extend(first, tail, Seq::empty());
        assert(Seq::<u8>::empty() + first =~= first);
        assert(tail[0] == 10u8);
        assert(tail.skip(1) =~= spec_serialize(rest));
        assert(parse_acc(tail, first) == seq![first] + parse_acc(spec_serialize(rest), Seq::empty()));
        assert(forall|i: int| 0 <= i < rest.len() ==> !has_newline(#[trigger] rest[i])) by {
            assert(forall|i: int| 0 <= i < rest.len() ==> rest[i] == d[i + 1]);
        }
        lemma_persist_round_trip(rest);
        assert(seq![first] + rest =~= d);
    }
}

} // verus!
