//! Strings kept once and named by number, and the packed table that they end up in.

use vstd::hash_map::StringHashMap;
use vstd::prelude::*;
use vstd::utf8::{decode_utf8, encode_utf8, valid_utf8};

use crate::text::str_from_utf8;

verus! {

/// Names a string of a [`StringInterner`] or of the [`StringTable`] made from it.
#[derive(Debug, Clone, Copy, PartialEq, Eq, PartialOrd, Ord, Hash, Structural)]
pub struct StringId(pub u32);

/// Collects strings and hands out a [`StringId`] for each.
pub struct StringInterner {
    values: Vec<String>,
    index: Option<StringHashMap<StringId>>,
}

/// Strings packed end to end: string `i` is the bytes from `offsets[i]` to `offsets[i + 1]`.
#[derive(Debug, Clone)]
pub struct StringTable {
    offsets: Vec<usize>,
    bytes: Vec<u8>,
}

impl View for StringInterner {
    type V = Seq<Seq<char>>;

    closed spec fn view(&self) -> Seq<Seq<char>> {
        Seq::new(self.values@.len(), |i: int| self.values@[i]@)
    }
}

impl View for StringTable {
    type V = Seq<Seq<char>>;

    closed spec fn view(&self) -> Seq<Seq<char>> {
        Seq::new(
            (if self.offsets@.len() == 0 {
                0
            } else {
                self.offsets@.len() - 1
            }) as nat,
            |i: int| decode_utf8(self.segment(i)),
        )
    }
}

impl StringInterner {
    /// Whether the interner looks strings up and so keeps each of them once.
    pub closed spec fn has_lookup(&self) -> bool {
        self.index is Some
    }

    /// The lookup, where there is one, leads from each string to its number and holds nothing else.
    pub closed spec fn wf(&self) -> bool {
        self.index matches Some(index) ==> {
            &&& forall|i: int|
                0 <= i < self@.len() ==> #[trigger] index@.contains_key(self@[i]) && index@[self@[i]].0
                    == i
            &&& forall|k: Seq<char>| #[trigger]
                index@.contains_key(k) ==> index@[k].0 < self@.len() && self@[index@[k].0 as int] == k
        }
    }

    /// An interner that keeps equal strings once.
    #[must_use]
    pub fn new() -> (r: Self)
        ensures
            r.wf(),
            r.has_lookup(),
            r@ == Seq::<Seq<char>>::empty(),
    {
        let r = Self { values: Vec::new(), index: Some(StringHashMap::new()) };
        assert(r@ =~= Seq::<Seq<char>>::empty());
        r
    }

    /// An interner that keeps every string it is given, equal or not.
    #[must_use]
    pub fn without_lookup() -> (r: Self)
        ensures
            r.wf(),
            !r.has_lookup(),
            r@ == Seq::<Seq<char>>::empty(),
    {
        let r = Self { values: Vec::new(), index: None };
        assert(r@ =~= Seq::<Seq<char>>::empty());
        r
    }

    /// Keeps `value` and returns its number: that of the equal string kept before, where the
    /// interner looks strings up and there is one, else the next.
    pub fn intern(&mut self, value: &str) -> (id: StringId)
        requires
            old(self).wf(),
            old(self)@.len() <= u32::MAX,
        ensures
            final(self).wf(),
            final(self).has_lookup() == old(self).has_lookup(),
            old(self).has_lookup() && old(self)@.contains(value@) ==> final(self)@ == old(self)@,
            old(self).has_lookup() && old(self)@.contains(value@) ==> id.0 < old(self)@.len()
                && old(self)@[id.0 as int] == value@,
            !(old(self).has_lookup() && old(self)@.contains(value@)) ==> final(self)@ == old(
                self,
            )@.push(value@) && id.0 == old(self)@.len(),
    {
        self.intern_owned(value.to_owned())
    }

    /// Like [`intern`](Self::intern), for a string that the interner may keep as it is.
    pub fn intern_owned(&mut self, value: String) -> (id: StringId)
        requires
            old(self).wf(),
            old(self)@.len() <= u32::MAX,
        ensures
            final(self).wf(),
            final(self).has_lookup() == old(self).has_lookup(),
            old(self).has_lookup() && old(self)@.contains(value@) ==> final(self)@ == old(self)@,
            old(self).has_lookup() && old(self)@.contains(value@) ==> id.0 < old(self)@.len()
                && old(self)@[id.0 as int] == value@,
            !(old(self).has_lookup() && old(self)@.contains(value@)) ==> final(self)@ == old(
                self,
            )@.push(value@) && id.0 == old(self)@.len(),
    {
        let ghost before = self@;
        let ghost key = value@;
        let id = StringId(self.values.len() as u32);
        match &self.index {
            Some(index) => {
                match index.get(value.as_str()) {
                    Some(found) => {
                        return *found;
                    },
                    None => {
                        assert(!before.contains(key)) by {
                            if before.contains(key) {
                                let i = choose|i: int| 0 <= i < before.len() && before[i] == key;
                                assert(index@.contains_key(before[i]));
                            }
                        }
                    },
                }
            },
            None => {},
        }
        let mut index = None;
        std::mem::swap(&mut index, &mut self.index);
        if let Some(mut map) = index {
            map.insert(value.clone(), id);
            self.index = Some(map);
        }
        self.values.push(value);
        assert(self@ =~= before.push(key));
        id
    }

    /// The string with the number `id`.
    #[must_use]
    pub fn get(&self, id: StringId) -> (r: Option<&str>)
        ensures
            r is Some == (id.0 < self@.len()),
            r matches Some(s) ==> s@ == self@[id.0 as int],
    {
        if (id.0 as usize) < self.values.len() {
            Some(self.values[id.0 as usize].as_str())
        } else {
            None
        }
    }

    /// How many strings are kept.
    #[must_use]
    pub fn len(&self) -> (r: usize)
        ensures
            r == self@.len(),
    {
        self.values.len()
    }

    /// Whether no string is kept.
    #[must_use]
    pub fn is_empty(&self) -> (r: bool)
        ensures
            r == (self@.len() == 0),
    {
        self.values.len() == 0
    }

    /// Packs the strings, in the order of their numbers, and drops the lookup.
    #[must_use]
    pub fn finish(self) -> (table: StringTable)
        ensures
            table.wf(),
            table@ == self@,
    {
        let ghost strings = self@;
        let mut offsets: Vec<usize> = Vec::new();
        let mut bytes: Vec<u8> = Vec::new();
        offsets.push(0);
        let mut i: usize = 0;
        while i < self.values.len()
            invariant
                i <= self.values@.len(),
                strings == self@,
                offsets@.len() == i + 1,
                offsets@[0] == 0,
                offsets@[i as int] == bytes@.len(),
                forall|j: int, k: int| 0 <= j <= k <= i ==> offsets@[j] <= offsets@[k],
                forall|j: int|
                    0 <= j < i ==> bytes@.subrange(
                        #[trigger] offsets@[j] as int,
                        offsets@[j + 1] as int,
                    ) == encode_utf8(strings[j]),
            decreases self.values@.len() - i,
        {
            let ghost before = bytes@;
            let ghost earlier = offsets@;
            let encoded = self.values[i].as_str().as_bytes();
            bytes.extend_from_slice(encoded);
            assert(bytes@ =~= before + encode_utf8(strings[i as int]));
            offsets.push(bytes.len());
            i += 1;
            assert forall|j: int| 0 <= j < i implies bytes@.subrange(
                #[trigger] offsets@[j] as int,
                offsets@[j + 1] as int,
            ) == encode_utf8(strings[j]) by {
                if j < i - 1 {
                    assert(earlier[j] <= earlier[j + 1] <= before.len());
                    assert(bytes@.subrange(offsets@[j] as int, offsets@[j + 1] as int)
                        =~= before.subrange(earlier[j] as int, earlier[j + 1] as int));
                } else {
                    assert(bytes@.subrange(offsets@[j] as int, offsets@[j + 1] as int)
                        =~= encode_utf8(strings[j]));
                }
            }
        }
        let table = StringTable { offsets, bytes };
        proof {
            broadcast use vstd::utf8::encode_utf8_valid_utf8, vstd::utf8::encode_utf8_decode_utf8;

            assert forall|j: int| 0 <= j < strings.len() implies #[trigger] table.segment(j)
                == encode_utf8(strings[j]) by {
                assert(table.offsets@[j] <= table.offsets@[j + 1]);
            }
            assert(table@ =~= strings);
        }
        table
    }
}

impl Default for StringInterner {
    fn default() -> (r: Self)
        ensures
            r.wf(),
            r.has_lookup(),
            r@ == Seq::<Seq<char>>::empty(),
    {
        Self::new()
    }
}

impl StringTable {
    spec fn segment(&self, i: int) -> Seq<u8> {
        self.bytes@.subrange(self.offsets@[i] as int, self.offsets@[i + 1] as int)
    }

    /// The offsets never fall, end within the bytes, and cut them into UTF-8 texts.
    pub closed spec fn wf(&self) -> bool {
        &&& forall|j: int, k: int|
            0 <= j <= k < self.offsets@.len() ==> self.offsets@[j] <= self.offsets@[k]
        &&& forall|j: int|
            0 <= j < self.offsets@.len() ==> #[trigger] self.offsets@[j] <= self.bytes@.len()
        &&& forall|j: int| 0 <= j < self.offsets@.len() - 1 ==> valid_utf8(#[trigger] self.segment(j))
    }

    /// The string with the number `id`.
    #[must_use]
    pub fn get(&self, id: StringId) -> (r: Option<&str>)
        requires
            self.wf(),
        ensures
            r is Some == (id.0 < self@.len()),
            r matches Some(s) ==> s@ == self@[id.0 as int],
    {
        let idx = id.0 as usize;
        if idx >= self.len() {
            return None;
        }
        let start: usize = self.offsets[idx];
        let end: usize = self.offsets[idx + 1];
        assert(valid_utf8(self.segment(idx as int)));
        str_from_utf8(vstd::slice::slice_subrange(self.bytes.as_slice(), start, end))
    }

    /// How many strings the table holds.
    #[must_use]
    pub fn len(&self) -> (r: usize)
        ensures
            r == self@.len(),
    {
        if self.offsets.len() == 0 {
            0
        } else {
            self.offsets.len() - 1
        }
    }

    /// Whether the table holds no string.
    #[must_use]
    pub fn is_empty(&self) -> (r: bool)
        ensures
            r == (self@.len() == 0),
    {
        self.len() == 0
    }
}

impl Default for StringTable {
    fn default() -> (r: Self)
        ensures
            r.wf(),
            r@ == Seq::<Seq<char>>::empty(),
    {
        let r = Self { offsets: Vec::new(), bytes: Vec::new() };
        assert(r@ =~= Seq::<Seq<char>>::empty());
        r
    }
}

impl Clone for StringInterner {
    fn clone(&self) -> (r: Self)
        ensures
            r@ == self@,
            r.has_lookup() == self.has_lookup(),
            self.wf() && self@.len() <= u32::MAX + 1 ==> r.wf(),
    {
        let mut index: StringHashMap<StringId> = StringHashMap::new();
        let mut values: Vec<String> = Vec::new();
        let mut i: usize = 0;
        while i < self.values.len()
            invariant
                i <= self.values@.len(),
                values@.len() == i,
                forall|k: int| 0 <= k < i ==> (#[trigger] values@[k])@ == self.values@[k]@,
                self.wf() && self@.len() <= u32::MAX + 1 && self.has_lookup() ==> {
                    &&& forall|k: int|
                        0 <= k < i ==> #[trigger] index@.contains_key(self@[k]) && index@[self@[k]].0 == k
                    &&& forall|s: Seq<char>| #[trigger]
                        index@.contains_key(s) ==> index@[s].0 < i && self@[index@[s].0 as int] == s
                },
            decreases self.values@.len() - i,
        {
            let value = self.values[i].clone();
            let ghost before = index@;
            index.insert(value.clone(), StringId(i as u32));
            values.push(value);
            proof {
                assert(value@ == self@[i as int]);
                if self.wf() && self@.len() <= u32::MAX + 1 && self.has_lookup() {
                    assert forall|k: int| 0 <= k < i implies self@[k] != value@ by {
                        if self@[k] == value@ {
                            lookup_keeps_strings_once(self, k, i as int);
                        }
                    }
                    assert forall|k: int| 0 <= k < i + 1 implies #[trigger] index@.contains_key(
                        self@[k],
                    ) && index@[self@[k]].0 == k by {
                        if k < i {
                            assert(before.contains_key(self@[k]));
                        }
                    }
                }
            }
            i += 1;
        }
        let r = StringInterner {
            values,
            index: if self.index.is_some() {
                Some(index)
            } else {
                None
            },
        };
        assert(r@ =~= self@);
        r
    }
}

/// An interner that looks strings up never keeps the same string twice.
pub proof fn lookup_keeps_strings_once(interner: &StringInterner, i: int, j: int)
    requires
        interner.wf(),
        interner.has_lookup(),
        0 <= i < interner@.len(),
        0 <= j < interner@.len(),
        interner@[i] == interner@[j],
    ensures
        i == j,
{
    let index = interner.index->0;
    assert(index@.contains_key(interner@[i]));
    assert(index@.contains_key(interner@[j]));
}

} // verus!
