//! The directory hash index: a chained hash table with a fixed number of
//! buckets, keyed by the name, path and size of an entry together.
//!
//! The table never grows. Entries that fall into the same bucket are kept in
//! the order in which they came, and equal entries are kept twice.

use vstd::prelude::*;
use vstd::string::StringExecFns;
use vstd::utf8::encode_utf8;
use crate::entry::{entry_views, EntryView, FileMetadata};
use crate::names::same_text;
use crate::search::{lemma_selected_push, selected, with_name, with_path, SearchKey};

verus! {

/// The multiplier of the 64-bit FNV-1a hash.
pub const FNV_PRIME: u64 = 1099511628211;

/// The value from which the 64-bit FNV-1a hash starts.
pub const FNV_OFFSET_BASIS: u64 = 14695981039346656037;

/// One step of FNV-1a: the byte is XORed into the hash, and the result is
/// multiplied by the prime modulo 2^64.
pub open spec fn fnv1a_step(hash: u64, byte: u8) -> u64 {
    (((hash ^ (byte as u64)) as int * FNV_PRIME as int) % 0x1_0000_0000_0000_0000) as u64
}

/// The 64-bit FNV-1a hash of `bytes`.
pub open spec fn fnv1a(bytes: Seq<u8>) -> u64
    decreases bytes.len(),
{
    if bytes.len() == 0 {
        FNV_OFFSET_BASIS
    } else {
        fnv1a_step(fnv1a(bytes.drop_last()), bytes.last())
    }
}

/// The text that `{:?}` writes for a string: the string between double
/// quotes, with the characters escaped that the standard library escapes.
pub uninterp spec fn debug_text(text: Seq<char>) -> Seq<char>;

/// The text that `{:?}` writes for a path.
pub uninterp spec fn path_debug_text(path: Seq<char>) -> Seq<char>;

/// The character of a decimal digit.
pub open spec fn digit_char(digit: nat) -> char {
    if digit == 0 {
        '0'
    } else if digit == 1 {
        '1'
    } else if digit == 2 {
        '2'
    } else if digit == 3 {
        '3'
    } else if digit == 4 {
        '4'
    } else if digit == 5 {
        '5'
    } else if digit == 6 {
        '6'
    } else if digit == 7 {
        '7'
    } else if digit == 8 {
        '8'
    } else {
        '9'
    }
}

/// `n` written in decimal, without leading zeros.
pub open spec fn decimal_text(n: nat) -> Seq<char>
    decreases n,
{
    if n < 10 {
        seq![digit_char(n)]
    } else {
        decimal_text(n / 10).push(digit_char(n % 10))
    }
}

/// The text from which the hash of an entry is taken: its name and its path,
/// each as `{:?}` writes it, and its size in decimal, one after the other.
pub open spec fn key_text(entry: EntryView) -> Seq<char> {
    debug_text(entry.name) + path_debug_text(entry.path) + decimal_text(entry.size as nat)
}

/// The bucket for the key text `key` in a table of `bucket_count` buckets:
/// the FNV-1a hash of its UTF-8 encoding modulo the number of buckets.
pub open spec fn slot_of(key: Seq<char>, bucket_count: nat) -> int {
    fnv1a(encode_utf8(key)) as int % bucket_count as int
}

/// The mathematical values of the entries of one bucket.
pub open spec fn bucket_view(bucket: Vec<FileMetadata>) -> Seq<EntryView> {
    entry_views(bucket@)
}

/// The table of `bucket_count` empty buckets.
pub open spec fn empty_table(bucket_count: nat) -> Seq<Seq<EntryView>> {
    Seq::new(bucket_count, |i: int| Seq::<EntryView>::empty())
}

/// The entries of all buckets, bucket after bucket.
pub open spec fn all_entries(table: Seq<Seq<EntryView>>) -> Seq<EntryView>
    decreases table.len(),
{
    if table.len() == 0 {
        Seq::empty()
    } else {
        all_entries(table.drop_last()) + table.last()
    }
}

/// The number of buckets of `table` that are not empty.
pub open spec fn occupied(table: Seq<Seq<EntryView>>) -> nat
    decreases table.len(),
{
    if table.len() == 0 {
        0
    } else if table.last().len() > 0 {
        occupied(table.drop_last()) + 1
    } else {
        occupied(table.drop_last())
    }
}

/// `bucket` has an entry with the name, path and size of `entry`.
pub open spec fn bucket_holds(bucket: Seq<EntryView>, entry: EntryView) -> bool {
    exists|i: int| 0 <= i < bucket.len() && (#[trigger] bucket[i]).same_identity(entry)
}

/// The bucket of `table` in which `entry` belongs has an entry with its name,
/// path and size.
pub open spec fn table_holds(table: Seq<Seq<EntryView>>, entry: EntryView) -> bool {
    bucket_holds(table[slot_of(key_text(entry), table.len())], entry)
}

/// `table` after `entry` has been appended to the bucket for the key text
/// `key`.
pub open spec fn table_with(table: Seq<Seq<EntryView>>, key: Seq<char>, entry: EntryView) -> Seq<
    Seq<EntryView>,
> {
    let slot = slot_of(key, table.len());
    table.update(slot, table[slot].push(entry))
}

/// The number of occupied buckets lies between 0 and the number of buckets.
/// It is 0 exactly when every bucket is empty, and the number of buckets
/// exactly when none is.
pub proof fn lemma_occupied_bounds(table: Seq<Seq<EntryView>>)
    ensures
        occupied(table) <= table.len(),
        occupied(table) == 0 <==> forall|i: int|
            0 <= i < table.len() ==> (#[trigger] table[i]).len() == 0,
        occupied(table) == table.len() <==> forall|i: int|
            0 <= i < table.len() ==> (#[trigger] table[i]).len() > 0,
    decreases table.len(),
{
    if table.len() > 0 {
        let front = table.drop_last();
        lemma_occupied_bounds(front);
        assert(forall|i: int| 0 <= i < front.len() ==> front[i] == table[i]);
        assert(table.last() == table[table.len() - 1]);
        if forall|i: int| 0 <= i < table.len() ==> (#[trigger] table[i]).len() == 0 {
            assert forall|i: int| 0 <= i < front.len() implies (#[trigger] front[i]).len()
                == 0 by {
                assert(front[i] == table[i]);
            }
        }
        if forall|i: int| 0 <= i < table.len() ==> (#[trigger] table[i]).len() > 0 {
            assert forall|i: int| 0 <= i < front.len() implies (#[trigger] front[i]).len()
                > 0 by {
                assert(front[i] == table[i]);
            }
        }
    }
}

/// An entry that has been put into a table is found there, and so is every
/// entry that was found there before.
pub proof fn lemma_inserted_is_held(table: Seq<Seq<EntryView>>, entry: EntryView, other: EntryView)
    requires
        table.len() > 0,
    ensures
        table_holds(table_with(table, key_text(entry), entry), entry),
        table_holds(table, other) ==> table_holds(
            table_with(table, key_text(entry), entry),
            other,
        ),
{
    let slot = slot_of(key_text(entry), table.len());
    let after = table_with(table, key_text(entry), entry);
    let bucket = table[slot];
    assert(after[slot] == bucket.push(entry));
    assert(after[slot][bucket.len() as int].same_identity(entry));
    if table_holds(table, other) {
        let place = slot_of(key_text(other), table.len());
        let i = choose|i: int|
            0 <= i < table[place].len() && (#[trigger] table[place][i]).same_identity(other);
        assert(after[place][i].same_identity(other));
    }
}

/// Entries with the same name, path and size have the same key text, the
/// same hash, and fall into the same bucket.
pub proof fn lemma_same_identity_same_slot(a: EntryView, b: EntryView, bucket_count: nat)
    requires
        a.same_identity(b),
    ensures
        key_text(a) == key_text(b),
        fnv1a(encode_utf8(key_text(a))) == fnv1a(encode_utf8(key_text(b))),
        slot_of(key_text(a), bucket_count) == slot_of(key_text(b), bucket_count),
{
}

/// Formats `text` with `{:?}`, the `Debug` implementation of `str`. The
/// result is taken to depend on the text alone.
#[verifier::external_body]
fn quote_text(text: &str) -> (quoted: String)
    ensures
        quoted@ == debug_text(text@),
{
    format!("{:?}", text)
}

/// Formats `path` with `{:?}`, the `Debug` implementation of
/// `std::path::Path`. The result is taken to depend on the path alone.
#[verifier::external_body]
fn quote_path(path: &str) -> (quoted: String)
    ensures
        quoted@ == path_debug_text(path@),
{
    format!("{:?}", std::path::Path::new(path))
}

/// The text of one decimal digit.
fn digit_text(digit: u64) -> (text: &'static str)
    requires
        digit < 10,
    ensures
        text@ == seq![digit_char(digit as nat)],
{
    proof {
        reveal_strlit("0");
        reveal_strlit("1");
        reveal_strlit("2");
        reveal_strlit("3");
        reveal_strlit("4");
        reveal_strlit("5");
        reveal_strlit("6");
        reveal_strlit("7");
        reveal_strlit("8");
        reveal_strlit("9");
    }
    let text = if digit == 0 {
        "0"
    } else if digit == 1 {
        "1"
    } else if digit == 2 {
        "2"
    } else if digit == 3 {
        "3"
    } else if digit == 4 {
        "4"
    } else if digit == 5 {
        "5"
    } else if digit == 6 {
        "6"
    } else if digit == 7 {
        "7"
    } else if digit == 8 {
        "8"
    } else {
        "9"
    };
    assert(text@ =~= seq![digit_char(digit as nat)]);
    text
}

/// Writes `n` in decimal.
pub fn decimal(n: u64) -> (digits: String)
    ensures
        digits@ == decimal_text(n as nat),
    decreases n,
{
    if n < 10 {
        digit_text(n).to_owned()
    } else {
        let digits = decimal(n / 10).concat(digit_text(n % 10));
        assert(digits@ =~= decimal_text(n as nat));
        digits
    }
}

/// The key text of `file`.
pub fn entry_key(file: &FileMetadata) -> (key: String)
    ensures
        key@ == key_text(file@),
{
    let name = quote_text(file.name.as_str());
    let path = quote_path(file.path.as_str());
    let size = decimal(file.size);
    name.concat(path.as_str()).concat(size.as_str())
}

/// A load factor as a fraction of whole numbers.
#[derive(Clone, Copy, Debug, PartialEq, Eq, Structural)]
pub struct LoadFactor {
    /// The number of buckets that are not empty.
    pub occupied: usize,
    /// The number of buckets.
    pub buckets: usize,
}

/// The directory hash index.
#[derive(Clone, Debug)]
pub struct HashTable {
    pub buckets: Vec<Vec<FileMetadata>>,
}

impl View for HashTable {
    type V = Seq<Seq<EntryView>>;

    open spec fn view(&self) -> Seq<Seq<EntryView>> {
        Seq::new(self.buckets@.len(), |i: int| bucket_view(self.buckets@[i]))
    }
}

impl HashTable {
    /// A table of `size` empty buckets.
    pub fn new(size: usize) -> (table: Self)
        ensures
            table@ == empty_table(size as nat),
    {
        let mut buckets: Vec<Vec<FileMetadata>> = Vec::new();
        let mut i: usize = 0;
        while i < size
            invariant
                i <= size,
                buckets@.len() == i,
                forall|k: int| 0 <= k < i ==> (#[trigger] buckets@[k])@.len() == 0,
            decreases size - i,
        {
            buckets.push(Vec::new());
            i += 1;
        }
        let table = HashTable { buckets };
        proof {
            assert forall|k: int| 0 <= k < size implies #[trigger] table@[k] == empty_table(
                size as nat,
            )[k] by {
                assert(table@[k] =~= Seq::<EntryView>::empty());
            }
            assert(table@ =~= empty_table(size as nat));
        }
        table
    }

    /// The 64-bit FNV-1a hash of the UTF-8 encoding of `key`.
    pub fn hash(&self, key: &str) -> (hash: u64)
        ensures
            hash == fnv1a(encode_utf8(key@)),
    {
        let bytes = key.as_bytes();
        let mut hash: u64 = FNV_OFFSET_BASIS;
        let mut i: usize = 0;
        while i < bytes.len()
            invariant
                i <= bytes.len(),
                hash == fnv1a(bytes@.take(i as int)),
            decreases bytes.len() - i,
        {
            assert(bytes@.take(i + 1).drop_last() =~= bytes@.take(i as int));
            hash = hash ^ (bytes[i] as u64);
            hash = hash.wrapping_mul(FNV_PRIME);
            i += 1;
        }
        assert(bytes@.take(i as int) =~= bytes@);
        hash
    }

    /// The index of the bucket for the key text `key`.
    pub fn bucket_index(&self, key: &str) -> (slot: usize)
        requires
            self@.len() > 0,
        ensures
            slot == slot_of(key@, self@.len()),
            slot < self@.len(),
    {
        let hash = self.hash(key);
        let len = self.buckets.len();
        (hash % (len as u64)) as usize
    }

    /// Appends `file` to the bucket for the key text `key`.
    pub fn insert_with_key(&mut self, key: &str, file: FileMetadata)
        requires
            old(self)@.len() > 0,
        ensures
            final(self)@ == table_with(old(self)@, key@, file@),
    {
        let len = self.buckets.len();
        let slot = self.bucket_index(key);
        self.buckets[slot].push(file);
        proof {
            assert(slot as int == slot_of(key@, old(self)@.len()));
            assert(self.buckets@.len() == len);
            assert(bucket_view(self.buckets@[slot as int]) =~= old(self)@[slot as int].push(file@));
            assert forall|i: int| 0 <= i < len implies #[trigger] self@[i] == table_with(
                old(self)@,
                key@,
                file@,
            )[i] by {
                if i != slot {
                    assert(self.buckets@[i] == old(self).buckets@[i]);
                }
            }
            assert(self@ =~= table_with(old(self)@, key@, file@));
        }
    }

    /// Puts `file` into the table, into the bucket for its key text. An
    /// entry equal to one that is already there is kept as well.
    pub fn insert(&mut self, file: FileMetadata)
        requires
            old(self)@.len() > 0,
        ensures
            final(self)@ == table_with(old(self)@, key_text(file@), file@),
    {
        let key = entry_key(&file);
        self.insert_with_key(key.as_str(), file);
    }

    /// Tells whether the bucket `slot` has an entry with the name, path and
    /// size of `file`.
    pub fn scan_bucket(&self, slot: usize, file: &FileMetadata) -> (held: bool)
        requires
            slot < self@.len(),
        ensures
            held == bucket_holds(self@[slot as int], file@),
    {
        let bucket = &self.buckets[slot];
        let mut i: usize = 0;
        while i < bucket.len()
            invariant
                i <= bucket.len(),
                slot < self@.len(),
                *bucket == self.buckets@[slot as int],
                forall|k: int| 0 <= k < i ==> !(#[trigger] self@[slot as int][k]).same_identity(file@),
            decreases bucket.len() - i,
        {
            if bucket[i].same_identity(file) {
                assert(self@[slot as int][i as int].same_identity(file@));
                return true;
            }
            i += 1;
        }
        false
    }

    /// Tells whether the table has an entry with the name, path and size of
    /// `file`. Only the bucket in which such an entry belongs is searched.
    pub fn contains(&self, file: &FileMetadata) -> (held: bool)
        requires
            self@.len() > 0,
        ensures
            held == table_holds(self@, file@),
    {
        let key = entry_key(file);
        let slot = self.bucket_index(key.as_str());
        self.scan_bucket(slot, file)
    }

    /// Returns all entries, bucket after bucket.
    pub fn entries(&self) -> (all: Vec<FileMetadata>)
        ensures
            entry_views(all@) == all_entries(self@),
    {
        let mut all: Vec<FileMetadata> = Vec::new();
        let mut i: usize = 0;
        assert(self@.take(0) =~= Seq::empty());
        assert(entry_views(all@) =~= Seq::empty());
        while i < self.buckets.len()
            invariant
                i <= self.buckets@.len(),
                entry_views(all@) == all_entries(self@.take(i as int)),
            decreases self.buckets@.len() - i,
        {
            let bucket = &self.buckets[i];
            let mut j: usize = 0;
            let ghost before = all_entries(self@.take(i as int));
            assert(self@[i as int].take(0) =~= Seq::empty());
            assert(before + Seq::<EntryView>::empty() =~= before);
            while j < bucket.len()
                invariant
                    i < self.buckets@.len(),
                    j <= bucket.len(),
                    *bucket == self.buckets@[i as int],
                    entry_views(all@) == before + self@[i as int].take(j as int),
                decreases bucket.len() - j,
            {
                let ghost so_far = all@;
                all.push(bucket[j].clone());
                proof {
                    assert(self@[i as int][j as int] == bucket@[j as int]@);
                    assert(entry_views(all@) =~= entry_views(so_far).push(bucket@[j as int]@));
                    assert(before + self@[i as int].take(j + 1) =~= (before + self@[i as int].take(
                        j as int,
                    )).push(bucket@[j as int]@));
                }
                j += 1;
            }
            proof {
                assert(self@[i as int].take(j as int) =~= self@[i as int]);
                assert(self@.take(i + 1).drop_last() =~= self@.take(i as int));
                assert(self@.take(i + 1).last() == self@[i as int]);
            }
            i += 1;
        }
        assert(self@.take(i as int) =~= self@);
        all
    }

    /// Returns every entry whose name, or path, is `text`, bucket after
    /// bucket. The hash is of no use here: every entry is looked at.
    pub fn search(&self, key: SearchKey, text: &str) -> (found: Vec<FileMetadata>)
        ensures
            entry_views(found@) == selected(all_entries(self@), key, text@),
    {
        let mut found: Vec<FileMetadata> = Vec::new();
        let mut i: usize = 0;
        assert(self@.take(0) =~= Seq::empty());
        assert(entry_views(found@) =~= Seq::empty());
        while i < self.buckets.len()
            invariant
                i <= self.buckets@.len(),
                entry_views(found@) == selected(all_entries(self@.take(i as int)), key, text@),
            decreases self.buckets@.len() - i,
        {
            let bucket = &self.buckets[i];
            let mut j: usize = 0;
            let ghost before = all_entries(self@.take(i as int));
            assert(self@[i as int].take(0) =~= Seq::empty());
            assert(before + Seq::<EntryView>::empty() =~= before);
            while j < bucket.len()
                invariant
                    i < self.buckets@.len(),
                    j <= bucket.len(),
                    *bucket == self.buckets@[i as int],
                    before == all_entries(self@.take(i as int)),
                    entry_views(found@) == selected(
                        before + self@[i as int].take(j as int),
                        key,
                        text@,
                    ),
                decreases bucket.len() - j,
            {
                let entry = &bucket[j];
                let hit = match key {
                    SearchKey::Name => same_text(entry.name.as_str(), text),
                    SearchKey::Path => same_text(entry.path.as_str(), text),
                };
                let ghost seen = before + self@[i as int].take(j as int);
                let ghost so_far = found@;
                if hit {
                    found.push(entry.clone());
                    assert(entry_views(found@) =~= entry_views(so_far).push(entry@));
                }
                proof {
                    assert(self@[i as int][j as int] == entry@);
                    assert(before + self@[i as int].take(j + 1) =~= seen.push(entry@));
                    lemma_selected_push(seen, entry@, key, text@);
                }
                j += 1;
            }
            proof {
                assert(self@[i as int].take(j as int) =~= self@[i as int]);
                assert(self@.take(i + 1).drop_last() =~= self@.take(i as int));
                assert(self@.take(i + 1).last() == self@[i as int]);
            }
            i += 1;
        }
        assert(self@.take(i as int) =~= self@);
        found
    }

    /// Returns every directory whose name is `name`.
    pub fn search_by_name(&self, name: &str) -> (found: Vec<FileMetadata>)
        ensures
            entry_views(found@) == with_name(all_entries(self@), name@),
    {
        self.search(SearchKey::Name, name)
    }

    /// Returns every directory whose path is `path`.
    pub fn search_by_path(&self, path: &str) -> (found: Vec<FileMetadata>)
        ensures
            entry_views(found@) == with_path(all_entries(self@), path@),
    {
        self.search(SearchKey::Path, path)
    }

    /// The number of buckets that are not empty.
    pub fn occupied_buckets(&self) -> (count: usize)
        ensures
            count == occupied(self@),
    {
        let mut count: usize = 0;
        let mut i: usize = 0;
        assert(self@.take(0) =~= Seq::empty());
        while i < self.buckets.len()
            invariant
                i <= self.buckets@.len(),
                count == occupied(self@.take(i as int)),
                count <= i,
            decreases self.buckets@.len() - i,
        {
            proof {
                assert(self@.take(i + 1).drop_last() =~= self@.take(i as int));
                assert(self@.take(i + 1).last() == self@[i as int]);
            }
            if self.buckets[i].len() > 0 {
                count += 1;
            }
            i += 1;
        }
        assert(self@.take(i as int) =~= self@);
        count
    }

    /// The load factor as a fraction: the number of buckets that are not
    /// empty over the number of buckets.
    pub fn load_factor(&self) -> (load: LoadFactor)
        ensures
            load.occupied == occupied(self@),
            load.buckets == self@.len(),
            load.occupied <= load.buckets,
            load.occupied == 0 <==> forall|i: int|
                0 <= i < self@.len() ==> (#[trigger] self@[i]).len() == 0,
            load.occupied == load.buckets <==> forall|i: int|
                0 <= i < self@.len() ==> (#[trigger] self@[i]).len() > 0,
    {
        proof {
            lemma_occupied_bounds(self@);
        }
        LoadFactor { occupied: self.occupied_buckets(), buckets: self.buckets.len() }
    }
}

} // verus!
